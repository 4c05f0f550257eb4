//! The solver: reduces a token sequence to a single number.
//!
//! One call inspects at most the first three tokens. A single group is
//! solved by recursing into its contents; otherwise the sequence must start
//! with operand, operator, operand. That triple is folded into one number,
//! and solving continues with the folded number standing in front of the
//! remaining tokens — strictly left to right, with no operator precedence.

use vstd::arithmetic::div_mod::{
    lemma_div_is_strictly_smaller, lemma_div_nonincreasing, lemma_div_of0, lemma_div_pos_is_pos,
    lemma_mod_division_less_than_divisor, lemma_small_mod,
};
use vstd::prelude::*;
use vstd::string::StringExecFns;

use crate::decimal::{spec_dec_add, spec_dec_div, spec_dec_mul, spec_dec_rem, spec_dec_sub};
use crate::tokenizer::{
    spec_decimal_bits, token_model, tokens_model, Number, Operator, SpecToken, Token,
};

verus! {

broadcast use crate::tokenizer::lemma_tokens_model_len, crate::tokenizer::lemma_tokens_model_index;

/// Why solving failed.
#[derive(Debug, Clone, Copy, PartialEq, Eq)]
pub enum SolveError {
    /// An operand position holds an operator token.
    OperatorAsOperand,
    /// The token sequence has no recognized shape: it is empty, too short,
    /// its second token is not an operator, or a lone token is not a group.
    MalformedExpression,
    /// An integer division or modulo has divisor zero.
    DivisionByZero,
}

/// The message a caller can print for each error.
pub open spec fn spec_message(e: SolveError) -> Seq<char> {
    match e {
        SolveError::OperatorAsOperand => "First token can't be an operator!"@,
        SolveError::MalformedExpression => "Unknown case!"@,
        SolveError::DivisionByZero => "Division by zero!"@,
    }
}

impl SolveError {
    /// A human-readable message for this error.
    pub fn message(&self) -> (r: String)
        ensures
            r@ == spec_message(*self),
    {
        match self {
            SolveError::OperatorAsOperand => String::from_str("First token can't be an operator!"),
            SolveError::MalformedExpression => String::from_str("Unknown case!"),
            SolveError::DivisionByZero => String::from_str("Division by zero!"),
        }
    }
}

/// The quotient of `x` by `d`, rounded toward zero, as `/` rounds on the
/// machine integers.
pub open spec fn trunc_div(x: int, d: int) -> int {
    if x >= 0 && d > 0 {
        x / d
    } else if x < 0 && d < 0 {
        (-x) / (-d)
    } else if x < 0 {
        -((-x) / d)
    } else {
        -(x / (-d))
    }
}

/// The remainder of `x` by `d` with the sign of the dividend, as `%` leaves
/// it on the machine integers; `trunc_div(x, d) * d + trunc_rem(x, d) == x`.
pub open spec fn trunc_rem(x: int, d: int) -> int {
    if x >= 0 && d > 0 {
        x % d
    } else if x < 0 && d < 0 {
        -((-x) % (-d))
    } else if x < 0 {
        -((-x) % d)
    } else {
        x % (-d)
    }
}

/// The sum: exact wrapping 64-bit arithmetic on two integers, IEEE-754
/// double arithmetic as soon as either operand is a decimal.
pub open spec fn spec_add(a: Number, b: Number) -> Number {
    match (a, b) {
        (Number::Integer(x), Number::Integer(y)) => Number::Integer(x.wrapping_add(y)),
        _ => Number::Decimal(spec_dec_add(spec_decimal_bits(a), spec_decimal_bits(b))),
    }
}

/// The difference, with the same promotion rule as [`spec_add`].
pub open spec fn spec_subtract(a: Number, b: Number) -> Number {
    match (a, b) {
        (Number::Integer(x), Number::Integer(y)) => Number::Integer(x.wrapping_sub(y)),
        _ => Number::Decimal(spec_dec_sub(spec_decimal_bits(a), spec_decimal_bits(b))),
    }
}

/// The product, with the same promotion rule as [`spec_add`].
pub open spec fn spec_multiply(a: Number, b: Number) -> Number {
    match (a, b) {
        (Number::Integer(x), Number::Integer(y)) => Number::Integer(x.wrapping_mul(y)),
        _ => Number::Decimal(spec_dec_mul(spec_decimal_bits(a), spec_decimal_bits(b))),
    }
}

/// The quotient. Integer division truncates toward zero and rejects a zero
/// divisor; the one overflowing case, `i64::MIN / -1`, wraps to `i64::MIN`.
/// Decimal division follows IEEE-754, where a zero divisor yields an
/// infinity or NaN rather than an error.
pub open spec fn spec_divide(a: Number, b: Number) -> Result<Number, SolveError> {
    match (a, b) {
        (Number::Integer(x), Number::Integer(y)) => if y == 0 {
            Err(SolveError::DivisionByZero)
        } else if x == i64::MIN && y == -1 {
            Ok(Number::Integer(i64::MIN))
        } else {
            Ok(Number::Integer(trunc_div(x as int, y as int) as i64))
        },
        _ => Ok(
            Number::Decimal(spec_dec_div(spec_decimal_bits(a), spec_decimal_bits(b))),
        ),
    }
}

/// The remainder, under the same rules as [`spec_divide`]; the remainder of
/// `i64::MIN` by `-1` wraps to `0`.
pub open spec fn spec_modulo(a: Number, b: Number) -> Result<Number, SolveError> {
    match (a, b) {
        (Number::Integer(x), Number::Integer(y)) => if y == 0 {
            Err(SolveError::DivisionByZero)
        } else if x == i64::MIN && y == -1 {
            Ok(Number::Integer(0))
        } else {
            Ok(Number::Integer(trunc_rem(x as int, y as int) as i64))
        },
        _ => Ok(
            Number::Decimal(spec_dec_rem(spec_decimal_bits(a), spec_decimal_bits(b))),
        ),
    }
}

/// The result of applying `op` to two numbers.
pub open spec fn spec_apply(op: Operator, a: Number, b: Number) -> Result<Number, SolveError> {
    match op {
        Operator::Addition => Ok(spec_add(a, b)),
        Operator::Subtraction => Ok(spec_subtract(a, b)),
        Operator::Multiplication => Ok(spec_multiply(a, b)),
        Operator::Division => spec_divide(a, b),
        Operator::Modulo => spec_modulo(a, b),
    }
}

/// The size of a token tree: one for a number or an operator, one plus the
/// sizes of the contents for a group. It bounds the solver's recursion.
pub open spec fn token_size(t: SpecToken) -> nat
    decreases t,
{
    match t {
        SpecToken::Group(inner) => 1 + tokens_size(inner),
        _ => 1,
    }
}

/// The summed size of a token sequence.
pub open spec fn tokens_size(ts: Seq<SpecToken>) -> nat
    decreases ts,
{
    if ts.len() == 0 {
        0
    } else {
        token_size(ts[0]) + tokens_size(ts.drop_first())
    }
}

/// Every token has size at least one.
pub proof fn lemma_token_size_pos(t: SpecToken)
    ensures
        token_size(t) >= 1,
{
}

/// The size of a sequence of at least three tokens, split around its first
/// three elements.
pub proof fn lemma_tokens_size_first3(ts: Seq<SpecToken>)
    requires
        ts.len() >= 3,
    ensures
        tokens_size(ts) == token_size(ts[0]) + token_size(ts[1]) + token_size(ts[2])
            + tokens_size(ts.skip(3)),
{
    let d1 = ts.drop_first();
    let d2 = d1.drop_first();
    assert(d1[0] == ts[1]);
    assert(d2[0] == ts[2]);
    assert(d2.drop_first() =~= ts.skip(3));
    assert(tokens_size(ts) == token_size(ts[0]) + tokens_size(d1));
    assert(tokens_size(d1) == token_size(d1[0]) + tokens_size(d2));
    assert(tokens_size(d2) == token_size(d2[0]) + tokens_size(d2.drop_first()));
}

/// The size of a sequence with one token put in front.
pub proof fn lemma_tokens_size_cons(t: SpecToken, rest: Seq<SpecToken>)
    ensures
        tokens_size(seq![t] + rest) == token_size(t) + tokens_size(rest),
{
    let s = seq![t] + rest;
    assert(s[0] == t);
    assert(s.drop_first() =~= rest);
}

/// No token in a sequence is larger than the whole sequence.
pub proof fn lemma_token_size_le(ts: Seq<SpecToken>, i: int)
    requires
        0 <= i < ts.len(),
    ensures
        token_size(ts[i]) <= tokens_size(ts),
    decreases i,
{
    if i > 0 {
        lemma_token_size_le(ts.drop_first(), i - 1);
        assert(ts.drop_first()[i - 1] == ts[i]);
    }
}

/// What an operand position contributes: a number token its number, a group
/// the solution of its contents, and an operator an error.
pub open spec fn spec_resolve(t: SpecToken) -> Result<Number, SolveError>
    decreases token_size(t),
{
    match t {
        SpecToken::Number(n) => Ok(n),
        SpecToken::Operator(_) => Err(SolveError::OperatorAsOperand),
        SpecToken::Group(inner) => spec_solve(inner),
    }
}

/// The meaning of a token sequence: the number it reduces to, or the error
/// met first. A lone group is solved by recursing into it. Otherwise the
/// sequence must read operand, operator, operand; that triple is folded and,
/// if tokens remain, solving continues with the folded number in front of
/// them. Everything else — an empty sequence, a lone non-group token, a
/// two-token sequence, or a second token that is not an operator — is
/// malformed.
pub open spec fn spec_solve(ts: Seq<SpecToken>) -> Result<Number, SolveError>
    decreases tokens_size(ts)
        via spec_solve_decreases
{
    if ts.len() == 1 && ts[0] is Group {
        spec_solve(ts[0]->Group_0)
    } else if ts.len() >= 3 && ts[1] is Operator {
        match spec_resolve(ts[0]) {
            Err(e) => Err(e),
            Ok(a) => match spec_resolve(ts[2]) {
                Err(e) => Err(e),
                Ok(b) => match spec_apply(ts[1]->Operator_0, a, b) {
                    Err(e) => Err(e),
                    Ok(n) => if ts.len() > 3 {
                        spec_solve(seq![SpecToken::Number(n)] + ts.skip(3))
                    } else {
                        Ok(n)
                    },
                },
            },
        }
    } else {
        Err(SolveError::MalformedExpression)
    }
}

/// Truncating division of in-range values stays in range.
proof fn lemma_trunc_div_range(x: int, d: int)
    requires
        i64::MIN <= x <= i64::MAX,
        i64::MIN <= d <= i64::MAX,
        d != 0,
        !(x == i64::MIN && d == -1),
    ensures
        i64::MIN <= trunc_div(x, d) <= i64::MAX,
{
    if x == 0 {
        if d > 0 {
            lemma_div_of0(d);
        } else {
            lemma_div_of0(-d);
        }
    } else if x > 0 && d > 0 {
        lemma_div_pos_is_pos(x, d);
        lemma_div_nonincreasing(x, d);
    } else if x > 0 && d < 0 {
        lemma_div_pos_is_pos(x, -d);
        lemma_div_nonincreasing(x, -d);
    } else if x < 0 && d > 0 {
        lemma_div_pos_is_pos(-x, d);
        lemma_div_nonincreasing(-x, d);
    } else {
        lemma_div_pos_is_pos(-x, -d);
        if d == -1 {
            lemma_div_nonincreasing(-x, -d);
        } else {
            lemma_div_is_strictly_smaller(-x, -d);
        }
    }
}

/// The truncating remainder of in-range values stays in range.
proof fn lemma_trunc_rem_range(x: int, d: int)
    requires
        i64::MIN <= x <= i64::MAX,
        i64::MIN <= d <= i64::MAX,
        d != 0,
    ensures
        i64::MIN <= trunc_rem(x, d) <= i64::MAX,
{
    if x >= 0 && d > 0 {
        lemma_mod_division_less_than_divisor(x, d);
    } else if x < 0 && d < 0 {
        lemma_mod_division_less_than_divisor(-x, -d);
    } else if x < 0 {
        lemma_mod_division_less_than_divisor(-x, d);
    } else {
        lemma_mod_division_less_than_divisor(x, -d);
    }
}

/// The sum of two numbers, after promotion: see [`spec_add`].
pub(crate) fn add(n1: &Number, n2: &Number) -> (r: Number)
    ensures
        r == spec_add(*n1, *n2),
{
    if n1.is_decimal() || n2.is_decimal() {
        Number::Decimal(crate::decimal::dec_add(n1.as_decimal(), n2.as_decimal()))
    } else {
        Number::Integer(n1.as_integer().unwrap().wrapping_add(n2.as_integer().unwrap()))
    }
}

/// The difference of two numbers, after promotion: see [`spec_subtract`].
pub(crate) fn subtract(n1: &Number, n2: &Number) -> (r: Number)
    ensures
        r == spec_subtract(*n1, *n2),
{
    if n1.is_decimal() || n2.is_decimal() {
        Number::Decimal(crate::decimal::dec_sub(n1.as_decimal(), n2.as_decimal()))
    } else {
        Number::Integer(n1.as_integer().unwrap().wrapping_sub(n2.as_integer().unwrap()))
    }
}

/// The product of two numbers, after promotion: see [`spec_multiply`].
pub(crate) fn multiply(n1: &Number, n2: &Number) -> (r: Number)
    ensures
        r == spec_multiply(*n1, *n2),
{
    if n1.is_decimal() || n2.is_decimal() {
        Number::Decimal(crate::decimal::dec_mul(n1.as_decimal(), n2.as_decimal()))
    } else {
        Number::Integer(n1.as_integer().unwrap().wrapping_mul(n2.as_integer().unwrap()))
    }
}

/// The quotient of two numbers, after promotion: see [`spec_divide`].
pub(crate) fn divide(n1: &Number, n2: &Number) -> (r: Result<Number, SolveError>)
    ensures
        r == spec_divide(*n1, *n2),
{
    if n1.is_decimal() || n2.is_decimal() {
        Ok(Number::Decimal(crate::decimal::dec_div(n1.as_decimal(), n2.as_decimal())))
    } else {
        let x = n1.as_integer().unwrap();
        let y = n2.as_integer().unwrap();
        if y == 0 {
            Err(SolveError::DivisionByZero)
        } else if x == i64::MIN && y == -1 {
            Ok(Number::Integer(i64::MIN))
        } else {
            proof {
                lemma_trunc_div_range(x as int, y as int);
                if x == 0 {
                    if y > 0 {
                        lemma_div_of0(y as int);
                    } else {
                        lemma_div_of0(-(y as int));
                    }
                }
            }
            Ok(Number::Integer(x.checked_div(y).unwrap()))
        }
    }
}

/// The remainder of two numbers, after promotion: see [`spec_modulo`].
pub(crate) fn modulo(n1: &Number, n2: &Number) -> (r: Result<Number, SolveError>)
    ensures
        r == spec_modulo(*n1, *n2),
{
    if n1.is_decimal() || n2.is_decimal() {
        Ok(Number::Decimal(crate::decimal::dec_rem(n1.as_decimal(), n2.as_decimal())))
    } else {
        let x = n1.as_integer().unwrap();
        let y = n2.as_integer().unwrap();
        if y == 0 {
            Err(SolveError::DivisionByZero)
        } else if x == i64::MIN && y == -1 {
            Ok(Number::Integer(0))
        } else {
            proof {
                lemma_trunc_rem_range(x as int, y as int);
                if x == 0 {
                    if y > 0 {
                        lemma_small_mod(0, y as nat);
                    } else {
                        lemma_small_mod(0, (-(y as int)) as nat);
                    }
                }
            }
            Ok(Number::Integer(x.checked_rem(y).unwrap()))
        }
    }
}

/// Applies `op` to two resolved numbers: see [`spec_apply`].
fn apply(op: Operator, n1: &Number, n2: &Number) -> (r: Result<Number, SolveError>)
    ensures
        r == spec_apply(op, *n1, *n2),
{
    match op {
        Operator::Addition => Ok(crate::solver::add(n1, n2)),
        Operator::Subtraction => Ok(crate::solver::subtract(n1, n2)),
        Operator::Multiplication => Ok(crate::solver::multiply(n1, n2)),
        Operator::Division => crate::solver::divide(n1, n2),
        Operator::Modulo => crate::solver::modulo(n1, n2),
    }
}

/// Resolves an operand position: see [`spec_resolve`].
fn resolve_operand(t: &Token) -> (r: Result<Number, SolveError>)
    ensures
        r == spec_resolve(token_model(*t)),
    decreases token_size(token_model(*t)), 0int,
{
    match t {
        Token::NumberTokenType(num) => Ok(num.number.clone()),
        Token::OperatorTokenType(_) => Err(SolveError::OperatorAsOperand),
        Token::GroupTokenType(group) => solve(&group.tokens),
    }
}

/// Reduces a token sequence to a single number, strictly left to right, or
/// reports the first error met: see [`spec_solve`].
pub fn solve(tokens: &Vec<Token>) -> (r: Result<Number, SolveError>)
    ensures
        r == spec_solve(tokens_model(tokens@)),
    decreases tokens_size(tokens_model(tokens@)), 1int,
{
    let ghost ms = tokens_model(tokens@);
    let n = tokens.len();
    if n == 1 {
        if let Token::GroupTokenType(group) = &tokens[0] {
            proof {
                assert(ms[0] == token_model(tokens@[0]));
                assert(ms.drop_first().len() == 0);
            }
            return solve(&group.tokens);
        }
        return Err(SolveError::MalformedExpression);
    }
    if n < 3 {
        return Err(SolveError::MalformedExpression);
    }
    proof {
        lemma_tokens_size_first3(ms);
        lemma_token_size_pos(ms[0]);
        lemma_token_size_pos(ms[1]);
        lemma_token_size_pos(ms[2]);
    }
    let op = match &tokens[1] {
        Token::OperatorTokenType(o) => o.operator,
        _ => {
            return Err(SolveError::MalformedExpression);
        },
    };
    let a = match resolve_operand(&tokens[0]) {
        Ok(v) => v,
        Err(e) => {
            return Err(e);
        },
    };
    let b = match resolve_operand(&tokens[2]) {
        Ok(v) => v,
        Err(e) => {
            return Err(e);
        },
    };
    let mut acc = match apply(op, &a, &b) {
        Ok(v) => v,
        Err(e) => {
            return Err(e);
        },
    };
    proof {
        if n > 3 {
            lemma_tokens_size_cons(SpecToken::Number(acc), ms.skip(3));
        }
    }
    let mut i: usize = 3;
    while i < n
        invariant
            3 <= i <= n,
            n == tokens@.len(),
            ms == tokens_model(tokens@),
            ms.len() == n,
            spec_solve(ms) == (if i == n {
                Ok::<Number, SolveError>(acc)
            } else {
                spec_solve(seq![SpecToken::Number(acc)] + ms.skip(i as int))
            }),
        decreases n - i,
    {
        let ghost rest = seq![SpecToken::Number(acc)] + ms.skip(i as int);
        proof {
            assert(rest[0] == SpecToken::Number(acc));
            assert(rest.len() == 1 + n - i);
            assert(spec_resolve(rest[0]) == Ok::<Number, SolveError>(acc));
            if i + 1 < n {
                assert(rest[1] == ms[i as int]);
                assert(rest[2] == ms[i + 1]);
                assert(ms[i as int] == token_model(tokens@[i as int]));
                assert(ms[i + 1] == token_model(tokens@[i + 1]));
            }
        }
        if i + 1 >= n {
            assert(spec_solve(rest) == Err::<Number, SolveError>(SolveError::MalformedExpression));
            return Err(SolveError::MalformedExpression);
        }
        let step_op = match &tokens[i] {
            Token::OperatorTokenType(o) => o.operator,
            _ => {
                assert(!(rest[1] is Operator));
                assert(spec_solve(rest) == Err::<Number, SolveError>(
                    SolveError::MalformedExpression,
                ));
                return Err(SolveError::MalformedExpression);
            },
        };
        proof {
            assert(rest[1] == SpecToken::Operator(step_op));
            lemma_token_size_le(ms, i + 1);
        }
        let b = match resolve_operand(&tokens[i + 1]) {
            Ok(v) => v,
            Err(e) => {
                assert(spec_resolve(rest[2]) == Err::<Number, SolveError>(e));
                assert(spec_solve(rest) == Err::<Number, SolveError>(e));
                return Err(e);
            },
        };
        let acc2 = match apply(step_op, &acc, &b) {
            Ok(v) => v,
            Err(e) => {
                assert(spec_solve(rest) == Err::<Number, SolveError>(e));
                return Err(e);
            },
        };
        proof {
            assert(spec_resolve(rest[2]) == Ok::<Number, SolveError>(b));
            assert(spec_apply(step_op, acc, b) == Ok::<Number, SolveError>(acc2));
            if i + 2 < n {
                assert(rest.skip(3) =~= ms.skip(i + 2));
                lemma_tokens_size_cons(SpecToken::Number(acc2), ms.skip(i + 2));
                assert(spec_solve(rest) == spec_solve(
                    seq![SpecToken::Number(acc2)] + ms.skip(i + 2),
                ));
            } else {
                assert(rest.len() == 3);
                assert(spec_solve(rest) == Ok::<Number, SolveError>(acc2));
            }
        }
        acc = acc2;
        i = i + 2;
    }
    Ok(acc)
}

/// A flat operand–operator–operand sequence of two integers solves to the
/// exact result of the integer arithmetic — truncating division and
/// dividend-signed remainder included — whenever that result is
/// representable and the divisor rules out wrapping and division by zero.
pub proof fn law_flat_integer_triad(a: i64, op: Operator, b: i64)
    requires
        match op {
            Operator::Addition => i64::MIN <= a + b <= i64::MAX,
            Operator::Subtraction => i64::MIN <= a - b <= i64::MAX,
            Operator::Multiplication => i64::MIN <= a * b <= i64::MAX,
            Operator::Division | Operator::Modulo => b != 0 && !(a == i64::MIN && b == -1),
        },
    ensures
        spec_solve(
            seq![
                SpecToken::Number(Number::Integer(a)),
                SpecToken::Operator(op),
                SpecToken::Number(Number::Integer(b)),
            ],
        ) == Ok::<Number, SolveError>(
            Number::Integer(
                match op {
                    Operator::Addition => (a + b) as i64,
                    Operator::Subtraction => (a - b) as i64,
                    Operator::Multiplication => (a * b) as i64,
                    Operator::Division => trunc_div(a as int, b as int) as i64,
                    Operator::Modulo => trunc_rem(a as int, b as int) as i64,
                },
            ),
        ),
{
    let ts = seq![
        SpecToken::Number(Number::Integer(a)),
        SpecToken::Operator(op),
        SpecToken::Number(Number::Integer(b)),
    ];
    assert(ts.len() == 3);
    assert(ts[0] == SpecToken::Number(Number::Integer(a)));
    assert(ts[1] == SpecToken::Operator(op));
    assert(ts[2] == SpecToken::Number(Number::Integer(b)));
    assert(spec_resolve(ts[0]) == Ok::<Number, SolveError>(Number::Integer(a)));
    assert(spec_resolve(ts[2]) == Ok::<Number, SolveError>(Number::Integer(b)));
    if op is Multiplication {
        let x = (a as int) * (b as int);
        let range = 0x1_0000_0000_0000_0000int;
        vstd::arithmetic::div_mod::lemma_mod_add_multiples_vanish(x, range);
        if x >= 0 {
            lemma_small_mod(x as nat, range as nat);
        } else {
            lemma_small_mod((x + range) as nat, range as nat);
        }
    }
}

/// As soon as either operand of a triad is a decimal, the result is a
/// decimal, computed by IEEE-754 double arithmetic on the operands after
/// promotion — and never a structural or division error.
pub proof fn law_decimal_promotion(a: Number, op: Operator, b: Number)
    requires
        a is Decimal || b is Decimal,
    ensures
        spec_solve(seq![SpecToken::Number(a), SpecToken::Operator(op), SpecToken::Number(b)])
            == Ok::<Number, SolveError>(
            Number::Decimal(
                match op {
                    Operator::Addition => spec_dec_add(spec_decimal_bits(a), spec_decimal_bits(b)),
                    Operator::Subtraction => spec_dec_sub(
                        spec_decimal_bits(a),
                        spec_decimal_bits(b),
                    ),
                    Operator::Multiplication => spec_dec_mul(
                        spec_decimal_bits(a),
                        spec_decimal_bits(b),
                    ),
                    Operator::Division => spec_dec_div(spec_decimal_bits(a), spec_decimal_bits(b)),
                    Operator::Modulo => spec_dec_rem(spec_decimal_bits(a), spec_decimal_bits(b)),
                },
            ),
        ),
{
    let ts = seq![SpecToken::Number(a), SpecToken::Operator(op), SpecToken::Number(b)];
    assert(ts.len() == 3);
    assert(ts[0] == SpecToken::Number(a));
    assert(ts[1] == SpecToken::Operator(op));
    assert(ts[2] == SpecToken::Number(b));
    assert(spec_resolve(ts[0]) == Ok::<Number, SolveError>(a));
    assert(spec_resolve(ts[2]) == Ok::<Number, SolveError>(b));
}

/// Evaluation is strictly left to right, with no operator precedence: five
/// flat tokens solve by folding the first triple first, whatever the two
/// operators are.
pub proof fn law_left_to_right(a: Number, op1: Operator, b: Number, op2: Operator, c: Number)
    ensures
        spec_solve(
            seq![
                SpecToken::Number(a),
                SpecToken::Operator(op1),
                SpecToken::Number(b),
                SpecToken::Operator(op2),
                SpecToken::Number(c),
            ],
        ) == (match spec_apply(op1, a, b) {
            Ok(n) => spec_solve(
                seq![SpecToken::Number(n), SpecToken::Operator(op2), SpecToken::Number(c)],
            ),
            Err(e) => Err(e),
        }),
{
    let ts = seq![
        SpecToken::Number(a),
        SpecToken::Operator(op1),
        SpecToken::Number(b),
        SpecToken::Operator(op2),
        SpecToken::Number(c),
    ];
    assert(ts.len() == 5);
    assert(ts[0] == SpecToken::Number(a));
    assert(ts[1] == SpecToken::Operator(op1));
    assert(ts[2] == SpecToken::Number(b));
    assert(ts[3] == SpecToken::Operator(op2));
    assert(ts[4] == SpecToken::Number(c));
    assert(spec_resolve(ts[0]) == Ok::<Number, SolveError>(a));
    assert(spec_resolve(ts[2]) == Ok::<Number, SolveError>(b));
    match spec_apply(op1, a, b) {
        Ok(n) => {
            assert(seq![SpecToken::Number(n)] + ts.skip(3) =~= seq![
                SpecToken::Number(n),
                SpecToken::Operator(op2),
                SpecToken::Number(c),
            ]);
        },
        Err(_) => {},
    }
}

/// A group in operand position contributes exactly the solution of its
/// contents: parentheses force the grouping.
pub proof fn law_group_operand(ts: Seq<SpecToken>)
    ensures
        spec_resolve(SpecToken::Group(ts)) == spec_solve(ts),
{
}

/// Parentheses around a whole expression change nothing: a lone group
/// solves to the solution of its contents.
pub proof fn law_group_transparent(ts: Seq<SpecToken>)
    ensures
        spec_solve(seq![SpecToken::Group(ts)]) == spec_solve(ts),
{
    let s = seq![SpecToken::Group(ts)];
    assert(s[0] is Group && s[0]->Group_0 == ts);
}

/// Nested groups resolve recursively: one more pair of parentheses around a
/// whole expression still changes nothing.
pub proof fn law_nested_groups(ts: Seq<SpecToken>)
    ensures
        spec_solve(seq![SpecToken::Group(seq![SpecToken::Group(ts)])]) == spec_solve(ts),
{
    law_group_transparent(seq![SpecToken::Group(ts)]);
    law_group_transparent(ts);
}

/// Integer division and modulo by zero surface as the typed
/// division-by-zero error, whatever the left operand is.
pub proof fn law_division_by_zero(x: i64, op: Operator)
    requires
        op == Operator::Division || op == Operator::Modulo,
    ensures
        spec_solve(
            seq![
                SpecToken::Number(Number::Integer(x)),
                SpecToken::Operator(op),
                SpecToken::Number(Number::Integer(0)),
            ],
        ) == Err::<Number, SolveError>(SolveError::DivisionByZero),
{
    let ts = seq![
        SpecToken::Number(Number::Integer(x)),
        SpecToken::Operator(op),
        SpecToken::Number(Number::Integer(0)),
    ];
    assert(ts.len() == 3);
    assert(ts[0] == SpecToken::Number(Number::Integer(x)));
    assert(ts[1] == SpecToken::Operator(op));
    assert(ts[2] == SpecToken::Number(Number::Integer(0)));
    assert(spec_resolve(ts[0]) == Ok::<Number, SolveError>(Number::Integer(x)));
    assert(spec_resolve(ts[2]) == Ok::<Number, SolveError>(Number::Integer(0)));
    assert(spec_apply(op, Number::Integer(x), Number::Integer(0)) == Err::<Number, SolveError>(
        SolveError::DivisionByZero,
    ));
}

#[via_fn]
proof fn spec_solve_decreases(ts: Seq<SpecToken>) {
    if ts.len() == 1 && ts[0] is Group {
        assert(ts.drop_first().len() == 0);
    } else if ts.len() >= 3 && ts[1] is Operator {
        lemma_tokens_size_first3(ts);
        lemma_token_size_pos(ts[0]);
        lemma_token_size_pos(ts[1]);
        lemma_token_size_pos(ts[2]);
        if ts.len() > 3 {
            assert forall|n: Number|
                tokens_size(seq![SpecToken::Number(n)] + ts.skip(3)) == 1 + tokens_size(
                    ts.skip(3),
                ) by {
                lemma_tokens_size_cons(SpecToken::Number(n), ts.skip(3));
            }
        }
    }
}

} // verus!
