//! Tokens and the lexical scanners that produce them.
//!
//! The tokenizer drives a cursor over the input text. At each position it
//! tries three scanners in a fixed order — operator, number, group — and each
//! scanner either matches a prefix of the remaining input, reporting how many
//! characters it consumed, or does not match at all. A character that no
//! scanner matches is skipped silently, one character at a time.

use vstd::arithmetic::div_mod::{
    lemma_basic_div, lemma_div_multiples_vanish_fancy, lemma_div_non_zero,
    lemma_fundamental_div_mod, lemma_mod_division_less_than_divisor, lemma_mod_multiples_vanish,
    lemma_small_mod,
};
use vstd::prelude::*;

use crate::decimal::{spec_dec_of_text, spec_dec_text};

verus! {

broadcast use vstd::seq::axiom_seq_index_decreases;

/// A numeric value: either an exact 64-bit signed integer, or a decimal,
/// carried as the 64 bits of an IEEE-754 double-precision number
/// (see [`crate::decimal`]).
#[derive(Debug, PartialEq, Eq)]
pub enum Number {
    Integer(i64),
    Decimal(u64),
}

/// A token holding a [`Number`].
#[derive(Debug)]
pub struct NumberToken {
    pub number: Number,
}

/// One of the five arithmetic operators, each written as a single character.
#[derive(Debug, Copy, Clone)]
pub enum Operator {
    Addition,
    Subtraction,
    Multiplication,
    Division,
    Modulo,
}

/// A token holding an [`Operator`].
#[derive(Debug)]
pub struct OperatorToken {
    pub operator: Operator,
}

/// A parenthesized group: the tokens scanned from the text strictly between
/// a `(` and its matching `)`.
#[derive(Debug)]
pub struct GroupToken {
    pub tokens: Vec<Token>,
}

/// A classified unit of input text: a number, an operator, or a group.
#[derive(Debug)]
pub enum Token {
    NumberTokenType(NumberToken),
    OperatorTokenType(OperatorToken),
    GroupTokenType(GroupToken),
}

/// The mathematical model of a [`Token`]: the same tree, with the nested
/// token vector of a group abstracted to a sequence.
pub enum SpecToken {
    Number(Number),
    Operator(Operator),
    Group(Seq<SpecToken>),
}

/// The model of a single token.
pub open spec fn token_model(t: Token) -> SpecToken
    decreases t,
{
    match t {
        Token::NumberTokenType(nt) => SpecToken::Number(nt.number),
        Token::OperatorTokenType(ot) => SpecToken::Operator(ot.operator),
        Token::GroupTokenType(gt) => SpecToken::Group(tokens_model(gt.tokens@)),
    }
}

/// The model of a token sequence, element by element.
pub open spec fn tokens_model(ts: Seq<Token>) -> Seq<SpecToken>
    decreases ts,
{
    if ts.len() == 0 {
        Seq::empty()
    } else {
        seq![token_model(ts[0])] + tokens_model(ts.drop_first())
    }
}

/// The model of a sequence is as long as the sequence.
pub broadcast proof fn lemma_tokens_model_len(ts: Seq<Token>)
    ensures
        #[trigger] tokens_model(ts).len() == ts.len(),
    decreases ts.len(),
{
    if ts.len() > 0 {
        lemma_tokens_model_len(ts.drop_first());
    }
}

/// The model of a sequence holds, at each position, the model of the token there.
pub broadcast proof fn lemma_tokens_model_index(ts: Seq<Token>, i: int)
    requires
        0 <= i < ts.len(),
    ensures
        #[trigger] tokens_model(ts)[i] == token_model(ts[i]),
    decreases ts.len(),
{
    lemma_tokens_model_len(ts);
    if i > 0 {
        lemma_tokens_model_index(ts.drop_first(), i - 1);
    }
}

/// The bits of the IEEE-754 double a number converts to: a decimal's own
/// bits, or the nearest double for an integer.
pub open spec fn spec_decimal_bits(n: Number) -> u64 {
    match n {
        Number::Integer(i) => crate::decimal::spec_dec_of_int(i),
        Number::Decimal(b) => b,
    }
}

impl Number {
    /// Does this number hold an exact integer?
    pub fn is_integer(&self) -> (r: bool)
        ensures
            r == (*self matches Number::Integer(_)),
    {
        match self {
            Number::Integer(_) => true,
            Number::Decimal(_) => false,
        }
    }

    /// Does this number hold a decimal?
    pub fn is_decimal(&self) -> (r: bool)
        ensures
            r == (*self matches Number::Decimal(_)),
    {
        match self {
            Number::Integer(_) => false,
            Number::Decimal(_) => true,
        }
    }

    /// The integer this number holds; an error for a decimal.
    pub fn as_integer(&self) -> (r: Result<i64, ()>)
        ensures
            r == (match *self {
                Number::Integer(i) => Ok::<i64, ()>(i),
                Number::Decimal(_) => Err::<i64, ()>(()),
            }),
    {
        match self {
            Number::Integer(i) => Ok(*i),
            Number::Decimal(_) => Err(()),
        }
    }

    /// This number as the bits of an IEEE-754 double: a decimal's own bits,
    /// or the nearest double for an integer.
    pub fn as_decimal(&self) -> (r: u64)
        ensures
            r == spec_decimal_bits(*self),
    {
        match self {
            Number::Integer(i) => crate::decimal::dec_of_int(*i),
            Number::Decimal(b) => *b,
        }
    }
}

impl Clone for Number {
    /// A copy of the number, equal to the original.
    fn clone(&self) -> (r: Self)
        ensures
            r == *self,
    {
        match self {
            Number::Integer(i) => Number::Integer(*i),
            Number::Decimal(d) => Number::Decimal(*d),
        }
    }
}

/// Is `c` a decimal digit?
pub open spec fn is_digit(c: char) -> bool {
    '0' <= c && c <= '9'
}

/// The numeric value of a digit character.
pub open spec fn digit_val(c: char) -> nat {
    (c as u32 - '0' as u32) as nat
}

/// Is `c` one of the five operator characters?
pub open spec fn is_op_char(c: char) -> bool {
    c == '+' || c == '-' || c == '*' || c == '/' || c == '%'
}

/// The operator written as the character `c`.
pub open spec fn op_of_char(c: char) -> Operator {
    if c == '+' {
        Operator::Addition
    } else if c == '-' {
        Operator::Subtraction
    } else if c == '*' {
        Operator::Multiplication
    } else if c == '/' {
        Operator::Division
    } else {
        Operator::Modulo
    }
}

/// The first position at or after `i` that does not hold a digit
/// (`s.len()` if digits run to the end).
pub open spec fn digits_end(s: Seq<char>, i: int) -> int
    decreases s.len() - i,
{
    if i < 0 || i >= s.len() || !is_digit(s[i]) {
        i
    } else {
        digits_end(s, i + 1)
    }
}

/// How many characters the number scanner consumes at the start of `s`:
/// an optional minus sign, one or more digits, and optionally a decimal
/// point followed by one or more digits. Zero means no match.
pub open spec fn number_scan_len(s: Seq<char>) -> int {
    let start: int = if s.len() > 0 && s[0] == '-' {
        1
    } else {
        0
    };
    let int_end = digits_end(s, start);
    if int_end == start {
        0
    } else if int_end + 1 < s.len() && s[int_end] == '.' && is_digit(s[int_end + 1]) {
        digits_end(s, int_end + 1)
    } else {
        int_end
    }
}

/// Does `s` consist, in full, of exactly one number literal?
pub open spec fn is_number_literal(s: Seq<char>) -> bool {
    s.len() > 0 && number_scan_len(s) == s.len()
}

/// Does `s` contain a decimal point?
pub open spec fn has_dot(s: Seq<char>) -> bool {
    exists|i: int| 0 <= i < s.len() && s[i] == '.'
}

/// The value of a run of digit characters, read in base ten.
pub open spec fn digits_val(s: Seq<char>) -> nat
    decreases s.len(),
{
    if s.len() == 0 {
        0
    } else {
        digits_val(s.drop_last()) * 10 + digit_val(s.last())
    }
}

/// The integer written in `s`, an optional minus sign followed by digits.
pub open spec fn int_literal_value(s: Seq<char>) -> int {
    if s.len() > 0 && s[0] == '-' {
        -(digits_val(s.skip(1)) as int)
    } else {
        digits_val(s) as int
    }
}

/// The number a matched literal stands for: an `Integer` when the literal has
/// no decimal point and its value fits in 64 signed bits, otherwise the
/// nearest `Decimal`.
pub open spec fn number_of_text(s: Seq<char>) -> Number {
    if !has_dot(s) && i64::MIN <= int_literal_value(s) <= i64::MAX {
        Number::Integer(int_literal_value(s) as i64)
    } else {
        Number::Decimal(spec_dec_of_text(s))
    }
}

/// Walks `s` from position `i` carrying the parenthesis nesting `depth`
/// accumulated so far, and returns one past the position of the `)` that
/// brings the depth to zero — or `0` if no such `)` exists.
pub open spec fn group_close(s: Seq<char>, i: int, depth: int) -> int
    decreases s.len() - i,
{
    if i < 0 || i >= s.len() {
        0
    } else if s[i] == ')' && depth == 1 {
        i + 1
    } else if s[i] == '(' {
        group_close(s, i + 1, depth + 1)
    } else if s[i] == ')' {
        group_close(s, i + 1, depth - 1)
    } else {
        group_close(s, i + 1, depth)
    }
}

/// How many characters the group scanner consumes at the start of `s`: the
/// full span from the opening `(` through its matching `)`, both included.
/// Zero means no match.
pub open spec fn group_scan_len(s: Seq<char>) -> int {
    if s.len() > 0 && s[0] == '(' {
        group_close(s, 0, 0)
    } else {
        0
    }
}

/// A digit run ends within the text, every character before its end is a
/// digit, and the character at its end — if any — is not.
pub proof fn lemma_digits_end_bounds(s: Seq<char>, i: int)
    requires
        0 <= i <= s.len(),
    ensures
        i <= digits_end(s, i) <= s.len(),
        forall|k: int| i <= k < digits_end(s, i) ==> is_digit(#[trigger] s[k]),
        digits_end(s, i) < s.len() ==> !is_digit(s[digits_end(s, i)]),
    decreases s.len() - i,
{
    if i < s.len() && is_digit(s[i]) {
        lemma_digits_end_bounds(s, i + 1);
    }
}

/// A stretch of digits, closed off by the text's end or a non-digit, is
/// exactly what the digit run consumes.
pub proof fn lemma_digits_end_determined(s: Seq<char>, i: int, j: int)
    requires
        0 <= i <= j <= s.len(),
        forall|k: int| i <= k < j ==> is_digit(#[trigger] s[k]),
        j == s.len() || !is_digit(s[j]),
    ensures
        digits_end(s, i) == j,
    decreases j - i,
{
    if i < j {
        lemma_digits_end_determined(s, i + 1, j);
    }
}

/// The number scanner never consumes more than the text.
pub proof fn lemma_number_scan_len_bounds(s: Seq<char>)
    ensures
        0 <= number_scan_len(s) <= s.len(),
{
    let start: int = if s.len() > 0 && s[0] == '-' {
        1
    } else {
        0
    };
    if start <= s.len() {
        lemma_digits_end_bounds(s, start);
        let int_end = digits_end(s, start);
        if int_end != start && int_end + 1 < s.len() && s[int_end] == '.' && is_digit(
            s[int_end + 1],
        ) {
            lemma_digits_end_bounds(s, int_end + 1);
        }
    }
}

/// The group scanner consumes nothing, or at least the two parentheses and
/// never more than the text.
pub proof fn lemma_group_close_bounds(s: Seq<char>, i: int, depth: int)
    requires
        0 <= i,
    ensures
        group_close(s, i, depth) == 0 || i < group_close(s, i, depth) <= s.len(),
    decreases s.len() - i,
{
    if i < s.len() && !(s[i] == ')' && depth == 1) {
        if s[i] == '(' {
            lemma_group_close_bounds(s, i + 1, depth + 1);
        } else if s[i] == ')' {
            lemma_group_close_bounds(s, i + 1, depth - 1);
        } else {
            lemma_group_close_bounds(s, i + 1, depth);
        }
    }
}

/// The token sequence a text denotes. At each position the scanners are
/// tried in a fixed order — operator, number, group — the matched token is
/// appended, and scanning continues after it; a character that no scanner
/// matches is dropped.
pub open spec fn spec_tokenize(s: Seq<char>) -> Seq<SpecToken>
    decreases s.len()
        via spec_tokenize_decreases
{
    if s.len() == 0 {
        Seq::empty()
    } else if is_op_char(s[0]) {
        seq![SpecToken::Operator(op_of_char(s[0]))] + spec_tokenize(s.skip(1))
    } else if number_scan_len(s) > 0 {
        seq![SpecToken::Number(number_of_text(s.take(number_scan_len(s))))] + spec_tokenize(
            s.skip(number_scan_len(s)),
        )
    } else if group_scan_len(s) > 0 {
        seq![SpecToken::Group(spec_tokenize(s.subrange(1, group_scan_len(s) - 1)))]
            + spec_tokenize(s.skip(group_scan_len(s)))
    } else {
        spec_tokenize(s.skip(1))
    }
}

#[via_fn]
proof fn spec_tokenize_decreases(s: Seq<char>) {
    lemma_number_scan_len_bounds(s);
    if s.len() > 0 && s[0] == '(' {
        lemma_group_close_bounds(s, 0, 0);
        if group_close(s, 0, 0) != 0 {
            assert(group_close(s, 0, 0) == group_close(s, 1, 1));
            lemma_group_close_bounds(s, 1, 1);
        }
    }
}

/// Scans the run of digits that starts at `from`: see [`digits_end`].
fn scan_digits(content: &str, n: usize, from: usize) -> (r: usize)
    requires
        n == content@.len(),
        from <= n,
    ensures
        r == digits_end(content@, from as int),
        from <= r <= n,
{
    proof {
        lemma_digits_end_bounds(content@, from as int);
    }
    let mut pos = from;
    loop
        invariant
            from <= pos <= n,
            n == content@.len(),
            digits_end(content@, from as int) == digits_end(content@, pos as int),
        ensures
            pos == digits_end(content@, from as int),
        decreases n - pos,
    {
        if pos >= n {
            break ;
        }
        let c = content.get_char(pos);
        if !(c >= '0' && c <= '9') {
            break ;
        }
        pos = pos + 1;
    }
    pos
}

impl Operator {
    /// The one-character text of this operator.
    pub fn as_str(&self) -> (r: &str)
        ensures
            r@ == op_text(*self),
    {
        proof {
            reveal_strlit("+");
            reveal_strlit("-");
            reveal_strlit("*");
            reveal_strlit("/");
            reveal_strlit("%");
        }
        match self {
            Operator::Addition => "+",
            Operator::Subtraction => "-",
            Operator::Multiplication => "*",
            Operator::Division => "/",
            Operator::Modulo => "%",
        }
    }
}

/// The one-character text of an operator.
pub open spec fn op_text(op: Operator) -> Seq<char> {
    match op {
        Operator::Addition => seq!['+'],
        Operator::Subtraction => seq!['-'],
        Operator::Multiplication => seq!['*'],
        Operator::Division => seq!['/'],
        Operator::Modulo => seq!['%'],
    }
}

impl OperatorToken {
    /// Scans an operator at the very start of `content`: a match anywhere
    /// later counts for nothing. Returns how many characters were consumed
    /// and the token, or `(0, None)`.
    pub fn from(content: &str) -> (r: (usize, Option<OperatorToken>))
        ensures
            ({
                let s = content@;
                if s.len() > 0 && is_op_char(s[0]) {
                    r == (1usize, Some(OperatorToken { operator: op_of_char(s[0]) }))
                } else {
                    r == (0usize, None::<OperatorToken>)
                }
            }),
    {
        if content.is_empty() {
            return (0, None);
        }
        let c = content.get_char(0);
        if c == '+' {
            (1, Some(OperatorToken { operator: Operator::Addition }))
        } else if c == '-' {
            (1, Some(OperatorToken { operator: Operator::Subtraction }))
        } else if c == '*' {
            (1, Some(OperatorToken { operator: Operator::Multiplication }))
        } else if c == '/' {
            (1, Some(OperatorToken { operator: Operator::Division }))
        } else if c == '%' {
            (1, Some(OperatorToken { operator: Operator::Modulo }))
        } else {
            (0, None)
        }
    }
}

/// A matched number literal, taken on its own, scans as one whole literal.
pub proof fn lemma_scan_prefix(s: Seq<char>)
    requires
        number_scan_len(s) > 0,
    ensures
        is_number_literal(s.take(number_scan_len(s))),
{
    let len = number_scan_len(s);
    lemma_number_scan_len_bounds(s);
    let t = s.take(len);
    let start: int = if s[0] == '-' {
        1
    } else {
        0
    };
    lemma_digits_end_bounds(s, start);
    let int_end = digits_end(s, start);
    if int_end != start && int_end + 1 < s.len() && s[int_end] == '.' && is_digit(s[int_end + 1]) {
        lemma_digits_end_bounds(s, int_end + 1);
        lemma_digits_end_determined(t, start, int_end);
        lemma_digits_end_determined(t, int_end + 1, len);
    } else {
        lemma_digits_end_determined(t, start, len);
    }
}

/// Reads the value of the digit run `content[from..to]` in base ten. The
/// flag reports a value too large for a 64-bit integer; the value itself is
/// then capped.
fn digits_value_capped(content: &str, n: usize, from: usize, to: usize) -> (r: (u128, bool))
    requires
        n == content@.len(),
        from <= to <= n,
        forall|k: int| from <= k < to ==> is_digit(#[trigger] content@[k]),
    ensures
        !r.1 ==> r.0 == digits_val(content@.subrange(from as int, to as int)) && r.0
            <= 0x8000_0000_0000_0000,
        r.1 ==> digits_val(content@.subrange(from as int, to as int)) > 0x8000_0000_0000_0000,
{
    let ghost s = content@;
    let mut val: u128 = 0;
    let mut big = false;
    let mut pos = from;
    proof {
        assert(s.subrange(from as int, from as int) =~= Seq::<char>::empty());
    }
    while pos < to
        invariant
            from <= pos <= to <= n,
            n == s.len(),
            s == content@,
            forall|k: int| from <= k < to ==> is_digit(#[trigger] s[k]),
            !big ==> val == digits_val(s.subrange(from as int, pos as int)) && val
                <= 0x8000_0000_0000_0000,
            big ==> digits_val(s.subrange(from as int, pos as int)) > 0x8000_0000_0000_0000,
        decreases to - pos,
    {
        let c = content.get_char(pos);
        proof {
            assert(is_digit(s[pos as int]));
            assert(s.subrange(from as int, pos + 1).drop_last() =~= s.subrange(
                from as int,
                pos as int,
            ));
            assert(s.subrange(from as int, pos + 1).last() == s[pos as int]);
        }
        let d = (c as u32) - 48;
        if !big {
            val = val * 10 + (d as u128);
            if val > 0x8000_0000_0000_0000 {
                big = true;
            }
        }
        pos = pos + 1;
    }
    (val, big)
}

impl NumberToken {
    /// Scans a number literal at the very start of `content`: an optional
    /// minus sign, digits, and optionally a decimal point followed by more
    /// digits; a literal starting anywhere later counts for nothing. A
    /// literal without a decimal point whose value fits in 64 signed bits
    /// yields an `Integer`; any other literal yields the nearest `Decimal`.
    /// Returns how many characters were consumed and the token, or
    /// `(0, None)`.
    pub fn from(content: &str) -> (r: (usize, Option<NumberToken>))
        ensures
            ({
                let s = content@;
                let len = number_scan_len(s);
                if len > 0 {
                    r.0 == len && (r.1 matches Some(t) && t.number == number_of_text(s.take(len)))
                } else {
                    r == (0usize, None::<NumberToken>)
                }
            }),
    {
        let ghost s = content@;
        let n = content.unicode_len();
        if n == 0 {
            return (0, None);
        }
        let sign: usize = if content.get_char(0) == '-' {
            1
        } else {
            0
        };
        let int_end = scan_digits(content, n, sign);
        if int_end == sign {
            return (0, None);
        }
        let mut len = int_end;
        let mut dotted = false;
        if int_end < n {
            if content.get_char(int_end) == '.' {
                if int_end + 1 < n {
                    let c2 = content.get_char(int_end + 1);
                    if c2 >= '0' && c2 <= '9' {
                        len = scan_digits(content, n, int_end + 1);
                        dotted = true;
                    }
                }
            }
        }
        proof {
            assert(len == number_scan_len(s));
            lemma_digits_end_bounds(s, sign as int);
            if dotted {
                lemma_digits_end_bounds(s, int_end + 1);
            }
        }
        if dotted {
            proof {
                lemma_scan_prefix(s);
                assert(s.take(len as int)[int_end as int] == '.');
                assert(has_dot(s.take(len as int)));
            }
            let text = content.substring_char(0, len);
            return (
                len,
                Some(NumberToken { number: Number::Decimal(crate::decimal::dec_of_text(text)) }),
            );
        }
        let (val, big) = digits_value_capped(content, n, sign, int_end);
        proof {
            let t = s.take(len as int);
            assert forall|k: int| 0 <= k < t.len() implies t[k] != '.' by {
                if k >= sign {
                    assert(is_digit(s[k]));
                }
            }
            assert(!has_dot(t));
            if sign == 1 {
                assert(t.skip(1) =~= s.subrange(1, int_end as int));
            } else {
                assert(t =~= s.subrange(0, int_end as int));
            }
        }
        if !big {
            if sign == 1 {
                if val == 0x8000_0000_0000_0000 {
                    return (len, Some(NumberToken { number: Number::Integer(i64::MIN) }));
                }
                return (len, Some(NumberToken { number: Number::Integer(-(val as i64)) }));
            }
            if val <= 0x7fff_ffff_ffff_ffff {
                return (len, Some(NumberToken { number: Number::Integer(val as i64) }));
            }
        }
        proof {
            lemma_scan_prefix(s);
        }
        let text = content.substring_char(0, len);
        (len, Some(NumberToken { number: Number::Decimal(crate::decimal::dec_of_text(text)) }))
    }
}

impl GroupToken {
    /// Scans a parenthesized group at the very start of `content`: it
    /// matches only if the first character is `(` and a `)` balancing it
    /// exists. The consumed span includes both parentheses, and the text
    /// strictly between them is tokenized recursively. An unbalanced `(`
    /// matches nothing. Returns how many characters were consumed and the
    /// token, or `(0, None)`.
    pub fn from(content: &str) -> (r: (usize, Option<GroupToken>))
        ensures
            ({
                let s = content@;
                let g = group_scan_len(s);
                if g > 0 {
                    r.0 == g && (r.1 matches Some(t) && tokens_model(t.tokens@) == spec_tokenize(
                        s.subrange(1, g - 1),
                    ))
                } else {
                    r.0 == 0 && r.1 is None
                }
            }),
        decreases content@.len(), 0int,
    {
        let ghost s = content@;
        let n = content.unicode_len();
        if n == 0 {
            return (0, None);
        }
        if content.get_char(0) != '(' {
            return (0, None);
        }
        let mut i: usize = 0;
        let mut depth: usize = 0;
        loop
            invariant
                i <= n,
                n == s.len(),
                s == content@,
                s[0] == '(',
                depth <= i,
                i == 0 ==> depth == 0,
                1 <= i ==> 1 <= depth,
                group_close(s, 0, 0) == group_close(s, i as int, depth as int),
            ensures
                1 <= i < n,
                s[i as int] == ')',
                group_close(s, 0, 0) == i + 1,
            decreases n - i,
        {
            if i >= n {
                assert(group_close(s, i as int, depth as int) == 0);
                return (0, None);
            }
            let c = content.get_char(i);
            if c == ')' && depth == 1 {
                assert(group_close(s, i as int, 1) == i + 1);
                break ;
            }
            if c == ')' {
                depth = depth - 1;
            } else if c == '(' {
                depth = depth + 1;
            }
            i = i + 1;
        }
        let inner = content.substring_char(1, i);
        let toks = Token::parse(inner);
        (i + 1, Some(GroupToken { tokens: toks }))
    }
}

impl Token {
    /// Tokenizes a whole text: see [`spec_tokenize`]. Scanners are tried at
    /// each position in a fixed order — operator, number, group — and a
    /// character none of them matches is skipped without any record, so
    /// tokenizing never fails.
    pub fn parse(content: &str) -> (r: Vec<Token>)
        ensures
            tokens_model(r@) == spec_tokenize(content@),
        decreases content@.len(), 1int,
    {
        let ghost s = content@;
        let mut tokens: Vec<Token> = Vec::new();
        let n = content.unicode_len();
        let mut cursor: usize = 0;
        proof {
            assert(tokens_model(tokens@) =~= Seq::<SpecToken>::empty());
            assert(s.skip(0) =~= s);
            assert(Seq::<SpecToken>::empty() + spec_tokenize(s) =~= spec_tokenize(s));
        }
        while cursor < n
            invariant
                cursor <= n,
                n == s.len(),
                s == content@,
                spec_tokenize(s) == tokens_model(tokens@) + spec_tokenize(s.skip(cursor as int)),
            decreases n - cursor,
        {
            let sub = content.substring_char(cursor, n);
            let ghost rem = s.skip(cursor as int);
            proof {
                assert(sub@ == rem);
            }
            let (op_len, op_tok) = OperatorToken::from(sub);
            if let Some(token) = op_tok {
                proof {
                    lemma_tokens_model_snoc(tokens@, Token::OperatorTokenType(token));
                    assert(rem.skip(1) =~= s.skip(cursor + 1));
                    assert(tokens_model(tokens@.push(Token::OperatorTokenType(token)))
                        + spec_tokenize(s.skip(cursor + 1)) =~= tokens_model(tokens@)
                        + spec_tokenize(rem));
                }
                tokens.push(Token::OperatorTokenType(token));
                cursor = cursor + op_len;
            } else {
                let (num_len, num_tok) = NumberToken::from(sub);
                if let Some(token) = num_tok {
                    proof {
                        lemma_number_scan_len_bounds(rem);
                        lemma_tokens_model_snoc(tokens@, Token::NumberTokenType(token));
                        assert(rem.skip(number_scan_len(rem)) =~= s.skip(cursor + num_len));
                        assert(tokens_model(tokens@.push(Token::NumberTokenType(token)))
                            + spec_tokenize(s.skip(cursor + num_len)) =~= tokens_model(tokens@)
                            + spec_tokenize(rem));
                    }
                    tokens.push(Token::NumberTokenType(token));
                    cursor = cursor + num_len;
                } else {
                    let (grp_len, grp_tok) = GroupToken::from(sub);
                    if let Some(token) = grp_tok {
                        proof {
                            lemma_group_close_bounds(rem, 0, 0);
                            lemma_tokens_model_snoc(tokens@, Token::GroupTokenType(token));
                            assert(rem.skip(group_scan_len(rem)) =~= s.skip(cursor + grp_len));
                            assert(tokens_model(tokens@.push(Token::GroupTokenType(token)))
                                + spec_tokenize(s.skip(cursor + grp_len)) =~= tokens_model(tokens@)
                                + spec_tokenize(rem));
                        }
                        tokens.push(Token::GroupTokenType(token));
                        cursor = cursor + grp_len;
                    } else {
                        proof {
                            assert(rem.skip(1) =~= s.skip(cursor + 1));
                        }
                        cursor = cursor + 1;
                    }
                }
            }
        }
        proof {
            assert(s.skip(n as int) =~= Seq::<char>::empty());
            assert(tokens_model(tokens@) + spec_tokenize(s.skip(n as int)) =~= tokens_model(
                tokens@,
            ));
        }
        tokens
    }
}

/// The character for a digit value below ten.
pub open spec fn digit_char(d: nat) -> char {
    if d == 0 {
        '0'
    } else if d == 1 {
        '1'
    } else if d == 2 {
        '2'
    } else if d == 3 {
        '3'
    } else if d == 4 {
        '4'
    } else if d == 5 {
        '5'
    } else if d == 6 {
        '6'
    } else if d == 7 {
        '7'
    } else if d == 8 {
        '8'
    } else {
        '9'
    }
}

/// The decimal digits of a natural number, most significant first, with no
/// leading zero except for the number zero itself.
pub open spec fn nat_digits_text(n: nat) -> Seq<char>
    decreases n,
{
    if n < 10 {
        seq![digit_char(n)]
    } else {
        nat_digits_text(n / 10) + seq![digit_char(n % 10)]
    }
}

/// The decimal text of an integer: a minus sign for a negative value, then
/// its digits.
pub open spec fn int_text(i: int) -> Seq<char> {
    if i < 0 {
        seq!['-'] + nat_digits_text((-i) as nat)
    } else {
        nat_digits_text(i as nat)
    }
}

/// The text a number renders to: decimal digits for an integer, the
/// rendering of [`crate::decimal`] for a decimal.
pub open spec fn number_text(n: Number) -> Seq<char> {
    match n {
        Number::Integer(i) => int_text(i as int),
        Number::Decimal(b) => spec_dec_text(b),
    }
}

/// The text a token renders to; a group renders as its contents between
/// parentheses.
pub open spec fn token_text(t: SpecToken) -> Seq<char>
    decreases t,
{
    match t {
        SpecToken::Number(n) => number_text(n),
        SpecToken::Operator(op) => op_text(op),
        SpecToken::Group(inner) => seq!['('] + tokens_text(inner) + seq![')'],
    }
}

/// The text a token sequence renders to: each token's text, in order,
/// with nothing between.
pub open spec fn tokens_text(ts: Seq<SpecToken>) -> Seq<char>
    decreases ts,
{
    if ts.len() == 0 {
        Seq::empty()
    } else {
        token_text(ts[0]) + tokens_text(ts.drop_first())
    }
}

/// Rendering one more token appends its text.
pub proof fn lemma_tokens_text_snoc(ms: Seq<SpecToken>, i: int)
    requires
        0 <= i < ms.len(),
    ensures
        tokens_text(ms.take(i + 1)) == tokens_text(ms.take(i)) + token_text(ms[i]),
    decreases i,
{
    if i == 0 {
        assert(ms.take(1)[0] == ms[0]);
        assert(ms.take(1).drop_first() =~= Seq::<SpecToken>::empty());
        assert(ms.take(0) =~= Seq::<SpecToken>::empty());
        assert(tokens_text(ms.take(1)) =~= tokens_text(ms.take(0)) + token_text(ms[0]));
    } else {
        let d = ms.drop_first();
        lemma_tokens_text_snoc(d, i - 1);
        assert(ms.take(i + 1)[0] == ms[0]);
        assert(ms.take(i + 1).drop_first() =~= d.take(i));
        assert(ms.take(i)[0] == ms[0]);
        assert(ms.take(i).drop_first() =~= d.take(i - 1));
        assert(d[i - 1] == ms[i]);
        assert(token_text(ms[0]) + (tokens_text(d.take(i - 1)) + token_text(ms[i])) =~= (token_text(
            ms[0],
        ) + tokens_text(d.take(i - 1))) + token_text(ms[i]));
    }
}

/// The digit characters of collected remainders, least significant digit
/// last in the text.
pub open spec fn digits_chars_rev(ds: Seq<u64>) -> Seq<char>
    decreases ds.len(),
{
    if ds.len() == 0 {
        Seq::empty()
    } else {
        seq![digit_char(ds.last() as nat)] + digits_chars_rev(ds.drop_last())
    }
}

/// Reading the collected remainders from the front: the first-collected
/// digit comes out last in the text.
proof fn lemma_digits_chars_rev_cons(x: u64, ds: Seq<u64>)
    ensures
        digits_chars_rev(seq![x] + ds) == digits_chars_rev(ds) + seq![digit_char(x as nat)],
    decreases ds.len(),
{
    let s = seq![x] + ds;
    if ds.len() == 0 {
        assert(s.drop_last() =~= Seq::<u64>::empty());
        assert(s.last() == x);
        assert(digits_chars_rev(Seq::<u64>::empty()) =~= Seq::<char>::empty());
        assert(ds =~= Seq::<u64>::empty());
        assert(digits_chars_rev(s) =~= digits_chars_rev(ds) + seq![digit_char(x as nat)]);
    } else {
        assert(s.last() == ds.last());
        assert(s.drop_last() =~= seq![x] + ds.drop_last());
        lemma_digits_chars_rev_cons(x, ds.drop_last());
        assert(seq![digit_char(ds.last() as nat)] + (digits_chars_rev(ds.drop_last()) + seq![
            digit_char(x as nat),
        ]) =~= (seq![digit_char(ds.last() as nat)] + digits_chars_rev(ds.drop_last())) + seq![
            digit_char(x as nat),
        ]);
    }
}

/// The one-character text of a digit value.
fn digit_str(d: u64) -> (r: &'static str)
    requires
        d < 10,
    ensures
        r@ == seq![digit_char(d as nat)],
{
    proof {
        reveal_strlit("0");
        reveal_strlit("1");
        reveal_strlit("2");
        reveal_strlit("3");
        reveal_strlit("4");
        reveal_strlit("5");
        reveal_strlit("6");
        reveal_strlit("7");
        reveal_strlit("8");
        reveal_strlit("9");
    }
    if d == 0 {
        "0"
    } else if d == 1 {
        "1"
    } else if d == 2 {
        "2"
    } else if d == 3 {
        "3"
    } else if d == 4 {
        "4"
    } else if d == 5 {
        "5"
    } else if d == 6 {
        "6"
    } else if d == 7 {
        "7"
    } else if d == 8 {
        "8"
    } else {
        "9"
    }
}

/// The decimal digits of `v`, most significant first.
fn nat_to_string(v0: u64) -> (r: String)
    ensures
        r@ == nat_digits_text(v0 as nat),
{
    let ghost gv0 = v0 as nat;
    let mut digits: Vec<u64> = Vec::new();
    let mut v = v0;
    proof {
        assert(digits_chars_rev(digits@) =~= Seq::<char>::empty());
        assert(nat_digits_text(gv0) + Seq::<char>::empty() =~= nat_digits_text(gv0));
    }
    loop
        invariant_except_break
            v == 0 ==> digits@.len() == 0 && gv0 == 0,
        invariant
            forall|k: int| 0 <= k < digits@.len() ==> #[trigger] digits@[k] < 10,
            v > 0 ==> nat_digits_text(gv0) == nat_digits_text(v as nat) + digits_chars_rev(
                digits@,
            ),
        ensures
            digits@.len() > 0,
            forall|k: int| 0 <= k < digits@.len() ==> #[trigger] digits@[k] < 10,
            nat_digits_text(gv0) == digits_chars_rev(digits@),
        decreases v,
    {
        let d = v % 10;
        let next = v / 10;
        proof {
            let ds = digits@;
            assert(ds.push(d).last() == d);
            assert(ds.push(d).drop_last() =~= ds);
            lemma_mod_division_less_than_divisor(v as int, 10);
            if v >= 10 {
                lemma_div_non_zero(v as int, 10);
                assert(nat_digits_text(v as nat) == nat_digits_text((v as nat) / 10) + seq![
                    digit_char((v as nat) % 10),
                ]);
                assert(nat_digits_text((v / 10) as nat) + (seq![digit_char(d as nat)]
                    + digits_chars_rev(ds)) =~= (nat_digits_text((v / 10) as nat) + seq![
                    digit_char(d as nat),
                ]) + digits_chars_rev(ds));
            } else {
                lemma_small_mod(v as nat, 10);
                lemma_basic_div(v as int, 10);
                if v > 0 {
                    assert(nat_digits_text(v as nat) == seq![digit_char(v as nat)]);
                    assert(digits_chars_rev(ds.push(d)) =~= seq![digit_char(d as nat)]
                        + digits_chars_rev(ds));
                    assert(nat_digits_text(gv0) =~= digits_chars_rev(ds.push(d)));
                } else {
                    assert(ds.len() == 0);
                    assert(digits_chars_rev(ds) =~= Seq::<char>::empty());
                    assert(nat_digits_text(gv0) == seq![digit_char(0)]);
                    assert(digits_chars_rev(ds.push(d)) =~= seq![digit_char(0)]);
                }
            }
        }
        digits.push(d);
        v = next;
        if v == 0 {
            break ;
        }
    }
    let mut out = String::new();
    let mut j = digits.len();
    proof {
        assert(digits@.skip(j as int) =~= Seq::<u64>::empty());
    }
    while j > 0
        invariant
            j <= digits@.len(),
            forall|k: int| 0 <= k < digits@.len() ==> #[trigger] digits@[k] < 10,
            out@ == digits_chars_rev(digits@.skip(j as int)),
        decreases j,
    {
        let piece = digit_str(digits[j - 1]);
        proof {
            assert(digits@.skip(j - 1) =~= seq![digits@[j - 1]] + digits@.skip(j as int));
            lemma_digits_chars_rev_cons(digits@[j - 1], digits@.skip(j as int));
        }
        out.append(piece);
        j = j - 1;
    }
    proof {
        assert(digits@.skip(0) =~= digits@);
    }
    out
}

/// The decimal text of a 64-bit integer, minus sign included.
fn int_to_string(i: i64) -> (r: String)
    ensures
        r@ == int_text(i as int),
{
    if i >= 0 {
        nat_to_string(i as u64)
    } else {
        proof {
            reveal_strlit("-");
        }
        let mag: u64 = if i == i64::MIN {
            0x8000_0000_0000_0000u64
        } else {
            (-i) as u64
        };
        let mut out = String::from_str("-");
        let tail = nat_to_string(mag);
        out.append(tail.as_str());
        out
    }
}

impl Number {
    /// The text this number renders to: digits without a decimal point for
    /// an integer, the decimal rendering of [`crate::decimal`] otherwise.
    pub fn as_string(&self) -> (r: String)
        ensures
            r@ == number_text(*self),
    {
        match self {
            Number::Integer(i) => int_to_string(*i),
            Number::Decimal(b) => crate::decimal::dec_text(*b),
        }
    }
}

impl Token {
    /// The text this token renders back to.
    pub fn as_string(&self) -> (r: String)
        ensures
            r@ == token_text(token_model(*self)),
        decreases *self,
    {
        match self {
            Token::NumberTokenType(token) => token.number.as_string(),
            Token::OperatorTokenType(token) => token.operator.as_str().to_owned(),
            Token::GroupTokenType(token) => token.as_string(),
        }
    }

    /// The name of this token's kind.
    pub fn kind_name(&self) -> (r: &str)
        ensures
            r@ == (match *self {
                Token::NumberTokenType(_) => "NumberToken"@,
                Token::OperatorTokenType(_) => "OperatorToken"@,
                Token::GroupTokenType(_) => "NestedToken"@,
            }),
    {
        match self {
            Token::NumberTokenType(_) => "NumberToken",
            Token::OperatorTokenType(_) => "OperatorToken",
            Token::GroupTokenType(_) => "NestedToken",
        }
    }
}

impl GroupToken {
    /// The text this group renders back to: its tokens' texts between
    /// parentheses.
    pub fn as_string(&self) -> (r: String)
        ensures
            r@ == seq!['('] + tokens_text(tokens_model(self.tokens@)) + seq![')'],
        decreases *self,
    {
        broadcast use lemma_tokens_model_len, lemma_tokens_model_index;

        proof {
            reveal_strlit("(");
            reveal_strlit(")");
        }
        let ghost ms = tokens_model(self.tokens@);
        let mut out = String::from_str("(");
        proof {
            assert(ms.take(0) =~= Seq::<SpecToken>::empty());
            assert(out@ =~= seq!['('] + tokens_text(ms.take(0)));
        }
        let mut idx: usize = 0;
        while idx < self.tokens.len()
            invariant
                idx <= self.tokens@.len(),
                ms == tokens_model(self.tokens@),
                ms.len() == self.tokens@.len(),
                out@ == seq!['('] + tokens_text(ms.take(idx as int)),
            decreases self.tokens@.len() - idx,
        {
            let piece = self.tokens[idx].as_string();
            proof {
                lemma_tokens_model_len(self.tokens@);
                lemma_tokens_model_index(self.tokens@, idx as int);
                assert(ms[idx as int] == token_model(self.tokens@[idx as int]));
                assert(piece@ == token_text(ms[idx as int]));
                lemma_tokens_text_snoc(ms, idx as int);
                assert((seq!['('] + tokens_text(ms.take(idx as int))) + token_text(ms[idx as int])
                    =~= seq!['('] + (tokens_text(ms.take(idx as int)) + token_text(
                    ms[idx as int],
                )));
            }
            out.append(piece.as_str());
            proof {
                assert(out@ == seq!['('] + tokens_text(ms.take(idx + 1)));
            }
            idx = idx + 1;
        }
        proof {
            assert(ms.take(ms.len() as int) =~= ms);
            assert((seq!['('] + tokens_text(ms)) + seq![')'] =~= seq!['('] + tokens_text(ms)
                + seq![')']);
        }
        out.append(")");
        out
    }
}

impl Clone for NumberToken {
    /// A copy of the token, equal to the original.
    fn clone(&self) -> (r: Self)
        ensures
            r == *self,
    {
        NumberToken { number: self.number.clone() }
    }
}

impl Clone for OperatorToken {
    /// A copy of the token, equal to the original.
    fn clone(&self) -> (r: Self)
        ensures
            r == *self,
    {
        OperatorToken { operator: self.operator }
    }
}

impl Clone for GroupToken {
    /// A copy of the group; it models the same token tree as the original.
    fn clone(&self) -> (r: Self)
        ensures
            tokens_model(r.tokens@) == tokens_model(self.tokens@),
        decreases *self,
    {
        broadcast use lemma_tokens_model_len, lemma_tokens_model_index;

        let mut tokens: Vec<Token> = Vec::new();
        proof {
            assert(tokens_model(tokens@) =~= tokens_model(self.tokens@.take(0)));
        }
        let mut idx: usize = 0;
        while idx < self.tokens.len()
            invariant
                idx <= self.tokens@.len(),
                tokens_model(tokens@) == tokens_model(self.tokens@.take(idx as int)),
            decreases self.tokens@.len() - idx,
        {
            let copy = self.tokens[idx].clone();
            proof {
                lemma_tokens_model_snoc(tokens@, copy);
                lemma_tokens_model_snoc(
                    self.tokens@.take(idx as int),
                    self.tokens@[idx as int],
                );
                assert(self.tokens@.take(idx + 1) =~= self.tokens@.take(idx as int).push(
                    self.tokens@[idx as int],
                ));
            }
            tokens.push(copy);
            idx = idx + 1;
        }
        proof {
            assert(self.tokens@.take(self.tokens@.len() as int) =~= self.tokens@);
        }
        GroupToken { tokens }
    }
}

impl Clone for Token {
    /// A copy of the token; it models the same token tree as the original.
    fn clone(&self) -> (r: Self)
        ensures
            token_model(r) == token_model(*self),
        decreases *self,
    {
        match self {
            Token::GroupTokenType(token) => Token::GroupTokenType(token.clone()),
            Token::OperatorTokenType(token) => Token::OperatorTokenType(token.clone()),
            Token::NumberTokenType(token) => Token::NumberTokenType(token.clone()),
        }
    }
}

/// Appending a token to a sequence appends its model.
pub proof fn lemma_tokens_model_snoc(ts: Seq<Token>, t: Token)
    ensures
        tokens_model(ts.push(t)) == tokens_model(ts) + seq![token_model(t)],
{
    broadcast use lemma_tokens_model_len, lemma_tokens_model_index;

    assert(tokens_model(ts.push(t)) =~= tokens_model(ts) + seq![token_model(t)]);
}

/// A character that no scanner matches at the current position is skipped
/// without error: the tokens of the text are the tokens of the text one
/// character later.
pub proof fn law_skip_unrecognized(s: Seq<char>)
    requires
        s.len() > 0,
        !is_op_char(s[0]),
        number_scan_len(s) == 0,
        group_scan_len(s) == 0,
    ensures
        spec_tokenize(s) == spec_tokenize(s.skip(1)),
{
}

/// A space matches no scanner, so it is dropped wherever the cursor meets
/// it: interspersed spaces change no token.
pub proof fn law_space_skipped(s: Seq<char>)
    requires
        s.len() > 0,
        s[0] == ' ',
    ensures
        spec_tokenize(s) == spec_tokenize(s.skip(1)),
{
    assert(!is_digit(' '));
    assert(digits_end(s, 0) == 0);
    law_skip_unrecognized(s);
}

/// An opening parenthesis with no matching close fails the group scanner,
/// and the tokenizer skips the one character rather than halting.
pub proof fn law_unmatched_paren_skipped(s: Seq<char>)
    requires
        s.len() > 0,
        s[0] == '(',
        group_close(s, 0, 0) == 0,
    ensures
        group_scan_len(s) == 0,
        spec_tokenize(s) == spec_tokenize(s.skip(1)),
{
    assert(!is_digit('('));
    assert(digits_end(s, 0) == 0);
    law_skip_unrecognized(s);
}

/// The digits of a natural number: at least one character, digits only, and
/// reading them back gives the number again.
pub proof fn lemma_nat_digits_text_props(n: nat)
    ensures
        nat_digits_text(n).len() >= 1,
        forall|k: int|
            0 <= k < nat_digits_text(n).len() ==> is_digit(#[trigger] nat_digits_text(n)[k]),
        digits_val(nat_digits_text(n)) == n,
    decreases n,
{
    let t = nat_digits_text(n);
    if n < 10 {
        assert(is_digit(digit_char(n)));
        assert(t.drop_last() =~= Seq::<char>::empty());
        assert(digits_val(t) == digits_val(Seq::<char>::empty()) * 10 + digit_val(t.last()));
        assert(digit_val(digit_char(n)) == n);
    } else {
        lemma_nat_digits_text_props(n / 10);
        let head = nat_digits_text((n / 10) as nat);
        assert(t == head + seq![digit_char(n % 10)]);
        assert(t.drop_last() =~= head);
        assert(t.last() == digit_char(n % 10));
        lemma_mod_division_less_than_divisor(n as int, 10);
        assert(digit_val(digit_char(n % 10)) == n % 10);
        lemma_fundamental_div_mod(n as int, 10);
    }
}

/// Rendering any 64-bit integer and scanning the text again consumes all of
/// it and gives back exactly that integer: the number round trip.
pub proof fn law_integer_round_trip(i: i64)
    ensures
        number_scan_len(int_text(i as int)) == int_text(i as int).len(),
        number_of_text(int_text(i as int)) == Number::Integer(i),
{
    let s = int_text(i as int);
    if i >= 0 {
        lemma_nat_digits_text_props(i as nat);
        assert(s == nat_digits_text(i as nat));
        assert(is_digit(s[0]));
        assert(s[0] != '-');
        lemma_digits_end_determined(s, 0, s.len() as int);
        assert(number_scan_len(s) == s.len());
        assert forall|k: int| 0 <= k < s.len() implies s[k] != '.' by {
            assert(is_digit(s[k]));
        }
        assert(!has_dot(s));
        assert(int_literal_value(s) == i);
    } else {
        let m = nat_digits_text((-(i as int)) as nat);
        lemma_nat_digits_text_props((-(i as int)) as nat);
        assert(s == seq!['-'] + m);
        assert(s[0] == '-');
        assert(s.skip(1) =~= m);
        assert forall|k: int| 1 <= k < s.len() implies is_digit(#[trigger] s[k]) by {
            assert(s[k] == m[k - 1]);
        }
        lemma_digits_end_determined(s, 1, s.len() as int);
        assert(number_scan_len(s) == s.len());
        assert forall|k: int| 0 <= k < s.len() implies s[k] != '.' by {
            if k >= 1 {
                assert(is_digit(s[k]));
            }
        }
        assert(!has_dot(s));
        assert(digits_val(s.skip(1)) == -(i as int));
        assert(int_literal_value(s) == i);
    }
}

/// A digit is the character of its value.
proof fn lemma_digit_char_of_val(c: char)
    requires
        is_digit(c),
    ensures
        digit_char(digit_val(c)) == c,
{
}

/// A digit run that does not start with a zero has a value of at least one.
proof fn lemma_digits_val_pos(s: Seq<char>)
    requires
        s.len() >= 1,
        forall|k: int| 0 <= k < s.len() ==> is_digit(#[trigger] s[k]),
        s[0] != '0',
    ensures
        digits_val(s) >= 1,
    decreases s.len(),
{
    if s.len() == 1 {
        assert(s.drop_last() =~= Seq::<char>::empty());
        assert(digit_val(s.last()) >= 1);
    } else {
        assert(s.drop_last()[0] == s[0]);
        lemma_digits_val_pos(s.drop_last());
    }
}

/// A digit text without a leading zero is exactly the rendering of its own
/// value: reading and rendering are mutually inverse on canonical texts.
proof fn lemma_canonical_digits_render_back(s: Seq<char>)
    requires
        s.len() >= 1,
        forall|k: int| 0 <= k < s.len() ==> is_digit(#[trigger] s[k]),
        s.len() > 1 ==> s[0] != '0',
    ensures
        nat_digits_text(digits_val(s)) == s,
    decreases s.len(),
{
    let v = digits_val(s);
    if s.len() == 1 {
        assert(s.drop_last() =~= Seq::<char>::empty());
        assert(digits_val(s) == digits_val(s.drop_last()) * 10 + digit_val(s.last()));
        assert(digits_val(s.drop_last()) == 0);
        assert(s.last() == s[0]);
        assert(v == digit_val(s[0]));
        assert(v < 10);
        lemma_digit_char_of_val(s[0]);
        assert(nat_digits_text(v) =~= s);
    } else {
        let head = s.drop_last();
        let d = digit_val(s.last());
        assert(head[0] == s[0]);
        assert(forall|k: int| 0 <= k < head.len() ==> is_digit(#[trigger] head[k]));
        lemma_digits_val_pos(head);
        let hv = digits_val(head);
        assert(v == hv * 10 + d);
        assert(d < 10);
        assert(v >= 10) by {
            assert(hv >= 1);
            assert(hv * 10 >= 10) by (nonlinear_arith)
                requires
                    hv >= 1,
            ;
        }
        assert((10 * (hv as int) + (d as int)) / 10 == hv as int) by {
            lemma_div_multiples_vanish_fancy(hv as int, d as int, 10);
        }
        assert((10 * (hv as int) + (d as int)) % 10 == d as int) by {
            lemma_mod_multiples_vanish(hv as int, d as int, 10);
            lemma_small_mod(d, 10);
        }
        assert(v / 10 == hv && v % 10 == d);
        lemma_canonical_digits_render_back(head);
        lemma_digit_char_of_val(s.last());
        assert(nat_digits_text(v) == nat_digits_text(hv) + seq![digit_char(d)]);
        assert(nat_digits_text(v) =~= s);
    }
}

/// Tokenizing a canonical integer literal — digits only, no leading zero —
/// and rendering the token back gives exactly the original text; the literal
/// is consumed whole and reads as the integer it writes.
pub proof fn law_literal_text_round_trip(s: Seq<char>)
    requires
        s.len() >= 1,
        forall|k: int| 0 <= k < s.len() ==> is_digit(#[trigger] s[k]),
        s.len() > 1 ==> s[0] != '0',
        digits_val(s) <= i64::MAX,
    ensures
        number_scan_len(s) == s.len(),
        number_of_text(s) == Number::Integer(digits_val(s) as i64),
        number_text(number_of_text(s)) == s,
{
    assert(is_digit(s[0]));
    assert(s[0] != '-');
    lemma_digits_end_determined(s, 0, s.len() as int);
    assert(number_scan_len(s) == s.len());
    assert forall|k: int| 0 <= k < s.len() implies s[k] != '.' by {
        assert(is_digit(s[k]));
    }
    assert(!has_dot(s));
    assert(int_literal_value(s) == digits_val(s));
    lemma_canonical_digits_render_back(s);
}

/// Rendering any operator and scanning the one-character text again gives
/// back exactly that operator: the operator round trip.
pub proof fn law_operator_round_trip(op: Operator)
    ensures
        op_text(op).len() == 1,
        is_op_char(op_text(op)[0]),
        op_of_char(op_text(op)[0]) == op,
{
}

} // verus!
