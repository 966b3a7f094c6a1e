//! The grammar of filter expressions, as functions on the characters of the input.
//!
//! Each function reads the input `s` from position `p` and gives either the position
//! just after what it recognised together with its value, or the failure that stops
//! it: the position where it arose and what the parser was doing there.
use vstd::prelude::*;

use super::ast::{kinds_of, AstValue, PrimitiveValue, PrimitivesTypes};
use super::error::ErrorContext;

verus! {

/// Where a parse stopped, what it was doing there (innermost first), and whether the
/// failure is final, so that no alternative is tried after it.
pub struct Failure {
    pub pos: int,
    pub context: Seq<ErrorContext>,
    pub cut: bool,
}

/// The functions that calls are checked against, if any: their names and the kinds of
/// their arguments.
pub type Known = Option<Map<Seq<char>, Seq<PrimitivesTypes>>>;

/// The end position and value of a successful parse, or its failure.
pub type Parsed<V> = Result<(int, V), Failure>;

/// A failure at `pos` with no context, after which alternatives are tried.
pub open spec fn failure(pos: int) -> Failure {
    Failure { pos, context: Seq::empty(), cut: false }
}

/// Adds `c` to the context of a failure; a success is unchanged.
pub open spec fn within<V>(r: Parsed<V>, c: ErrorContext) -> Parsed<V> {
    match r {
        Ok(x) => Ok(x),
        Err(f) => Err(Failure { context: f.context.push(c), ..f }),
    }
}

/// Spaces and tabs separate tokens.
pub open spec fn is_space(c: char) -> bool {
    c == ' ' || c == '\t'
}

/// The end of the run of spaces and tabs that starts at `p`.
pub open spec fn spaces_end(s: Seq<char>, p: int) -> int
    decreases s.len() - p,
{
    if 0 <= p < s.len() && is_space(s[p]) {
        spaces_end(s, p + 1)
    } else {
        p
    }
}

/// `w` stands in `s` at position `p`.
pub open spec fn has_word(s: Seq<char>, p: int, w: Seq<char>) -> bool {
    0 <= p && p + w.len() <= s.len() && s.subrange(p, p + w.len()) == w
}

/// The word `w`, with any spaces and tabs around it.
pub open spec fn token(s: Seq<char>, p: int, w: Seq<char>) -> Result<int, Failure> {
    let a = spaces_end(s, p);
    if has_word(s, a, w) {
        Ok(spaces_end(s, a + w.len()))
    } else {
        Err(failure(a))
    }
}

/// The word `not`.
pub open spec fn word_not() -> Seq<char> {
    seq!['n', 'o', 't']
}

/// The word `and`.
pub open spec fn word_and() -> Seq<char> {
    seq!['a', 'n', 'd']
}

/// The word `or`.
pub open spec fn word_or() -> Seq<char> {
    seq!['o', 'r']
}

/// The word `true`.
pub open spec fn word_true() -> Seq<char> {
    seq!['t', 'r', 'u', 'e']
}

/// The word `false`.
pub open spec fn word_false() -> Seq<char> {
    seq!['f', 'a', 'l', 's', 'e']
}

/// A function name starts with a letter or `_`.
pub open spec fn is_name_start(c: char) -> bool {
    ('a' <= c && c <= 'z') || ('A' <= c && c <= 'Z') || c == '_'
}

/// Letters, digits, `-` and `_` continue function names.
pub open spec fn is_name_char(c: char) -> bool {
    is_name_start(c) || ('0' <= c && c <= '9') || c == '-'
}

/// The end of the run of name characters that starts at `p`.
pub open spec fn name_end(s: Seq<char>, p: int) -> int
    decreases s.len() - p,
{
    if 0 <= p < s.len() && is_name_char(s[p]) {
        name_end(s, p + 1)
    } else {
        p
    }
}

/// A function name: a letter or `_`, then any letters, digits, `-` or `_`.
pub open spec fn func_name(s: Seq<char>, p: int) -> Parsed<Seq<char>> {
    if 0 <= p < s.len() && is_name_start(s[p]) {
        let q = name_end(s, p + 1);
        Ok((q, s.subrange(p, q)))
    } else {
        Err(failure(p))
    }
}

/// The decimal digits `0` to `9`.
pub open spec fn is_digit(c: char) -> bool {
    '0' <= c && c <= '9'
}

/// The value of a decimal digit.
pub open spec fn digit_value(c: char) -> int {
    (c as int) - ('0' as int)
}

/// The end of the run of decimal digits that starts at `p`.
pub open spec fn digits_end(s: Seq<char>, p: int) -> int
    decreases s.len() - p,
{
    if 0 <= p < s.len() && is_digit(s[p]) {
        digits_end(s, p + 1)
    } else {
        p
    }
}

/// The number that the decimal digits of `d` write.
pub open spec fn decimal_value(d: Seq<char>) -> int
    decreases d.len(),
{
    if d.len() == 0 {
        0
    } else {
        decimal_value(d.drop_last()) * 10 + digit_value(d.last())
    }
}

/// An integer literal: one or more decimal digits, whose value fits in an `i32`.
pub open spec fn int_literal(s: Seq<char>, p: int) -> Parsed<PrimitiveValue> {
    let q = digits_end(s, p);
    if q > p {
        let v = decimal_value(s.subrange(p, q));
        if v <= i32::MAX {
            Ok((q, PrimitiveValue::Int(v as i32)))
        } else {
            Err(failure(p))
        }
    } else {
        Err(failure(p))
    }
}

/// `true` or `false`; where neither stands, the failure of `false` is reported.
pub open spec fn bool_literal(s: Seq<char>, p: int) -> Parsed<PrimitiveValue> {
    match token(s, p, word_true()) {
        Ok(q) => Ok((q, PrimitiveValue::Bool(true))),
        Err(e1) => match token(s, p, word_false()) {
            Ok(q) => Ok((q, PrimitiveValue::Bool(false))),
            Err(e2) => Err(e2),
        },
    }
}

/// The first `"` at or after `p`, or the end of the input.
pub open spec fn quote_end(s: Seq<char>, p: int) -> int
    decreases s.len() - p,
{
    if 0 <= p < s.len() && s[p] != '"' {
        quote_end(s, p + 1)
    } else {
        p
    }
}

/// The characters between two double quotes, with no quote among them.
pub open spec fn quoted(s: Seq<char>, p: int) -> Parsed<PrimitiveValue> {
    if 0 <= p < s.len() && s[p] == '"' {
        let q = quote_end(s, p + 1);
        if q < s.len() {
            Ok((q + 1, PrimitiveValue::Text(s.subrange(p + 1, q))))
        } else {
            Err(failure(q))
        }
    } else {
        Err(failure(p))
    }
}

/// A quoted string literal.
pub open spec fn string_literal(s: Seq<char>, p: int) -> Parsed<PrimitiveValue> {
    within(within(quoted(s, p), ErrorContext::StringLiteral), ErrorContext::ExpectedQuotedString)
}

/// An integer, boolean or string literal, tried in that order; where none stands, the
/// failure of the string literal, the last one tried, is reported.
pub open spec fn literal(s: Seq<char>, p: int) -> Parsed<PrimitiveValue> {
    match int_literal(s, p) {
        Ok(x) => Ok(x),
        Err(e1) => match bool_literal(s, p) {
            Ok(x) => Ok(x),
            Err(e2) => match string_literal(s, p) {
                Ok(x) => Ok(x),
                Err(e3) => Err(e3),
            },
        },
    }
}

/// After the literals `acc`, which end at `q`: more literals, each after a comma.
pub open spec fn literals_rest(s: Seq<char>, q: int, acc: Seq<PrimitiveValue>) -> (
    int,
    Seq<PrimitiveValue>,
)
    decreases s.len() - q,
{
    match token(s, q, seq![',']) {
        Err(_) => (q, acc),
        Ok(r) => match literal(s, r) {
            Err(_) => (q, acc),
            Ok((t, v)) => if q < t <= s.len() {
                literals_rest(s, t, acc.push(v))
            } else {
                (q, acc)
            },
        },
    }
}

/// Zero or more literals separated by commas; a comma without a literal after it is
/// left unread.
pub open spec fn literals(s: Seq<char>, p: int) -> (int, Seq<PrimitiveValue>) {
    match literal(s, p) {
        Err(_) => (p, Seq::empty()),
        Ok((q, v)) => literals_rest(s, q, seq![v]),
    }
}

/// A token that was expected, with the context `c` on its failure.
pub open spec fn expecting(r: Result<int, Failure>, c: ErrorContext) -> Result<int, Failure> {
    match r {
        Ok(q) => Ok(q),
        Err(f) => Err(Failure { context: f.context.push(c), ..f }),
    }
}

/// The check of a call against the known functions, if any: the name must be known and
/// the arguments must have its declared kinds; otherwise the parse fails for good where
/// the call starts.
pub open spec fn check_call(k: Known, p: int, u: int, name: Seq<char>, args: Seq<PrimitiveValue>) -> Parsed<
    AstValue,
> {
    match k {
        None => Ok((u, AstValue::Func { name, args })),
        Some(m) => if !m.contains_key(name) {
            Err(Failure { pos: p, context: seq![ErrorContext::ExpectedKnownFunction], cut: true })
        } else if m[name] != kinds_of(args) {
            Err(
                Failure {
                    pos: p,
                    context: seq![ErrorContext::ExpectedDeclaredArguments],
                    cut: true,
                },
            )
        } else {
            Ok((u, AstValue::Func { name, args }))
        },
    }
}

/// A function call: a name, then its literal arguments in parentheses, checked against
/// the known functions if any.
pub open spec fn func_call(s: Seq<char>, k: Known, p: int) -> Parsed<AstValue> {
    within(
        match within(func_name(s, p), ErrorContext::FunctionName) {
            Err(f) => Err(f),
            Ok((q, name)) => match expecting(token(s, q, seq!['(']), ErrorContext::ExpectedOpenParen) {
                Err(f) => Err(f),
                Ok(r) => {
                    let (t, args) = literals(s, r);
                    match expecting(token(s, t, seq![')']), ErrorContext::ExpectedCloseParen) {
                        Err(f) => Err(f),
                        Ok(u) => check_call(k, p, u, name, args),
                    }
                },
            },
        },
        ErrorContext::FunctionCall,
    )
}

/// `e`, negated when `negated` holds.
pub open spec fn negate_if(negated: bool, e: AstValue) -> AstValue {
    if negated {
        AstValue::Not { expr: Box::new(e) }
    } else {
        e
    }
}

/// An optional `not`, then a parenthesized expression or a function call; a final
/// failure of the first alternative is not followed by the second, and where both fail
/// the failure of the second, the last one tried, is reported.
pub open spec fn term(s: Seq<char>, k: Known, p: int) -> Parsed<AstValue>
    decreases s.len() - p, 2int,
{
    if !(0 <= p <= s.len()) {
        Err(failure(p))
    } else {
        let (start, negated) = match token(s, p, word_not()) {
            Ok(q) => (q, true),
            Err(_) => (p, false),
        };
        if p <= start <= s.len() {
            match parens_expr(s, k, start) {
                Ok((q, e)) => Ok((q, negate_if(negated, e))),
                Err(e1) => if e1.cut {
                    Err(e1)
                } else {
                    match func_call(s, k, start) {
                        Ok((q, e)) => Ok((q, negate_if(negated, e))),
                        Err(e2) => Err(e2),
                    }
                },
            }
        } else {
            Err(failure(p))
        }
    }
}

/// An expression between parentheses.
pub open spec fn parens_expr(s: Seq<char>, k: Known, p: int) -> Parsed<AstValue>
    decreases s.len() - p, 1int,
{
    if !(0 <= p <= s.len()) {
        Err(failure(p))
    } else {
        match token(s, p, seq!['(']) {
            Err(f) => Err(f),
            Ok(q) => if p < q <= s.len() {
                match expr(s, k, q) {
                    Err(f) => Err(f),
                    Ok((r, e)) => match token(s, r, seq![')']) {
                        Err(f) => Err(f),
                        Ok(t) => Ok((t, e)),
                    },
                }
            } else {
                Err(failure(p))
            },
        }
    }
}

/// After the operand `acc`, which ends at `q`: more terms, each after `and`, folded to
/// the left. A term that fails after `and` ends the chain at `q`, unless its failure is
/// final.
pub open spec fn and_rest(s: Seq<char>, k: Known, q: int, acc: AstValue) -> Parsed<AstValue>
    decreases s.len() - q, 0int,
{
    if !(0 <= q <= s.len()) {
        Ok((q, acc))
    } else {
        match token(s, q, word_and()) {
            Err(_) => Ok((q, acc)),
            Ok(r) => if q < r <= s.len() {
                match term(s, k, r) {
                    Err(f) => if f.cut {
                        Err(f)
                    } else {
                        Ok((q, acc))
                    },
                    Ok((t, right)) => if r <= t <= s.len() {
                        and_rest(
                            s,
                            k,
                            t,
                            AstValue::And { left: Box::new(acc), right: Box::new(right) },
                        )
                    } else {
                        Ok((q, acc))
                    },
                }
            } else {
                Ok((q, acc))
            },
        }
    }
}

/// Terms joined by `and`, grouped to the left.
pub open spec fn and_expr(s: Seq<char>, k: Known, p: int) -> Parsed<AstValue>
    decreases s.len() - p, 3int,
{
    if !(0 <= p <= s.len()) {
        Err(failure(p))
    } else {
        match term(s, k, p) {
            Err(f) => Err(f),
            Ok((q, first)) => if p <= q <= s.len() {
                and_rest(s, k, q, first)
            } else {
                Err(failure(p))
            },
        }
    }
}

/// After the operand `acc`, which ends at `q`: more `and` groups, each after `or`,
/// folded to the left. A group that fails after `or` ends the chain at `q`, unless its
/// failure is final.
pub open spec fn or_rest(s: Seq<char>, k: Known, q: int, acc: AstValue) -> Parsed<AstValue>
    decreases s.len() - q, 0int,
{
    if !(0 <= q <= s.len()) {
        Ok((q, acc))
    } else {
        match token(s, q, word_or()) {
            Err(_) => Ok((q, acc)),
            Ok(r) => if q < r <= s.len() {
                match and_expr(s, k, r) {
                    Err(f) => if f.cut {
                        Err(f)
                    } else {
                        Ok((q, acc))
                    },
                    Ok((t, right)) => if r <= t <= s.len() {
                        or_rest(
                            s,
                            k,
                            t,
                            AstValue::Or { left: Box::new(acc), right: Box::new(right) },
                        )
                    } else {
                        Ok((q, acc))
                    },
                }
            } else {
                Ok((q, acc))
            },
        }
    }
}

/// `and` groups joined by `or`, grouped to the left.
pub open spec fn or_expr(s: Seq<char>, k: Known, p: int) -> Parsed<AstValue>
    decreases s.len() - p, 4int,
{
    if !(0 <= p <= s.len()) {
        Err(failure(p))
    } else {
        match and_expr(s, k, p) {
            Err(f) => Err(f),
            Ok((q, first)) => if p <= q <= s.len() {
                or_rest(s, k, q, first)
            } else {
                Err(failure(p))
            },
        }
    }
}

/// A filter expression.
pub open spec fn expr(s: Seq<char>, k: Known, p: int) -> Parsed<AstValue>
    decreases s.len() - p, 5int,
{
    or_expr(s, k, p)
}

/// A filter expression that takes up the whole input.
#[verifier::opaque]
pub open spec fn parse_all(s: Seq<char>, k: Known) -> Result<AstValue, Failure> {
    match expr(s, k, 0) {
        Err(f) => Err(f),
        Ok((q, a)) => if q == s.len() {
            Ok(a)
        } else {
            Err(failure(q))
        },
    }
}

} // verus!
