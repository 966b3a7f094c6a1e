//! Parsers for filter expressions. Each one reads the input from a position and gives
//! the position after what it read and the value it built, or the error that stopped it,
//! exactly as the grammar of [`super::grammar`] says.
use vstd::prelude::*;

use super::ast::{args_value, Ast, AstValue, Primitives};
use super::context::{kinds_match, ParserContext};
use super::error::{ErrorContext, FurthestError};
use super::grammar;
use super::grammar::{Failure, Parsed};
use super::stream::Stream;
use super::text::{lemma_utf8_len_at_least, lemma_utf8_len_concat, str_chars, utf8_len};

verus! {

/// `e` reports the failure `f` of a parse of `s`, with `o` as the whole input: the
/// number of bytes left from where it arose, its context, and whether it is final.
pub open spec fn reports(e: FurthestError, s: Seq<char>, o: Seq<char>, f: Failure) -> bool {
    &&& 0 <= f.pos <= s.len()
    &&& e.remaining_len == utf8_len(s.subrange(f.pos, s.len() as int))
    &&& e.original@ == o
    &&& e.context@ == f.context
    &&& e.is_cut == f.cut
}

/// The further into the input, the fewer bytes are left after it.
proof fn lemma_suffix_bytes(s: Seq<char>, i: int, j: int)
    requires
        0 <= i <= j <= s.len(),
    ensures
        utf8_len(s.subrange(j, s.len() as int)) + (j - i) <= utf8_len(
            s.subrange(i, s.len() as int),
        ),
{
    let n = s.len() as int;
    assert(s.subrange(i, n) =~= s.subrange(i, j) + s.subrange(j, n));
    lemma_utf8_len_concat(s.subrange(i, j), s.subrange(j, n));
    lemma_utf8_len_at_least(s.subrange(i, j));
}

/// The result of a parser is the one that the grammar gives.
pub open spec fn agrees<V: View>(
    s: Seq<char>,
    o: Seq<char>,
    r: Result<(usize, V), FurthestError>,
    g: Parsed<V::V>,
) -> bool {
    match r {
        Ok((q, v)) => g matches Ok((gq, gv)) && q == gq && v@ == gv,
        Err(e) => g matches Err(f) && reports(e, s, o, f),
    }
}

/// The result of a token parser is the one that the grammar gives.
pub open spec fn agrees_token(
    s: Seq<char>,
    o: Seq<char>,
    r: Result<usize, FurthestError>,
    g: Result<int, Failure>,
) -> bool {
    match r {
        Ok(q) => g == Ok::<int, Failure>(q as int),
        Err(e) => g matches Err(f) && reports(e, s, o, f),
    }
}

/// Skips the spaces and tabs at `pos`.
fn skip_spaces(input: &Stream, pos: usize) -> (q: usize)
    requires
        pos <= input@.len(),
    ensures
        q == grammar::spaces_end(input@, pos as int),
        pos <= q <= input@.len(),
{
    let n = input.len();
    let mut i = pos;
    while i < n && (input.char_at(i) == ' ' || input.char_at(i) == '\t')
        invariant
            pos <= i <= n,
            n == input@.len(),
            grammar::spaces_end(input@, i as int) == grammar::spaces_end(input@, pos as int),
        decreases n - i,
    {
        i = i + 1;
    }
    i
}

/// Whether the characters `w` stand in the input at `pos`.
fn word_at(input: &Stream, pos: usize, w: &Vec<char>) -> (b: bool)
    requires
        pos <= input@.len(),
    ensures
        b == grammar::has_word(input@, pos as int, w@),
{
    let n = input.len();
    if w.len() > n - pos {
        return false;
    }
    let mut i: usize = 0;
    while i < w.len()
        invariant
            pos + w@.len() <= n,
            n == input@.len(),
            i <= w@.len(),
            input@.subrange(pos as int, pos + i) == w@.subrange(0, i as int),
        decreases w.len() - i,
    {
        if input.char_at(pos + i) != w[i] {
            assert(input@.subrange(pos as int, pos + w@.len())[i as int] != w@[i as int]);
            return false;
        }
        i = i + 1;
        assert(input@.subrange(pos as int, pos + i) =~= w@.subrange(0, i as int));
    }
    assert(w@.subrange(0, w@.len() as int) =~= w@);
    true
}

/// The word `name`, with any spaces and tabs around it.
pub fn token(input: &Stream, pos: usize, name: &str) -> (res: Result<usize, FurthestError>)
    requires
        pos <= input@.len(),
    ensures
        agrees_token(input@, input.origin(), res, grammar::token(input@, pos as int, name@)),
        res matches Ok(q) ==> pos + name@.len() <= q <= input@.len(),
{
    let n = input.len();
    let a = skip_spaces(input, pos);
    let w = str_chars(name);
    if word_at(input, a, &w) {
        assert(a + w@.len() <= n);
        let q = skip_spaces(input, a + w.len());
        Ok(q)
    } else {
        Err(FurthestError::from_input(input, a))
    }
}


/// Whether `c` may start a function name.
fn is_name_start(c: char) -> (b: bool)
    ensures
        b == grammar::is_name_start(c),
{
    ('a' <= c && c <= 'z') || ('A' <= c && c <= 'Z') || c == '_'
}

/// Whether `c` may continue a function name.
fn is_name_char(c: char) -> (b: bool)
    ensures
        b == grammar::is_name_char(c),
{
    is_name_start(c) || ('0' <= c && c <= '9') || c == '-'
}

/// A function name: a letter or `_`, then any letters, digits, `-` or `_`.
pub fn func_name(input: &Stream, pos: usize) -> (res: Result<(usize, String), FurthestError>)
    requires
        pos <= input@.len(),
    ensures
        agrees(input@, input.origin(), res, grammar::func_name(input@, pos as int)),
        res matches Ok((q, _)) ==> pos < q <= input@.len(),
{
    let n = input.len();
    if !(pos < n && is_name_start(input.char_at(pos))) {
        return Err(FurthestError::from_input(input, pos));
    }
    let mut i = pos + 1;
    while i < n && is_name_char(input.char_at(i))
        invariant
            pos < i <= n,
            n == input@.len(),
            grammar::name_end(input@, i as int) == grammar::name_end(input@, pos + 1),
        decreases n - i,
    {
        i = i + 1;
    }
    Ok((i, input.slice(pos, i)))
}

/// Whether `c` is a decimal digit.
fn is_digit(c: char) -> (b: bool)
    ensures
        b == grammar::is_digit(c),
{
    '0' <= c && c <= '9'
}

/// Skips the decimal digits at `pos`.
fn skip_digits(input: &Stream, pos: usize) -> (q: usize)
    requires
        pos <= input@.len(),
    ensures
        q == grammar::digits_end(input@, pos as int),
        pos <= q <= input@.len(),
{
    let n = input.len();
    let mut i = pos;
    while i < n && is_digit(input.char_at(i))
        invariant
            pos <= i <= n,
            n == input@.len(),
            grammar::digits_end(input@, i as int) == grammar::digits_end(input@, pos as int),
        decreases n - i,
    {
        i = i + 1;
    }
    i
}

/// The digits from `from` up to `to` all are decimal digits.
proof fn lemma_digits_end_all_digits(s: Seq<char>, p: int, i: int)
    requires
        0 <= p <= i < grammar::digits_end(s, p),
    ensures
        grammar::is_digit(s[i]),
    decreases i - p,
{
    if p < i {
        lemma_digits_end_all_digits(s, p + 1, i);
    }
}

/// One more than the largest `i32`: `2^31`.
const I32_MAGNITUDE_LIMIT: u64 = 2147483648;

/// The magnitude of the decimal number written from `from` up to `to`, or `None` when
/// it is beyond `2^31`.
fn decimal_magnitude(input: &Stream, from: usize, to: usize) -> (m: Option<u64>)
    requires
        from <= to <= input@.len(),
        forall|i: int| from <= i < to ==> grammar::is_digit(#[trigger] input@[i]),
    ensures
        m matches Some(v) ==> v == grammar::decimal_value(input@.subrange(from as int, to as int))
            && v <= I32_MAGNITUDE_LIMIT,
        m is None ==> grammar::decimal_value(input@.subrange(from as int, to as int))
            > I32_MAGNITUDE_LIMIT,
{
    let mut v: u64 = 0;
    let mut i = from;
    assert(input@.subrange(from as int, from as int) =~= Seq::<char>::empty());
    while i < to
        invariant
            from <= i <= to <= input@.len(),
            forall|k: int| from <= k < to ==> grammar::is_digit(#[trigger] input@[k]),
            v == grammar::decimal_value(input@.subrange(from as int, i as int)),
            v <= I32_MAGNITUDE_LIMIT,
        decreases to - i,
    {
        let c = input.char_at(i);
        assert(grammar::is_digit(input@[i as int]));
        let d = ((c as u32) - ('0' as u32)) as u64;
        assert(input@.subrange(from as int, i + 1).drop_last() =~= input@.subrange(
            from as int,
            i as int,
        ));
        let next = v * 10 + d;
        if next > I32_MAGNITUDE_LIMIT {
            proof {
                lemma_decimal_value_grows(input@, from as int, i + 1, to as int);
            }
            return None;
        }
        v = next;
        i = i + 1;
    }
    Some(v)
}

/// Appending digits never makes a decimal number smaller.
proof fn lemma_decimal_value_grows(s: Seq<char>, from: int, mid: int, to: int)
    requires
        0 <= from <= mid <= to <= s.len(),
        forall|k: int| from <= k < to ==> grammar::is_digit(#[trigger] s[k]),
    ensures
        grammar::decimal_value(s.subrange(from, mid)) <= grammar::decimal_value(
            s.subrange(from, to),
        ),
    decreases to - mid,
{
    if mid < to {
        lemma_decimal_value_grows(s, from, mid, to - 1);
        assert(s.subrange(from, to).drop_last() =~= s.subrange(from, to - 1));
        assert(grammar::is_digit(s[to - 1]));
        lemma_decimal_value_nonnegative(s.subrange(from, to - 1));
    }
}

/// A decimal number is never negative.
proof fn lemma_decimal_value_nonnegative(d: Seq<char>)
    requires
        forall|k: int| 0 <= k < d.len() ==> grammar::is_digit(#[trigger] d[k]),
    ensures
        grammar::decimal_value(d) >= 0,
    decreases d.len(),
{
    if d.len() > 0 {
        assert(grammar::is_digit(d[d.len() - 1]));
        lemma_decimal_value_nonnegative(d.drop_last());
    }
}

/// An integer literal: one or more decimal digits, whose value fits in an `i32`.
fn int_literal(input: &Stream, pos: usize) -> (res: Result<(usize, Primitives), FurthestError>)
    requires
        pos <= input@.len(),
    ensures
        agrees(input@, input.origin(), res, grammar::int_literal(input@, pos as int)),
        res matches Ok((q, _)) ==> pos < q <= input@.len(),
{
    let q = skip_digits(input, pos);
    if q == pos {
        return Err(FurthestError::from_input(input, pos));
    }
    proof {
        assert forall|i: int| pos <= i < q implies grammar::is_digit(#[trigger] input@[i]) by {
            lemma_digits_end_all_digits(input@, pos as int, i);
        }
    }
    match decimal_magnitude(input, pos, q) {
        Some(m) => {
            if m < I32_MAGNITUDE_LIMIT {
                Ok((q, Primitives::Int(m as i32)))
            } else {
                Err(FurthestError::from_input(input, pos))
            }
        },
        None => Err(FurthestError::from_input(input, pos)),
    }
}

/// `true` or `false`, with any spaces and tabs around it.
fn bool_literal(input: &Stream, pos: usize) -> (res: Result<(usize, Primitives), FurthestError>)
    requires
        pos <= input@.len(),
    ensures
        agrees(input@, input.origin(), res, grammar::bool_literal(input@, pos as int)),
        res matches Ok((q, _)) ==> pos < q <= input@.len(),
{
    proof {
        reveal_strlit("true");
        reveal_strlit("false");
        assert("true"@ =~= grammar::word_true());
        assert("false"@ =~= grammar::word_false());
    }
    match token(input, pos, "true") {
        Ok(q) => Ok((q, Primitives::Bool(true))),
        Err(_) => match token(input, pos, "false") {
            Ok(q) => Ok((q, Primitives::Bool(false))),
            Err(e2) => Err(e2),
        },
    }
}

/// The characters between two double quotes, with no quote among them.
fn quoted(input: &Stream, pos: usize) -> (res: Result<(usize, Primitives), FurthestError>)
    requires
        pos <= input@.len(),
    ensures
        agrees(input@, input.origin(), res, grammar::quoted(input@, pos as int)),
        res matches Ok((q, _)) ==> pos < q <= input@.len(),
{
    let n = input.len();
    if pos < n && input.char_at(pos) == '"' {
        let mut i = pos + 1;
        while i < n && input.char_at(i) != '"'
            invariant
                pos < i <= n,
                n == input@.len(),
                grammar::quote_end(input@, i as int) == grammar::quote_end(input@, pos + 1),
            decreases n - i,
        {
            i = i + 1;
        }
        if i < n {
            Ok((i + 1, Primitives::String(input.slice(pos + 1, i))))
        } else {
            Err(FurthestError::from_input(input, i))
        }
    } else {
        Err(FurthestError::from_input(input, pos))
    }
}

/// A quoted string literal.
fn string_literal(input: &Stream, pos: usize) -> (res: Result<(usize, Primitives), FurthestError>)
    requires
        pos <= input@.len(),
    ensures
        agrees(input@, input.origin(), res, grammar::string_literal(input@, pos as int)),
        res matches Ok((q, _)) ==> pos < q <= input@.len(),
{
    match quoted(input, pos) {
        Ok(r) => Ok(r),
        Err(e) => Err(
            e.add_context(ErrorContext::StringLiteral).add_context(
                ErrorContext::ExpectedQuotedString,
            ),
        ),
    }
}

/// An integer, boolean or string literal, tried in that order; where none stands, the
/// error of the string literal, the last one tried, is returned.
fn local_literal(input: &Stream, pos: usize) -> (res: Result<(usize, Primitives), FurthestError>)
    requires
        pos <= input@.len(),
    ensures
        agrees(input@, input.origin(), res, grammar::literal(input@, pos as int)),
        res matches Ok((q, _)) ==> pos < q <= input@.len(),
{
    match int_literal(input, pos) {
        Ok(r) => Ok(r),
        Err(_) => match bool_literal(input, pos) {
            Ok(r) => Ok(r),
            Err(_) => match string_literal(input, pos) {
                Ok(r) => Ok(r),
                Err(e3) => Err(e3),
            },
        },
    }
}

/// Zero or more literals separated by commas; a comma without a literal after it is
/// left unread. This never fails.
fn seq_literals(input: &Stream, pos: usize) -> (res: (usize, Vec<Primitives>))
    requires
        pos <= input@.len(),
    ensures
        grammar::literals(input@, pos as int) == (res.0 as int, args_value(res.1@)),
        pos <= res.0 <= input@.len(),
{
    let mut args: Vec<Primitives> = Vec::new();
    let (first_end, first) = match local_literal(input, pos) {
        Err(_) => {
            assert(args_value(args@) =~= Seq::empty());
            return (pos, args);
        },
        Ok(r) => r,
    };
    let ghost target = grammar::literals(input@, pos as int);
    args.push(first);
    assert(args_value(args@) =~= seq![first@]);
    let mut q = first_end;
    loop
        invariant
            pos <= q <= input@.len(),
            grammar::literals_rest(input@, q as int, args_value(args@)) == target,
            target == grammar::literals(input@, pos as int),
        decreases input@.len() - q,
    {
        proof {
            reveal_strlit(",");
            assert(","@ =~= seq![',']);
        }
        let r = match token(input, q, ",") {
            Err(_) => return (q, args),
            Ok(r) => r,
        };
        let (t, v) = match local_literal(input, r) {
            Err(_) => return (q, args),
            Ok(x) => x,
        };
        let ghost before = args_value(args@);
        args.push(v);
        assert(args_value(args@) =~= before.push(v@));
        q = t;
    }
}

/// A function call: a name, then its literal arguments in parentheses. When the input
/// carries known functions, the name must be one of them and the arguments must have
/// its declared kinds; otherwise the error is final (cut) and arises where the call
/// starts.
pub fn func_call(input: &Stream, pos: usize) -> (res: Result<(usize, Box<Ast>), FurthestError>)
    requires
        pos <= input@.len(),
    ensures
        agrees(input@, input.origin(), res, grammar::func_call(input@, input.known(), pos as int)),
        res matches Ok((q, _)) ==> pos < q <= input@.len(),
{
    proof {
        reveal_strlit("(");
        reveal_strlit(")");
        assert("("@ =~= seq!['(']);
        assert(")"@ =~= seq![')']);
    }
    let (q, name) = match func_name(input, pos) {
        Ok(r) => r,
        Err(e) => {
            return Err(
                e.add_context(ErrorContext::FunctionName).add_context(ErrorContext::FunctionCall),
            )
        },
    };
    let r = match token(input, q, "(") {
        Ok(r) => r,
        Err(e) => {
            return Err(
                e.add_context(ErrorContext::ExpectedOpenParen).add_context(
                    ErrorContext::FunctionCall,
                ),
            )
        },
    };
    let (t, args) = seq_literals(input, r);
    let u = match token(input, t, ")") {
        Ok(u) => u,
        Err(e) => {
            return Err(
                e.add_context(ErrorContext::ExpectedCloseParen).add_context(
                    ErrorContext::FunctionCall,
                ),
            )
        },
    };
    if let Some(table) = input.known_functions() {
        let known = match table.get(&name) {
            None => false,
            Some(kinds) => {
                if !kinds_match(kinds, &args) {
                    return Err(
                        FurthestError::from_input(input, pos).add_context(
                            ErrorContext::ExpectedDeclaredArguments,
                        ).add_context(ErrorContext::FunctionCall).cut(),
                    );
                }
                true
            },
        };
        if !known {
            return Err(
                FurthestError::from_input(input, pos).add_context(
                    ErrorContext::ExpectedKnownFunction,
                ).add_context(ErrorContext::FunctionCall).cut(),
            );
        }
    }
    Ok((u, Box::new(Ast::Func { name, args })))
}


/// An optional `not`, then a parenthesized expression or a function call; a final
/// error of the first is returned without trying the second, and where both fail the
/// error of the second, the last one tried, is returned.
pub fn term(input: &Stream, pos: usize) -> (res: Result<(usize, Box<Ast>), FurthestError>)
    requires
        pos <= input@.len(),
    ensures
        agrees(input@, input.origin(), res, grammar::term(input@, input.known(), pos as int)),
        res matches Ok((q, _)) ==> pos < q <= input@.len(),
    decreases input@.len() - pos, 2int,
{
    proof {
        reveal_strlit("not");
        assert("not"@ =~= grammar::word_not());
    }
    let (start, negated) = match token(input, pos, "not") {
        Ok(q) => (q, true),
        Err(_) => (pos, false),
    };
    match parens_expr(input, start) {
        Ok((q, e)) => {
            if negated {
                Ok((q, Box::new(Ast::Not { expr: e })))
            } else {
                Ok((q, e))
            }
        },
        Err(e1) => {
            if e1.is_cut {
                return Err(e1);
            }
            match func_call(input, start) {
                Ok((q, e)) => {
                    if negated {
                        Ok((q, Box::new(Ast::Not { expr: e })))
                    } else {
                        Ok((q, e))
                    }
                },
                Err(e2) => Err(e2),
            }
        },
    }
}

/// An expression between parentheses.
pub fn parens_expr(input: &Stream, pos: usize) -> (res: Result<(usize, Box<Ast>), FurthestError>)
    requires
        pos <= input@.len(),
    ensures
        agrees(input@, input.origin(), res, grammar::parens_expr(input@, input.known(), pos as int)),
        res matches Ok((q, _)) ==> pos < q <= input@.len(),
    decreases input@.len() - pos, 1int,
{
    proof {
        reveal_strlit("(");
        reveal_strlit(")");
        assert("("@ =~= seq!['(']);
        assert(")"@ =~= seq![')']);
    }
    let q = token(input, pos, "(")?;
    let (r, e) = expr(input, q)?;
    let t = token(input, r, ")")?;
    Ok((t, e))
}

/// Terms joined by `and`, grouped to the left: `a and b and c` is `(a and b) and c`.
pub fn and_expr(input: &Stream, pos: usize) -> (res: Result<(usize, Box<Ast>), FurthestError>)
    requires
        pos <= input@.len(),
    ensures
        agrees(input@, input.origin(), res, grammar::and_expr(input@, input.known(), pos as int)),
        res matches Ok((q, _)) ==> pos < q <= input@.len(),
    decreases input@.len() - pos, 3int,
{
    let (first_end, first) = term(input, pos)?;
    let ghost target = grammar::and_rest(input@, input.known(), first_end as int, first@);
    let mut acc = first;
    let mut q = first_end;
    loop
        invariant
            pos < q <= input@.len(),
            grammar::and_rest(input@, input.known(), q as int, acc@) == target,
            grammar::and_expr(input@, input.known(), pos as int) == target,
        decreases input@.len() - q,
    {
        proof {
            reveal_strlit("and");
            assert("and"@ =~= grammar::word_and());
        }
        let r = match token(input, q, "and") {
            Err(_) => return Ok((q, acc)),
            Ok(r) => r,
        };
        let (t, right) = match term(input, r) {
            Err(e) => {
                if e.is_cut {
                    return Err(e);
                }
                return Ok((q, acc));
            },
            Ok(x) => x,
        };
        acc = Box::new(Ast::And { left: acc, right });
        q = t;
    }
}

/// `and` groups joined by `or`, grouped to the left: `a or b or c` is `(a or b) or c`.
pub fn or_expr(input: &Stream, pos: usize) -> (res: Result<(usize, Box<Ast>), FurthestError>)
    requires
        pos <= input@.len(),
    ensures
        agrees(input@, input.origin(), res, grammar::or_expr(input@, input.known(), pos as int)),
        res matches Ok((q, _)) ==> pos < q <= input@.len(),
    decreases input@.len() - pos, 4int,
{
    let (first_end, first) = and_expr(input, pos)?;
    let ghost target = grammar::or_rest(input@, input.known(), first_end as int, first@);
    let mut acc = first;
    let mut q = first_end;
    loop
        invariant
            pos < q <= input@.len(),
            grammar::or_rest(input@, input.known(), q as int, acc@) == target,
            grammar::or_expr(input@, input.known(), pos as int) == target,
        decreases input@.len() - q,
    {
        proof {
            reveal_strlit("or");
            assert("or"@ =~= grammar::word_or());
        }
        let r = match token(input, q, "or") {
            Err(_) => return Ok((q, acc)),
            Ok(r) => r,
        };
        let (t, right) = match and_expr(input, r) {
            Err(e) => {
                if e.is_cut {
                    return Err(e);
                }
                return Ok((q, acc));
            },
            Ok(x) => x,
        };
        acc = Box::new(Ast::Or { left: acc, right });
        q = t;
    }
}

/// A filter expression: `or` binds loosest, then `and`, then `not`.
pub fn expr(input: &Stream, pos: usize) -> (res: Result<(usize, Box<Ast>), FurthestError>)
    requires
        pos <= input@.len(),
    ensures
        agrees(input@, input.origin(), res, grammar::expr(input@, input.known(), pos as int)),
        res matches Ok((q, _)) ==> pos < q <= input@.len(),
    decreases input@.len() - pos, 5int,
{
    or_expr(input, pos)
}


/// The result of a whole parse is the one that the grammar gives.
pub open spec fn agrees_all(
    s: Seq<char>,
    o: Seq<char>,
    r: Result<Box<Ast>, FurthestError>,
    g: Result<AstValue, Failure>,
) -> bool {
    match r {
        Ok(a) => g matches Ok(ga) && a@ == ga,
        Err(e) => g matches Err(f) && reports(e, s, o, f),
    }
}

/// Reads the whole stream as one filter expression; text left over after the expression
/// is an error where it starts.
fn parse_stream(stream: &Stream) -> (res: Result<Box<Ast>, FurthestError>)
    ensures
        agrees_all(stream@, stream.origin(), res, grammar::parse_all(stream@, stream.known())),
{
    proof {
        reveal(grammar::parse_all);
    }
    let (q, a) = expr(stream, 0)?;
    if q == stream.len() {
        Ok(a)
    } else {
        Err(FurthestError::from_input(stream, q))
    }
}

/// Parses `input` as one filter expression that takes up all of it, with any function
/// names allowed; text left over after the expression is an error where it starts.
pub fn parse(input: &str) -> (res: Result<Box<Ast>, FurthestError>)
    ensures
        agrees_all(input@, input@, res, grammar::parse_all(input@, None)),
        res matches Err(e) ==> e.remaining_len <= utf8_len(e.original@),
{
    let stream = Stream::new(input);
    let res = parse_stream(&stream);
    proof {
        if res is Err {
            let f = grammar::parse_all(input@, None)->Err_0;
            lemma_suffix_bytes(input@, 0, f.pos);
            assert(input@.subrange(0, input@.len() as int) =~= input@);
        }
    }
    res
}

/// Parses `input` as one filter expression that takes up all of it, in the context
/// `ctx`: every call must name a function of `ctx.known_functions` with arguments of its
/// declared kinds, and errors report `ctx.original_input` as the whole input.
pub fn parse_with_context(input: &str, ctx: &ParserContext) -> (res: Result<
    Box<Ast>,
    FurthestError,
>)
    ensures
        agrees_all(
            input@,
            ctx.original_input@,
            res,
            grammar::parse_all(input@, Some(ctx.known_functions@)),
        ),
{
    let stream = Stream::with_context(input, ctx);
    parse_stream(&stream)
}

} // verus!
