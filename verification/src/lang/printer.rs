//! The canonical text of an expression tree, and the law that parsing it gives the tree
//! back.
//!
//! The text uses as few parentheses as the grammar allows: `or` groups to the left and
//! binds loosest, `and` groups to the left and binds tighter, `not` applies to a
//! function call or to a parenthesized expression.
use vstd::prelude::*;

use super::ast::{kinds_of, AstValue, PrimitiveValue};
use super::grammar;
use super::nesting::law_parentheses_keep_parse;
use super::text::{decimal, digit_char};

verus! {

/// A name that the parser reads back as a function name: a letter or `_`, then name
/// characters, not beginning with `not` (which the parser takes for a negation).
pub open spec fn wf_name(name: Seq<char>) -> bool {
    &&& name.len() > 0
    &&& ('a' <= name[0] <= 'z' || 'A' <= name[0] <= 'Z' || name[0] == '_')
    &&& forall|i: int|
        0 <= i < name.len() ==> ('a' <= #[trigger] name[i] <= 'z' || 'A' <= name[i] <= 'Z'
            || '0' <= name[i] <= '9' || name[i] == '-' || name[i] == '_')
    &&& !(name.len() >= 3 && name.subrange(0, 3) == seq!['n', 'o', 't'])
}

/// A literal that can be written: an integer is not negative, and a string holds no
/// double quote.
pub open spec fn wf_literal(v: PrimitiveValue) -> bool {
    match v {
        PrimitiveValue::Int(i) => i >= 0,
        PrimitiveValue::Text(t) => !t.contains('"'),
        _ => true,
    }
}

/// Literals that can all be written.
pub open spec fn wf_args(args: Seq<PrimitiveValue>) -> bool {
    forall|i: int| 0 <= i < args.len() ==> wf_literal(#[trigger] args[i])
}

/// An expression tree whose names and literals can all be written.
pub open spec fn wf_ast(a: AstValue) -> bool
    decreases a,
{
    match a {
        AstValue::Func { name, args } => wf_name(name) && wf_args(args),
        AstValue::And { left, right } => wf_ast(*left) && wf_ast(*right),
        AstValue::Or { left, right } => wf_ast(*left) && wf_ast(*right),
        AstValue::Not { expr } => wf_ast(*expr),
    }
}

/// A call that `k` admits: any call where `k` is `None`, else one that names a function
/// of `k` with arguments of its declared kinds.
pub open spec fn call_ok(k: grammar::Known, name: Seq<char>, args: Seq<PrimitiveValue>) -> bool {
    match k {
        None => true,
        Some(m) => m.contains_key(name) && m[name] == kinds_of(args),
    }
}

/// Every call in `a` is one that `k` admits.
pub open spec fn valid_calls(k: grammar::Known, a: AstValue) -> bool
    decreases a,
{
    match a {
        AstValue::Func { name, args } => call_ok(k, name, args),
        AstValue::And { left, right } => valid_calls(k, *left) && valid_calls(k, *right),
        AstValue::Or { left, right } => valid_calls(k, *left) && valid_calls(k, *right),
        AstValue::Not { expr } => valid_calls(k, *expr),
    }
}

/// The text of a literal: `true`, `false`, decimal digits, or a quoted string.
pub open spec fn literal_text(v: PrimitiveValue) -> Seq<char> {
    match v {
        PrimitiveValue::Bool(b) => if b {
            grammar::word_true()
        } else {
            grammar::word_false()
        },
        PrimitiveValue::Int(i) => decimal(i as nat),
        PrimitiveValue::Text(t) => seq!['"'] + t + seq!['"'],
    }
}

/// The texts of literals, separated by `, `.
pub open spec fn args_text(args: Seq<PrimitiveValue>) -> Seq<char>
    decreases args.len(),
{
    if args.len() == 0 {
        Seq::empty()
    } else if args.len() == 1 {
        literal_text(args[0])
    } else {
        args_text(args.drop_last()) + seq![',', ' '] + literal_text(args.last())
    }
}

/// The text of a function call.
pub open spec fn call_text(name: Seq<char>, args: Seq<PrimitiveValue>) -> Seq<char> {
    name + seq!['('] + args_text(args) + seq![')']
}

/// The text of an expression, grouped as `or` groups.
pub open spec fn or_text(a: AstValue) -> Seq<char>
    decreases a, 2int,
{
    match a {
        AstValue::Or { left, right } => or_text(*left) + seq![' ', 'o', 'r', ' '] + and_text(
            *right,
        ),
        _ => and_text(a),
    }
}

/// The text of an expression, grouped as `and` groups.
pub open spec fn and_text(a: AstValue) -> Seq<char>
    decreases a, 1int,
{
    match a {
        AstValue::And { left, right } => and_text(*left) + seq![' ', 'a', 'n', 'd', ' ']
            + term_text(*right),
        _ => term_text(a),
    }
}

/// The text of an expression as a single term.
pub open spec fn term_text(a: AstValue) -> Seq<char>
    decreases a, 0int,
{
    match a {
        AstValue::Func { name, args } => call_text(name, args),
        AstValue::Not { expr } => grammar::word_not() + seq![' '] + atom_text(*expr),
        AstValue::Or { left, right } => seq!['('] + or_text(*left) + seq![' ', 'o', 'r', ' ']
            + and_text(*right) + seq![')'],
        AstValue::And { left, right } => seq!['('] + and_text(*left) + seq![
            ' ',
            'a',
            'n',
            'd',
            ' ',
        ] + term_text(*right) + seq![')'],
    }
}

/// The text of the operand of a `not`: a function call, or an expression in
/// parentheses.
pub open spec fn atom_text(a: AstValue) -> Seq<char>
    decreases a, 0int,
{
    match a {
        AstValue::Func { name, args } => call_text(name, args),
        AstValue::Not { expr } => seq!['('] + grammar::word_not() + seq![' '] + atom_text(*expr)
            + seq![')'],
        AstValue::Or { left, right } => seq!['('] + or_text(*left) + seq![' ', 'o', 'r', ' ']
            + and_text(*right) + seq![')'],
        AstValue::And { left, right } => seq!['('] + and_text(*left) + seq![
            ' ',
            'a',
            'n',
            'd',
            ' ',
        ] + term_text(*right) + seq![')'],
    }
}

/// The canonical text of an expression.
pub open spec fn to_text(a: AstValue) -> Seq<char> {
    or_text(a)
}


/// `s` holds `t` at position `p`.
pub open spec fn holds_at(s: Seq<char>, p: int, t: Seq<char>) -> bool {
    grammar::has_word(s, p, t)
}

proof fn lemma_holds_at_index(s: Seq<char>, p: int, t: Seq<char>, i: int)
    requires
        holds_at(s, p, t),
        0 <= i < t.len(),
    ensures
        s[p + i] == t[i],
{
    assert(s.subrange(p, p + t.len())[i] == s[p + i]);
}

proof fn lemma_holds_at_split(s: Seq<char>, p: int, t1: Seq<char>, t2: Seq<char>)
    requires
        holds_at(s, p, t1 + t2),
    ensures
        holds_at(s, p, t1),
        holds_at(s, p + t1.len(), t2),
{
    let whole = s.subrange(p, p + (t1 + t2).len());
    assert(whole == t1 + t2);
    assert(s.subrange(p, p + t1.len()) =~= whole.subrange(0, t1.len() as int));
    assert(whole.subrange(0, t1.len() as int) =~= t1);
    assert(s.subrange(p + t1.len(), p + t1.len() + t2.len()) =~= whole.subrange(
        t1.len() as int,
        (t1.len() + t2.len()) as int,
    ));
    assert(whole.subrange(t1.len() as int, (t1.len() + t2.len()) as int) =~= t2);
}

/// Where the character at `q` is no space, or the input ends, no space is skipped.
proof fn lemma_spaces_end_none(s: Seq<char>, q: int)
    requires
        0 <= q <= s.len(),
        q < s.len() ==> !grammar::is_space(s[q]),
    ensures
        grammar::spaces_end(s, q) == q,
{
}

/// One space followed by something else is skipped.
proof fn lemma_spaces_end_one(s: Seq<char>, q: int)
    requires
        0 <= q < s.len(),
        grammar::is_space(s[q]),
        q + 1 < s.len() ==> !grammar::is_space(s[q + 1]),
    ensures
        grammar::spaces_end(s, q) == q + 1,
{
    lemma_spaces_end_none(s, q + 1);
}

/// Skipping spaces twice skips no more than once.
proof fn lemma_spaces_end_idempotent(s: Seq<char>, q: int)
    requires
        0 <= q <= s.len(),
    ensures
        q <= grammar::spaces_end(s, q) <= s.len(),
        grammar::spaces_end(s, grammar::spaces_end(s, q)) == grammar::spaces_end(s, q),
    decreases s.len() - q,
{
    if q < s.len() && grammar::is_space(s[q]) {
        lemma_spaces_end_idempotent(s, q + 1);
    }
}

/// The name end of a run of name characters that stops at `q` is `q`.
proof fn lemma_name_end_run(s: Seq<char>, p: int, q: int)
    requires
        0 <= p <= q <= s.len(),
        forall|i: int| p <= i < q ==> grammar::is_name_char(#[trigger] s[i]),
        q < s.len() ==> !grammar::is_name_char(s[q]),
    ensures
        grammar::name_end(s, p) == q,
    decreases q - p,
{
    if p < q {
        lemma_name_end_run(s, p + 1, q);
    }
}

/// The digit end of a run of digits that stops at `q` is `q`.
proof fn lemma_digits_end_run(s: Seq<char>, p: int, q: int)
    requires
        0 <= p <= q <= s.len(),
        forall|i: int| p <= i < q ==> grammar::is_digit(#[trigger] s[i]),
        q < s.len() ==> !grammar::is_digit(s[q]),
    ensures
        grammar::digits_end(s, p) == q,
    decreases q - p,
{
    if p < q {
        lemma_digits_end_run(s, p + 1, q);
    }
}

/// A well-formed name is read back whole when a non-name character follows it.
proof fn lemma_func_name(s: Seq<char>, p: int, name: Seq<char>)
    requires
        wf_name(name),
        holds_at(s, p, name),
        p + name.len() < s.len(),
        !grammar::is_name_char(s[p + name.len()]),
    ensures
        grammar::func_name(s, p) == Ok::<(int, Seq<char>), grammar::Failure>(
            (p + name.len(), name),
        ),
{
    assert forall|i: int| p <= i < p + name.len() implies grammar::is_name_char(#[trigger] s[i]) by {
        lemma_holds_at_index(s, p, name, i - p);
    }
    lemma_holds_at_index(s, p, name, 0);
    lemma_name_end_run(s, p + 1, p + name.len());
    assert(s.subrange(p, p + name.len()) == name);
}

proof fn lemma_digit_char(d: int)
    requires
        0 <= d <= 9,
    ensures
        grammar::is_digit(digit_char(d)),
        grammar::digit_value(digit_char(d)) == d,
{
}

/// The decimal text of `n` is made of digits and writes `n`.
proof fn lemma_decimal(n: nat)
    ensures
        decimal(n).len() > 0,
        forall|i: int| 0 <= i < decimal(n).len() ==> grammar::is_digit(#[trigger] decimal(n)[i]),
        grammar::decimal_value(decimal(n)) == n,
    decreases n,
{
    if n < 10 {
        lemma_digit_char(n as int);
        assert(decimal(n).drop_last() =~= Seq::<char>::empty());
        assert(grammar::decimal_value(Seq::<char>::empty()) == 0);
    } else {
        lemma_decimal(n / 10);
        lemma_digit_char((n % 10) as int);
        assert(decimal(n).drop_last() =~= decimal(n / 10));
        assert forall|i: int| 0 <= i < decimal(n).len() implies grammar::is_digit(
            #[trigger] decimal(n)[i],
        ) by {
            if i < decimal(n / 10).len() {
                assert(decimal(n)[i] == decimal(n / 10)[i]);
            }
        }
    }
}

/// A character that may follow a literal in the text of a call.
pub open spec fn ends_literal(c: char) -> bool {
    c == ',' || c == ')'
}

/// The quote end of a run of non-quotes that stops at a quote at `q` is `q`.
proof fn lemma_quote_end_run(s: Seq<char>, p: int, q: int)
    requires
        0 <= p <= q < s.len(),
        forall|i: int| p <= i < q ==> #[trigger] s[i] != '"',
        s[q] == '"',
    ensures
        grammar::quote_end(s, p) == q,
    decreases q - p,
{
    if p < q {
        lemma_quote_end_run(s, p + 1, q);
    }
}

/// An integer literal is read back.
proof fn lemma_int_literal(s: Seq<char>, p: int, i: i32)
    requires
        i >= 0,
        0 <= p,
        holds_at(s, p, decimal(i as nat)),
        p + decimal(i as nat).len() < s.len(),
        !grammar::is_digit(s[p + decimal(i as nat).len()]),
    ensures
        grammar::int_literal(s, p) == Ok::<(int, PrimitiveValue), grammar::Failure>(
            (p + decimal(i as nat).len(), PrimitiveValue::Int(i)),
        ),
{
    let t = decimal(i as nat);
    let m = p + t.len();
    lemma_decimal(i as nat);
    assert forall|k: int| p <= k < m implies grammar::is_digit(#[trigger] s[k]) by {
        lemma_holds_at_index(s, p, t, k - p);
    }
    lemma_digits_end_run(s, p, m);
    assert(s.subrange(p, m) == t);
}

/// A literal is read back when a comma or a closing parenthesis follows it.
proof fn lemma_literal(s: Seq<char>, p: int, v: PrimitiveValue)
    requires
        wf_literal(v),
        0 <= p,
        holds_at(s, p, literal_text(v)),
        p + literal_text(v).len() < s.len(),
        ends_literal(s[p + literal_text(v).len()]) || (!(v is Bool) && grammar::is_space(
            s[p + literal_text(v).len()],
        )),
    ensures
        grammar::literal(s, p) == Ok::<(int, PrimitiveValue), grammar::Failure>(
            (p + literal_text(v).len(), v),
        ),
{
    let t = literal_text(v);
    let m = p + t.len();
    match v {
        PrimitiveValue::Int(i) => {
            lemma_int_literal(s, p, i);
        },
        PrimitiveValue::Bool(b) => {
            lemma_holds_at_index(s, p, t, 0);
            lemma_spaces_end_none(s, p);
            lemma_spaces_end_none(s, m);
            assert(grammar::int_literal(s, p) is Err);
            if b {
                assert(grammar::token(s, p, grammar::word_true()) == Ok::<int, grammar::Failure>(m));
            } else {
                assert(!grammar::has_word(s, p, grammar::word_true())) by {
                    assert(s.subrange(p, p + 4)[0] == s[p]);
                }
                assert(grammar::token(s, p, grammar::word_false()) == Ok::<int, grammar::Failure>(
                    m,
                ));
            }
        },
        PrimitiveValue::Text(txt) => {
            lemma_holds_at_index(s, p, t, 0);
            lemma_holds_at_index(s, p, t, t.len() - 1);
            lemma_spaces_end_none(s, p);
            assert(grammar::int_literal(s, p) is Err);
            assert(!grammar::has_word(s, p, grammar::word_true())) by {
                if p + 4 <= s.len() {
                    assert(s.subrange(p, p + 4)[0] == s[p]);
                }
            }
            assert(!grammar::has_word(s, p, grammar::word_false())) by {
                if p + 5 <= s.len() {
                    assert(s.subrange(p, p + 5)[0] == s[p]);
                }
            }
            assert(grammar::bool_literal(s, p) is Err);
            assert forall|k: int| p + 1 <= k < m - 1 implies #[trigger] s[k] != '"' by {
                lemma_holds_at_index(s, p, t, k - p);
                assert(t[k - p] == txt[k - p - 1]);
                assert(txt.contains(txt[k - p - 1]));
            }
            lemma_quote_end_run(s, p + 1, m - 1);
            assert(s.subrange(p + 1, m - 1) =~= txt) by {
                assert forall|k: int| 0 <= k < txt.len() implies s.subrange(p + 1, m - 1)[k]
                    == txt[k] by {
                    lemma_holds_at_index(s, p, t, k + 1);
                }
            }
            assert(grammar::quoted(s, p) == Ok::<(int, PrimitiveValue), grammar::Failure>(
                (m, PrimitiveValue::Text(txt)),
            ));
        },
    }
}


/// The text of a literal starts with `-`, a digit, `t`, `f` or a double quote.
proof fn lemma_literal_text_start(v: PrimitiveValue)
    ensures
        literal_text(v).len() > 0,
        !grammar::is_space(literal_text(v)[0]),
        !ends_literal(literal_text(v)[0]),
{
    match v {
        PrimitiveValue::Int(i) => {
            lemma_decimal(i as nat);
            assert(grammar::is_digit(decimal(i as nat)[0]));
        },
        _ => {},
    }
}

/// The literals of `args`, written one after another, are read back up to the last one:
/// the first is read, and what follows it continues as after all of them.
proof fn lemma_literals_chain(s: Seq<char>, p: int, args: Seq<PrimitiveValue>)
    requires
        args.len() >= 1,
        forall|i: int| 0 <= i < args.len() ==> wf_literal(#[trigger] args[i]),
        0 <= p,
        holds_at(s, p, args_text(args)),
        p + args_text(args).len() < s.len(),
        ends_literal(s[p + args_text(args).len()]),
    ensures
        grammar::literal(s, p) == Ok::<(int, PrimitiveValue), grammar::Failure>(
            (p + literal_text(args[0]).len(), args[0]),
        ),
        grammar::literals_rest(s, p + literal_text(args[0]).len(), seq![args[0]])
            == grammar::literals_rest(s, p + args_text(args).len(), args),
    decreases args.len(),
{
    if args.len() == 1 {
        lemma_literal(s, p, args[0]);
        assert(seq![args[0]] =~= args);
    } else {
        let init = args.drop_last();
        let v = args.last();
        let m = p + args_text(args).len();
        let m1 = p + args_text(init).len();
        lemma_holds_at_split(s, p, args_text(init) + seq![',', ' '], literal_text(v));
        lemma_holds_at_split(s, p, args_text(init), seq![',', ' ']);
        lemma_holds_at_index(s, m1, seq![',', ' '], 0);
        lemma_holds_at_index(s, m1, seq![',', ' '], 1);
        assert(forall|i: int| 0 <= i < init.len() ==> wf_literal(#[trigger] init[i])) by {
            assert forall|i: int| 0 <= i < init.len() implies wf_literal(#[trigger] init[i]) by {
                assert(init[i] == args[i]);
            }
        }
        lemma_literals_chain(s, p, init);
        assert(init[0] == args[0]);
        lemma_literal_text_start(v);
        lemma_holds_at_index(s, m1 + 2, literal_text(v), 0);
        lemma_spaces_end_none(s, m1);
        lemma_spaces_end_one(s, m1 + 1);
        assert(grammar::has_word(s, m1, seq![','])) by {
            assert(s.subrange(m1, m1 + 1) =~= seq![',']);
        }
        assert(grammar::token(s, m1, seq![',']) == Ok::<int, grammar::Failure>(m1 + 2));
        assert(wf_literal(args[args.len() - 1]));
        lemma_literal(s, m1 + 2, v);
        assert(init.push(v) =~= args);
    }
}

/// The text of arguments is read back when a closing parenthesis follows it.
proof fn lemma_literals(s: Seq<char>, p: int, args: Seq<PrimitiveValue>)
    requires
        forall|i: int| 0 <= i < args.len() ==> wf_literal(#[trigger] args[i]),
        0 <= p,
        holds_at(s, p, args_text(args)),
        p + args_text(args).len() < s.len(),
        s[p + args_text(args).len()] == ')',
    ensures
        grammar::literals(s, p) == (p + args_text(args).len(), args),
{
    let m = p + args_text(args).len();
    lemma_spaces_end_none(s, m);
    if args.len() == 0 {
        lemma_spaces_end_none(s, p);
        assert(grammar::int_literal(s, p) is Err);
        assert(!grammar::has_word(s, p, grammar::word_true())) by {
            if p + 4 <= s.len() {
                assert(s.subrange(p, p + 4)[0] == s[p]);
            }
        }
        assert(!grammar::has_word(s, p, grammar::word_false())) by {
            if p + 5 <= s.len() {
                assert(s.subrange(p, p + 5)[0] == s[p]);
            }
        }
        assert(grammar::literal(s, p) is Err);
        assert(args =~= Seq::<PrimitiveValue>::empty());
    } else {
        lemma_literals_chain(s, p, args);
        assert(!grammar::has_word(s, m, seq![','])) by {
            assert(s.subrange(m, m + 1)[0] == s[m]);
        }
    }
}


/// The text of arguments starts as the text of the first one.
proof fn lemma_args_text_start(args: Seq<PrimitiveValue>)
    requires
        args.len() >= 1,
    ensures
        args_text(args).len() > 0,
        args_text(args)[0] == literal_text(args[0])[0],
    decreases args.len(),
{
    lemma_literal_text_start(args[0]);
    if args.len() > 1 {
        lemma_args_text_start(args.drop_last());
        assert(args.drop_last()[0] == args[0]);
    }
}

/// The text of a call of a well-formed function is read back.
proof fn lemma_func_call(s: Seq<char>, k: grammar::Known, p: int, name: Seq<char>, args: Seq<PrimitiveValue>)
    requires
        wf_ast(AstValue::Func { name, args }),
        call_ok(k, name, args),
        0 <= p,
        holds_at(s, p, call_text(name, args)),
    ensures
        grammar::func_call(s, k, p) == Ok::<(int, AstValue), grammar::Failure>(
            (
                grammar::spaces_end(s, p + call_text(name, args).len()),
                AstValue::Func { name, args },
            ),
        ),
{
    let q = p + name.len();
    let r = q + 1;
    let t = r + args_text(args).len();
    let m = t + 1;
    lemma_holds_at_split(s, p, name + seq!['('] + args_text(args), seq![')']);
    lemma_holds_at_split(s, p, name + seq!['('], args_text(args));
    lemma_holds_at_split(s, p, name, seq!['(']);
    lemma_holds_at_index(s, q, seq!['('], 0);
    lemma_holds_at_index(s, t, seq![')'], 0);
    lemma_func_name(s, p, name);
    lemma_spaces_end_none(s, q);
    assert(grammar::has_word(s, q, seq!['('])) by {
        assert(s.subrange(q, q + 1) =~= seq!['(']);
    }
    if args.len() > 0 {
        lemma_args_text_start(args);
        lemma_literal_text_start(args[0]);
        lemma_holds_at_index(s, r, args_text(args), 0);
    } else {
        assert(args_text(args).len() == 0);
    }
    lemma_spaces_end_none(s, r);
    assert(grammar::token(s, q, seq!['(']) == Ok::<int, grammar::Failure>(r));
    lemma_literals(s, r, args);
    lemma_spaces_end_none(s, t);
    assert(grammar::has_word(s, t, seq![')'])) by {
        assert(s.subrange(t, t + 1) =~= seq![')']);
    }
    assert(grammar::token(s, t, seq![')']) == Ok::<int, grammar::Failure>(
        grammar::spaces_end(s, m),
    ));
}


/// `g` is made of spaces and tabs only.
pub open spec fn blank(g: Seq<char>) -> bool {
    forall|i: int| 0 <= i < g.len() ==> #[trigger] g[i] == ' ' || g[i] == '\t'
}

/// The text of a call with the blanks `g1` between its name and `(`, `g2` after `(`, and
/// `g3` after `)`.
pub open spec fn spaced_call_text(
    name: Seq<char>,
    g1: Seq<char>,
    g2: Seq<char>,
    args: Seq<PrimitiveValue>,
    g3: Seq<char>,
) -> Seq<char> {
    name + g1 + seq!['('] + g2 + args_text(args) + seq![')'] + g3
}

/// A run of blanks that something other than a blank follows is skipped whole.
proof fn lemma_blank_run(s: Seq<char>, p: int, g: Seq<char>)
    requires
        0 <= p,
        holds_at(s, p, g),
        blank(g),
        p + g.len() < s.len() ==> !grammar::is_space(s[p + g.len()]),
    ensures
        grammar::spaces_end(s, p) == p + g.len(),
    decreases g.len(),
{
    if g.len() == 0 {
        lemma_spaces_end_none(s, p);
    } else {
        assert(seq![g[0]] + g.drop_first() =~= g);
        lemma_holds_at_split(s, p, seq![g[0]], g.drop_first());
        lemma_holds_at_index(s, p, g, 0);
        lemma_blank_run(s, p + 1, g.drop_first());
    }
}

/// The pieces of the text of a spaced call are read one after another: the name, the
/// `(` with the blanks around it, the arguments and the `)` with the blanks after it.
proof fn lemma_spaced_call_pieces(
    name: Seq<char>,
    g1: Seq<char>,
    g2: Seq<char>,
    args: Seq<PrimitiveValue>,
    g3: Seq<char>,
)
    requires
        wf_ast(AstValue::Func { name, args }),
        blank(g1),
        blank(g2),
        blank(g3),
    ensures
        ({
            let s = spaced_call_text(name, g1, g2, args, g3);
            let q = name.len() as int;
            let r = q + g1.len() + 1 + g2.len();
            let t = r + args_text(args).len();
            &&& grammar::func_name(s, 0) == Ok::<(int, Seq<char>), grammar::Failure>((q, name))
            &&& grammar::spaces_end(s, q) == q + g1.len()
            &&& grammar::token(s, q, seq!['(']) == Ok::<int, grammar::Failure>(r)
            &&& grammar::literals(s, r) == (t, args)
            &&& grammar::token(s, t, seq![')']) == Ok::<int, grammar::Failure>(s.len() as int)
        }),
{
    let at = args_text(args);
    let s = spaced_call_text(name, g1, g2, args, g3);
    let q = name.len() as int;
    let q1 = q + g1.len();
    let r = q1 + 1 + g2.len();
    let t = r + at.len();
    let m = t + 1;
    assert(s.subrange(0, s.len() as int) =~= s);
    assert(holds_at(s, 0, s));
    lemma_holds_at_split(s, 0, name + g1 + seq!['('] + g2 + at + seq![')'], g3);
    lemma_holds_at_split(s, 0, name + g1 + seq!['('] + g2 + at, seq![')']);
    lemma_holds_at_split(s, 0, name + g1 + seq!['('] + g2, at);
    lemma_holds_at_split(s, 0, name + g1 + seq!['('], g2);
    lemma_holds_at_split(s, 0, name + g1, seq!['(']);
    lemma_holds_at_split(s, 0, name, g1);
    lemma_holds_at_index(s, q1, seq!['('], 0);
    lemma_holds_at_index(s, t, seq![')'], 0);
    if g1.len() > 0 {
        lemma_holds_at_index(s, q, g1, 0);
    }
    lemma_func_name(s, 0, name);
    lemma_blank_run(s, q, g1);
    assert(grammar::has_word(s, q1, seq!['('])) by {
        assert(s.subrange(q1, q1 + 1) =~= seq!['(']);
    }
    if args.len() > 0 {
        lemma_args_text_start(args);
        lemma_literal_text_start(args[0]);
        lemma_holds_at_index(s, r, at, 0);
    }
    lemma_blank_run(s, q1 + 1, g2);
    lemma_literals(s, r, args);
    lemma_spaces_end_none(s, t);
    assert(grammar::has_word(s, t, seq![')'])) by {
        assert(s.subrange(t, t + 1) =~= seq![')']);
    }
    lemma_blank_run(s, m, g3);
}

/// Spaces and tabs between the name of a function and its `(`, after the `(`, and after
/// the `)` change nothing: the call is read whole, as the same function with the same
/// arguments as without them.
#[verifier::spinoff_prover]
pub proof fn law_call_spacing(
    name: Seq<char>,
    g1: Seq<char>,
    g2: Seq<char>,
    args: Seq<PrimitiveValue>,
    g3: Seq<char>,
    k: grammar::Known,
)
    requires
        wf_ast(AstValue::Func { name, args }),
        call_ok(k, name, args),
        blank(g1),
        blank(g2),
        blank(g3),
    ensures
        grammar::func_call(spaced_call_text(name, g1, g2, args, g3), k, 0) == Ok::<
            (int, AstValue),
            grammar::Failure,
        >(
            (
                spaced_call_text(name, g1, g2, args, g3).len() as int,
                AstValue::Func { name, args },
            ),
        ),
{
    lemma_spaced_call_pieces(name, g1, g2, args, g3);
}

/// Where the reading of the literal `v` with the blanks `pad` after it ends, from its
/// start: a word (`true`, `false`) takes the blanks after it along, a number or a quoted
/// string does not.
pub open spec fn literal_end(v: PrimitiveValue, pad: Seq<char>) -> int {
    literal_text(v).len() + if v is Bool {
        pad.len() as int
    } else {
        0int
    }
}

/// A literal with blanks after it, which a comma or a `)` follows, is read back.
proof fn lemma_padded_literal(s: Seq<char>, p: int, v: PrimitiveValue, pad: Seq<char>)
    requires
        wf_literal(v),
        0 <= p,
        blank(pad),
        holds_at(s, p, literal_text(v) + pad),
        p + literal_text(v).len() + pad.len() < s.len(),
        ends_literal(s[p + literal_text(v).len() + pad.len()]),
    ensures
        grammar::literal(s, p) == Ok::<(int, PrimitiveValue), grammar::Failure>(
            (p + literal_end(v, pad), v),
        ),
        grammar::spaces_end(s, p + literal_end(v, pad)) == p + literal_text(v).len() + pad.len(),
{
    let t = literal_text(v);
    let m = p + t.len();
    let c = m + pad.len();
    lemma_holds_at_split(s, p, t, pad);
    lemma_blank_run(s, m, pad);
    lemma_spaces_end_none(s, c);
    if pad.len() == 0 {
        lemma_literal(s, p, v);
    } else {
        lemma_holds_at_index(s, m, pad, 0);
        match v {
            PrimitiveValue::Bool(b) => {
                lemma_holds_at_index(s, p, t, 0);
                lemma_spaces_end_none(s, p);
                assert(grammar::int_literal(s, p) is Err);
                if b {
                    assert(grammar::token(s, p, grammar::word_true()) == Ok::<int, grammar::Failure>(
                        c,
                    ));
                } else {
                    assert(!grammar::has_word(s, p, grammar::word_true())) by {
                        assert(s.subrange(p, p + 4)[0] == s[p]);
                    }
                    assert(grammar::token(s, p, grammar::word_false()) == Ok::<
                        int,
                        grammar::Failure,
                    >(c));
                }
            },
            _ => {
                lemma_literal(s, p, v);
            },
        }
    }
}

/// Literal arguments, each with blanks `lead[i]` before it (after the comma) and `pad[i]`
/// after it, separated by commas.
pub open spec fn padded_args_text(
    args: Seq<PrimitiveValue>,
    lead: Seq<Seq<char>>,
    pad: Seq<Seq<char>>,
) -> Seq<char>
    decreases args.len(),
{
    if args.len() == 0 {
        Seq::empty()
    } else if args.len() == 1 {
        literal_text(args[0]) + pad[0]
    } else {
        padded_args_text(args.drop_last(), lead, pad) + seq![','] + lead[args.len() - 1]
            + literal_text(args.last()) + pad[args.len() - 1]
    }
}

/// Blanks around the arguments: `lead` and `pad` have one run of blanks per argument.
pub open spec fn padding_fits(
    args: Seq<PrimitiveValue>,
    lead: Seq<Seq<char>>,
    pad: Seq<Seq<char>>,
) -> bool {
    &&& lead.len() >= args.len()
    &&& pad.len() >= args.len()
    &&& forall|i: int|
        0 <= i < args.len() ==> wf_literal(#[trigger] args[i]) && blank(lead[i]) && blank(pad[i])
}

/// Where the reading of the last of padded arguments that start at `p` ends.
pub open spec fn padded_end(
    p: int,
    args: Seq<PrimitiveValue>,
    lead: Seq<Seq<char>>,
    pad: Seq<Seq<char>>,
) -> int {
    p + padded_args_text(args, lead, pad).len() - pad[args.len() - 1].len() - literal_text(
        args.last(),
    ).len() + literal_end(args.last(), pad[args.len() - 1])
}

/// Padded arguments are read one after another: the first is read, and what follows it
/// goes on as after all of them, which end where the blanks after the last one end.
proof fn lemma_padded_chain(
    s: Seq<char>,
    p: int,
    args: Seq<PrimitiveValue>,
    lead: Seq<Seq<char>>,
    pad: Seq<Seq<char>>,
)
    requires
        args.len() >= 1,
        padding_fits(args, lead, pad),
        0 <= p,
        holds_at(s, p, padded_args_text(args, lead, pad)),
        p + padded_args_text(args, lead, pad).len() < s.len(),
        ends_literal(s[p + padded_args_text(args, lead, pad).len()]),
    ensures
        grammar::literal(s, p) == Ok::<(int, PrimitiveValue), grammar::Failure>(
            (p + literal_end(args[0], pad[0]), args[0]),
        ),
        grammar::literals_rest(s, p + literal_end(args[0], pad[0]), seq![args[0]])
            == grammar::literals_rest(s, padded_end(p, args, lead, pad), args),
        grammar::spaces_end(s, padded_end(p, args, lead, pad)) == p + padded_args_text(
            args,
            lead,
            pad,
        ).len(),
    decreases args.len(),
{
    if args.len() == 1 {
        assert(wf_literal(args[0]) && blank(pad[0]));
        lemma_padded_literal(s, p, args[0], pad[0]);
        assert(seq![args[0]] =~= args);
    } else {
        let n = args.len() - 1;
        let init = args.drop_last();
        let v = args.last();
        let ti = padded_args_text(init, lead, pad);
        let ci = p + ti.len();
        let lt = literal_text(v);
        assert(padding_fits(init, lead, pad)) by {
            assert forall|i: int| 0 <= i < init.len() implies wf_literal(#[trigger] init[i])
                && blank(lead[i]) && blank(pad[i]) by {
                assert(init[i] == args[i]);
            }
        }
        assert(wf_literal(args[n]) && blank(lead[n]) && blank(pad[n]));
        lemma_holds_at_split(s, p, ti + seq![','] + lead[n] + lt, pad[n]);
        lemma_holds_at_split(s, p, ti + seq![','] + lead[n], lt);
        lemma_holds_at_split(s, p, ti + seq![','], lead[n]);
        lemma_holds_at_split(s, p, ti, seq![',']);
        lemma_holds_at_index(s, ci, seq![','], 0);
        assert(holds_at(s, ci + 1 + lead[n].len(), lt + pad[n])) by {
            let a = ci + 1 + lead[n].len();
            assert(padded_args_text(args, lead, pad) == ti + seq![','] + lead[n] + lt + pad[n]);
            assert(ti + seq![','] + lead[n] + lt + pad[n] =~= (ti + seq![','] + lead[n]) + (lt
                + pad[n]));
            lemma_holds_at_split(s, p, ti + seq![','] + lead[n], lt + pad[n]);
        }
        lemma_padded_chain(s, p, init, lead, pad);
        assert(init[0] == args[0]);
        lemma_literal_text_start(v);
        lemma_holds_at_index(s, ci + 1 + lead[n].len(), lt, 0);
        lemma_spaces_end_none(s, ci);
        lemma_blank_run(s, ci + 1, lead[n]);
        assert(grammar::has_word(s, ci, seq![','])) by {
            assert(s.subrange(ci, ci + 1) =~= seq![',']);
        }
        assert(grammar::token(s, padded_end(p, init, lead, pad), seq![','])
            == Ok::<int, grammar::Failure>(ci + 1 + lead[n].len()));
        lemma_padded_literal(s, ci + 1 + lead[n].len(), v, pad[n]);
        assert(init.push(v) =~= args);
    }
}

/// The name of a function, the blanks `g1`, `(`, the blanks `g2`, the padded arguments,
/// `)` and the blanks `g3`.
pub open spec fn padded_call_text(
    name: Seq<char>,
    g1: Seq<char>,
    g2: Seq<char>,
    args: Seq<PrimitiveValue>,
    lead: Seq<Seq<char>>,
    pad: Seq<Seq<char>>,
    g3: Seq<char>,
) -> Seq<char> {
    name + g1 + seq!['('] + g2 + padded_args_text(args, lead, pad) + seq![')'] + g3
}

/// The arguments of a padded call are read back, up to where the `)` is read.
proof fn lemma_padded_arguments(
    s: Seq<char>,
    r: int,
    args: Seq<PrimitiveValue>,
    lead: Seq<Seq<char>>,
    pad: Seq<Seq<char>>,
)
    requires
        padding_fits(args, lead, pad),
        0 <= r,
        holds_at(s, r, padded_args_text(args, lead, pad)),
        r + padded_args_text(args, lead, pad).len() < s.len(),
        s[r + padded_args_text(args, lead, pad).len()] == ')',
    ensures
        grammar::literals(s, r).1 == args,
        grammar::spaces_end(s, grammar::literals(s, r).0) == r + padded_args_text(
            args,
            lead,
            pad,
        ).len(),
{
    let c = r + padded_args_text(args, lead, pad).len();
    if args.len() == 0 {
        assert(args_text(args) == padded_args_text(args, lead, pad));
        lemma_literals(s, r, args);
        lemma_spaces_end_none(s, c);
    } else {
        lemma_padded_chain(s, r, args, lead, pad);
        let e = padded_end(r, args, lead, pad);
        assert(!grammar::has_word(s, c, seq![','])) by {
            assert(s.subrange(c, c + 1)[0] == s[c]);
        }
        assert(grammar::literals_rest(s, e, args) == (e, args));
    }
}

/// Where the pieces of a padded call stand in its text.
proof fn lemma_padded_call_layout(
    name: Seq<char>,
    g1: Seq<char>,
    g2: Seq<char>,
    args: Seq<PrimitiveValue>,
    lead: Seq<Seq<char>>,
    pad: Seq<Seq<char>>,
    g3: Seq<char>,
)
    ensures
        ({
            let s = padded_call_text(name, g1, g2, args, lead, pad, g3);
            let at = padded_args_text(args, lead, pad);
            let q = name.len() as int;
            let q1 = q + g1.len();
            let r = q1 + 1 + g2.len();
            let c = r + at.len();
            &&& s.len() == c + 1 + g3.len()
            &&& holds_at(s, 0, name)
            &&& holds_at(s, q, g1)
            &&& s[q1] == '('
            &&& holds_at(s, q1, seq!['('])
            &&& holds_at(s, q1 + 1, g2)
            &&& holds_at(s, r, at)
            &&& s[c] == ')'
            &&& holds_at(s, c, seq![')'])
            &&& holds_at(s, c + 1, g3)
        }),
{
    let at = padded_args_text(args, lead, pad);
    let s = padded_call_text(name, g1, g2, args, lead, pad, g3);
    let q = name.len() as int;
    let q1 = q + g1.len();
    let c = q1 + 1 + g2.len() + at.len();
    assert(s.subrange(0, s.len() as int) =~= s);
    assert(holds_at(s, 0, s));
    lemma_holds_at_split(s, 0, name + g1 + seq!['('] + g2 + at + seq![')'], g3);
    lemma_holds_at_split(s, 0, name + g1 + seq!['('] + g2 + at, seq![')']);
    lemma_holds_at_split(s, 0, name + g1 + seq!['('] + g2, at);
    lemma_holds_at_split(s, 0, name + g1 + seq!['('], g2);
    lemma_holds_at_split(s, 0, name + g1, seq!['(']);
    lemma_holds_at_split(s, 0, name, g1);
    lemma_holds_at_index(s, q1, seq!['('], 0);
    lemma_holds_at_index(s, c, seq![')'], 0);
}

/// The pieces of a padded call are read one after another.
#[verifier::spinoff_prover]
proof fn lemma_padded_call_pieces(
    name: Seq<char>,
    g1: Seq<char>,
    g2: Seq<char>,
    args: Seq<PrimitiveValue>,
    lead: Seq<Seq<char>>,
    pad: Seq<Seq<char>>,
    g3: Seq<char>,
)
    requires
        wf_name(name),
        blank(g1),
        blank(g2),
        blank(g3),
        padding_fits(args, lead, pad),
    ensures
        ({
            let s = padded_call_text(name, g1, g2, args, lead, pad, g3);
            let q = name.len() as int;
            let r = q + g1.len() + 1 + g2.len();
            &&& grammar::func_name(s, 0) == Ok::<(int, Seq<char>), grammar::Failure>((q, name))
            &&& grammar::spaces_end(s, q) == q + g1.len()
            &&& grammar::token(s, q, seq!['(']) == Ok::<int, grammar::Failure>(r)
            &&& grammar::literals(s, r).1 == args
            &&& grammar::token(s, grammar::literals(s, r).0, seq![')']) == Ok::<
                int,
                grammar::Failure,
            >(s.len() as int)
        }),
{
    let at = padded_args_text(args, lead, pad);
    let s = padded_call_text(name, g1, g2, args, lead, pad, g3);
    let q = name.len() as int;
    let q1 = q + g1.len();
    let r = q1 + 1 + g2.len();
    let c = r + at.len();
    lemma_padded_call_layout(name, g1, g2, args, lead, pad, g3);
    if g1.len() > 0 {
        lemma_holds_at_index(s, q, g1, 0);
    }
    lemma_func_name(s, 0, name);
    lemma_blank_run(s, q, g1);
    assert(grammar::has_word(s, q1, seq!['(']));
    if args.len() > 0 {
        assert(wf_literal(args[0]));
        lemma_literal_text_start(args[0]);
        lemma_padded_first(args, lead, pad);
        lemma_holds_at_index(s, r, at, 0);
    }
    lemma_blank_run(s, q1 + 1, g2);
    assert(grammar::token(s, q, seq!['(']) == Ok::<int, grammar::Failure>(r));
    lemma_padded_arguments(s, r, args, lead, pad);
    let t = grammar::literals(s, r).0;
    assert(grammar::has_word(s, c, seq![')']));
    lemma_blank_run(s, c + 1, g3);
    assert(grammar::token(s, t, seq![')']) == Ok::<int, grammar::Failure>(s.len() as int));
}

/// Blanks anywhere between the tokens of a call change nothing: between the name and `(`,
/// after `(`, around each comma, before `)` and after it. The call is read whole, as the
/// same function with the same arguments.
#[verifier::spinoff_prover]
pub proof fn law_call_argument_spacing(
    name: Seq<char>,
    g1: Seq<char>,
    g2: Seq<char>,
    args: Seq<PrimitiveValue>,
    lead: Seq<Seq<char>>,
    pad: Seq<Seq<char>>,
    g3: Seq<char>,
    k: grammar::Known,
)
    requires
        wf_name(name),
        call_ok(k, name, args),
        blank(g1),
        blank(g2),
        blank(g3),
        padding_fits(args, lead, pad),
    ensures
        grammar::func_call(padded_call_text(name, g1, g2, args, lead, pad, g3), k, 0) == Ok::<
            (int, AstValue),
            grammar::Failure,
        >(
            (
                padded_call_text(name, g1, g2, args, lead, pad, g3).len() as int,
                AstValue::Func { name, args },
            ),
        ),
{
    lemma_padded_call_pieces(name, g1, g2, args, lead, pad, g3);
}

/// Padded arguments start as the text of the first one.
proof fn lemma_padded_first(args: Seq<PrimitiveValue>, lead: Seq<Seq<char>>, pad: Seq<Seq<char>>)
    requires
        args.len() >= 1,
    ensures
        padded_args_text(args, lead, pad).len() > 0,
        padded_args_text(args, lead, pad)[0] == literal_text(args[0])[0],
    decreases args.len(),
{
    lemma_literal_text_start(args[0]);
    if args.len() > 1 {
        lemma_padded_first(args.drop_last(), lead, pad);
        assert(args.drop_last()[0] == args[0]);
    }
}

/// A character that may start the text of a term: a name character or `(`.
pub open spec fn starts_term(c: char) -> bool {
    grammar::is_name_char(c) || c == '('
}

/// Every text of a well-formed expression starts like a term and ends with `)`.
proof fn lemma_text_shape(a: AstValue)
    requires
        wf_ast(a),
    ensures
        or_text(a).len() > 0 && starts_term(or_text(a)[0]) && or_text(a).last() == ')',
        and_text(a).len() > 0 && starts_term(and_text(a)[0]) && and_text(a).last() == ')',
        term_text(a).len() > 0 && starts_term(term_text(a)[0]) && term_text(a).last() == ')',
        atom_text(a).len() > 0 && starts_term(atom_text(a)[0]) && atom_text(a).last() == ')',
    decreases a,
{
    match a {
        AstValue::Func { name, args } => {
            assert(grammar::is_name_char(name[0]));
            assert(and_text(a) == term_text(a));
            assert(or_text(a) == and_text(a));
            assert(call_text(name, args)[0] == name[0]);
        },
        AstValue::Not { expr } => {
            lemma_text_shape(*expr);
            assert(and_text(a) == term_text(a));
            assert(or_text(a) == and_text(a));
        },
        AstValue::And { left, right } => {
            lemma_text_shape(*left);
            lemma_text_shape(*right);
            assert(or_text(a) == and_text(a));
        },
        AstValue::Or { left, right } => {
            lemma_text_shape(*left);
            lemma_text_shape(*right);
            assert(and_text(a) == term_text(a));
        },
    }
}

/// The operand of a `not` that is no function call is written in parentheses, and so is
/// a term that is an `and` or an `or`.
proof fn lemma_parenthesized(a: AstValue)
    ensures
        !(a is Func) ==> atom_text(a) == seq!['('] + or_text(a) + seq![')'],
        (a is And || a is Or) ==> term_text(a) == seq!['('] + or_text(a) + seq![')'],
{
    match a {
        AstValue::Func { .. } => {},
        AstValue::Not { expr } => {
            assert(and_text(a) == term_text(a));
            assert(or_text(a) == and_text(a));
            assert(atom_text(a) =~= seq!['('] + or_text(a) + seq![')']);
        },
        AstValue::And { left, right } => {
            assert(or_text(a) == and_text(a));
            assert(atom_text(a) =~= seq!['('] + or_text(a) + seq![')']);
            assert(term_text(a) =~= seq!['('] + or_text(a) + seq![')']);
        },
        AstValue::Or { left, right } => {
            assert(atom_text(a) =~= seq!['('] + or_text(a) + seq![')']);
            assert(term_text(a) =~= seq!['('] + or_text(a) + seq![')']);
        },
    }
}

/// The text of a call of a well-formed function does not start with the word `not`.
proof fn lemma_call_not_negated(s: Seq<char>, p: int, name: Seq<char>, args: Seq<PrimitiveValue>)
    requires
        wf_name(name),
        0 <= p,
        holds_at(s, p, call_text(name, args)),
    ensures
        !grammar::has_word(s, p, grammar::word_not()),
{
    let t = call_text(name, args);
    if grammar::has_word(s, p, grammar::word_not()) {
        lemma_holds_at_index(s, p, t, 0);
        lemma_holds_at_index(s, p, t, 1);
        lemma_holds_at_index(s, p, t, 2);
        assert(s.subrange(p, p + 3)[0] == s[p]);
        assert(s.subrange(p, p + 3)[1] == s[p + 1]);
        assert(s.subrange(p, p + 3)[2] == s[p + 2]);
        if name.len() >= 3 {
            assert(name.subrange(0, 3) =~= grammar::word_not());
        } else {
            assert(t[name.len() as int] == '(');
        }
    }
}

/// Neither `and` nor `or` stands at `q` once the spaces there are skipped.
pub open spec fn stops(s: Seq<char>, q: int) -> bool {
    !grammar::has_word(s, q, grammar::word_and()) && !grammar::has_word(s, q, grammar::word_or())
}

/// A closing parenthesis, or the end of the input, stops an expression.
proof fn lemma_stops_at_close(s: Seq<char>, q: int)
    requires
        0 <= q <= s.len(),
        q < s.len() ==> s[q] == ')',
    ensures
        stops(s, q),
        grammar::spaces_end(s, q) == q,
{
    lemma_spaces_end_none(s, q);
    if grammar::has_word(s, q, grammar::word_and()) {
        assert(s.subrange(q, q + 3)[0] == s[q]);
    }
    if grammar::has_word(s, q, grammar::word_or()) {
        assert(s.subrange(q, q + 2)[0] == s[q]);
    }
}

/// The text of a term is read back as a term.
#[verifier::spinoff_prover]
proof fn lemma_term(s: Seq<char>, k: grammar::Known, p: int, a: AstValue)
    requires
        wf_ast(a),
        valid_calls(k, a),
        0 <= p,
        holds_at(s, p, term_text(a)),
    ensures
        grammar::term(s, k, p) == Ok::<(int, AstValue), grammar::Failure>(
            (grammar::spaces_end(s, p + term_text(a).len()), a),
        ),
    decreases a, if a is And || a is Or {
        10int
    } else {
        0int
    },
{
    match a {
        AstValue::Func { name, args } => {
            lemma_term_call(s, k, p, name, args);
        },
        AstValue::Not { expr } => {
            lemma_term_not(s, k, p, *expr);
        },
        _ => {
            lemma_text_shape(a);
            lemma_holds_at_index(s, p, term_text(a), 0);
            lemma_spaces_end_none(s, p);
            lemma_parenthesized(a);
            assert(!grammar::has_word(s, p, grammar::word_not())) by {
                assert(s.subrange(p, p + 3)[0] == s[p]);
            }
            lemma_parens(s, k, p, a);
        },
    }
}

/// The text of a function call is read back as a term.
proof fn lemma_term_call(s: Seq<char>, k: grammar::Known, p: int, name: Seq<char>, args: Seq<PrimitiveValue>)
    requires
        wf_ast(AstValue::Func { name, args }),
        call_ok(k, name, args),
        0 <= p,
        holds_at(s, p, call_text(name, args)),
    ensures
        grammar::term(s, k, p) == Ok::<(int, AstValue), grammar::Failure>(
            (grammar::spaces_end(s, p + call_text(name, args).len()), AstValue::Func { name, args }),
        ),
{
    let t = call_text(name, args);
    assert(t[0] == name[0]);
    lemma_holds_at_index(s, p, t, 0);
    lemma_spaces_end_none(s, p);
    lemma_call_not_negated(s, p, name, args);
    lemma_func_call(s, k, p, name, args);
    assert(!grammar::has_word(s, p, seq!['('])) by {
        assert(s.subrange(p, p + 1)[0] == s[p]);
    }
    assert(grammar::parens_expr(s, k, p) is Err);
}

/// The text of a negation is read back as a term.
#[verifier::spinoff_prover]
proof fn lemma_term_not(s: Seq<char>, k: grammar::Known, p: int, e: AstValue)
    requires
        wf_ast(e),
        valid_calls(k, e),
        0 <= p,
        holds_at(s, p, grammar::word_not() + seq![' '] + atom_text(e)),
    ensures
        grammar::term(s, k, p) == Ok::<(int, AstValue), grammar::Failure>(
            (
                grammar::spaces_end(s, p + 4 + atom_text(e).len()),
                AstValue::Not { expr: Box::new(e) },
            ),
        ),
    decreases e, 10int,
{
    let start = p + 4;
    lemma_text_shape(e);
    lemma_holds_at_split(s, p, grammar::word_not() + seq![' '], atom_text(e));
    lemma_holds_at_split(s, p, grammar::word_not(), seq![' ']);
    lemma_holds_at_index(s, p + 3, seq![' '], 0);
    lemma_holds_at_index(s, start, atom_text(e), 0);
    lemma_holds_at_index(s, p, grammar::word_not(), 0);
    lemma_spaces_end_none(s, p);
    lemma_spaces_end_one(s, p + 3);
    assert(grammar::token(s, p, grammar::word_not()) == Ok::<int, grammar::Failure>(start));
    match e {
        AstValue::Func { name, args } => {
            lemma_func_call(s, k, start, name, args);
            lemma_spaces_end_none(s, start);
            assert(!grammar::has_word(s, start, seq!['('])) by {
                assert(s.subrange(start, start + 1)[0] == s[start]);
            }
            assert(grammar::parens_expr(s, k, start) is Err);
        },
        _ => {
            lemma_parenthesized(e);
            lemma_parens(s, k, start, e);
        },
    }
}

/// The text of an expression in parentheses is read back as a parenthesized expression.
#[verifier::spinoff_prover]
proof fn lemma_parens(s: Seq<char>, k: grammar::Known, p: int, a: AstValue)
    requires
        wf_ast(a),
        valid_calls(k, a),
        0 <= p,
        holds_at(s, p, seq!['('] + or_text(a) + seq![')']),
    ensures
        grammar::parens_expr(s, k, p) == Ok::<(int, AstValue), grammar::Failure>(
            (grammar::spaces_end(s, p + or_text(a).len() + 2), a),
        ),
    decreases a, 9int,
{
    let inner = or_text(a);
    let m1 = p + 1 + inner.len();
    lemma_text_shape(a);
    lemma_holds_at_split(s, p, seq!['('] + inner, seq![')']);
    lemma_holds_at_split(s, p, seq!['('], inner);
    lemma_holds_at_index(s, p, seq!['('], 0);
    lemma_holds_at_index(s, p + 1, inner, 0);
    lemma_holds_at_index(s, m1, seq![')'], 0);
    lemma_spaces_end_none(s, p);
    lemma_spaces_end_none(s, p + 1);
    assert(grammar::has_word(s, p, seq!['('])) by {
        assert(s.subrange(p, p + 1) =~= seq!['(']);
    }
    lemma_stops_at_close(s, m1);
    lemma_expr(s, k, p + 1, a);
    assert(grammar::has_word(s, m1, seq![')'])) by {
        assert(s.subrange(m1, m1 + 1) =~= seq![')']);
    }
}

/// The text of an expression is read back when `and` and `or` do not follow it.
proof fn lemma_expr(s: Seq<char>, k: grammar::Known, p: int, a: AstValue)
    requires
        wf_ast(a),
        valid_calls(k, a),
        0 <= p,
        holds_at(s, p, or_text(a)),
        stops(s, grammar::spaces_end(s, p + or_text(a).len())),
    ensures
        grammar::expr(s, k, p) == Ok::<(int, AstValue), grammar::Failure>(
            (grammar::spaces_end(s, p + or_text(a).len()), a),
        ),
    decreases a, 8int,
{
    let m = p + or_text(a).len();
    lemma_spaces_end_idempotent(s, m);
    lemma_or_chain(s, k, p, a);
}

/// The layout of the text of `l or r`: the text of `l`, then ` or `, then the text of `r`
/// as an `and` group.
proof fn lemma_or_text_layout(s: Seq<char>, p: int, l: AstValue, r: AstValue)
    requires
        wf_ast(r),
        0 <= p,
        holds_at(s, p, or_text(l) + seq![' ', 'o', 'r', ' '] + and_text(r)),
    ensures
        holds_at(s, p, or_text(l)),
        holds_at(s, p + or_text(l).len() + 4, and_text(r)),
        grammar::spaces_end(s, p + or_text(l).len()) == p + or_text(l).len() + 1,
        !grammar::has_word(s, p + or_text(l).len() + 1, grammar::word_and()),
        grammar::token(s, p + or_text(l).len() + 1, grammar::word_or()) == Ok::<
            int,
            grammar::Failure,
        >(p + or_text(l).len() + 4),
{
    let m1 = p + or_text(l).len();
    let sep = seq![' ', 'o', 'r', ' '];
    lemma_text_shape(r);
    lemma_holds_at_split(s, p, or_text(l) + sep, and_text(r));
    lemma_holds_at_split(s, p, or_text(l), sep);
    lemma_holds_at_index(s, m1, sep, 0);
    lemma_holds_at_index(s, m1, sep, 1);
    lemma_holds_at_index(s, m1, sep, 2);
    lemma_holds_at_index(s, m1, sep, 3);
    lemma_holds_at_index(s, m1 + 4, and_text(r), 0);
    lemma_spaces_end_one(s, m1);
    assert(!grammar::has_word(s, m1 + 1, grammar::word_and())) by {
        assert(s.subrange(m1 + 1, m1 + 4)[0] == s[m1 + 1]);
    }
    lemma_spaces_end_none(s, m1 + 1);
    assert(grammar::has_word(s, m1 + 1, grammar::word_or())) by {
        assert(s.subrange(m1 + 1, m1 + 3) =~= grammar::word_or());
    }
    lemma_spaces_end_one(s, m1 + 3);
}

/// One step of an `or` chain: after `acc` at `q`, an `or` and an `and` group `r` that is
/// read up to `t` continue as after `acc or r` at `t`.
proof fn lemma_or_step(s: Seq<char>, k: grammar::Known, q: int, acc: AstValue, r: AstValue, u: int, t: int)
    requires
        0 <= q < u <= t <= s.len(),
        grammar::token(s, q, grammar::word_or()) == Ok::<int, grammar::Failure>(u),
        grammar::and_expr(s, k, u) == Ok::<(int, AstValue), grammar::Failure>((t, r)),
    ensures
        grammar::or_rest(s, k, q, acc) == grammar::or_rest(
            s,
            k,
            t,
            AstValue::Or { left: Box::new(acc), right: Box::new(r) },
        ),
{
}

/// The `and` groups of the text of an expression are read back one after another: the
/// first is read, and what follows it continues as after all of them.
#[verifier::rlimit(60)]
#[verifier::spinoff_prover]
proof fn lemma_or_chain(s: Seq<char>, k: grammar::Known, p: int, a: AstValue)
    requires
        wf_ast(a),
        valid_calls(k, a),
        0 <= p,
        holds_at(s, p, or_text(a)),
        !grammar::has_word(s, grammar::spaces_end(s, p + or_text(a).len()), grammar::word_and()),
    ensures
        grammar::and_expr(s, k, p) matches Ok((q0, first)) && p <= q0 <= s.len()
            && grammar::or_rest(s, k, q0, first) == grammar::or_rest(
            s,
            k,
            grammar::spaces_end(s, p + or_text(a).len()),
            a,
        ),
    decreases a, 7int,
{
    let m = p + or_text(a).len();
    lemma_spaces_end_idempotent(s, m);
    match a {
        AstValue::Or { left, right } => {
            let l = *left;
            let r = *right;
            let m1 = p + or_text(l).len();
            lemma_or_text_layout(s, p, l, r);
            lemma_or_chain(s, k, p, l);
            lemma_and(s, k, m1 + 4, r);
            lemma_or_step(s, k, m1 + 1, l, r, m1 + 4, grammar::spaces_end(s, m));
        },
        _ => {
            lemma_and(s, k, p, a);
        },
    }
}

/// The text of an expression grouped as `and` groups is read back when `and` does not
/// follow it.
proof fn lemma_and(s: Seq<char>, k: grammar::Known, p: int, a: AstValue)
    requires
        wf_ast(a),
        valid_calls(k, a),
        0 <= p,
        holds_at(s, p, and_text(a)),
        !grammar::has_word(s, grammar::spaces_end(s, p + and_text(a).len()), grammar::word_and()),
    ensures
        grammar::and_expr(s, k, p) == Ok::<(int, AstValue), grammar::Failure>(
            (grammar::spaces_end(s, p + and_text(a).len()), a),
        ),
    decreases a, if a is Or {
        12int
    } else {
        6int
    },
{
    let m = p + and_text(a).len();
    lemma_spaces_end_idempotent(s, m);
    lemma_and_chain(s, k, p, a);
}

/// The layout of the text of `l and r`: the text of `l`, then ` and `, then the text of
/// `r` as a term.
proof fn lemma_and_text_layout(s: Seq<char>, p: int, l: AstValue, r: AstValue)
    requires
        wf_ast(r),
        0 <= p,
        holds_at(s, p, and_text(l) + seq![' ', 'a', 'n', 'd', ' '] + term_text(r)),
    ensures
        holds_at(s, p, and_text(l)),
        holds_at(s, p + and_text(l).len() + 5, term_text(r)),
        grammar::spaces_end(s, p + and_text(l).len()) == p + and_text(l).len() + 1,
        grammar::token(s, p + and_text(l).len() + 1, grammar::word_and()) == Ok::<
            int,
            grammar::Failure,
        >(p + and_text(l).len() + 5),
{
    let m1 = p + and_text(l).len();
    let sep = seq![' ', 'a', 'n', 'd', ' '];
    lemma_text_shape(r);
    lemma_holds_at_split(s, p, and_text(l) + sep, term_text(r));
    lemma_holds_at_split(s, p, and_text(l), sep);
    lemma_holds_at_index(s, m1, sep, 0);
    lemma_holds_at_index(s, m1, sep, 1);
    lemma_holds_at_index(s, m1, sep, 2);
    lemma_holds_at_index(s, m1, sep, 3);
    lemma_holds_at_index(s, m1, sep, 4);
    lemma_holds_at_index(s, m1 + 5, term_text(r), 0);
    lemma_spaces_end_one(s, m1);
    lemma_spaces_end_none(s, m1 + 1);
    assert(grammar::has_word(s, m1 + 1, grammar::word_and())) by {
        assert(s.subrange(m1 + 1, m1 + 4) =~= grammar::word_and());
    }
    lemma_spaces_end_one(s, m1 + 4);
}

/// One step of an `and` chain: after `acc` at `q`, an `and` and a term `r` that is read
/// up to `t` continue as after `acc and r` at `t`.
proof fn lemma_and_step(s: Seq<char>, k: grammar::Known, q: int, acc: AstValue, r: AstValue, u: int, t: int)
    requires
        0 <= q < u <= t <= s.len(),
        grammar::token(s, q, grammar::word_and()) == Ok::<int, grammar::Failure>(u),
        grammar::term(s, k, u) == Ok::<(int, AstValue), grammar::Failure>((t, r)),
    ensures
        grammar::and_rest(s, k, q, acc) == grammar::and_rest(
            s,
            k,
            t,
            AstValue::And { left: Box::new(acc), right: Box::new(r) },
        ),
{
}

/// The terms of the text of an `and` group are read back one after another: the first
/// is read, and what follows it continues as after all of them.
#[verifier::spinoff_prover]
proof fn lemma_and_chain(s: Seq<char>, k: grammar::Known, p: int, a: AstValue)
    requires
        wf_ast(a),
        valid_calls(k, a),
        0 <= p,
        holds_at(s, p, and_text(a)),
    ensures
        grammar::term(s, k, p) matches Ok((q0, first)) && p <= q0 <= s.len() && grammar::and_rest(
            s,
            k,
            q0,
            first,
        ) == grammar::and_rest(s, k, grammar::spaces_end(s, p + and_text(a).len()), a),
    decreases a, if a is Or {
        11int
    } else {
        5int
    },
{
    let m = p + and_text(a).len();
    lemma_spaces_end_idempotent(s, m);
    match a {
        AstValue::And { left, right } => {
            let l = *left;
            let r = *right;
            let m1 = p + and_text(l).len();
            lemma_and_text_layout(s, p, l, r);
            lemma_and_chain(s, k, p, l);
            lemma_term(s, k, m1 + 5, r);
            lemma_and_step(s, k, m1 + 1, l, r, m1 + 5, grammar::spaces_end(s, m));
        },
        _ => {
            lemma_term(s, k, p, a);
        },
    }
}

/// Parsing the canonical text of a well-formed expression gives the expression back,
/// whether calls are checked against no table (`k` is `None`) or against a table that
/// admits every call of the expression: the text groups `or` to the left and loosest,
/// `and` to the left and tighter, and `not` tightest, with parentheses only where this
/// grouping needs them.
pub proof fn law_parse_text(a: AstValue, k: grammar::Known)
    requires
        wf_ast(a),
        valid_calls(k, a),
    ensures
        grammar::parse_all(to_text(a), k) == Ok::<AstValue, grammar::Failure>(a),
{
    reveal(grammar::parse_all);
    let s = to_text(a);
    assert(s.subrange(0, s.len() as int) =~= s);
    lemma_stops_at_close(s, s.len() as int);
    lemma_expr(s, k, 0, a);
}

/// `a` is a call of a well-formed function that `k` admits.
pub open spec fn is_call(a: AstValue, k: grammar::Known) -> bool {
    a is Func && wf_ast(a) && valid_calls(k, a)
}

/// ` or `
pub open spec fn or_sep() -> Seq<char> {
    seq![' ', 'o', 'r', ' ']
}

/// ` and `
pub open spec fn and_sep() -> Seq<char> {
    seq![' ', 'a', 'n', 'd', ' ']
}

/// `a or b`
pub open spec fn or_of(a: AstValue, b: AstValue) -> AstValue {
    AstValue::Or { left: Box::new(a), right: Box::new(b) }
}

/// `a and b`
pub open spec fn and_of(a: AstValue, b: AstValue) -> AstValue {
    AstValue::And { left: Box::new(a), right: Box::new(b) }
}

/// `not a`
pub open spec fn not_of(a: AstValue) -> AstValue {
    AstValue::Not { expr: Box::new(a) }
}

/// The texts of a call as any kind of operand are the text of the call.
proof fn lemma_call_texts(a: AstValue)
    requires
        a is Func,
    ensures
        or_text(a) == term_text(a),
        and_text(a) == term_text(a),
        atom_text(a) == term_text(a),
{
    assert(and_text(a) == term_text(a));
}

/// `and` binds tighter than `or`: `a or b and c` is `a or (b and c)`, and `a and b or c`
/// is `(a and b) or c`.
pub proof fn law_and_binds_tighter_than_or(a: AstValue, b: AstValue, c: AstValue, k: grammar::Known)
    requires
        is_call(a, k),
        is_call(b, k),
        is_call(c, k),
    ensures
        grammar::parse_all(term_text(a) + or_sep() + term_text(b) + and_sep() + term_text(c), k)
            == Ok::<AstValue, grammar::Failure>(or_of(a, and_of(b, c))),
        grammar::parse_all(term_text(a) + and_sep() + term_text(b) + or_sep() + term_text(c), k)
            == Ok::<AstValue, grammar::Failure>(or_of(and_of(a, b), c)),
{
    lemma_call_texts(a);
    lemma_call_texts(b);
    lemma_call_texts(c);
    let x = or_of(a, and_of(b, c));
    let y = or_of(and_of(a, b), c);
    assert(wf_ast(and_of(b, c)) && valid_calls(k, and_of(b, c)));
    assert(wf_ast(and_of(a, b)) && valid_calls(k, and_of(a, b)));
    assert(wf_ast(x) && valid_calls(k, x));
    assert(wf_ast(y) && valid_calls(k, y));
    assert(and_text(and_of(b, c)) == and_text(b) + and_sep() + term_text(c));
    assert(or_text(x) == or_text(a) + or_sep() + and_text(and_of(b, c)));
    assert(to_text(x) =~= term_text(a) + or_sep() + term_text(b) + and_sep() + term_text(c));
    assert(and_text(and_of(a, b)) == and_text(a) + and_sep() + term_text(b));
    assert(or_text(and_of(a, b)) == and_text(and_of(a, b)));
    assert(or_text(y) == or_text(and_of(a, b)) + or_sep() + and_text(c));
    assert(to_text(y) =~= term_text(a) + and_sep() + term_text(b) + or_sep() + term_text(c));
    law_parse_text(x, k);
    law_parse_text(y, k);
}

/// `not` binds tighter than `and`: `not a and b` is `(not a) and b`.
pub proof fn law_not_binds_tighter_than_and(a: AstValue, b: AstValue, k: grammar::Known)
    requires
        is_call(a, k),
        is_call(b, k),
    ensures
        grammar::parse_all(
            grammar::word_not() + seq![' '] + term_text(a) + and_sep() + term_text(b),
            k,
        ) == Ok::<AstValue, grammar::Failure>(and_of(not_of(a), b)),
{
    lemma_call_texts(a);
    lemma_call_texts(b);
    let x = and_of(not_of(a), b);
    assert(wf_ast(not_of(a)) && valid_calls(k, not_of(a)));
    assert(wf_ast(x) && valid_calls(k, x));
    assert(and_text(not_of(a)) == term_text(not_of(a)));
    assert(and_text(x) == and_text(not_of(a)) + and_sep() + term_text(b));
    assert(or_text(x) == and_text(x));
    assert(to_text(x) =~= grammar::word_not() + seq![' '] + term_text(a) + and_sep() + term_text(b));
    law_parse_text(x, k);
}

/// Parentheses override precedence: `(a or b) and c` is the `and` of `a or b` and `c`,
/// and `not (a or b)` negates the whole `or`.
pub proof fn law_parentheses_group(a: AstValue, b: AstValue, c: AstValue, k: grammar::Known)
    requires
        is_call(a, k),
        is_call(b, k),
        is_call(c, k),
    ensures
        grammar::parse_all(
            seq!['('] + term_text(a) + or_sep() + term_text(b) + seq![')'] + and_sep() + term_text(c),
            k,
        ) == Ok::<AstValue, grammar::Failure>(and_of(or_of(a, b), c)),
        grammar::parse_all(
            grammar::word_not() + seq![' ', '('] + term_text(a) + or_sep() + term_text(b) + seq![')'],
            k,
        ) == Ok::<AstValue, grammar::Failure>(not_of(or_of(a, b))),
{
    lemma_call_texts(a);
    lemma_call_texts(b);
    lemma_call_texts(c);
    let ab = or_of(a, b);
    let x = and_of(ab, c);
    let y = not_of(ab);
    assert(wf_ast(ab) && valid_calls(k, ab));
    assert(wf_ast(x) && valid_calls(k, x));
    assert(wf_ast(y) && valid_calls(k, y));
    assert(or_text(ab) == or_text(a) + or_sep() + and_text(b));
    assert(term_text(ab) == seq!['('] + or_text(a) + or_sep() + and_text(b) + seq![')']);
    assert(and_text(ab) == term_text(ab));
    assert(and_text(x) == and_text(ab) + and_sep() + term_text(c));
    assert(or_text(x) == and_text(x));
    assert(to_text(x) =~= seq!['('] + term_text(a) + or_sep() + term_text(b) + seq![')']
        + and_sep() + term_text(c));
    assert(atom_text(ab) == seq!['('] + or_text(a) + or_sep() + and_text(b) + seq![')']);
    assert(term_text(y) == grammar::word_not() + seq![' '] + atom_text(ab));
    assert(and_text(y) == term_text(y));
    assert(or_text(y) == and_text(y));
    assert(to_text(y) =~= grammar::word_not() + seq![' ', '('] + term_text(a) + or_sep()
        + term_text(b) + seq![')']);
    law_parse_text(x, k);
    law_parse_text(y, k);
}

/// The left fold of `ops` with `or`: `((ops[0] or ops[1]) or ...) or ops[n - 1]`.
pub open spec fn or_fold(ops: Seq<AstValue>) -> AstValue
    decreases ops.len(),
{
    if ops.len() <= 1 {
        ops[0]
    } else {
        or_of(or_fold(ops.drop_last()), ops.last())
    }
}

/// The left fold of `ops` with `and`: `((ops[0] and ops[1]) and ...) and ops[n - 1]`.
pub open spec fn and_fold(ops: Seq<AstValue>) -> AstValue
    decreases ops.len(),
{
    if ops.len() <= 1 {
        ops[0]
    } else {
        and_of(and_fold(ops.drop_last()), ops.last())
    }
}

/// The texts `texts`, one after another, with `sep` between each two.
pub open spec fn joined(texts: Seq<Seq<char>>, sep: Seq<char>) -> Seq<char>
    decreases texts.len(),
{
    if texts.len() == 0 {
        Seq::empty()
    } else if texts.len() == 1 {
        texts[0]
    } else {
        joined(texts.drop_last(), sep) + sep + texts.last()
    }
}

/// The texts of the operands of an `or` chain: the first one as any expression, the
/// others as `and` groups.
pub open spec fn or_operand_texts(ops: Seq<AstValue>) -> Seq<Seq<char>> {
    ops.map_values(|t: AstValue| and_text(t)).update(0, or_text(ops[0]))
}

/// The texts of the operands of an `and` chain: the first one as an `and` group, the
/// others as terms.
pub open spec fn and_operand_texts(ops: Seq<AstValue>) -> Seq<Seq<char>> {
    ops.map_values(|t: AstValue| term_text(t)).update(0, and_text(ops[0]))
}

/// Every expression of `ops` is well formed and its calls are admitted by `k`.
pub open spec fn all_valid(ops: Seq<AstValue>, k: grammar::Known) -> bool {
    forall|i: int| #![trigger ops[i]] 0 <= i < ops.len() ==> wf_ast(ops[i]) && valid_calls(k, ops[i])
}

/// What `all_valid` says of `ops` it says of `ops` without its last element.
proof fn lemma_all_valid_init(ops: Seq<AstValue>, k: grammar::Known)
    requires
        ops.len() >= 1,
        all_valid(ops, k),
    ensures
        all_valid(ops.drop_last(), k),
        wf_ast(ops.last()) && valid_calls(k, ops.last()),
{
    let init = ops.drop_last();
    assert forall|i: int| 0 <= i < init.len() implies wf_ast(init[i]) && valid_calls(k, init[i]) by {
        assert(init[i] == ops[i]);
    }
    assert(ops[ops.len() - 1] == ops.last());
}

/// The text of the left fold with `or` is the texts of its operands joined by ` or `.
proof fn lemma_or_fold_text(ops: Seq<AstValue>, k: grammar::Known)
    requires
        ops.len() >= 1,
        all_valid(ops, k),
    ensures
        or_text(or_fold(ops)) == joined(or_operand_texts(ops), or_sep()),
        wf_ast(or_fold(ops)),
        valid_calls(k, or_fold(ops)),
    decreases ops.len(),
{
    if ops.len() == 1 {
        assert(ops[0] == ops[0]);
    } else {
        let init = ops.drop_last();
        lemma_all_valid_init(ops, k);
        lemma_or_fold_text(init, k);
        assert(or_operand_texts(ops).drop_last() =~= or_operand_texts(init));
        assert(or_operand_texts(ops).last() == and_text(ops.last()));
    }
}

/// The text of the left fold with `and` is the texts of its operands joined by ` and `.
proof fn lemma_and_fold_text(ops: Seq<AstValue>, k: grammar::Known)
    requires
        ops.len() >= 1,
        all_valid(ops, k),
    ensures
        and_text(and_fold(ops)) == joined(and_operand_texts(ops), and_sep()),
        wf_ast(and_fold(ops)),
        valid_calls(k, and_fold(ops)),
    decreases ops.len(),
{
    if ops.len() == 1 {
        assert(ops[0] == ops[0]);
    } else {
        let init = ops.drop_last();
        lemma_all_valid_init(ops, k);
        lemma_and_fold_text(init, k);
        assert(and_operand_texts(ops).drop_last() =~= and_operand_texts(init));
        assert(and_operand_texts(ops).last() == term_text(ops.last()));
    }
}

/// However many operands a chain of `or` joins, it is parsed as their left fold:
/// `a or b or c or d` is `((a or b) or c) or d`; each operand after the first is written
/// as an `and` group.
pub proof fn law_or_chain_folds_left(ops: Seq<AstValue>, k: grammar::Known)
    requires
        ops.len() >= 1,
        all_valid(ops, k),
    ensures
        grammar::parse_all(joined(or_operand_texts(ops), or_sep()), k) == Ok::<
            AstValue,
            grammar::Failure,
        >(or_fold(ops)),
{
    lemma_or_fold_text(ops, k);
    law_parse_text(or_fold(ops), k);
}

/// However many operands a chain of `and` joins, it is parsed as their left fold:
/// `a and b and c and d` is `((a and b) and c) and d`; each operand after the first is
/// written as a term.
pub proof fn law_and_chain_folds_left(ops: Seq<AstValue>, k: grammar::Known)
    requires
        ops.len() >= 1,
        all_valid(ops, k),
    ensures
        grammar::parse_all(joined(and_operand_texts(ops), and_sep()), k) == Ok::<
            AstValue,
            grammar::Failure,
        >(and_fold(ops)),
{
    lemma_and_fold_text(ops, k);
    let a = and_fold(ops);
    law_parse_text(a, k);
    if a is Or {
        // a lone `or` is written in parentheses as an `and` group
        lemma_parenthesized(a);
        assert(and_text(a) == term_text(a));
        law_parentheses_keep_parse(to_text(a), k, a);
    } else {
        assert(or_text(a) == and_text(a));
    }
}

} // verus!
