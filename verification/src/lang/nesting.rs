//! What a text reads as on its own it reads as inside a longer input: the laws that
//! parentheses around an input that parses as a whole give the same expression, and that
//! a chain of operands that each parse as a whole folds to the left.
//!
//! A text `s` is compared with the input `pre + s + post` from `pre.len()` on. The two
//! hold the same characters there; where `s` ends, the longer input goes on with `post`.
//! So a parse of `s` that ends where the rest of `s` can follow it (`continues`) is the
//! same in both, as long as `post` does not start as a continuation of `s` would.
use vstd::prelude::*;

use super::ast::AstValue;
use super::printer::{and_fold, and_sep, joined, or_fold, or_sep};
use super::grammar::{
    and_expr, and_rest, digits_end, expr, func_call, func_name, has_word, int_literal, is_digit,
    is_name_char, is_space, literal, literals, literals_rest, name_end, or_expr, or_rest,
    parens_expr, parse_all, quote_end, quoted, spaces_end, string_literal, term, token,
    word_and, word_false, word_not, word_or, word_true, Failure, Known, Parsed,
};

verus! {

/// A text `s` with `pre` before it and `post` after it.
pub struct Frame {
    pub pre: Seq<char>,
    pub s: Seq<char>,
    pub post: Seq<char>,
}

impl Frame {
    /// The whole input.
    pub open spec fn whole(self) -> Seq<char> {
        self.pre + self.s + self.post
    }

    /// Where the position `q` of `s` stands in the whole input: one `pre` further on, and
    /// where `s` ends, after the spaces that start `post`.
    pub open spec fn moved(self, q: int) -> int {
        if q < self.s.len() {
            self.pre.len() + q
        } else {
            self.pre.len() + self.s.len() + spaces_end(self.post, 0)
        }
    }

    /// The word `w` cannot be read across or just after the end of `s`: `post` is empty,
    /// or it starts with no character of `w` and, after its spaces, does not hold `w`.
    pub open spec fn blocks(self, w: Seq<char>) -> bool {
        self.post.len() == 0 || ((forall|j: int| 0 <= j < w.len() ==> w[j] != self.post[0])
            && !has_word(self.post, spaces_end(self.post, 0), w))
    }

    /// `post` starts with no character of a name, and no `not` can be read across or just
    /// after the end of `s`.
    pub open spec fn quiet(self) -> bool {
        (self.post.len() == 0 || !is_name_char(self.post[0])) && self.blocks(word_not())
    }
}

/// `r2` is the result `r` of a parse of `s`, read in the whole input of `f`: a success at
/// `q` is the same success at `f.moved(q)`.
pub open spec fn moved_ok<V>(f: Frame, r: Parsed<V>, r2: Parsed<V>) -> bool {
    match r {
        Ok((q, v)) => r2 == Ok::<(int, V), Failure>((f.moved(q), v)),
        Err(_) => true,
    }
}

/// The characters of `s` and of `post` stand in the whole input one `pre`, and one
/// `pre` and `s`, further on.
proof fn lemma_frame(f: Frame)
    ensures
        f.whole().len() == f.pre.len() + f.s.len() + f.post.len(),
        forall|i: int| 0 <= i < f.s.len() ==> f.whole()[f.pre.len() + i] == #[trigger] f.s[i],
        forall|j: int|
            0 <= j < f.post.len() ==> f.whole()[f.pre.len() + f.s.len() + j] == #[trigger] f.post[j],
{
    assert forall|i: int| 0 <= i < f.s.len() implies f.whole()[f.pre.len() + i] == #[trigger] f.s[i] by {
        assert((f.pre + f.s)[f.pre.len() + i] == f.s[i]);
    }
}

/// Spaces at the end of `s` go on into those that start `post`.
proof fn lemma_post_spaces(f: Frame, j: int)
    requires
        0 <= j <= f.post.len(),
    ensures
        spaces_end(f.whole(), f.pre.len() + f.s.len() + j) == f.pre.len() + f.s.len()
            + spaces_end(f.post, j),
        j <= spaces_end(f.post, j) <= f.post.len(),
    decreases f.post.len() - j,
{
    lemma_frame(f);
    if j < f.post.len() && is_space(f.post[j]) {
        lemma_post_spaces(f, j + 1);
    }
}

/// Spaces are skipped in the whole input just where they are skipped in `s`; those at
/// the end of `s` go on into `post`.
proof fn lemma_spaces(f: Frame, p: int)
    requires
        0 <= p <= f.s.len(),
    ensures
        spaces_end(f.whole(), f.pre.len() + p) == f.moved(spaces_end(f.s, p)),
        spaces_end(f.whole(), f.moved(p)) == f.moved(spaces_end(f.s, p)),
        p <= spaces_end(f.s, p) <= f.s.len(),
    decreases f.s.len() - p,
{
    lemma_frame(f);
    lemma_post_spaces(f, 0);
    lemma_spaces_bound(f.post, 0);
    lemma_post_spaces(f, spaces_end(f.post, 0));
    if p < f.s.len() && is_space(f.s[p]) {
        lemma_spaces(f, p + 1);
    }
}

/// A run of name characters stops in the whole input where it stops in `s`.
proof fn lemma_name_end(f: Frame, p: int)
    requires
        0 <= p <= f.s.len(),
        f.quiet(),
    ensures
        name_end(f.whole(), f.pre.len() + p) == f.pre.len() + name_end(f.s, p),
        p <= name_end(f.s, p) <= f.s.len(),
    decreases f.s.len() - p,
{
    lemma_frame(f);
    if p < f.s.len() && is_name_char(f.s[p]) {
        lemma_name_end(f, p + 1);
    }
}

/// A run of digits stops in the whole input where it stops in `s`.
proof fn lemma_digits_end(f: Frame, p: int)
    requires
        0 <= p <= f.s.len(),
        f.quiet(),
    ensures
        digits_end(f.whole(), f.pre.len() + p) == f.pre.len() + digits_end(f.s, p),
        p <= digits_end(f.s, p) <= f.s.len(),
    decreases f.s.len() - p,
{
    lemma_frame(f);
    if p < f.s.len() && is_digit(f.s[p]) {
        lemma_digits_end(f, p + 1);
    }
}

/// A closing quote found in `s` is found in the whole input.
proof fn lemma_quote_end(f: Frame, p: int)
    requires
        0 <= p <= f.s.len(),
        quote_end(f.s, p) < f.s.len(),
    ensures
        quote_end(f.whole(), f.pre.len() + p) == f.pre.len() + quote_end(f.s, p),
    decreases f.s.len() - p,
{
    lemma_frame(f);
    if p < f.s.len() && f.s[p] != '"' {
        lemma_quote_end(f, p + 1);
    }
}

/// The characters of `s` from `p` to `q` stand one `pre` further on in the whole input.
proof fn lemma_sub(f: Frame, p: int, q: int)
    requires
        0 <= p <= q <= f.s.len(),
    ensures
        f.whole().subrange(f.pre.len() + p, f.pre.len() + q) == f.s.subrange(p, q),
{
    lemma_frame(f);
    assert(f.whole().subrange(f.pre.len() + p, f.pre.len() + q) =~= f.s.subrange(p, q));
}

/// A token read in `s` is read in the whole input; one that is not read in `s` is not
/// read in the whole input either where its word is blocked, or where the character at
/// which it would start is in `s` and is not its first.
proof fn lemma_token(f: Frame, p: int, w: Seq<char>)
    requires
        0 <= p <= f.s.len(),
        w.len() > 0,
    ensures
        token(f.s, p, w) matches Ok(q) ==> token(f.whole(), f.moved(p), w) == Ok::<int, Failure>(
            f.moved(q),
        ) && p < q <= f.s.len(),
        token(f.s, p, w) is Err && (f.blocks(w) || (spaces_end(f.s, p) < f.s.len()
            && f.s[spaces_end(f.s, p)] != w[0])) ==> token(f.whole(), f.moved(p), w) is Err,
{
    let x = f.whole();
    let d = f.pre.len() as int;
    let n = f.s.len() as int;
    let a = spaces_end(f.s, p);
    lemma_frame(f);
    lemma_spaces(f, p);
    if has_word(f.s, a, w) {
        lemma_sub(f, a, a + w.len());
        lemma_spaces(f, a + w.len());
    } else if a < n {
        assert(f.moved(a) == d + a);
        if a + w.len() <= n {
            lemma_sub(f, a, a + w.len());
        } else if has_word(x, d + a, w) {
            let j = n - a;
            assert(x.subrange(d + a, d + a + w.len())[j] == x[d + n]);
            assert(x.subrange(d + a, d + a + w.len())[0] == x[d + a]);
            if f.blocks(w) {
                assert(f.post[0] == x[d + n + 0]);
            }
        }
    } else {
        lemma_post_spaces(f, 0);
        let b = spaces_end(f.post, 0);
        if has_word(x, d + n + b, w) && f.blocks(w) {
            assert(f.post.len() > 0);
            assert(x.subrange(d + n + b, d + n + b + w.len()) =~= f.post.subrange(b, b + w.len()));
        }
    }
}

/// A token that is read starts with the first character of its word.
proof fn lemma_token_first(x: Seq<char>, p: int, w: Seq<char>)
    requires
        0 <= p <= x.len(),
        w.len() > 0,
        token(x, p, w) is Ok,
    ensures
        spaces_end(x, p) < x.len() && x[spaces_end(x, p)] == w[0],
{
    let a = spaces_end(x, p);
    assert(x.subrange(a, a + w.len())[0] == x[a]);
}

/// An integer literal is read in the whole input just as in `s`.
proof fn lemma_int(f: Frame, p: int)
    requires
        0 <= p <= f.s.len(),
        f.quiet(),
    ensures
        int_literal(f.whole(), f.pre.len() + p) == match int_literal(f.s, p) {
            Ok((q, v)) => Ok::<(int, super::ast::PrimitiveValue), Failure>((f.pre.len() + q, v)),
            Err(_) => Err(super::grammar::failure(f.pre.len() + p)),
        },
        int_literal(f.s, p) matches Ok((q, _)) ==> p < q <= f.s.len(),
{
    lemma_digits_end(f, p);
    let q = digits_end(f.s, p);
    if q > p {
        lemma_sub(f, p, q);
    }
}

/// The search for a closing quote stays within the input.
proof fn lemma_quote_bound(x: Seq<char>, p: int)
    requires
        0 <= p <= x.len(),
    ensures
        p <= quote_end(x, p) <= x.len(),
    decreases x.len() - p,
{
    if p < x.len() && x[p] != '"' {
        lemma_quote_bound(x, p + 1);
    }
}

/// A literal read in `s`, where it ends before `s` does, is read in the whole input.
proof fn lemma_literal(f: Frame, p: int)
    requires
        0 <= p <= f.s.len(),
        f.quiet(),
    ensures
        literal(f.s, p) matches Ok((q, _)) ==> p < q <= f.s.len(),
        literal(f.s, p) matches Ok((q, v)) ==> (q < f.s.len() ==> literal(
            f.whole(),
            f.pre.len() + p,
        ) == Ok::<(int, super::ast::PrimitiveValue), Failure>((f.pre.len() + q, v))),
{
    let x = f.whole();
    let d = f.pre.len() as int;
    lemma_frame(f);
    lemma_int(f, p);
    lemma_token(f, p, word_true());
    lemma_token(f, p, word_false());
    if p < f.s.len() {
        assert(f.moved(p) == d + p);
    }
    if int_literal(f.s, p) is Err {
        if token(f.s, p, word_false()) is Ok {
            lemma_token_first(f.s, p, word_false());
        }
        if p < f.s.len() && f.s[p] == '"' {
            lemma_quote_bound(f.s, p + 1);
            lemma_spaces(f, p);
            assert(spaces_end(f.s, p) == p);
            let e = quote_end(f.s, p + 1);
            if e < f.s.len() {
                lemma_quote_end(f, p + 1);
                lemma_sub(f, p + 1, e);
            }
        }
    }
}

/// The literals after a comma that are read in `s`, where a `)` follows them, are read
/// in the whole input.
proof fn lemma_literals_rest(f: Frame, q: int, acc: Seq<super::ast::PrimitiveValue>)
    requires
        0 <= q <= f.s.len(),
        f.quiet(),
    ensures
        q <= literals_rest(f.s, q, acc).0 <= f.s.len(),
        token(f.s, literals_rest(f.s, q, acc).0, seq![')']) is Ok ==> literals_rest(
            f.whole(),
            f.pre.len() + q,
            acc,
        ) == (f.pre.len() + literals_rest(f.s, q, acc).0, literals_rest(f.s, q, acc).1),
    decreases f.s.len() - q,
{
    let e = literals_rest(f.s, q, acc).0;
    lemma_token(f, q, seq![',']);
    if let Ok(r) = token(f.s, q, seq![',']) {
        lemma_literal(f, r);
        if let Ok((t, v)) = literal(f.s, r) {
            if q < t <= f.s.len() {
                lemma_literals_rest(f, t, acc.push(v));
            }
        }
    }
    if token(f.s, e, seq![')']) is Ok {
        lemma_token_first(f.s, e, seq![')']);
        lemma_spaces(f, e);
        assert(q < f.s.len());
        assert(f.moved(q) == f.pre.len() + q);
        if let Ok(r) = token(f.s, q, seq![',']) {
            lemma_token_first(f.s, q, seq![',']);
            if let Ok((t, v)) = literal(f.s, r) {
                if q < t <= f.s.len() {
                    assert(t < f.s.len());
                    assert(f.moved(r) == f.pre.len() + r);
                }
            }
        } else {
            assert(f.s[spaces_end(f.s, q)] != seq![','][0]);
        }
    }
}

/// The literals that are read in `s`, where a `)` follows them, are read in the whole
/// input.
proof fn lemma_literals(f: Frame, p: int)
    requires
        0 <= p <= f.s.len(),
        f.quiet(),
    ensures
        p <= literals(f.s, p).0 <= f.s.len(),
        token(f.s, literals(f.s, p).0, seq![')']) is Ok ==> literals(f.whole(), f.pre.len() + p)
            == (f.pre.len() + literals(f.s, p).0, literals(f.s, p).1),
{
    let x = f.whole();
    let d = f.pre.len() as int;
    lemma_frame(f);
    lemma_literal(f, p);
    if let Ok((q, v)) = literal(f.s, p) {
        lemma_literals_rest(f, q, seq![v]);
    }
    if token(f.s, literals(f.s, p).0, seq![')']) is Ok {
        lemma_token_first(f.s, literals(f.s, p).0, seq![')']);
        if literal(f.s, p) is Err {
            lemma_spaces(f, p);
            lemma_int(f, p);
            lemma_token(f, p, word_true());
            lemma_token(f, p, word_false());
            assert(p < f.s.len());
            assert(f.moved(p) == d + p);
            assert(x[d + p] == f.s[p]);
            assert(f.s[p] != '"');
            assert(literal(x, d + p) is Err);
        } else {
            let (q, v) = literal(f.s, p)->Ok_0;
            lemma_spaces(f, literals(f.s, p).0);
            assert(q < f.s.len());
        }
    }
}

/// A call read in `s` is read in the whole input.
#[verifier::rlimit(60)]
#[verifier::spinoff_prover]
proof fn lemma_func_call(f: Frame, k: Known, p: int)
    requires
        0 <= p <= f.s.len(),
        f.quiet(),
        func_call(f.s, k, p) is Ok,
    ensures
        moved_ok(f, func_call(f.s, k, p), func_call(f.whole(), k, f.pre.len() + p)),
        func_call(f.s, k, p) matches Ok((q, _)) ==> p < q <= f.s.len(),
        p < f.s.len() && super::grammar::is_name_start(f.s[p]),
{
    let x = f.whole();
    let d = f.pre.len() as int;
    lemma_frame(f);
    let q1 = name_end(f.s, p + 1);
    lemma_name_end(f, p + 1);
    lemma_sub(f, p, q1);
    lemma_token(f, q1, seq!['(']);
    let r = token(f.s, q1, seq!['('])->Ok_0;
    lemma_literals(f, r);
    let t = literals(f.s, r).0;
    lemma_token_first(f.s, t, seq![')']);
    lemma_spaces(f, t);
    lemma_token(f, t, seq![')']);
    assert(f.moved(q1) == d + q1);
    assert(f.moved(r) == d + r);
    assert(f.moved(t) == d + t);
}

/// From `q` on, what follows a parse in `s` can be read: `s` ends there, or a `)` follows,
/// or `and` and a term that are read and continue, or `or` and an `and` group that are
/// read and continue.
pub open spec fn continues(s: Seq<char>, k: Known, q: int) -> bool
    decreases s.len() - q,
{
    if !(0 <= q <= s.len()) {
        false
    } else {
        let a = spaces_end(s, q);
        if a == s.len() || (a < s.len() && s[a] == ')') {
            true
        } else {
            match token(s, q, word_and()) {
                Ok(r) => match term(s, k, r) {
                    Ok((t, _)) => if q < t <= s.len() {
                        continues(s, k, t)
                    } else {
                        false
                    },
                    Err(_) => false,
                },
                Err(_) => match token(s, q, word_or()) {
                    Ok(r) => match and_expr(s, k, r) {
                        Ok((t, _)) => if q < t <= s.len() {
                            continues(s, k, t)
                        } else {
                            false
                        },
                        Err(_) => false,
                    },
                    Err(_) => false,
                },
            }
        }
    }
}

/// Where an `and` chain that continues at `t` ends, it continues.
proof fn lemma_and_rest_continues(s: Seq<char>, k: Known, t: int, acc: AstValue)
    requires
        0 <= t <= s.len(),
        and_rest(s, k, t, acc) matches Ok((q, _)) && continues(s, k, q),
    ensures
        continues(s, k, t),
    decreases s.len() - t,
{
    if let Ok(r) = token(s, t, word_and()) {
        if t < r <= s.len() {
            if let Ok((t2, right)) = term(s, k, r) {
                if r <= t2 <= s.len() {
                    lemma_and_rest_continues(
                        s,
                        k,
                        t2,
                        AstValue::And { left: Box::new(acc), right: Box::new(right) },
                    );
                    let a = spaces_end(s, t);
                    if !(a == s.len() || (a < s.len() && s[a] == ')')) {
                        assert(continues(s, k, t));
                    }
                }
            }
        }
    }
}

/// `and` and `or` do not stand at the same place.
proof fn lemma_and_or(s: Seq<char>, q: int)
    requires
        0 <= q <= s.len(),
        token(s, q, word_or()) is Ok,
    ensures
        token(s, q, word_and()) is Err,
        spaces_end(s, q) < s.len() && s[spaces_end(s, q)] == 'o',
{
    let a = spaces_end(s, q);
    assert(s.subrange(a, a + 2)[0] == s[a]);
    if has_word(s, a, word_and()) {
        assert(s.subrange(a, a + 3)[0] == s[a]);
    }
}

/// Where an `or` chain that continues at `t` ends, it continues.
proof fn lemma_or_rest_continues(s: Seq<char>, k: Known, t: int, acc: AstValue)
    requires
        0 <= t <= s.len(),
        or_rest(s, k, t, acc) matches Ok((q, _)) && continues(s, k, q),
    ensures
        continues(s, k, t),
    decreases s.len() - t,
{
    if let Ok(r) = token(s, t, word_or()) {
        if t < r <= s.len() {
            if let Ok((t2, right)) = and_expr(s, k, r) {
                if r <= t2 <= s.len() {
                    lemma_or_rest_continues(
                        s,
                        k,
                        t2,
                        AstValue::Or { left: Box::new(acc), right: Box::new(right) },
                    );
                    lemma_and_or(s, t);
                    let a = spaces_end(s, t);
                    if !(a == s.len() || (a < s.len() && s[a] == ')')) {
                        assert(continues(s, k, t));
                    }
                }
            }
        }
    }
}

/// `w` cannot be read after a parse of `s` that ends at `q` with only spaces after it.
pub open spec fn stops_after(f: Frame, q: int, w: Seq<char>) -> bool {
    spaces_end(f.s, q) == f.s.len() ==> f.blocks(w)
}

/// Where a parse that continues stops at `q0` and no `and` is read there, none is read
/// in the whole input either.
proof fn lemma_stop_at(f: Frame, k: Known, q0: int, w: Seq<char>)
    requires
        0 <= q0 <= f.s.len(),
        continues(f.s, k, q0),
        stops_after(f, q0, w),
        token(f.s, q0, w) is Err,
        w == word_and() || w == word_or(),
    ensures
        token(f.whole(), f.moved(q0), w) is Err,
{
    let a = spaces_end(f.s, q0);
    lemma_spaces(f, q0);
    if a < f.s.len() && f.s[a] != ')' {
        if token(f.s, q0, word_and()) is Ok {
            lemma_token_first(f.s, q0, word_and());
        } else {
            lemma_token_first(f.s, q0, word_or());
        }
    }
    lemma_token(f, q0, w);
}

/// Positions of `s` keep their order in the whole input.
proof fn lemma_moved(f: Frame, a: int, b: int)
    requires
        0 <= a <= b <= f.s.len(),
    ensures
        0 <= f.moved(a) <= f.moved(b) <= f.whole().len(),
        a < b ==> f.moved(a) < f.moved(b),
{
    lemma_frame(f);
    lemma_post_spaces(f, 0);
}

/// A term read in `s` that continues is read in the whole input.
#[verifier::rlimit(60)]
#[verifier::spinoff_prover]
proof fn lemma_term(f: Frame, k: Known, p: int)
    requires
        0 <= p <= f.s.len(),
        f.quiet(),
        term(f.s, k, p) matches Ok((q, _)) && continues(f.s, k, q),
    ensures
        moved_ok(f, term(f.s, k, p), term(f.whole(), k, f.moved(p))),
    decreases f.s.len() - p, 2int,
{
    let x = f.whole();
    lemma_token(f, p, word_not());
    let start = match token(f.s, p, word_not()) {
        Ok(q) => q,
        Err(_) => p,
    };
    lemma_moved(f, p, start);
    match parens_expr(f.s, k, start) {
        Ok((q, e)) => {
            lemma_parens(f, k, start);
        },
        Err(e1) => {
            lemma_func_call(f, k, start);
            lemma_spaces(f, start);
            assert(!has_word(f.s, start, seq!['('])) by {
                assert(f.s.subrange(start, start + 1)[0] == f.s[start]);
            }
            lemma_token(f, start, seq!['(']);
            assert(f.moved(start) == f.pre.len() + start);
            assert(token(x, f.moved(start), seq!['(']) is Err);
            assert(parens_expr(x, k, f.moved(start)) == Err::<(int, AstValue), Failure>(
                super::grammar::failure(spaces_end(x, f.moved(start))),
            ));
        },
    }
}

/// An expression in parentheses read in `s` is read in the whole input.
#[verifier::spinoff_prover]
proof fn lemma_parens(f: Frame, k: Known, p: int)
    requires
        0 <= p <= f.s.len(),
        f.quiet(),
        parens_expr(f.s, k, p) is Ok,
    ensures
        moved_ok(f, parens_expr(f.s, k, p), parens_expr(f.whole(), k, f.moved(p))),
    decreases f.s.len() - p, 1int,
{
    lemma_token(f, p, seq!['(']);
    let q = token(f.s, p, seq!['('])->Ok_0;
    let r = expr(f.s, k, q)->Ok_0.0;
    lemma_token_first(f.s, r, seq![')']);
    assert(continues(f.s, k, r));
    lemma_expr(f, k, q);
    lemma_token(f, r, seq![')']);
    lemma_moved(f, p, q);
}

/// The steps of an `and` chain: it stops where no `and` follows, or where the term after
/// it fails for good or is not read past it; else it goes on after the term.
proof fn lemma_and_rest_steps(x: Seq<char>, k: Known, q0: int, acc: AstValue)
    requires
        0 <= q0 <= x.len(),
    ensures
        token(x, q0, word_and()) is Err ==> and_rest(x, k, q0, acc) == Ok::<(int, AstValue), Failure>(
            (q0, acc),
        ),
        token(x, q0, word_and()) matches Ok(r) ==> (q0 < r <= x.len() ==> match term(x, k, r) {
            Err(f) => and_rest(x, k, q0, acc) == if f.cut {
                Err::<(int, AstValue), Failure>(f)
            } else {
                Ok((q0, acc))
            },
            Ok((t2, right)) => and_rest(x, k, q0, acc) == if r <= t2 <= x.len() {
                and_rest(x, k, t2, AstValue::And { left: Box::new(acc), right: Box::new(right) })
            } else {
                Ok((q0, acc))
            },
        }),
{
}

/// An `and` chain read in `s` that continues is read in the whole input.
#[verifier::spinoff_prover]
proof fn lemma_and_rest(f: Frame, k: Known, q0: int, acc: AstValue)
    requires
        0 <= q0 <= f.s.len(),
        f.quiet(),
        and_rest(f.s, k, q0, acc) matches Ok((q, _)) && continues(f.s, k, q) && stops_after(
            f,
            q,
            word_and(),
        ),
    ensures
        moved_ok(f, and_rest(f.s, k, q0, acc), and_rest(f.whole(), k, f.moved(q0), acc)),
    decreases f.s.len() - q0, 0int,
{
    let s = f.s;
    let x = f.whole();
    lemma_token(f, q0, word_and());
    lemma_moved(f, q0, s.len() as int);
    lemma_and_rest_steps(s, k, q0, acc);
    lemma_and_rest_steps(x, k, f.moved(q0), acc);
    if let Ok(r) = token(s, q0, word_and()) {
        lemma_token_first(s, q0, word_and());
        lemma_moved(f, q0, r);
        match term(s, k, r) {
            Err(e) => {
                assert(!continues(s, k, q0));
            },
            Ok((t2, right)) => {
                if r <= t2 <= s.len() {
                    let next = AstValue::And { left: Box::new(acc), right: Box::new(right) };
                    lemma_and_rest_continues(s, k, t2, next);
                    lemma_term(f, k, r);
                    lemma_moved(f, r, t2);
                    lemma_and_rest(f, k, t2, next);
                } else {
                    lemma_term_bound(s, k, r);
                }
            },
        }
    } else {
        lemma_stop_at(f, k, q0, word_and());
    }
}

/// An `and` group read in `s` that continues is read in the whole input.
#[verifier::spinoff_prover]
proof fn lemma_and_expr(f: Frame, k: Known, p: int)
    requires
        0 <= p <= f.s.len(),
        f.quiet(),
        and_expr(f.s, k, p) matches Ok((q, _)) && continues(f.s, k, q) && stops_after(
            f,
            q,
            word_and(),
        ),
    ensures
        moved_ok(f, and_expr(f.s, k, p), and_expr(f.whole(), k, f.moved(p))),
    decreases f.s.len() - p, 3int,
{
    let (q1, first) = term(f.s, k, p)->Ok_0;
    lemma_and_rest_continues(f.s, k, q1, first);
    lemma_term(f, k, p);
    lemma_moved(f, p, q1);
    lemma_and_rest(f, k, q1, first);
}

/// The steps of an `or` chain: it stops where no `or` follows, or where the `and` group
/// after it fails for good or is not read past it; else it goes on after the group.
proof fn lemma_or_rest_steps(x: Seq<char>, k: Known, q0: int, acc: AstValue)
    requires
        0 <= q0 <= x.len(),
    ensures
        token(x, q0, word_or()) is Err ==> or_rest(x, k, q0, acc) == Ok::<(int, AstValue), Failure>(
            (q0, acc),
        ),
        token(x, q0, word_or()) matches Ok(r) ==> (q0 < r <= x.len() ==> match and_expr(x, k, r) {
            Err(f) => or_rest(x, k, q0, acc) == if f.cut {
                Err::<(int, AstValue), Failure>(f)
            } else {
                Ok((q0, acc))
            },
            Ok((t2, right)) => or_rest(x, k, q0, acc) == if r <= t2 <= x.len() {
                or_rest(x, k, t2, AstValue::Or { left: Box::new(acc), right: Box::new(right) })
            } else {
                Ok((q0, acc))
            },
        }),
{
}

/// An `or` chain read in `s` that continues is read in the whole input.
#[verifier::rlimit(60)]
#[verifier::spinoff_prover]
proof fn lemma_or_rest(f: Frame, k: Known, q0: int, acc: AstValue)
    requires
        0 <= q0 <= f.s.len(),
        f.quiet(),
        or_rest(f.s, k, q0, acc) matches Ok((q, _)) && continues(f.s, k, q) && stops_after(
            f,
            q,
            word_and(),
        ) && stops_after(f, q, word_or()),
    ensures
        moved_ok(f, or_rest(f.s, k, q0, acc), or_rest(f.whole(), k, f.moved(q0), acc)),
    decreases f.s.len() - q0, 0int,
{
    let s = f.s;
    let x = f.whole();
    lemma_token(f, q0, word_or());
    lemma_moved(f, q0, s.len() as int);
    lemma_or_rest_steps(s, k, q0, acc);
    lemma_or_rest_steps(x, k, f.moved(q0), acc);
    if let Ok(r) = token(s, q0, word_or()) {
        lemma_and_or(s, q0);
        lemma_moved(f, q0, r);
        match and_expr(s, k, r) {
            Err(e) => {
                assert(!continues(s, k, q0));
            },
            Ok((t2, right)) => {
                if r <= t2 <= s.len() {
                    let next = AstValue::Or { left: Box::new(acc), right: Box::new(right) };
                    lemma_or_rest_continues(s, k, t2, next);
                    lemma_or_rest_steps(s, k, t2, next);
                    lemma_spaces(f, t2);
                    if spaces_end(s, t2) == s.len() {
                        assert(!has_word(s, spaces_end(s, t2), word_or()));
                    }
                    lemma_and_expr(f, k, r);
                    lemma_moved(f, r, t2);
                    lemma_or_rest(f, k, t2, next);
                } else {
                    lemma_and_expr_bound(s, k, r);
                }
            },
        }
    } else {
        lemma_stop_at(f, k, q0, word_or());
    }
}

/// An expression read in `s` that continues is read in the whole input.
#[verifier::spinoff_prover]
proof fn lemma_expr(f: Frame, k: Known, p: int)
    requires
        0 <= p <= f.s.len(),
        f.quiet(),
        expr(f.s, k, p) matches Ok((q, _)) && continues(f.s, k, q) && stops_after(
            f,
            q,
            word_and(),
        ) && stops_after(f, q, word_or()),
    ensures
        moved_ok(f, expr(f.s, k, p), expr(f.whole(), k, f.moved(p))),
    decreases f.s.len() - p, 5int,
{
    let (q1, first) = and_expr(f.s, k, p)->Ok_0;
    lemma_or_rest_continues(f.s, k, q1, first);
    lemma_or_rest_steps(f.s, k, q1, first);
    lemma_spaces(f, q1);
    if spaces_end(f.s, q1) == f.s.len() {
        assert(!has_word(f.s, spaces_end(f.s, q1), word_or()));
    }
    lemma_and_expr(f, k, p);
    lemma_moved(f, p, q1);
    lemma_or_rest(f, k, q1, first);
}

/// Skipping spaces stays within the input, and skipping them again skips nothing.
proof fn lemma_spaces_bound(x: Seq<char>, p: int)
    requires
        0 <= p <= x.len(),
    ensures
        p <= spaces_end(x, p) <= x.len(),
        spaces_end(x, spaces_end(x, p)) == spaces_end(x, p),
    decreases x.len() - p,
{
    if p < x.len() && is_space(x[p]) {
        lemma_spaces_bound(x, p + 1);
    }
}

/// A token that is read ends after where it starts, within the input.
proof fn lemma_token_bound(x: Seq<char>, p: int, w: Seq<char>)
    requires
        0 <= p <= x.len(),
        w.len() > 0,
    ensures
        token(x, p, w) matches Ok(q) ==> p < q <= x.len(),
{
    let a = spaces_end(x, p);
    lemma_spaces_bound(x, p);
    if has_word(x, a, w) {
        lemma_spaces_bound(x, a + w.len());
    }
}

/// A term that is read ends after where it starts, within the input.
proof fn lemma_term_bound(x: Seq<char>, k: Known, p: int)
    requires
        0 <= p <= x.len(),
    ensures
        term(x, k, p) matches Ok((q, _)) ==> p < q <= x.len(),
    decreases x.len() - p, 2int,
{
    lemma_token_bound(x, p, word_not());
    let start = match token(x, p, word_not()) {
        Ok(q) => q,
        Err(_) => p,
    };
    if p <= start <= x.len() {
        lemma_parens_bound(x, k, start);
        if func_call(x, k, start) is Ok {
            lemma_func_call(Frame { pre: Seq::empty(), s: x, post: Seq::empty() }, k, start);
        }
    }
}

/// An expression in parentheses that is read ends after where it starts, within the input.
proof fn lemma_parens_bound(x: Seq<char>, k: Known, p: int)
    requires
        0 <= p <= x.len(),
    ensures
        parens_expr(x, k, p) matches Ok((q, _)) ==> p < q <= x.len(),
    decreases x.len() - p, 1int,
{
    lemma_token_bound(x, p, seq!['(']);
    if let Ok(q) = token(x, p, seq!['(']) {
        if p < q <= x.len() {
            lemma_expr_bound(x, k, q);
            if let Ok((r, e)) = expr(x, k, q) {
                lemma_token_bound(x, r, seq![')']);
            }
        }
    }
}

/// An `and` chain ends where its first operand ends or further on, within the input.
proof fn lemma_and_rest_bound(x: Seq<char>, k: Known, q0: int, acc: AstValue)
    requires
        0 <= q0 <= x.len(),
    ensures
        and_rest(x, k, q0, acc) matches Ok((q, _)) ==> q0 <= q <= x.len(),
    decreases x.len() - q0, 0int,
{
    lemma_and_rest_steps(x, k, q0, acc);
    if let Ok(r) = token(x, q0, word_and()) {
        if q0 < r <= x.len() {
            if let Ok((t2, right)) = term(x, k, r) {
                if r <= t2 <= x.len() {
                    lemma_and_rest_bound(
                        x,
                        k,
                        t2,
                        AstValue::And { left: Box::new(acc), right: Box::new(right) },
                    );
                }
            }
        }
    }
}

/// An `and` group that is read ends after where it starts, within the input.
proof fn lemma_and_expr_bound(x: Seq<char>, k: Known, p: int)
    requires
        0 <= p <= x.len(),
    ensures
        and_expr(x, k, p) matches Ok((q, _)) ==> p < q <= x.len(),
    decreases x.len() - p, 3int,
{
    lemma_term_bound(x, k, p);
    if let Ok((q1, first)) = term(x, k, p) {
        lemma_and_rest_bound(x, k, q1, first);
    }
}

/// An `or` chain ends where its first operand ends or further on, within the input.
proof fn lemma_or_rest_bound(x: Seq<char>, k: Known, q0: int, acc: AstValue)
    requires
        0 <= q0 <= x.len(),
    ensures
        or_rest(x, k, q0, acc) matches Ok((q, _)) ==> q0 <= q <= x.len(),
    decreases x.len() - q0, 0int,
{
    lemma_or_rest_steps(x, k, q0, acc);
    if let Ok(r) = token(x, q0, word_or()) {
        if q0 < r <= x.len() {
            if let Ok((t2, right)) = and_expr(x, k, r) {
                if r <= t2 <= x.len() {
                    lemma_or_rest_bound(
                        x,
                        k,
                        t2,
                        AstValue::Or { left: Box::new(acc), right: Box::new(right) },
                    );
                }
            }
        }
    }
}

/// An expression that is read ends after where it starts, within the input.
proof fn lemma_expr_bound(x: Seq<char>, k: Known, p: int)
    requires
        0 <= p <= x.len(),
    ensures
        expr(x, k, p) matches Ok((q, _)) ==> p < q <= x.len(),
    decreases x.len() - p, 5int,
{
    lemma_and_expr_bound(x, k, p);
    if let Ok((q1, first)) = and_expr(x, k, p) {
        lemma_or_rest_bound(x, k, q1, first);
    }
}

/// Spaces before an expression in parentheses change nothing.
proof fn lemma_parens_from(x: Seq<char>, k: Known, p: int)
    requires
        0 <= p <= x.len(),
    ensures
        parens_expr(x, k, spaces_end(x, p)) == parens_expr(x, k, p),
{
    let a = spaces_end(x, p);
    lemma_spaces_bound(x, p);
    lemma_token_bound(x, a, seq!['(']);
    assert(token(x, a, seq!['(']) == token(x, p, seq!['(']));
}

/// Spaces before a term that is read change nothing.
proof fn lemma_term_from(x: Seq<char>, k: Known, p: int)
    requires
        0 <= p <= x.len(),
        term(x, k, p) is Ok,
    ensures
        term(x, k, spaces_end(x, p)) == term(x, k, p),
{
    let a = spaces_end(x, p);
    lemma_spaces_bound(x, p);
    if a != p {
        lemma_token_bound(x, a, word_not());
        assert(token(x, a, word_not()) == token(x, p, word_not()));
        lemma_parens_from(x, k, p);
        assert(func_name(x, p) is Err);
        assert(func_call(x, k, p) is Err);
    }
}

/// Spaces before a term that is read change nothing.
proof fn lemma_and_expr_from(x: Seq<char>, k: Known, p: int)
    requires
        0 <= p <= x.len(),
        and_expr(x, k, p) is Ok,
    ensures
        and_expr(x, k, spaces_end(x, p)) == and_expr(x, k, p),
        spaces_end(x, p) < x.len(),
{
    let a = spaces_end(x, p);
    lemma_spaces_bound(x, p);
    assert(term(x, k, p) is Ok);
    lemma_term_from(x, k, p);
    lemma_term_bound(x, k, a);
}

/// Spaces before an expression that is read change nothing.
proof fn lemma_expr_from(x: Seq<char>, k: Known, p: int)
    requires
        0 <= p <= x.len(),
        expr(x, k, p) is Ok,
    ensures
        expr(x, k, spaces_end(x, p)) == expr(x, k, p),
        spaces_end(x, p) < x.len(),
{
    let a = spaces_end(x, p);
    lemma_spaces_bound(x, p);
    lemma_and_expr_from(x, k, p);
    lemma_and_expr_bound(x, k, a);
}

/// `s` in parentheses.
pub open spec fn enclosed(s: Seq<char>) -> Seq<char> {
    seq!['('] + s + seq![')']
}

/// `s` in parentheses, as a frame.
pub open spec fn paren_frame(s: Seq<char>) -> Frame {
    Frame { pre: seq!['('], s, post: seq![')'] }
}

/// A `)` after `s` starts no name, and no word of the grammar but `)` itself.
proof fn lemma_paren_frame(s: Seq<char>)
    ensures
        paren_frame(s).whole() == enclosed(s),
        paren_frame(s).quiet(),
        paren_frame(s).blocks(word_and()),
        paren_frame(s).blocks(word_or()),
        spaces_end(seq![')'], 0) == 0,
{
    let f = paren_frame(s);
    assert(spaces_end(f.post, 0) == 0);
    assert(!has_word(f.post, 0, word_not()));
    assert(!has_word(f.post, 0, word_and()));
    assert(!has_word(f.post, 0, word_or()));
}

/// The text between the parentheses is read as it is read alone, one position further
/// on.
proof fn lemma_inside(s: Seq<char>, k: Known, t: AstValue)
    requires
        expr(s, k, 0) == Ok::<(int, AstValue), Failure>((s.len() as int, t)),
    ensures
        expr(enclosed(s), k, spaces_end(s, 0) + 1) == Ok::<(int, AstValue), Failure>(
            (s.len() + 1int, t),
        ),
{
    let f = paren_frame(s);
    lemma_paren_frame(s);
    lemma_expr_from(s, k, 0);
    assert(continues(s, k, s.len() as int));
    lemma_expr(f, k, spaces_end(s, 0));
}

/// Where `s` ends in `enclosed(s)` there is a `)`, and before it the characters of `s`,
/// one position further on.
proof fn lemma_enclosed(s: Seq<char>)
    ensures
        enclosed(s).len() == s.len() + 2,
        enclosed(s)[0] == '(',
        enclosed(s)[s.len() + 1int] == ')',
        forall|i: int| 0 <= i < s.len() ==> enclosed(s)[i + 1] == #[trigger] s[i],
{
}

/// The parentheses around the input are read around the expression inside.
proof fn lemma_around(s: Seq<char>, k: Known, t: AstValue)
    requires
        expr(enclosed(s), k, spaces_end(s, 0) + 1) == Ok::<(int, AstValue), Failure>(
            (s.len() + 1int, t),
        ),
    ensures
        parens_expr(enclosed(s), k, 0) == Ok::<(int, AstValue), Failure>((s.len() + 2int, t)),
{
    let n = s.len() as int;
    let big = enclosed(s);
    lemma_enclosed(s);
    lemma_paren_frame(s);
    lemma_spaces(paren_frame(s), 0);
    assert(has_word(big, 0, seq!['('])) by {
        assert(big.subrange(0, 1) =~= seq!['(']);
    }
    assert(spaces_end(big, 0) == 0);
    assert(token(big, 0, seq!['(']) == Ok::<int, Failure>(spaces_end(s, 0) + 1));
    assert(spaces_end(big, n + 1) == n + 1) by {
        assert(spaces_end(big, n + 2) == n + 2);
    }
    assert(has_word(big, n + 1, seq![')'])) by {
        assert(big.subrange(n + 1, n + 2) =~= seq![')']);
    }
    assert(token(big, n + 1, seq![')']) == Ok::<int, Failure>(n + 2));
}

/// Where no `not` stands, a term that is an expression in parentheses is that expression.
proof fn lemma_term_parens(x: Seq<char>, k: Known, p: int)
    requires
        0 <= p <= x.len(),
        token(x, p, word_not()) is Err,
        parens_expr(x, k, p) is Ok,
    ensures
        term(x, k, p) == parens_expr(x, k, p),
{
}

/// An `and` group whose first term is followed by nothing is that term.
proof fn lemma_and_expr_single(x: Seq<char>, k: Known, p: int)
    requires
        0 <= p <= x.len(),
        term(x, k, p) matches Ok((q, _)) && p <= q <= x.len() && token(x, q, word_and()) is Err,
    ensures
        and_expr(x, k, p) == term(x, k, p),
{
    let (q, first) = term(x, k, p)->Ok_0;
    lemma_and_rest_steps(x, k, q, first);
}

/// An expression whose first `and` group is followed by nothing is that group.
proof fn lemma_expr_single(x: Seq<char>, k: Known, p: int)
    requires
        0 <= p <= x.len(),
        and_expr(x, k, p) matches Ok((q, _)) && p <= q <= x.len() && token(x, q, word_or()) is Err,
    ensures
        expr(x, k, p) == and_expr(x, k, p),
{
    let (q, first) = and_expr(x, k, p)->Ok_0;
    lemma_or_rest_steps(x, k, q, first);
}

/// At both ends of `enclosed(s)` no `not`, `and` or `or` stands.
proof fn lemma_ends(s: Seq<char>)
    ensures
        spaces_end(enclosed(s), 0) == 0,
        token(enclosed(s), 0, word_not()) is Err,
        token(enclosed(s), s.len() + 2int, word_and()) is Err,
        token(enclosed(s), s.len() + 2int, word_or()) is Err,
{
    let n = s.len() as int;
    let big = enclosed(s);
    lemma_enclosed(s);
    assert(spaces_end(big, 0) == 0);
    assert(!has_word(big, 0, word_not())) by {
        if n + 2 >= 3 {
            assert(big.subrange(0, 3)[0] == big[0]);
        }
    }
    assert(spaces_end(big, n + 2) == n + 2);
}

/// An expression in parentheses that takes up the whole input is read as the whole input.
proof fn lemma_whole(s: Seq<char>, k: Known, t: AstValue)
    requires
        parens_expr(enclosed(s), k, 0) == Ok::<(int, AstValue), Failure>((s.len() + 2int, t)),
    ensures
        expr(enclosed(s), k, 0) == Ok::<(int, AstValue), Failure>((s.len() + 2int, t)),
{
    let big = enclosed(s);
    lemma_ends(s);
    assert(big.len() == s.len() + 2);
    lemma_term_parens(big, k, 0);
    lemma_and_expr_single(big, k, 0);
    lemma_expr_single(big, k, 0);
}

/// Parentheses around an input that is parsed as a whole change nothing: the input in
/// parentheses is parsed as the same expression.
pub proof fn law_parentheses_keep_parse(s: Seq<char>, k: Known, t: AstValue)
    requires
        parse_all(s, k) == Ok::<AstValue, Failure>(t),
    ensures
        parse_all(enclosed(s), k) == Ok::<AstValue, Failure>(t),
{
    reveal(parse_all);
    assert(expr(s, k, 0) == Ok::<(int, AstValue), Failure>((s.len() as int, t)));
    lemma_inside(s, k, t);
    lemma_around(s, k, t);
    lemma_whole(s, k, t);
    assert(enclosed(s).len() == s.len() + 2);
}

/// Parentheses add no node: where an expression takes up all of `s`, the expression in
/// parentheses takes up all of `(` + `s` + `)` and gives the same tree.
pub proof fn law_parens_expr_keeps_tree(s: Seq<char>, k: Known, t: AstValue)
    requires
        expr(s, k, 0) == Ok::<(int, AstValue), Failure>((s.len() as int, t)),
    ensures
        parens_expr(enclosed(s), k, 0) == Ok::<(int, AstValue), Failure>((s.len() + 2int, t)),
{
    lemma_inside(s, k, t);
    lemma_around(s, k, t);
}

/// Joining two lists of texts, each with one or more, joins their joinings.
proof fn lemma_joined_concat(a: Seq<Seq<char>>, b: Seq<Seq<char>>, sep: Seq<char>)
    requires
        a.len() >= 1,
        b.len() >= 1,
    ensures
        joined(a + b, sep) == joined(a, sep) + sep + joined(b, sep),
    decreases b.len(),
{
    if b.len() == 1 {
        assert((a + b).drop_last() =~= a);
        assert((a + b).last() == b[0]);
    } else {
        lemma_joined_concat(a, b.drop_last(), sep);
        assert((a + b).drop_last() =~= a + b.drop_last());
        assert((a + b).last() == b.last());
        assert(joined(b, sep) == joined(b.drop_last(), sep) + sep + b.last());
    }
}

/// The `i`-th of `texts` within their joining by `sep`.
pub open spec fn operand_frame(texts: Seq<Seq<char>>, sep: Seq<char>, i: int) -> Frame {
    Frame {
        pre: if i == 0 {
            Seq::empty()
        } else {
            joined(texts.take(i), sep) + sep
        },
        s: texts[i],
        post: if i == texts.len() - 1 {
            Seq::empty()
        } else {
            sep + joined(texts.skip(i + 1), sep)
        },
    }
}

/// The frames of the operands cover their joining, one after another.
proof fn lemma_operand_frame(texts: Seq<Seq<char>>, sep: Seq<char>, i: int)
    requires
        0 <= i < texts.len(),
    ensures
        operand_frame(texts, sep, i).whole() == joined(texts, sep),
        i + 1 < texts.len() ==> operand_frame(texts, sep, i + 1).pre.len() == operand_frame(
            texts,
            sep,
            i,
        ).pre.len() + texts[i].len() + sep.len(),
        i + 1 < texts.len() ==> operand_frame(texts, sep, i).post.subrange(0, sep.len() as int)
            == sep,
{
    let f = operand_frame(texts, sep, i);
    let n = texts.len() as int;
    let one = seq![texts[i]];
    if n == 1 {
        assert(f.whole() =~= texts[0]);
    } else if i == 0 {
        assert(texts =~= one + texts.skip(1));
        lemma_joined_concat(one, texts.skip(1), sep);
        assert(f.whole() =~= joined(texts, sep));
    } else if i == n - 1 {
        assert(texts =~= texts.take(i) + one);
        lemma_joined_concat(texts.take(i), one, sep);
        assert(f.whole() =~= joined(texts, sep));
    } else {
        assert(texts =~= texts.take(i) + (one + texts.skip(i + 1)));
        lemma_joined_concat(one, texts.skip(i + 1), sep);
        lemma_joined_concat(texts.take(i), one + texts.skip(i + 1), sep);
        assert(f.whole() =~= joined(texts, sep));
    }
    if i + 1 < n {
        let g = operand_frame(texts, sep, i + 1);
        if i == 0 {
            assert(texts.take(1) =~= one);
        } else {
            assert(texts.take(i + 1) =~= texts.take(i) + one);
            lemma_joined_concat(texts.take(i), one, sep);
        }
        assert(f.post.subrange(0, sep.len() as int) =~= sep);
    }
}

/// After an operand that is not the last, the whole input goes on with `sep`.
proof fn lemma_after_operand(texts: Seq<Seq<char>>, sep: Seq<char>, i: int, j: int)
    requires
        0 <= i < texts.len() - 1,
        0 <= j < sep.len(),
    ensures
        ({
            let f = operand_frame(texts, sep, i);
            joined(texts, sep)[f.pre.len() + f.s.len() + j] == sep[j]
        }),
{
    let f = operand_frame(texts, sep, i);
    lemma_operand_frame(texts, sep, i);
    lemma_frame(f);
    assert(f.post.subrange(0, sep.len() as int)[j] == f.post[j]);
}

/// Where `post` starts with ` ` and then the character `c`, which starts neither `not`
/// nor `and` nor `or` unless it is `c`'s own word, the frame is quiet and its spaces end
/// after one.
proof fn lemma_spaced_post(f: Frame)
    requires
        f.post.len() == 0 || (f.post.len() >= 2 && f.post[0] == ' ' && (f.post[1] == 'o'
            || f.post[1] == 'a')),
    ensures
        f.quiet(),
        spaces_end(f.post, 0) == if f.post.len() == 0 {
            0int
        } else {
            1int
        },
        f.post.len() > 0 && f.post[1] == 'o' ==> f.blocks(word_and()),
{
    if f.post.len() > 0 {
        assert(spaces_end(f.post, 1) == 1);
        if has_word(f.post, 1, word_not()) {
            assert(f.post.subrange(1, 4)[0] == f.post[1]);
        }
        if has_word(f.post, 1, word_and()) {
            assert(f.post.subrange(1, 4)[0] == f.post[1]);
        }
    }
}

/// After an operand of an `or` chain that is not the last, and the one space after it,
/// stand `o`, `r` and a space, and then the next operand.
proof fn lemma_or_sep_chars(texts: Seq<Seq<char>>, i: int)
    requires
        0 <= i < texts.len() - 1,
    ensures
        ({
            let x = joined(texts, or_sep());
            let f = operand_frame(texts, or_sep(), i);
            let g = operand_frame(texts, or_sep(), i + 1);
            let q = (f.pre.len() + f.s.len() + 1) as int;
            &&& f.moved(f.s.len() as int) == q
            &&& x[q - 1] == ' ' && x[q] == 'o' && x[q + 1] == 'r' && x[q + 2] == ' '
            &&& g.pre.len() == q + 3
            &&& g.whole() == x
        }),
{
    let sep = or_sep();
    let f = operand_frame(texts, sep, i);
    lemma_operand_frame(texts, sep, i);
    lemma_operand_frame(texts, sep, i + 1);
    lemma_after_operand(texts, sep, i, 0);
    lemma_after_operand(texts, sep, i, 1);
    lemma_after_operand(texts, sep, i, 2);
    lemma_after_operand(texts, sep, i, 3);
    assert(f.post[1] == f.post.subrange(0, 4)[1]);
    assert(f.post[0] == f.post.subrange(0, 4)[0]);
    lemma_spaced_post(f);
}

/// Where the next operand of an `or` chain starts, after ` or ` and its own spaces.
proof fn lemma_or_next(texts: Seq<Seq<char>>, i: int)
    requires
        0 <= i < texts.len() - 1,
        spaces_end(texts[i + 1], 0) < texts[i + 1].len(),
    ensures
        ({
            let f = operand_frame(texts, or_sep(), i);
            let g = operand_frame(texts, or_sep(), i + 1);
            let q = (f.pre.len() + f.s.len() + 1) as int;
            &&& f.moved(f.s.len() as int) == q
            &&& token(joined(texts, or_sep()), q, word_or()) == Ok::<int, Failure>(
                g.moved(spaces_end(g.s, 0)),
            )
            &&& q < g.moved(spaces_end(g.s, 0)) <= joined(texts, or_sep()).len()
        }),
{
    let sep = or_sep();
    let x = joined(texts, sep);
    let f = operand_frame(texts, sep, i);
    let g = operand_frame(texts, sep, i + 1);
    let q = (f.pre.len() + f.s.len() + 1) as int;
    lemma_or_sep_chars(texts, i);
    lemma_spaces(g, 0);
    lemma_moved(g, spaces_end(g.s, 0), g.s.len() as int);
    assert(spaces_end(x, q) == q);
    assert(x.subrange(q, q + 2) =~= word_or());
    assert(spaces_end(x, q + 2) == spaces_end(x, q + 3));
}

/// One step of an `or` chain of operands: after the `i`-th, ` or ` and the next one are
/// read.
proof fn lemma_or_chain_step(
    texts: Seq<Seq<char>>,
    trees: Seq<AstValue>,
    k: Known,
    i: int,
    acc: AstValue,
)
    requires
        0 <= i < texts.len() - 1,
        trees.len() == texts.len(),
        and_expr(texts[i + 1], k, 0) == Ok::<(int, AstValue), Failure>(
            (texts[i + 1].len() as int, trees[i + 1]),
        ),
    ensures
        ({
            let f = operand_frame(texts, or_sep(), i);
            let g = operand_frame(texts, or_sep(), i + 1);
            or_rest(joined(texts, or_sep()), k, f.moved(f.s.len() as int), acc) == or_rest(
                joined(texts, or_sep()),
                k,
                g.moved(g.s.len() as int),
                AstValue::Or { left: Box::new(acc), right: Box::new(trees[i + 1]) },
            )
        }),
{
    let sep = or_sep();
    let x = joined(texts, sep);
    let g = operand_frame(texts, sep, i + 1);
    let a = spaces_end(g.s, 0);
    lemma_and_expr_from(g.s, k, 0);
    lemma_or_next(texts, i);
    lemma_operand_frame(texts, sep, i + 1);
    if i + 1 < texts.len() - 1 {
        lemma_after_operand(texts, sep, i + 1, 0);
        lemma_after_operand(texts, sep, i + 1, 1);
        lemma_operand_frame(texts, sep, i + 1);
        assert(g.post[1] == g.post.subrange(0, 4)[1]);
        assert(g.post[0] == g.post.subrange(0, 4)[0]);
    }
    lemma_spaced_post(g);
    assert(continues(g.s, k, g.s.len() as int));
    lemma_and_expr(g, k, a);
    lemma_moved(g, a, g.s.len() as int);
    let f = operand_frame(texts, sep, i);
    lemma_or_rest_steps(x, k, f.moved(f.s.len() as int), acc);
}

/// From the `i`-th operand on, an `or` chain of operands reads to the end and folds them
/// onto what was read before.
proof fn lemma_or_chain_from(
    texts: Seq<Seq<char>>,
    trees: Seq<AstValue>,
    k: Known,
    i: int,
)
    requires
        0 <= i < texts.len(),
        trees.len() == texts.len(),
        forall|j: int|
            0 <= j < texts.len() ==> #[trigger] and_expr(texts[j], k, 0) == Ok::<
                (int, AstValue),
                Failure,
            >((texts[j].len() as int, trees[j])),
    ensures
        ({
            let f = operand_frame(texts, or_sep(), i);
            or_rest(joined(texts, or_sep()), k, f.moved(f.s.len() as int), or_fold(trees.take(i + 1)))
                == Ok::<(int, AstValue), Failure>(
                (joined(texts, or_sep()).len() as int, or_fold(trees)),
            )
        }),
    decreases texts.len() - i,
{
    let sep = or_sep();
    let x = joined(texts, sep);
    let f = operand_frame(texts, sep, i);
    lemma_operand_frame(texts, sep, i);
    lemma_frame(f);
    if i == texts.len() - 1 {
        assert(trees.take(i + 1) =~= trees);
        assert(f.moved(f.s.len() as int) == x.len());
        lemma_or_rest_steps(x, k, x.len() as int, or_fold(trees));
        assert(spaces_end(x, x.len() as int) == x.len());
    } else {
        assert(and_expr(texts[i + 1], k, 0) == Ok::<(int, AstValue), Failure>(
            (texts[i + 1].len() as int, trees[i + 1]),
        ));
        lemma_or_chain_step(texts, trees, k, i, or_fold(trees.take(i + 1)));
        lemma_or_chain_from(texts, trees, k, i + 1);
        assert(trees.take(i + 2).drop_last() =~= trees.take(i + 1));
        assert(trees.take(i + 2).last() == trees[i + 1]);
    }
}

/// However many operands a chain of `or` joins, and however they are spaced, it is read
/// as their left fold: where each text of `texts` is read whole as an `and` group, giving
/// the tree of `trees` at the same place, `texts` joined by ` or ` are read whole as
/// `((trees[0] or trees[1]) or ...) or trees[n - 1]`.
pub proof fn law_or_chain_of_groups(texts: Seq<Seq<char>>, trees: Seq<AstValue>, k: Known)
    requires
        texts.len() >= 1,
        trees.len() == texts.len(),
        forall|i: int|
            0 <= i < texts.len() ==> #[trigger] and_expr(texts[i], k, 0) == Ok::<
                (int, AstValue),
                Failure,
            >((texts[i].len() as int, trees[i])),
    ensures
        or_expr(joined(texts, or_sep()), k, 0) == Ok::<(int, AstValue), Failure>(
            (joined(texts, or_sep()).len() as int, or_fold(trees)),
        ),
        parse_all(joined(texts, or_sep()), k) == Ok::<AstValue, Failure>(or_fold(trees)),
{
    let sep = or_sep();
    let x = joined(texts, sep);
    let f = operand_frame(texts, sep, 0);
    assert(and_expr(texts[0], k, 0) == Ok::<(int, AstValue), Failure>(
        (texts[0].len() as int, trees[0]),
    ));
    lemma_operand_frame(texts, sep, 0);
    if texts.len() > 1 {
        lemma_after_operand(texts, sep, 0, 0);
        lemma_after_operand(texts, sep, 0, 1);
        assert(f.post[1] == f.post.subrange(0, 4)[1]);
        assert(f.post[0] == f.post.subrange(0, 4)[0]);
    }
    lemma_spaced_post(f);
    assert(continues(f.s, k, f.s.len() as int));
    lemma_and_expr(f, k, 0);
    lemma_moved(f, 0, f.s.len() as int);
    lemma_or_chain_from(texts, trees, k, 0);
    assert(trees.take(1).len() == 1);
    assert(or_fold(trees.take(1)) == trees[0]);
    reveal(parse_all);
}

/// After an operand of an `and` chain that is not the last, and the one space after it,
/// stand `a`, `n`, `d` and a space, and then the next operand.
proof fn lemma_and_sep_chars(texts: Seq<Seq<char>>, i: int)
    requires
        0 <= i < texts.len() - 1,
    ensures
        ({
            let x = joined(texts, and_sep());
            let f = operand_frame(texts, and_sep(), i);
            let g = operand_frame(texts, and_sep(), i + 1);
            let q = (f.pre.len() + f.s.len() + 1) as int;
            &&& f.moved(f.s.len() as int) == q
            &&& x[q - 1] == ' ' && x[q] == 'a' && x[q + 1] == 'n' && x[q + 2] == 'd' && x[q + 3]
                == ' '
            &&& g.pre.len() == q + 4
            &&& g.whole() == x
        }),
{
    let sep = and_sep();
    let f = operand_frame(texts, sep, i);
    lemma_operand_frame(texts, sep, i);
    lemma_operand_frame(texts, sep, i + 1);
    lemma_after_operand(texts, sep, i, 0);
    lemma_after_operand(texts, sep, i, 1);
    lemma_after_operand(texts, sep, i, 2);
    lemma_after_operand(texts, sep, i, 3);
    lemma_after_operand(texts, sep, i, 4);
    assert(f.post[1] == f.post.subrange(0, 5)[1]);
    assert(f.post[0] == f.post.subrange(0, 5)[0]);
    lemma_spaced_post(f);
}

/// Where the next operand of an `and` chain starts, after ` and ` and its own spaces.
proof fn lemma_and_next(texts: Seq<Seq<char>>, i: int)
    requires
        0 <= i < texts.len() - 1,
        spaces_end(texts[i + 1], 0) < texts[i + 1].len(),
    ensures
        ({
            let f = operand_frame(texts, and_sep(), i);
            let g = operand_frame(texts, and_sep(), i + 1);
            let q = (f.pre.len() + f.s.len() + 1) as int;
            &&& f.moved(f.s.len() as int) == q
            &&& token(joined(texts, and_sep()), q, word_and()) == Ok::<int, Failure>(
                g.moved(spaces_end(g.s, 0)),
            )
            &&& q < g.moved(spaces_end(g.s, 0)) <= joined(texts, and_sep()).len()
        }),
{
    let sep = and_sep();
    let x = joined(texts, sep);
    let f = operand_frame(texts, sep, i);
    let g = operand_frame(texts, sep, i + 1);
    let q = (f.pre.len() + f.s.len() + 1) as int;
    lemma_and_sep_chars(texts, i);
    lemma_spaces(g, 0);
    lemma_moved(g, spaces_end(g.s, 0), g.s.len() as int);
    assert(spaces_end(x, q) == q);
    assert(x.subrange(q, q + 3) =~= word_and());
    assert(spaces_end(x, q + 3) == spaces_end(x, q + 4));
}

/// One step of an `and` chain of operands: after the `i`-th, ` and ` and the next one are
/// read.
proof fn lemma_and_chain_step(
    texts: Seq<Seq<char>>,
    trees: Seq<AstValue>,
    k: Known,
    i: int,
    acc: AstValue,
)
    requires
        0 <= i < texts.len() - 1,
        trees.len() == texts.len(),
        term(texts[i + 1], k, 0) == Ok::<(int, AstValue), Failure>(
            (texts[i + 1].len() as int, trees[i + 1]),
        ),
    ensures
        ({
            let f = operand_frame(texts, and_sep(), i);
            let g = operand_frame(texts, and_sep(), i + 1);
            and_rest(joined(texts, and_sep()), k, f.moved(f.s.len() as int), acc) == and_rest(
                joined(texts, and_sep()),
                k,
                g.moved(g.s.len() as int),
                AstValue::And { left: Box::new(acc), right: Box::new(trees[i + 1]) },
            )
        }),
{
    let sep = and_sep();
    let x = joined(texts, sep);
    let g = operand_frame(texts, sep, i + 1);
    let a = spaces_end(g.s, 0);
    lemma_spaces_bound(g.s, 0);
    lemma_term_from(g.s, k, 0);
    lemma_term_bound(g.s, k, a);
    lemma_and_next(texts, i);
    lemma_operand_frame(texts, sep, i + 1);
    if i + 1 < texts.len() - 1 {
        lemma_after_operand(texts, sep, i + 1, 0);
        lemma_after_operand(texts, sep, i + 1, 1);
        assert(g.post[1] == g.post.subrange(0, 5)[1]);
        assert(g.post[0] == g.post.subrange(0, 5)[0]);
    }
    lemma_spaced_post(g);
    assert(continues(g.s, k, g.s.len() as int));
    lemma_term(g, k, a);
    lemma_moved(g, a, g.s.len() as int);
    let f = operand_frame(texts, sep, i);
    lemma_and_rest_steps(x, k, f.moved(f.s.len() as int), acc);
}

/// From the `i`-th operand on, an `and` chain of operands reads to the end and folds them
/// onto what was read before.
proof fn lemma_and_chain_from(
    texts: Seq<Seq<char>>,
    trees: Seq<AstValue>,
    k: Known,
    i: int,
)
    requires
        0 <= i < texts.len(),
        trees.len() == texts.len(),
        forall|j: int|
            0 <= j < texts.len() ==> #[trigger] term(texts[j], k, 0) == Ok::<
                (int, AstValue),
                Failure,
            >((texts[j].len() as int, trees[j])),
    ensures
        ({
            let f = operand_frame(texts, and_sep(), i);
            and_rest(
                joined(texts, and_sep()),
                k,
                f.moved(f.s.len() as int),
                and_fold(trees.take(i + 1)),
            ) == Ok::<(int, AstValue), Failure>(
                (joined(texts, and_sep()).len() as int, and_fold(trees)),
            )
        }),
    decreases texts.len() - i,
{
    let sep = and_sep();
    let x = joined(texts, sep);
    let f = operand_frame(texts, sep, i);
    lemma_operand_frame(texts, sep, i);
    lemma_frame(f);
    if i == texts.len() - 1 {
        assert(trees.take(i + 1) =~= trees);
        assert(f.moved(f.s.len() as int) == x.len());
        lemma_and_rest_steps(x, k, x.len() as int, and_fold(trees));
        assert(spaces_end(x, x.len() as int) == x.len());
    } else {
        assert(term(texts[i + 1], k, 0) == Ok::<(int, AstValue), Failure>(
            (texts[i + 1].len() as int, trees[i + 1]),
        ));
        lemma_and_chain_step(texts, trees, k, i, and_fold(trees.take(i + 1)));
        lemma_and_chain_from(texts, trees, k, i + 1);
        assert(trees.take(i + 2).drop_last() =~= trees.take(i + 1));
        assert(trees.take(i + 2).last() == trees[i + 1]);
    }
}

/// However many operands a chain of `and` joins, and however they are spaced, it is read
/// as their left fold: where each text of `texts` is read whole as a term, giving the
/// tree of `trees` at the same place, `texts` joined by ` and ` are read whole as
/// `((trees[0] and trees[1]) and ...) and trees[n - 1]`.
pub proof fn law_and_chain_of_terms(texts: Seq<Seq<char>>, trees: Seq<AstValue>, k: Known)
    requires
        texts.len() >= 1,
        trees.len() == texts.len(),
        forall|i: int|
            0 <= i < texts.len() ==> #[trigger] term(texts[i], k, 0) == Ok::<
                (int, AstValue),
                Failure,
            >((texts[i].len() as int, trees[i])),
    ensures
        and_expr(joined(texts, and_sep()), k, 0) == Ok::<(int, AstValue), Failure>(
            (joined(texts, and_sep()).len() as int, and_fold(trees)),
        ),
        parse_all(joined(texts, and_sep()), k) == Ok::<AstValue, Failure>(and_fold(trees)),
{
    let sep = and_sep();
    let x = joined(texts, sep);
    let f = operand_frame(texts, sep, 0);
    assert(term(texts[0], k, 0) == Ok::<(int, AstValue), Failure>(
        (texts[0].len() as int, trees[0]),
    ));
    lemma_operand_frame(texts, sep, 0);
    if texts.len() > 1 {
        lemma_after_operand(texts, sep, 0, 0);
        lemma_after_operand(texts, sep, 0, 1);
        assert(f.post[1] == f.post.subrange(0, 5)[1]);
        assert(f.post[0] == f.post.subrange(0, 5)[0]);
    }
    lemma_spaced_post(f);
    assert(continues(f.s, k, f.s.len() as int));
    lemma_term(f, k, 0);
    lemma_moved(f, 0, f.s.len() as int);
    lemma_and_chain_from(texts, trees, k, 0);
    assert(trees.take(1).len() == 1);
    assert(and_fold(trees.take(1)) == trees[0]);
    lemma_or_rest_steps(x, k, x.len() as int, and_fold(trees));
    assert(spaces_end(x, x.len() as int) == x.len());
    reveal(parse_all);
}

} // verus!
