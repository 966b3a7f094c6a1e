//! The parser context: the functions that an expression may call, with the kinds of
//! their arguments.
use vstd::prelude::*;

use super::ast::{kind_of, kinds_of, AstValue, PrimitiveValue, Primitives, PrimitivesTypes};
use super::error::ErrorContext;
use super::grammar;

verus! {

/// The declared argument kinds of the last entry named `n`, if any.
pub open spec fn lookup(entries: Seq<(String, Vec<PrimitivesTypes>)>, n: Seq<char>) -> Option<
    Seq<PrimitivesTypes>,
>
    decreases entries.len(),
{
    if entries.len() == 0 {
        None
    } else if entries.last().0@ == n {
        Some(entries.last().1@)
    } else {
        lookup(entries.drop_last(), n)
    }
}

/// A table from function names to the kinds of their arguments; inserting a name that
/// is already there replaces its kinds.
pub struct KnownFunctions {
    entries: Vec<(String, Vec<PrimitivesTypes>)>,
}

impl View for KnownFunctions {
    type V = Map<Seq<char>, Seq<PrimitivesTypes>>;

    closed spec fn view(&self) -> Map<Seq<char>, Seq<PrimitivesTypes>> {
        Map::new(
            |n: Seq<char>| lookup(self.entries@, n) is Some,
            |n: Seq<char>| lookup(self.entries@, n)->0,
        )
    }
}

impl KnownFunctions {
    /// An empty table.
    pub fn new() -> (t: KnownFunctions)
        ensures
            t@ == Map::<Seq<char>, Seq<PrimitivesTypes>>::empty(),
    {
        let t = KnownFunctions { entries: Vec::new() };
        assert(t@ =~= Map::<Seq<char>, Seq<PrimitivesTypes>>::empty());
        t
    }

    /// Declares the function `name` with arguments of the kinds `kinds`.
    pub fn insert(&mut self, name: String, kinds: Vec<PrimitivesTypes>)
        ensures
            final(self)@ == old(self)@.insert(name@, kinds@),
    {
        let ghost before = self@;
        self.entries.push((name, kinds));
        assert(self@ =~= before.insert(name@, kinds@)) by {
            assert(self.entries@.drop_last() =~= old(self).entries@);
        }
    }

    /// The declared argument kinds of `name`, if it is declared.
    pub fn get(&self, name: &String) -> (r: Option<&Vec<PrimitivesTypes>>)
        ensures
            match r {
                Some(kinds) => self@.contains_key(name@) && self@[name@] == kinds@,
                None => !self@.contains_key(name@),
            },
    {
        let mut i = self.entries.len();
        assert(self.entries@.take(i as int) =~= self.entries@);
        while i > 0
            invariant
                i <= self.entries@.len(),
                lookup(self.entries@, name@) == lookup(self.entries@.take(i as int), name@),
            decreases i,
        {
            let ghost prefix = self.entries@.take(i as int);
            assert(prefix.drop_last() =~= self.entries@.take(i - 1));
            if self.entries[i - 1].0 == *name {
                return Some(&self.entries[i - 1].1);
            }
            i = i - 1;
        }
        assert(self.entries@.take(0) =~= Seq::<(String, Vec<PrimitivesTypes>)>::empty());
        None
    }
}

/// Whether the literals `args` have the kinds `kinds`, in order.
pub fn kinds_match(kinds: &Vec<PrimitivesTypes>, args: &Vec<Primitives>) -> (b: bool)
    ensures
        b == (kinds@ == super::ast::kinds_of(super::ast::args_value(args@))),
        b == (kinds@.len() == args@.len() && forall|i: int|
            0 <= i < args@.len() ==> kinds@[i] == match #[trigger] args@[i] {
                Primitives::Bool(_) => PrimitivesTypes::Bool,
                Primitives::String(_) => PrimitivesTypes::String,
                Primitives::Int(_) => PrimitivesTypes::Int,
            }),
{
    proof {
        lemma_kinds_of(super::ast::args_value(args@));
        assert forall|i: int| 0 <= i < args@.len() implies super::ast::args_value(args@)[i]
            == args@[i]@ by {}
    }
    let ghost want = super::ast::kinds_of(super::ast::args_value(args@));
    if kinds.len() != args.len() {
        assert(want.len() == args@.len());
        return false;
    }
    let mut i: usize = 0;
    while i < kinds.len()
        invariant
            kinds@.len() == args@.len(),
            want == super::ast::kinds_of(super::ast::args_value(args@)),
            want.len() == args@.len(),
            i <= kinds@.len(),
            kinds@.subrange(0, i as int) == want.subrange(0, i as int),
        decreases kinds.len() - i,
    {
        let k = match &args[i] {
            Primitives::Bool(_) => PrimitivesTypes::Bool,
            Primitives::String(_) => PrimitivesTypes::String,
            Primitives::Int(_) => PrimitivesTypes::Int,
        };
        assert(k == kind_of(args@[i as int]@));
        assert(want[i as int] == k);
        if kinds[i] != k {
            assert(kinds@[i as int] != want[i as int]);
            return false;
        }
        i = i + 1;
        assert(kinds@.subrange(0, i as int) =~= want.subrange(0, i as int));
    }
    assert(kinds@ =~= kinds@.subrange(0, i as int));
    assert(want =~= want.subrange(0, i as int));
    true
}

/// What the parser knows: the functions that an expression may call, and the text that
/// errors report as the whole input.
pub struct ParserContext {
    pub known_functions: KnownFunctions,
    pub original_input: String,
}

/// The kinds of literal values, one for one: `true` and `false` are of kind `Bool`, quoted
/// strings of kind `String`, integers of kind `Int`.
proof fn lemma_kinds_of(args: Seq<PrimitiveValue>)
    ensures
        kinds_of(args).len() == args.len(),
        forall|i: int|
            0 <= i < args.len() ==> kinds_of(args)[i] == match #[trigger] args[i] {
                PrimitiveValue::Bool(_) => PrimitivesTypes::Bool,
                PrimitiveValue::Text(_) => PrimitivesTypes::String,
                PrimitiveValue::Int(_) => PrimitivesTypes::Int,
            },
{
}

/// With a table of known functions, a call is kept exactly when the table declares its
/// name with the kinds of its arguments, one for one, no more and no fewer: `true` and
/// `false` are of kind `Bool`, quoted strings of kind `String`, integers of kind `Int`.
/// Any other call that is read is refused for good where it starts, saying what was
/// expected; what is not read as a call fails just as it does without a table.
pub proof fn law_calls_checked(s: Seq<char>, m: Map<Seq<char>, Seq<PrimitivesTypes>>, p: int)
    ensures
        grammar::func_call(s, None, p) matches Ok((u, v)) ==> (v matches AstValue::Func {
            name,
            args,
        } && grammar::func_call(s, Some(m), p) == if !m.contains_key(name) {
            Err::<(int, AstValue), grammar::Failure>(
                grammar::Failure {
                    pos: p,
                    context: seq![ErrorContext::ExpectedKnownFunction, ErrorContext::FunctionCall],
                    cut: true,
                },
            )
        } else if m[name].len() == args.len() && forall|i: int|
            0 <= i < args.len() ==> m[name][i] == match #[trigger] args[i] {
                PrimitiveValue::Bool(_) => PrimitivesTypes::Bool,
                PrimitiveValue::Text(_) => PrimitivesTypes::String,
                PrimitiveValue::Int(_) => PrimitivesTypes::Int,
            } {
            Ok((u, v))
        } else {
            Err(
                grammar::Failure {
                    pos: p,
                    context: seq![
                        ErrorContext::ExpectedDeclaredArguments,
                        ErrorContext::FunctionCall,
                    ],
                    cut: true,
                },
            )
        }),
        grammar::func_call(s, None, p) is Err ==> grammar::func_call(s, Some(m), p)
            == grammar::func_call(s, None, p),
{
    if let Ok((u, v)) = grammar::func_call(s, None, p) {
        let (q, name) = grammar::func_name(s, p)->Ok_0;
        let r = grammar::token(s, q, seq!['('])->Ok_0;
        let (t, args) = grammar::literals(s, r);
        let u2 = grammar::token(s, t, seq![')'])->Ok_0;
        assert(u == u2 && v == (AstValue::Func { name, args }));
        assert(grammar::func_call(s, Some(m), p) == grammar::within(
            grammar::check_call(Some(m), p, u, name, args),
            ErrorContext::FunctionCall,
        ));
        assert(seq![ErrorContext::ExpectedKnownFunction].push(ErrorContext::FunctionCall)
            =~= seq![ErrorContext::ExpectedKnownFunction, ErrorContext::FunctionCall]);
        assert(seq![ErrorContext::ExpectedDeclaredArguments].push(ErrorContext::FunctionCall)
            =~= seq![ErrorContext::ExpectedDeclaredArguments, ErrorContext::FunctionCall]);
        {
            lemma_kinds_of(args);
            if m.contains_key(name) && m[name].len() == args.len() {
                if forall|i: int|
                    0 <= i < args.len() ==> m[name][i] == match #[trigger] args[i] {
                        PrimitiveValue::Bool(_) => PrimitivesTypes::Bool,
                        PrimitiveValue::Text(_) => PrimitivesTypes::String,
                        PrimitiveValue::Int(_) => PrimitivesTypes::Int,
                    } {
                    assert(m[name] =~= kinds_of(args));
                }
            }
        }
    }
}

} // verus!
