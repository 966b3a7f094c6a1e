//! The sample evaluator of the command-line demo: four request predicates that each
//! compare their single string argument with a fixed value.
use vstd::prelude::*;

use crate::lang::ast::{EvaluatorError, Primitives};
use crate::lang::text::str_eq;

verus! {

/// The (empty) request that the demo evaluates against.
pub struct Context;

/// The text of the single string argument, if the arguments are exactly one string.
pub open spec fn single_string(args: Seq<Primitives>) -> Option<Seq<char>> {
    if args.len() == 1 && args[0] is String {
        Some(args[0]->String_0@)
    } else {
        None
    }
}

/// `res` is the answer of a predicate that holds when its single string argument is
/// `expected`, and that complains with `complaint` about any other arguments.
pub open spec fn answers(
    res: Result<bool, EvaluatorError>,
    args: Seq<Primitives>,
    expected: Seq<char>,
    complaint: Seq<char>,
) -> bool {
    match single_string(args) {
        Some(v) => res == Ok::<bool, EvaluatorError>(v == expected),
        None => res matches Err(EvaluatorError::InvalidArguments(m)) && m@ == complaint,
    }
}

/// Compares the single string argument with `expected`.
fn check_single_string(args: &Vec<Primitives>, expected: &str, complaint: &str) -> (res: Result<
    bool,
    EvaluatorError,
>)
    requires
        args.len() >= 1,
    ensures
        answers(res, args@, expected@, complaint@),
{
    let first = &args[0];
    if let Primitives::String(value) = first {
        if args.len() == 1 {
            return Ok(str_eq(value.as_str(), expected));
        }
    }
    Err(EvaluatorError::InvalidArguments(complaint.to_owned()))
}

/// Holds when the single string argument is `/api`.
pub fn path_prefix(_ctx: &Context, args: &Vec<Primitives>) -> (res: Result<bool, EvaluatorError>)
    requires
        args.len() >= 1,
    ensures
        answers(res, args@, "/api"@, "'path_prefix' - expected string argument"@),
{
    check_single_string(args, "/api", "'path_prefix' - expected string argument")
}

/// Holds when the single string argument is `GET`.
pub fn method(_ctx: &Context, args: &Vec<Primitives>) -> (res: Result<bool, EvaluatorError>)
    requires
        args.len() >= 1,
    ensures
        answers(res, args@, "GET"@, "'method' - expected string argument"@),
{
    check_single_string(args, "GET", "'method' - expected string argument")
}

/// Holds when the single string argument is `X-API-KEY`.
pub fn has_header(_ctx: &Context, args: &Vec<Primitives>) -> (res: Result<bool, EvaluatorError>)
    requires
        args.len() >= 1,
    ensures
        answers(res, args@, "X-API-KEY"@, "'has_header' - expected string argument"@),
{
    check_single_string(args, "X-API-KEY", "'has_header' - expected string argument")
}

/// Holds when the single string argument is `version`.
pub fn has_query(_ctx: &Context, args: &Vec<Primitives>) -> (res: Result<bool, EvaluatorError>)
    requires
        args.len() >= 1,
    ensures
        answers(res, args@, "version"@, "'has_query' - expected string argument"@),
{
    check_single_string(args, "version", "'has_query' - expected string argument")
}

/// The names of the demo's predicates.
pub open spec fn is_known_function(name: Seq<char>) -> bool {
    name == "path_prefix"@ || name == "method"@ || name == "has_header"@ || name == "has_query"@
}

/// Dispatches a function call to the predicate of that name.
pub fn evaluator(ctx: &Context, name: &str, args: &Vec<Primitives>) -> (res: Result<
    bool,
    EvaluatorError,
>)
    requires
        is_known_function(name@) ==> args.len() >= 1,
    ensures
        name@ == "path_prefix"@ ==> answers(
            res,
            args@,
            "/api"@,
            "'path_prefix' - expected string argument"@,
        ),
        name@ == "method"@ ==> answers(res, args@, "GET"@, "'method' - expected string argument"@),
        name@ == "has_header"@ ==> answers(
            res,
            args@,
            "X-API-KEY"@,
            "'has_header' - expected string argument"@,
        ),
        name@ == "has_query"@ ==> answers(
            res,
            args@,
            "version"@,
            "'has_query' - expected string argument"@,
        ),
        !is_known_function(name@) ==> (res matches Err(EvaluatorError::FunctionNotFound(n))
            && n@ == name@),
{
    proof {
        reveal_strlit("path_prefix");
        reveal_strlit("method");
        reveal_strlit("has_header");
        reveal_strlit("has_query");
        assert("path_prefix"@.len() == 11);
        assert("method"@.len() == 6);
        assert("has_header"@.len() == 10);
        assert("has_query"@.len() == 9);
        assert("has_header"@[4] != "has_query"@[4]);
    }
    if str_eq(name, "path_prefix") {
        path_prefix(ctx, args)
    } else if str_eq(name, "method") {
        method(ctx, args)
    } else if str_eq(name, "has_header") {
        has_header(ctx, args)
    } else if str_eq(name, "has_query") {
        has_query(ctx, args)
    } else {
        Err(EvaluatorError::FunctionNotFound(name.to_owned()))
    }
}

} // verus!
