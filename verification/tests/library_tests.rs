use fel::demo::{evaluator, has_header, has_query, method, path_prefix, Context};
use fel::lang::ast::{Ast, EvaluatorError, Primitives, PrimitivesTypes};
use fel::lang::context::{kinds_match, KnownFunctions, ParserContext};
use fel::lang::error::{ErrorContext, FurthestError};
use fel::lang::parsers::{
    and_expr, expr, func_call, func_name, or_expr, parens_expr, parse, parse_with_context, term, token,
};
use std::cell::RefCell;
use fel::lang::stream::Stream;

/// A compact rendering of a tree, for comparing whole trees at once.
fn show(a: &Ast) -> String {
    match a {
        Ast::Func { name, args } => {
            let args: Vec<String> = args
                .iter()
                .map(|p| match p {
                    Primitives::Bool(b) => format!("{}", b),
                    Primitives::Int(i) => format!("{}", i),
                    Primitives::String(s) => format!("{:?}", s),
                })
                .collect();
            format!("{}({})", name, args.join(","))
        }
        Ast::And { left, right } => format!("And[{}, {}]", show(left), show(right)),
        Ast::Or { left, right } => format!("Or[{}, {}]", show(left), show(right)),
        Ast::Not { expr } => format!("Not[{}]", show(expr)),
    }
}

fn parsed(input: &str) -> String {
    show(&parse(input).expect("should parse"))
}

fn strings(v: &[&str]) -> Vec<Primitives> {
    v.iter().map(|s| Primitives::String(s.to_string())).collect()
}

#[test]
fn canonical_text_reads_back() {
    assert_eq!(
        parsed("a(1, true, \"x\") or not b() and (c() or d())"),
        "Or[a(1,true,\"x\"), And[Not[b()], Or[c(), d()]]]"
    );
    assert_eq!(
        parsed("not (a() and b()) or c(7)"),
        "Or[Not[And[a(), b()]], c(7)]"
    );
}

#[test]
fn and_binds_tighter_than_or() {
    assert_eq!(parsed("a() or b() and c()"), "Or[a(), And[b(), c()]]");
    assert_eq!(parsed("a() and b() or c()"), "Or[And[a(), b()], c()]");
}

#[test]
fn not_binds_tighter_than_and() {
    assert_eq!(parsed("not a() and b()"), "And[Not[a()], b()]");
}

#[test]
fn parentheses_group() {
    assert_eq!(parsed("(a() or b()) and c()"), "And[Or[a(), b()], c()]");
    assert_eq!(parsed("not (a() or b())"), "Not[Or[a(), b()]]");
}

#[test]
fn chains_group_left() {
    assert_eq!(parsed("a() or b() or c()"), "Or[Or[a(), b()], c()]");
    assert_eq!(parsed("a() and b() and c()"), "And[And[a(), b()], c()]");
}

#[test]
fn integer_literals() {
    assert_eq!(parsed("f(2147483647, 0, 007)"), "f(2147483647,0,7)");
    assert!(parse("f(2147483648)").is_err());
    assert!(parse("f(99999999999999999999)").is_err());
    assert!(parse("f(-5)").is_err());
    assert!(parse("f(+5)").is_err());
}

#[test]
fn string_and_bool_literals() {
    assert_eq!(parsed("f(\"a b, (c)\", false)"), "f(\"a b, (c)\",false)");
    assert_eq!(parsed("f( true ,\"\" )"), "f(true,\"\")");
}

#[test]
fn spaces_around_tokens() {
    assert_eq!(parsed("f( 1 ,\t2 )  and\tg()"), "And[f(1,2), g()]");
    assert_eq!(parsed("f() "), "f()");
    assert!(parse(" f()").is_err());
}

#[test]
fn function_names() {
    assert_eq!(parsed("_a-1()"), "_a-1()");
    assert!(parse("1a()").is_err());
    assert!(parse("-a()").is_err());
}

#[test]
fn leading_not_is_read_as_negation() {
    assert_eq!(parsed("nothing()"), "Not[hing()]");
    assert_eq!(parsed("notf()"), "Not[f()]");
}

#[test]
fn error_reports_furthest_position_and_context() {
    let e = parse("f(").unwrap_err();
    assert_eq!(e.remaining_len, 0);
    assert_eq!(e.original, "f(");
    assert!(!e.is_cut);
    assert_eq!(e.context.len(), 2);
    assert!(matches!(e.context[0], ErrorContext::ExpectedCloseParen));
    assert!(matches!(e.context[1], ErrorContext::FunctionCall));
    assert_eq!(
        e.report(),
        "Parse error at position 2:\nf(\n  ^\n\nContext:\n  Expected(CharLiteral(')'))\n  Label(\"function call\")\n"
    );
}

#[test]
fn error_on_missing_function_name() {
    // After the name `f` an opening parenthesis is expected.
    let e = parse("f x").unwrap_err();
    assert_eq!(e.remaining_len, 1);
    assert_eq!(e.context.len(), 2);
    assert!(matches!(e.context[0], ErrorContext::ExpectedOpenParen));
    assert!(matches!(e.context[1], ErrorContext::FunctionCall));
    // Where both alternatives of a term fail, the error of the last one tried, the
    // function call, is reported: here the outer term's, at the start.
    let e = parse("(\"x\")").unwrap_err();
    assert_eq!(e.remaining_len, 5);
    assert_eq!(e.context.len(), 2);
    assert!(matches!(e.context[0], ErrorContext::FunctionName));
    assert!(matches!(e.context[1], ErrorContext::FunctionCall));
}

#[test]
fn failed_alternatives_report_the_last_one() {
    // The parenthesized expression stops at the end of the input, the function call at
    // the start; the function call is tried last.
    let e = parse("(path_prefix(\"/api\")").unwrap_err();
    assert_eq!(e.remaining_len, 20);
    assert!(!e.is_cut);
    assert_eq!(
        e.report(),
        "Parse error at position 0:\n(path_prefix(\"/api\")\n^\n\nContext:\n  Label(\"function name\")\n  Label(\"function call\")\n"
    );
}

#[test]
fn error_on_left_over_input() {
    let e = parse("f() x").unwrap_err();
    assert_eq!(e.remaining_len, 1);
    assert!(e.context.is_empty());
    assert_eq!(e.report(), "Parse error at position 4:\nf() x\n    ^\n");
}

#[test]
fn furthest_error_choice() {
    let near = FurthestError { remaining_len: 5, original: "abcdef".to_string(), context: vec![], is_cut: false };
    let far = FurthestError { remaining_len: 2, original: "abcdef".to_string(), context: vec![], is_cut: false };
    assert_eq!(near.clone().or(far.clone()).remaining_len, 2);
    assert_eq!(far.clone().or(near.clone()).remaining_len, 2);
    let tie = FurthestError { remaining_len: 5, original: "first".to_string(), context: vec![], is_cut: false };
    assert_eq!(tie.or(near.clone()).original, "first");
    let cut = near.clone().cut();
    assert!(cut.is_cut);
    assert_eq!(cut.clone().or(far.clone()).remaining_len, 5);
    assert_eq!(far.clone().or(cut.clone()).remaining_len, 5);
    let back = cut.backtrack();
    assert!(!back.is_cut);
    assert_eq!(back.remaining_len, 5);
    let with = back.add_context(ErrorContext::StringLiteral);
    assert_eq!(with.context.len(), 1);
    assert!(matches!(with.context[0], ErrorContext::StringLiteral));
}

#[test]
fn error_context_descriptions() {
    assert_eq!(ErrorContext::FunctionName.description(), "Label(\"function name\")");
    assert_eq!(ErrorContext::FunctionCall.description(), "Label(\"function call\")");
    assert_eq!(ErrorContext::StringLiteral.description(), "Label(\"string literal\")");
    assert_eq!(ErrorContext::ExpectedOpenParen.description(), "Expected(CharLiteral('('))");
    assert_eq!(ErrorContext::ExpectedCloseParen.description(), "Expected(CharLiteral(')'))");
    assert_eq!(
        ErrorContext::ExpectedKnownFunction.description(),
        "Expected(Description(\"known function\"))"
    );
    assert_eq!(
        ErrorContext::ExpectedDeclaredArguments.description(),
        "Expected(Description(\"arguments of the declared kinds\"))"
    );
    assert_eq!(
        ErrorContext::ExpectedQuotedString.description(),
        "Expected(Description(\"quoted string like \\\"value\\\"\"))"
    );
}

#[test]
fn evaluator_error_messages() {
    assert_eq!(EvaluatorError::FunctionNotFound("f".to_string()).message(), "function not found: f");
    assert_eq!(EvaluatorError::InvalidArguments("x".to_string()).message(), "invalid arguments: x");
    assert_eq!(EvaluatorError::EvaluationError("y".to_string()).message(), "evaluation error: y");
}

#[test]
fn demo_predicates() {
    let ctx = Context;
    assert!(matches!(path_prefix(&ctx, &strings(&["/api"])), Ok(true)));
    assert!(matches!(path_prefix(&ctx, &strings(&["/v1"])), Ok(false)));
    assert!(matches!(method(&ctx, &strings(&["GET"])), Ok(true)));
    assert!(matches!(has_header(&ctx, &strings(&["X-API-KEY"])), Ok(true)));
    assert!(matches!(has_query(&ctx, &strings(&["version"])), Ok(true)));
    assert!(matches!(has_query(&ctx, &strings(&["page"])), Ok(false)));
    match path_prefix(&ctx, &vec![Primitives::Int(1)]) {
        Err(EvaluatorError::InvalidArguments(m)) => {
            assert_eq!(m, "'path_prefix' - expected string argument")
        }
        _ => panic!("expected InvalidArguments"),
    }
    match method(&ctx, &strings(&["GET", "POST"])) {
        Err(EvaluatorError::InvalidArguments(m)) => assert_eq!(m, "'method' - expected string argument"),
        _ => panic!("expected InvalidArguments"),
    }
}

#[test]
fn demo_evaluator_dispatch() {
    let ctx = Context;
    assert!(matches!(evaluator(&ctx, "has_header", &strings(&["X-API-KEY"])), Ok(true)));
    assert!(matches!(evaluator(&ctx, "method", &strings(&["POST"])), Ok(false)));
    match evaluator(&ctx, "nope", &vec![]) {
        Err(EvaluatorError::FunctionNotFound(n)) => assert_eq!(n, "nope"),
        _ => panic!("expected FunctionNotFound"),
    }
}

#[test]
fn demo_expression_evaluates_true() {
    let ast = parse("path_prefix(\"/v1\") or method(\"GET\") and has_header(\"X-API-KEY\")").unwrap();
    assert!(matches!(ast.eval(&Context, evaluator), Ok(true)));
}

#[test]
fn evaluation_short_circuits() {
    let ctx = Context;
    let ast = parse("method(\"POST\") and unknown()").unwrap();
    assert!(matches!(ast.eval(&ctx, evaluator), Ok(false)));
    let ast = parse("method(\"GET\") or unknown()").unwrap();
    assert!(matches!(ast.eval(&ctx, evaluator), Ok(true)));
    let ast = parse("unknown() or method(\"GET\")").unwrap();
    match ast.eval(&ctx, evaluator) {
        Err(EvaluatorError::FunctionNotFound(n)) => assert_eq!(n, "unknown"),
        _ => panic!("expected FunctionNotFound"),
    }
    let ast = parse("not (method(\"GET\") and not has_query(\"version\"))").unwrap();
    assert!(matches!(ast.eval(&ctx, evaluator), Ok(true)));
}

#[test]
fn stream_reads_characters() {
    let s = Stream::new("é(\"ü\")");
    assert_eq!(s.len(), 6);
    assert_eq!(s.char_at(0), 'é');
    assert_eq!(s.slice(2, 4), "\"ü");
    assert_eq!(s.origin_text(), "é(\"ü\")");
    assert_eq!(s.bytes_from(0), 8);
    assert_eq!(s.bytes_from(1), 6);
    assert_eq!(s.bytes_from(6), 0);
}

#[test]
fn single_parsers() {
    let s = Stream::new("  and  x");
    assert_eq!(token(&s, 0, "and").unwrap(), 7);
    let e = token(&s, 0, "or").unwrap_err();
    assert_eq!(e.remaining_len, 6);

    let s = Stream::new("ab-c_1(\"x\") rest");
    let (end, name) = func_name(&s, 0).unwrap();
    assert_eq!((end, name.as_str()), (6, "ab-c_1"));
    let (end, call) = func_call(&s, 0).unwrap();
    assert_eq!(end, 12);
    assert_eq!(show(&call), "ab-c_1(\"x\")");

    let s = Stream::new("(a() or b()) and c() or d()");
    let (end, p) = parens_expr(&s, 0).unwrap();
    assert_eq!((end, show(&p)), (13, "Or[a(), b()]".to_string()));
    let (end, t) = term(&s, 0).unwrap();
    assert_eq!((end, show(&t)), (13, "Or[a(), b()]".to_string()));
    let (end, a) = and_expr(&s, 0).unwrap();
    assert_eq!((end, show(&a)), (21, "And[Or[a(), b()], c()]".to_string()));
    let (end, o) = or_expr(&s, 0).unwrap();
    assert_eq!(end, 27);
    assert_eq!(show(&o), "Or[And[Or[a(), b()], c()], d()]");
    let (end, x) = expr(&s, 0).unwrap();
    assert_eq!((end, show(&x)), (27, show(&o)));
}

fn table() -> ParserContext {
    let mut known_functions = KnownFunctions::new();
    known_functions.insert("path_prefix".to_string(), vec![PrimitivesTypes::String]);
    known_functions.insert("method".to_string(), vec![PrimitivesTypes::String]);
    known_functions.insert(
        "header_equals".to_string(),
        vec![PrimitivesTypes::String, PrimitivesTypes::String],
    );
    ParserContext { known_functions, original_input: String::new() }
}

fn in_context(input: &str) -> Result<Box<Ast>, FurthestError> {
    let mut ctx = table();
    ctx.original_input = input.to_string();
    parse_with_context(input, &ctx)
}

#[test]
fn error_positions_count_bytes() {
    let e = FurthestError::from_input(&fel::lang::stream::Stream::new("é"), 0);
    assert_eq!(e.remaining_len, 2);
    let e = parse("é").unwrap_err();
    assert_eq!(e.remaining_len, 2);
    assert_eq!(
        e.report(),
        "Parse error at position 0:\né\n^\n\nContext:\n  Label(\"function name\")\n  Label(\"function call\")\n"
    );
    let e = parse("f(\"é\") x").unwrap_err();
    assert_eq!(e.remaining_len, 1);
    assert_eq!(e.report(), "Parse error at position 8:\nf(\"é\") x\n        ^\n");
    let one_left = FurthestError { remaining_len: 1, original: "é".to_string(), context: vec![], is_cut: false };
    assert_eq!(one_left.report(), "Parse error at position 1:\né\n ^\n");
    let all_left = FurthestError { remaining_len: 2, original: "é".to_string(), context: vec![], is_cut: false };
    assert_eq!(all_left.report(), "Parse error at position 0:\né\n^\n");
}

#[test]
fn known_function_table() {
    let mut t = KnownFunctions::new();
    assert!(t.get(&"method".to_string()).is_none());
    t.insert("method".to_string(), vec![PrimitivesTypes::String]);
    t.insert("method".to_string(), vec![PrimitivesTypes::Int, PrimitivesTypes::Bool]);
    assert_eq!(t.get(&"method".to_string()).unwrap(), &vec![PrimitivesTypes::Int, PrimitivesTypes::Bool]);
    assert!(t.get(&"path_prefix".to_string()).is_none());
    let kinds = vec![PrimitivesTypes::String, PrimitivesTypes::Int];
    assert!(kinds_match(&kinds, &vec![Primitives::String("a".to_string()), Primitives::Int(3)]));
    assert!(!kinds_match(&kinds, &vec![Primitives::Int(3), Primitives::String("a".to_string())]));
    assert!(!kinds_match(&kinds, &vec![Primitives::String("a".to_string())]));
}

#[test]
fn unknown_function_is_refused_in_context() {
    let e = in_context("unknown_func(\"test\")").unwrap_err();
    assert!(e.is_cut);
    assert_eq!(e.remaining_len, 20);
    assert_eq!(e.original, "unknown_func(\"test\")");
    assert_eq!(e.context.len(), 2);
    assert!(matches!(e.context[0], ErrorContext::ExpectedKnownFunction));
    assert!(matches!(e.context[1], ErrorContext::FunctionCall));
    // Without a table, any name is read.
    assert_eq!(parsed("unknown_func(\"test\")"), "unknown_func(\"test\")");
}

#[test]
fn wrong_argument_kinds_are_refused_in_context() {
    let e = in_context("path_prefix(1)").unwrap_err();
    assert!(e.is_cut);
    assert_eq!(e.remaining_len, 14);
    assert!(matches!(e.context[0], ErrorContext::ExpectedDeclaredArguments));
    assert!(matches!(e.context[1], ErrorContext::FunctionCall));
    assert!(in_context("header_equals(\"a\")").is_err());
    assert_eq!(
        show(&in_context("path_prefix(\"/api\") and header_equals(\"a\", \"b\")").unwrap()),
        "And[path_prefix(\"/api\"), header_equals(\"a\",\"b\")]"
    );
}

#[test]
fn refused_call_ends_the_parse() {
    // A refused call after `or` is the error, not the end of the chain.
    let e = in_context("method(\"GET\") or unknown_func()").unwrap_err();
    assert!(e.is_cut);
    assert_eq!(e.remaining_len, 14);
    let e = in_context("(unknown_func())").unwrap_err();
    assert!(e.is_cut);
    assert_eq!(e.remaining_len, 15);
    let e = in_context("not method(\"GET\") and method(true)").unwrap_err();
    assert_eq!(e.remaining_len, 12);
    // The report names the text of the context.
    let mut ctx = table();
    ctx.original_input = "the whole filter".to_string();
    let e = parse_with_context("method(1)", &ctx).unwrap_err();
    assert_eq!(e.original, "the whole filter");
}

fn logged_eval(input: &str, log: &RefCell<Vec<String>>) -> Result<bool, EvaluatorError> {
    let ast = parse(input).unwrap();
    let logging = |ctx: &Context, name: &str, args: &Vec<Primitives>| {
        log.borrow_mut().push(name.to_string());
        if args.is_empty() {
            evaluator(ctx, "none", args)
        } else {
            evaluator(ctx, name, args)
        }
    };
    ast.eval(&Context, logging)
}

#[test]
fn evaluation_skips_decided_right_operands() {
    let log = RefCell::new(vec![]);
    assert!(matches!(logged_eval("path_prefix(\"/admin\") and unknown_func(\"x\")", &log), Ok(false)));
    assert_eq!(*log.borrow(), vec!["path_prefix"]);
    let log = RefCell::new(vec![]);
    assert!(matches!(logged_eval("path_prefix(\"/api\") or unknown_func(\"x\")", &log), Ok(true)));
    assert_eq!(*log.borrow(), vec!["path_prefix"]);
}

#[test]
fn evaluation_stops_at_first_failing_call() {
    let log = RefCell::new(vec![]);
    match logged_eval("method(\"GET\") and unknown(\"a\") and has_header(\"X-API-KEY\")", &log) {
        Err(EvaluatorError::FunctionNotFound(n)) => assert_eq!(n, "unknown"),
        _ => panic!("expected FunctionNotFound"),
    }
    assert_eq!(*log.borrow(), vec!["method", "unknown"]);
    let log = RefCell::new(vec![]);
    assert!(matches!(logged_eval("method(\"GET\") and has_header(\"X-API-KEY\")", &log), Ok(true)));
    assert_eq!(*log.borrow(), vec!["method", "has_header"]);
}

#[test]
fn de_morgan_and_double_negation() {
    for (a, b) in [("\"GET\"", "\"version\""), ("\"GET\"", "\"page\""), ("\"PUT\"", "\"version\"")] {
        let conj = format!("method({}) and has_query({})", a, b);
        let dual = format!("not (not method({}) or not has_query({}))", a, b);
        let (l1, l2) = (RefCell::new(vec![]), RefCell::new(vec![]));
        let r1 = logged_eval(&conj, &l1).unwrap();
        let r2 = logged_eval(&dual, &l2).unwrap();
        assert_eq!(r1, r2);
        assert_eq!(*l1.borrow(), *l2.borrow());
    }
    for a in ["\"GET\"", "\"PUT\""] {
        let (l1, l2) = (RefCell::new(vec![]), RefCell::new(vec![]));
        let r1 = logged_eval(&format!("method({})", a), &l1).unwrap();
        let r2 = logged_eval(&format!("not (not method({}))", a), &l2).unwrap();
        assert_eq!(r1, r2);
        assert_eq!(*l1.borrow(), *l2.borrow());
    }
}

#[test]
fn long_chains_fold_left() {
    assert_eq!(parsed("a() or b() or c() or d()"), "Or[Or[Or[a(), b()], c()], d()]");
    assert_eq!(parsed("a() and b() and c() and d()"), "And[And[And[a(), b()], c()], d()]");
    assert_eq!(
        parsed("a() and b() or c() or d() and e()"),
        "Or[Or[And[a(), b()], c()], And[d(), e()]]"
    );
}

#[test]
fn parentheses_around_whole_text_keep_tree() {
    for text in [
        "a() or b() and c()",
        "not a()",
        "f(1, \"x\")",
        "(a() or b()) and not (c() and d())",
        " (a() or b())",
        "a()  and\tb() ",
        "not  f( 1 ,true)",
    ] {
        assert_eq!(parsed(&format!("({})", text)), parsed(text));
    }
}

#[test]
fn chains_of_any_operands_fold_left() {
    assert_eq!(
        parsed("a()  and b( 1 )  or  (c())  or not d() "),
        "Or[Or[And[a(), b(1)], c()], Not[d()]]"
    );
    assert_eq!(
        parsed("a( ) and  (b() or c())  and not  d() and e(\"x\")"),
        "And[And[And[a(), Or[b(), c()]], Not[d()]], e(\"x\")]"
    );
}

#[test]
fn parenthesized_expression_keeps_tree() {
    let text = "( a() or b()  and c( true ))";
    let s = Stream::new(text);
    let (end, t) = parens_expr(&s, 0).unwrap();
    assert_eq!(end, text.chars().count());
    assert_eq!(show(&t), parsed("a() or b()  and c( true )"));
}
