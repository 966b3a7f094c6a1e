use vstd::prelude::*;

verus! {

/// Errors reported while evaluating an expression.
#[derive(Debug)]
pub enum EvaluatorError {
    FunctionNotFound(String),
    InvalidArguments(String),
    EvaluationError(String),
}

impl EvaluatorError {
    /// The message that describes the error.
    pub open spec fn spec_message(&self) -> Seq<char> {
        match self {
            EvaluatorError::FunctionNotFound(s) => "function not found: "@ + s@,
            EvaluatorError::InvalidArguments(s) => "invalid arguments: "@ + s@,
            EvaluatorError::EvaluationError(s) => "evaluation error: "@ + s@,
        }
    }

    /// The message that describes the error.
    pub fn message(&self) -> (m: String)
        ensures
            m@ == self.spec_message(),
    {
        match self {
            EvaluatorError::FunctionNotFound(s) => {
                let mut m = "function not found: ".to_owned();
                m.append(s.as_str());
                m
            },
            EvaluatorError::InvalidArguments(s) => {
                let mut m = "invalid arguments: ".to_owned();
                m.append(s.as_str());
                m
            },
            EvaluatorError::EvaluationError(s) => {
                let mut m = "evaluation error: ".to_owned();
                m.append(s.as_str());
                m
            },
        }
    }
}

/// A literal argument of a function call.
#[derive(Debug)]
pub enum Primitives {
    Bool(bool),
    String(String),
    Int(i32),
}

/// The mathematical value of a literal argument.
pub enum PrimitiveValue {
    Bool(bool),
    Text(Seq<char>),
    Int(i32),
}

impl View for Primitives {
    type V = PrimitiveValue;

    open spec fn view(&self) -> PrimitiveValue {
        match self {
            Primitives::Bool(b) => PrimitiveValue::Bool(*b),
            Primitives::String(s) => PrimitiveValue::Text(s@),
            Primitives::Int(i) => PrimitiveValue::Int(*i),
        }
    }
}

/// The kind of a literal argument.
#[derive(Debug, Clone, Copy, PartialEq, Eq, Structural)]
pub enum PrimitivesTypes {
    Bool,
    String,
    Int,
}

/// The kind of a literal value.
pub open spec fn kind_of(v: PrimitiveValue) -> PrimitivesTypes {
    match v {
        PrimitiveValue::Bool(_) => PrimitivesTypes::Bool,
        PrimitiveValue::Text(_) => PrimitivesTypes::String,
        PrimitiveValue::Int(_) => PrimitivesTypes::Int,
    }
}

/// The kinds of a list of literal values.
pub open spec fn kinds_of(args: Seq<PrimitiveValue>) -> Seq<PrimitivesTypes> {
    args.map_values(|v: PrimitiveValue| kind_of(v))
}

/// The abstract syntax tree of a filter expression.
#[derive(Debug)]
pub enum Ast {
    Func { name: String, args: Vec<Primitives> },
    And { left: Box<Ast>, right: Box<Ast> },
    Or { left: Box<Ast>, right: Box<Ast> },
    Not { expr: Box<Ast> },
}

/// The mathematical value of an expression tree.
pub enum AstValue {
    Func { name: Seq<char>, args: Seq<PrimitiveValue> },
    And { left: Box<AstValue>, right: Box<AstValue> },
    Or { left: Box<AstValue>, right: Box<AstValue> },
    Not { expr: Box<AstValue> },
}

/// The values of a list of literal arguments.
pub open spec fn args_value(args: Seq<Primitives>) -> Seq<PrimitiveValue> {
    args.map_values(|p: Primitives| p@)
}

/// The value of an expression tree, node by node.
pub open spec fn ast_value(a: Ast) -> AstValue
    decreases a,
{
    match a {
        Ast::Func { name, args } => AstValue::Func { name: name@, args: args_value(args@) },
        Ast::And { left, right } => AstValue::And {
            left: Box::new(ast_value(*left)),
            right: Box::new(ast_value(*right)),
        },
        Ast::Or { left, right } => AstValue::Or {
            left: Box::new(ast_value(*left)),
            right: Box::new(ast_value(*right)),
        },
        Ast::Not { expr } => AstValue::Not { expr: Box::new(ast_value(*expr)) },
    }
}

impl View for Ast {
    type V = AstValue;

    open spec fn view(&self) -> AstValue {
        ast_value(*self)
    }
}

/// A trigger term for the result of an operand in the definition of `evaluates_to`; it
/// holds of every result and carries no meaning of its own.
pub open spec fn operand_result(r: Result<bool, EvaluatorError>) -> bool {
    true
}

/// `r` is a possible outcome of evaluating `a` against `ctx` with `f`: leaves are the
/// answers of `f` for the function's name and arguments; `and` and `or` evaluate their
/// right operand only when the left one does not decide the result; errors propagate.
pub open spec fn evaluates_to<T, F: Fn(&T, &str, &Vec<Primitives>) -> Result<bool, EvaluatorError>>(
    a: Ast,
    ctx: &T,
    f: F,
    r: Result<bool, EvaluatorError>,
) -> bool
    decreases a,
{
    match a {
        Ast::Func { name, args } => exists|n: &str|
            n@ == name@ && #[trigger] call_ensures(f, (ctx, n, &args), r),
        Ast::And { left, right } => exists|l: Result<bool, EvaluatorError>|
            #[trigger] operand_result(l) && evaluates_to(*left, ctx, f, l) && match l {
                Ok(true) => evaluates_to(*right, ctx, f, r),
                Ok(false) => r == Ok::<bool, EvaluatorError>(false),
                Err(e) => r == Err::<bool, EvaluatorError>(e),
            },
        Ast::Or { left, right } => exists|l: Result<bool, EvaluatorError>|
            #[trigger] operand_result(l) && evaluates_to(*left, ctx, f, l) && match l {
                Ok(false) => evaluates_to(*right, ctx, f, r),
                Ok(true) => r == Ok::<bool, EvaluatorError>(true),
                Err(e) => r == Err::<bool, EvaluatorError>(e),
            },
        Ast::Not { expr } => exists|l: Result<bool, EvaluatorError>|
            #[trigger] operand_result(l) && evaluates_to(*expr, ctx, f, l) && match l {
                Ok(b) => r == Ok::<bool, EvaluatorError>(!b),
                Err(e) => r == Err::<bool, EvaluatorError>(e),
            },
    }
}

/// `f` may be called against `ctx` with the function name `name`, whatever `&str` holds
/// it, and the arguments `args`.
pub open spec fn may_call_leaf<T, F: Fn(&T, &str, &Vec<Primitives>) -> Result<bool, EvaluatorError>>(
    ctx: &T,
    f: F,
    name: Seq<char>,
    args: &Vec<Primitives>,
) -> bool {
    forall|n: &str| n@ == name ==> #[trigger] call_requires(f, (ctx, n, args))
}

/// Every function call that evaluating `a` reaches satisfies `leaf`, given by its name and
/// arguments: the call of a leaf, and the right operand of `and` (of `or`) only where
/// `outcome` admits `true` (`false`) as the result of the left one.
pub open spec fn calls_allowed(
    a: Ast,
    leaf: spec_fn(Seq<char>, Vec<Primitives>) -> bool,
    outcome: spec_fn(Ast, Result<bool, EvaluatorError>) -> bool,
) -> bool
    decreases a,
{
    match a {
        Ast::Func { name, args } => leaf(name@, args),
        Ast::And { left, right } => calls_allowed(*left, leaf, outcome) && (outcome(
            *left,
            Ok(true),
        ) ==> calls_allowed(*right, leaf, outcome)),
        Ast::Or { left, right } => calls_allowed(*left, leaf, outcome) && (outcome(
            *left,
            Ok(false),
        ) ==> calls_allowed(*right, leaf, outcome)),
        Ast::Not { expr } => calls_allowed(*expr, leaf, outcome),
    }
}

/// `f` may be called on every function call that evaluating `a` against `ctx` reaches:
/// the call of a leaf, and the right operand of `and` (of `or`) only where the left one
/// may evaluate to `true` (to `false`).
pub open spec fn may_call<T, F: Fn(&T, &str, &Vec<Primitives>) -> Result<bool, EvaluatorError>>(
    a: Ast,
    ctx: &T,
    f: F,
) -> bool {
    calls_allowed(
        a,
        |name: Seq<char>, args: Vec<Primitives>| may_call_leaf(ctx, f, name, &args),
        |x: Ast, r: Result<bool, EvaluatorError>| evaluates_to(x, ctx, f, r),
    )
}

impl Ast {
    /// Evaluates the expression against `ctx`, asking `evaluator` for the value of each
    /// function call that the boolean structure needs.
    pub fn eval<T, F: Fn(&T, &str, &Vec<Primitives>) -> Result<bool, EvaluatorError> + Copy>(
        &self,
        ctx: &T,
        evaluator: F,
    ) -> (res: Result<bool, EvaluatorError>)
        requires
            may_call(*self, ctx, evaluator),
        ensures
            evaluates_to(*self, ctx, evaluator, res),
        decreases self,
    {
        match self {
            Ast::Func { name, args } => {
                let n = name.as_str();
                let r = evaluator(ctx, n, args);
                assert(call_ensures(evaluator, (ctx, n, args), r));
                r
            },
            Ast::And { left, right } => {
                let l = left.eval(ctx, evaluator);
                assert(operand_result(l));
                match l {
                    Ok(true) => right.eval(ctx, evaluator),
                    Ok(false) => Ok(false),
                    Err(e) => Err(e),
                }
            },
            Ast::Or { left, right } => {
                let l = left.eval(ctx, evaluator);
                assert(operand_result(l));
                match l {
                    Ok(false) => right.eval(ctx, evaluator),
                    Ok(true) => Ok(true),
                    Err(e) => Err(e),
                }
            },
            Ast::Not { expr } => {
                let l = expr.eval(ctx, evaluator);
                assert(operand_result(l));
                match l {
                    Ok(b) => Ok(!b),
                    Err(e) => Err(e),
                }
            },
        }
    }
}


/// The result of `not` on the result `r` of its operand.
pub open spec fn negated(r: Result<bool, EvaluatorError>) -> Result<bool, EvaluatorError> {
    match r {
        Ok(b) => Ok(!b),
        Err(e) => Err(e),
    }
}

/// A result of `e` gives the negated result of `not e`.
proof fn lemma_not_intro<T, F: Fn(&T, &str, &Vec<Primitives>) -> Result<bool, EvaluatorError>>(
    e: Ast,
    ctx: &T,
    f: F,
    l: Result<bool, EvaluatorError>,
)
    requires
        evaluates_to(e, ctx, f, l),
    ensures
        evaluates_to(Ast::Not { expr: Box::new(e) }, ctx, f, negated(l)),
{
    assert(operand_result(l));
}

/// A result of `not e` is the negated result of `e`.
proof fn lemma_not_elim<T, F: Fn(&T, &str, &Vec<Primitives>) -> Result<bool, EvaluatorError>>(
    e: Ast,
    ctx: &T,
    f: F,
    r: Result<bool, EvaluatorError>,
) -> (l: Result<bool, EvaluatorError>)
    requires
        evaluates_to(Ast::Not { expr: Box::new(e) }, ctx, f, r),
    ensures
        evaluates_to(e, ctx, f, l),
        r == negated(l),
{
    choose|l: Result<bool, EvaluatorError>|
        #[trigger] operand_result(l) && evaluates_to(e, ctx, f, l) && match l {
            Ok(b) => r == Ok::<bool, EvaluatorError>(!b),
            Err(x) => r == Err::<bool, EvaluatorError>(x),
        }
}

/// `leaf` is a function call of `a`.
pub open spec fn call_of(a: Ast, leaf: Ast) -> bool
    decreases a,
{
    match a {
        Ast::Func { .. } => leaf == a,
        Ast::And { left, right } => call_of(*left, leaf) || call_of(*right, leaf),
        Ast::Or { left, right } => call_of(*left, leaf) || call_of(*right, leaf),
        Ast::Not { expr } => call_of(*expr, leaf),
    }
}

/// A call of `a` whose evaluation gives the error `e`.
proof fn lemma_failing_call<T, F: Fn(&T, &str, &Vec<Primitives>) -> Result<bool, EvaluatorError>>(
    a: Ast,
    ctx: &T,
    f: F,
    e: EvaluatorError,
) -> (leaf: Ast)
    requires
        evaluates_to(a, ctx, f, Err(e)),
    ensures
        call_of(a, leaf),
        leaf is Func,
        evaluates_to(leaf, ctx, f, Err(e)),
    decreases a,
{
    let r = Err::<bool, EvaluatorError>(e);
    match a {
        Ast::Func { .. } => a,
        Ast::And { left, right } => {
            let x = choose|x: Result<bool, EvaluatorError>|
                #[trigger] operand_result(x) && evaluates_to(*left, ctx, f, x) && match x {
                    Ok(true) => evaluates_to(*right, ctx, f, r),
                    Ok(false) => r == Ok::<bool, EvaluatorError>(false),
                    Err(y) => r == Err::<bool, EvaluatorError>(y),
                };
            if x == Ok::<bool, EvaluatorError>(true) {
                lemma_failing_call(*right, ctx, f, e)
            } else {
                lemma_failing_call(*left, ctx, f, e)
            }
        },
        Ast::Or { left, right } => {
            let x = choose|x: Result<bool, EvaluatorError>|
                #[trigger] operand_result(x) && evaluates_to(*left, ctx, f, x) && match x {
                    Ok(false) => evaluates_to(*right, ctx, f, r),
                    Ok(true) => r == Ok::<bool, EvaluatorError>(true),
                    Err(y) => r == Err::<bool, EvaluatorError>(y),
                };
            if x == Ok::<bool, EvaluatorError>(false) {
                lemma_failing_call(*right, ctx, f, e)
            } else {
                lemma_failing_call(*left, ctx, f, e)
            }
        },
        Ast::Not { expr } => {
            lemma_not_elim(*expr, ctx, f, r);
            lemma_failing_call(*expr, ctx, f, e)
        },
    }
}

/// Evaluation creates no error of its own, for every evaluator: where it ends with an
/// error, that very error is what the evaluator answered for one of the calls of the
/// expression.
pub proof fn law_eval_error_comes_from_a_call<T, F: Fn(&T, &str, &Vec<Primitives>) -> Result<
    bool,
    EvaluatorError,
>>(a: Ast, ctx: &T, f: F, e: EvaluatorError)
    requires
        evaluates_to(a, ctx, f, Err(e)),
    ensures
        exists|leaf: Ast|
            call_of(a, leaf) && leaf is Func && #[trigger] evaluates_to(leaf, ctx, f, Err(e)),
{
    let leaf = lemma_failing_call(a, ctx, f, e);
    assert(evaluates_to(leaf, ctx, f, Err(e)));
}

/// Double negation, for every evaluator: `not not e` has exactly the possible results
/// of `e`.
pub proof fn law_eval_double_negation<T, F: Fn(&T, &str, &Vec<Primitives>) -> Result<
    bool,
    EvaluatorError,
>>(e: Ast, ctx: &T, f: F, r: Result<bool, EvaluatorError>)
    ensures
        evaluates_to(
            Ast::Not { expr: Box::new(Ast::Not { expr: Box::new(e) }) },
            ctx,
            f,
            r,
        ) <==> evaluates_to(e, ctx, f, r),
{
    let n = Ast::Not { expr: Box::new(e) };
    if evaluates_to(Ast::Not { expr: Box::new(n) }, ctx, f, r) {
        let y = lemma_not_elim(n, ctx, f, r);
        let l = lemma_not_elim(e, ctx, f, y);
        assert(r == l);
    }
    if evaluates_to(e, ctx, f, r) {
        lemma_not_intro(e, ctx, f, r);
        lemma_not_intro(n, ctx, f, negated(r));
        assert(negated(negated(r)) == r);
    }
}

/// De Morgan, for every evaluator: `l and r` has exactly the possible results of
/// `not (not l or not r)`.
pub proof fn law_eval_de_morgan<T, F: Fn(&T, &str, &Vec<Primitives>) -> Result<
    bool,
    EvaluatorError,
>>(l: Ast, r: Ast, ctx: &T, f: F, res: Result<bool, EvaluatorError>)
    ensures
        evaluates_to(Ast::And { left: Box::new(l), right: Box::new(r) }, ctx, f, res)
            <==> evaluates_to(
            Ast::Not {
                expr: Box::new(
                    Ast::Or {
                        left: Box::new(Ast::Not { expr: Box::new(l) }),
                        right: Box::new(Ast::Not { expr: Box::new(r) }),
                    },
                ),
            },
            ctx,
            f,
            res,
        ),
{
    let conj = Ast::And { left: Box::new(l), right: Box::new(r) };
    let nl = Ast::Not { expr: Box::new(l) };
    let nr = Ast::Not { expr: Box::new(r) };
    let o = Ast::Or { left: Box::new(nl), right: Box::new(nr) };
    let dual = Ast::Not { expr: Box::new(o) };
    if evaluates_to(conj, ctx, f, res) {
        let x = choose|x: Result<bool, EvaluatorError>|
            #[trigger] operand_result(x) && evaluates_to(l, ctx, f, x) && match x {
                Ok(true) => evaluates_to(r, ctx, f, res),
                Ok(false) => res == Ok::<bool, EvaluatorError>(false),
                Err(e) => res == Err::<bool, EvaluatorError>(e),
            };
        lemma_not_intro(l, ctx, f, x);
        assert(operand_result(negated(x)));
        match x {
            Ok(true) => {
                lemma_not_intro(r, ctx, f, res);
                assert(evaluates_to(o, ctx, f, negated(res)));
                lemma_not_intro(o, ctx, f, negated(res));
                assert(negated(negated(res)) == res);
            },
            Ok(false) => {
                assert(evaluates_to(o, ctx, f, Ok(true)));
                lemma_not_intro(o, ctx, f, Ok(true));
            },
            Err(e) => {
                assert(evaluates_to(o, ctx, f, Err(e)));
                lemma_not_intro(o, ctx, f, Err(e));
            },
        }
    }
    if evaluates_to(dual, ctx, f, res) {
        let y = lemma_not_elim(o, ctx, f, res);
        let z = choose|z: Result<bool, EvaluatorError>|
            #[trigger] operand_result(z) && evaluates_to(nl, ctx, f, z) && match z {
                Ok(false) => evaluates_to(nr, ctx, f, y),
                Ok(true) => y == Ok::<bool, EvaluatorError>(true),
                Err(e) => y == Err::<bool, EvaluatorError>(e),
            };
        let w = lemma_not_elim(l, ctx, f, z);
        assert(operand_result(w));
        match z {
            Ok(false) => {
                let v = lemma_not_elim(r, ctx, f, y);
                assert(res == v);
                assert(w == Ok::<bool, EvaluatorError>(true));
            },
            Ok(true) => {
                assert(w == Ok::<bool, EvaluatorError>(false));
            },
            Err(e) => {
                assert(w == Err::<bool, EvaluatorError>(e));
            },
        }
        assert(evaluates_to(conj, ctx, f, res));
    }
}

/// The value of an expression when each function call is answered by `answer` on its
/// name and arguments: `and` and `or` decide on their left operand where they can, and
/// the first error met is the result.
pub open spec fn truth(
    a: AstValue,
    answer: spec_fn(Seq<char>, Seq<PrimitiveValue>) -> Result<bool, EvaluatorError>,
) -> Result<bool, EvaluatorError>
    decreases a,
{
    match a {
        AstValue::Func { name, args } => answer(name, args),
        AstValue::And { left, right } => match truth(*left, answer) {
            Ok(true) => truth(*right, answer),
            Ok(false) => Ok(false),
            Err(e) => Err(e),
        },
        AstValue::Or { left, right } => match truth(*left, answer) {
            Ok(false) => truth(*right, answer),
            Ok(true) => Ok(true),
            Err(e) => Err(e),
        },
        AstValue::Not { expr } => match truth(*expr, answer) {
            Ok(b) => Ok(!b),
            Err(e) => Err(e),
        },
    }
}

/// When the evaluator answers each call as `answer` does, evaluating an expression gives
/// its value under `answer`: the boolean structure is the library's, and only the
/// function calls are the evaluator's.
pub proof fn law_eval_follows_answers<T, F: Fn(&T, &str, &Vec<Primitives>) -> Result<
    bool,
    EvaluatorError,
>>(
    a: Ast,
    ctx: &T,
    f: F,
    answer: spec_fn(Seq<char>, Seq<PrimitiveValue>) -> Result<bool, EvaluatorError>,
    r: Result<bool, EvaluatorError>,
)
    requires
        forall|n: &str, args: &Vec<Primitives>, x: Result<bool, EvaluatorError>|
            #[trigger] call_ensures(f, (ctx, n, args), x) ==> x == answer(
                n@,
                args_value(args@),
            ),
        evaluates_to(a, ctx, f, r),
    ensures
        r == truth(a@, answer),
    decreases a,
{
    match a {
        Ast::Func { name, args } => {
            let n = choose|n: &str| n@ == name@ && #[trigger] call_ensures(f, (ctx, n, &args), r);
            assert(call_ensures(f, (ctx, n, &args), r));
        },
        Ast::And { left, right } => {
            let l = choose|l: Result<bool, EvaluatorError>|
                #[trigger] operand_result(l) && evaluates_to(*left, ctx, f, l) && match l {
                    Ok(true) => evaluates_to(*right, ctx, f, r),
                    Ok(false) => r == Ok::<bool, EvaluatorError>(false),
                    Err(e) => r == Err::<bool, EvaluatorError>(e),
                };
            law_eval_follows_answers(*left, ctx, f, answer, l);
            if l == Ok::<bool, EvaluatorError>(true) {
                law_eval_follows_answers(*right, ctx, f, answer, r);
            }
        },
        Ast::Or { left, right } => {
            let l = choose|l: Result<bool, EvaluatorError>|
                #[trigger] operand_result(l) && evaluates_to(*left, ctx, f, l) && match l {
                    Ok(false) => evaluates_to(*right, ctx, f, r),
                    Ok(true) => r == Ok::<bool, EvaluatorError>(true),
                    Err(e) => r == Err::<bool, EvaluatorError>(e),
                };
            law_eval_follows_answers(*left, ctx, f, answer, l);
            if l == Ok::<bool, EvaluatorError>(false) {
                law_eval_follows_answers(*right, ctx, f, answer, r);
            }
        },
        Ast::Not { expr } => {
            let l = choose|l: Result<bool, EvaluatorError>|
                #[trigger] operand_result(l) && evaluates_to(*expr, ctx, f, l) && match l {
                    Ok(b) => r == Ok::<bool, EvaluatorError>(!b),
                    Err(e) => r == Err::<bool, EvaluatorError>(e),
                };
            law_eval_follows_answers(*expr, ctx, f, answer, l);
        },
    }
}


/// The boolean formula of an expression when each function call `name(args)` stands for
/// `holds(name, args)`.
pub open spec fn formula(a: AstValue, holds: spec_fn(Seq<char>, Seq<PrimitiveValue>) -> bool) -> bool
    decreases a,
{
    match a {
        AstValue::Func { name, args } => holds(name, args),
        AstValue::And { left, right } => formula(*left, holds) && formula(*right, holds),
        AstValue::Or { left, right } => formula(*left, holds) || formula(*right, holds),
        AstValue::Not { expr } => !formula(*expr, holds),
    }
}

/// When no function call fails, an expression has the value of its boolean formula:
/// `and`, `or` and `not` are the connectives of logic.
pub proof fn law_truth_without_errors(
    a: AstValue,
    answer: spec_fn(Seq<char>, Seq<PrimitiveValue>) -> Result<bool, EvaluatorError>,
    holds: spec_fn(Seq<char>, Seq<PrimitiveValue>) -> bool,
)
    requires
        forall|n: Seq<char>, args: Seq<PrimitiveValue>|
            #[trigger] answer(n, args) == Ok::<bool, EvaluatorError>(holds(n, args)),
    ensures
        truth(a, answer) == Ok::<bool, EvaluatorError>(formula(a, holds)),
    decreases a,
{
    match a {
        AstValue::Func { name, args } => {
            assert(answer(name, args) == Ok::<bool, EvaluatorError>(holds(name, args)));
        },
        AstValue::And { left, right } => {
            law_truth_without_errors(*left, answer, holds);
            law_truth_without_errors(*right, answer, holds);
        },
        AstValue::Or { left, right } => {
            law_truth_without_errors(*left, answer, holds);
            law_truth_without_errors(*right, answer, holds);
        },
        AstValue::Not { expr } => {
            law_truth_without_errors(*expr, answer, holds);
        },
    }
}


/// The function calls, in order, that evaluating `a` makes when each call is answered by
/// `answer`: the right operand of `and` (of `or`) is called only after the left one gave
/// `true` (`false`).
pub open spec fn calls(
    a: AstValue,
    answer: spec_fn(Seq<char>, Seq<PrimitiveValue>) -> Result<bool, EvaluatorError>,
) -> Seq<(Seq<char>, Seq<PrimitiveValue>)>
    decreases a,
{
    match a {
        AstValue::Func { name, args } => seq![(name, args)],
        AstValue::And { left, right } => match truth(*left, answer) {
            Ok(true) => calls(*left, answer) + calls(*right, answer),
            _ => calls(*left, answer),
        },
        AstValue::Or { left, right } => match truth(*left, answer) {
            Ok(false) => calls(*left, answer) + calls(*right, answer),
            _ => calls(*left, answer),
        },
        AstValue::Not { expr } => calls(*expr, answer),
    }
}

/// The answer to the `i`-th call that evaluating `a` makes.
pub open spec fn answer_at(
    a: AstValue,
    answer: spec_fn(Seq<char>, Seq<PrimitiveValue>) -> Result<bool, EvaluatorError>,
    i: int,
) -> Result<bool, EvaluatorError> {
    answer(calls(a, answer)[i].0, calls(a, answer)[i].1)
}

/// Evaluation of `a` stops at the first call that fails, and its error is the result:
/// every call but the last one is answered without error, and the result is an error
/// exactly when the last call's answer is one, and then it is that very error.
pub open spec fn stops_at_first_failure(
    a: AstValue,
    answer: spec_fn(Seq<char>, Seq<PrimitiveValue>) -> Result<bool, EvaluatorError>,
) -> bool {
    let last = calls(a, answer).len() - 1;
    &&& calls(a, answer).len() >= 1
    &&& forall|i: int| 0 <= i < last ==> #[trigger] answer_at(a, answer, i) is Ok
    &&& truth(a, answer) is Err <==> answer_at(a, answer, last) is Err
    &&& truth(a, answer) is Err ==> truth(a, answer) == answer_at(a, answer, last)
}

/// Evaluation stops at the first call that fails, and its error is the result: every
/// call but the last one is answered without error, and the result is an error exactly
/// when the last call's answer is one, and then it is that very error.
pub proof fn law_error_is_first_failing_call(
    a: AstValue,
    answer: spec_fn(Seq<char>, Seq<PrimitiveValue>) -> Result<bool, EvaluatorError>,
)
    ensures
        stops_at_first_failure(a, answer),
    decreases a,
{
    match a {
        AstValue::Func { name, args } => {
            assert(calls(a, answer) =~= seq![(name, args)]);
        },
        AstValue::Not { expr } => {
            law_error_is_first_failing_call(*expr, answer);
            assert(calls(a, answer) == calls(*expr, answer));
            assert forall|i: int| 0 <= i < calls(a, answer).len() - 1 implies #[trigger] answer_at(
                a,
                answer,
                i,
            ) is Ok by {
                assert(answer_at(*expr, answer, i) is Ok);
            }
        },
        AstValue::And { left, right } => {
            law_error_is_first_failing_call(*left, answer);
            law_error_is_first_failing_call(*right, answer);
            lemma_chain_calls(a, *left, *right, answer, Ok(true));
        },
        AstValue::Or { left, right } => {
            law_error_is_first_failing_call(*left, answer);
            law_error_is_first_failing_call(*right, answer);
            lemma_chain_calls(a, *left, *right, answer, Ok(false));
        },
    }
}

/// An `and` (`go` is `Ok(true)`) or an `or` (`go` is `Ok(false)`) of operands that stop
/// at their first failing call stops at its own: its calls are those of the left
/// operand, then those of the right one when the left gave `go`.
proof fn lemma_chain_calls(
    a: AstValue,
    l: AstValue,
    r: AstValue,
    answer: spec_fn(Seq<char>, Seq<PrimitiveValue>) -> Result<bool, EvaluatorError>,
    go: Result<bool, EvaluatorError>,
)
    requires
        stops_at_first_failure(l, answer),
        stops_at_first_failure(r, answer),
        go == Ok::<bool, EvaluatorError>(true) ==> a == (AstValue::And {
            left: Box::new(l),
            right: Box::new(r),
        }),
        go == Ok::<bool, EvaluatorError>(false) ==> a == (AstValue::Or {
            left: Box::new(l),
            right: Box::new(r),
        }),
        go == Ok::<bool, EvaluatorError>(true) || go == Ok::<bool, EvaluatorError>(false),
    ensures
        stops_at_first_failure(a, answer),
{
    let cl = calls(l, answer);
    if truth(l, answer) == go {
        let cr = calls(r, answer);
        assert(calls(a, answer) == cl + cr);
        assert(truth(a, answer) == truth(r, answer));
        assert forall|i: int| 0 <= i < calls(a, answer).len() - 1 implies #[trigger] answer_at(
            a,
            answer,
            i,
        ) is Ok by {
            if i < cl.len() - 1 {
                assert(answer_at(l, answer, i) is Ok);
            } else if i == cl.len() - 1 {
                assert(answer_at(l, answer, i) is Ok);
            } else {
                assert(answer_at(r, answer, i - cl.len()) is Ok);
            }
        }
        assert(calls(a, answer)[calls(a, answer).len() - 1] == cr[cr.len() - 1]);
    } else {
        assert(calls(a, answer) == cl);
        assert forall|i: int| 0 <= i < calls(a, answer).len() - 1 implies #[trigger] answer_at(
            a,
            answer,
            i,
        ) is Ok by {
            assert(answer_at(l, answer, i) is Ok);
        }
    }
}

/// Double negation: `not not e` has the value of `e`, and makes the same calls.
pub proof fn law_double_negation(
    e: AstValue,
    answer: spec_fn(Seq<char>, Seq<PrimitiveValue>) -> Result<bool, EvaluatorError>,
)
    ensures
        ({
            let nn = AstValue::Not { expr: Box::new(AstValue::Not { expr: Box::new(e) }) };
            &&& truth(nn, answer) == truth(e, answer)
            &&& calls(nn, answer) == calls(e, answer)
        }),
{
    let n = AstValue::Not { expr: Box::new(e) };
    let nn = AstValue::Not { expr: Box::new(n) };
    assert(truth(n, answer) == match truth(e, answer) {
        Ok(b) => Ok::<bool, EvaluatorError>(!b),
        Err(x) => Err(x),
    });
    assert(truth(nn, answer) == match truth(n, answer) {
        Ok(b) => Ok::<bool, EvaluatorError>(!b),
        Err(x) => Err(x),
    });
    assert(calls(n, answer) == calls(e, answer));
    assert(calls(nn, answer) == calls(n, answer));
}

/// De Morgan: `l and r` has the value of `not (not l or not r)`, and makes the same calls
/// in the same order.
pub proof fn law_de_morgan(
    l: AstValue,
    r: AstValue,
    answer: spec_fn(Seq<char>, Seq<PrimitiveValue>) -> Result<bool, EvaluatorError>,
)
    ensures
        ({
            let conj = AstValue::And { left: Box::new(l), right: Box::new(r) };
            let dual = AstValue::Not {
                expr: Box::new(
                    AstValue::Or {
                        left: Box::new(AstValue::Not { expr: Box::new(l) }),
                        right: Box::new(AstValue::Not { expr: Box::new(r) }),
                    },
                ),
            };
            &&& truth(conj, answer) == truth(dual, answer)
            &&& calls(conj, answer) == calls(dual, answer)
        }),
{
    let nl = AstValue::Not { expr: Box::new(l) };
    let nr = AstValue::Not { expr: Box::new(r) };
    let o = AstValue::Or { left: Box::new(nl), right: Box::new(nr) };
    assert(truth(nl, answer) == match truth(l, answer) {
        Ok(b) => Ok::<bool, EvaluatorError>(!b),
        Err(x) => Err(x),
    });
    assert(truth(nr, answer) == match truth(r, answer) {
        Ok(b) => Ok::<bool, EvaluatorError>(!b),
        Err(x) => Err(x),
    });
    assert(calls(nl, answer) == calls(l, answer));
    assert(calls(nr, answer) == calls(r, answer));
    let conj = AstValue::And { left: Box::new(l), right: Box::new(r) };
    let dual = AstValue::Not { expr: Box::new(o) };
    assert(truth(o, answer) == match truth(nl, answer) {
        Ok(false) => truth(nr, answer),
        Ok(true) => Ok::<bool, EvaluatorError>(true),
        Err(x) => Err(x),
    });
    assert(truth(dual, answer) == match truth(o, answer) {
        Ok(b) => Ok::<bool, EvaluatorError>(!b),
        Err(x) => Err(x),
    });
    assert(truth(conj, answer) == match truth(l, answer) {
        Ok(true) => truth(r, answer),
        Ok(false) => Ok::<bool, EvaluatorError>(false),
        Err(x) => Err(x),
    });
    assert(calls(dual, answer) == calls(o, answer));
    assert(calls(o, answer) == match truth(nl, answer) {
        Ok(false) => calls(nl, answer) + calls(nr, answer),
        _ => calls(nl, answer),
    });
    assert(calls(conj, answer) == match truth(l, answer) {
        Ok(true) => calls(l, answer) + calls(r, answer),
        _ => calls(l, answer),
    });
}

} // verus!
