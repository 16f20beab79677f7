//! Evaluation order of an expression, as a plan of primitive calls.
//!
//! Evaluating an [`Expr`] first rejects what the tree alone decides (an
//! unknown function or constant, a wrong number of arguments): then no
//! primitive runs, and the plan is that one failure. Otherwise evaluation
//! walks the tree left to right, depth first, and dispatches each operator,
//! call and constant to a calculator primitive; every dispatch is one step
//! of the trace, and evaluation stops at the first step that fails.
//! `compile` lays this out ahead of time: the steps in the order they run,
//! each naming its operands (a number's text, or the result of an earlier
//! step).

use vstd::prelude::*;
use vstd::string::*;
use crate::bytes::same_text;
use crate::code_mode::{args_model, expr_model, BinOp, Expr};
use crate::constants::{constant_named, resolve_constant, Constant};
use crate::grammar::SpecExpr;
use crate::primitives::{primitive_arity, primitive_name, Primitive};

verus! {

/// An error that the expression decides before any arithmetic.
#[derive(Debug)]
pub enum StaticError {
    UnknownFunction(String),
    UnknownConstant(String),
    Arity { name: String, expected: usize, got: usize },
}

impl Clone for StaticError {
    fn clone(&self) -> (r: Self)
        ensures
            r == *self,
    {
        match self {
            StaticError::UnknownFunction(n) => StaticError::UnknownFunction(n.clone()),
            StaticError::UnknownConstant(n) => StaticError::UnknownConstant(n.clone()),
            StaticError::Arity { name, expected, got } => StaticError::Arity {
                name: name.clone(),
                expected: *expected,
                got: *got,
            },
        }
    }
}

pub enum SpecStaticError {
    UnknownFunction(Seq<char>),
    UnknownConstant(Seq<char>),
    Arity { name: Seq<char>, expected: nat, got: nat },
}

pub open spec fn static_error_model(e: StaticError) -> SpecStaticError {
    match e {
        StaticError::UnknownFunction(n) => SpecStaticError::UnknownFunction(n@),
        StaticError::UnknownConstant(n) => SpecStaticError::UnknownConstant(n@),
        StaticError::Arity { name, expected, got } => SpecStaticError::Arity {
            name: name@,
            expected: expected as nat,
            got: got as nat,
        },
    }
}

/// What a call of `get_constant(...)` is told: constants are named bare.
pub open spec fn get_constant_hint() -> Seq<char> {
    "get_constant takes a name, not a number — use the bare identifier (e.g. `pi`) instead"@
}

/// The primitive a function name calls.
pub open spec fn call_target(name: Seq<char>) -> Option<Primitive> {
    if name == "add"@ {
        Some(Primitive::Add)
    } else if name == "subtract"@ {
        Some(Primitive::Subtract)
    } else if name == "multiply"@ {
        Some(Primitive::Multiply)
    } else if name == "divide"@ {
        Some(Primitive::Divide)
    } else if name == "negate"@ {
        Some(Primitive::Negate)
    } else if name == "power"@ {
        Some(Primitive::Power)
    } else if name == "sqrt"@ {
        Some(Primitive::Sqrt)
    } else if name == "log"@ {
        Some(Primitive::Log)
    } else {
        None
    }
}

/// What a call `name(...)` with `argc` arguments resolves to.
pub open spec fn call_resolution(name: Seq<char>, argc: nat) -> Result<Primitive, SpecStaticError> {
    match call_target(name) {
        Some(p) => if argc == primitive_arity(p) {
            Ok(p)
        } else {
            Err(SpecStaticError::Arity { name, expected: primitive_arity(p), got: argc })
        },
        None => if name == "get_constant"@ {
            Err(SpecStaticError::UnknownFunction(get_constant_hint()))
        } else {
            Err(SpecStaticError::UnknownFunction(name))
        },
    }
}

fn target(name: &str) -> (r: Option<Primitive>)
    ensures
        r == call_target(name@),
{
    if same_text(name, "add") {
        Some(Primitive::Add)
    } else if same_text(name, "subtract") {
        Some(Primitive::Subtract)
    } else if same_text(name, "multiply") {
        Some(Primitive::Multiply)
    } else if same_text(name, "divide") {
        Some(Primitive::Divide)
    } else if same_text(name, "negate") {
        Some(Primitive::Negate)
    } else if same_text(name, "power") {
        Some(Primitive::Power)
    } else if same_text(name, "sqrt") {
        Some(Primitive::Sqrt)
    } else if same_text(name, "log") {
        Some(Primitive::Log)
    } else {
        None
    }
}

/// The primitive that `name(...)` calls with `argc` arguments, or why the
/// call is refused: a wrong number of arguments, or an unknown name.
pub fn resolve_call(name: &str, argc: usize) -> (r: Result<Primitive, StaticError>)
    ensures
        match (r, call_resolution(name@, argc as nat)) {
            (Ok(p), Ok(q)) => p == q,
            (Err(e), Err(f)) => static_error_model(e) == f,
            _ => false,
        },
{
    match target(name) {
        Some(p) => {
            let expected = p.arity();
            if expected == argc {
                Ok(p)
            } else {
                Err(StaticError::Arity { name: String::from_str(name), expected, got: argc })
            }
        },
        None => {
            if same_text(name, "get_constant") {
                Err(
                    StaticError::UnknownFunction(
                        String::from_str(
                            "get_constant takes a name, not a number — use the bare identifier (e.g. `pi`) instead",
                        ),
                    ),
                )
            } else {
                Err(StaticError::UnknownFunction(String::from_str(name)))
            }
        },
    }
}

/// An operand of a step: a number as written, or the result of an earlier step.
#[derive(Debug)]
pub enum Operand {
    Literal(String),
    Step(usize),
}

impl Clone for Operand {
    fn clone(&self) -> (r: Self)
        ensures
            r == *self,
    {
        match self {
            Operand::Literal(t) => Operand::Literal(t.clone()),
            Operand::Step(i) => Operand::Step(*i),
        }
    }
}

/// One step of a plan.
#[derive(Debug)]
pub enum Step {
    /// Look up a constant (`get_constant`).
    Constant(Constant),
    /// Apply a primitive to operands.
    Apply(Primitive, Vec<Operand>),
    /// Stop with an error.
    Fail(StaticError),
}

/// The steps in the order they run, and the operand that is the value.
#[derive(Debug)]
pub struct Plan {
    pub steps: Vec<Step>,
    pub result: Operand,
}

pub enum SpecOperand {
    Literal(Seq<char>),
    Step(nat),
}

pub enum SpecStep {
    Constant(Constant),
    Apply(Primitive, Seq<SpecOperand>),
    Fail(SpecStaticError),
}

pub open spec fn operand_model(o: Operand) -> SpecOperand {
    match o {
        Operand::Literal(t) => SpecOperand::Literal(t@),
        Operand::Step(i) => SpecOperand::Step(i as nat),
    }
}

pub open spec fn operands_model(ops: Seq<Operand>) -> Seq<SpecOperand> {
    ops.map_values(|o: Operand| operand_model(o))
}

pub open spec fn step_model(s: Step) -> SpecStep {
    match s {
        Step::Constant(c) => SpecStep::Constant(c),
        Step::Apply(p, ops) => SpecStep::Apply(p, operands_model(ops@)),
        Step::Fail(e) => SpecStep::Fail(static_error_model(e)),
    }
}

pub open spec fn steps_model(steps: Seq<Step>) -> Seq<SpecStep> {
    steps.map_values(|s: Step| step_model(s))
}

/// The steps end with a failure: nothing after them runs.
pub open spec fn halts(steps: Seq<SpecStep>) -> bool {
    steps.len() > 0 && steps.last() is Fail
}

pub open spec fn binop_primitive_of(op: BinOp) -> Primitive {
    match op {
        BinOp::Add => Primitive::Add,
        BinOp::Sub => Primitive::Subtract,
        BinOp::Mul => Primitive::Multiply,
        BinOp::Div => Primitive::Divide,
        BinOp::Pow => Primitive::Power,
    }
}

/// The walk of `e`: its steps numbered from `base`, and the operand that
/// holds its value. The walk stops at a `Fail` step where it meets an error
/// that the tree decides; `plan_of` takes it only where there is none.
pub open spec fn compile_expr(e: SpecExpr, base: nat) -> (Seq<SpecStep>, SpecOperand)
    decreases e,
{
    match e {
        SpecExpr::Num(t) => (seq![], SpecOperand::Literal(t)),
        SpecExpr::Const(n) => match constant_named(n) {
            Some(c) => (seq![SpecStep::Constant(c)], SpecOperand::Step(base)),
            None => (
                seq![SpecStep::Fail(SpecStaticError::UnknownConstant(n))],
                SpecOperand::Step(base),
            ),
        },
        SpecExpr::Neg(x) => {
            let (xs, xo) = compile_expr(*x, base);
            if halts(xs) {
                (xs, xo)
            } else {
                (
                    xs.push(SpecStep::Apply(Primitive::Negate, seq![xo])),
                    SpecOperand::Step(base + xs.len()),
                )
            }
        },
        SpecExpr::BinOp(op, l, r) => {
            let (ls, lo) = compile_expr(*l, base);
            if halts(ls) {
                (ls, lo)
            } else {
                let (rs, ro) = compile_expr(*r, base + ls.len());
                if halts(rs) {
                    (ls + rs, ro)
                } else {
                    (
                        (ls + rs).push(SpecStep::Apply(binop_primitive_of(op), seq![lo, ro])),
                        SpecOperand::Step(base + ls.len() + rs.len()),
                    )
                }
            }
        },
        SpecExpr::Call(n, args) => {
            let (as_, ops) = compile_args(args, base);
            if halts(as_) {
                (as_, SpecOperand::Step(base))
            } else {
                match call_resolution(n, args.len()) {
                    Ok(p) => (
                        as_.push(SpecStep::Apply(p, ops)),
                        SpecOperand::Step(base + as_.len()),
                    ),
                    Err(err) => (as_.push(SpecStep::Fail(err)), SpecOperand::Step(base + as_.len())),
                }
            }
        },
    }
}

/// The steps that evaluating `args` left to right runs, and their operands.
pub open spec fn compile_args(args: Seq<SpecExpr>, base: nat) -> (Seq<SpecStep>, Seq<SpecOperand>)
    decreases args,
{
    if args.len() == 0 {
        (seq![], seq![])
    } else {
        let (ps, ops) = compile_args(args.drop_last(), base);
        if halts(ps) {
            (ps, ops)
        } else {
            let (s, o) = compile_expr(args.last(), base + ps.len());
            (ps + s, ops.push(o))
        }
    }
}

proof fn lemma_args_halted(args: Seq<SpecExpr>, base: nat, k: int, j: int)
    requires
        0 <= k <= j <= args.len(),
        halts(compile_args(args.take(k), base).0),
    ensures
        compile_args(args.take(j), base) == compile_args(args.take(k), base),
    decreases j - k,
{
    if j > k {
        lemma_args_halted(args, base, k, j - 1);
        assert(args.take(j).drop_last() =~= args.take(j - 1));
    }
}

fn halted(steps: &Vec<Step>) -> (r: bool)
    ensures
        r == halts(steps_model(steps@)),
{
    if steps.len() == 0 {
        return false;
    }
    match &steps[steps.len() - 1] {
        Step::Fail(_) => true,
        _ => false,
    }
}

fn binop_primitive(op: BinOp) -> (r: Primitive)
    ensures
        r == binop_primitive_of(op),
{
    match op {
        BinOp::Add => Primitive::Add,
        BinOp::Sub => Primitive::Subtract,
        BinOp::Mul => Primitive::Multiply,
        BinOp::Div => Primitive::Divide,
        BinOp::Pow => Primitive::Power,
    }
}

proof fn lemma_halts_append(a: Seq<SpecStep>, b: Seq<SpecStep>)
    requires
        !halts(a),
    ensures
        halts(a + b) == halts(b),
{
    if b.len() > 0 {
        assert((a + b).last() == b.last());
    } else {
        assert(a + b =~= a);
    }
}

proof fn lemma_steps_push(steps: Seq<Step>, s: Step)
    ensures
        steps_model(steps.push(s)) == steps_model(steps).push(step_model(s)),
{
    assert(steps_model(steps.push(s)) =~= steps_model(steps).push(step_model(s)));
}

/// Appends to `steps` the steps of evaluating `e`, and gives the operand
/// that holds its value.
fn compile_into(e: &Expr, steps: &mut Vec<Step>) -> (r: Operand)
    requires
        !halts(steps_model(old(steps)@)),
    ensures
        steps_model(final(steps)@) == steps_model(old(steps)@) + compile_expr(
            expr_model(*e),
            old(steps)@.len() as nat,
        ).0,
        operand_model(r) == compile_expr(expr_model(*e), old(steps)@.len() as nat).1,
    decreases e,
{
    let ghost before = steps_model(steps@);
    let ghost base = steps@.len() as nat;
    match e {
        Expr::Num(t) => {
            assert(before + seq![] =~= before);
            Operand::Literal(t.clone())
        },
        Expr::Const(n) => {
            let i = steps.len();
            let step = match resolve_constant(n.as_str()) {
                Ok(c) => Step::Constant(c),
                Err(_) => Step::Fail(StaticError::UnknownConstant(n.clone())),
            };
            proof {
                lemma_steps_push(steps@, step);
            }
            steps.push(step);
            assert(steps_model(steps@) =~= before + compile_expr(expr_model(*e), base).0);
            Operand::Step(i)
        },
        Expr::Neg(x) => {
            let xo = compile_into(x, steps);
            let ghost xs = compile_expr(expr_model(**x), base).0;
            proof {
                lemma_halts_append(before, xs);
            }
            if halted(steps) {
                return xo;
            }
            let i = steps.len();
            let ghost mid = steps@;
            let ops = vec![xo];
            proof {
                assert(operands_model(ops@) =~= seq![operand_model(xo)]);
                lemma_steps_push(mid, Step::Apply(Primitive::Negate, ops));
            }
            steps.push(Step::Apply(Primitive::Negate, ops));
            assert(steps_model(steps@) =~= before + compile_expr(expr_model(*e), base).0);
            Operand::Step(i)
        },
        Expr::BinOp(op, l, r) => {
            let lo = compile_into(l, steps);
            let ghost ls = compile_expr(expr_model(**l), base).0;
            proof {
                lemma_halts_append(before, ls);
            }
            if halted(steps) {
                return lo;
            }
            let ro = compile_into(r, steps);
            let ghost rs = compile_expr(expr_model(**r), base + ls.len()).0;
            proof {
                lemma_halts_append(before + ls, rs);
                assert(before + ls + rs =~= before + (ls + rs));
            }
            if halted(steps) {
                return ro;
            }
            let i = steps.len();
            let ghost mid = steps@;
            let p = binop_primitive(*op);
            let ops = vec![lo, ro];
            proof {
                assert(operands_model(ops@) =~= seq![operand_model(lo), operand_model(ro)]);
                lemma_steps_push(mid, Step::Apply(p, ops));
            }
            steps.push(Step::Apply(p, ops));
            assert(steps_model(steps@) =~= before + compile_expr(expr_model(*e), base).0);
            Operand::Step(i)
        },
        Expr::Call(n, args) => {
            let ghost am = args_model(args@);
            let start = steps.len();
            let mut ops: Vec<Operand> = Vec::new();
            let mut k: usize = 0;
            proof {
                crate::code_mode::lemma_args_model(args@);
                assert(am.take(0) =~= Seq::<SpecExpr>::empty());
                assert(am.take(am.len() as int) =~= am);
                assert(before + seq![] =~= before);
                assert(operands_model(ops@) =~= seq![]);
            }
            while k < args.len()
                invariant_except_break
                    *e is Call,
                    (*e)->Call_1 == *args,
                    k <= args@.len(),
                    start == base,
                    before.len() == base,
                    am == args_model(args@),
                    am.len() == args@.len(),
                    am.take(am.len() as int) == am,
                    forall|i: int| 0 <= i < args@.len() ==> #[trigger] am[i] == expr_model(args@[i]),
                    !halts(before),
                    steps_model(steps@) == before + compile_args(am.take(k as int), base).0,
                    operands_model(ops@) == compile_args(am.take(k as int), base).1,
                    !halts(compile_args(am.take(k as int), base).0),
                ensures
                    start == base,
                    !halts(before),
                    steps_model(steps@) == before + compile_args(am, base).0,
                    operands_model(ops@) == compile_args(am, base).1,
                decreases args@.len() - k,
            {
                let ghost cur = compile_args(am.take(k as int), base);
                let ghost mid = steps@;
                proof {
                    lemma_halts_append(before, cur.0);
                }
                proof {
                    assert(decreases_to!(*e => (*e)->Call_1));
                    assert(decreases_to!(*args => args@));
                    assert(decreases_to!(args@ => args@[k as int]));
                }
                let o = compile_into(&args[k], steps);
                let ghost one = compile_expr(am[k as int], base + cur.0.len());
                let ghost prev_ops = ops@;
                ops.push(o);
                k = k + 1;
                proof {
                    assert(am.take(k as int).drop_last() =~= am.take(k - 1));
                    assert(am.take(k as int).last() == am[k - 1]);
                    assert(compile_args(am.take(k as int), base) == (cur.0 + one.0, cur.1.push(one.1)));
                    assert(before + cur.0 + one.0 =~= before + (cur.0 + one.0));
                    assert(operands_model(ops@) =~= operands_model(prev_ops).push(operand_model(o)));
                    lemma_halts_append(before, cur.0 + one.0);
                }
                if halted(steps) {
                    proof {
                        lemma_args_halted(am, base, k as int, am.len() as int);
                        assert(am.take(am.len() as int) =~= am);
                    }
                    break;
                }
            }
            proof {
                if k == args.len() {
                    assert(am.take(am.len() as int) =~= am);
                }
                lemma_halts_append(before, compile_args(am, base).0);
            }
            if halted(steps) {
                return Operand::Step(start);
            }
            let i = steps.len();
            let ghost mid = steps@;
            match resolve_call(n.as_str(), args.len()) {
                Ok(p) => {
                    proof {
                        lemma_steps_push(mid, Step::Apply(p, ops));
                    }
                    steps.push(Step::Apply(p, ops));
                },
                Err(err) => {
                    proof {
                        lemma_steps_push(mid, Step::Fail(err));
                    }
                    steps.push(Step::Fail(err));
                },
            }
            assert(steps_model(steps@) =~= before + compile_expr(expr_model(*e), base).0);
            Operand::Step(i)
        },
    }
}

/// The first error that the tree alone decides, meeting the nodes in the
/// order evaluation would (arguments left to right before their call), or
/// `None` when every name is known and every call has the right number of
/// arguments.
pub open spec fn first_error(e: SpecExpr) -> Option<SpecStaticError>
    decreases e,
{
    match e {
        SpecExpr::Num(_) => None,
        SpecExpr::Const(n) => if constant_named(n) is Some {
            None
        } else {
            Some(SpecStaticError::UnknownConstant(n))
        },
        SpecExpr::Neg(x) => first_error(*x),
        SpecExpr::BinOp(_, l, r) => if first_error(*l) is Some {
            first_error(*l)
        } else {
            first_error(*r)
        },
        SpecExpr::Call(n, args) => if first_error_args(args) is Some {
            first_error_args(args)
        } else {
            match call_resolution(n, args.len()) {
                Ok(_) => None,
                Err(err) => Some(err),
            }
        },
    }
}

pub open spec fn first_error_args(args: Seq<SpecExpr>) -> Option<SpecStaticError>
    decreases args,
{
    if args.len() == 0 {
        None
    } else if first_error_args(args.drop_last()) is Some {
        first_error_args(args.drop_last())
    } else {
        first_error(args.last())
    }
}

pub open spec fn static_error_outcome(r: Option<StaticError>, expected: Option<SpecStaticError>) -> bool {
    match (r, expected) {
        (None, None) => true,
        (Some(x), Some(y)) => static_error_model(x) == y,
        _ => false,
    }
}

proof fn lemma_first_error_args_found(args: Seq<SpecExpr>, i: int, j: int)
    requires
        0 <= i < j <= args.len(),
        first_error_args(args.take(i)) is None,
        first_error(args[i]) is Some,
    ensures
        first_error_args(args.take(j)) == first_error(args[i]),
    decreases j - i,
{
    assert(args.take(j).drop_last() =~= args.take(j - 1));
    if j == i + 1 {
        assert(args.take(j).last() == args[i]);
    } else {
        lemma_first_error_args_found(args, i, j - 1);
    }
}

/// The first error that the tree alone decides (see [`first_error`]).
pub fn first_error_in(e: &Expr) -> (r: Option<StaticError>)
    ensures
        static_error_outcome(r, first_error(expr_model(*e))),
    decreases e,
{
    match e {
        Expr::Num(_) => None,
        Expr::Const(n) => match resolve_constant(n.as_str()) {
            Ok(_) => None,
            Err(_) => Some(StaticError::UnknownConstant(n.clone())),
        },
        Expr::Neg(x) => first_error_in(x),
        Expr::BinOp(_, l, r) => {
            let a = first_error_in(l);
            if a.is_some() {
                a
            } else {
                first_error_in(r)
            }
        },
        Expr::Call(n, args) => {
            let ghost am = args_model(args@);
            proof {
                crate::code_mode::lemma_args_model(args@);
                assert(am.take(0) =~= Seq::<SpecExpr>::empty());
                assert(am.take(am.len() as int) =~= am);
            }
            let mut k: usize = 0;
            while k < args.len()
                invariant
                    *e is Call,
                    (*e)->Call_1 == *args,
                    k <= args@.len(),
                    am == args_model(args@),
                    am.len() == args@.len(),
                    am.take(am.len() as int) == am,
                    forall|i: int| 0 <= i < args@.len() ==> #[trigger] am[i] == expr_model(args@[i]),
                    first_error_args(am.take(k as int)) is None,
                decreases args@.len() - k,
            {
                proof {
                    assert(decreases_to!(*e => (*e)->Call_1));
                    assert(decreases_to!(*args => args@));
                    assert(decreases_to!(args@ => args@[k as int]));
                }
                let a = first_error_in(&args[k]);
                if a.is_some() {
                    proof {
                        lemma_first_error_args_found(am, k as int, am.len() as int);
                    }
                    return a;
                }
                proof {
                    assert(am.take(k + 1).drop_last() =~= am.take(k as int));
                    assert(am.take(k + 1).last() == am[k as int]);
                }
                k = k + 1;
            }
            match resolve_call(n.as_str(), args.len()) {
                Ok(_) => None,
                Err(err) => Some(err),
            }
        },
    }
}

/// What evaluation runs: the walk of `compile_expr` when the tree decides
/// no error, and otherwise only the failure, before any primitive runs.
pub open spec fn plan_of(e: SpecExpr) -> (Seq<SpecStep>, SpecOperand) {
    match first_error(e) {
        Some(err) => (seq![SpecStep::Fail(err)], SpecOperand::Step(0)),
        None => compile_expr(e, 0),
    }
}

/// The plan of evaluating `expr`: the steps that evaluation runs, in order,
/// and the operand that is its value. An unknown name or a wrong number of
/// arguments is found before anything runs: the plan is then that one
/// failure.
pub fn compile(expr: &Expr) -> (p: Plan)
    ensures
        steps_model(p.steps@) == plan_of(expr_model(*expr)).0,
        operand_model(p.result) == plan_of(expr_model(*expr)).1,
{
    let mut steps: Vec<Step> = Vec::new();
    if let Some(err) = first_error_in(expr) {
        steps.push(Step::Fail(err));
        proof {
            assert(steps_model(steps@) =~= seq![SpecStep::Fail(static_error_model(err))]);
        }
        return Plan { steps, result: Operand::Step(0) };
    }
    proof {
        assert(steps_model(steps@) =~= Seq::<SpecStep>::empty());
    }
    let result = compile_into(expr, &mut steps);
    proof {
        assert(Seq::<SpecStep>::empty() + compile_expr(expr_model(*expr), 0).0 =~= compile_expr(
            expr_model(*expr),
            0,
        ).0);
    }
    Plan { steps, result }
}

// ---------------------------------------------------------------------------
// What every plan satisfies.
// ---------------------------------------------------------------------------

/// How many primitives evaluating `e` dispatches when nothing fails: one per
/// constant, operator and call.
pub open spec fn dispatches(e: SpecExpr) -> nat
    decreases e,
{
    match e {
        SpecExpr::Num(_) => 0,
        SpecExpr::Const(_) => 1,
        SpecExpr::Neg(x) => dispatches(*x) + 1,
        SpecExpr::BinOp(_, l, r) => dispatches(*l) + dispatches(*r) + 1,
        SpecExpr::Call(_, args) => dispatches_args(args) + 1,
    }
}

pub open spec fn dispatches_args(args: Seq<SpecExpr>) -> nat
    decreases args,
{
    if args.len() == 0 {
        0
    } else {
        dispatches_args(args.drop_last()) + dispatches(args.last())
    }
}

/// Every constant in `e` is known, and every call names a primitive with
/// the right number of arguments.
pub open spec fn resolvable(e: SpecExpr) -> bool
    decreases e,
{
    match e {
        SpecExpr::Num(_) => true,
        SpecExpr::Const(n) => constant_named(n) is Some,
        SpecExpr::Neg(x) => resolvable(*x),
        SpecExpr::BinOp(_, l, r) => resolvable(*l) && resolvable(*r),
        SpecExpr::Call(n, args) => resolvable_args(args) && call_resolution(n, args.len()) is Ok,
    }
}

pub open spec fn resolvable_args(args: Seq<SpecExpr>) -> bool
    decreases args,
{
    if args.len() == 0 {
        true
    } else {
        resolvable_args(args.drop_last()) && resolvable(args.last())
    }
}

/// `o` is a number, or the result of a step of `s` (numbered from `base`)
/// that does not fail.
pub open spec fn operand_in(s: Seq<SpecStep>, base: nat, o: SpecOperand) -> bool {
    match o {
        SpecOperand::Literal(_) => true,
        SpecOperand::Step(i) => base <= i < base + s.len() && !(s[i - base] is Fail),
    }
}

/// Step `k` of `s` applies a primitive to as many operands as it takes, each
/// of them a number or the result of an earlier step.
pub open spec fn step_ok(s: Seq<SpecStep>, base: nat, k: int) -> bool {
    s[k] matches SpecStep::Apply(p, ops) ==> {
        &&& ops.len() == primitive_arity(p)
        &&& forall|j: int| 0 <= j < ops.len() ==> operand_in(s.take(k), base, #[trigger] ops[j])
    }
}

/// Steps numbered from `base`: only the last may fail, and every step reads
/// numbers or results of earlier steps.
pub open spec fn steps_ok(s: Seq<SpecStep>, base: nat) -> bool {
    &&& forall|k: int| 0 <= k < s.len() - 1 ==> !(#[trigger] s[k] is Fail)
    &&& forall|k: int| 0 <= k < s.len() ==> #[trigger] step_ok(s, base, k)
}

/// A plan can run: its steps only read what is there, and unless it ends
/// in a failure, its value is a number or the result of a step.
pub open spec fn plan_ok(steps: Seq<SpecStep>, result: SpecOperand) -> bool {
    &&& steps_ok(steps, 0)
    &&& !halts(steps) ==> operand_in(steps, 0, result)
}

proof fn lemma_operand_extend(a: Seq<SpecStep>, b: Seq<SpecStep>, base: nat, o: SpecOperand)
    requires
        operand_in(a, base, o),
    ensures
        operand_in(a + b, base, o),
{
    if let SpecOperand::Step(i) = o {
        assert((a + b)[i - base] == a[i - base]);
    }
}

proof fn lemma_operand_shift(a: Seq<SpecStep>, b: Seq<SpecStep>, base: nat, o: SpecOperand)
    requires
        operand_in(b, base + a.len(), o),
    ensures
        operand_in(a + b, base, o),
{
    if let SpecOperand::Step(i) = o {
        assert((a + b)[i - base] == b[i - base - a.len()]);
    }
}

proof fn lemma_steps_concat(a: Seq<SpecStep>, b: Seq<SpecStep>, base: nat)
    requires
        steps_ok(a, base),
        steps_ok(b, base + a.len()),
        !halts(a),
    ensures
        steps_ok(a + b, base),
        halts(a + b) == halts(b),
{
    let c = a + b;
    lemma_halts_append(a, b);
    assert forall|k: int| 0 <= k < c.len() - 1 implies !(#[trigger] c[k] is Fail) by {
        if k < a.len() - 1 {
            assert(c[k] == a[k]);
        } else if k == a.len() - 1 {
            assert(c[k] == a.last());
        } else {
            assert(c[k] == b[k - a.len()]);
        }
    }
    assert forall|k: int| 0 <= k < c.len() implies #[trigger] step_ok(c, base, k) by {
        if k < a.len() {
            assert(c[k] == a[k]);
            assert(step_ok(a, base, k));
            assert(c.take(k) =~= a.take(k));
        } else {
            let kb = k - a.len();
            assert(c[k] == b[kb]);
            assert(step_ok(b, base + a.len(), kb));
            assert(c.take(k) =~= a + b.take(kb));
            if let SpecStep::Apply(p, ops) = c[k] {
                assert forall|j: int| 0 <= j < ops.len() implies operand_in(
                    c.take(k),
                    base,
                    #[trigger] ops[j],
                ) by {
                    lemma_operand_shift(a, b.take(kb), base, ops[j]);
                }
            }
        }
    }
}

proof fn lemma_steps_push_apply(s: Seq<SpecStep>, base: nat, p: Primitive, ops: Seq<SpecOperand>)
    requires
        steps_ok(s, base),
        !halts(s),
        ops.len() == primitive_arity(p),
        forall|j: int| 0 <= j < ops.len() ==> operand_in(s, base, #[trigger] ops[j]),
    ensures
        steps_ok(s.push(SpecStep::Apply(p, ops)), base),
        !halts(s.push(SpecStep::Apply(p, ops))),
        operand_in(s.push(SpecStep::Apply(p, ops)), base, SpecOperand::Step(base + s.len())),
{
    let c = s.push(SpecStep::Apply(p, ops));
    assert forall|k: int| 0 <= k < c.len() - 1 implies !(#[trigger] c[k] is Fail) by {
        assert(c[k] == s[k]);
        if k == s.len() - 1 {
            assert(s.last() == s[k]);
        }
    }
    assert forall|k: int| 0 <= k < c.len() implies #[trigger] step_ok(c, base, k) by {
        if k < s.len() {
            assert(c[k] == s[k]);
            assert(step_ok(s, base, k));
            assert(c.take(k) =~= s.take(k));
        } else {
            assert(c.take(k) =~= s);
        }
    }
}

proof fn lemma_steps_push_end(s: Seq<SpecStep>, base: nat, last: SpecStep)
    requires
        steps_ok(s, base),
        !halts(s),
        !(last is Apply),
    ensures
        steps_ok(s.push(last), base),
        halts(s.push(last)) == (last is Fail),
        !(last is Fail) ==> operand_in(s.push(last), base, SpecOperand::Step(base + s.len())),
{
    let c = s.push(last);
    assert forall|k: int| 0 <= k < c.len() - 1 implies !(#[trigger] c[k] is Fail) by {
        assert(c[k] == s[k]);
        if k == s.len() - 1 {
            assert(s.last() == s[k]);
        }
    }
    assert forall|k: int| 0 <= k < c.len() implies #[trigger] step_ok(c, base, k) by {
        if k < s.len() {
            assert(c[k] == s[k]);
            assert(step_ok(s, base, k));
            assert(c.take(k) =~= s.take(k));
        }
    }
}

proof fn lemma_compile_expr(e: SpecExpr, base: nat)
    ensures
        steps_ok(compile_expr(e, base).0, base),
        halts(compile_expr(e, base).0) <==> !resolvable(e),
        !halts(compile_expr(e, base).0) ==> operand_in(
            compile_expr(e, base).0,
            base,
            compile_expr(e, base).1,
        ) && compile_expr(e, base).0.len() == dispatches(e),
    decreases e,
{
    let empty = Seq::<SpecStep>::empty();
    match e {
        SpecExpr::Num(t) => {},
        SpecExpr::Const(n) => {
            let step = match constant_named(n) {
                Some(c) => SpecStep::Constant(c),
                None => SpecStep::Fail(SpecStaticError::UnknownConstant(n)),
            };
            lemma_steps_push_end(empty, base, step);
            assert(empty.push(step) =~= seq![step]);
        },
        SpecExpr::Neg(x) => {
            lemma_compile_expr(*x, base);
            let (xs, xo) = compile_expr(*x, base);
            if !halts(xs) {
                lemma_steps_push_apply(xs, base, Primitive::Negate, seq![xo]);
            }
        },
        SpecExpr::BinOp(op, l, r) => {
            lemma_compile_expr(*l, base);
            let (ls, lo) = compile_expr(*l, base);
            if !halts(ls) {
                lemma_compile_expr(*r, base + ls.len());
                let (rs, ro) = compile_expr(*r, base + ls.len());
                lemma_steps_concat(ls, rs, base);
                if !halts(rs) {
                    lemma_operand_extend(ls, rs, base, lo);
                    lemma_operand_shift(ls, rs, base, ro);
                    let ops = seq![lo, ro];
                    assert forall|j: int| 0 <= j < ops.len() implies operand_in(
                        ls + rs,
                        base,
                        #[trigger] ops[j],
                    ) by {}
                    lemma_steps_push_apply(ls + rs, base, binop_primitive_of(op), ops);
                }
            }
        },
        SpecExpr::Call(n, args) => {
            lemma_compile_args(args, base);
            let (as_, ops) = compile_args(args, base);
            if !halts(as_) {
                match call_resolution(n, args.len()) {
                    Ok(p) => {
                        lemma_steps_push_apply(as_, base, p, ops);
                    },
                    Err(err) => {
                        lemma_steps_push_end(as_, base, SpecStep::Fail(err));
                    },
                }
            }
        },
    }
}

proof fn lemma_compile_args(args: Seq<SpecExpr>, base: nat)
    ensures
        steps_ok(compile_args(args, base).0, base),
        halts(compile_args(args, base).0) <==> !resolvable_args(args),
        !halts(compile_args(args, base).0) ==> {
            let (s, ops) = compile_args(args, base);
            &&& ops.len() == args.len()
            &&& forall|j: int| 0 <= j < ops.len() ==> operand_in(s, base, #[trigger] ops[j])
            &&& s.len() == dispatches_args(args)
        },
    decreases args,
{
    if args.len() > 0 {
        lemma_compile_args(args.drop_last(), base);
        let (ps, ops) = compile_args(args.drop_last(), base);
        if !halts(ps) {
            lemma_compile_expr(args.last(), base + ps.len());
            let (s, o) = compile_expr(args.last(), base + ps.len());
            lemma_steps_concat(ps, s, base);
            if !halts(s) {
                let all = ops.push(o);
                assert forall|j: int| 0 <= j < all.len() implies operand_in(
                    ps + s,
                    base,
                    #[trigger] all[j],
                ) by {
                    if j < ops.len() {
                        lemma_operand_extend(ps, s, base, ops[j]);
                    } else {
                        lemma_operand_shift(ps, s, base, o);
                    }
                }
            }
        }
    }
}

proof fn lemma_first_error_resolvable(e: SpecExpr)
    ensures
        first_error(e) is None <==> resolvable(e),
    decreases e,
{
    match e {
        SpecExpr::Num(_) => {},
        SpecExpr::Const(_) => {},
        SpecExpr::Neg(x) => lemma_first_error_resolvable(*x),
        SpecExpr::BinOp(_, l, r) => {
            lemma_first_error_resolvable(*l);
            lemma_first_error_resolvable(*r);
        },
        SpecExpr::Call(_, args) => lemma_first_error_resolvable_args(args),
    }
}

proof fn lemma_first_error_resolvable_args(args: Seq<SpecExpr>)
    ensures
        first_error_args(args) is None <==> resolvable_args(args),
    decreases args,
{
    if args.len() > 0 {
        lemma_first_error_resolvable_args(args.drop_last());
        lemma_first_error_resolvable(args.last());
    }
}

/// Every plan that `compile` lays out can run: only its last step may fail,
/// each step applies a primitive to as many operands as it takes, each of
/// them a number or the result of an earlier step that did not fail, and
/// the value is such an operand too. The plan fails on its own exactly when
/// the expression names an unknown constant or function, or calls a
/// primitive with the wrong number of arguments, and then it is that one
/// failure, the first that evaluation order meets, with no primitive run
/// before it; otherwise it has one step per constant, operator and call.
pub proof fn law_compiled_plan(e: SpecExpr)
    ensures
        plan_ok(plan_of(e).0, plan_of(e).1),
        halts(plan_of(e).0) <==> !resolvable(e),
        !resolvable(e) ==> first_error(e) is Some && plan_of(e).0 == seq![
            SpecStep::Fail(first_error(e)->0),
        ],
        resolvable(e) ==> plan_of(e).0.len() == dispatches(e),
{
    lemma_first_error_resolvable(e);
    lemma_compile_expr(e, 0);
}

/// Each primitive is called by its own tool name: `name(...)` with as many
/// arguments as the primitive takes calls it, with any other number it is
/// an arity error that names the call, and an operator is carried out by
/// the primitive whose name `BinOp::primitive` gives.
pub proof fn law_calls_by_name(p: Primitive, argc: nat, op: BinOp)
    ensures
        call_resolution(primitive_name(p), argc) == if argc == primitive_arity(p) {
            Ok::<Primitive, SpecStaticError>(p)
        } else {
            Err(SpecStaticError::Arity { name: primitive_name(p), expected: primitive_arity(p), got: argc })
        },
        primitive_name(binop_primitive_of(op)) == crate::code_mode::binop_primitive(op),
        primitive_arity(binop_primitive_of(op)) == 2,
{
    reveal_strlit("add");
    reveal_strlit("subtract");
    reveal_strlit("multiply");
    reveal_strlit("divide");
    reveal_strlit("negate");
    reveal_strlit("power");
    reveal_strlit("sqrt");
    reveal_strlit("log");
    match p {
        Primitive::Add => {
            assert(call_target("add"@) == Some(Primitive::Add));
        },
        Primitive::Subtract => {
            assert("subtract"@.len() != "add"@.len());
            assert(call_target("subtract"@) == Some(Primitive::Subtract));
        },
        Primitive::Multiply => {
            assert("multiply"@.len() != "add"@.len());
            assert("multiply"@[0] != "subtract"@[0]);
            assert(call_target("multiply"@) == Some(Primitive::Multiply));
        },
        Primitive::Divide => {
            assert("divide"@.len() != "add"@.len());
            assert("divide"@.len() != "subtract"@.len());
            assert("divide"@.len() != "multiply"@.len());
            assert(call_target("divide"@) == Some(Primitive::Divide));
        },
        Primitive::Negate => {
            assert("negate"@.len() != "add"@.len());
            assert("negate"@.len() != "subtract"@.len());
            assert("negate"@.len() != "multiply"@.len());
            assert("negate"@[0] != "divide"@[0]);
            assert(call_target("negate"@) == Some(Primitive::Negate));
        },
        Primitive::Power => {
            assert("power"@.len() != "add"@.len());
            assert("power"@.len() != "subtract"@.len());
            assert("power"@.len() != "multiply"@.len());
            assert("power"@.len() != "divide"@.len());
            assert("power"@.len() != "negate"@.len());
            assert(call_target("power"@) == Some(Primitive::Power));
        },
        Primitive::Sqrt => {
            assert("sqrt"@.len() != "add"@.len());
            assert("sqrt"@.len() != "subtract"@.len());
            assert("sqrt"@.len() != "multiply"@.len());
            assert("sqrt"@.len() != "divide"@.len());
            assert("sqrt"@.len() != "negate"@.len());
            assert("sqrt"@.len() != "power"@.len());
            assert(call_target("sqrt"@) == Some(Primitive::Sqrt));
        },
        Primitive::Log => {
            assert("log"@[0] != "add"@[0]);
            assert("log"@.len() != "subtract"@.len());
            assert("log"@.len() != "multiply"@.len());
            assert("log"@.len() != "divide"@.len());
            assert("log"@.len() != "negate"@.len());
            assert("log"@.len() != "power"@.len());
            assert("log"@.len() != "sqrt"@.len());
            assert(call_target("log"@) == Some(Primitive::Log));
        },
    }
}

} // verus!
