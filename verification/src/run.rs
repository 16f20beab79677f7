//! Running a plan: each step is dispatched in turn, its record appended to
//! the trace, and the run stops at the first step that fails. What a step
//! computes is left to the caller (`dispatch`), which is handed the step and
//! the values of the steps before it; `read` gives the value of an operand.

use vstd::prelude::*;
use crate::code_mode::{expr_model, Expr};
use crate::plan::{
    compile, dispatches, first_error, law_compiled_plan, operand_model, plan_of, resolvable,
    static_error_model, step_model, steps_model, Operand, Plan, StaticError, Step,
};

verus! {

/// Why a run stops without a value.
#[derive(Debug)]
pub enum RunError {
    /// The plan fails on its own (an unknown name, a wrong arity).
    Static(StaticError),
    /// A dispatched step failed; its record is the last one in the trace.
    StepFailed,
}

/// What a run gives back: its outcome, the record of each dispatch, and the
/// value of each step that succeeded, in order.
pub struct Run<V, R> {
    pub result: Result<V, RunError>,
    pub records: Vec<R>,
    pub values: Vec<V>,
}

/// `dispatch`, handed `step` and the values `before` of the steps before it,
/// may answer with `record` and `out`.
pub open spec fn dispatched<V, R, D: Fn(&Step, &Vec<V>) -> (R, Option<V>)>(
    dispatch: D,
    step: Step,
    before: Seq<V>,
    record: R,
    out: Option<V>,
) -> bool {
    exists|w: Vec<V>| w@ == before && #[trigger] call_ensures(dispatch, (&step, &w), (record, out))
}

/// `read`, handed `o` and the values `vals` of the steps, may answer with `v`.
pub open spec fn read_as<V, Q: Fn(&Operand, &Vec<V>) -> V>(read: Q, o: Operand, vals: Seq<V>, v: V) -> bool {
    exists|w: Vec<V>| w@ == vals && #[trigger] call_ensures(read, (&o, &w), v)
}

/// The step fails on its own, without running anything.
pub open spec fn fails_alone(s: Step) -> bool {
    s is Fail
}

/// The records `records` are those of dispatching the first steps of
/// `steps` in turn, none of which fails on its own; each step was handed
/// the values of the steps before it, and gave its value in `vals`, except
/// a last step that gave none.
pub open spec fn ran<V, R, D: Fn(&Step, &Vec<V>) -> (R, Option<V>)>(
    dispatch: D,
    steps: Seq<Step>,
    records: Seq<R>,
    vals: Seq<V>,
) -> bool {
    &&& records.len() <= steps.len()
    &&& forall|j: int|
        0 <= j < records.len() ==> !fails_alone(steps[j]) && dispatched(
            dispatch,
            steps[j],
            vals.take(j),
            #[trigger] records[j],
            if j < vals.len() {
                Some(vals[j])
            } else {
                None
            },
        )
}

/// Runs the steps of `plan` in order, recording each dispatch. It stops at
/// a step that fails on its own, before dispatching it, or after a dispatch
/// that gives no value; otherwise its value is what `read` gives for the
/// plan's result.
pub fn run<V, R, D, Q>(plan: &Plan, dispatch: &D, read: &Q) -> (r: Run<V, R>)
    where
        D: Fn(&Step, &Vec<V>) -> (R, Option<V>),
        Q: Fn(&Operand, &Vec<V>) -> V,
    requires
        forall|s: &Step, w: &Vec<V>| #[trigger] dispatch.requires((s, w)),
        forall|o: &Operand, w: &Vec<V>| #[trigger] read.requires((o, w)),
    ensures
        ran(*dispatch, plan.steps@, r.records@, r.values@),
        r.result matches Ok(v) ==> r.records@.len() == plan.steps@.len() && r.values@.len()
            == plan.steps@.len() && read_as(*read, plan.result, r.values@, v),
        r.result matches Err(RunError::StepFailed) ==> r.records@.len() > 0 && r.values@.len()
            == r.records@.len() - 1,
        r.result matches Err(RunError::Static(e)) ==> r.values@.len() == r.records@.len()
            && r.records@.len() < plan.steps@.len() && plan.steps@[r.records@.len() as int]
            == Step::Fail(e),
{
    let mut records: Vec<R> = Vec::new();
    let mut vals: Vec<V> = Vec::new();
    let mut i: usize = 0;
    while i < plan.steps.len()
        invariant
            forall|s: &Step, w: &Vec<V>| #[trigger] dispatch.requires((s, w)),
            records@.len() == i,
            vals@.len() == i,
            i <= plan.steps@.len(),
            ran(*dispatch, plan.steps@, records@, vals@),
        decreases plan.steps@.len() - i,
    {
        let step = &plan.steps[i];
        match step {
            Step::Fail(e) => {
                return Run { result: Err(RunError::Static(e.clone())), records, values: vals };
            },
            _ => {},
        }
        assert(!fails_alone(plan.steps@[i as int]));
        let (record, out) = dispatch(step, &vals);
        let ghost w = vals;
        let ghost rec = record;
        let ghost old_vals = vals@;
        let ghost old_records = records@;
        proof {
            assert(call_ensures(*dispatch, (step, &w), (rec, out)));
            assert(dispatched(*dispatch, plan.steps@[i as int], vals@, rec, out));
        }
        records.push(record);
        let failed = out.is_none();
        match out {
            Some(v) => {
                vals.push(v);
            },
            None => {},
        }
        proof {
            assert forall|j: int| 0 <= j < records@.len() implies !fails_alone(plan.steps@[j])
                && dispatched(
                *dispatch,
                plan.steps@[j],
                vals@.take(j),
                #[trigger] records@[j],
                if j < vals@.len() {
                    Some(vals@[j])
                } else {
                    None
                },
            ) by {
                assert(vals@.take(j) =~= old_vals.take(j));
                if j < i {
                    assert(records@[j] == old_records[j]);
                } else {
                    assert(old_vals.take(j) =~= old_vals);
                }
            }
            assert forall|j: int| 0 <= j < records@.len() implies !fails_alone(plan.steps@[j]) by {
                if j < i {
                    assert(records@[j] == old_records[j]);
                    assert(dispatched(
                        *dispatch,
                        plan.steps@[j],
                        old_vals.take(j),
                        old_records[j],
                        Some(old_vals[j]),
                    ));
                }
            }
            assert(ran(*dispatch, plan.steps@, records@, vals@));
        }
        if failed {
            return Run { result: Err(RunError::StepFailed), records, values: vals };
        }
        i = i + 1;
    }
    let v = read(&plan.result, &vals);
    proof {
        assert(call_ensures(*read, (&plan.result, &vals), v));
    }
    Run { result: Ok(v), records, values: vals }
}

/// Evaluates `expr`: compiles its plan and runs it. An unknown name or a
/// wrong number of arguments stops it before anything is dispatched;
/// otherwise every constant, operator and call is dispatched once, in
/// evaluation order, until one fails. The run has a value exactly when every
/// dispatch gave one; it is a step failure exactly when the last dispatch
/// gave none, and its record ends the trace.
pub fn evaluate_with<V, R, D, Q>(expr: &Expr, dispatch: &D, read: &Q) -> (r: (Plan, Run<V, R>))
    where
        D: Fn(&Step, &Vec<V>) -> (R, Option<V>),
        Q: Fn(&Operand, &Vec<V>) -> V,
    requires
        forall|s: &Step, w: &Vec<V>| #[trigger] dispatch.requires((s, w)),
        forall|o: &Operand, w: &Vec<V>| #[trigger] read.requires((o, w)),
    ensures
        steps_model(r.0.steps@) == plan_of(expr_model(*expr)).0,
        operand_model(r.0.result) == plan_of(expr_model(*expr)).1,
        ran(*dispatch, r.0.steps@, r.1.records@, r.1.values@),
        r.1.result matches Err(RunError::Static(e)) <==> !resolvable(expr_model(*expr)),
        r.1.result matches Err(RunError::Static(e)) ==> r.1.records@.len() == 0
            && r.1.values@.len() == 0 && first_error(
            expr_model(*expr),
        ) == Some(static_error_model(e)),
        r.1.result matches Ok(v) ==> r.1.records@.len() == dispatches(expr_model(*expr))
            && r.1.values@.len() == r.1.records@.len() && read_as(*read, r.0.result, r.1.values@, v),
        r.1.result matches Err(RunError::StepFailed) ==> 0 < r.1.records@.len() <= dispatches(
            expr_model(*expr),
        ) && r.1.values@.len() == r.1.records@.len() - 1,
{
    let plan = compile(expr);
    let run = run(&plan, dispatch, read);
    proof {
        law_compiled_plan(expr_model(*expr));
        let s = plan.steps@;
        assert(steps_model(s).len() == s.len());
        if run.result is Err {
            let k = run.records@.len() as int;
            if k < s.len() {
                assert(steps_model(s)[k] == step_model(s[k]));
            }
        }
        if !resolvable(expr_model(*expr)) {
            assert(steps_model(s)[0] is Fail);
            assert(s[0] is Fail);
            if run.records@.len() > 0 {
                let first = run.records@[0];
                assert(!fails_alone(s[0]));
            }
        } else {
            assert forall|k: int| 0 <= k < s.len() implies !(#[trigger] s[k] is Fail) by {
                assert(steps_model(s)[k] == step_model(s[k]));
            }
        }
    }
    (plan, run)
}

} // verus!
