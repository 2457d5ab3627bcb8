//! Bounded model checking and k-induction over the solver encoding, with
//! what each verdict guarantees about the runs of the transition system.
use vstd::prelude::*;
use crate::formula::{Formula, Env, all_hold, lemma_eval_any};
use crate::smt::{Term, term_not, term_or, term_views, solver_new, solver_assert, solver_check,
    solver_model, solver_reason_unknown, solver_facts, model_state_value,
    model_event_value, model_state_values, model_event_values, env_agrees, SatAnswer};
use crate::encode::{Frame, init_formula, trans_formula, encode_prop, init_sem, trans_sem, edge_fires,
    prop_sem, first_unknown, unknown_state_msg, exactly_one_active, only_active};
use crate::system::TransitionSystem;
use crate::property::{Prop, PropV};
use crate::verdict::{Outcome, Step};
use crate::text::{decimal, decimal_text};

verus! {

/// Step 0 is initial and consecutive steps up to `bound` are joined by
/// transitions.
pub open spec fn unrolled_sem(ts: TransitionSystem, env: Env, bound: int) -> bool {
    &&& init_sem(ts, env)
    &&& forall|k: int| 0 <= k < bound ==> #[trigger] trans_sem(ts, env, k)
}

/// Every formula of `fs` from index `start` on is true under `env`.
pub open spec fn hold_from(fs: Seq<Formula>, start: int, env: Env) -> bool {
    forall|j: int| start <= j < fs.len() ==> #[trigger] fs[j].eval(env)
}

/// Build the frames of steps `0..=bound` and assert the initial predicate
/// and the transitions between consecutive frames.
pub fn unroll(solver: &mut z3::Solver, ts: &TransitionSystem, bound: usize) -> (frames: Vec<Frame>)
    requires
        ts.wf(),
        bound < usize::MAX,
    ensures
        frames.len() == bound + 1,
        forall|k: int| 0 <= k <= bound ==> (#[trigger] frames@[k]).wf(ts.states.len() as int) && frames@[k].step() == k,
        solver_facts(*final(solver)).len() == solver_facts(*old(solver)).len() + bound + 1,
        forall|j: int| 0 <= j < solver_facts(*old(solver)).len() ==> #[trigger] solver_facts(*final(solver))[j] == solver_facts(*old(solver))[j],
        forall|env: Env| #[trigger] hold_from(solver_facts(*final(solver)), solver_facts(*old(solver)).len() as int, env)
            == unrolled_sem(*ts, env, bound as int),
{
    let ghost n = ts.states.len() as int;
    let ghost start = solver_facts(*solver).len() as int;
    let ghost old_facts = solver_facts(*solver);
    let mut frames: Vec<Frame> = Vec::new();
    let mut k: usize = 0;
    while k <= bound
        invariant
            k <= bound + 1,
            bound < usize::MAX,
            n == ts.states.len(),
            frames.len() == k,
            forall|i: int| 0 <= i < k ==> (#[trigger] frames@[i]).wf(n) && frames@[i].step() == i,
        decreases bound + 1 - k,
    {
        frames.push(Frame::new(ts, k));
        k += 1;
    }
    let init = init_formula(ts, &frames[0]);
    solver_assert(solver, &init);
    let mut k: usize = 0;
    while k < bound
        invariant
            ts.wf(),
            k <= bound,
            frames.len() == bound + 1,
            n == ts.states.len(),
            forall|i: int| 0 <= i <= bound ==> (#[trigger] frames@[i]).wf(n) && frames@[i].step() == i,
            start == old_facts.len(),
            solver_facts(*solver).len() == start + 1 + k,
            forall|j: int| 0 <= j < start ==> #[trigger] solver_facts(*solver)[j] == old_facts[j],
            forall|env: Env| #[trigger] solver_facts(*solver)[start].eval(env) == init_sem(*ts, env),
            forall|i: int, env: Env| 0 <= i < k ==> #[trigger] solver_facts(*solver)[start + 1 + i].eval(env)
                == trans_sem(*ts, env, i),
        decreases bound - k,
    {
        let t = trans_formula(ts, &frames[k], &frames[k + 1]);
        let ghost prev = solver_facts(*solver);
        solver_assert(solver, &t);
        proof {
            let now = solver_facts(*solver);
            assert(now == prev.push(t@));
            assert(prev.len() == start + 1 + k);
            assert forall|j: int| 0 <= j < prev.len() implies #[trigger] now[j] == prev[j] by {}
            assert(now[start + 1 + k] == t@);
            assert forall|i: int, env: Env| 0 <= i < k + 1 implies #[trigger] now[start + 1 + i].eval(env)
                == trans_sem(*ts, env, i) by {
                if i < k {
                    assert(now[start + 1 + i] == prev[start + 1 + i]);
                }
            }
            assert forall|env: Env| #[trigger] now[start].eval(env) == init_sem(*ts, env) by {
                assert(now[start] == prev[start]);
            }
        }
        k += 1;
    }
    proof {
        let fs = solver_facts(*solver);
        assert forall|env: Env| #[trigger] hold_from(fs, start, env) == unrolled_sem(*ts, env, bound as int) by {
            if hold_from(fs, start, env) {
                assert(fs[start].eval(env));
                assert forall|i: int| 0 <= i < bound implies #[trigger] trans_sem(*ts, env, i) by {
                    assert(fs[start + 1 + i].eval(env));
                }
            }
            if unrolled_sem(*ts, env, bound as int) {
                assert forall|j: int| start <= j < fs.len() implies #[trigger] fs[j].eval(env) by {
                    if j > start {
                        assert(trans_sem(*ts, env, j - start - 1));
                        assert(fs[start + 1 + (j - start - 1)].eval(env));
                    }
                }
            }
        }
    }
    frames
}

/// The assignment that follows a run: state `i` is active at step `k`
/// exactly when the run is in `i` there, and the event variable of step
/// `k` holds the label of the `k`-th transition.
pub open spec fn env_of_run(path: Seq<int>, evts: Seq<int>) -> Env {
    Env {
        state: |k: int, i: int| 0 <= k < path.len() && path[k] == i,
        event: |k: int| if 0 <= k < evts.len() { (evts[k] as i64) as int } else { 0 },
    }
}

/// Under the assignment of a run, the encodings describe that run.
pub proof fn lemma_env_of_run(ts: TransitionSystem, path: Seq<int>, evts: Seq<int>)
    requires
        ts.wf(),
        ts.is_run(path, evts),
    ensures
        forall|k: int| 0 <= k < path.len() ==> only_active(env_of_run(path, evts), k, ts.states.len() as int, #[trigger] path[k]),
        forall|k: int| 0 <= k < path.len() ==> exactly_one_active(env_of_run(path, evts), k, ts.states.len() as int),
        forall|k: int| 0 <= k < evts.len() ==> #[trigger] trans_sem(ts, env_of_run(path, evts), k),
        path[0] == ts.initial_index() ==> init_sem(ts, env_of_run(path, evts)),
{
    let env = env_of_run(path, evts);
    let n = ts.states.len() as int;
    assert forall|k: int| 0 <= k < path.len() implies only_active(env, k, n, #[trigger] path[k]) by {}
    assert forall|k: int| 0 <= k < path.len() implies exactly_one_active(env, k, n) by {
        assert(only_active(env, k, n, path[k]));
    }
    assert forall|k: int| 0 <= k < evts.len() implies #[trigger] trans_sem(ts, env, k) by {
        assert(ts.is_step(path[k], evts[k], path[k + 1]));
        let j = choose|j: int| 0 <= j < ts.edges.len() && #[trigger] ts.edges@[j]
            == (path[k] as usize, evts[k] as usize, path[k + 1] as usize) && 0 <= path[k] && 0 <= evts[k] && 0 <= path[k + 1];
        assert(ts.edges@[j].1 as int == evts[k]);
        assert(edge_fires(ts, env, k, j));
        assert(only_active(env, k + 1, n, path[k + 1]));
    }
    if path[0] == ts.initial_index() {
        assert(only_active(env, 0, n, path[0]));
    }
}

/// With exactly one active state, a property's encoding at step `k` means
/// the property holds at the active state.
pub proof fn lemma_prop_sem(ts: TransitionSystem, p: PropV, env: Env, k: int, i: int)
    requires
        ts.wf(),
        only_active(env, k, ts.states.len() as int, i),
        first_unknown(ts, p) is None,
    ensures
        prop_sem(ts, p, env, k) == ts.holds(p, i),
    decreases p,
{
    match p {
        PropV::In(name) => {
            crate::system::lemma_first_index(ts.state_names(), name);
        },
        PropV::Not(a) => lemma_prop_sem(ts, *a, env, k, i),
        PropV::And(a, b) => {
            lemma_prop_sem(ts, *a, env, k, i);
            lemma_prop_sem(ts, *b, env, k, i);
        },
        PropV::Or(a, b) => {
            lemma_prop_sem(ts, *a, env, k, i);
            lemma_prop_sem(ts, *b, env, k, i);
        },
        PropV::Implies(a, b) => {
            lemma_prop_sem(ts, *a, env, k, i);
            lemma_prop_sem(ts, *b, env, k, i);
        },
        PropV::Iff(a, b) => {
            lemma_prop_sem(ts, *a, env, k, i);
            lemma_prop_sem(ts, *b, env, k, i);
        },
        _ => {},
    }
}

/// The active state of step `k` when exactly one is active.
pub open spec fn active_state(env: Env, k: int, n: int) -> int {
    choose|i: int| only_active(env, k, n, i)
}

/// The label of an edge that fires between steps `k` and `k + 1`.
pub open spec fn fired_event(ts: TransitionSystem, env: Env, k: int) -> int {
    ts.edges@[choose|j: int| 0 <= j < ts.edges.len() && #[trigger] edge_fires(ts, env, k, j)].1 as int
}

/// An assignment under which every step has exactly one active state and
/// consecutive steps are joined by transitions describes a run.
pub proof fn lemma_run_of_env(ts: TransitionSystem, env: Env, len: int) -> (run: (Seq<int>, Seq<int>))
    requires
        ts.wf(),
        0 <= len,
        forall|k: int| 0 <= k <= len ==> exactly_one_active(env, k, ts.states.len() as int),
        forall|k: int| 0 <= k < len ==> #[trigger] trans_sem(ts, env, k),
    ensures
        ts.is_run(run.0, run.1),
        run.1.len() == len,
        forall|k: int| 0 <= k <= len ==> only_active(env, k, ts.states.len() as int, #[trigger] run.0[k]),
        forall|k: int| 0 <= k < len ==> (env.event)(k) == ((#[trigger] run.1[k]) as i64) as int,
{
    let n = ts.states.len() as int;
    let path = Seq::new((len + 1) as nat, |k: int| active_state(env, k, n));
    let evts = Seq::new(len as nat, |k: int| fired_event(ts, env, k));
    assert forall|k: int| 0 <= k <= len implies only_active(env, k, n, #[trigger] path[k]) by {
        assert(exactly_one_active(env, k, n));
    }
    assert forall|k: int| 0 <= k < evts.len() implies ts.is_step(path[k], #[trigger] evts[k], path[k + 1])
        && (env.event)(k) == (evts[k] as i64) as int by {
        assert(trans_sem(ts, env, k));
        let j = choose|j: int| 0 <= j < ts.edges.len() && #[trigger] edge_fires(ts, env, k, j);
        let e = ts.edges@[j];
        assert(only_active(env, k, n, path[k]));
        assert(only_active(env, k + 1, n, path[k + 1]));
        assert(e.0 as int == path[k]);
        assert(e.2 as int == path[k + 1]);
        assert(evts[k] == e.1 as int);
        assert(ts.edges@[j] == (path[k] as usize, evts[k] as usize, path[k + 1] as usize));
        assert(0 <= evts[k] < ts.events.len());
    }
    assert forall|k: int| 0 <= k < path.len() implies 0 <= #[trigger] path[k] < ts.states.len() by {
        assert(only_active(env, k, n, path[k]));
    }
    (path, evts)
}

/// `p` is `k`-inductive: along any run of `k` transitions (from any state),
/// if `p` holds at the first `k` states it holds at the last one.
pub open spec fn inductive_at(ts: TransitionSystem, p: PropV, k: int) -> bool {
    forall|path: Seq<int>, evts: Seq<int>| #[trigger] ts.is_run(path, evts) && evts.len() == k
        && (forall|i: int| 0 <= i < k ==> ts.holds(p, #[trigger] path[i])) ==> ts.holds(p, path[k])
}

/// An initial run on which `p` fails at some state.
pub open spec fn is_counterexample(ts: TransitionSystem, p: PropV, path: Seq<int>, evts: Seq<int>) -> bool {
    &&& ts.is_initial_run(path, evts)
    &&& exists|k: int| 0 <= k < path.len() && !ts.holds(p, #[trigger] path[k])
}

/// No initial run of exactly `j` transitions ends in a state that violates
/// `p`.
pub open spec fn no_bad_end(ts: TransitionSystem, p: PropV, j: int) -> bool {
    forall|path: Seq<int>, evts: Seq<int>| #[trigger] ts.is_initial_run(path, evts) && evts.len() == j
        ==> ts.holds(p, path[j])
}

/// Every state of every initial run with at most `depth` transitions
/// satisfies `p`: no violation within `depth` steps.
pub open spec fn safe_within(ts: TransitionSystem, p: PropV, depth: int) -> bool {
    forall|path: Seq<int>, evts: Seq<int>| #[trigger] ts.is_initial_run(path, evts) && evts.len() <= depth
        ==> forall|k: int| 0 <= k < path.len() ==> ts.holds(p, #[trigger] path[k])
}

/// Every state of every initial run satisfies `p`: `p` holds in every
/// reachable state.
pub open spec fn reachable_safe(ts: TransitionSystem, p: PropV) -> bool {
    forall|path: Seq<int>, evts: Seq<int>| #[trigger] ts.is_initial_run(path, evts)
        ==> forall|k: int| 0 <= k < path.len() ==> ts.holds(p, #[trigger] path[k])
}

/// The first `k` transitions of an initial run form an initial run.
pub proof fn lemma_prefix_run(ts: TransitionSystem, path: Seq<int>, evts: Seq<int>, k: int)
    requires
        ts.is_initial_run(path, evts),
        0 <= k <= evts.len(),
    ensures
        ts.is_initial_run(path.take(k + 1), evts.take(k)),
{
    let pre = path.take(k + 1);
    let pe = evts.take(k);
    assert forall|i: int| 0 <= i < pe.len() implies ts.is_step(pre[i], #[trigger] pe[i], pre[i + 1]) by {
        assert(ts.is_step(path[i], evts[i], path[i + 1]));
    }
}

/// No violation within `d - 1` steps and no run of `d` transitions ending
/// badly give no violation within `d` steps.
pub proof fn lemma_safe_within_step(ts: TransitionSystem, p: PropV, d: int)
    requires
        0 <= d,
        safe_within(ts, p, d - 1),
        no_bad_end(ts, p, d),
    ensures
        safe_within(ts, p, d),
{
    assert forall|path: Seq<int>, evts: Seq<int>| #[trigger] ts.is_initial_run(path, evts) && evts.len() <= d
        implies forall|k: int| 0 <= k < path.len() ==> ts.holds(p, #[trigger] path[k]) by {
        assert forall|k: int| 0 <= k < path.len() implies ts.holds(p, #[trigger] path[k]) by {
            lemma_prefix_run(ts, path, evts, k);
            let pre = path.take(k + 1);
            let pe = evts.take(k);
            assert(pre[k] == path[k]);
            assert(ts.is_initial_run(pre, pe));
            if k < d {
                assert(pe.len() <= d - 1);
                assert(ts.holds(p, pre[k]));
            } else {
                assert(pe.len() == d);
            }
        }
    }
}

/// Along an initial run, a property safe within `k - 1` steps and
/// `k`-inductive holds at step `j`.
proof fn lemma_holds_along(ts: TransitionSystem, p: PropV, k: int, path: Seq<int>, evts: Seq<int>, j: int)
    requires
        ts.wf(),
        1 <= k,
        safe_within(ts, p, k - 1),
        inductive_at(ts, p, k),
        ts.is_initial_run(path, evts),
        0 <= j < path.len(),
    ensures
        ts.holds(p, path[j]),
    decreases j,
{
    if j < k {
        lemma_prefix_run(ts, path, evts, j);
        let pre = path.take(j + 1);
        let pe = evts.take(j);
        assert(pre[j] == path[j]);
        assert(ts.is_initial_run(pre, pe) && pe.len() <= k - 1);
    } else {
        let w = path.subrange(j - k, j + 1);
        let we = evts.subrange(j - k, j);
        assert forall|i: int| 0 <= i < we.len() implies ts.is_step(w[i], #[trigger] we[i], w[i + 1]) by {
            assert(ts.is_step(path[j - k + i], evts[j - k + i], path[j - k + i + 1]));
        }
        assert(ts.is_run(w, we));
        assert forall|i: int| 0 <= i < k implies ts.holds(p, #[trigger] w[i]) by {
            assert(w[i] == path[j - k + i]);
            lemma_holds_along(ts, p, k, path, evts, j - k + i);
        }
        assert(w[k] == path[j]);
    }
}

/// k-induction is sound: a property safe within `k - 1` steps and
/// `k`-inductive holds in every reachable state.
pub proof fn lemma_k_induction_sound(ts: TransitionSystem, p: PropV, k: int)
    requires
        ts.wf(),
        1 <= k,
        safe_within(ts, p, k - 1),
        inductive_at(ts, p, k),
    ensures
        reachable_safe(ts, p),
{
    assert forall|path: Seq<int>, evts: Seq<int>| #[trigger] ts.is_initial_run(path, evts)
        implies forall|j: int| 0 <= j < path.len() ==> ts.holds(p, #[trigger] path[j]) by {
        assert forall|j: int| 0 <= j < path.len() implies ts.holds(p, #[trigger] path[j]) by {
            lemma_holds_along(ts, p, k, path, evts, j);
        }
    }
}

/// A reported trace agrees with a run: step by step, the state shown is
/// the run's state and the event shown is the run's transition label,
/// except where the model reported no value (the state then shows as
/// `<unmodeled>`, the event as absent); the last step shows no event.
pub open spec fn trace_agrees(ts: TransitionSystem, trace: Seq<Step>, path: Seq<int>, evts: Seq<int>) -> bool {
    &&& trace.len() == path.len()
    &&& forall|k: int| 0 <= k < trace.len() ==> {
        &&& (#[trigger] trace[k]).state@ == "<unmodeled>"@ || trace[k].state@ == ts.states@[path[k]]@
        &&& k < evts.len() ==> (trace[k].event matches Some(e) ==> e@ == ts.events@[evts[k]]@)
        &&& k == evts.len() ==> trace[k].event is None
    }
}

/// Converting an event index to `i64` and back gives the index.
proof fn lemma_usize_i64_roundtrip(x: usize)
    ensures
        ((x as i64) as usize) == x,
{
    assert(((x as i64) as usize) == x) by (bit_vector);
}

/// The model reports state `i` active at step `k`.
pub open spec fn reported_true(m: z3::Model, k: int, i: int) -> bool {
    model_state_values(m).contains_key((k, i)) && model_state_values(m)[(k, i)]
}

/// The least state `i' >= i` (below `n`) that the model reports active at
/// step `k`.
pub open spec fn first_reported(m: z3::Model, k: int, i: int, n: int) -> Option<int>
    decreases n - i,
{
    if i >= n {
        None
    } else if reported_true(m, k, i) {
        Some(i)
    } else {
        first_reported(m, k, i + 1, n)
    }
}

/// What `first_reported` finds is reported active and in range.
pub proof fn lemma_first_reported(m: z3::Model, k: int, i: int, n: int)
    ensures
        first_reported(m, k, i, n) matches Some(x) ==> i <= x < n && reported_true(m, k, x),
    decreases n - i,
{
    if i < n && !reported_true(m, k, i) {
        lemma_first_reported(m, k, i + 1, n);
    }
}

/// The state name read at step `k`: the first state the model reports
/// active, or `<unmodeled>` when it reports none.
pub open spec fn read_state(m: z3::Model, ts: TransitionSystem, k: int) -> Seq<char> {
    match first_reported(m, k, 0, ts.states.len() as int) {
        Some(i) => ts.states@[i]@,
        None => "<unmodeled>"@,
    }
}

/// The event name read at step `k`: none at the last step; otherwise the
/// event whose index the model reports (when it fits an `i64` and, taken
/// as an index, names an event).
pub open spec fn read_event(m: z3::Model, ts: TransitionSystem, k: int, is_last: bool) -> Option<Seq<char>> {
    if is_last {
        None
    } else if model_event_values(m).contains_key(k) && i64::MIN <= model_event_values(m)[k] <= i64::MAX {
        let idx = ((model_event_values(m)[k] as i64) as usize) as int;
        if idx < ts.events.len() {
            Some(ts.events@[idx]@)
        } else {
            None
        }
    } else {
        None
    }
}

/// `st` is the step read from the model at step `k`.
pub open spec fn step_read(m: z3::Model, ts: TransitionSystem, st: Step, k: int, is_last: bool) -> bool {
    &&& st.state@ == read_state(m, ts, k)
    &&& match st.event {
        Some(e) => read_event(m, ts, k, is_last) == Some(e@),
        None => read_event(m, ts, k, is_last) is None,
    }
}

/// `trace` is the trace of `len` steps read from the model.
pub open spec fn trace_read(m: z3::Model, ts: TransitionSystem, trace: Seq<Step>, len: int) -> bool {
    &&& trace.len() == len
    &&& forall|k: int| 0 <= k < len ==> step_read(m, ts, #[trigger] trace[k], k, k == len - 1)
}

/// The first state the model reports active at a frame's step.
fn first_reported_state(model: &z3::Model, f: &Frame, n: usize) -> (r: Option<usize>)
    requires
        f.wf(n as int),
    ensures
        match r {
            Some(i) => first_reported(*model, f.step(), 0, n as int) == Some(i as int),
            None => first_reported(*model, f.step(), 0, n as int) is None,
        },
{
    let mut i: usize = 0;
    while i < f.in_state.len()
        invariant
            i <= f.in_state.len(),
            f.wf(n as int),
            first_reported(*model, f.step(), 0, n as int) == first_reported(*model, f.step(), i as int, n as int),
        decreases f.in_state.len() - i,
    {
        assert(f.in_state@[i as int]@ == Formula::StateVar(f.step(), i as int));
        match model_state_value(model, &f.in_state[i]) {
            Some(true) => {
                return Some(i);
            },
            _ => {},
        }
        i += 1;
    }
    None
}

/// Reconstruct the active state name and the chosen event at one frame
/// from a model.
pub fn step_from_model(model: &z3::Model, ts: &TransitionSystem, f: &Frame, is_last: bool) -> (step: Step)
    requires
        ts.wf(),
        f.wf(ts.states.len() as int),
    ensures
        step_read(*model, *ts, step, f.step(), is_last),
{
    proof {
        lemma_first_reported(*model, f.step(), 0, ts.states.len() as int);
    }
    let state = match first_reported_state(model, f, ts.states.len()) {
        Some(j) => ts.states[j].clone(),
        None => String::from_str("<unmodeled>"),
    };
    let event = if is_last {
        None
    } else {
        match model_event_value(model, &f.evt) {
            Some(v) => {
                let idx = v as usize;
                if idx < ts.events.len() {
                    Some(ts.events[idx].clone())
                } else {
                    None
                }
            },
            None => None,
        }
    };
    Step { state, event }
}

/// Read a trace out of a model, one step per frame.
pub fn trace_from_model(model: &z3::Model, ts: &TransitionSystem, frames: &Vec<Frame>) -> (trace: Vec<Step>)
    requires
        ts.wf(),
        forall|k: int| 0 <= k < frames.len() ==> (#[trigger] frames@[k]).wf(ts.states.len() as int) && frames@[k].step() == k,
    ensures
        trace_read(*model, *ts, trace@, frames.len() as int),
{
    let mut trace: Vec<Step> = Vec::new();
    let mut k: usize = 0;
    while k < frames.len()
        invariant
            ts.wf(),
            k <= frames.len(),
            trace.len() == k,
            forall|j: int| 0 <= j < frames.len() ==> (#[trigger] frames@[j]).wf(ts.states.len() as int) && frames@[j].step() == j,
            forall|j: int| 0 <= j < k ==> step_read(*model, *ts, #[trigger] trace@[j], j, j == frames.len() - 1),
        decreases frames.len() - k,
    {
        let step = step_from_model(model, ts, &frames[k], k == frames.len() - 1);
        trace.push(step);
        k += 1;
    }
    trace
}

/// A trace read from a model agrees with the run that any assignment
/// agreeing with the model describes.
pub proof fn lemma_trace_agrees(ts: TransitionSystem, model: z3::Model, env: Env, path: Seq<int>, evts: Seq<int>, trace: Seq<Step>)
    requires
        ts.wf(),
        ts.is_run(path, evts),
        env_agrees(env, model),
        forall|k: int| 0 <= k < path.len() ==> only_active(env, k, ts.states.len() as int, #[trigger] path[k]),
        forall|k: int| 0 <= k < evts.len() ==> (env.event)(k) == ((#[trigger] evts[k]) as i64) as int,
        trace_read(model, ts, trace, path.len() as int),
    ensures
        trace_agrees(ts, trace, path, evts),
{
    let n = ts.states.len() as int;
    assert forall|k: int| 0 <= k < trace.len() implies {
        &&& (#[trigger] trace[k]).state@ == "<unmodeled>"@ || trace[k].state@ == ts.states@[path[k]]@
        &&& k < evts.len() ==> (trace[k].event matches Some(e) ==> e@ == ts.events@[evts[k]]@)
        &&& k == evts.len() ==> trace[k].event is None
    } by {
        assert(step_read(model, ts, trace[k], k, k == trace.len() - 1));
        assert(only_active(env, k, n, path[k]));
        lemma_first_reported(model, k, 0, n);
        if let Some(i) = first_reported(model, k, 0, n) {
            assert(reported_true(model, k, i));
            assert((env.state)(k, i));
        }
        if k < evts.len() {
            if let Some(e) = trace[k].event {
                let w = model_event_values(model)[k];
                assert((env.event)(k) == w);
                let x = evts[k] as usize;
                lemma_usize_i64_roundtrip(x);
                assert(x as int == evts[k]);
            }
        }
    }
}

/// Step 0 is initial, steps up to `j` are joined by transitions, and the
/// property fails at step `j`: the query asked of the solver at depth `j`.
pub open spec fn depth_world(ts: TransitionSystem, p: PropV, env: Env, j: int) -> bool {
    unrolled_sem(ts, env, j) && !prop_sem(ts, p, env, j)
}

/// What the solver gave for one depth query: its answer, the model it
/// handed out after SAT (if any), its explanation after UNKNOWN (if any),
/// and the frames the model is read through.
pub struct DepthReply {
    pub answer: SatAnswer,
    pub model: Option<z3::Model>,
    pub reason: Option<String>,
    pub frames: Vec<Frame>,
}

/// The frames of `r` are those of steps `0..=j`.
pub open spec fn frames_of_depth(frames: Seq<Frame>, n: int, j: int) -> bool {
    &&& frames.len() == j + 1
    &&& forall|k: int| 0 <= k <= j ==> (#[trigger] frames[k]).wf(n) && frames[k].step() == k
}

/// Ask the solver for an initial run of exactly `j` transitions whose last
/// state violates `prop`. Fails with the encoding error when the property
/// names an unknown state. Whatever the solver answers, UNSAT means no such
/// run exists, and a model it hands out describes one.
pub fn check_depth(ts: &TransitionSystem, prop: &Prop, j: usize) -> (r: Result<DepthReply, String>)
    requires
        ts.wf(),
        j < 0xffff_ffff,
    ensures
        match r {
            Err(e) => first_unknown(*ts, prop.value()) matches Some(name) && e@ == unknown_state_msg(name),
            Ok(rep) => {
                &&& first_unknown(*ts, prop.value()) is None
                &&& frames_of_depth(rep.frames@, ts.states.len() as int, j as int)
                &&& rep.answer == SatAnswer::Unsat ==> no_bad_end(*ts, prop.value(), j as int)
                &&& rep.answer != SatAnswer::Sat ==> rep.model is None
                &&& rep.answer != SatAnswer::Unknown ==> rep.reason is None
                &&& rep.model matches Some(m) ==> exists|env: Env| #[trigger] depth_world(*ts, prop.value(), env, j as int)
                    && env_agrees(env, m)
            },
        },
{
    let mut solver = solver_new();
    let frames = unroll(&mut solver, ts, j);
    let t = encode_prop(prop, ts, &frames[j])?;
    let bad = term_not(&t);
    let ghost before = solver_facts(solver);
    solver_assert(&mut solver, &bad);
    let ghost facts = solver_facts(solver);
    proof {
        assert forall|env: Env| #[trigger] all_hold(facts, env) == depth_world(*ts, prop.value(), env, j as int) by {
            assert(facts[j + 1] == bad@);
            assert(bad@.eval(env) == !prop_sem(*ts, prop.value(), env, j as int)) by {
                assert(t@.eval(env) == prop_sem(*ts, prop.value(), env, frames@[j as int].step()));
            }
            assert forall|i: int| 0 <= i <= j implies #[trigger] facts[i] == before[i] by {}
            assert(hold_from(before, 0, env) == unrolled_sem(*ts, env, j as int));
            if all_hold(facts, env) {
                assert(facts[j + 1].eval(env));
                assert forall|i: int| 0 <= i < before.len() implies #[trigger] before[i].eval(env) by {
                    assert(facts[i].eval(env));
                }
            }
            if depth_world(*ts, prop.value(), env, j as int) {
                assert forall|i: int| 0 <= i < facts.len() implies #[trigger] facts[i].eval(env) by {
                    if i <= j {
                        assert(before[i].eval(env));
                    }
                }
            }
        }
    }
    let answer = solver_check(&mut solver);
    let model = match answer {
        SatAnswer::Sat => solver_model(&solver),
        _ => None,
    };
    let reason = match answer {
        SatAnswer::Unknown => solver_reason_unknown(&solver),
        _ => None,
    };
    proof {
        if answer == SatAnswer::Unsat {
            assert forall|path: Seq<int>, evts: Seq<int>| #[trigger] ts.is_initial_run(path, evts) && evts.len() == j
                implies ts.holds(prop.value(), path[j as int]) by {
                if !ts.holds(prop.value(), path[j as int]) {
                    let env = env_of_run(path, evts);
                    lemma_env_of_run(*ts, path, evts);
                    lemma_prop_sem(*ts, prop.value(), env, j as int, path[j as int]);
                    assert(unrolled_sem(*ts, env, j as int));
                    assert(all_hold(facts, env));
                }
            }
        }
        if model is Some {
            let m = model->Some_0;
            let env = choose|env: Env| all_hold(facts, env) && env_agrees(env, m);
            assert(depth_world(*ts, prop.value(), env, j as int));
        }
    }
    Ok(DepthReply { answer, model, reason, frames })
}

/// A model of the depth-`j` query read as a trace is a real counterexample:
/// an initial run of `j` transitions whose last state violates `p`.
pub proof fn lemma_model_counterexample(ts: TransitionSystem, p: PropV, j: int, m: z3::Model, trace: Seq<Step>)
    requires
        ts.wf(),
        0 <= j,
        first_unknown(ts, p) is None,
        exists|env: Env| #[trigger] depth_world(ts, p, env, j) && env_agrees(env, m),
        trace_read(m, ts, trace, j + 1),
    ensures
        exists|path: Seq<int>, evts: Seq<int>| evts.len() == j && #[trigger] is_counterexample(ts, p, path, evts)
            && !ts.holds(p, path[j]) && trace_agrees(ts, trace, path, evts),
{
    let n = ts.states.len() as int;
    let env = choose|env: Env| #[trigger] depth_world(ts, p, env, j) && env_agrees(env, m);
    assert(unrolled_sem(ts, env, j));
    assert forall|k: int| 0 <= k <= j implies exactly_one_active(env, k, n) by {
        if k > 0 {
            assert(trans_sem(ts, env, k - 1));
        }
    }
    let (path, evts) = lemma_run_of_env(ts, env, j);
    assert(only_active(env, 0, n, path[0]));
    assert(path[0] == ts.initial_index());
    lemma_prop_sem(ts, p, env, j, path[j]);
    assert(!ts.holds(p, path[j]));
    lemma_trace_agrees(ts, m, env, path, evts, trace);
    assert(is_counterexample(ts, p, path, evts));
}

/// Every initial run with exactly `len` transitions satisfies `p` at each
/// of its states.
pub open spec fn safe_runs_of_len(ts: TransitionSystem, p: PropV, len: int) -> bool {
    forall|path: Seq<int>, evts: Seq<int>| #[trigger] ts.is_initial_run(path, evts) && evts.len() == len
        ==> forall|k: int| 0 <= k < path.len() ==> ts.holds(p, #[trigger] path[k])
}

/// A run of `d` transitions that is safe everywhere does not end badly.
pub proof fn lemma_full_gives_end(ts: TransitionSystem, p: PropV, d: int)
    requires
        safe_runs_of_len(ts, p, d),
    ensures
        no_bad_end(ts, p, d),
{
    assert forall|path: Seq<int>, evts: Seq<int>| #[trigger] ts.is_initial_run(path, evts) && evts.len() == d
        implies ts.holds(p, path[d]) by {
        assert(path.len() == d + 1);
    }
}

/// The full query at `bound`: step 0 is initial, steps up to `bound` are
/// joined by transitions, and the property fails at some step.
pub open spec fn full_world(ts: TransitionSystem, p: PropV, env: Env, bound: int) -> bool {
    unrolled_sem(ts, env, bound) && exists|j: int| 0 <= j <= bound && !#[trigger] prop_sem(ts, p, env, j)
}

/// Ask the solver for an initial run of exactly `bound` transitions with a
/// state that violates `prop`. Fails with the encoding error when the
/// property names an unknown state. Whatever the solver answers, UNSAT
/// means no such run exists, and a model it hands out describes one.
pub fn check_full(ts: &TransitionSystem, prop: &Prop, bound: usize) -> (r: Result<DepthReply, String>)
    requires
        ts.wf(),
        bound < 0xffff_ffff,
    ensures
        match r {
            Err(e) => first_unknown(*ts, prop.value()) matches Some(name) && e@ == unknown_state_msg(name),
            Ok(rep) => {
                &&& first_unknown(*ts, prop.value()) is None
                &&& frames_of_depth(rep.frames@, ts.states.len() as int, bound as int)
                &&& rep.answer == SatAnswer::Unsat ==> safe_runs_of_len(*ts, prop.value(), bound as int)
                &&& rep.answer != SatAnswer::Sat ==> rep.model is None
                &&& rep.answer != SatAnswer::Unknown ==> rep.reason is None
                &&& rep.model matches Some(m) ==> exists|env: Env| #[trigger] full_world(*ts, prop.value(), env, bound as int)
                    && env_agrees(env, m)
            },
        },
{
    let mut solver = solver_new();
    let frames = unroll(&mut solver, ts, bound);
    let ghost n = ts.states.len() as int;
    let mut bad: Vec<Term> = Vec::new();
    let mut k: usize = 0;
    while k < frames.len()
        invariant
            ts.wf(),
            k <= frames.len(),
            frames.len() == bound + 1,
            n == ts.states.len(),
            forall|j: int| 0 <= j <= bound ==> (#[trigger] frames@[j]).wf(n) && frames@[j].step() == j,
            bad.len() == k,
            k > 0 ==> first_unknown(*ts, prop.value()) is None,
            forall|j: int, env: Env| 0 <= j < k ==> #[trigger] (bad@[j])@.eval(env) == !prop_sem(*ts, prop.value(), env, j),
        decreases frames.len() - k,
    {
        let t = encode_prop(prop, ts, &frames[k])?;
        let nt = term_not(&t);
        proof {
            assert forall|env: Env| #[trigger] nt@.eval(env) == !prop_sem(*ts, prop.value(), env, k as int) by {
                assert(t@.eval(env) == prop_sem(*ts, prop.value(), env, frames@[k as int].step()));
            }
        }
        bad.push(nt);
        k += 1;
    }
    let bad_any = term_or(&bad);
    let ghost before = solver_facts(solver);
    solver_assert(&mut solver, &bad_any);
    let ghost facts = solver_facts(solver);
    proof {
        assert forall|env: Env| #[trigger] all_hold(facts, env) == full_world(*ts, prop.value(), env, bound as int) by {
            let bs = term_views(bad@);
            lemma_eval_any(bs, env);
            assert(facts[bound + 1] == bad_any@);
            assert forall|j: int| 0 <= j <= bound implies #[trigger] facts[j] == before[j] by {}
            assert(hold_from(before, 0, env) == unrolled_sem(*ts, env, bound as int));
            if all_hold(facts, env) {
                assert(facts[bound + 1].eval(env));
                let j = choose|j: int| 0 <= j < bs.len() && #[trigger] bs[j].eval(env);
                assert(bs[j] == bad@[j]@);
                assert(!prop_sem(*ts, prop.value(), env, j));
                assert forall|i: int| 0 <= i < before.len() implies #[trigger] before[i].eval(env) by {
                    assert(facts[i].eval(env));
                }
            }
            if full_world(*ts, prop.value(), env, bound as int) {
                let j = choose|j: int| 0 <= j <= bound && !#[trigger] prop_sem(*ts, prop.value(), env, j);
                assert(bs[j] == bad@[j]@);
                assert(bs[j].eval(env));
                assert forall|i: int| 0 <= i < facts.len() implies #[trigger] facts[i].eval(env) by {
                    if i <= bound {
                        assert(before[i].eval(env));
                    }
                }
            }
        }
    }
    let answer = solver_check(&mut solver);
    let model = match answer {
        SatAnswer::Sat => solver_model(&solver),
        _ => None,
    };
    let reason = match answer {
        SatAnswer::Unknown => solver_reason_unknown(&solver),
        _ => None,
    };
    proof {
        if answer == SatAnswer::Unsat {
            assert forall|path: Seq<int>, evts: Seq<int>| #[trigger] ts.is_initial_run(path, evts) && evts.len() == bound
                implies forall|k: int| 0 <= k < path.len() ==> ts.holds(prop.value(), #[trigger] path[k]) by {
                if exists|k: int| 0 <= k < path.len() && !ts.holds(prop.value(), #[trigger] path[k]) {
                    let k = choose|k: int| 0 <= k < path.len() && !ts.holds(prop.value(), #[trigger] path[k]);
                    let env = env_of_run(path, evts);
                    lemma_env_of_run(*ts, path, evts);
                    lemma_prop_sem(*ts, prop.value(), env, k, path[k]);
                    assert(unrolled_sem(*ts, env, bound as int));
                    assert(all_hold(facts, env));
                }
            }
        }
        if model is Some {
            let m = model->Some_0;
            let env = choose|env: Env| all_hold(facts, env) && env_agrees(env, m);
            assert(full_world(*ts, prop.value(), env, bound as int));
        }
    }
    Ok(DepthReply { answer, model, reason, frames })
}

/// A model of the full query at `bound` read as a trace is a real
/// counterexample of exactly `bound` transitions.
pub proof fn lemma_model_full_counterexample(ts: TransitionSystem, p: PropV, bound: int, m: z3::Model, trace: Seq<Step>)
    requires
        ts.wf(),
        0 <= bound,
        first_unknown(ts, p) is None,
        exists|env: Env| #[trigger] full_world(ts, p, env, bound) && env_agrees(env, m),
        trace_read(m, ts, trace, bound + 1),
    ensures
        exists|path: Seq<int>, evts: Seq<int>| evts.len() == bound && #[trigger] is_counterexample(ts, p, path, evts)
            && trace_agrees(ts, trace, path, evts),
{
    let n = ts.states.len() as int;
    let env = choose|env: Env| #[trigger] full_world(ts, p, env, bound) && env_agrees(env, m);
    assert(unrolled_sem(ts, env, bound));
    assert forall|k: int| 0 <= k <= bound implies exactly_one_active(env, k, n) by {
        if k > 0 {
            assert(trans_sem(ts, env, k - 1));
        }
    }
    let (path, evts) = lemma_run_of_env(ts, env, bound);
    assert(only_active(env, 0, n, path[0]));
    assert(path[0] == ts.initial_index());
    let j = choose|j: int| 0 <= j <= bound && !#[trigger] prop_sem(ts, p, env, j);
    lemma_prop_sem(ts, p, env, j, path[j]);
    assert(!ts.holds(p, path[j]));
    lemma_trace_agrees(ts, m, env, path, evts, trace);
    assert(is_counterexample(ts, p, path, evts));
}

/// A depth query's answer as the checks use it.
pub enum DepthAnswer {
    /// UNSAT: no run of that depth ends in a violation.
    Clear,
    /// SAT with a model: the trace read from it.
    Violation(Vec<Step>),
    /// SAT without a model.
    NoModel,
    /// UNKNOWN, with the solver's explanation if it gave one.
    Undecided(Option<String>),
}

/// Turn the solver's reply into an answer: UNSAT is clear, SAT with a model
/// is the trace read from the model, SAT without one is `NoModel`, and
/// UNKNOWN keeps the solver's explanation.
pub fn read_depth(reply: DepthReply, ts: &TransitionSystem) -> (a: DepthAnswer)
    requires
        ts.wf(),
        forall|k: int| 0 <= k < reply.frames.len() ==> (#[trigger] reply.frames@[k]).wf(ts.states.len() as int)
            && reply.frames@[k].step() == k,
    ensures
        match reply.answer {
            SatAnswer::Unsat => a is Clear,
            SatAnswer::Unknown => a matches DepthAnswer::Undecided(r) && r == reply.reason,
            SatAnswer::Sat => match reply.model {
                None => a is NoModel,
                Some(m) => a matches DepthAnswer::Violation(t) && trace_read(m, *ts, t@, reply.frames.len() as int),
            },
        },
{
    let DepthReply { answer, model, reason, frames } = reply;
    match answer {
        SatAnswer::Unsat => DepthAnswer::Clear,
        SatAnswer::Unknown => DepthAnswer::Undecided(reason),
        SatAnswer::Sat => match model {
            None => DepthAnswer::NoModel,
            Some(m) => DepthAnswer::Violation(trace_from_model(&m, ts, &frames)),
        },
    }
}

/// Message prefix for a property that cannot be encoded.
pub open spec fn encoding_failed_msg(e: Seq<char>) -> Seq<char> {
    "property encoding failed: "@ + e
}

/// Reason given when the solver answered SAT but handed out no model.
pub open spec fn no_model_msg() -> Seq<char> {
    "solver returned SAT but no model"@
}

/// Reason given when the solver answered UNKNOWN: its explanation, or a
/// default.
pub open spec fn undecided_msg(r: Option<String>) -> Seq<char> {
    match r {
        Some(s) => s@,
        None => "z3 returned unknown"@,
    }
}

/// The verdict of bounded model checking after one query: none (ask the
/// next query) while clear before the `last` one, bounded safety once the
/// last one is clear, the trace of a violation, or unknown with the
/// reason.
pub fn bmc_decide(ans: DepthAnswer, last: bool, bound: usize) -> (r: Option<Outcome>)
    ensures
        match ans {
            DepthAnswer::Clear => if last {
                r matches Some(Outcome::BoundedSafe { bound: b }) && b == bound
            } else {
                r is None
            },
            DepthAnswer::Violation(t) => r matches Some(Outcome::Violated { trace }) && trace@ == t@,
            DepthAnswer::NoModel => r matches Some(Outcome::Unknown { reason }) && reason@ == no_model_msg(),
            DepthAnswer::Undecided(x) => r matches Some(Outcome::Unknown { reason }) && reason@ == undecided_msg(x),
        },
{
    match ans {
        DepthAnswer::Clear => if last {
            Some(Outcome::BoundedSafe { bound })
        } else {
            None
        },
        DepthAnswer::Violation(trace) => Some(Outcome::Violated { trace }),
        DepthAnswer::NoModel => Some(Outcome::Unknown { reason: String::from_str("solver returned SAT but no model") }),
        DepthAnswer::Undecided(x) => {
            let reason = match x {
                Some(s) => s,
                None => String::from_str("z3 returned unknown"),
            };
            Some(Outcome::Unknown { reason })
        },
    }
}

/// The length of a bounded counterexample: `bound` transitions, or fewer
/// only when no run of exactly `bound` transitions violates `p` (a run
/// that stops early).
pub open spec fn bmc_cex_len(ts: TransitionSystem, p: PropV, n: int, bound: int) -> bool {
    n == bound || (0 <= n < bound && safe_runs_of_len(ts, p, bound))
}

/// What bounded model checking may answer: an encoding error for an
/// unknown state name; otherwise no violation within `bound` steps, a real
/// counterexample (of `bound` transitions whenever one that long exists),
/// or an undecided query.
pub open spec fn bmc_outcome(ts: TransitionSystem, p: PropV, bound: int, out: Outcome) -> bool {
    &&& first_unknown(ts, p) matches Some(name) ==> (out matches Outcome::Unknown { reason }
        && reason@ == encoding_failed_msg(unknown_state_msg(name)))
    &&& first_unknown(ts, p) is None ==> match out {
        Outcome::BoundedSafe { bound: b } => b == bound && safe_within(ts, p, bound),
        Outcome::Violated { trace } => exists|path: Seq<int>, evts: Seq<int>| bmc_cex_len(ts, p, evts.len() as int, bound)
            && #[trigger] is_counterexample(ts, p, path, evts) && trace_agrees(ts, trace@, path, evts),
        Outcome::Holds { .. } => false,
        Outcome::Unknown { .. } => true,
    }
}

/// Bounded model checking: first look for an initial run of exactly
/// `bound` transitions that violates `prop` anywhere; when there is none,
/// look depth by depth for shorter runs that end in a violation (runs that
/// cannot be extended to `bound` transitions).
pub fn bmc(ts: &TransitionSystem, prop: &Prop, bound: usize) -> (out: Outcome)
    requires
        ts.wf(),
        bound < 0xffff_ffff,
    ensures
        bmc_outcome(*ts, prop.value(), bound as int, out),
{
    let reply = match check_full(ts, prop, bound) {
        Err(e) => {
            let mut reason = String::from_str("property encoding failed: ");
            reason.append(e.as_str());
            return Outcome::Unknown { reason };
        },
        Ok(r) => r,
    };
    let ghost answer = reply.answer;
    let ghost model = reply.model;
    let ans = read_depth(reply, ts);
    proof {
        if ans is Violation {
            let t = ans->Violation_0;
            let m = model->Some_0;
            lemma_model_full_counterexample(*ts, prop.value(), bound as int, m, t@);
        }
        if answer == SatAnswer::Unsat && bound == 0 {
            lemma_full_gives_end(*ts, prop.value(), 0);
            lemma_safe_within_step(*ts, prop.value(), 0);
        }
    }
    let ghost av = ans;
    match bmc_decide(ans, bound == 0, bound) {
        Some(o) => {
            return o;
        },
        None => {},
    }
    assert(av is Clear && bound > 0);
    let ghost p = prop.value();
    assert(safe_runs_of_len(*ts, p, bound as int));
    let mut j: usize = 0;
    loop
        invariant
            ts.wf(),
            j < bound < 0xffff_ffff,
            p == prop.value(),
            first_unknown(*ts, p) is None,
            safe_runs_of_len(*ts, p, bound as int),
            safe_within(*ts, p, j - 1),
        decreases bound - j,
    {
        let reply = match check_depth(ts, prop, j) {
            Err(e) => {
                let mut reason = String::from_str("property encoding failed: ");
                reason.append(e.as_str());
                return Outcome::Unknown { reason };
            },
            Ok(r) => r,
        };
        let ghost answer = reply.answer;
        let ghost model = reply.model;
        proof {
            if answer == SatAnswer::Unsat {
                lemma_safe_within_step(*ts, p, j as int);
                if j + 1 == bound {
                    lemma_full_gives_end(*ts, p, bound as int);
                    lemma_safe_within_step(*ts, p, bound as int);
                }
            }
        }
        let ans = read_depth(reply, ts);
        proof {
            if ans is Violation {
                let t = ans->Violation_0;
                let m = model->Some_0;
                lemma_model_counterexample(*ts, p, j as int, m, t@);
            }
        }
        let ghost av = ans;
        match bmc_decide(ans, j + 1 >= bound, bound) {
            Some(o) => {
                return o;
            },
            None => {},
        }
        assert(av is Clear && j + 1 < bound);
        j += 1;
    }
}

/// Every state of `0..=k` has exactly one active state, transitions join
/// consecutive steps, the property holds at steps `0..k`, and fails at `k`.
pub open spec fn step_world(ts: TransitionSystem, p: PropV, env: Env, k: int) -> bool {
    step_part(ts, p, env, k, k + 1, k, k, true)
}

/// The first `a` exactness constraints, the first `b` transitions, the
/// property at the first `c` steps, and (when `neg`) its failure at `k`.
pub open spec fn step_part(ts: TransitionSystem, p: PropV, env: Env, k: int, a: int, b: int, c: int, neg: bool) -> bool {
    &&& forall|i: int| 0 <= i < a ==> #[trigger] exactly_one_active(env, i, ts.states.len() as int)
    &&& forall|i: int| 0 <= i < b ==> #[trigger] trans_sem(ts, env, i)
    &&& forall|i: int| 0 <= i < c ==> #[trigger] prop_sem(ts, p, env, i)
    &&& neg ==> !prop_sem(ts, p, env, k)
}

/// The facts after one more assertion hold exactly when the earlier facts
/// and the new one do.
proof fn lemma_all_hold_push(fs: Seq<Formula>, f: Formula, env: Env)
    ensures
        all_hold(fs.push(f), env) == (all_hold(fs, env) && f.eval(env)),
{
    let g = fs.push(f);
    if all_hold(g, env) {
        assert(g[fs.len() as int] == f);
        assert forall|j: int| 0 <= j < fs.len() implies #[trigger] fs[j].eval(env) by {
            assert(g[j] == fs[j]);
        }
    }
    if all_hold(fs, env) && f.eval(env) {
        assert forall|j: int| 0 <= j < g.len() implies #[trigger] g[j].eval(env) by {
            if j < fs.len() {
                assert(g[j] == fs[j]);
            }
        }
    }
}

/// A solution of the step query is a run of `k` transitions from some
/// state on which `p` holds at the first `k` states and fails at the last:
/// `p` is not `k`-inductive.
proof fn lemma_step_world_refutes(ts: TransitionSystem, p: PropV, env: Env, k: int)
    requires
        ts.wf(),
        0 <= k,
        first_unknown(ts, p) is None,
        step_world(ts, p, env, k),
    ensures
        !inductive_at(ts, p, k),
{
    let n = ts.states.len() as int;
    assert forall|i: int| 0 <= i <= k implies exactly_one_active(env, i, n) by {
        assert(exactly_one_active(env, i, n));
    }
    let (path, evts) = lemma_run_of_env(ts, env, k);
    assert forall|i: int| 0 <= i < k implies ts.holds(p, #[trigger] path[i]) by {
        lemma_prop_sem(ts, p, env, i, path[i]);
        assert(prop_sem(ts, p, env, i));
    }
    lemma_prop_sem(ts, p, env, k, path[k]);
    assert(ts.is_run(path, evts) && evts.len() == k);
}

/// The inductive-step query: frames `0..=k` from a free state, each with
/// exactly one active state, joined by transitions, the property assumed
/// at frames `0..k` and negated at frame `k`. UNSAT means `k`-inductive;
/// SAT means a run refutes `k`-induction.
pub fn check_step(ts: &TransitionSystem, prop: &Prop, k: usize) -> (r: Result<SatAnswer, String>)
    requires
        ts.wf(),
        k < 0xffff_ffff,
    ensures
        match r {
            Err(e) => first_unknown(*ts, prop.value()) matches Some(name) && e@ == unknown_state_msg(name),
            Ok(a) => {
                &&& first_unknown(*ts, prop.value()) is None
                &&& a == SatAnswer::Unsat ==> inductive_at(*ts, prop.value(), k as int)
                &&& a == SatAnswer::Sat ==> !inductive_at(*ts, prop.value(), k as int)
            },
        },
{
    let ghost n = ts.states.len() as int;
    let ghost p = prop.value();
    let ghost kk = k as int;
    let mut solver = solver_new();
    let mut frames: Vec<Frame> = Vec::new();
    let mut i: usize = 0;
    while i <= k
        invariant
            i <= k + 1,
            k < 0xffff_ffff,
            n == ts.states.len(),
            frames.len() == i,
            forall|j: int| 0 <= j < i ==> (#[trigger] frames@[j]).wf(n) && frames@[j].step() == j,
        decreases k + 1 - i,
    {
        frames.push(Frame::new(ts, i));
        i += 1;
    }
    let mut i: usize = 0;
    while i < frames.len()
        invariant
            ts.wf(),
            n == ts.states.len(),
            p == prop.value(),
            kk == k,
            frames.len() == k + 1,
            i <= frames.len(),
            forall|j: int| 0 <= j <= k ==> (#[trigger] frames@[j]).wf(n) && frames@[j].step() == j,
            forall|env: Env| #[trigger] all_hold(solver_facts(solver), env) == step_part(*ts, p, env, kk, i as int, 0, 0, false),
        decreases frames.len() - i,
    {
        let m = frames[i].mutex();
        let ghost before = solver_facts(solver);
        solver_assert(&mut solver, &m);
        proof {
            assert forall|env: Env| #[trigger] all_hold(solver_facts(solver), env)
                == step_part(*ts, p, env, kk, i + 1, 0, 0, false) by {
                lemma_all_hold_push(before, m@, env);
                assert(m@.eval(env) == exactly_one_active(env, i as int, n));
                if step_part(*ts, p, env, kk, i + 1, 0, 0, false) {
                    assert(exactly_one_active(env, i as int, n));
                }
            }
        }
        i += 1;
    }
    let mut i: usize = 0;
    while i < k
        invariant
            ts.wf(),
            n == ts.states.len(),
            p == prop.value(),
            kk == k,
            frames.len() == k + 1,
            i <= k,
            forall|j: int| 0 <= j <= k ==> (#[trigger] frames@[j]).wf(n) && frames@[j].step() == j,
            forall|env: Env| #[trigger] all_hold(solver_facts(solver), env) == step_part(*ts, p, env, kk, kk + 1, i as int, 0, false),
        decreases k - i,
    {
        let t = trans_formula(ts, &frames[i], &frames[i + 1]);
        let ghost before = solver_facts(solver);
        solver_assert(&mut solver, &t);
        proof {
            assert forall|env: Env| #[trigger] all_hold(solver_facts(solver), env)
                == step_part(*ts, p, env, kk, kk + 1, i + 1, 0, false) by {
                lemma_all_hold_push(before, t@, env);
                assert(t@.eval(env) == trans_sem(*ts, env, i as int));
                if step_part(*ts, p, env, kk, kk + 1, i + 1, 0, false) {
                    assert(trans_sem(*ts, env, i as int));
                }
            }
        }
        i += 1;
    }
    let mut i: usize = 0;
    while i < k
        invariant
            ts.wf(),
            n == ts.states.len(),
            p == prop.value(),
            kk == k,
            frames.len() == k + 1,
            i <= k,
            forall|j: int| 0 <= j <= k ==> (#[trigger] frames@[j]).wf(n) && frames@[j].step() == j,
            forall|env: Env| #[trigger] all_hold(solver_facts(solver), env) == step_part(*ts, p, env, kk, kk + 1, kk, i as int, false),
        decreases k - i,
    {
        let t = encode_prop(prop, ts, &frames[i])?;
        let ghost before = solver_facts(solver);
        solver_assert(&mut solver, &t);
        proof {
            assert forall|env: Env| #[trigger] all_hold(solver_facts(solver), env)
                == step_part(*ts, p, env, kk, kk + 1, kk, i + 1, false) by {
                lemma_all_hold_push(before, t@, env);
                assert(t@.eval(env) == prop_sem(*ts, p, env, i as int));
                if step_part(*ts, p, env, kk, kk + 1, kk, i + 1, false) {
                    assert(prop_sem(*ts, p, env, i as int));
                }
            }
        }
        i += 1;
    }
    let last = encode_prop(prop, ts, &frames[k])?;
    let neg = term_not(&last);
    let ghost before = solver_facts(solver);
    solver_assert(&mut solver, &neg);
    let ghost facts = solver_facts(solver);
    proof {
        assert forall|env: Env| #[trigger] all_hold(facts, env) == step_world(*ts, p, env, kk) by {
            lemma_all_hold_push(before, neg@, env);
            assert(last@.eval(env) == prop_sem(*ts, p, env, frames@[kk].step()));
            assert(all_hold(before, env) == step_part(*ts, p, env, kk, kk + 1, kk, kk, false));
        }
    }
    let answer = solver_check(&mut solver);
    proof {
        if answer == SatAnswer::Unsat {
            assert forall|path: Seq<int>, evts: Seq<int>| #[trigger] ts.is_run(path, evts) && evts.len() == k
                && (forall|i: int| 0 <= i < k ==> ts.holds(p, #[trigger] path[i])) implies ts.holds(p, path[kk]) by {
                if !ts.holds(p, path[kk]) {
                    let env = env_of_run(path, evts);
                    lemma_env_of_run(*ts, path, evts);
                    assert forall|i: int| 0 <= i <= k implies #[trigger] prop_sem(*ts, p, env, i) == ts.holds(p, path[i]) by {
                        lemma_prop_sem(*ts, p, env, i, path[i]);
                    }
                    assert(step_world(*ts, p, env, kk));
                    assert(all_hold(facts, env));
                }
            }
        }
        if answer == SatAnswer::Sat {
            let env = choose|env: Env| all_hold(facts, env);
            assert(step_world(*ts, p, env, kk));
            lemma_step_world_refutes(*ts, p, env, kk);
        }
    }
    Ok(answer)
}

/// Largest `k` that k-induction tries.
pub const KIND_MAX_K: usize = 8;

/// The reasons k-induction gives when it cannot conclude.
pub open spec fn k_induction_unknown_reason(reason: Seq<char>, max_k: int) -> bool {
    ||| reason == "base SAT without model"@
    ||| exists|k: nat| 1 <= k <= max_k && reason == #[trigger] base_unknown_msg(k)
    ||| exists|k: nat| 1 <= k <= max_k && reason == #[trigger] step_unknown_msg(k)
    ||| reason == not_converged_msg()
}

pub open spec fn base_unknown_msg(k: nat) -> Seq<char> {
    "base case at k="@ + decimal(k) + " returned unknown"@
}

pub open spec fn step_unknown_msg(k: nat) -> Seq<char> {
    "inductive step at k="@ + decimal(k) + " returned unknown"@
}

pub open spec fn not_converged_msg() -> Seq<char> {
    "k-induction did not converge within k=8"@
}

/// The verdict of k-induction after the base query at depth `k - 1`: none
/// (go on to the step) when clear, the trace of a violation, or unknown.
pub fn kind_base_decide(ans: DepthAnswer, k: usize) -> (r: Option<Outcome>)
    ensures
        match ans {
            DepthAnswer::Clear => r is None,
            DepthAnswer::Violation(t) => r matches Some(Outcome::Violated { trace }) && trace@ == t@,
            DepthAnswer::NoModel => r matches Some(Outcome::Unknown { reason }) && reason@ == "base SAT without model"@,
            DepthAnswer::Undecided(_) => r matches Some(Outcome::Unknown { reason }) && reason@ == base_unknown_msg(k as nat),
        },
{
    match ans {
        DepthAnswer::Clear => None,
        DepthAnswer::Violation(trace) => Some(Outcome::Violated { trace }),
        DepthAnswer::NoModel => Some(Outcome::Unknown { reason: String::from_str("base SAT without model") }),
        DepthAnswer::Undecided(_) => {
            let mut reason = String::from_str("base case at k=");
            let digits = decimal_text(k);
            reason.append(digits.as_str());
            reason.append(" returned unknown");
            Some(Outcome::Unknown { reason })
        },
    }
}

/// The verdict of k-induction after the inductive-step query at `k`: a
/// proof at `k` on UNSAT; on SAT, none (try `k + 1`) below `max_k` and
/// "did not converge" at `max_k`; unknown on UNKNOWN.
pub fn kind_step_decide(answer: SatAnswer, k: usize, max_k: usize) -> (r: Option<Outcome>)
    requires
        1 <= k <= max_k,
    ensures
        match answer {
            SatAnswer::Unsat => r matches Some(Outcome::Holds { k: kk }) && kk == k,
            SatAnswer::Sat => if k < max_k {
                r is None
            } else {
                r matches Some(Outcome::Unknown { reason }) && reason@ == not_converged_msg()
            },
            SatAnswer::Unknown => r matches Some(Outcome::Unknown { reason }) && reason@ == step_unknown_msg(k as nat),
        },
{
    match answer {
        SatAnswer::Unsat => Some(Outcome::Holds { k }),
        SatAnswer::Sat => if k < max_k {
            None
        } else {
            Some(Outcome::Unknown { reason: String::from_str("k-induction did not converge within k=8") })
        },
        SatAnswer::Unknown => {
            let mut reason = String::from_str("inductive step at k=");
            let digits = decimal_text(k);
            reason.append(digits.as_str());
            reason.append(" returned unknown");
            Some(Outcome::Unknown { reason })
        },
    }
}

/// The length of a k-induction counterexample: `k` transitions for the
/// round `k` that found it, or `k - 1` when no run of exactly `k`
/// transitions violates `p` (a run that stops early).
pub open spec fn kind_cex_len(ts: TransitionSystem, p: PropV, n: int, max_k: int) -> bool {
    (1 <= n <= max_k) || (0 <= n < max_k && safe_runs_of_len(ts, p, n + 1))
}

/// What k-induction may answer: an encoding error for an unknown state
/// name; otherwise a proof at some `k` (no violation within `k` steps,
/// `p` is `k`-inductive, hence `p` holds in every reachable state), a real
/// counterexample found by the first round that finds one (earlier rounds
/// saw no violation), or one of the reasons for stopping; "did not
/// converge" only when no round up to `max_k` found a violation or a proof.
pub open spec fn kind_outcome(ts: TransitionSystem, p: PropV, max_k: int, out: Outcome) -> bool {
    &&& max_k >= 1 ==> (first_unknown(ts, p) matches Some(name) ==> (out matches Outcome::Unknown { reason }
        && reason@ == encoding_failed_msg(unknown_state_msg(name))))
    &&& max_k == 0 ==> (out matches Outcome::Unknown { reason } && reason@ == not_converged_msg())
    &&& first_unknown(ts, p) is None ==> match out {
        Outcome::Holds { k } => 1 <= k <= max_k && safe_within(ts, p, k - 1) && safe_runs_of_len(ts, p, k as int)
            && inductive_at(ts, p, k as int) && reachable_safe(ts, p),
        Outcome::Violated { trace } => exists|path: Seq<int>, evts: Seq<int>| kind_cex_len(ts, p, evts.len() as int, max_k)
            && #[trigger] is_counterexample(ts, p, path, evts) && trace_agrees(ts, trace@, path, evts)
            && (evts.len() >= 2 ==> safe_within(ts, p, evts.len() - 1)),
        Outcome::BoundedSafe { .. } => false,
        Outcome::Unknown { reason } => k_induction_unknown_reason(reason@, max_k)
            && (max_k >= 1 && reason@ == not_converged_msg() ==> gave_up(ts, p, max_k)),
    }
}

/// k-induction gives up at `max_k` only when it has to: no violation within
/// `max_k` steps, and `p` is `k`-inductive for no `k` up to `max_k`.
pub open spec fn gave_up(ts: TransitionSystem, p: PropV, max_k: int) -> bool {
    safe_within(ts, p, max_k) && forall|k: int| 1 <= k <= max_k ==> !#[trigger] inductive_at(ts, p, k)
}

/// The reasons for stopping early differ from the reason for giving up.
proof fn lemma_unknown_msgs_differ(k: nat)
    ensures
        base_unknown_msg(k) != not_converged_msg(),
        step_unknown_msg(k) != not_converged_msg(),
        "base SAT without model"@ != not_converged_msg(),
{
    reveal_strlit("k-induction did not converge within k=8");
    reveal_strlit("base case at k=");
    reveal_strlit("inductive step at k=");
    reveal_strlit("base SAT without model");
    assert(base_unknown_msg(k)[0] == 'b');
    assert(step_unknown_msg(k)[0] == 'i');
    assert(not_converged_msg()[0] == 'k');
}

/// k-induction: for `k = 1..=max_k`, check the base case (no initial run
/// of exactly `k` transitions violates the property; in the first round
/// also no run that stops in the initial state; with the earlier rounds,
/// no violation within `k` steps) and then the inductive step.
pub fn k_induction(ts: &TransitionSystem, prop: &Prop, max_k: usize) -> (out: Outcome)
    requires
        ts.wf(),
        max_k < 0xffff_fffe,
    ensures
        kind_outcome(*ts, prop.value(), max_k as int, out),
{
    if max_k == 0 {
        return Outcome::Unknown { reason: String::from_str("k-induction did not converge within k=8") };
    }
    let ghost p = prop.value();
    let mut k: usize = 1;
    loop
        invariant
            ts.wf(),
            1 <= k <= max_k < 0xffff_fffe,
            p == prop.value(),
            k > 1 ==> first_unknown(*ts, p) is None,
            k > 1 ==> safe_within(*ts, p, k - 1),
            forall|j: int| 1 <= j < k ==> !#[trigger] inductive_at(*ts, p, j),
        decreases max_k - k,
    {
        let reply = match check_full(ts, prop, k) {
            Err(e) => {
                let mut reason = String::from_str("property encoding failed: ");
                reason.append(e.as_str());
                return Outcome::Unknown { reason };
            },
            Ok(r) => r,
        };
        let ghost model = reply.model;
        let ans = read_depth(reply, ts);
        proof {
            if ans is Violation {
                let t = ans->Violation_0;
                let m = model->Some_0;
                lemma_model_full_counterexample(*ts, p, k as int, m, t@);
            }
        }
        let ghost av = ans;
        proof {
            lemma_unknown_msgs_differ(k as nat);
        }
        match kind_base_decide(ans, k) {
            Some(o) => {
                return o;
            },
            None => {},
        }
        assert(av is Clear);
        assert(safe_runs_of_len(*ts, p, k as int));
        if k == 1 {
            // Runs that stop in the initial state are not runs of one
            // transition: ask for them once.
            let reply = match check_depth(ts, prop, 0) {
                Err(e) => {
                    let mut reason = String::from_str("property encoding failed: ");
                    reason.append(e.as_str());
                    return Outcome::Unknown { reason };
                },
                Ok(r) => r,
            };
            let ghost answer = reply.answer;
            let ghost model = reply.model;
            proof {
                if answer == SatAnswer::Unsat {
                    lemma_safe_within_step(*ts, p, 0);
                }
            }
            let ans = read_depth(reply, ts);
            proof {
                if ans is Violation {
                    let t = ans->Violation_0;
                    let m = model->Some_0;
                    lemma_model_counterexample(*ts, p, 0, m, t@);
                }
            }
            let ghost av = ans;
            match kind_base_decide(ans, k) {
                Some(o) => {
                    return o;
                },
                None => {},
            }
            assert(av is Clear);
        }
        proof {
            lemma_full_gives_end(*ts, p, k as int);
            lemma_safe_within_step(*ts, p, k as int);
        }
        let step = match check_step(ts, prop, k) {
            Err(e) => {
                let mut reason = String::from_str("property encoding failed: ");
                reason.append(e.as_str());
                return Outcome::Unknown { reason };
            },
            Ok(a) => a,
        };
        proof {
            if step == SatAnswer::Unsat {
                lemma_k_induction_sound(*ts, p, k as int);
            }
        }
        proof {
            lemma_unknown_msgs_differ(k as nat);
            if step == SatAnswer::Sat && k == max_k {
                assert forall|j: int| 1 <= j <= max_k implies !#[trigger] inductive_at(*ts, p, j) by {
                    if j < k {
                        assert(!inductive_at(*ts, p, j));
                    }
                }
            }
        }
        match kind_step_decide(step, k, max_k) {
            Some(o) => {
                return o;
            },
            None => {},
        }
        k += 1;
    }
}

} // verus!
