//! Encoding of a transition system and a property as solver terms over
//! symbolic time steps ("frames").
use vstd::prelude::*;
use crate::formula::{Formula, Env, lemma_count_true_one, only_true};
use crate::smt::{Term, EventVar, term_views, term_state_var, event_var, term_exactly_one, term_clone,
    term_not, term_and, term_or, term_lit, term_event_is, term_implies, term_iff};
use crate::system::{position_of, lemma_first_index};
use crate::formula::{lemma_eval_all, lemma_eval_any};
use crate::system::TransitionSystem;
use crate::property::{Prop, PropV};

verus! {

/// State `i` is the only one of the states `0..n` active at step `k`.
pub open spec fn only_active(env: Env, k: int, n: int, i: int) -> bool {
    &&& 0 <= i < n
    &&& (env.state)(k, i)
    &&& forall|l: int| 0 <= l < n && l != i ==> !#[trigger] (env.state)(k, l)
}

/// Exactly one of the states `0..n` is active at step `k`.
pub open spec fn exactly_one_active(env: Env, k: int, n: int) -> bool {
    exists|i: int| #[trigger] only_active(env, k, n, i)
}

/// Step 0 is the initial state and no other state.
pub open spec fn init_sem(ts: TransitionSystem, env: Env) -> bool {
    &&& forall|i: int| 0 <= i < ts.states.len() ==> #[trigger] (env.state)(0, i) == (i == ts.initial_index())
    &&& exactly_one_active(env, 0, ts.states.len() as int)
}

/// Edge `j` fires between steps `k` and `k + 1`.
pub open spec fn edge_fires(ts: TransitionSystem, env: Env, k: int, j: int) -> bool {
    let e = ts.edges@[j];
    &&& (env.state)(k, e.0 as int)
    &&& (env.state)(k + 1, e.2 as int)
    &&& (env.event)(k) == (e.1 as i64) as int
}

/// Some edge fires between steps `k` and `k + 1`, and exactly one state is
/// active at step `k + 1`.
pub open spec fn trans_sem(ts: TransitionSystem, env: Env, k: int) -> bool {
    &&& exists|j: int| 0 <= j < ts.edges.len() && #[trigger] edge_fires(ts, env, k, j)
    &&& exactly_one_active(env, k + 1, ts.states.len() as int)
}

/// Value of `p` at step `k`, reading `in(name)` as the state variable of
/// the first state called `name`.
pub open spec fn prop_sem(ts: TransitionSystem, p: PropV, env: Env, k: int) -> bool
    decreases p,
{
    match p {
        PropV::True => true,
        PropV::False => false,
        PropV::In(name) => (env.state)(k, ts.index_of_name(name)),
        PropV::Not(a) => !prop_sem(ts, *a, env, k),
        PropV::And(a, b) => prop_sem(ts, *a, env, k) && prop_sem(ts, *b, env, k),
        PropV::Or(a, b) => prop_sem(ts, *a, env, k) || prop_sem(ts, *b, env, k),
        PropV::Implies(a, b) => prop_sem(ts, *a, env, k) ==> prop_sem(ts, *b, env, k),
        PropV::Iff(a, b) => prop_sem(ts, *a, env, k) == prop_sem(ts, *b, env, k),
    }
}

/// The first state name of `p` (left to right) that the system lacks.
pub open spec fn first_unknown(ts: TransitionSystem, p: PropV) -> Option<Seq<char>>
    decreases p,
{
    match p {
        PropV::True => None,
        PropV::False => None,
        PropV::In(name) => if ts.index_of_name(name) < 0 { Some(name) } else { None },
        PropV::Not(a) => first_unknown(ts, *a),
        PropV::And(a, b) => or_else(first_unknown(ts, *a), first_unknown(ts, *b)),
        PropV::Or(a, b) => or_else(first_unknown(ts, *a), first_unknown(ts, *b)),
        PropV::Implies(a, b) => or_else(first_unknown(ts, *a), first_unknown(ts, *b)),
        PropV::Iff(a, b) => or_else(first_unknown(ts, *a), first_unknown(ts, *b)),
    }
}

/// `x` if present, else `y`.
pub open spec fn or_else(x: Option<Seq<char>>, y: Option<Seq<char>>) -> Option<Seq<char>> {
    match x {
        Some(s) => Some(s),
        None => y,
    }
}

/// Message for an `in(...)` atom naming an unknown state.
pub open spec fn unknown_state_msg(name: Seq<char>) -> Seq<char> {
    "unknown state `"@ + name + "` in `in(...)`"@
}

/// The state variables of step `k`.
pub open spec fn state_vars(k: int, n: int) -> Seq<Formula> {
    Seq::new(n as nat, |i: int| Formula::StateVar(k, i))
}

/// "Exactly one of the state variables of step `k`" means exactly one
/// active state.
pub proof fn lemma_exactly_one_state_vars(env: Env, k: int, n: int)
    requires
        0 <= n,
    ensures
        Formula::ExactlyOne(state_vars(k, n)).eval(env) == exactly_one_active(env, k, n),
{
    let vs = state_vars(k, n);
    lemma_count_true_one(vs, env);
    assert forall|i: int| #[trigger] only_true(vs, env, i) == only_active(env, k, n, i) by {
        if 0 <= i < n {
            assert(vs[i] == Formula::StateVar(k, i));
            if only_true(vs, env, i) {
                assert forall|l: int| 0 <= l < n && l != i implies !#[trigger] (env.state)(k, l) by {
                    assert(vs[l] == Formula::StateVar(k, l));
                    assert(!vs[l].eval(env));
                }
            }
            if only_active(env, k, n, i) {
                assert forall|l: int| 0 <= l < vs.len() && l != i implies !#[trigger] vs[l].eval(env) by {
                    assert(vs[l] == Formula::StateVar(k, l));
                    assert(!(env.state)(k, l));
                }
            }
        }
    }
    if exactly_one_active(env, k, n) {
        let i = choose|i: int| #[trigger] only_active(env, k, n, i);
        assert(only_true(vs, env, i));
    }
    if Formula::ExactlyOne(vs).eval(env) {
        let i = choose|i: int| #[trigger] only_true(vs, env, i);
        assert(only_active(env, k, n, i));
    }
}

/// Symbolic snapshot of the system at one step: one Boolean per state and
/// the event that fires out of this step.
pub struct Frame {
    pub in_state: Vec<Term>,
    pub evt: EventVar,
}

impl Frame {
    /// The step this frame stands for.
    pub open spec fn step(&self) -> int {
        self.evt@
    }

    /// The frame's state terms are the state variables of its step.
    pub open spec fn wf(&self, n: int) -> bool {
        &&& self.in_state.len() == n
        &&& forall|i: int| 0 <= i < n ==> (#[trigger] self.in_state@[i])@ == Formula::StateVar(self.step(), i)
    }

    /// The frame of step `k`.
    pub fn new(ts: &TransitionSystem, k: usize) -> (f: Frame)
        ensures
            f.wf(ts.states.len() as int),
            f.step() == k as int,
    {
        let mut in_state: Vec<Term> = Vec::new();
        let mut i: usize = 0;
        while i < ts.states.len()
            invariant
                i <= ts.states.len(),
                in_state.len() == i,
                forall|j: int| 0 <= j < i ==> (#[trigger] in_state@[j])@ == Formula::StateVar(k as int, j),
            decreases ts.states.len() - i,
        {
            in_state.push(term_state_var(k, i));
            i += 1;
        }
        Frame { in_state, evt: event_var(k) }
    }

    /// "Exactly one state is active" at this frame's step.
    pub fn mutex(&self) -> (t: Term)
        requires
            self.wf(self.in_state.len() as int),
            self.in_state.len() <= 0xffff_ffff,
        ensures
            forall|env: Env| #[trigger] t@.eval(env) == exactly_one_active(env, self.step(), self.in_state.len() as int),
    {
        let t = term_exactly_one(&self.in_state);
        proof {
            let n = self.in_state.len() as int;
            let k = self.step();
            assert(term_views(self.in_state@) =~= state_vars(k, n));
            assert forall|env: Env| #[trigger] t@.eval(env) == exactly_one_active(env, k, n) by {
                lemma_exactly_one_state_vars(env, k, n);
            }
        }
        t
    }
}

/// The initial-state predicate: the initial state is active at step 0 and
/// no other state is.
pub fn init_formula(ts: &TransitionSystem, f: &Frame) -> (t: Term)
    requires
        ts.wf(),
        f.wf(ts.states.len() as int),
        f.step() == 0,
    ensures
        forall|env: Env| #[trigger] t@.eval(env) == init_sem(*ts, env),
{
    let init = ts.initial_idx();
    let n = f.in_state.len();
    let mut clauses: Vec<Term> = Vec::new();
    let mut i: usize = 0;
    while i < n
        invariant
            i <= n,
            n == f.in_state.len(),
            n == ts.states.len(),
            f.wf(n as int),
            f.step() == 0,
            clauses.len() == i,
            init as int == ts.initial_index(),
            forall|j: int| 0 <= j < i ==> (#[trigger] clauses@[j])@ == (if j == init {
                Formula::StateVar(0, j)
            } else {
                Formula::Not(Box::new(Formula::StateVar(0, j)))
            }),
        decreases n - i,
    {
        if i == init {
            clauses.push(term_clone(&f.in_state[i]));
        } else {
            clauses.push(term_not(&f.in_state[i]));
        }
        i += 1;
    }
    let m = f.mutex();
    let ghost before = clauses@;
    clauses.push(m);
    let t = term_and(&clauses);
    proof {
        let vs = term_views(clauses@);
        assert forall|j: int| 0 <= j < n implies #[trigger] vs[j] == (if j == init {
            Formula::StateVar(0, j)
        } else {
            Formula::Not(Box::new(Formula::StateVar(0, j)))
        }) by {
            assert(clauses@[j] == before[j]);
        }
        assert forall|env: Env| #[trigger] t@.eval(env) == init_sem(*ts, env) by {
            reveal_with_fuel(Formula::eval, 2);
            lemma_eval_all(vs, env);
            assert(vs[n as int] == m@);
            if t@.eval(env) {
                assert forall|j: int| 0 <= j < n implies #[trigger] (env.state)(0, j) == (j == ts.initial_index()) by {
                    assert(vs[j].eval(env));
                    if j == init {
                        assert(vs[j] == Formula::StateVar(0, j));
                    } else {
                        assert(vs[j] == Formula::Not(Box::new(Formula::StateVar(0, j))));
                        assert(!(env.state)(0, j));
                    }
                }
                assert(vs[n as int].eval(env));
            }
            if init_sem(*ts, env) {
                assert forall|j: int| 0 <= j < vs.len() implies #[trigger] vs[j].eval(env) by {
                    if j < n {
                        assert((env.state)(0, j) == (j == ts.initial_index()));
                        if j == init {
                            assert(vs[j] == Formula::StateVar(0, j));
                        } else {
                            assert(vs[j] == Formula::Not(Box::new(Formula::StateVar(0, j))));
                        }
                    }
                }
            }
        }
    }
    t
}

/// The transition relation between two consecutive frames: some edge fires
/// (source active now, target active next, event matching its label), and
/// exactly one state is active at the next frame.
pub fn trans_formula(ts: &TransitionSystem, f_k: &Frame, f_next: &Frame) -> (t: Term)
    requires
        ts.wf(),
        f_k.wf(ts.states.len() as int),
        f_next.wf(ts.states.len() as int),
        f_next.step() == f_k.step() + 1,
    ensures
        forall|env: Env| #[trigger] t@.eval(env) == trans_sem(*ts, env, f_k.step()),
{
    let ghost k = f_k.step();
    let mut disjuncts: Vec<Term> = Vec::new();
    let mut j: usize = 0;
    while j < ts.edges.len()
        invariant
            ts.wf(),
            f_k.wf(ts.states.len() as int),
            f_next.wf(ts.states.len() as int),
            f_next.step() == k + 1,
            k == f_k.step(),
            j <= ts.edges.len(),
            disjuncts.len() == j,
            forall|l: int| 0 <= l < j ==> forall|env: Env| #[trigger] (#[trigger] disjuncts@[l])@.eval(env)
                == edge_fires(*ts, env, k, l),
        decreases ts.edges.len() - j,
    {
        let (src, evt, tgt) = ts.edges[j];
        let mut conj: Vec<Term> = Vec::new();
        conj.push(term_clone(&f_k.in_state[src]));
        conj.push(term_clone(&f_next.in_state[tgt]));
        conj.push(term_event_is(&f_k.evt, evt as i64));
        let c = term_and(&conj);
        proof {
            let vs = term_views(conj@);
            assert forall|env: Env| #[trigger] c@.eval(env) == edge_fires(*ts, env, k, j as int) by {
                lemma_eval_all(vs, env);
                assert(vs[0] == Formula::StateVar(k, src as int));
                assert(vs[1] == Formula::StateVar(k + 1, tgt as int));
                assert(vs[2] == Formula::EventIs(k, evt as i64 as int));
                if c@.eval(env) {
                    assert(vs[0].eval(env) && vs[1].eval(env) && vs[2].eval(env));
                }
            }
        }
        disjuncts.push(c);
        j += 1;
    }
    let step = if disjuncts.len() == 0 {
        term_lit(false)
    } else {
        term_or(&disjuncts)
    };
    let m = f_next.mutex();
    let mut both: Vec<Term> = Vec::new();
    both.push(step);
    both.push(m);
    let t = term_and(&both);
    proof {
        let ds = term_views(disjuncts@);
        let vs = term_views(both@);
        assert forall|env: Env| #[trigger] t@.eval(env) == trans_sem(*ts, env, k) by {
            lemma_eval_all(vs, env);
            lemma_eval_any(ds, env);
            assert(vs[0] == step@);
            assert(vs[1] == m@);
            let fires = exists|l: int| 0 <= l < ts.edges.len() && #[trigger] edge_fires(*ts, env, k, l);
            if disjuncts.len() > 0 {
                assert(step@ == Formula::Or(ds));
                if step@.eval(env) {
                    let l = choose|l: int| 0 <= l < ds.len() && #[trigger] ds[l].eval(env);
                    assert(ds[l] == disjuncts@[l]@);
                    assert(disjuncts@[l]@.eval(env));
                    assert(edge_fires(*ts, env, k, l));
                }
                if fires {
                    let l = choose|l: int| 0 <= l < ts.edges.len() && #[trigger] edge_fires(*ts, env, k, l);
                    assert(disjuncts@[l]@.eval(env));
                    assert(ds[l] == disjuncts@[l]@);
                    assert(ds[l].eval(env));
                }
            } else {
                assert(step@ == Formula::Lit(false));
            }
            assert(step@.eval(env) == fires);
            assert(m@.eval(env) == exactly_one_active(env, k + 1, ts.states.len() as int));
            assert(t@ == Formula::And(vs));
            assert(t@.eval(env) == (vs[0].eval(env) && vs[1].eval(env)));
        }
    }
    t
}

/// Compile a property into a term over the given frame; fails on the first
/// `in(...)` atom (left to right) that names no state.
pub fn encode_prop(p: &Prop, ts: &TransitionSystem, f: &Frame) -> (r: Result<Term, String>)
    requires
        ts.wf(),
        f.wf(ts.states.len() as int),
    ensures
        match r {
            Ok(t) => first_unknown(*ts, p.value()) is None
                && forall|env: Env| #[trigger] t@.eval(env) == prop_sem(*ts, p.value(), env, f.step()),
            Err(m) => first_unknown(*ts, p.value()) matches Some(name) && m@ == unknown_state_msg(name),
        },
    decreases p,
{
    match p {
        Prop::True => Ok(term_lit(true)),
        Prop::False => Ok(term_lit(false)),
        Prop::In(s) => match position_of(&ts.states, s) {
            Some(i) => {
                proof { lemma_first_index(ts.state_names(), s@); }
                let t = term_clone(&f.in_state[i]);
                assert(t@ == Formula::StateVar(f.step(), ts.index_of_name(s@)));
                Ok(t)
            },
            None => {
                let mut m = String::from_str("unknown state `");
                m.append(s.as_str());
                m.append("` in `in(...)`");
                Err(m)
            },
        },
        Prop::Not(a) => {
            let ta = encode_prop(a, ts, f)?;
            let t = term_not(&ta);
            proof {
                assert forall|env: Env| #[trigger] t@.eval(env) == prop_sem(*ts, p.value(), env, f.step()) by {
                    assert(ta@.eval(env) == prop_sem(*ts, a.value(), env, f.step()));
                }
            }
            Ok(t)
        },
        Prop::And(a, b) => {
            let ta = encode_prop(a, ts, f)?;
            let tb = encode_prop(b, ts, f)?;
            let mut v: Vec<Term> = Vec::new();
            v.push(ta);
            v.push(tb);
            let t = term_and(&v);
            proof {
                assert forall|env: Env| #[trigger] t@.eval(env) == prop_sem(*ts, p.value(), env, f.step()) by {
                    lemma_eval_all(term_views(v@), env);
                    assert(term_views(v@)[0] == ta@);
                    assert(term_views(v@)[1] == tb@);
                    assert(ta@.eval(env) == prop_sem(*ts, a.value(), env, f.step()));
                    assert(tb@.eval(env) == prop_sem(*ts, b.value(), env, f.step()));
                    if t@.eval(env) != prop_sem(*ts, p.value(), env, f.step()) {
                        assert(term_views(v@)[0].eval(env) == ta@.eval(env));
                    }
                }
            }
            Ok(t)
        },
        Prop::Or(a, b) => {
            let ta = encode_prop(a, ts, f)?;
            let tb = encode_prop(b, ts, f)?;
            let mut v: Vec<Term> = Vec::new();
            v.push(ta);
            v.push(tb);
            let t = term_or(&v);
            proof {
                assert forall|env: Env| #[trigger] t@.eval(env) == prop_sem(*ts, p.value(), env, f.step()) by {
                    lemma_eval_any(term_views(v@), env);
                    assert(term_views(v@)[0] == ta@);
                    assert(term_views(v@)[1] == tb@);
                    assert(ta@.eval(env) == prop_sem(*ts, a.value(), env, f.step()));
                    assert(tb@.eval(env) == prop_sem(*ts, b.value(), env, f.step()));
                    if t@.eval(env) != prop_sem(*ts, p.value(), env, f.step()) {
                        assert(term_views(v@)[0].eval(env) == ta@.eval(env));
                    }
                }
            }
            Ok(t)
        },
        Prop::Implies(a, b) => {
            let ta = encode_prop(a, ts, f)?;
            let tb = encode_prop(b, ts, f)?;
            let t = term_implies(&ta, &tb);
            proof {
                assert forall|env: Env| #[trigger] t@.eval(env) == prop_sem(*ts, p.value(), env, f.step()) by {
                    assert(ta@.eval(env) == prop_sem(*ts, a.value(), env, f.step()));
                    assert(tb@.eval(env) == prop_sem(*ts, b.value(), env, f.step()));
                }
            }
            Ok(t)
        },
        Prop::Iff(a, b) => {
            let ta = encode_prop(a, ts, f)?;
            let tb = encode_prop(b, ts, f)?;
            let t = term_iff(&ta, &tb);
            proof {
                assert forall|env: Env| #[trigger] t@.eval(env) == prop_sem(*ts, p.value(), env, f.step()) by {
                    assert(ta@.eval(env) == prop_sem(*ts, a.value(), env, f.step()));
                    assert(tb@.eval(env) == prop_sem(*ts, b.value(), env, f.step()));
                }
            }
            Ok(t)
        },
    }
}

} // verus!
