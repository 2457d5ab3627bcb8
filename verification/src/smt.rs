//! The bridge to the Z3 solver. Every item marked `external_body` here is
//! trusted: its contract restates what the `z3` crate documents, and each
//! `Term` carries the formula (in the sense of [`Formula`]) that its Z3
//! expression denotes.
use vstd::prelude::*;
use crate::formula::{Formula, Env, all_hold, satisfiable};

verus! {

#[verifier::external_type_specification]
#[verifier::external_body]
pub struct ExSolver(z3::Solver);

#[verifier::external_type_specification]
#[verifier::external_body]
pub struct ExModel(z3::Model);

#[verifier::external_type_specification]
#[verifier::external_body]
pub struct ExBool(z3::ast::Bool);

#[verifier::external_type_specification]
#[verifier::external_body]
pub struct ExInt(z3::ast::Int);

/// The formulas asserted into a solver so far, in assertion order.
pub uninterp spec fn solver_facts(s: z3::Solver) -> Seq<Formula>;

/// Whether the most recent satisfiability check of the solver answered SAT.
pub uninterp spec fn solver_answered_sat(s: z3::Solver) -> bool;

/// The Boolean values a model reports for the state constants, keyed by
/// `(step, state index)`: a key is present when the model interprets the
/// constant as `true` or `false`.
pub uninterp spec fn model_state_values(m: z3::Model) -> Map<(int, int), bool>;

/// The integer values a model reports for the event constants, keyed by
/// step: a key is present when the model interprets the constant as an
/// integer numeral.
pub uninterp spec fn model_event_values(m: z3::Model) -> Map<int, int>;

/// `env` agrees with every value that the model assigns.
pub open spec fn env_agrees(env: Env, m: z3::Model) -> bool {
    &&& forall|k: int, i: int| #[trigger] model_state_values(m).contains_key((k, i))
        ==> (env.state)(k, i) == model_state_values(m)[(k, i)]
    &&& forall|k: int| #[trigger] model_event_values(m).contains_key(k)
        ==> (env.event)(k) == model_event_values(m)[k]
}

/// A Boolean Z3 expression together with the formula it denotes.
pub struct Term {
    ast: z3::ast::Bool,
    formula: Ghost<Formula>,
}

impl View for Term {
    type V = Formula;

    closed spec fn view(&self) -> Formula {
        self.formula@
    }
}

/// The integer event constant of one step.
pub struct EventVar {
    ast: z3::ast::Int,
    step: Ghost<int>,
}

impl View for EventVar {
    type V = int;

    closed spec fn view(&self) -> int {
        self.step@
    }
}

/// The views of a sequence of terms.
pub open spec fn term_views(ts: Seq<Term>) -> Seq<Formula> {
    ts.map_values(|t: Term| t@)
}

/// Answer of a satisfiability check.
#[derive(Debug, Clone, Copy, PartialEq, Eq)]
pub enum SatAnswer {
    Sat,
    Unsat,
    Unknown,
}

/// `Bool::from_bool`: the literal `b`.
#[verifier::external_body]
pub(crate) fn term_lit(b: bool) -> (t: Term)
    ensures
        t@ == Formula::Lit(b),
{
    Term { ast: z3::ast::Bool::from_bool(b), formula: Ghost(Formula::Lit(b)) }
}

/// `Bool::new_const` named `in_{step}_{state}`: the Boolean constant that
/// stands for "state `state` is active at step `step`". Equal names give
/// the same Z3 constant, and distinct `(step, state)` pairs give distinct
/// names.
#[verifier::external_body]
pub(crate) fn term_state_var(step: usize, state: usize) -> (t: Term)
    ensures
        t@ == Formula::StateVar(step as int, state as int),
{
    Term {
        ast: z3::ast::Bool::new_const(format!("in_{step}_{state}")),
        formula: Ghost(Formula::StateVar(step as int, state as int)),
    }
}

/// `Int::new_const` named `evt_{step}`: the event constant of step `step`.
#[verifier::external_body]
pub(crate) fn event_var(step: usize) -> (e: EventVar)
    ensures
        e@ == step as int,
{
    EventVar { ast: z3::ast::Int::new_const(format!("evt_{step}")), step: Ghost(step as int) }
}

/// `Int::eq` against `Int::from_i64(value)`: "the event of step `e` is `value`".
#[verifier::external_body]
pub(crate) fn term_event_is(e: &EventVar, value: i64) -> (t: Term)
    ensures
        t@ == Formula::EventIs(e@, value as int),
{
    Term {
        ast: e.ast.eq(z3::ast::Int::from_i64(value)),
        formula: Ghost(Formula::EventIs(e@, value as int)),
    }
}

/// `Bool::clone`: the same expression.
#[verifier::external_body]
pub(crate) fn term_clone(a: &Term) -> (t: Term)
    ensures
        t@ == a@,
{
    Term { ast: a.ast.clone(), formula: Ghost(a@) }
}

/// `Bool::not`.
#[verifier::external_body]
pub(crate) fn term_not(a: &Term) -> (t: Term)
    ensures
        t@ == Formula::Not(Box::new(a@)),
{
    Term { ast: a.ast.not(), formula: Ghost(Formula::Not(Box::new(a@))) }
}

/// `Bool::and` over a non-empty slice (the crate asserts the length fits in
/// a `u32`).
#[verifier::external_body]
pub(crate) fn term_and(ts: &Vec<Term>) -> (t: Term)
    requires
        0 < ts.len() <= 0xffff_ffff,
    ensures
        t@ == Formula::And(term_views(ts@)),
{
    let asts: Vec<&z3::ast::Bool> = ts.iter().map(|t| &t.ast).collect();
    Term { ast: z3::ast::Bool::and(&asts), formula: Ghost(Formula::And(term_views(ts@))) }
}

/// `Bool::or` over a non-empty slice (the crate asserts the length fits in
/// a `u32`).
#[verifier::external_body]
pub(crate) fn term_or(ts: &Vec<Term>) -> (t: Term)
    requires
        0 < ts.len() <= 0xffff_ffff,
    ensures
        t@ == Formula::Or(term_views(ts@)),
{
    let asts: Vec<&z3::ast::Bool> = ts.iter().map(|t| &t.ast).collect();
    Term { ast: z3::ast::Bool::or(&asts), formula: Ghost(Formula::Or(term_views(ts@))) }
}

/// `Bool::implies`.
#[verifier::external_body]
pub(crate) fn term_implies(a: &Term, b: &Term) -> (t: Term)
    ensures
        t@ == Formula::Implies(Box::new(a@), Box::new(b@)),
{
    Term { ast: a.ast.implies(&b.ast), formula: Ghost(Formula::Implies(Box::new(a@), Box::new(b@))) }
}

/// `Bool::iff`.
#[verifier::external_body]
pub(crate) fn term_iff(a: &Term, b: &Term) -> (t: Term)
    ensures
        t@ == Formula::Iff(Box::new(a@), Box::new(b@)),
{
    Term { ast: a.ast.iff(&b.ast), formula: Ghost(Formula::Iff(Box::new(a@), Box::new(b@))) }
}

/// `Bool::pb_eq` with every coefficient 1 and bound 1: exactly one operand
/// is true (the crate asserts the length fits in a `u32`).
#[verifier::external_body]
pub(crate) fn term_exactly_one(ts: &Vec<Term>) -> (t: Term)
    requires
        ts.len() <= 0xffff_ffff,
    ensures
        t@ == Formula::ExactlyOne(term_views(ts@)),
{
    let pairs: Vec<(&z3::ast::Bool, i32)> = ts.iter().map(|t| (&t.ast, 1)).collect();
    Term { ast: z3::ast::Bool::pb_eq(&pairs, 1), formula: Ghost(Formula::ExactlyOne(term_views(ts@))) }
}

/// `Solver::new`: a solver with no assertions.
#[verifier::external_body]
pub(crate) fn solver_new() -> (s: z3::Solver)
    ensures
        solver_facts(s) == Seq::<Formula>::empty(),
{
    z3::Solver::new()
}

/// `Solver::assert`: adds the term's formula to the assertions.
#[verifier::external_body]
pub(crate) fn solver_assert(s: &mut z3::Solver, t: &Term)
    ensures
        solver_facts(*final(s)) == solver_facts(*old(s)).push(t@),
{
    s.assert(&t.ast)
}

/// `Solver::check`: SAT only if the assertions are satisfiable, UNSAT only
/// if they are not; UNKNOWN says nothing.
#[verifier::external_body]
pub(crate) fn solver_check(s: &mut z3::Solver) -> (r: SatAnswer)
    ensures
        solver_facts(*final(s)) == solver_facts(*old(s)),
        solver_answered_sat(*final(s)) == (r == SatAnswer::Sat),
        r == SatAnswer::Sat ==> satisfiable(solver_facts(*old(s))),
        r == SatAnswer::Unsat ==> !satisfiable(solver_facts(*old(s))),
{
    match s.check() {
        z3::SatResult::Sat => SatAnswer::Sat,
        z3::SatResult::Unsat => SatAnswer::Unsat,
        z3::SatResult::Unknown => SatAnswer::Unknown,
    }
}

/// `Solver::get_model`: after a SAT answer, a model of the assertions, that
/// is, some assignment that agrees with every value the model gives makes
/// all assertions true.
#[verifier::external_body]
pub(crate) fn solver_model(s: &z3::Solver) -> (r: Option<z3::Model>)
    ensures
        solver_answered_sat(*s) ==> (r matches Some(m) ==> exists|env: Env|
            all_hold(solver_facts(*s), env) && env_agrees(env, m)),
{
    s.get_model()
}

/// `Solver::get_reason_unknown`: free-form text from the solver.
#[verifier::external_body]
pub(crate) fn solver_reason_unknown(s: &z3::Solver) -> Option<String> {
    s.get_reason_unknown()
}

/// `Model::get_const_interp` then `Bool::as_bool`: the value the model
/// reports for a state constant, or none when it reports none.
#[verifier::external_body]
pub(crate) fn model_state_value(m: &z3::Model, t: &Term) -> (r: Option<bool>)
    ensures
        forall|k: int, i: int| t@ == Formula::StateVar(k, i) ==> r == (if model_state_values(*m).contains_key((k, i)) {
            Some(model_state_values(*m)[(k, i)])
        } else {
            None
        }),
{
    m.get_const_interp(&t.ast).and_then(|v| v.as_bool())
}

/// `Model::get_const_interp` then `Int::as_i64`: the value the model
/// reports for an event constant when it fits in an `i64`, else none.
#[verifier::external_body]
pub(crate) fn model_event_value(m: &z3::Model, e: &EventVar) -> (r: Option<i64>)
    ensures
        r is Some <==> (model_event_values(*m).contains_key(e@) && i64::MIN <= model_event_values(*m)[e@] <= i64::MAX),
        r matches Some(v) ==> model_event_values(*m)[e@] == v as int,
{
    m.get_const_interp(&e.ast).and_then(|v| v.as_i64())
}

} // verus!
