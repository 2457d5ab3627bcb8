//! Propositional formulas over the state and event variables of an unrolled
//! transition system, with their truth semantics.
use vstd::prelude::*;

verus! {

/// A quantifier-free formula over two kinds of variables: `StateVar(k, i)`
/// ("state `i` is active at step `k`") and the integer event variable of
/// step `k`, which `EventIs(k, v)` compares with the literal `v`.
pub enum Formula {
    Lit(bool),
    StateVar(int, int),
    EventIs(int, int),
    Not(Box<Formula>),
    And(Seq<Formula>),
    Or(Seq<Formula>),
    Implies(Box<Formula>, Box<Formula>),
    Iff(Box<Formula>, Box<Formula>),
    /// Exactly one of the operands is true.
    ExactlyOne(Seq<Formula>),
}

/// An assignment of values to all variables.
pub struct Env {
    pub state: spec_fn(int, int) -> bool,
    pub event: spec_fn(int) -> int,
}

/// All operands are true.
pub open spec fn eval_all(fs: Seq<Formula>, env: Env) -> bool
    decreases fs,
{
    if fs.len() == 0 {
        true
    } else {
        eval_all(fs.drop_last(), env) && fs.last().eval(env)
    }
}

/// Some operand is true.
pub open spec fn eval_any(fs: Seq<Formula>, env: Env) -> bool
    decreases fs,
{
    if fs.len() == 0 {
        false
    } else {
        eval_any(fs.drop_last(), env) || fs.last().eval(env)
    }
}

/// Number of true operands.
pub open spec fn count_true(fs: Seq<Formula>, env: Env) -> nat
    decreases fs,
{
    if fs.len() == 0 {
        0
    } else {
        count_true(fs.drop_last(), env) + (if fs.last().eval(env) { 1nat } else { 0nat })
    }
}

impl Formula {
    /// Truth value of the formula under `env`.
    pub open spec fn eval(self, env: Env) -> bool
        decreases self,
    {
        match self {
            Formula::Lit(b) => b,
            Formula::StateVar(k, i) => (env.state)(k, i),
            Formula::EventIs(k, v) => (env.event)(k) == v,
            Formula::Not(a) => !a.eval(env),
            Formula::And(fs) => eval_all(fs, env),
            Formula::Or(fs) => eval_any(fs, env),
            Formula::Implies(a, b) => a.eval(env) ==> b.eval(env),
            Formula::Iff(a, b) => a.eval(env) == b.eval(env),
            Formula::ExactlyOne(fs) => count_true(fs, env) == 1,
        }
    }
}

/// A conjunction is true when every operand is.
pub proof fn lemma_eval_all(fs: Seq<Formula>, env: Env)
    ensures
        eval_all(fs, env) == forall|j: int| 0 <= j < fs.len() ==> #[trigger] fs[j].eval(env),
    decreases fs.len(),
{
    if fs.len() > 0 {
        let init = fs.drop_last();
        lemma_eval_all(init, env);
        let n = fs.len() - 1;
        assert(fs.last() == fs[n]);
        assert(eval_all(fs, env) == (eval_all(init, env) && fs[n].eval(env)));
        if forall|j: int| 0 <= j < fs.len() ==> #[trigger] fs[j].eval(env) {
            assert forall|j: int| 0 <= j < init.len() implies #[trigger] init[j].eval(env) by {
                assert(init[j] == fs[j]);
            }
            assert(fs[n].eval(env));
            assert(eval_all(fs, env));
        }
        if eval_all(fs, env) {
            assert forall|j: int| 0 <= j < fs.len() implies #[trigger] fs[j].eval(env) by {
                if j < n {
                    assert(init[j] == fs[j]);
                    assert(init[j].eval(env));
                }
            }
        }
    }
}

/// A disjunction is true when some operand is.
pub proof fn lemma_eval_any(fs: Seq<Formula>, env: Env)
    ensures
        eval_any(fs, env) == exists|j: int| 0 <= j < fs.len() && #[trigger] fs[j].eval(env),
    decreases fs.len(),
{
    if fs.len() > 0 {
        lemma_eval_any(fs.drop_last(), env);
        assert forall|j: int| 0 <= j < fs.len() - 1 implies #[trigger] fs.drop_last()[j] == fs[j] by {}
        if eval_any(fs.drop_last(), env) {
            let j = choose|j: int| 0 <= j < fs.drop_last().len() && #[trigger] fs.drop_last()[j].eval(env);
            assert(fs[j].eval(env));
        } else if fs.last().eval(env) {
            assert(fs[fs.len() - 1].eval(env));
        } else {
            assert forall|j: int| 0 <= j < fs.len() implies !#[trigger] fs[j].eval(env) by {
                if j < fs.len() - 1 {
                    assert(!fs.drop_last()[j].eval(env));
                }
            }
        }
    }
}

/// No operand is true exactly when the count of true operands is zero.
pub proof fn lemma_count_true_zero(fs: Seq<Formula>, env: Env)
    ensures
        (count_true(fs, env) == 0) == forall|l: int| 0 <= l < fs.len() ==> !#[trigger] fs[l].eval(env),
    decreases fs.len(),
{
    if fs.len() > 0 {
        let init = fs.drop_last();
        let n = fs.len() - 1;
        lemma_count_true_zero(init, env);
        assert(fs.last() == fs[n]);
        if count_true(fs, env) == 0 {
            assert forall|l: int| 0 <= l < fs.len() implies !#[trigger] fs[l].eval(env) by {
                if l < n {
                    assert(init[l] == fs[l]);
                    assert(!init[l].eval(env));
                }
            }
        }
        if forall|l: int| 0 <= l < fs.len() ==> !#[trigger] fs[l].eval(env) {
            assert forall|l: int| 0 <= l < init.len() implies !#[trigger] init[l].eval(env) by {
                assert(init[l] == fs[l]);
            }
            assert(!fs[n].eval(env));
        }
    }
}

/// One true operand with all others false gives a count of one.
proof fn lemma_count_true_one_from(fs: Seq<Formula>, env: Env, j: int)
    requires
        0 <= j < fs.len(),
        fs[j].eval(env),
        forall|l: int| 0 <= l < fs.len() && l != j ==> !#[trigger] fs[l].eval(env),
    ensures
        count_true(fs, env) == 1,
    decreases fs.len(),
{
    let init = fs.drop_last();
    let n = fs.len() - 1;
    assert(fs.last() == fs[n]);
    if j == n {
        assert forall|l: int| 0 <= l < init.len() implies !#[trigger] init[l].eval(env) by {
            assert(init[l] == fs[l]);
        }
        lemma_count_true_zero(init, env);
    } else {
        assert(!fs[n].eval(env));
        assert(init[j] == fs[j]);
        assert forall|l: int| 0 <= l < init.len() && l != j implies !#[trigger] init[l].eval(env) by {
            assert(init[l] == fs[l]);
        }
        lemma_count_true_one_from(init, env, j);
    }
}

/// A count of one gives one true operand with all others false.
proof fn lemma_count_true_one_to(fs: Seq<Formula>, env: Env) -> (j: int)
    requires
        count_true(fs, env) == 1,
    ensures
        0 <= j < fs.len(),
        fs[j].eval(env),
        forall|l: int| 0 <= l < fs.len() && l != j ==> !#[trigger] fs[l].eval(env),
    decreases fs.len(),
{
    let init = fs.drop_last();
    let n = fs.len() - 1;
    assert(fs.last() == fs[n]);
    if fs[n].eval(env) {
        lemma_count_true_zero(init, env);
        assert forall|l: int| 0 <= l < fs.len() && l != n implies !#[trigger] fs[l].eval(env) by {
            assert(init[l] == fs[l]);
        }
        n
    } else {
        let j = lemma_count_true_one_to(init, env);
        assert(init[j] == fs[j]);
        assert forall|l: int| 0 <= l < fs.len() && l != j implies !#[trigger] fs[l].eval(env) by {
            if l < n {
                assert(init[l] == fs[l]);
            }
        }
        j
    }
}

/// Operand `j` is the only true one.
pub open spec fn only_true(fs: Seq<Formula>, env: Env, j: int) -> bool {
    &&& 0 <= j < fs.len()
    &&& fs[j].eval(env)
    &&& forall|l: int| 0 <= l < fs.len() && l != j ==> !#[trigger] fs[l].eval(env)
}

/// Exactly one operand is true when one is and every other is false.
pub proof fn lemma_count_true_one(fs: Seq<Formula>, env: Env)
    ensures
        (count_true(fs, env) == 1) == exists|j: int| #[trigger] only_true(fs, env, j),
{
    if count_true(fs, env) == 1 {
        let j = lemma_count_true_one_to(fs, env);
        assert(only_true(fs, env, j));
    } else {
        assert forall|j: int| !#[trigger] only_true(fs, env, j) by {
            if only_true(fs, env, j) {
                lemma_count_true_one_from(fs, env, j);
            }
        }
    }
}

/// Every formula of `fs` is true under `env`.
pub open spec fn all_hold(fs: Seq<Formula>, env: Env) -> bool {
    forall|j: int| 0 <= j < fs.len() ==> #[trigger] fs[j].eval(env)
}

/// Some assignment makes every formula of `fs` true.
pub open spec fn satisfiable(fs: Seq<Formula>) -> bool {
    exists|env: Env| all_hold(fs, env)
}

} // verus!
