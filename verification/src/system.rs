//! The flat transition system that a state chart is lowered to, its runs,
//! and the meaning of a property at a state.
use vstd::prelude::*;
use crate::property::PropV;

verus! {

/// The character sequences of a list of strings.
pub open spec fn names_of(v: Seq<String>) -> Seq<Seq<char>> {
    v.map_values(|s: String| s@)
}

/// Index of the first occurrence of `x` in `names`, or -1 when absent.
pub open spec fn first_index(names: Seq<Seq<char>>, x: Seq<char>) -> int
    decreases names.len(),
{
    if names.len() == 0 {
        -1
    } else if names[0] == x {
        0
    } else {
        let r = first_index(names.drop_first(), x);
        if r < 0 { -1 } else { r + 1 }
    }
}

/// `first_index` is the least index holding `x`, and -1 exactly when no
/// index does.
pub proof fn lemma_first_index(names: Seq<Seq<char>>, x: Seq<char>)
    ensures
        -1 <= first_index(names, x) < names.len(),
        first_index(names, x) == -1 <==> forall|j: int| 0 <= j < names.len() ==> names[j] != x,
        first_index(names, x) >= 0 ==> names[first_index(names, x)] == x,
        forall|j: int| 0 <= j < first_index(names, x) ==> names[j] != x,
    decreases names.len(),
{
    if names.len() > 0 && names[0] != x {
        lemma_first_index(names.drop_first(), x);
        assert forall|j: int| 1 <= j < names.len() implies names[j] == names.drop_first()[j - 1] by {}
        if first_index(names, x) == -1 {
            assert forall|j: int| 0 <= j < names.len() implies names[j] != x by {
                if j > 0 {
                    assert(names[j] == names.drop_first()[j - 1]);
                }
            }
        }
    }
}

/// Position of `x` in `v`, searching from the front.
pub fn position_of(v: &Vec<String>, x: &String) -> (r: Option<usize>)
    ensures
        r matches Some(i) ==> i as int == first_index(names_of(v@), x@),
        r is None ==> first_index(names_of(v@), x@) == -1,
{
    proof { lemma_first_index(names_of(v@), x@); }
    let mut i: usize = 0;
    while i < v.len()
        invariant
            i <= v.len(),
            forall|j: int| 0 <= j < i ==> names_of(v@)[j] != x@,
            -1 <= first_index(names_of(v@), x@) < v.len(),
            first_index(names_of(v@), x@) == -1 <==> forall|j: int| 0 <= j < v.len() ==> names_of(v@)[j] != x@,
            first_index(names_of(v@), x@) >= 0 ==> names_of(v@)[first_index(names_of(v@), x@)] == x@,
            forall|j: int| 0 <= j < first_index(names_of(v@), x@) ==> names_of(v@)[j] != x@,
        decreases v.len() - i,
    {
        if v[i].eq(x) {
            assert(names_of(v@)[i as int] == x@);
            return Some(i);
        }
        i += 1;
    }
    None
}

/// A flattened Kripke structure: leaf states, the initial state, the event
/// alphabet (index 0 is the synthetic event of eventless transitions), and
/// `(source, event, target)` index triples.
#[derive(Debug)]
pub struct TransitionSystem {
    pub states: Vec<String>,
    pub initial: String,
    pub events: Vec<String>,
    pub edges: Vec<(usize, usize, usize)>,
}

impl TransitionSystem {
    pub open spec fn state_names(&self) -> Seq<Seq<char>> {
        names_of(self.states@)
    }

    /// Index of the initial state (its first occurrence among the states).
    pub open spec fn initial_index(&self) -> int {
        first_index(self.state_names(), self.initial@)
    }

    /// Index a property's `in(name)` atom refers to (first occurrence), or -1.
    pub open spec fn index_of_name(&self, name: Seq<char>) -> int {
        first_index(self.state_names(), name)
    }

    /// Well-formedness: states exist, the initial state is one of them, edge
    /// endpoints and labels are in range, and the sizes fit the solver.
    pub open spec fn wf(&self) -> bool {
        &&& 0 < self.states.len() < 0xffff_ffff
        &&& 0 <= self.initial_index()
        &&& self.edges.len() <= 0xffff_ffff
        &&& forall|j: int| 0 <= j < self.edges.len() ==> {
            &&& (#[trigger] self.edges@[j]).0 < self.states.len()
            &&& self.edges@[j].1 < self.events.len()
            &&& self.edges@[j].2 < self.states.len()
        }
    }

    /// One transition from state `s` to state `t` labelled with event `e`.
    pub open spec fn is_step(&self, s: int, e: int, t: int) -> bool {
        exists|j: int| 0 <= j < self.edges.len() && #[trigger] self.edges@[j] == (s as usize, e as usize, t as usize)
            && 0 <= s && 0 <= e && 0 <= t
    }

    /// `path` is a sequence of states joined by transitions labelled `evts`.
    pub open spec fn is_run(&self, path: Seq<int>, evts: Seq<int>) -> bool {
        &&& path.len() == evts.len() + 1
        &&& forall|k: int| 0 <= k < path.len() ==> 0 <= #[trigger] path[k] < self.states.len()
        &&& forall|k: int| 0 <= k < evts.len() ==> 0 <= #[trigger] evts[k] < self.events.len()
        &&& forall|k: int| 0 <= k < evts.len() ==> self.is_step(path[k], #[trigger] evts[k], path[k + 1])
    }

    /// A run that starts in the initial state.
    pub open spec fn is_initial_run(&self, path: Seq<int>, evts: Seq<int>) -> bool {
        self.is_run(path, evts) && path[0] == self.initial_index()
    }

    /// `p` is true when state `s` is the active state.
    pub open spec fn holds(&self, p: PropV, s: int) -> bool
        decreases p,
    {
        match p {
            PropV::True => true,
            PropV::False => false,
            PropV::In(name) => self.index_of_name(name) == s,
            PropV::Not(a) => !self.holds(*a, s),
            PropV::And(a, b) => self.holds(*a, s) && self.holds(*b, s),
            PropV::Or(a, b) => self.holds(*a, s) || self.holds(*b, s),
            PropV::Implies(a, b) => self.holds(*a, s) ==> self.holds(*b, s),
            PropV::Iff(a, b) => self.holds(*a, s) == self.holds(*b, s),
        }
    }

    /// Index of the initial state.
    pub fn initial_idx(&self) -> (r: usize)
        requires
            0 <= self.initial_index(),
        ensures
            r as int == self.initial_index(),
    {
        match position_of(&self.states, &self.initial) {
            Some(i) => i,
            None => 0,
        }
    }
}

} // verus!
