//! Reading a state chart (through the `scxml` crate) and lowering it to a
//! flat transition system.
use vstd::prelude::*;
use crate::system::{TransitionSystem, names_of, first_index, lemma_first_index, position_of};
use crate::tools::ToolError;
use crate::text::{decimal, decimal_text};
use scxml::{HistoryKind, StateKind};

verus! {

#[verifier::external_type_specification]
#[verifier::external_body]
pub struct ExScxmlError(scxml::ScxmlError);

#[verifier::external_type_specification]
#[verifier::external_body]
pub struct ExStatechart(scxml::Statechart);

/// The kind of a chart state, as the `scxml` crate classifies it.
#[derive(Debug, Clone, Copy, PartialEq, Eq)]
pub enum StateKindTag {
    Atomic,
    Compound,
    Parallel,
    Final,
    HistoryShallow,
    HistoryDeep,
}

/// One transition of a chart state: its event (none for eventless
/// transitions) and its target state ids (none for a self-transition).
#[derive(Debug)]
pub struct TransitionInfo {
    pub event: Option<String>,
    pub targets: Vec<String>,
}

/// One chart state with its outgoing transitions.
#[derive(Debug)]
pub struct StateInfo {
    pub id: String,
    pub kind: StateKindTag,
    pub transitions: Vec<TransitionInfo>,
}

/// Whether `scxml::parse_xml` accepts the document.
pub uninterp spec fn xml_parses(xml: Seq<char>) -> bool;

/// The initial state id of the chart `scxml::parse_xml` reads from the
/// document.
pub uninterp spec fn xml_initial(xml: Seq<char>) -> Seq<char>;

/// The states (document order, depth first) of the chart
/// `scxml::parse_xml` reads from the document.
pub uninterp spec fn xml_states(xml: Seq<char>) -> Seq<StateInfo>;

/// `scxml::parse_xml`: succeeds exactly on the documents `xml_parses`
/// names, and the chart it returns has the initial id and states that
/// `xml_initial` and `xml_states` name (the parser depends on its input
/// alone). The error is not described.
#[verifier::external_body]
pub(crate) fn parse_chart(xml: &str) -> (r: Result<scxml::Statechart, scxml::ScxmlError>)
    ensures
        r is Ok == xml_parses(xml@),
        r matches Ok(c) ==> chart_initial_id(c) == xml_initial(xml@) && chart_state_list(c) == xml_states(xml@),
{
    scxml::parse_xml(xml)
}

/// Some transition of a state called `from` targets `to`.
pub open spec fn targets_from(states: Seq<StateInfo>, from: Seq<char>, to: Seq<char>) -> bool {
    exists|i: int, t: int, m: int| 0 <= i < states.len() && states[i].id@ == from
        && 0 <= t < states[i].transitions.len() && 0 <= m < states[i].transitions@[t].targets.len()
        && #[trigger] states[i].transitions@[t].targets@[m]@ == to
}

/// `x` is reached from `initial` by at most `n` transitions.
pub open spec fn reached_within(states: Seq<StateInfo>, initial: Seq<char>, n: nat, x: Seq<char>) -> bool
    decreases n,
{
    if n == 0 {
        x == initial
    } else {
        ||| reached_within(states, initial, (n - 1) as nat, x)
        ||| exists|y: Seq<char>| #[trigger] reached_within(states, initial, (n - 1) as nat, y) && targets_from(states, y, x)
    }
}

/// The checks of `scxml::validate` whose outcome the depth limit cannot
/// change: state ids are distinct and non-empty, the initial state and
/// every transition target are states, final states have no transitions,
/// and in a chart of leaf states only every state is reachable from the
/// initial state.
pub open spec fn passes_chart_checks(initial: Seq<char>, states: Seq<StateInfo>) -> bool {
    &&& forall|i: int, j: int| 0 <= i < j < states.len() ==> #[trigger] states[i].id@ != #[trigger] states[j].id@
    &&& forall|i: int| 0 <= i < states.len() ==> (#[trigger] states[i].id@).len() > 0
    &&& exists|i: int| 0 <= i < states.len() && #[trigger] states[i].id@ == initial
    &&& forall|i: int, t: int, m: int| 0 <= i < states.len() && 0 <= t < states[i].transitions.len()
        && 0 <= m < states[i].transitions@[t].targets.len()
        ==> exists|k: int| 0 <= k < states.len() && states[k].id@ == #[trigger] states[i].transitions@[t].targets@[m]@
    &&& forall|i: int| 0 <= i < states.len() && #[trigger] states[i].kind == StateKindTag::Final
        ==> states[i].transitions.len() == 0
    &&& (forall|i: int| 0 <= i < states.len() ==> is_leaf_kind(#[trigger] states[i].kind))
        ==> forall|i: int| 0 <= i < states.len() ==> exists|n: nat| reached_within(states, initial, n, #[trigger] states[i].id@)
}

/// `scxml::validate`: structural, liveness and semantic checks. When it
/// accepts a chart, the chart passes the checks whose outcome does not
/// depend on the process-wide depth limit (`passes_chart_checks`); what
/// the other checks decide is not stated, as they read that limit.
#[verifier::external_body]
pub(crate) fn validate_chart_structure(chart: &scxml::Statechart) -> (r: Result<(), scxml::ScxmlError>)
    ensures
        r is Ok ==> passes_chart_checks(chart_initial_id(*chart), chart_state_list(*chart)),
{
    scxml::validate(chart)
}

/// Mermaid's escaping of an id: line breaks become spaces and
/// `{ } " | ; %` become underscores.
pub open spec fn mermaid_escape(s: Seq<char>) -> Seq<char> {
    s.map_values(|c: char| if c == '\n' || c == '\r' {
        ' '
    } else if c == '{' || c == '}' || c == '"' || c == '|' || c == ';' || c == '%' {
        '_'
    } else {
        c
    })
}

/// The first two lines of every Mermaid rendering: the diagram kind and the
/// entry arrow to the initial state.
pub open spec fn mermaid_header(initial: Seq<char>) -> Seq<char> {
    "stateDiagram-v2\n  [*] --> "@ + mermaid_escape(initial) + "\n"@
}

/// `scxml::export::mermaid::to_mermaid`: the text starts with the header
/// naming the initial state. The rest is not stated: the renderer reads
/// the process-wide depth limit.
#[verifier::external_body]
pub(crate) fn chart_to_mermaid(chart: &scxml::Statechart) -> (s: String)
    ensures
        mermaid_header(chart_initial_id(*chart)).is_prefix_of(s@),
{
    scxml::export::mermaid::to_mermaid(chart)
}

/// The initial state id that a chart declares (its `initial` field).
pub uninterp spec fn chart_initial_id(chart: scxml::Statechart) -> Seq<char>;

/// The states of a chart in document order (depth first), each with its
/// id, kind and transitions.
pub uninterp spec fn chart_state_list(chart: scxml::Statechart) -> Seq<StateInfo>;

/// The chart's `initial` field, converted to a `String`: the same chart
/// gives the same id.
#[verifier::external_body]
pub(crate) fn chart_initial(chart: &scxml::Statechart) -> (s: String)
    ensures
        s@ == chart_initial_id(*chart),
{
    chart.initial.to_string()
}

/// `Statechart::iter_all_states` (depth-first, document order), each state
/// converted field by field: the same chart gives the same list.
#[verifier::external_body]
pub(crate) fn chart_states(chart: &scxml::Statechart) -> (v: Vec<StateInfo>)
    ensures
        v@ == chart_state_list(*chart),
{
    chart.iter_all_states().map(|s| StateInfo {
        id: s.id.to_string(), kind: match s.kind {
            StateKind::Atomic => StateKindTag::Atomic,
            StateKind::Compound => StateKindTag::Compound,
            StateKind::Parallel => StateKindTag::Parallel,
            StateKind::Final => StateKindTag::Final,
            StateKind::History(HistoryKind::Shallow) => StateKindTag::HistoryShallow,
            StateKind::History(HistoryKind::Deep) => StateKindTag::HistoryDeep,
        },
        transitions: s.transitions.iter().map(|t| TransitionInfo {
            event: t.event.as_ref().map(|e| e.to_string()),
            targets: t.targets.iter().map(|c| c.to_string()).collect(),
        }).collect(),
    }).collect()
}

/// Leaf kinds: the only ones a flat chart may hold.
pub open spec fn is_leaf_kind(k: StateKindTag) -> bool {
    k == StateKindTag::Atomic || k == StateKindTag::Final
}

/// The `Debug` rendering of a state kind.
pub open spec fn kind_debug(k: StateKindTag) -> Seq<char> {
    match k {
        StateKindTag::Atomic => "Atomic"@,
        StateKindTag::Compound => "Compound"@,
        StateKindTag::Parallel => "Parallel"@,
        StateKindTag::Final => "Final"@,
        StateKindTag::HistoryShallow => "History(Shallow)"@,
        StateKindTag::HistoryDeep => "History(Deep)"@,
    }
}

/// Index of the first non-leaf state, if any.
pub open spec fn first_non_leaf(states: Seq<StateInfo>) -> Option<int>
    decreases states.len(),
{
    if states.len() == 0 {
        None
    } else {
        match first_non_leaf(states.drop_last()) {
            Some(i) => Some(i),
            None => if is_leaf_kind(states.last().kind) { None } else { Some(states.len() - 1) },
        }
    }
}

/// Index of the last occurrence of `x` in `names`, or -1 when absent.
pub open spec fn last_index(names: Seq<Seq<char>>, x: Seq<char>) -> int
    decreases names.len(),
{
    if names.len() == 0 {
        -1
    } else if names.last() == x {
        names.len() - 1
    } else {
        last_index(names.drop_last(), x)
    }
}

/// The ids of the states.
pub open spec fn ids_of(states: Seq<StateInfo>) -> Seq<Seq<char>> {
    states.map_values(|s: StateInfo| s.id@)
}

/// The event names of `trs` added to `acc` in order, skipping names
/// already present.
pub open spec fn add_events(acc: Seq<Seq<char>>, trs: Seq<TransitionInfo>) -> Seq<Seq<char>>
    decreases trs.len(),
{
    if trs.len() == 0 {
        acc
    } else {
        let before = add_events(acc, trs.drop_last());
        match trs.last().event {
            Some(e) => if first_index(before, e@) >= 0 { before } else { before.push(e@) },
            None => before,
        }
    }
}

/// The synthetic event of eventless transitions.
pub open spec fn epsilon() -> Seq<char> {
    "\u{3b5}"@
}

/// The event alphabet: the synthetic event first, then every distinct
/// event name in order of first appearance.
pub open spec fn collect_events(states: Seq<StateInfo>) -> Seq<Seq<char>>
    decreases states.len(),
{
    if states.len() == 0 {
        seq![epsilon()]
    } else {
        add_events(collect_events(states.drop_last()), states.last().transitions@)
    }
}

pub open spec fn kind_msg(id: Seq<char>, k: StateKindTag) -> Seq<char> {
    "state `"@ + id + "` has kind "@ + kind_debug(k) + "; v1 supports only flat charts (Atomic/Final)"@
}

pub open spec fn no_leaf_msg() -> Seq<char> {
    "chart has no leaf states"@
}

pub open spec fn initial_msg(initial: Seq<char>) -> Seq<char> {
    "initial state `"@ + initial + "` is not a leaf state"@
}

pub open spec fn multi_target_msg(id: Seq<char>, n: nat) -> Seq<char> {
    "transition from `"@ + id + "` has "@ + decimal(n) + " targets; v1 only supports single-target transitions"@
}

pub open spec fn unknown_target_msg(target: Seq<char>) -> Seq<char> {
    "transition target `"@ + target + "` is not a known leaf state"@
}

pub open spec fn too_large_msg() -> Seq<char> {
    "chart is too large to encode"@
}

/// The edge for one transition of state `s` (index `src`), or the error
/// the transition raises.
pub open spec fn edge_of(names: Seq<Seq<char>>, events: Seq<Seq<char>>, s: StateInfo, src: int, t: TransitionInfo)
    -> Result<(int, int, int), Seq<char>>
{
    let evt = match t.event {
        None => 0,
        Some(e) => first_index(events, e@),
    };
    if t.targets.len() > 1 {
        Err(multi_target_msg(s.id@, t.targets.len() as nat))
    } else {
        let tgt_id = if t.targets.len() == 0 { s.id@ } else { t.targets@[0]@ };
        let tgt = last_index(names, tgt_id);
        if tgt < 0 { Err(unknown_target_msg(tgt_id)) } else { Ok((src, evt, tgt)) }
    }
}

/// The edges of the transitions `trs` of state `s`, stopping at the first
/// error.
pub open spec fn state_edges(names: Seq<Seq<char>>, events: Seq<Seq<char>>, s: StateInfo, src: int,
    trs: Seq<TransitionInfo>) -> Result<Seq<(int, int, int)>, Seq<char>>
    decreases trs.len(),
{
    if trs.len() == 0 {
        Ok(Seq::empty())
    } else {
        match state_edges(names, events, s, src, trs.drop_last()) {
            Err(e) => Err(e),
            Ok(es) => match edge_of(names, events, s, src, trs.last()) {
                Err(e) => Err(e),
                Ok(edge) => Ok(es.push(edge)),
            },
        }
    }
}

/// The edges of every state in order (each source is the last state with
/// that id), stopping at the first error.
pub open spec fn all_edges(names: Seq<Seq<char>>, events: Seq<Seq<char>>, states: Seq<StateInfo>)
    -> Result<Seq<(int, int, int)>, Seq<char>>
    decreases states.len(),
{
    if states.len() == 0 {
        Ok(Seq::empty())
    } else {
        match all_edges(names, events, states.drop_last()) {
            Err(e) => Err(e),
            Ok(es) => {
                let s = states.last();
                let src = last_index(names, s.id@);
                if src < 0 {
                    Ok(es)
                } else {
                    match state_edges(names, events, s, src, s.transitions@) {
                        Err(e) => Err(e),
                        Ok(more) => Ok(es + more),
                    }
                }
            },
        }
    }
}

/// A chart lowered to a flat transition system, as plain values.
pub struct LoweredChart {
    pub states: Seq<Seq<char>>,
    pub initial: Seq<char>,
    pub events: Seq<Seq<char>>,
    pub edges: Seq<(int, int, int)>,
}

/// Lower a chart: reject non-leaf states, an empty chart, a non-leaf
/// initial state, multi-target transitions and unknown targets (in that
/// order), and collect states, events and edges.
pub open spec fn lower_chart(initial: Seq<char>, states: Seq<StateInfo>) -> Result<LoweredChart, Seq<char>> {
    match first_non_leaf(states) {
        Some(i) => Err(kind_msg(states[i].id@, states[i].kind)),
        None => if states.len() == 0 {
            Err(no_leaf_msg())
        } else if last_index(ids_of(states), initial) < 0 {
            Err(initial_msg(initial))
        } else {
            let names = ids_of(states);
            let events = collect_events(states);
            match all_edges(names, events, states) {
                Err(e) => Err(e),
                Ok(edges) => if names.len() < 0xffff_ffff && edges.len() <= 0xffff_ffff {
                    Ok(LoweredChart { states: names, initial, events, edges })
                } else {
                    Err(too_large_msg())
                },
            }
        },
    }
}

/// Edge triples as integers.
pub open spec fn edges_int(v: Seq<(usize, usize, usize)>) -> Seq<(int, int, int)> {
    v.map_values(|e: (usize, usize, usize)| (e.0 as int, e.1 as int, e.2 as int))
}

/// `ts` holds exactly the lowered chart.
pub open spec fn system_is(ts: TransitionSystem, lc: LoweredChart) -> bool {
    &&& ts.state_names() == lc.states
    &&& ts.initial@ == lc.initial
    &&& names_of(ts.events@) == lc.events
    &&& edges_int(ts.edges@) == lc.edges
}

/// The value inside an `Ok`, or the empty sequence.
pub open spec fn ok_edges(r: Result<Seq<(int, int, int)>, Seq<char>>) -> Seq<(int, int, int)> {
    match r {
        Ok(es) => es,
        Err(_) => Seq::empty(),
    }
}

/// `add_events` keeps every name of `acc` and adds every event of `trs`.
pub proof fn lemma_add_events_has(acc: Seq<Seq<char>>, trs: Seq<TransitionInfo>)
    ensures
        forall|x: Seq<char>| acc.contains(x) ==> #[trigger] add_events(acc, trs).contains(x),
        forall|j: int| 0 <= j < trs.len() ==> ((#[trigger] trs[j]).event matches Some(e) ==> add_events(acc, trs).contains(e@)),
        add_events(acc, trs).len() >= acc.len(),
    decreases trs.len(),
{
    if trs.len() > 0 {
        let init = trs.drop_last();
        lemma_add_events_has(acc, init);
        let before = add_events(acc, init);
        lemma_first_index(before, match trs.last().event { Some(e) => e@, None => Seq::empty() });
        let after = add_events(acc, trs);
        assert forall|x: Seq<char>| before.contains(x) implies #[trigger] after.contains(x) by {
            let k = choose|k: int| 0 <= k < before.len() && before[k] == x;
            assert(after[k] == x);
        }
        assert forall|j: int| 0 <= j < trs.len() implies ((#[trigger] trs[j]).event matches Some(e) ==> add_events(acc, trs).contains(e@)) by {
            if j < init.len() {
                assert(init[j] == trs[j]);
                if let Some(e) = trs[j].event {
                    assert(before.contains(e@));
                }
            } else {
                if let Some(e) = trs[j].event {
                    if first_index(before, e@) >= 0 {
                        assert(before[first_index(before, e@)] == e@);
                    } else {
                        assert(add_events(acc, trs)[before.len() as int] == e@);
                    }
                }
            }
        }
        assert forall|x: Seq<char>| acc.contains(x) implies #[trigger] add_events(acc, trs).contains(x) by {
            assert(before.contains(x));
            let k = choose|k: int| 0 <= k < before.len() && before[k] == x;
            assert(add_events(acc, trs)[k] == x);
        }
    }
}

/// The event alphabet holds the synthetic event and every event of every
/// transition.
pub proof fn lemma_collect_events_has(states: Seq<StateInfo>)
    ensures
        collect_events(states).len() > 0,
        forall|i: int, j: int| 0 <= i < states.len() && 0 <= j < states[i].transitions.len()
            ==> ((#[trigger] states[i].transitions@[j]).event matches Some(e) ==> collect_events(states).contains(e@)),
    decreases states.len(),
{
    if states.len() > 0 {
        let init = states.drop_last();
        lemma_collect_events_has(init);
        let before = collect_events(init);
        let trs = states.last().transitions@;
        lemma_add_events_has(before, trs);
        assert forall|i: int, j: int| 0 <= i < states.len() && 0 <= j < states[i].transitions.len()
            implies ((#[trigger] states[i].transitions@[j]).event matches Some(e) ==> collect_events(states).contains(e@)) by {
            if i < init.len() {
                assert(init[i] == states[i]);
                if let Some(e) = states[i].transitions@[j].event {
                    assert(before.contains(e@));
                }
            } else {
                assert(trs[j] == states[i].transitions@[j]);
            }
        }
    }
}

/// `x` occurs in `names` exactly when its first index is non-negative.
pub proof fn lemma_first_index_contains(names: Seq<Seq<char>>, x: Seq<char>)
    ensures
        (first_index(names, x) >= 0) == names.contains(x),
{
    lemma_first_index(names, x);
    if names.contains(x) {
        let k = choose|k: int| 0 <= k < names.len() && names[k] == x;
        assert(names[k] == x);
    }
}

/// `last_index` is the greatest index holding `x`, and -1 when absent.
pub proof fn lemma_last_index(names: Seq<Seq<char>>, x: Seq<char>)
    ensures
        -1 <= last_index(names, x) < names.len(),
        last_index(names, x) >= 0 ==> names[last_index(names, x)] == x,
        (last_index(names, x) >= 0) == names.contains(x),
    decreases names.len(),
{
    if names.len() > 0 && names.last() != x {
        let init = names.drop_last();
        lemma_last_index(init, x);
        if names.contains(x) {
            let k = choose|k: int| 0 <= k < names.len() && names[k] == x;
            assert(k < init.len());
            assert(init[k] == x);
        }
        if init.contains(x) {
            let k = choose|k: int| 0 <= k < init.len() && init[k] == x;
            assert(names[k] == x);
        }
    } else if names.len() > 0 {
        assert(names[names.len() - 1] == x);
    }
}

/// Position of the last occurrence of `x` in `v`.
pub fn last_position_of(v: &Vec<String>, x: &String) -> (r: Option<usize>)
    ensures
        r matches Some(i) ==> i as int == last_index(names_of(v@), x@),
        r is None ==> last_index(names_of(v@), x@) == -1,
{
    let mut found: Option<usize> = None;
    let mut i: usize = 0;
    while i < v.len()
        invariant
            i <= v.len(),
            match found {
                Some(j) => j as int == last_index(names_of(v@).take(i as int), x@),
                None => last_index(names_of(v@).take(i as int), x@) == -1,
            },
        decreases v.len() - i,
    {
        assert(names_of(v@).take(i + 1).drop_last() =~= names_of(v@).take(i as int));
        if v[i].eq(x) {
            found = Some(i);
        }
        i += 1;
    }
    assert(names_of(v@).take(v.len() as int) =~= names_of(v@));
    found
}

/// The `Debug` name of a state kind.
pub fn kind_debug_text(k: StateKindTag) -> (s: &'static str)
    ensures
        s@ == kind_debug(k),
{
    match k {
        StateKindTag::Atomic => "Atomic",
        StateKindTag::Compound => "Compound",
        StateKindTag::Parallel => "Parallel",
        StateKindTag::Final => "Final",
        StateKindTag::HistoryShallow => "History(Shallow)",
        StateKindTag::HistoryDeep => "History(Deep)",
    }
}

/// An error found in a prefix of the states is the error of the whole.
proof fn lemma_first_non_leaf_prefix(states: Seq<StateInfo>, m: int)
    requires
        0 <= m <= states.len(),
    ensures
        first_non_leaf(states.take(m)) is Some ==> first_non_leaf(states) == first_non_leaf(states.take(m)),
    decreases states.len() - m,
{
    if m == states.len() {
        assert(states.take(m) =~= states);
    } else {
        lemma_first_non_leaf_prefix(states.drop_last(), m);
        assert(states.drop_last().take(m) =~= states.take(m));
    }
}

/// An error raised by a prefix of the transitions is the error of the whole.
proof fn lemma_state_edges_prefix(names: Seq<Seq<char>>, events: Seq<Seq<char>>, s: StateInfo, src: int,
    trs: Seq<TransitionInfo>, m: int)
    requires
        0 <= m <= trs.len(),
    ensures
        state_edges(names, events, s, src, trs.take(m)) is Err ==> state_edges(names, events, s, src, trs)
            == state_edges(names, events, s, src, trs.take(m)),
    decreases trs.len() - m,
{
    if m == trs.len() {
        assert(trs.take(m) =~= trs);
    } else {
        lemma_state_edges_prefix(names, events, s, src, trs.drop_last(), m);
        assert(trs.drop_last().take(m) =~= trs.take(m));
    }
}

/// An error raised by a prefix of the states is the error of the whole.
proof fn lemma_all_edges_prefix(names: Seq<Seq<char>>, events: Seq<Seq<char>>, states: Seq<StateInfo>, m: int)
    requires
        0 <= m <= states.len(),
    ensures
        all_edges(names, events, states.take(m)) is Err ==> all_edges(names, events, states)
            == all_edges(names, events, states.take(m)),
    decreases states.len() - m,
{
    if m == states.len() {
        assert(states.take(m) =~= states);
    } else {
        lemma_all_edges_prefix(names, events, states.drop_last(), m);
        assert(states.drop_last().take(m) =~= states.take(m));
    }
}

impl TransitionSystem {
    /// Lower a chart read through the `scxml` crate.
    pub fn from_chart(chart: &scxml::Statechart) -> (r: Result<TransitionSystem, ToolError>)
        ensures
            match lower_chart(chart_initial_id(*chart), chart_state_list(*chart)) {
                Ok(lc) => r matches Ok(ts) && ts.wf() && system_is(ts, lc),
                Err(m) => r matches Err(ToolError::Unsupported(e)) && e@ == m,
            },
            r matches Ok(ts) ==> ts.initial@ == chart_initial_id(*chart),
    {
        let initial = chart_initial(chart);
        let states = chart_states(chart);
        TransitionSystem::from_parts(&initial, &states)
    }

    /// Lower a flat chart given its initial state id and its states in
    /// document order (see `lower_chart` for the result and the errors).
    pub fn from_parts(initial: &String, states: &Vec<StateInfo>) -> (r: Result<TransitionSystem, ToolError>)
        ensures
            match r {
                Ok(ts) => ts.wf() && (lower_chart(initial@, states@) matches Ok(lc) && system_is(ts, lc)),
                Err(e) => e matches ToolError::Unsupported(m) && lower_chart(initial@, states@) == Err::<LoweredChart, Seq<char>>(m@),
            },
            r matches Ok(ts) ==> ts.initial@ == initial@,
    {
        let ghost sts = states@;
        // Leaf states only.
        let mut names: Vec<String> = Vec::new();
        let mut i: usize = 0;
        while i < states.len()
            invariant
                i <= states.len(),
                sts == states@,
                first_non_leaf(sts.take(i as int)) is None,
                names_of(names@) == ids_of(sts.take(i as int)),
            decreases states.len() - i,
        {
            assert(sts.take(i + 1).drop_last() =~= sts.take(i as int));
            let s = &states[i];
            match s.kind {
                StateKindTag::Atomic | StateKindTag::Final => {
                    let ghost before = names@;
                    names.push(s.id.clone());
                    assert(ids_of(sts.take(i + 1)) =~= ids_of(sts.take(i as int)).push(s.id@));
                    assert(names_of(names@) =~= names_of(before).push(s.id@));
                },
                _ => {
                    let mut m = String::from_str("state `");
                    m.append(s.id.as_str());
                    m.append("` has kind ");
                    m.append(kind_debug_text(s.kind));
                    m.append("; v1 supports only flat charts (Atomic/Final)");
                    proof {
                        assert(first_non_leaf(sts.take(i + 1)) == Some(i as int));
                        lemma_first_non_leaf_prefix(sts, i + 1);
                    }
                    return Err(ToolError::Unsupported(m));
                },
            }
            i += 1;
        }
        assert(sts.take(states.len() as int) =~= sts);
        let ghost nm = ids_of(sts);
        if names.len() == 0 {
            return Err(ToolError::Unsupported(String::from_str("chart has no leaf states")));
        }
        proof {
            lemma_last_index(nm, initial@);
        }
        if last_position_of(&names, initial).is_none() {
            let mut m = String::from_str("initial state `");
            m.append(initial.as_str());
            m.append("` is not a leaf state");
            return Err(ToolError::Unsupported(m));
        }
        // Distinct event names; index 0 is the synthetic eventless event.
        let mut events: Vec<String> = Vec::new();
        let eps = String::from_str("\u{3b5}");
        assert(eps@ == epsilon());
        events.push(eps);
        assert(sts.take(0).len() == 0);
        assert(collect_events(sts.take(0)) == seq![epsilon()]);
        assert(names_of(events@) =~= collect_events(sts.take(0)));
        let mut i: usize = 0;
        while i < states.len()
            invariant
                i <= states.len(),
                sts == states@,
                names_of(events@) == collect_events(sts.take(i as int)),
            decreases states.len() - i,
        {
            let trs = &states[i].transitions;
            let ghost acc = collect_events(sts.take(i as int));
            assert(sts.take(i + 1).drop_last() =~= sts.take(i as int));
            assert(add_events(acc, trs@.take(0)) == acc);
            let mut j: usize = 0;
            while j < trs.len()
                invariant
                    j <= trs.len(),
                    names_of(events@) == add_events(acc, trs@.take(j as int)),
                decreases trs.len() - j,
            {
                assert(trs@.take(j + 1).drop_last() =~= trs@.take(j as int));
                if let Some(e) = &trs[j].event {
                    if position_of(&events, e).is_none() {
                        events.push(e.clone());
                        assert(names_of(events@) =~= add_events(acc, trs@.take(j + 1)));
                    }
                }
                j += 1;
            }
            assert(trs@.take(trs.len() as int) =~= trs@);
            i += 1;
        }
        assert(sts.take(states.len() as int) =~= sts);
        let ghost ev = collect_events(sts);
        proof {
            lemma_collect_events_has(sts);
        }
        // One edge per transition.
        let mut edges: Vec<(usize, usize, usize)> = Vec::new();
        assert(edges_int(edges@) =~= Seq::<(int, int, int)>::empty());
        let mut i: usize = 0;
        while i < states.len()
            invariant
                i <= states.len(),
                sts == states@,
                nm == ids_of(sts),
                last_index(nm, initial@) >= 0,
                first_non_leaf(sts) is None,
                sts.len() > 0,
                names_of(names@) == nm,
                names_of(events@) == ev,
                ev == collect_events(sts),
                ev.len() > 0,
                forall|a: int, b: int| 0 <= a < sts.len() && 0 <= b < sts[a].transitions.len()
                    ==> ((#[trigger] sts[a].transitions@[b]).event matches Some(e) ==> ev.contains(e@)),
                all_edges(nm, ev, sts.take(i as int)) == Ok::<Seq<(int, int, int)>, Seq<char>>(edges_int(edges@)),
                forall|k: int| 0 <= k < edges.len() ==> (#[trigger] edges@[k]).0 < names.len()
                    && edges@[k].1 < events.len() && edges@[k].2 < names.len(),
            decreases states.len() - i,
        {
            let s = &states[i];
            assert(sts.take(i + 1).drop_last() =~= sts.take(i as int));
            assert(sts.take(i + 1).last() == sts[i as int]);
            match last_position_of(&names, &s.id) {
                None => {},
                Some(src) => {
                    proof { lemma_last_index(nm, s.id@); }
                    let trs = &s.transitions;
                    let ghost base = edges_int(edges@);
                    assert(state_edges(nm, ev, *s, src as int, trs@.take(0)) == Ok::<Seq<(int, int, int)>, Seq<char>>(Seq::empty()));
                    assert(base + Seq::<(int, int, int)>::empty() =~= base);
                    let mut j: usize = 0;
                    while j < trs.len()
                        invariant
                            j <= trs.len(),
                            src < names.len(),
                            src as int == last_index(nm, s.id@),
                            last_index(nm, initial@) >= 0,
                            first_non_leaf(sts) is None,
                            sts.len() > 0,
                            nm == ids_of(sts),
                            sts == states@,
                            ev == collect_events(sts),
                            all_edges(nm, ev, sts.take(i as int)) == Ok::<Seq<(int, int, int)>, Seq<char>>(base),
                            *s == sts[i as int],
                            trs == &s.transitions,
                            0 <= i < sts.len(),
                            names_of(names@) == nm,
                            names_of(events@) == ev,
                            ev.len() > 0,
                            forall|a: int, b: int| 0 <= a < sts.len() && 0 <= b < sts[a].transitions.len()
                                ==> ((#[trigger] sts[a].transitions@[b]).event matches Some(e) ==> ev.contains(e@)),
                            state_edges(nm, ev, *s, src as int, trs@.take(j as int)) is Ok,
                            edges_int(edges@) == base + ok_edges(state_edges(nm, ev, *s, src as int, trs@.take(j as int))),
                            forall|k: int| 0 <= k < edges.len() ==> (#[trigger] edges@[k]).0 < names.len()
                                && edges@[k].1 < events.len() && edges@[k].2 < names.len(),
                        decreases trs.len() - j,
                    {
                        let t = &trs[j];
                        assert(trs@.take(j + 1).drop_last() =~= trs@.take(j as int));
                        assert(trs@.take(j + 1).last() == trs@[j as int]);
                        let evt_idx: usize = match &t.event {
                            None => 0,
                            Some(e) => {
                                proof {
                                    assert(sts[i as int].transitions@[j as int] == *t);
                                    lemma_first_index_contains(ev, e@);
                                    lemma_first_index(ev, e@);
                                }
                                match position_of(&events, e) {
                                    Some(p) => p,
                                    None => 0,
                                }
                            },
                        };
                        if t.targets.len() > 1 {
                            let mut m = String::from_str("transition from `");
                            m.append(s.id.as_str());
                            m.append("` has ");
                            let digits = decimal_text(t.targets.len());
                            m.append(digits.as_str());
                            m.append(" targets; v1 only supports single-target transitions");
                            proof {
                                assert(m@ == multi_target_msg(s.id@, t.targets.len() as nat));
                                assert(edge_of(nm, ev, *s, src as int, *t) == Err::<(int, int, int), Seq<char>>(m@));
                                assert(state_edges(nm, ev, *s, src as int, trs@.take(j + 1)) == Err::<Seq<(int, int, int)>, Seq<char>>(m@));
                                lemma_state_edges_prefix(nm, ev, *s, src as int, trs@, j + 1);
                                assert(trs@.take(trs.len() as int) =~= trs@);
                                assert(state_edges(nm, ev, *s, src as int, trs@) == Err::<Seq<(int, int, int)>, Seq<char>>(m@));
                                assert(sts.take(i + 1).drop_last() =~= sts.take(i as int));
                                assert(sts.take(i + 1).last() == sts[i as int]);
                                assert(all_edges(nm, ev, sts.take(i + 1)) == Err::<Seq<(int, int, int)>, Seq<char>>(m@));
                                lemma_all_edges_prefix(nm, ev, sts, i + 1);
                                assert(all_edges(nm, ev, sts) == Err::<Seq<(int, int, int)>, Seq<char>>(m@));
                            }
                            return Err(ToolError::Unsupported(m));
                        }
                        let tgt_id: &String = if t.targets.len() == 0 { &s.id } else { &t.targets[0] };
                        match last_position_of(&names, tgt_id) {
                            None => {
                                let mut m = String::from_str("transition target `");
                                m.append(tgt_id.as_str());
                                m.append("` is not a known leaf state");
                                proof {
                                    assert(m@ == unknown_target_msg(tgt_id@));
                                    assert(edge_of(nm, ev, *s, src as int, *t) == Err::<(int, int, int), Seq<char>>(m@));
                                    assert(state_edges(nm, ev, *s, src as int, trs@.take(j + 1)) == Err::<Seq<(int, int, int)>, Seq<char>>(m@));
                                    lemma_state_edges_prefix(nm, ev, *s, src as int, trs@, j + 1);
                                    assert(trs@.take(trs.len() as int) =~= trs@);
                                    assert(state_edges(nm, ev, *s, src as int, trs@) == Err::<Seq<(int, int, int)>, Seq<char>>(m@));
                                    assert(sts.take(i + 1).drop_last() =~= sts.take(i as int));
                                assert(sts.take(i + 1).last() == sts[i as int]);
                                assert(all_edges(nm, ev, sts.take(i + 1)) == Err::<Seq<(int, int, int)>, Seq<char>>(m@));
                                    lemma_all_edges_prefix(nm, ev, sts, i + 1);
                                assert(all_edges(nm, ev, sts) == Err::<Seq<(int, int, int)>, Seq<char>>(m@));
                                }
                                return Err(ToolError::Unsupported(m));
                            },
                            Some(tgt) => {
                                proof { lemma_last_index(nm, tgt_id@); }
                                let ghost before = edges@;
                                edges.push((src, evt_idx, tgt));
                                assert(edges_int(edges@) =~= edges_int(before).push((src as int, evt_idx as int, tgt as int)));
                            },
                        }
                        j += 1;
                    }
                    assert(trs@.take(trs.len() as int) =~= trs@);
                },
            }
            i += 1;
        }
        assert(sts.take(states.len() as int) =~= sts);
        if names.len() >= 0xffff_ffff || edges.len() > 0xffff_ffff {
            return Err(ToolError::Unsupported(String::from_str("chart is too large to encode")));
        }
        proof {
            lemma_last_index(nm, initial@);
            lemma_first_index_contains(nm, initial@);
        }
        Ok(TransitionSystem { states: names, initial: initial.clone(), events, edges })
    }
}

} // verus!
