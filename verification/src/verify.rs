//! Verifying the invariants a chart declares: one verdict per pragma.
use vstd::prelude::*;
use vstd::string::StringSliceAdditionalSpecFns;
use vstd::utf8::encode_utf8;
use crate::chart::{StateInfo, parse_chart, xml_parses, xml_initial, xml_states, chart_initial_id, chart_state_list, lower_chart, system_is};
use crate::engine::{bmc, k_induction, bmc_outcome, kind_outcome, KIND_MAX_K};
use crate::pragma::{extract_pragmas, pragmas, pair_views};
use crate::property::{parse_property, spec_parse_property, PropV};
use crate::system::TransitionSystem;
use crate::tools::{ToolError, VerificationTool};
use crate::verdict::{Outcome, Verdict};

verus! {

/// Bounded-model-checking depth.
pub const BMC_BOUND: usize = 12;

/// Property name of the advisory verdict.
pub open spec fn none_label() -> Seq<char> {
    "<none>"@
}

/// Reason of the advisory verdict given when a document declares no
/// invariant.
pub open spec fn advisory_reason() -> Seq<char> {
    "no `<!-- @invariant id=\"...\" expr=\"...\" -->` pragmas found in document"@
}

/// Error for an invariant whose expression does not parse.
pub open spec fn property_error_msg(id: Seq<char>, e: Seq<char>, src: Seq<char>) -> Seq<char> {
    "invariant `"@ + id + "`: "@ + e + " (in `"@ + src + "`)"@
}

/// The properties of the pragmas `(id, expr)` in order, or the error for
/// the first expression that does not parse.
pub open spec fn parsed_pragmas(ps: Seq<(Seq<char>, Seq<char>)>) -> Result<Seq<PropV>, Seq<char>>
    decreases ps.len(),
{
    if ps.len() == 0 {
        Ok(Seq::empty())
    } else {
        match parsed_pragmas(ps.drop_last()) {
            Err(m) => Err(m),
            Ok(done) => match spec_parse_property(encode_utf8(ps.last().1)) {
                Err(e) => Err(property_error_msg(ps.last().0, e, ps.last().1)),
                Ok(p) => Ok(done.push(p)),
            },
        }
    }
}

/// What the chosen backend may answer for `p`.
pub open spec fn outcome_for(ts: TransitionSystem, p: PropV, tool: VerificationTool, o: Outcome) -> bool {
    match tool {
        VerificationTool::Smt => bmc_outcome(ts, p, BMC_BOUND as int, o),
        VerificationTool::KInduction => kind_outcome(ts, p, KIND_MAX_K as int, o),
    }
}

/// The single verdict given for a document without invariants.
pub open spec fn is_advisory(vs: Seq<Verdict>, tool: VerificationTool) -> bool {
    &&& vs.len() == 1
    &&& vs[0].property@ == none_label()
    &&& vs[0].method == tool
    &&& vs[0].outcome matches Outcome::Unknown { reason } && reason@ == advisory_reason()
}

/// One verdict per pragma, in order, named by the pragma's id.
pub open spec fn verdicts_for(vs: Seq<Verdict>, ps: Seq<(Seq<char>, Seq<char>)>, props: Seq<PropV>,
    ts: TransitionSystem, tool: VerificationTool) -> bool
{
    &&& vs.len() == ps.len()
    &&& props.len() == ps.len()
    &&& forall|i: int| 0 <= i < vs.len() ==> {
        &&& (#[trigger] vs[i]).property@ == ps[i].0
        &&& vs[i].method == tool
        &&& outcome_for(ts, props[i], tool, vs[i].outcome)
    }
}

/// The result of verifying the pragmas `ps` against the system `ts`.
pub open spec fn system_verdicts(ps: Seq<(Seq<char>, Seq<char>)>, ts: TransitionSystem, tool: VerificationTool,
    r: Result<Vec<Verdict>, ToolError>) -> bool
{
    if ps.len() == 0 {
        r matches Ok(vs) && is_advisory(vs@, tool)
    } else {
        match parsed_pragmas(ps) {
            Err(m) => r matches Err(ToolError::PropertyParse(e)) && e@ == m,
            Ok(props) => r matches Ok(vs) && verdicts_for(vs@, ps, props, ts, tool),
        }
    }
}

/// The result of verifying the pragmas `ps` against a chart with the given
/// initial id and states: the lowering error, or the verdicts for the
/// system the chart lowers to.
pub open spec fn chart_verdicts(ps: Seq<(Seq<char>, Seq<char>)>, initial: Seq<char>, states: Seq<StateInfo>,
    tool: VerificationTool, r: Result<Vec<Verdict>, ToolError>) -> bool
{
    match lower_chart(initial, states) {
        Err(m) => r matches Err(ToolError::Unsupported(e)) && e@ == m,
        Ok(lc) => exists|ts: TransitionSystem| #[trigger] system_is(ts, lc) && ts.wf()
            && system_verdicts(ps, ts, tool, r),
    }
}

/// A parse failure among the first `k` pragmas is the first failure of all.
proof fn lemma_parsed_prefix(ps: Seq<(Seq<char>, Seq<char>)>, k: int)
    requires
        0 <= k <= ps.len(),
    ensures
        parsed_pragmas(ps.take(k)) is Err ==> parsed_pragmas(ps) == parsed_pragmas(ps.take(k)),
    decreases ps.len() - k,
{
    if k == ps.len() {
        assert(ps.take(k) =~= ps);
    } else {
        lemma_parsed_prefix(ps.drop_last(), k);
        assert(ps.drop_last().take(k) =~= ps.take(k));
    }
}

/// Verify every pragma `(id, expr)` against the system: parse each
/// expression (failing on the first that does not parse) and run the
/// chosen backend on it. Without pragmas, a single advisory verdict.
pub fn verify_system(pragmas: &Vec<(String, String)>, ts: &TransitionSystem, tool: VerificationTool)
    -> (r: Result<Vec<Verdict>, ToolError>)
    requires
        ts.wf(),
    ensures
        system_verdicts(pair_views(pragmas@), *ts, tool, r),
{
    if pragmas.len() == 0 {
        let mut v: Vec<Verdict> = Vec::new();
        v.push(Verdict {
            property: String::from_str("<none>"),
            method: tool,
            outcome: Outcome::Unknown {
                reason: String::from_str(
                    "no `<!-- @invariant id=\"...\" expr=\"...\" -->` pragmas found in document",
                ),
            },
        });
        return Ok(v);
    }
    let ghost ps = pair_views(pragmas@);
    let mut verdicts: Vec<Verdict> = Vec::new();
    let mut i: usize = 0;
    assert(ps.take(0) =~= Seq::<(Seq<char>, Seq<char>)>::empty());
    while i < pragmas.len()
        invariant
            i <= pragmas.len(),
            ts.wf(),
            ps == pair_views(pragmas@),
            parsed_pragmas(ps.take(i as int)) matches Ok(props)
                && verdicts_for(verdicts@, ps.take(i as int), props, *ts, tool),
        decreases pragmas.len() - i,
    {
        let ghost before = verdicts@;
        let ghost props = parsed_pragmas(ps.take(i as int))->Ok_0;
        assert(ps.take(i + 1).drop_last() =~= ps.take(i as int));
        assert(ps.take(i + 1).last() == ps[i as int]);
        let id = &pragmas[i].0;
        let src = &pragmas[i].1;
        let src_str = src.as_str();
        assert(src_str.spec_bytes() == encode_utf8(ps[i as int].1));
        let prop = match parse_property(src_str) {
            Err(e) => {
                let mut m = String::from_str("invariant `");
                m.append(id.as_str());
                m.append("`: ");
                m.append(e.as_str());
                m.append(" (in `");
                m.append(src.as_str());
                m.append("`)");
                proof {
                    assert(m@ == property_error_msg(ps[i as int].0, e@, ps[i as int].1));
                    lemma_parsed_prefix(ps, i + 1);
                }
                return Err(ToolError::PropertyParse(m));
            },
            Ok(p) => p,
        };
        let outcome = match tool {
            VerificationTool::Smt => bmc(ts, &prop, BMC_BOUND),
            VerificationTool::KInduction => k_induction(ts, &prop, KIND_MAX_K),
        };
        verdicts.push(Verdict { property: id.clone(), method: tool, outcome });
        proof {
            let props2 = props.push(prop.value());
            assert(parsed_pragmas(ps.take(i + 1)) == Ok::<Seq<PropV>, Seq<char>>(props2));
            assert forall|j: int| 0 <= j < verdicts@.len() implies {
                &&& (#[trigger] verdicts@[j]).property@ == ps.take(i + 1)[j].0
                &&& verdicts@[j].method == tool
                &&& outcome_for(*ts, props2[j], tool, verdicts@[j].outcome)
            } by {
                if j < i {
                    assert(verdicts@[j] == before[j]);
                }
            }
        }
        i += 1;
    }
    assert(ps.take(pragmas.len() as int) =~= ps);
    Ok(verdicts)
}

/// Verify the pragmas against a parsed chart: lower it to a transition
/// system, then verify each pragma.
pub fn verify_chart(pragmas: &Vec<(String, String)>, chart: &scxml::Statechart, tool: VerificationTool)
    -> (r: Result<Vec<Verdict>, ToolError>)
    ensures
        chart_verdicts(pair_views(pragmas@), chart_initial_id(*chart), chart_state_list(*chart), tool, r),
{
    let ts = match TransitionSystem::from_chart(chart) {
        Err(e) => return Err(e),
        Ok(ts) => ts,
    };
    let r = verify_system(pragmas, &ts, tool);
    proof {
        let lc = lower_chart(chart_initial_id(*chart), chart_state_list(*chart))->Ok_0;
        assert(system_is(ts, lc));
    }
    r
}

/// Verify the invariants a chart document declares with the chosen tool:
/// one verdict per `<!-- @invariant id="..." expr="..." -->` pragma, in
/// document order.
pub fn verify(xml: &str, tool: VerificationTool) -> (r: Result<Vec<Verdict>, ToolError>)
    ensures
        r matches Err(ToolError::Parse(_)) <==> !xml_parses(xml@),
        xml_parses(xml@) ==> chart_verdicts(pragmas(xml@), xml_initial(xml@), xml_states(xml@), tool, r),
{
    let ps = extract_pragmas(xml);
    let chart = match parse_chart(xml) {
        Err(e) => return Err(ToolError::Parse(e)),
        Ok(c) => c,
    };
    verify_chart(&ps, &chart, tool)
}

} // verus!
