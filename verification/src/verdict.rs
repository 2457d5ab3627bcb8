//! Per-invariant results and their text rendering.
use vstd::prelude::*;
use crate::tools::VerificationTool;
use crate::text::{decimal, decimal_text};

verus! {

/// One slice of a counterexample trace.
#[derive(Debug)]
pub struct Step {
    /// The leaf state that is active at this step.
    pub state: String,
    /// The event that fires out of this step (None for the final step).
    pub event: Option<String>,
}

/// What a backend concluded about one invariant.
#[derive(Debug)]
pub enum Outcome {
    /// k-induction proved the property inductive at depth `k`.
    Holds { k: usize },
    /// BMC unrolled `bound` steps without finding a counterexample.
    BoundedSafe { bound: usize },
    /// A trace that violates the property.
    Violated { trace: Vec<Step> },
    /// The solver could not decide, or k-induction did not converge.
    Unknown { reason: String },
}

/// Result for one declared invariant.
#[derive(Debug)]
pub struct Verdict {
    /// Pragma `id` (or `"<none>"` for the no-invariants advisory).
    pub property: String,
    /// Which backend produced this verdict.
    pub method: VerificationTool,
    /// What the backend concluded.
    pub outcome: Outcome,
}

/// Name of the backend in a rendered verdict.
pub open spec fn method_label(t: VerificationTool) -> Seq<char> {
    match t {
        VerificationTool::Smt => "bmc"@,
        VerificationTool::KInduction => "k-induction"@,
    }
}

/// `format!("{i:>2}")`: the decimal right-aligned in two columns.
pub open spec fn pad2(i: nat) -> Seq<char> {
    if i < 10 {
        " "@ + decimal(i)
    } else {
        decimal(i)
    }
}

/// The event shown for a step: its name, or a middle dot when none fires.
pub open spec fn event_label(st: Step) -> Seq<char> {
    match st.event {
        Some(e) => e@,
        None => "\u{b7}"@,
    }
}

/// One line of a rendered counterexample.
pub open spec fn step_line(i: nat, st: Step) -> Seq<char> {
    "  step "@ + pad2(i) + ": state="@ + st.state@ + " event="@ + event_label(st) + "\n"@
}

/// The lines of a rendered counterexample, one per step, numbered from 0.
pub open spec fn trace_lines(trace: Seq<Step>) -> Seq<char>
    decreases trace.len(),
{
    if trace.len() == 0 {
        Seq::empty()
    } else {
        trace_lines(trace.drop_last()) + step_line((trace.len() - 1) as nat, trace.last())
    }
}

/// The body of a rendered verdict.
pub open spec fn outcome_text(o: Outcome) -> Seq<char> {
    match o {
        Outcome::Holds { k } => "HOLDS \u{2014} proved inductive at k="@ + decimal(k as nat) + "\n"@,
        Outcome::BoundedSafe { bound } => "BOUNDED-SAFE \u{2014} no counterexample within "@ + decimal(bound as nat)
            + " steps (not a proof)\n"@,
        Outcome::Violated { trace } => "VIOLATED \u{2014} counterexample trace:\n"@ + trace_lines(trace@),
        Outcome::Unknown { reason } => "UNKNOWN \u{2014} "@ + reason@ + "\n"@,
    }
}

/// The full text of a rendered verdict.
pub open spec fn verdict_text(v: Verdict) -> Seq<char> {
    "invariant `"@ + v.property@ + "` ["@ + method_label(v.method) + "]\n"@ + outcome_text(v.outcome)
}

/// `format!("{i:>2}")`.
fn pad2_text(i: usize) -> (s: String)
    ensures
        s@ == pad2(i as nat),
{
    let digits = decimal_text(i);
    if i < 10 {
        let mut s = String::from_str(" ");
        s.append(digits.as_str());
        s
    } else {
        digits
    }
}

impl Verdict {
    /// Render the verdict as a human-readable text block.
    pub fn render(&self) -> (out: String)
        ensures
            out@ == verdict_text(*self),
    {
        let method = match self.method {
            VerificationTool::Smt => "bmc",
            VerificationTool::KInduction => "k-induction",
        };
        let mut out = String::from_str("invariant `");
        out.append(self.property.as_str());
        out.append("` [");
        out.append(method);
        out.append("]\n");
        match &self.outcome {
            Outcome::Holds { k } => {
                out.append("HOLDS \u{2014} proved inductive at k=");
                let d = decimal_text(*k);
                out.append(d.as_str());
                out.append("\n");
            },
            Outcome::BoundedSafe { bound } => {
                out.append("BOUNDED-SAFE \u{2014} no counterexample within ");
                let d = decimal_text(*bound);
                out.append(d.as_str());
                out.append(" steps (not a proof)\n");
            },
            Outcome::Violated { trace } => {
                out.append("VIOLATED \u{2014} counterexample trace:\n");
                let ghost start = out@;
                let mut i: usize = 0;
                assert(trace@.take(0) =~= Seq::<Step>::empty());
                assert(out@ =~= start + trace_lines(trace@.take(0)));
                while i < trace.len()
                    invariant
                        i <= trace.len(),
                        out@ == start + trace_lines(trace@.take(i as int)),
                    decreases trace.len() - i,
                {
                    let step = &trace[i];
                    out.append("  step ");
                    let p = pad2_text(i);
                    out.append(p.as_str());
                    out.append(": state=");
                    out.append(step.state.as_str());
                    out.append(" event=");
                    match &step.event {
                        Some(e) => out.append(e.as_str()),
                        None => out.append("\u{b7}"),
                    }
                    out.append("\n");
                    assert(trace@.take(i + 1).drop_last() =~= trace@.take(i as int));
                    assert(out@ =~= start + trace_lines(trace@.take(i + 1)));
                    i += 1;
                }
                assert(trace@.take(trace.len() as int) =~= trace@);
            },
            Outcome::Unknown { reason } => {
                out.append("UNKNOWN \u{2014} ");
                out.append(reason.as_str());
                out.append("\n");
            },
        }
        out
    }
}

} // verus!
