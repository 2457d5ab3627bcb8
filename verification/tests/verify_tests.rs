use charta::pragma::extract_pragmas;
use charta::property::parse_property;
use charta::tools::{ToolError, VerificationTool};
use charta::verdict::Outcome;
use charta::verify::{verify, BMC_BOUND};

const PINGPONG: &str = r#"
    <scxml xmlns="http://www.w3.org/2005/07/scxml" version="1.0" initial="a">
        <state id="a">
            <transition event="go" target="b"/>
        </state>
        <state id="b">
            <transition event="go" target="a"/>
        </state>
    </scxml>
"#;

#[test]
fn pragma_extraction_finds_invariants_in_order() {
    let xml = r#"
        <scxml>
          <!-- @invariant id="p1" expr="in('a')" -->
          <state id="a"/>
          <!-- @invariant id="p2" expr="not in('b')" -->
        </scxml>
    "#;
    let p = extract_pragmas(xml);
    assert_eq!(p.len(), 2);
    assert_eq!(p[0].0, "p1");
    assert_eq!(p[1].1, "not in('b')");
}

#[test]
fn property_parser_handles_full_grammar() {
    let src = "not in('a') or (in('b') and true) => false <=> in('c')";
    let p = parse_property(src).expect("parse");
    let _ = format!("{p:?}");
}

#[test]
fn bmc_rejects_obviously_false_invariant() {
    let xml = format!(
        "{}{}",
        r#"<!-- @invariant id="bad" expr="in('a') and in('b')" -->"#, PINGPONG
    );
    let v = verify(&xml, VerificationTool::Smt).unwrap();
    assert_eq!(v.len(), 1);
    match &v[0].outcome {
        Outcome::Violated { trace } => assert!(!trace.is_empty()),
        other => panic!("expected Violated, got {other:?}"),
    }
}

#[test]
fn bmc_passes_safe_invariant() {
    let xml = format!(
        "{}{}",
        r#"<!-- @invariant id="ok" expr="not (in('a') and in('b'))" -->"#, PINGPONG
    );
    let v = verify(&xml, VerificationTool::Smt).unwrap();
    match &v[0].outcome {
        Outcome::BoundedSafe { bound } => assert_eq!(*bound, BMC_BOUND),
        other => panic!("expected BoundedSafe, got {other:?}"),
    }
}

#[test]
fn k_induction_proves_state_disjunction() {
    let xml = format!(
        "{}{}",
        r#"<!-- @invariant id="cover" expr="in('a') or in('b')" -->"#, PINGPONG
    );
    let v = verify(&xml, VerificationTool::KInduction).unwrap();
    match &v[0].outcome {
        Outcome::Holds { k } => assert!(*k >= 1, "expected Holds with k>=1, got k={k}"),
        other => panic!("expected Holds, got {other:?}"),
    }
}

#[test]
fn k_induction_finds_base_counterexample() {
    let xml = format!(
        "{}{}",
        r#"<!-- @invariant id="not_a" expr="not in('a')" -->"#, PINGPONG
    );
    let v = verify(&xml, VerificationTool::KInduction).unwrap();
    match &v[0].outcome {
        Outcome::Violated { trace } => {
            assert_eq!(trace[0].state, "a");
        }
        other => panic!("expected Violated, got {other:?}"),
    }
}

#[test]
fn empty_invariants_returns_advisory_verdict() {
    let v = verify(PINGPONG, VerificationTool::Smt).unwrap();
    assert_eq!(v.len(), 1);
    assert!(matches!(v[0].outcome, Outcome::Unknown { .. }));
}

#[test]
fn hierarchical_chart_is_rejected() {
    let xml = r#"
        <scxml xmlns="http://www.w3.org/2005/07/scxml" version="1.0" initial="parent">
            <state id="parent" initial="child">
                <state id="child"/>
            </state>
        </scxml>
    "#;
    let err = verify(xml, VerificationTool::Smt).unwrap_err();
    assert!(matches!(err, ToolError::Unsupported(_)), "got {err:?}");
}
