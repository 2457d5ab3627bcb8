use charta::chart::{StateInfo, StateKindTag, TransitionInfo};
use charta::codegen::{generated_sections, name_before, sorted_by_name};
use charta::engine::{bmc, k_induction, KIND_MAX_K};
use charta::pragma::{extract_attr, extract_pragmas, trim_chars};
use charta::property::{parse_property, tokenize, Prop};
use charta::service::{validate_chart, visualise_chart};
use charta::system::TransitionSystem;
use charta::tools::{Backend, ToolError, VerificationTool};
use charta::verdict::{Outcome, Step, Verdict};
use charta::verify::{verify, verify_system};

const PINGPONG: &str = r#"
    <scxml xmlns="http://www.w3.org/2005/07/scxml" version="1.0" initial="a">
        <state id="a">
            <transition event="go" target="b"/>
        </state>
        <state id="b">
            <transition event="go" target="a"/>
        </state>
    </scxml>
"#;

fn leaf(id: &str, transitions: Vec<(Option<&str>, Vec<&str>)>) -> StateInfo {
    StateInfo {
        id: id.to_string(),
        kind: StateKindTag::Atomic,
        transitions: transitions
            .into_iter()
            .map(|(e, ts)| TransitionInfo {
                event: e.map(|x| x.to_string()),
                targets: ts.into_iter().map(|t| t.to_string()).collect(),
            })
            .collect(),
    }
}

/// a -go-> b -go-> c, c loops on itself (eventless).
fn chain() -> TransitionSystem {
    let states = vec![
        leaf("a", vec![(Some("go"), vec!["b"])]),
        leaf("b", vec![(Some("go"), vec!["c"])]),
        leaf("c", vec![(None, vec![])]),
    ];
    TransitionSystem::from_parts(&"a".to_string(), &states).unwrap()
}

fn prop(src: &str) -> Prop {
    parse_property(src).unwrap()
}

// ───── rendering ─────

#[test]
fn render_holds() {
    let v = Verdict { property: "p".into(), method: VerificationTool::KInduction, outcome: Outcome::Holds { k: 3 } };
    assert_eq!(v.render(), "invariant `p` [k-induction]\nHOLDS \u{2014} proved inductive at k=3\n");
}

#[test]
fn render_bounded_safe() {
    let v = Verdict { property: "q".into(), method: VerificationTool::Smt, outcome: Outcome::BoundedSafe { bound: 12 } };
    assert_eq!(
        v.render(),
        "invariant `q` [bmc]\nBOUNDED-SAFE \u{2014} no counterexample within 12 steps (not a proof)\n"
    );
}

#[test]
fn render_violated_pads_step_numbers() {
    let mut trace = Vec::new();
    for i in 0..11 {
        trace.push(Step { state: format!("s{i}"), event: if i < 10 { Some("go".into()) } else { None } });
    }
    let v = Verdict { property: "r".into(), method: VerificationTool::Smt, outcome: Outcome::Violated { trace } };
    let text = v.render();
    assert!(text.starts_with("invariant `r` [bmc]\nVIOLATED \u{2014} counterexample trace:\n  step  0: state=s0 event=go\n"));
    assert!(text.ends_with("  step  9: state=s9 event=go\n  step 10: state=s10 event=\u{b7}\n"));
    assert_eq!(text.lines().count(), 13);
}

#[test]
fn render_unknown() {
    let v = Verdict { property: "<none>".into(), method: VerificationTool::Smt, outcome: Outcome::Unknown { reason: "why".into() } };
    assert_eq!(v.render(), "invariant `<none>` [bmc]\nUNKNOWN \u{2014} why\n");
}

// ───── tools ─────

#[test]
fn backend_flags() {
    assert_eq!(Backend::Rust.as_flag(), "rust");
    assert_eq!(Backend::Go.as_flag(), "go");
    assert_eq!(Backend::Cpp.as_flag(), "cpp");
    assert_eq!(Backend::Kotlin.as_flag(), "kotlin");
    assert_eq!(Backend::C11.as_flag(), "c11");
}

#[test]
fn input_errors_are_invalid_params() {
    assert!(!ToolError::BinaryNotFound.is_invalid_params());
    assert!(!ToolError::CodegenFailed("x".into()).is_invalid_params());
    assert!(!ToolError::Unsupported("x".into()).is_invalid_params());
    let parse_err = verify("<scxml", VerificationTool::Smt).unwrap_err();
    assert!(matches!(parse_err, ToolError::Parse(_)));
    assert!(parse_err.is_invalid_params());
}

// ───── pragmas ─────

#[test]
fn attr_is_found_by_substring() {
    assert_eq!(extract_attr("id=\"x\" expr=\"y\"", "expr"), Some("y".to_string()));
    assert_eq!(extract_attr("xid=\"q\"", "id"), Some("q".to_string()));
    assert_eq!(extract_attr("expr=\"y\"", "id"), None);
    assert_eq!(extract_attr("id=\"open", "id"), None);
    assert_eq!(extract_attr("id=\"\"", "id"), Some(String::new()));
}

#[test]
fn pragma_tag_needs_white_space_and_both_attributes() {
    let xml = "<!--@invariantfoo id=\"a\" expr=\"true\"-->\
               <!-- @invariant id=\"b\" -->\
               <!--\t@invariant\n  id=\"c\"  expr=\"false\"  -->\
               <!-- note -->\
               <!-- @invariant id=\"d\" expr=\"true\" ";
    let p = extract_pragmas(xml);
    assert_eq!(p, vec![("c".to_string(), "false".to_string())]);
}

#[test]
fn pragma_scan_resumes_after_each_comment() {
    let xml = "<!-- @invariant id=\"1\" expr=\"x\" --><!-- @invariant id=\"2\" expr=\"y\" -->";
    let p = extract_pragmas(xml);
    assert_eq!(p.len(), 2);
    assert_eq!(p[1], ("2".to_string(), "y".to_string()));
    assert!(extract_pragmas("no comments here").is_empty());
}

#[test]
fn trim_removes_unicode_white_space() {
    let s: Vec<char> = "\u{3000} \tab c\u{2028}\n".chars().collect();
    let t: String = trim_chars(&s).into_iter().collect();
    assert_eq!(t, "ab c");
}

// ───── property language ─────

#[test]
fn tokenizer_reads_operators_and_literals() {
    let toks = tokenize("in('a') => x_1 <=> \"b c\", not").unwrap();
    assert_eq!(
        format!("{toks:?}"),
        "[In, LParen, Str(\"a\"), RParen, Implies, Ident(\"x_1\"), Iff, Str(\"b c\"), Comma, Not]"
    );
}

#[test]
fn white_space_between_tokens_changes_nothing() {
    let tight = tokenize("not(in('a'))and in(\"b c\")=>x_1<=>true").unwrap();
    let spaced = tokenize(" not ( in ( 'a' ) ) and\tin(\"b c\") =>\nx_1 <=> true ").unwrap();
    assert_eq!(format!("{tight:?}"), format!("{spaced:?}"));
    let quoted = tokenize("in('b c')").unwrap();
    assert_ne!(format!("{quoted:?}"), format!("{:?}", tokenize("in('b  c')").unwrap()));
}

#[test]
fn tokenizer_errors() {
    assert_eq!(tokenize("in('a").unwrap_err(), "unterminated string literal starting at offset 4");
    assert_eq!(tokenize("a = b").unwrap_err(), "unexpected character `=` at offset 2");
    assert_eq!(tokenize("<= b").unwrap_err(), "unexpected character `<` at offset 0");
}

#[test]
fn parser_precedence_and_associativity() {
    assert_eq!(format!("{:?}", prop("true or false and false")), "Or(True, And(False, False))");
    assert_eq!(
        format!("{:?}", prop("in(a) => in(b) => in(c)")),
        "Implies(In(\"a\"), Implies(In(\"b\"), In(\"c\")))"
    );
    assert_eq!(format!("{:?}", prop("true and false and true")), "And(And(True, False), True)");
    assert_eq!(format!("{:?}", prop("not not (true <=> false)")), "Not(Not(Iff(True, False)))");
}

#[test]
fn parser_errors() {
    assert_eq!(parse_property("in('a') in('b')").unwrap_err(), "unexpected trailing tokens at position 4");
    assert_eq!(parse_property("and").unwrap_err(), "unexpected token Some(And) in primary position");
    assert_eq!(parse_property("").unwrap_err(), "unexpected token None in primary position");
    assert_eq!(parse_property("(true").unwrap_err(), "expected `)`");
    assert_eq!(parse_property("in 'a'").unwrap_err(), "expected `(` after `in`");
    assert_eq!(parse_property("in(true)").unwrap_err(), "expected state id in `in(...)`, got Some(True)");
    assert_eq!(parse_property("in('a'").unwrap_err(), "expected `)` to close `in(...)`");
    assert_eq!(parse_property("in(,)").unwrap_err(), "expected state id in `in(...)`, got Some(Comma)");
}

// ───── lowering ─────

#[test]
fn lowering_collects_events_and_edges() {
    let ts = chain();
    assert_eq!(ts.states, vec!["a", "b", "c"]);
    assert_eq!(ts.events, vec!["\u{3b5}", "go"]);
    assert_eq!(ts.edges, vec![(0, 1, 1), (1, 1, 2), (2, 0, 2)]);
    assert_eq!(ts.initial_idx(), 0);
}

#[test]
fn lowering_errors() {
    let multi = vec![leaf("a", vec![(Some("e"), vec!["a", "a"])])];
    match TransitionSystem::from_parts(&"a".to_string(), &multi) {
        Err(ToolError::Unsupported(m)) => {
            assert_eq!(m, "transition from `a` has 2 targets; v1 only supports single-target transitions")
        }
        other => panic!("{other:?}"),
    }
    let unknown = vec![leaf("a", vec![(Some("e"), vec!["z"])])];
    match TransitionSystem::from_parts(&"a".to_string(), &unknown) {
        Err(ToolError::Unsupported(m)) => assert_eq!(m, "transition target `z` is not a known leaf state"),
        other => panic!("{other:?}"),
    }
    let ok = vec![leaf("a", vec![])];
    match TransitionSystem::from_parts(&"q".to_string(), &ok) {
        Err(ToolError::Unsupported(m)) => assert_eq!(m, "initial state `q` is not a leaf state"),
        other => panic!("{other:?}"),
    }
    match TransitionSystem::from_parts(&"q".to_string(), &vec![]) {
        Err(ToolError::Unsupported(m)) => assert_eq!(m, "chart has no leaf states"),
        other => panic!("{other:?}"),
    }
    let nested = vec![StateInfo { id: "p".into(), kind: StateKindTag::Parallel, transitions: vec![] }];
    match TransitionSystem::from_parts(&"p".to_string(), &nested) {
        Err(ToolError::Unsupported(m)) => {
            assert_eq!(m, "state `p` has kind Parallel; v1 supports only flat charts (Atomic/Final)")
        }
        other => panic!("{other:?}"),
    }
}

#[test]
fn nested_chart_message_names_the_kind() {
    let xml = r#"<scxml xmlns="http://www.w3.org/2005/07/scxml" version="1.0" initial="parent">
        <state id="parent" initial="child"><state id="child"/></state></scxml>"#;
    match verify(xml, VerificationTool::KInduction) {
        Err(ToolError::Unsupported(m)) => {
            assert_eq!(m, "state `parent` has kind Compound; v1 supports only flat charts (Atomic/Final)")
        }
        other => panic!("{other:?}"),
    }
}

// ───── checking ─────

#[test]
fn bmc_reports_a_run_of_bound_transitions() {
    let ts = chain();
    match bmc(&ts, &prop("not in('c')"), 4) {
        Outcome::Violated { trace } => {
            assert_eq!(trace.len(), 5);
            assert_eq!(trace[0].state, "a");
            assert_eq!(trace[0].event.as_deref(), Some("go"));
            assert_eq!(trace[1].state, "b");
            assert_eq!(trace[2].state, "c");
            assert_eq!(trace[2].event.as_deref(), Some("\u{3b5}"));
            assert!(trace[4].event.is_none());
        }
        other => panic!("{other:?}"),
    }
    // Within one transition `c` is not reached.
    assert!(matches!(bmc(&ts, &prop("not in('c')"), 1), Outcome::BoundedSafe { bound: 1 }));
}

#[test]
fn k_induction_finds_a_violation_at_its_last_depth() {
    let mut states = Vec::new();
    for i in 0..8 {
        let next = format!("s{}", i + 1);
        states.push(leaf(&format!("s{i}"), vec![(Some("go"), vec![next.as_str()])]));
    }
    states.push(leaf("s8", vec![(None, vec![])]));
    let ts = TransitionSystem::from_parts(&"s0".to_string(), &states).unwrap();
    match k_induction(&ts, &prop("not in('s8')"), 8) {
        Outcome::Violated { trace } => {
            assert_eq!(trace.len(), 9);
            assert_eq!(trace[8].state, "s8");
        }
        other => panic!("{other:?}"),
    }
    assert!(matches!(k_induction(&ts, &prop("not in('s8')"), 7), Outcome::Unknown { .. }));
}

#[test]
fn unknown_state_name_is_reported() {
    let ts = chain();
    match bmc(&ts, &prop("in('zzz') or true"), 3) {
        Outcome::Unknown { reason } => {
            assert_eq!(reason, "property encoding failed: unknown state `zzz` in `in(...)`")
        }
        other => panic!("{other:?}"),
    }
    match k_induction(&ts, &prop("in('a') and in('q')"), KIND_MAX_K) {
        Outcome::Unknown { reason } => {
            assert_eq!(reason, "property encoding failed: unknown state `q` in `in(...)`")
        }
        other => panic!("{other:?}"),
    }
}

#[test]
fn k_induction_gives_up_when_not_converging() {
    assert!(matches!(
        k_induction(&chain(), &prop("true"), 0),
        Outcome::Unknown { reason } if reason == "k-induction did not converge within k=8"
    ));
}

#[test]
fn k_induction_proves_reachability_invariant() {
    // `a` is never re-entered once left; `not in('a') or in('a')` is trivial,
    // and `in('a') or in('b') or in('c')` holds everywhere.
    assert!(matches!(k_induction(&chain(), &prop("in('a') or in('b') or in('c')"), 8), Outcome::Holds { k: 1 }));
    match k_induction(&chain(), &prop("not in('b')"), 8) {
        Outcome::Violated { trace } => {
            assert_eq!(trace.len(), 2);
            assert_eq!(trace[1].state, "b");
        }
        other => panic!("{other:?}"),
    }
}

#[test]
fn holds_agrees_with_bounded_check() {
    // Whatever k-induction proves, bounded checking at any depth cannot refute.
    let p = prop("in('a') => not in('c')");
    assert!(matches!(k_induction(&chain(), &p, 8), Outcome::Holds { .. }));
    for bound in 0..6 {
        assert!(matches!(bmc(&chain(), &p, bound), Outcome::BoundedSafe { .. }));
    }
}

#[test]
fn property_parse_error_names_the_invariant() {
    let xml = format!("{}{}", r#"<!-- @invariant id="broken" expr="in('a'" -->"#, PINGPONG);
    match verify(&xml, VerificationTool::Smt) {
        Err(ToolError::PropertyParse(m)) => {
            assert_eq!(m, "invariant `broken`: expected `)` to close `in(...)` (in `in('a'`)")
        }
        other => panic!("{other:?}"),
    }
}

#[test]
fn first_broken_pragma_fails_the_batch() {
    let ps = vec![
        ("ok".to_string(), "true".to_string()),
        ("bad1".to_string(), "in(".to_string()),
        ("bad2".to_string(), "and".to_string()),
    ];
    match verify_system(&ps, &chain(), VerificationTool::Smt) {
        Err(ToolError::PropertyParse(m)) => assert!(m.starts_with("invariant `bad1`: ")),
        other => panic!("{other:?}"),
    }
}

#[test]
fn verdicts_follow_pragma_order() {
    let xml = format!(
        "{}{}{}",
        r#"<!-- @invariant id="one" expr="true" -->"#,
        r#"<!-- @invariant id="two" expr="in('a')" -->"#,
        PINGPONG
    );
    let v = verify(&xml, VerificationTool::KInduction).unwrap();
    assert_eq!(v.len(), 2);
    assert_eq!(v[0].property, "one");
    assert_eq!(v[1].property, "two");
    assert!(matches!(v[0].outcome, Outcome::Holds { k: 1 }));
    assert!(matches!(v[1].outcome, Outcome::Violated { .. }));
    assert!(matches!(v[1].method, VerificationTool::KInduction));
}

#[test]
fn advisory_verdict_text() {
    let v = verify(PINGPONG, VerificationTool::KInduction).unwrap();
    assert_eq!(v[0].property, "<none>");
    assert_eq!(
        v[0].render(),
        "invariant `<none>` [k-induction]\nUNKNOWN \u{2014} no `<!-- @invariant id=\"...\" expr=\"...\" -->` pragmas found in document\n"
    );
}

// ───── validation, rendering, code generation ─────

#[test]
fn validation_reports_ok_and_errors() {
    assert_eq!(validate_chart(PINGPONG).unwrap(), "OK");
    assert!(matches!(validate_chart("<scxml").unwrap_err(), ToolError::Parse(_)));
    let unreachable = r#"<scxml xmlns="http://www.w3.org/2005/07/scxml" version="1.0" initial="a">
        <state id="a"><transition event="go" target="a"/></state>
        <state id="b"><transition event="go" target="a"/></state></scxml>"#;
    assert!(matches!(validate_chart(unreachable).unwrap_err(), ToolError::Validate(_)));
}

#[test]
fn visualisation_renders_valid_charts() {
    let text = visualise_chart(PINGPONG).unwrap();
    assert!(text.contains("stateDiagram"));
    assert!(matches!(visualise_chart("<scxml").unwrap_err(), ToolError::Parse(_)));
}

#[test]
fn generated_files_are_sorted_and_framed() {
    let files = vec![
        ("chart_sm.inl".to_string(), "B".to_string()),
        ("chart_sm.h".to_string(), "A".to_string()),
    ];
    let out = generated_sections(true, String::new(), &files, Backend::Cpp).unwrap();
    assert_eq!(out, vec!["// file: chart_sm.h\nA".to_string(), "// file: chart_sm.inl\nB".to_string()]);
}

#[test]
fn generator_failures() {
    match generated_sections(false, "boom".into(), &vec![], Backend::Go) {
        Err(ToolError::CodegenFailed(m)) => assert_eq!(m, "boom"),
        other => panic!("{other:?}"),
    }
    match generated_sections(true, String::new(), &vec![], Backend::C11) {
        Err(ToolError::CodegenFailed(m)) => assert_eq!(m, "sce-codegen produced no files for backend C11"),
        other => panic!("{other:?}"),
    }
}

#[test]
fn names_sort_by_code_point() {
    assert!(name_before(&"a".into(), &"b".into()));
    assert!(name_before(&"ab".into(), &"abc".into()));
    assert!(!name_before(&"abc".into(), &"ab".into()));
    assert!(!name_before(&"x".into(), &"x".into()));
    assert!(name_before(&"Z".into(), &"a".into()));
    let sorted = sorted_by_name(&vec![
        ("c".to_string(), "3".to_string()),
        ("a".to_string(), "1".to_string()),
        ("b".to_string(), "2".to_string()),
    ]);
    let names: Vec<&str> = sorted.iter().map(|p| p.0.as_str()).collect();
    assert_eq!(names, vec!["a", "b", "c"]);
}

#[test]
fn tokens_in_errors_are_debug_rendered() {
    assert_eq!(parse_property("x").unwrap_err(), "unexpected token Some(Ident(\"x\")) in primary position");
    assert_eq!(parse_property("'a\tb'").unwrap_err(), "unexpected token Some(Str(\"a\\tb\")) in primary position");
    assert_eq!(parse_property("in(a b)").unwrap_err(), "expected `)` to close `in(...)`");
}

#[test]
fn string_literals_keep_non_ascii_text() {
    assert_eq!(format!("{:?}", prop("in('\u{e9}t\u{e9}')")), "In(\"\u{e9}t\u{e9}\")");
    assert_eq!(format!("{:?}", prop("in(\"a b\")")), "In(\"a b\")");
}

#[test]
fn violations_on_runs_that_stop_early_are_found() {
    // The only state has no transition: the initial state itself violates
    // `false`, and both procedures report it.
    let xml = format!(
        "{}{}",
        r#"<!-- @invariant id="never" expr="false" -->"#,
        r#"<scxml xmlns="http://www.w3.org/2005/07/scxml" version="1.0" initial="f"><final id="f"/></scxml>"#
    );
    for tool in [VerificationTool::KInduction, VerificationTool::Smt] {
        let v = verify(&xml, tool).unwrap();
        match &v[0].outcome {
            Outcome::Violated { trace } => {
                assert_eq!(trace.len(), 1);
                assert_eq!(trace[0].state, "f");
                assert!(trace[0].event.is_none());
            }
            other => panic!("{other:?}"),
        }
    }
}

#[test]
fn mermaid_starts_with_entry_arrow() {
    let text = visualise_chart(PINGPONG).unwrap();
    assert!(text.starts_with("stateDiagram-v2\n  [*] --> a\n"));
}

#[test]
fn base_counterexample_runs_one_transition() {
    let ts = chain();
    match k_induction(&ts, &prop("not in('a')"), 8) {
        Outcome::Violated { trace } => {
            assert_eq!(trace.len(), 2);
            assert_eq!(trace[0].state, "a");
            assert_eq!(trace[0].event.as_deref(), Some("go"));
            assert_eq!(trace[1].state, "b");
            assert!(trace[1].event.is_none());
        }
        other => panic!("{other:?}"),
    }
}

#[test]
fn printed_properties_parse_back() {
    assert_eq!(
        format!("{:?}", prop("(in('a')) and (not (true))")),
        "And(In(\"a\"), Not(True))"
    );
    assert_eq!(
        format!("{:?}", prop("((false) or (in('b'))) <=> ((true) => (in('c')))")),
        "Iff(Or(False, In(\"b\")), Implies(True, In(\"c\")))"
    );
}

#[test]
fn pragmas_of_joined_documents() {
    let x = r#"<!-- @invariant id="p" expr="true" --><state/><!-- note -->"#;
    let y = r#"<!-- @invariant id="q" expr="false" -->"#;
    let joined = format!("{x}{y}");
    let mut both = extract_pragmas(x);
    both.extend(extract_pragmas(y));
    assert_eq!(extract_pragmas(&joined), both);
    assert_eq!(both.len(), 2);
}

#[test]
fn backend_flags_are_distinct() {
    let all = [Backend::Rust, Backend::Go, Backend::Cpp, Backend::Kotlin, Backend::C11];
    for (i, a) in all.iter().enumerate() {
        for (j, b) in all.iter().enumerate() {
            assert_eq!(i == j, a.as_flag() == b.as_flag());
        }
    }
}
