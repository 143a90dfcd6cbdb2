//! End-to-end tests of the scan pipeline on fixture-shaped source texts.

use scopescan::aggregate::{aggregate, ClassifiedMatch, Finding};
use scopescan::parser::parse_rust;
use scopescan::pipeline::{scan_corpus, scan_unit, FileReport, ScanError, SourceUnit};
use scopescan::rules::{Category, Confidence, PatNode, Rule, RuleLoadError, RuleSet, ScopeClass,
    ScopeSet};
use scopescan::syntax::NodeKind;

fn rule_single(
    id: u64,
    kind: NodeKind,
    names: Option<Vec<Vec<u8>>>,
    value_prefix: Option<Vec<u8>>,
    category: Category,
    severity: u32,
    reports: ScopeSet,
) -> Rule {
    Rule {
        id,
        languages: vec![b"rust".to_vec()],
        category,
        severity,
        reports,
        pats: vec![PatNode { kind, name_any_of: names, value_prefix, children: vec![] }],
        root: 0,
    }
}

fn body_call_rule(id: u64, reports: ScopeSet) -> Rule {
    rule_single(
        id,
        NodeKind::MethodCall,
        Some(vec![b"body".to_vec()]),
        None,
        Category::CredentialLeak,
        5,
        reports,
    )
}

fn field_rule(id: u64) -> Rule {
    rule_single(
        id,
        NodeKind::FieldDecl,
        Some(vec![b"password".to_vec(), b"secret".to_vec(), b"token".to_vec()]),
        None,
        Category::StructuralLeak,
        7,
        ScopeSet::all(),
    )
}

fn unit(path: &str, text: &str) -> SourceUnit {
    SourceUnit {
        path: path.as_bytes().to_vec(),
        lang: b"rust".to_vec(),
        text: text.as_bytes().to_vec(),
    }
}

fn scan(text: &str, rules: Vec<Rule>) -> FileReport {
    let rs = RuleSet::load(rules).unwrap();
    scan_unit(&unit("test.rs", text), &rs).unwrap()
}

#[test]
fn direct_argument_is_direct() {
    let rep = scan(
        "fn handler() { scope_cursor(request.body()); }",
        vec![body_call_rule(1, ScopeSet::all())],
    );
    assert_eq!(rep.findings.len(), 1);
    assert_eq!(rep.findings[0].class, ScopeClass::Direct);
    assert_eq!(rep.findings[0].rule_id, 1);
    assert_eq!(rep.findings[0].category, Category::CredentialLeak);
    assert_eq!(rep.findings[0].snippet, b"request.body()".to_vec());
    assert!(rep.parse_diagnostic.is_none());
}

#[test]
fn reference_wrapper_is_still_direct() {
    let rep = scan(
        "fn handler() { scope_cursor(&request.body()); }",
        vec![body_call_rule(1, ScopeSet::all())],
    );
    assert_eq!(rep.findings.len(), 1);
    assert_eq!(rep.findings[0].class, ScopeClass::Direct);
}

#[test]
fn compound_argument_is_nested() {
    let rep = scan(
        "fn handler() { let x = make(); scope_nested(x + request.body()); }",
        vec![body_call_rule(1, ScopeSet::all())],
    );
    assert_eq!(rep.findings.len(), 1);
    assert_eq!(rep.findings[0].class, ScopeClass::Nested);
}

#[test]
fn cursor_rule_suppresses_nested() {
    // A rule that only reports direct placements does not report a value
    // mixed into a compound argument.
    let direct_only = ScopeSet { direct: true, nested: false, result_flow: false };
    let rep = scan(
        "fn handler() { let x = make(); scope_cursor(x + request.body()); }",
        vec![body_call_rule(1, direct_only)],
    );
    assert_eq!(rep.findings.len(), 0);
}

#[test]
fn compound_argument_with_reference_is_nested() {
    let rep = scan(
        "fn handler() { let x = make(); scope_nested(x + &request.body()); }",
        vec![body_call_rule(1, ScopeSet::all())],
    );
    assert_eq!(rep.findings.len(), 1);
    assert_eq!(rep.findings[0].class, ScopeClass::Nested);
}

#[test]
fn two_rules_on_same_range_collapse_in_pipeline() {
    // Two distinct rules match the same method call; the identical byte
    // range is reported once, keeping the first rule's metadata.
    let rep = scan(
        "fn handler() { scope_cursor(request.body()); }",
        vec![body_call_rule(1, ScopeSet::all()), body_call_rule(2, ScopeSet::all())],
    );
    assert_eq!(rep.findings.len(), 1);
    assert_eq!(rep.findings[0].rule_id, 1);
    assert_eq!(rep.findings[0].class, ScopeClass::Direct);
}

fn ident_rule(id: u64, name: &str) -> Rule {
    rule_single(
        id,
        NodeKind::Identifier,
        Some(vec![name.as_bytes().to_vec()]),
        None,
        Category::CredentialLeak,
        5,
        ScopeSet::all(),
    )
}

#[test]
fn identifier_argument_with_binding_is_result_flow_full() {
    let rep = scan(
        "fn handler() { let req = request.body(); scope_result(req); }",
        vec![ident_rule(6, "req")],
    );
    assert_eq!(rep.findings.len(), 1);
    assert_eq!(rep.findings[0].class, ScopeClass::ResultFlow);
    assert_eq!(rep.findings[0].confidence, Confidence::Full);
    assert_eq!(rep.findings[0].snippet, b"req".to_vec());
}

#[test]
fn identifier_argument_without_binding_is_result_flow_reduced() {
    // `p` has no binding in the enclosing statement list (it stands for a
    // parameter): the match is still reported, with reduced confidence.
    let rep = scan("fn handler() { scope_result(p); }", vec![ident_rule(6, "p")]);
    assert_eq!(rep.findings.len(), 1);
    assert_eq!(rep.findings[0].class, ScopeClass::ResultFlow);
    assert_eq!(rep.findings[0].confidence, Confidence::Reduced);
}

#[test]
fn reduced_confidence_match_is_not_dropped_by_result_flow_rule() {
    let result_only = ScopeSet { direct: false, nested: false, result_flow: true };
    let rep = scan(
        "fn handler() { scope_result(p); }",
        vec![rule_single(
            6,
            NodeKind::Identifier,
            Some(vec![b"p".to_vec()]),
            None,
            Category::CredentialLeak,
            5,
            result_only,
        )],
    );
    assert_eq!(rep.findings.len(), 1);
    assert_eq!(rep.findings[0].class, ScopeClass::ResultFlow);
    assert_eq!(rep.findings[0].confidence, Confidence::Reduced);
}

#[test]
fn binding_then_call_is_result_flow() {
    let rep = scan(
        "fn handler() { let req = request.body(); scope_result(req); }",
        vec![body_call_rule(1, ScopeSet::all())],
    );
    assert_eq!(rep.findings.len(), 1);
    assert_eq!(rep.findings[0].class, ScopeClass::ResultFlow);
    assert_eq!(rep.findings[0].confidence, Confidence::Full);
}

#[test]
fn rebinding_kills_result_flow() {
    let rep = scan(
        "fn handler() { let req = request.body(); let req = other(); scope_result(req); }",
        vec![body_call_rule(1, ScopeSet::all())],
    );
    assert_eq!(rep.findings.len(), 1);
    // The match in the first initializer no longer flows to the call, so the
    // top-level default applies.
    assert_eq!(rep.findings[0].class, ScopeClass::Direct);
}

#[test]
fn match_outside_any_call_defaults_to_direct() {
    let rep = scan(
        "fn handler() { request.body(); }",
        vec![body_call_rule(1, ScopeSet::all())],
    );
    assert_eq!(rep.findings.len(), 1);
    assert_eq!(rep.findings[0].class, ScopeClass::Direct);
}

#[test]
fn unsafe_deref_and_raw_pointer_return_severities() {
    let deref_rule = rule_single(
        2,
        NodeKind::UnsafeDeref,
        None,
        None,
        Category::UnsafeMemory,
        9,
        ScopeSet::all(),
    );
    let ptr_rule = rule_single(
        3,
        NodeKind::RawPtrType,
        None,
        None,
        Category::UnsafeMemory,
        3,
        ScopeSet::all(),
    );
    let text = "fn dangerous() -> *const i32 { make_ptr() }\nfn evil() { unsafe { *p; } }";
    let rep = scan(text, vec![deref_rule, ptr_rule]);
    assert_eq!(rep.findings.len(), 2);
    let ptr = rep.findings.iter().find(|f| f.rule_id == 3).unwrap();
    let deref = rep.findings.iter().find(|f| f.rule_id == 2).unwrap();
    assert_eq!(deref.category, Category::UnsafeMemory);
    assert_eq!(ptr.category, Category::UnsafeMemory);
    assert!(deref.severity > ptr.severity);
    assert_eq!(deref.snippet, b"*p".to_vec());
}

#[test]
fn two_rules_on_unsafe_deref_range_collapse() {
    // Two distinct rules both match the dereference inside the unsafe
    // block; its byte range is reported exactly once.
    let a = rule_single(
        2,
        NodeKind::UnsafeDeref,
        None,
        None,
        Category::UnsafeMemory,
        9,
        ScopeSet::all(),
    );
    let b = rule_single(
        20,
        NodeKind::UnsafeDeref,
        None,
        None,
        Category::UnsafeMemory,
        4,
        ScopeSet::all(),
    );
    let rep = scan("unsafe fn fully_unsafe() { *p; }", vec![a, b]);
    assert_eq!(rep.findings.len(), 1);
    assert_eq!(rep.findings[0].rule_id, 2);
    assert_eq!(rep.findings[0].snippet, b"*p".to_vec());
}

#[test]
fn safe_deref_is_not_flagged() {
    let deref_rule = rule_single(
        2,
        NodeKind::UnsafeDeref,
        None,
        None,
        Category::UnsafeMemory,
        9,
        ScopeSet::all(),
    );
    let rep = scan("fn fine() { *p; }", vec![deref_rule]);
    assert_eq!(rep.findings.len(), 0);
}

#[test]
fn sensitive_field_flagged() {
    let rep = scan(
        "struct User { name: String, password: String, age: u32 }",
        vec![field_rule(4)],
    );
    assert_eq!(rep.findings.len(), 1);
    assert_eq!(rep.findings[0].rule_id, 4);
    assert_eq!(rep.findings[0].category, Category::StructuralLeak);
    assert!(rep.findings[0].snippet.starts_with(b"password"));
}

#[test]
fn sensitive_field_flagged_regardless_of_whitespace() {
    let tight = scan("struct U{password:String}", vec![field_rule(4)]);
    let airy = scan(
        "struct   U   {\n\n    password   :\n        String\n}",
        vec![field_rule(4)],
    );
    assert_eq!(tight.findings.len(), 1);
    assert_eq!(airy.findings.len(), 1);
    assert_eq!(tight.findings[0].rule_id, 4);
    assert_eq!(airy.findings[0].rule_id, 4);
}

#[test]
fn string_prefix_rule_matches_literal() {
    let url_rule = rule_single(
        5,
        NodeKind::StringLiteral,
        None,
        Some(b"https://".to_vec()),
        Category::CredentialLeak,
        2,
        ScopeSet::all(),
    );
    let rep = scan(
        "fn main2() { let url = \"https://example.com/api/v1\"; let p = \"/usr/local/bin\"; }",
        vec![url_rule],
    );
    assert_eq!(rep.findings.len(), 1);
    // The node's span covers the whole literal, quotes and all; the value
    // the prefix was tested against is the bytes between the quotes.
    assert_eq!(rep.findings[0].snippet, b"\"https://example.com/api/v1\"".to_vec());
}

#[test]
fn duplicate_range_collapses_to_most_direct() {
    let path = b"dup.rs".to_vec();
    let text = b"0123456789".to_vec();
    let a = ClassifiedMatch {
        rule_id: 9,
        severity: 4,
        category: Category::CredentialLeak,
        class: ScopeClass::Nested,
        confidence: Confidence::Full,
        start: 2,
        end: 5,
    };
    // A different rule on the identical byte range still collapses with it.
    let b = ClassifiedMatch { rule_id: 11, class: ScopeClass::Direct, ..a };
    let fs: Vec<Finding> = aggregate(&path, &text, &vec![a, b]);
    assert_eq!(fs.len(), 1);
    assert_eq!(fs[0].rule_id, 9);
    assert_eq!(fs[0].class, ScopeClass::Direct);
    assert_eq!(fs[0].snippet, b"234".to_vec());
}

#[test]
fn findings_ordered_by_offset_then_rule() {
    let path = b"ord.rs".to_vec();
    let text = b"abcdefghij".to_vec();
    let mk = |rule_id: u64, start: usize, end: usize| ClassifiedMatch {
        rule_id,
        severity: 1,
        category: Category::CredentialLeak,
        class: ScopeClass::Direct,
        confidence: Confidence::Full,
        start,
        end,
    };
    let fs = aggregate(&path, &text, &vec![mk(7, 4, 6), mk(2, 4, 8), mk(5, 1, 3)]);
    assert_eq!(fs.len(), 3);
    assert_eq!((fs[0].start, fs[0].rule_id), (1, 5));
    assert_eq!((fs[1].start, fs[1].rule_id), (4, 2));
    assert_eq!((fs[2].start, fs[2].rule_id), (4, 7));
}

#[test]
fn line_and_column_are_one_based() {
    let text = "fn a() {\n  scope_cursor(request.body());\n}";
    let rep = scan(text, vec![body_call_rule(1, ScopeSet::all())]);
    assert_eq!(rep.findings.len(), 1);
    let off = text.find("request").unwrap();
    let line = text[..off].matches('\n').count() + 1;
    let col = off - text[..off].rfind('\n').map(|p| p + 1).unwrap_or(0) + 1;
    assert_eq!(rep.findings[0].line, line);
    assert_eq!(rep.findings[0].col, col);
    assert_eq!(rep.findings[0].start, off);
}

#[test]
fn corpus_isolates_a_syntax_error() {
    let rules = vec![body_call_rule(1, ScopeSet::all()), field_rule(4)];
    let rs = RuleSet::load(rules).unwrap();
    let good_a = "fn handler() { scope_cursor(request.body()); }";
    let broken = "fn broken( {";
    let good_c = "struct User { password: String }";
    let units = vec![unit("a.rs", good_a), unit("b.rs", broken), unit("c.rs", good_c)];
    let out = scan_corpus(&units, &rs);
    assert_eq!(out.len(), 3);
    let rep_a = out[0].as_ref().unwrap();
    let rep_b = out[1].as_ref().unwrap();
    let rep_c = out[2].as_ref().unwrap();
    assert!(rep_b.parse_diagnostic.is_some());
    // The findings of the healthy files equal those of scanning them alone.
    let alone_a = scan_unit(&unit("a.rs", good_a), &rs).unwrap();
    let alone_c = scan_unit(&unit("c.rs", good_c), &rs).unwrap();
    assert_findings_equal(&rep_a.findings, &alone_a.findings);
    assert_findings_equal(&rep_c.findings, &alone_c.findings);
    assert_eq!(rep_a.findings.len(), 1);
    assert_eq!(rep_c.findings.len(), 1);
}

#[test]
fn malformed_file_still_reports_prefix_findings() {
    let rep = scan(
        "fn ok() { scope_cursor(request.body()); }\nfn broken( {",
        vec![body_call_rule(1, ScopeSet::all())],
    );
    assert!(rep.parse_diagnostic.is_some());
    assert_eq!(rep.findings.len(), 1);
    assert_eq!(rep.findings[0].snippet, b"request.body()".to_vec());
}

fn assert_findings_equal(a: &[Finding], b: &[Finding]) {
    assert_eq!(a.len(), b.len());
    for (x, y) in a.iter().zip(b.iter()) {
        assert_eq!(x.path, y.path);
        assert_eq!(x.line, y.line);
        assert_eq!(x.col, y.col);
        assert_eq!(x.rule_id, y.rule_id);
        assert_eq!(x.severity, y.severity);
        assert_eq!(x.category, y.category);
        assert_eq!(x.class, y.class);
        assert_eq!(x.confidence, y.confidence);
        assert_eq!(x.start, y.start);
        assert_eq!(x.end, y.end);
        assert_eq!(x.snippet, y.snippet);
    }
}

#[test]
fn pipeline_is_deterministic() {
    let rules = vec![body_call_rule(1, ScopeSet::all()), field_rule(4)];
    let rs = RuleSet::load(rules).unwrap();
    let text = "struct User { password: String }\nfn handler() { let req = request.body(); scope_result(req); }";
    let u = unit("d.rs", text);
    let r1 = scan_unit(&u, &rs).unwrap();
    let r2 = scan_unit(&u, &rs).unwrap();
    assert_findings_equal(&r1.findings, &r2.findings);
    assert_eq!(r1.parse_diagnostic, r2.parse_diagnostic);
}

#[test]
fn empty_text_yields_no_findings_and_no_error() {
    let rep = scan("", vec![body_call_rule(1, ScopeSet::all())]);
    assert_eq!(rep.findings.len(), 0);
    assert!(rep.parse_diagnostic.is_none());
}

#[test]
fn unsupported_language_is_reported_not_scanned() {
    let rs = RuleSet::load(vec![body_call_rule(1, ScopeSet::all())]).unwrap();
    let u = SourceUnit {
        path: b"m.go".to_vec(),
        lang: b"go".to_vec(),
        text: b"func main() {}".to_vec(),
    };
    let r = scan_unit(&u, &rs);
    assert_eq!(r.err(), Some(ScanError::UnsupportedLanguage));
}

#[test]
fn malformed_rule_rejects_whole_document() {
    let good = body_call_rule(1, ScopeSet::all());
    let mut bad = field_rule(4);
    bad.root = 9;
    let r = RuleSet::load(vec![good, bad]);
    assert_eq!(r.err(), Some(RuleLoadError { rule_index: 1 }));
}

#[test]
fn node_ranges_reconstruct_source_spans() {
    let text = "fn handler() { let x = make(); scope_nested(x + request.body()); }\nstruct User { password: String }";
    let bytes = text.as_bytes().to_vec();
    let parsed = parse_rust(&bytes);
    assert!(parsed.diagnostic.is_none());
    let nodes = &parsed.tree.nodes;
    assert!(!nodes.is_empty());
    for (i, n) in nodes.iter().enumerate() {
        assert!(n.start <= n.end && n.end <= bytes.len());
        // Re-serializing the byte range reproduces the node's span.
        let span = &bytes[n.start..n.end];
        assert_eq!(span.len(), n.end - n.start);
        // Every child range lies within its parent's range.
        for &c in &n.children {
            assert!(c < i);
            assert!(n.start <= nodes[c].start && nodes[c].end <= n.end);
        }
    }
    // A concrete span: the method call on `request`.
    let off = text.find("request.body()").unwrap();
    let m = nodes
        .iter()
        .find(|n| n.kind == NodeKind::MethodCall && n.start == off)
        .unwrap();
    assert_eq!(&bytes[m.start..m.end], b"request.body()");
}
