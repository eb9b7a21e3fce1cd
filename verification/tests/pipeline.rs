use errorbook::book::{
    build_document_tree, component_file_name, detail_content, detail_file_name, replace_all,
    resource_url, strip_brackets, summary_page, usize_to_dec,
};
use errorbook::diag::{
    extract_event, Diagnostic, DiagnosticCode, RawEvent, StreamError,
};
use errorbook::grouping::{group_diagnostics, Grouping};
use errorbook::stream::{extract_all, ingest_stream, split_lines, truncate_stream};
use errorbook::{crate_name, crate_safe_file_name};

fn diag(identity: &str, rendered: &str, component: &str, code: Option<DiagnosticCode>) -> Diagnostic {
    Diagnostic {
        identity: identity.to_string(),
        rendered: rendered.to_string(),
        code,
        component: component.to_string(),
    }
}

#[test]
fn crate_name_takes_first_two_tokens() {
    assert_eq!(
        crate_name("serde 1.0.136 (registry+https://github.com/rust-lang/crates.io-index)"),
        "serde 1.0.136"
    );
    assert_eq!(crate_name("foo 0.1.0"), "foo 0.1.0");
    assert_eq!(crate_name("a  b"), "a ");
}

#[test]
fn safe_file_name_replaces_spaces_and_periods() {
    assert_eq!(crate_safe_file_name("foo 0.1.0"), "foo_0_1_0");
    assert_eq!(crate_safe_file_name("plain"), "plain");
}

#[test]
fn decimal_rendering() {
    assert_eq!(usize_to_dec(0), "0");
    assert_eq!(usize_to_dec(7), "7");
    assert_eq!(usize_to_dec(1234), "1234");
    assert_eq!(usize_to_dec(100), "100");
}

#[test]
fn file_names_are_deterministic() {
    assert_eq!(component_file_name("foo 0.1.0"), "foo_0_1_0.md");
    assert_eq!(detail_file_name("foo 0.1.0", 0), "0foo_0_1_0.md");
    assert_eq!(detail_file_name("foo 0.1.0", 12), "12foo_0_1_0.md");
    assert_ne!(detail_file_name("foo 0.1.0", 0), detail_file_name("foo 0.1.0", 1));
}

#[test]
fn strip_brackets_removes_literal_brackets() {
    assert_eq!(strip_brackets("error[E0308]: mismatched types"), "errorE0308: mismatched types");
    assert_eq!(strip_brackets("no brackets"), "no brackets");
}

#[test]
fn replace_all_rewrites_code_fences() {
    assert_eq!(replace_all("a\n\n```b", "\n\n```", "\n\n```rust"), "a\n\n```rustb");
    assert_eq!(replace_all("none here", "\n\n```", "\n\n```rust"), "none here");
    assert_eq!(
        replace_all("x\n\n```a\n\n```b", "\n\n```", "\n\n```rust"),
        "x\n\n```rusta\n\n```rustb"
    );
}

#[test]
fn resource_url_error_index_form() {
    let code = DiagnosticCode { code: "E0308".to_string(), explanation: None };
    assert_eq!(resource_url(&code), "https://doc.rust-lang.org/error-index.html#E0308");
}

#[test]
fn resource_url_search_form_for_lint_codes() {
    let code = DiagnosticCode { code: "unused_variables".to_string(), explanation: None };
    assert_eq!(resource_url(&code), "https://duckduckgo.com/?q=rust+unused_variables");
}

#[test]
fn resource_url_reuses_embedded_link() {
    let code = DiagnosticCode {
        code: "clippy::needless_return".to_string(),
        explanation: Some("see https://rust-lang.github.io/rust-clippy/ for details".to_string()),
    };
    assert_eq!(resource_url(&code), "https://rust-lang.github.io/rust-clippy/");
}

#[test]
fn scenario_zero_diagnostics() {
    let out = ingest_stream(&Vec::new()).unwrap();
    assert_eq!(out.len(), 0);
    let g: Grouping = group_diagnostics(&out);
    assert_eq!(g.component_count(), 0);
    assert_eq!(g.components.len(), 0);
    let tree = build_document_tree(&g);
    assert_eq!(tree.components.len(), 0);
}

#[test]
fn scenario_duplicate_identity_one_group() {
    let code = || Some(DiagnosticCode { code: "E0308".to_string(), explanation: None });
    let d1 = diag(
        "error[E0308]: mismatched types",
        "error[E0308]: mismatched types\n --> src/main.rs:2:9",
        "foo 0.1.0",
        code(),
    );
    let d2 = diag(
        "error[E0308]: mismatched types",
        "error[E0308]: mismatched types\n --> src/main.rs:7:1",
        "foo 0.1.0",
        code(),
    );
    let g = group_diagnostics(&vec![d1, d2]);
    assert_eq!(g.components.len(), 1);
    assert_eq!(g.components[0].key, "foo 0.1.0");
    assert_eq!(g.components[0].groups.len(), 1);
    assert_eq!(g.components[0].groups[0].identity, "error[E0308]: mismatched types");
    assert_eq!(g.components[0].groups[0].occurrences.len(), 2);
    let content = detail_content(&g.components[0].groups[0]);
    assert!(content.contains("https://doc.rust-lang.org/error-index.html#E0308"));
}

#[test]
fn scenario_same_identity_across_components_stays_split() {
    let d1 = diag("warning: dead code", "warning: dead code\n --> a", "foo 0.1.0", None);
    let d2 = diag("warning: dead code", "warning: dead code\n --> b", "bar 0.2.0", None);
    let g = group_diagnostics(&vec![d1, d2]);
    assert_eq!(g.components.len(), 2);
    assert_eq!(g.components[0].key, "bar 0.2.0");
    assert_eq!(g.components[1].key, "foo 0.1.0");
    assert_eq!(g.components[0].groups.len(), 1);
    assert_eq!(g.components[1].groups.len(), 1);
    assert_eq!(g.components[0].groups[0].occurrences.len(), 1);
    assert_eq!(g.components[1].groups[0].occurrences.len(), 1);
}

#[test]
fn scenario_noise_line_is_filtered() {
    let ev1 = RawEvent::Message {
        package_id: "foo 0.1.0 (path+file:///tmp/foo)".to_string(),
        rendered: Some("warning: 3 warnings emitted".to_string()),
        code: None,
    };
    let ev2 = RawEvent::Message {
        package_id: "bar 0.2.0 (path+file:///tmp/bar)".to_string(),
        rendered: Some("warning: 2 warnings emitted\nnote: more".to_string()),
        code: None,
    };
    let out = extract_all(&vec![ev1, ev2]).unwrap();
    assert_eq!(out.len(), 0);
    let g = group_diagnostics(&out);
    assert_eq!(g.component_count(), 0);
}

#[test]
fn scenario_lint_warning_gets_search_link() {
    let d = diag(
        "warning: unused variable",
        "warning: unused variable",
        "foo 0.1.0",
        Some(DiagnosticCode { code: "unused_variables".to_string(), explanation: None }),
    );
    let g = group_diagnostics(&vec![d]);
    let content = detail_content(&g.components[0].groups[0]);
    assert!(content.contains("https://duckduckgo.com/?q=rust+unused_variables"));
}

#[test]
fn extraction_errors() {
    let missing = RawEvent::Message {
        package_id: "foo 0.1.0".to_string(),
        rendered: None,
        code: None,
    };
    assert_eq!(extract_event(&missing).unwrap_err(), StreamError::MissingRenderedText);

    let empty_first_line = RawEvent::Message {
        package_id: "foo 0.1.0".to_string(),
        rendered: Some("\nerror: x".to_string()),
        code: None,
    };
    assert_eq!(extract_event(&empty_first_line).unwrap_err(), StreamError::EmptyIdentity);

    let bad_package = RawEvent::Message {
        package_id: "foo".to_string(),
        rendered: Some("error: x".to_string()),
        code: None,
    };
    assert_eq!(extract_event(&bad_package).unwrap_err(), StreamError::MalformedPackageId);
}

#[test]
fn extract_event_builds_diagnostic() {
    let ev = RawEvent::Message {
        package_id: "foo 0.1.0 (path+file:///tmp/foo)".to_string(),
        rendered: Some("error: broken\nmore context".to_string()),
        code: None,
    };
    let d = extract_event(&ev).unwrap().unwrap();
    assert_eq!(d.identity, "error: broken");
    assert_eq!(d.component, "foo 0.1.0");
    assert_eq!(d.rendered, "error: broken\nmore context");
}

#[test]
fn split_lines_drops_terminators() {
    let bytes: Vec<u8> = b"ab\nc\n\nd".to_vec();
    let lines = split_lines(&bytes);
    assert_eq!(lines.len(), 4);
    assert_eq!(lines[0], b"ab".to_vec());
    assert_eq!(lines[1], b"c".to_vec());
    assert_eq!(lines[2], Vec::<u8>::new());
    assert_eq!(lines[3], b"d".to_vec());
    assert_eq!(split_lines(&Vec::new()).len(), 0);
    assert_eq!(split_lines(&b"x\n".to_vec()).len(), 1);
}

#[test]
fn truncate_keeps_short_streams() {
    let bytes: Vec<u8> = b"hello".to_vec();
    assert_eq!(truncate_stream(&bytes), bytes);
}

#[test]
fn ingest_parses_real_compiler_message() {
    let line = "{\"reason\":\"compiler-message\",\"package_id\":\"foo 0.1.0 (path+file:///tmp/foo)\",\"target\":{\"name\":\"foo\",\"kind\":[\"bin\"],\"src_path\":\"/tmp/foo/src/main.rs\"},\"message\":{\"message\":\"mismatched types\",\"code\":{\"code\":\"E0308\",\"explanation\":null},\"level\":\"error\",\"spans\":[],\"children\":[],\"rendered\":\"error[E0308]: mismatched types\\n --> src/main.rs:2:9\"}}";
    let out = ingest_stream(&line.as_bytes().to_vec()).unwrap();
    assert_eq!(out.len(), 1);
    assert_eq!(out[0].identity, "error[E0308]: mismatched types");
    assert_eq!(out[0].component, "foo 0.1.0");
    assert_eq!(out[0].code.as_ref().unwrap().code, "E0308");
}

#[test]
fn ingest_tolerates_other_record_kinds() {
    let line = "{\"reason\":\"build-finished\",\"success\":true}";
    let out = ingest_stream(&line.as_bytes().to_vec()).unwrap();
    assert_eq!(out.len(), 0);
}

#[test]
fn ingest_rejects_undecodable_record() {
    let bytes: Vec<u8> = vec![0xff, 0xfe, 0x0a];
    assert_eq!(ingest_stream(&bytes).unwrap_err(), StreamError::MalformedRecord);
}

#[test]
fn document_tree_counts_and_contents() {
    let d = diag(
        "warning: unused variable: `x`",
        "warning: unused variable: `x`\n --> src/main.rs:2:9",
        "foo 0.1.0",
        None,
    );
    let g = group_diagnostics(&vec![d]);
    let tree = build_document_tree(&g);
    assert_eq!(tree.components.len(), 1);
    assert_eq!(tree.components[0].key, "foo 0.1.0");
    assert_eq!(tree.components[0].file_name, "foo_0_1_0.md");
    assert_eq!(tree.components[0].details.len(), 1);
    assert_eq!(tree.components[0].details[0].file_name, "0foo_0_1_0.md");
    assert_eq!(
        tree.components[0].details[0].content,
        "# warning: unused variable: `x`\n```rust,noplaypen\nwarning: unused variable: `x`\n --> src/main.rs:2:9\n```\n\n\n"
    );
    assert_eq!(
        tree.components[0].content,
        "# foo 0.1.0\n   - [warning: unused variable: `x` 1](0foo_0_1_0.md)"
    );
    assert_eq!(
        tree.summary,
        "\n    # Summary\n\n    \n   - [foo 0.1.0](foo_0_1_0.md)\n      - [warning: unused variable: `x`](0foo_0_1_0.md)"
    );
    assert!(tree.manifest.contains("[book]"));
}

#[test]
fn detail_page_appends_explanation_and_link() {
    let d = diag(
        "error[E0308]: mismatched types",
        "error[E0308]: mismatched types",
        "foo 0.1.0",
        Some(DiagnosticCode {
            code: "E0308".to_string(),
            explanation: Some("Expected type did not match.".to_string()),
        }),
    );
    let g = group_diagnostics(&vec![d]);
    let content = detail_content(&g.components[0].groups[0]);
    assert_eq!(
        content,
        "# error[E0308]: mismatched types\n```rust,noplaypen\nerror[E0308]: mismatched types\n```\n\n\n\n## Explanation:\nExpected type did not match.\n\n( [Explain E0308 to me](https://doc.rust-lang.org/error-index.html#E0308) )\n\n"
    );
}

#[test]
fn summary_lists_components_in_key_order() {
    let d1 = diag("e1", "e1\nx", "zed 1.0.0", None);
    let d2 = diag("e2", "e2\nx", "alpha 2.0.0", None);
    let g = group_diagnostics(&vec![d1, d2]);
    let s = summary_page(&g.components);
    let alpha_at = s.find("alpha 2.0.0").unwrap();
    let zed_at = s.find("zed 1.0.0").unwrap();
    assert!(alpha_at < zed_at);
}

#[test]
fn groups_sorted_by_identity_within_component() {
    let d1 = diag("warning: b", "warning: b\nx", "foo 0.1.0", None);
    let d2 = diag("error: a", "error: a\nx", "foo 0.1.0", None);
    let d3 = diag("warning: b", "warning: b\ny", "foo 0.1.0", None);
    let g = group_diagnostics(&vec![d1, d2, d3]);
    assert_eq!(g.components.len(), 1);
    assert_eq!(g.components[0].groups.len(), 2);
    assert_eq!(g.components[0].groups[0].identity, "error: a");
    assert_eq!(g.components[0].groups[1].identity, "warning: b");
    assert_eq!(g.components[0].groups[1].occurrences.len(), 2);
    assert_eq!(g.components[0].groups[1].occurrences[0].rendered, "warning: b\nx");
    assert_eq!(g.components[0].groups[1].occurrences[1].rendered, "warning: b\ny");
}

#[test]
fn grouping_is_order_insensitive() {
    let mk = || {
        vec![
            diag("w: one", "w: one\na", "foo 0.1.0", None),
            diag("w: two", "w: two\nb", "foo 0.1.0", None),
            diag("w: one", "w: one\nc", "bar 0.2.0", None),
        ]
    };
    let forward = mk();
    let mut backward = mk();
    backward.reverse();
    let g1 = group_diagnostics(&forward);
    let g2 = group_diagnostics(&backward);
    assert_eq!(g1.components.len(), g2.components.len());
    for (c1, c2) in g1.components.iter().zip(g2.components.iter()) {
        assert_eq!(c1.key, c2.key);
        assert_eq!(c1.groups.len(), c2.groups.len());
        for (a, b) in c1.groups.iter().zip(c2.groups.iter()) {
            assert_eq!(a.identity, b.identity);
            assert_eq!(a.occurrences.len(), b.occurrences.len());
        }
    }
}
