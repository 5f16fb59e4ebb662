use makegraph::emitter::render_dot_graph;
use makegraph::parser::{parse_make_p, Record};
use makegraph::text::{dec_string, escape};

const PREAMBLE: &str = "digraph G {\n        graph [\n        rankdir=LR,\n    ]\n\n    node [\n        shape=box,\n        style=solid,\n        margin=\"0.3,0.1\",\n    ]\n\n    edge [\n        color=\"#00000088\",\n        dir=back,\n        penwidth=1.2,\n        minlen=1    \n    ]\n    subgraph cluster1{\n";

fn as_lines(v: &[&str]) -> Vec<String> {
    v.iter().map(|s| s.to_string()).collect()
}

fn record(target: &str, prereqs: &[&str]) -> Record {
    Record { target: target.to_string(), prereqs: prereqs.iter().map(|s| s.to_string()).collect() }
}

#[test]
fn escape_leaves_plain_names_unchanged() {
    assert_eq!(escape("abc"), "abc");
    assert_eq!(escape(""), "");
}

#[test]
fn escape_replaces_one_quote_with_one_escaped_quote() {
    assert_eq!(escape("a\"b"), "a\\\"b");
    assert_eq!(escape("\""), "\\\"");
}

#[test]
fn escape_replaces_every_quote() {
    assert_eq!(escape("\"a\""), "\\\"a\\\"");
}

#[test]
fn decimal_rendering_is_exact() {
    assert_eq!(dec_string(0), "0");
    assert_eq!(dec_string(2), "2");
    assert_eq!(dec_string(10), "10");
    assert_eq!(dec_string(20571), "20571");
}

#[test]
fn end_to_end_single_record() {
    let input = as_lines(&[
        "# Make data base, printed on X",
        "# Files",
        "a: b c",
        "# files hash-table stats:",
    ]);
    let recs = parse_make_p(&input).unwrap();
    let out = render_dot_graph(&recs);
    let expected = format!(
        "{}{}",
        PREAMBLE,
        "n2[label=\"a\"]\nn3[label=\"b\", style = \"solid,filled\"]\nn2 -> n3\nn4[label=\"c\", style = \"solid,filled\"]\nn2 -> n4\n}\n}\n"
    );
    assert_eq!(out, expected);
}

#[test]
fn prerequisite_that_is_also_a_target_is_plain() {
    let input = as_lines(&["# Make data base, printed on X", "# Files", "a: b", "b: c"]);
    let recs = parse_make_p(&input).unwrap();
    let out = render_dot_graph(&recs);
    assert!(out.contains("n3[label=\"b\"]\n"));
    assert!(!out.contains("n3[label=\"b\", style"));
    assert!(out.contains("n4[label=\"c\", style = \"solid,filled\"]\n"));
    assert!(out.contains("n2 -> n3\n"));
    assert!(out.contains("n3 -> n4\n"));
}

#[test]
fn pure_leaf_is_always_filled() {
    let recs = vec![record("a", &["leaf"]), record("b", &["leaf"])];
    let out = render_dot_graph(&recs);
    assert_eq!(out.matches("[label=\"leaf\"").count(), 1);
    assert!(out.contains("n3[label=\"leaf\", style = \"solid,filled\"]\n"));
}

#[test]
fn each_distinct_name_gets_one_declaration() {
    let recs = vec![record("a", &["b", "b"]), record("a", &["c", "b"])];
    let out = render_dot_graph(&recs);
    assert_eq!(out.matches("[label=\"a\"").count(), 1);
    assert_eq!(out.matches("[label=\"b\"").count(), 1);
    assert_eq!(out.matches("[label=\"c\"").count(), 1);
}

#[test]
fn identifiers_follow_first_occurrence_order() {
    let recs = vec![record("a", &["c"]), record("b", &["a", "d"])];
    let out = render_dot_graph(&recs);
    assert!(out.contains("n2[label=\"a\"]\n"));
    assert!(out.contains("n3[label=\"c\", style = \"solid,filled\"]\n"));
    assert!(out.contains("n4[label=\"b\"]\n"));
    assert!(out.contains("n5[label=\"d\", style = \"solid,filled\"]\n"));
}

#[test]
fn repeated_edges_are_emitted_per_record() {
    let recs = vec![record("a", &["b"]), record("a", &["b"])];
    let out = render_dot_graph(&recs);
    assert_eq!(out.matches("n2 -> n3\n").count(), 2);
}

#[test]
fn quoted_name_is_escaped_in_label() {
    let recs = vec![record("a\"b", &[])];
    let out = render_dot_graph(&recs);
    assert!(out.contains("n2[label=\"a\\\"b\"]\n"));
}

#[test]
fn empty_record_list_renders_only_frame() {
    let recs: Vec<Record> = Vec::new();
    let out = render_dot_graph(&recs);
    assert_eq!(out, format!("{}{}", PREAMBLE, "}\n}\n"));
}

#[test]
fn output_starts_with_preamble_and_ends_with_closing() {
    let recs = vec![record("a", &["b"])];
    let out = render_dot_graph(&recs);
    assert!(out.starts_with(PREAMBLE));
    assert!(out.ends_with("}\n}\n"));
}

#[test]
fn target_with_no_prerequisites_still_gets_a_node() {
    let input = as_lines(&["# Make data base, printed on X", "# Files", "solo:"]);
    let recs = parse_make_p(&input).unwrap();
    let out = render_dot_graph(&recs);
    assert!(out.contains("n2[label=\"solo\"]\n"));
    assert!(!out.contains("->"));
}
