use header_cycle_checker::cycle::{detect_cycle, find_cycles, traverse_graph, CycleReport};
use header_cycle_checker::graph::{all_candidates, build_graph, SourceFile};

fn chars(s: &str) -> Vec<char> {
    s.chars().collect()
}

fn string_of(v: &Vec<char>) -> String {
    v.iter().collect()
}

fn strings_of(vs: &Vec<Vec<char>>) -> Vec<String> {
    vs.iter().map(string_of).collect()
}

/// A line starting with the quoted-form directive keyword, followed by `rest`.
fn dir_line(rest: &str) -> Vec<char> {
    let mut v = vec!['#', 'i', 'n', 'c', 'l', 'u', 'd', 'e'];
    v.extend(rest.chars());
    v
}

fn file(path: &str, targets: &[&str]) -> SourceFile {
    let lines = targets.iter().map(|t| dir_line(&format!(" \"{}\"", t))).collect();
    SourceFile { path: chars(path), lines }
}

fn report_strings(rs: &Vec<CycleReport>) -> Vec<(String, Vec<String>)> {
    rs.iter().map(|r| (string_of(&r.root), strings_of(&r.path))).collect()
}

#[test]
fn self_cycle_reported_as_one_node_cycle() {
    let files = vec![file("a.h", &["a.h"])];
    let existing = vec![chars("a.h")];
    let rs = find_cycles(&files, &vec![], &existing);
    assert_eq!(
        report_strings(&rs),
        vec![("a.h".to_string(), vec!["a.h".to_string(), "a.h".to_string()])]
    );
}

#[test]
fn two_file_cycle_reported_from_both_roots() {
    let files = vec![file("src/a.h", &["b.h"]), file("src/b.h", &["a.h"])];
    let existing = vec![chars("src/a.h"), chars("src/b.h")];
    let rs = find_cycles(&files, &vec![], &existing);
    assert_eq!(
        report_strings(&rs),
        vec![
            (
                "src/a.h".to_string(),
                vec!["src/a.h".to_string(), "src/b.h".to_string(), "src/a.h".to_string()],
            ),
            (
                "src/b.h".to_string(),
                vec!["src/b.h".to_string(), "src/a.h".to_string(), "src/b.h".to_string()],
            ),
        ]
    );
}

#[test]
fn chain_without_cycle_reports_nothing() {
    let files = vec![
        file("d/a.h", &["b.h"]),
        file("d/b.h", &["c.h"]),
        file("d/c.h", &[]),
    ];
    let existing = vec![chars("d/a.h"), chars("d/b.h"), chars("d/c.h")];
    let rs = find_cycles(&files, &vec![], &existing);
    assert_eq!(rs.len(), 0);
}

#[test]
fn dangling_reference_is_silently_dropped() {
    let files = vec![file("a.h", &["missing.h"])];
    let existing = vec![chars("a.h")];
    let g = build_graph(&files, &vec![], &existing);
    let hs = g.get_headers(&chars("a.h")).expect("a.h has a record");
    assert_eq!(hs.len(), 0);
    let rs = find_cycles(&files, &vec![], &existing);
    assert_eq!(rs.len(), 0);
}

#[test]
fn angle_bracket_reference_gains_no_edge() {
    let lines = vec![dir_line(" <stdio.h>")];
    let files = vec![SourceFile { path: chars("a.h"), lines }];
    // Even with a matching file present, the angle form contributes nothing.
    let existing = vec![chars("a.h"), chars("stdio.h")];
    let g = build_graph(&files, &vec![], &existing);
    let hs = g.get_headers(&chars("a.h")).expect("a.h has a record");
    assert_eq!(hs.len(), 0);
}

#[test]
fn detection_is_idempotent() {
    let files = vec![
        file("a.h", &["b.h", "a.h"]),
        file("b.h", &["c.h"]),
        file("c.h", &["a.h"]),
    ];
    let existing = vec![chars("a.h"), chars("b.h"), chars("c.h")];
    let first = report_strings(&find_cycles(&files, &vec![], &existing));
    let second = report_strings(&find_cycles(&files, &vec![], &existing));
    assert_eq!(first, second);
    assert!(first.len() > 0);
}

#[test]
fn search_root_fallback_builds_edge() {
    // b.h is not beside a.h; it is found under the first configured root.
    let files = vec![file("x/a.h", &["b.h"])];
    let roots = vec![chars("r1"), chars("r2")];
    let existing = vec![chars("x/a.h"), chars("r1/b.h"), chars("r2/b.h")];
    let g = build_graph(&files, &roots, &existing);
    let hs = g.get_headers(&chars("x/a.h")).expect("x/a.h has a record");
    assert_eq!(strings_of(hs), vec!["r1/b.h"]);
}

#[test]
fn record_keeps_directive_order() {
    let files = vec![file("d/a.h", &["b.h", "c.h"]), file("d/b.h", &[]), file("d/c.h", &[])];
    let existing = vec![chars("d/a.h"), chars("d/b.h"), chars("d/c.h")];
    let g = build_graph(&files, &vec![], &existing);
    let hs = g.get_headers(&chars("d/a.h")).expect("d/a.h has a record");
    assert_eq!(strings_of(hs), vec!["d/b.h", "d/c.h"]);
}

#[test]
fn missing_record_means_no_edges() {
    let files = vec![file("a.h", &["b.h"]), file("b.h", &[])];
    let existing = vec![chars("a.h"), chars("b.h")];
    let g = build_graph(&files, &vec![], &existing);
    assert!(g.get_headers(&chars("c.h")).is_none());
}

#[test]
fn isolated_file_is_not_a_cycle() {
    let files = vec![file("a.h", &[])];
    let existing = vec![chars("a.h")];
    let g = build_graph(&files, &vec![], &existing);
    assert!(detect_cycle(&g, &chars("a.h")).is_none());
}

#[test]
fn traversal_records_visit_order() {
    let files = vec![
        file("a.h", &["b.h", "c.h"]),
        file("b.h", &[]),
        file("c.h", &[]),
    ];
    let existing = vec![chars("a.h"), chars("b.h"), chars("c.h")];
    let g = build_graph(&files, &vec![], &existing);
    let mut visited: Vec<Vec<char>> = Vec::new();
    let found = traverse_graph(&g, &chars("a.h"), &mut visited);
    assert!(!found);
    assert_eq!(strings_of(&visited), vec!["a.h", "b.h", "c.h"]);
}

#[test]
fn first_cycle_per_root_is_reported() {
    // Two independent cycles from a.h: through b.h (first directive) and
    // through c.h. Only the first is reported.
    let files = vec![
        file("a.h", &["b.h", "c.h"]),
        file("b.h", &["a.h"]),
        file("c.h", &["a.h"]),
    ];
    let existing = vec![chars("a.h"), chars("b.h"), chars("c.h")];
    let g = build_graph(&files, &vec![], &existing);
    let p = detect_cycle(&g, &chars("a.h")).expect("cycle through a.h");
    assert_eq!(strings_of(&p), vec!["a.h", "b.h", "a.h"]);
}

#[test]
fn candidate_listing_covers_all_references() {
    let files = vec![file("x/a.h", &["b.h"])];
    let roots = vec![chars("r1"), chars("r2")];
    let cs = all_candidates(&files, &roots);
    let got: Vec<String> = cs.iter().map(string_of).collect();
    assert_eq!(got, vec!["x/b.h", "r1/b.h", "r2/b.h"]);
}
