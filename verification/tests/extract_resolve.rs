use header_cycle_checker::extract::{extract_targets, is_directive_line, target_of_line};
use header_cycle_checker::resolve::{candidates, dirname, join_path, resolve_target};

fn chars(s: &str) -> Vec<char> {
    s.chars().collect()
}

fn string_of(v: &Vec<char>) -> String {
    v.iter().collect()
}

/// A line starting with the quoted-form directive keyword, followed by `rest`.
fn dir_line(rest: &str) -> Vec<char> {
    let mut v = vec!['#', 'i', 'n', 'c', 'l', 'u', 'd', 'e'];
    v.extend(rest.chars());
    v
}

#[test]
fn directive_line_recognised() {
    assert!(is_directive_line(&dir_line(" \"a.h\"")));
    assert!(is_directive_line(&dir_line("\"a.h\"")));
    assert!(!is_directive_line(&chars("int x = 0;")));
    assert!(!is_directive_line(&chars("")));
    assert!(!is_directive_line(&chars("#pragma once")));
}

#[test]
fn angle_bracket_line_rejected() {
    assert!(!is_directive_line(&dir_line(" <stdio.h>")));
}

#[test]
fn target_is_second_token_without_quotes() {
    assert_eq!(string_of(&target_of_line(&dir_line(" \"a.h\""))), "a.h");
    assert_eq!(string_of(&target_of_line(&dir_line("  \"a.h\"  trailing"))), "a.h");
}

#[test]
fn target_separators_normalised() {
    assert_eq!(string_of(&target_of_line(&dir_line(" \"sub\\x.h\""))), "sub/x.h");
}

#[test]
fn malformed_line_gives_no_target() {
    // No token after the directive keyword: nothing to extract.
    assert_eq!(string_of(&target_of_line(&dir_line(""))), "");
    let lines = vec![dir_line("")];
    assert_eq!(extract_targets(&lines).len(), 0);
}

#[test]
fn targets_in_file_order_skipping_other_lines() {
    let lines = vec![
        chars("// header"),
        dir_line(" \"b.h\""),
        dir_line(" <system.h>"),
        chars("int x;"),
        dir_line(" \"c.h\""),
    ];
    let ts = extract_targets(&lines);
    assert_eq!(ts.len(), 2);
    assert_eq!(string_of(&ts[0]), "b.h");
    assert_eq!(string_of(&ts[1]), "c.h");
}

#[test]
fn carriage_return_is_trimmed_from_target() {
    // A line read from a file with Windows line endings keeps no `\r`.
    assert_eq!(string_of(&target_of_line(&dir_line(" \"a.h\"\r"))), "a.h");
}

#[test]
fn tab_separates_directive_and_target() {
    assert_eq!(string_of(&target_of_line(&dir_line("\t\"a.h\""))), "a.h");
}

#[test]
fn dirname_keeps_trailing_separator() {
    assert_eq!(string_of(&dirname(&chars("src/sub/a.h"))), "src/sub/");
    assert_eq!(string_of(&dirname(&chars("a.h"))), "");
}

#[test]
fn join_inserts_single_separator() {
    assert_eq!(string_of(&join_path(&chars("r"), &chars("b.h"))), "r/b.h");
    assert_eq!(string_of(&join_path(&chars("r/"), &chars("b.h"))), "r/b.h");
    assert_eq!(string_of(&join_path(&chars(""), &chars("b.h"))), "b.h");
}

#[test]
fn candidate_order_same_dir_then_roots() {
    let cs = candidates(&chars("src/a.h"), &chars("b.h"), &vec![chars("r1"), chars("r2")]);
    let got: Vec<String> = cs.iter().map(string_of).collect();
    assert_eq!(got, vec!["src/b.h", "r1/b.h", "r2/b.h"]);
}

#[test]
fn same_directory_wins_over_roots() {
    let existing = vec![chars("src/b.h"), chars("r1/b.h")];
    let r = resolve_target(&chars("src/a.h"), &chars("b.h"), &vec![chars("r1")], &existing);
    assert_eq!(string_of(&r.unwrap()), "src/b.h");
}

#[test]
fn earliest_root_wins() {
    let existing = vec![chars("r2/b.h"), chars("r1/b.h")];
    let roots = vec![chars("r1"), chars("r2")];
    let r = resolve_target(&chars("x/a.h"), &chars("b.h"), &roots, &existing);
    assert_eq!(string_of(&r.unwrap()), "r1/b.h");
    let swapped = vec![chars("r2"), chars("r1")];
    let r2 = resolve_target(&chars("x/a.h"), &chars("b.h"), &swapped, &existing);
    assert_eq!(string_of(&r2.unwrap()), "r2/b.h");
}

#[test]
fn dangling_reference_resolves_to_nothing() {
    let existing = vec![chars("src/a.h")];
    let r = resolve_target(&chars("src/a.h"), &chars("missing.h"), &vec![chars("r1")], &existing);
    assert!(r.is_none());
}
