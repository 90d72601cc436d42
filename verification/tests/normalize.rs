use logseq_doctor::{normalize_line, remove_consecutive_spaces};

fn norm(s: &str) -> String {
    remove_consecutive_spaces(s.to_string()).unwrap()
}

#[test]
fn plain_line_untouched() {
    assert_eq!(norm("    abc   123     def  "), "    abc   123     def  ");
}

#[test]
fn indented_list_lines() {
    assert_eq!(norm("\n  - abc  123\n    - def   4  5 "), "\n  - abc 123\n    - def 4 5 ");
}

#[test]
fn dash_without_space_and_mixed_lines() {
    assert_eq!(
        norm("   -This   is   a  test\n   Another  test\n-  Dash  line  here"),
        "   -This is a test\n   Another  test\n- Dash line here"
    );
}

#[test]
fn spaces_after_dash_collapse_too() {
    assert_eq!(
        norm("    -   This   is   a  test\n   Another  test\n-  Dash  line  here   with   extra  spaces"),
        "    - This is a test\n   Another  test\n- Dash line here with extra spaces"
    );
}

#[test]
fn empty_input() {
    assert_eq!(norm(""), "");
}

#[test]
fn never_fails() {
    assert!(remove_consecutive_spaces("-  a\nb".to_string()).is_ok());
    assert!(remove_consecutive_spaces(String::new()).is_ok());
}

#[test]
fn trailing_newline_kept() {
    assert_eq!(norm("- a  b\n"), "- a b\n");
}

#[test]
fn carriage_return_is_an_ordinary_character() {
    assert_eq!(norm("- a  b\r\n- c  d"), "- a b\r\n- c d");
}

#[test]
fn tabs_are_not_collapsed() {
    assert_eq!(norm("\t- a\t\tb  c"), "\t- a\t\tb c");
    assert_eq!(norm("-\t\t a  b"), "-\t\t a b");
}

#[test]
fn dash_later_in_line_leaves_it_alone() {
    assert_eq!(norm("a  -  b"), "a  -  b");
}

#[test]
fn single_spaces_never_touched() {
    assert_eq!(norm("- a b c"), "- a b c");
}

#[test]
fn whitespace_only_line_is_plain() {
    assert_eq!(norm("   "), "   ");
}

#[test]
fn lone_dash() {
    assert_eq!(norm("-"), "-");
    assert_eq!(norm("-   "), "- ");
}

#[test]
fn blank_lines_survive() {
    assert_eq!(norm("- a  b\n\n- c  d"), "- a b\n\n- c d");
}

#[test]
fn unicode_content_is_kept() {
    assert_eq!(norm("  - caf\u{e9}   au  lait"), "  - caf\u{e9} au lait");
}

#[test]
fn unicode_whitespace_counts_as_indentation() {
    assert_eq!(norm("\u{a0}- a  b"), "\u{a0}- a b");
}

#[test]
fn normalizing_twice_changes_nothing_more() {
    let once = norm("  -  a   b\nplain  line\n-  c");
    assert_eq!(norm(&once), once);
}

#[test]
fn single_line_helper_matches() {
    assert_eq!(normalize_line("  - a  b"), "  - a b");
    assert_eq!(normalize_line("plain  text"), "plain  text");
}
