use slide_flow::headings::number_headings;

fn lines(v: &[&str]) -> Vec<String> {
    v.iter().map(|s| s.to_string()).collect()
}

#[test]
fn adjacent_titles_are_numbered() {
    let input = lines(&["# Intro", "a", "---", "# Intro", "b", "---", "# Conclusion"]);
    let (out, toc) = number_headings(&input, "# ");
    assert_eq!(
        out,
        lines(&["# Intro (1/2)", "a", "---", "# Intro (2/2)", "b", "---", "# Conclusion", ""])
    );
    assert_eq!(toc, "1. Intro\n1. Conclusion\n");
}

#[test]
fn old_markers_are_replaced() {
    let input = lines(&["# A (1/3)", "# A (2/3)", "# A"]);
    let (out, toc) = number_headings(&input, "# ");
    assert_eq!(out, lines(&["# A (1/3)", "# A (2/3)", "# A (3/3)", ""]));
    assert_eq!(toc, "1. A\n");
}

#[test]
fn lone_marker_is_removed() {
    let input = lines(&["# A (2/2)", "# B"]);
    let (out, toc) = number_headings(&input, "# ");
    assert_eq!(out, lines(&["# A", "# B", ""]));
    assert_eq!(toc, "1. A\n1. B\n");
}

#[test]
fn titles_apart_start_new_runs() {
    let input = lines(&["# A", "# B", "# A"]);
    let (out, toc) = number_headings(&input, "# ");
    assert_eq!(out, lines(&["# A", "# B", "# A", ""]));
    assert_eq!(toc, "1. A\n1. B\n1. A\n");
}

#[test]
fn other_prefix_and_malformed_marker() {
    let input = lines(&["## T (a/2)", "# not", "## T (a/2)"]);
    let (out, toc) = number_headings(&input, "##");
    assert_eq!(out, lines(&["## T (a/2) (1/2)", "# not", "## T (a/2) (2/2)", ""]));
    assert_eq!(toc, "1. T (a/2)\n");
}

#[test]
fn no_lines() {
    let (out, toc) = number_headings(&Vec::new(), "# ");
    assert_eq!(out, lines(&[""]));
    assert_eq!(toc, "");
}

#[test]
fn marker_followed_by_space_is_kept() {
    let input = lines(&["# A (1/3) ", "# A (1/3)"]);
    let (out, toc) = number_headings(&input, "# ");
    assert_eq!(out, lines(&["# A (1/3)", "# A", ""]));
    assert_eq!(toc, "1. A (1/3)\n1. A\n");
}

#[test]
fn marker_with_other_decimal_digits_is_removed() {
    let input = lines(&["# A (\u{661}/\u{662})", "# B (\u{bd}/2)"]);
    let (out, toc) = number_headings(&input, "# ");
    assert_eq!(out, lines(&["# A", "# B (\u{bd}/2)", ""]));
    assert_eq!(toc, "1. A\n1. B (\u{bd}/2)\n");
}
