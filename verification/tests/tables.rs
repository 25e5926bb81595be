use typoena::tables::{
    format_markdown, format_table, is_separator_row, pad_cell, table_block_len, table_cells, Align,
};

fn strings(v: &[&str]) -> Vec<String> {
    v.iter().map(|s| s.to_string()).collect()
}

#[test]
fn pad_cell_pads_per_alignment() {
    assert_eq!(pad_cell("ab", 5, Align::Right), "   ab");
    assert_eq!(pad_cell("ab", 5, Align::Center), " ab  ");
    assert_eq!(pad_cell("ab", 5, Align::Left), "ab   ");
    assert_eq!(pad_cell("ab", 5, Align::Plain), "ab   ");
    assert_eq!(pad_cell("abcdef", 3, Align::Right), "abcdef");
    assert_eq!(pad_cell("é", 3, Align::Right), "  é");
}

#[test]
fn table_cells_trim_and_drop_outer_pipes() {
    assert_eq!(table_cells("| a | b |"), vec!["a", "b"]);
    assert_eq!(table_cells("a|b"), vec!["a", "b"]);
    assert_eq!(table_cells("  | a ||  c  "), vec!["a", "", "c"]);
    assert_eq!(table_cells("|"), vec![""]);
}

#[test]
fn separator_rows_are_dashes_and_colons() {
    assert!(is_separator_row("|---|:-:|"));
    assert!(is_separator_row("| :-- | --: |"));
    assert!(!is_separator_row("| a |"));
    assert!(!is_separator_row("---"));
    assert!(!is_separator_row("|--x|"));
    assert!(!is_separator_row("|::|"));
    assert!(!is_separator_row("||"));
}

#[test]
fn table_block_runs_to_the_first_non_table_line() {
    let ls = strings(&["| a | b |", "|---|---|", "| 1 | 2 |", "", "x"]);
    assert_eq!(table_block_len(&ls), Some(3));
    assert_eq!(table_block_len(&strings(&["a", "---"])), None);
    assert_eq!(table_block_len(&strings(&["| a |", "| b |"])), None);
    assert_eq!(table_block_len(&strings(&["| a |"])), None);
}

#[test]
fn format_table_pads_columns_and_rebuilds_the_separator() {
    let block = strings(&["| a | b |", "|:-|-:|", "| long cell | x |"]);
    assert_eq!(
        format_table(&block),
        vec!["| a         |   b |", "| :-------- | --: |", "| long cell |   x |"]
    );
    let centered = strings(&["|h|", "|:-:|", "|x|"]);
    assert_eq!(format_table(&centered), vec!["|  h  |", "| :-: |", "|  x  |"]);
}

#[test]
fn format_markdown_strips_collapses_and_aligns() {
    assert_eq!(format_markdown("a  \n\n\n\nb"), "a\n\nb");
    assert_eq!(
        format_markdown("| a | b |\n|---|---|\n| 1 | 2 |"),
        "| a   | b   |\n| --- | --- |\n| 1   | 2   |"
    );
    assert_eq!(format_markdown(""), "");
    assert_eq!(format_markdown("\n\n"), "");
}

#[test]
fn format_markdown_never_leaves_two_blank_lines_in_a_row() {
    let out = format_markdown("x\n \n\t\n\ny\n\n\n|a|\n|-|\n\n\n");
    let lines: Vec<&str> = out.split('\n').collect();
    for pair in lines.windows(2) {
        assert!(!(pair[0].is_empty() && pair[1].is_empty()), "{out:?}");
    }
    assert_eq!(out, "x\n\ny\n\n| a   |\n| --- |\n");
}

#[test]
fn formatting_prose_twice_changes_nothing_and_strips_line_ends() {
    let text = "a  \n\n\n\nb\t\n  c  \n\n";
    let once = format_markdown(text);
    assert_eq!(format_markdown(&once), once);
    assert!(once.lines().all(|l| l == l.trim_end()));
    let kept: Vec<&str> = once.lines().filter(|l| !l.is_empty()).collect();
    assert_eq!(kept, vec!["a", "b", "  c"]);
}

#[test]
fn table_rows_end_in_a_pipe() {
    let out = format_markdown("| a | b |\n|---|---|\n| 1 | 22 |   ");
    assert!(out.lines().all(|l| l.ends_with('|')));
}
