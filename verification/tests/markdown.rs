use typoena::markdown::{
    continuation_marker, first_heading, link_spans, link_target_at, publish_retarget_links,
};

#[test]
fn first_heading_finds_the_first_titled_atx_line() {
    assert_eq!(first_heading("intro\n## Title here  \nmore"), Some("Title here"));
    assert_eq!(first_heading("#nospace\ntext"), None);
    assert_eq!(first_heading("# \n# Real"), Some("Real"));
    assert_eq!(first_heading("# Été\r\n"), Some("Été"));
    assert_eq!(first_heading(""), None);
}

#[test]
fn continuation_marker_continues_lists_and_quotes() {
    assert_eq!(continuation_marker("- item"), Some(("- ".to_string(), 2, false)));
    assert_eq!(continuation_marker("  * "), Some(("  * ".to_string(), 4, true)));
    assert_eq!(continuation_marker("+ x"), Some(("+ ".to_string(), 2, false)));
    assert_eq!(continuation_marker("3. x"), Some(("4. ".to_string(), 3, false)));
    assert_eq!(continuation_marker("  9. "), Some(("  10. ".to_string(), 5, true)));
    assert_eq!(continuation_marker("> > q"), Some(("> > ".to_string(), 4, false)));
    assert_eq!(continuation_marker(">"), Some(("> ".to_string(), 1, true)));
    assert_eq!(continuation_marker(">>x"), Some(("> > ".to_string(), 2, false)));
    assert_eq!(continuation_marker("plain"), None);
    assert_eq!(continuation_marker("10.x"), None);
    assert_eq!(continuation_marker("-item"), None);
}

#[test]
fn an_unparseable_item_number_restarts_at_one() {
    // Digits beyond `usize` parse to nothing, which counts as 0.
    assert_eq!(
        continuation_marker("99999999999999999999999. x"),
        Some(("1. ".to_string(), 25, false))
    );
}

#[test]
fn link_spans_report_byte_offsets() {
    assert_eq!(link_spans("see [a](b) and [c](d)"), vec![(4, 8, 9), (15, 19, 20)]);
    assert_eq!(link_spans("é [a](b)"), vec![(3, 7, 8)]);
    assert_eq!(link_spans("[a] (b)"), vec![]);
    assert_eq!(link_spans("[a](b"), vec![]);
    assert_eq!(link_spans("[x [a](b)"), vec![(0, 7, 8)]);
}

#[test]
fn link_target_at_needs_the_caret_inside_the_span() {
    assert_eq!(link_target_at("see [a](b) x", 4), Some("b"));
    assert_eq!(link_target_at("see [a](b) x", 9), Some("b"));
    assert_eq!(link_target_at("see [a](b) x", 10), None);
    assert_eq!(link_target_at("see [a](b) x", 3), None);
    assert_eq!(link_target_at("[t](é.md)", 0), Some("é.md"));
}

#[test]
fn publish_retargets_only_links_to_the_published_file() {
    let (out, sites) = publish_retarget_links(
        "/sd/repo/a.md",
        "see [n](notes.md) and [m](other.md)\n[x](./notes.md#frag)",
        "/sd/repo/notes.md",
    )
    .unwrap();
    assert_eq!(out, "see [n](notes.pub.md) and [m](other.md)\n[x](./notes.pub.md#frag)");
    assert_eq!(sites, vec![13, 47]);
}

#[test]
fn publish_unwraps_angle_brackets_and_skips_external_links() {
    let (out, sites) =
        publish_retarget_links("/sd/repo/a.md", "[n](<notes.md>)", "/sd/repo/notes.md").unwrap();
    assert_eq!(out, "[n](<notes.pub.md>)");
    assert_eq!(sites, vec![10]);
    assert_eq!(
        publish_retarget_links("/sd/repo/a.md", "[x](https://e.com/notes.md)", "/sd/repo/notes.md"),
        None
    );
    assert_eq!(publish_retarget_links("/sd/repo/a.md", "no links", "/sd/repo/notes.md"), None);
}

#[test]
fn publish_reports_byte_offsets_past_multibyte_text() {
    let (out, sites) =
        publish_retarget_links("/sd/local/j.md", "é\n[n](../repo/n.md)", "/sd/repo/n.md").unwrap();
    assert_eq!(out, "é\n[n](../repo/n.pub.md)");
    // "é\n" is three bytes; the link's `.md` starts 13 bytes into its line.
    assert_eq!(sites, vec![3 + 13]);
}
