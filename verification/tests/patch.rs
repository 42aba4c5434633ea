use git_ignore::defs::{END_MARKER_PREFIX, START_MARKER_PREFIX};
use git_ignore::patch::{Block, Patcher};

fn templates(pairs: &[(&str, &str)]) -> Vec<(String, String)> {
    pairs
        .iter()
        .map(|(n, c)| (n.to_string(), c.to_string()))
        .collect()
}

#[test]
fn test_parse_and_serialize_custom() {
    let content = "node_modules/\n.env\n";
    let patcher = Patcher::parse(content);
    assert_eq!(patcher.serialize(), content);
}

#[test]
fn test_patch_new_template() {
    let content = "custom_entry\n";
    let mut patcher = Patcher::parse(content);

    let templates = templates(&[("Rust", "target/\n")]);

    patcher.patch(templates);
    let result = patcher.serialize();

    assert!(result.contains("custom_entry"));
    assert!(result.contains(START_MARKER_PREFIX));
    assert!(result.contains("Rust"));
    assert!(result.contains("target/"));
    assert!(result.contains(END_MARKER_PREFIX));
}

#[test]
fn test_patch_existing_template() {
    let content = format!("{}Rust\nold_content\n{}Rust\n", START_MARKER_PREFIX, END_MARKER_PREFIX);
    let mut patcher = Patcher::parse(&content);

    let templates = templates(&[("Rust", "new_content\n")]);

    patcher.patch(templates);
    let result = patcher.serialize();

    assert!(!result.contains("old_content"));
    assert!(result.contains("new_content"));
}

#[test]
fn patch_output_is_exact() {
    let mut patcher = Patcher::parse("custom_entry\n");
    patcher.patch(templates(&[("Rust", "  target/\n\n")]));
    assert_eq!(
        patcher.serialize(),
        "custom_entry\n\n# git-ignore-start: Rust\ntarget/\n# git-ignore-end: Rust\n"
    );
}

#[test]
fn patch_matches_names_case_insensitively_and_takes_new_casing() {
    let content = "# git-ignore-start: rust\nold\n# git-ignore-end: rust\n";
    let mut patcher = Patcher::parse(content);
    patcher.patch(templates(&[("RUST", "new")]));
    assert_eq!(
        patcher.serialize(),
        "# git-ignore-start: RUST\nnew\n# git-ignore-end: RUST\n"
    );
}

#[test]
fn patch_updates_in_place_and_appends_new_templates() {
    let content = "a\n# git-ignore-start: Node\nnode_modules/\n# git-ignore-end: Node\n";
    let mut patcher = Patcher::parse(content);
    patcher.patch(templates(&[("Rust", "target/"), ("Node", "dist/")]));
    assert_eq!(
        patcher.serialize(),
        "a\n\n# git-ignore-start: Node\ndist/\n# git-ignore-end: Node\n\n# git-ignore-start: Rust\ntarget/\n# git-ignore-end: Rust\n"
    );
}

#[test]
fn patch_with_repeated_key_keeps_last_template() {
    let mut patcher = Patcher::parse("");
    patcher.patch(templates(&[("rust", "first"), ("Rust", "second")]));
    assert_eq!(
        patcher.serialize(),
        "# git-ignore-start: Rust\nsecond\n# git-ignore-end: Rust\n"
    );
}

#[test]
fn patch_twice_is_stable() {
    let content = "custom\n# git-ignore-start: Node\nold\n# git-ignore-end: Node\n";
    let t = templates(&[("Rust", "target/\n"), ("Node", "node_modules/")]);
    let mut first = Patcher::parse(content);
    first.patch(t.clone());
    let out = first.serialize();
    let mut second = Patcher::parse(&out);
    second.patch(t);
    assert_eq!(second.serialize(), out);
}

#[test]
fn custom_text_after_a_section_is_stable_across_runs() {
    let content = "# git-ignore-start: R\nx\n# git-ignore-end: R\n\ncustom\n";
    let t = templates(&[("R", "x")]);
    let mut first = Patcher::parse(content);
    first.patch(t.clone());
    let out = first.serialize();
    assert_eq!(out, content);
    let mut second = Patcher::parse(&out);
    second.patch(t);
    assert_eq!(second.serialize(), out);
}

#[test]
fn one_blank_line_separates_a_section_from_following_text() {
    let content = "# git-ignore-start: E\n# git-ignore-end: E\n\n\n  \n  x\n";
    let mut first = Patcher::parse(content);
    first.patch(Vec::new());
    let out = first.serialize();
    assert_eq!(out, "# git-ignore-start: E\n# git-ignore-end: E\n\n  x\n");
    let mut second = Patcher::parse(&out);
    second.patch(Vec::new());
    assert_eq!(second.serialize(), out);
}

#[test]
fn leading_blank_lines_of_the_file_are_kept() {
    assert_eq!(Patcher::parse("\n\nfoo\n").serialize(), "\n\nfoo\n");
}

#[test]
fn unterminated_section_runs_to_end_of_file() {
    let patcher = Patcher::parse("a\n# git-ignore-start: X\nb\nc");
    assert_eq!(
        patcher.serialize(),
        "a\n\n# git-ignore-start: X\nb\nc\n# git-ignore-end: X\n"
    );
}

#[test]
fn crlf_lines_are_read_without_carriage_return() {
    let patcher = Patcher::parse("a\r\nb\r\n");
    assert_eq!(patcher.serialize(), "a\nb\n");
}

#[test]
fn whitespace_only_content_serializes_to_nothing() {
    let patcher = Patcher::parse("  \n\t\n");
    assert_eq!(patcher.serialize(), "");
}

#[test]
fn empty_managed_section_keeps_markers() {
    let patcher = Patcher::parse("# git-ignore-start: E\n   \n# git-ignore-end: E\n");
    assert_eq!(patcher.serialize(), "# git-ignore-start: E\n# git-ignore-end: E\n");
}

#[test]
fn block_render() {
    assert_eq!(Block::Custom("x  \n\n".to_string()).render(false), Some("x\n".to_string()));
    assert_eq!(Block::Custom("\n \n x  \n".to_string()).render(false), Some("\n \n x\n".to_string()));
    assert_eq!(Block::Custom("\n \n x  \n".to_string()).render(true), Some(" x\n".to_string()));
    assert_eq!(Block::Custom(" \n".to_string()).render(true), None);
    assert_eq!(
        Block::Managed { name: "N".to_string(), content: "\n c \n".to_string() }.render(true),
        Some("# git-ignore-start: N\nc\n# git-ignore-end: N\n".to_string())
    );
}

#[test]
fn patch_twice_is_stable_with_crlf_template_content() {
    let t = templates(&[("Win", "bin/\r\nobj/\r\n")]);
    let mut first = Patcher::parse("custom\n");
    first.patch(t.clone());
    let out = first.serialize();
    assert_eq!(out, "custom\n\n# git-ignore-start: Win\nbin/\r\nobj/\n# git-ignore-end: Win\n");
    let mut second = Patcher::parse(&out);
    second.patch(t);
    assert_eq!(second.serialize(), out);
}

#[test]
fn patching_again_with_the_same_templates_changes_nothing() {
    let t = templates(&[("Rust", "target/"), ("node", "x"), ("Node", "node_modules/")]);
    let mut patcher = Patcher::parse("a\n# git-ignore-start: NODE\nold\n# git-ignore-end: NODE\n");
    patcher.patch(t.clone());
    let once = patcher.serialize();
    patcher.patch(t);
    assert_eq!(patcher.serialize(), once);
}

#[test]
fn serialized_output_reads_back_as_itself() {
    let text = "custom\n\n# git-ignore-start: A\na/\n# git-ignore-end: A\n\n# git-ignore-start: B\n# git-ignore-end: B\n";
    let first = Patcher::parse(text).serialize();
    assert_eq!(first, text);
    assert_eq!(Patcher::parse(&first).serialize(), first);
}

#[test]
fn rerun_on_a_crlf_file_is_stable() {
    let t = templates(&[("Rust", "target/\r\n")]);
    let text = "a\r\n# git-ignore-start: Old\r\nx\r\n# git-ignore-end: Old\r\nb\r\n";
    let mut first = Patcher::parse(text);
    first.patch(t.clone());
    let out = first.serialize();
    assert_eq!(
        out,
        "a\n\n# git-ignore-start: Old\nx\n# git-ignore-end: Old\n\nb\n\n# git-ignore-start: Rust\ntarget/\n# git-ignore-end: Rust\n"
    );
    let mut second = Patcher::parse(&out);
    second.patch(t);
    assert_eq!(second.serialize(), out);
}

#[test]
fn doubled_carriage_return_is_dropped_on_each_read() {
    let first = Patcher::parse("a\r\r\nb\n").serialize();
    assert_eq!(first, "a\r\nb\n");
    assert_eq!(Patcher::parse(&first).serialize(), "a\nb\n");
}

#[test]
fn carriage_return_inside_a_line_is_kept() {
    let patcher = Patcher::parse("a\rb\nc\n");
    assert_eq!(patcher.serialize(), "a\rb\nc\n");
}
