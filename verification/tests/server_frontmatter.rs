use prompts::server::frontmatter::{split, strip, Frontmatter};

#[test]
fn frontmatter_strip_removes_frontmatter_and_separating_blank_lines() {
    let markdown = "---\nname: Alpha\n---\n\n# Alpha Title\n\nalpha body\n";
    assert_eq!(strip(markdown), "# Alpha Title\n\nalpha body\n");
}

#[test]
fn frontmatter_strip_removes_structurally_valid_block_with_invalid_yaml() {
    let markdown = "---\n: [unbalanced\n---\nbody\n";
    assert_eq!(strip(markdown), "body\n");
}

#[test]
fn frontmatter_strip_leaves_document_without_frontmatter_unchanged() {
    let markdown = "# Just a Heading\n\nbody\n";
    assert_eq!(strip(markdown), markdown);
}

#[test]
fn frontmatter_strip_leaves_unterminated_block_unchanged() {
    let markdown = "---\nname: Alpha\n\n# Heading\n";
    assert_eq!(strip(markdown), markdown);
}

#[test]
fn frontmatter_strip_handles_closing_delimiter_at_end_of_input() {
    assert_eq!(strip("---\nname: Alpha\n---"), "");
}

#[test]
fn server_split_finds_block() {
    assert_eq!(
        split("---\nname: Alpha\n---\n\n# Alpha\n"),
        Some(("name: Alpha\n", "\n# Alpha\n"))
    );
    assert_eq!(split("---\nname: Alpha\n\n# Heading\n"), None);
}

#[test]
fn server_frontmatter_defaults_to_empty() {
    let frontmatter = Frontmatter::default();
    assert_eq!(frontmatter.name, None);
    assert_eq!(frontmatter.description, None);
}
