use prompts::builder::frontmatter::{split, strip, Frontmatter};

#[test]
fn argument_names_dedupe_and_skip_empty_tokens() {
    let frontmatter = Frontmatter {
        argument_hint: Some("add [tag] | remove [tag] [] [ note ]".to_string()),
        ..Frontmatter::default()
    };
    assert_eq!(
        frontmatter.argument_names(),
        vec!["tag".to_string(), "note".to_string()]
    );
}

#[test]
fn argument_names_from_skill_hint() {
    let frontmatter = Frontmatter {
        argument_hint: Some("[topic] [audience]".to_string()),
        ..Frontmatter::default()
    };
    assert_eq!(
        frontmatter.argument_names(),
        vec!["topic".to_string(), "audience".to_string()]
    );
}

#[test]
fn argument_names_without_hint_is_empty() {
    assert!(Frontmatter::default().argument_names().is_empty());
}

#[test]
fn argument_names_stop_at_unclosed_bracket() {
    let frontmatter = Frontmatter {
        argument_hint: Some("[a] [b".to_string()),
        ..Frontmatter::default()
    };
    assert_eq!(frontmatter.argument_names(), vec!["a".to_string()]);
}

#[test]
fn argument_names_trim_unicode_whitespace() {
    let frontmatter = Frontmatter {
        argument_hint: Some("[\u{a0}ünï\u{3000}] [\u{2003}]".to_string()),
        ..Frontmatter::default()
    };
    assert_eq!(frontmatter.argument_names(), vec!["ünï".to_string()]);
}

#[test]
fn strip_removes_frontmatter_and_separating_blank_lines() {
    let markdown = "---\nname: alpha\n---\n\n# Alpha Title\n\nalpha body\n";
    assert_eq!(strip(markdown), "# Alpha Title\n\nalpha body\n");
}

#[test]
fn strip_removes_structurally_valid_block_with_invalid_yaml() {
    let markdown = "---\n: [unbalanced\n---\nbody\n";
    assert_eq!(strip(markdown), "body\n");
}

#[test]
fn strip_leaves_document_without_frontmatter_unchanged() {
    let markdown = "# Just a Heading\n\nbody\n";
    assert_eq!(strip(markdown), markdown);
}

#[test]
fn strip_leaves_unterminated_block_unchanged() {
    let markdown = "---\nname: alpha\n\n# Heading\n";
    assert_eq!(strip(markdown), markdown);
}

#[test]
fn strip_handles_closing_delimiter_at_end_of_input() {
    assert_eq!(strip("---\nname: alpha\n---"), "");
}

#[test]
fn split_yields_yaml_and_rest() {
    assert_eq!(
        split("---\nname: alpha\ndescription: x\n---\n\nbody\n"),
        Some(("name: alpha\ndescription: x\n", "\nbody\n"))
    );
}

#[test]
fn split_accepts_crlf_and_padded_closing_line() {
    assert_eq!(
        split("---\r\nname: alpha\r\n---  \r\nbody\r\n"),
        Some(("name: alpha\r\n", "body\r\n"))
    );
}

#[test]
fn split_requires_opening_delimiter_on_its_own_line() {
    assert_eq!(split("--- not frontmatter\n"), None);
    assert_eq!(split("---"), None);
    assert_eq!(split("# Just a Heading\n"), None);
}

#[test]
fn split_empty_block() {
    assert_eq!(split("---\n---\nrest"), Some(("", "rest")));
}

#[test]
fn strip_keeps_non_ascii_body() {
    assert_eq!(strip("---\nname: ü\n---\r\n\n黑风雷\n"), "黑风雷\n");
}

#[test]
fn strip_keeps_a_second_block() {
    let markdown = "---\na: 1\n---\n---\nb: 2\n---\nbody";
    assert_eq!(strip(markdown), "---\nb: 2\n---\nbody");
}
