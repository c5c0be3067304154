use prompts::builder::frontmatter::Frontmatter;
use prompts::builder::{describe_prompt, extract_title, is_hidden_dir, sort_by_name, PromptEntry};

#[test]
fn title_from_first_heading() {
    assert_eq!(
        extract_title("# Information Retrieval Policy\n\nbody"),
        Some("Information Retrieval Policy")
    );
}

#[test]
fn title_skips_leading_prose() {
    assert_eq!(
        extract_title("intro line\n\n# Real Title\n"),
        Some("Real Title")
    );
}

#[test]
fn no_heading_yields_none() {
    assert_eq!(extract_title("just text\n## subheading only\n"), None);
}

#[test]
fn empty_heading_yields_none() {
    assert_eq!(extract_title("#  \n"), None);
}

#[test]
fn title_trims_and_skips_blank_headings() {
    assert_eq!(extract_title("# \t \r\n#   Second  \r\n"), Some("Second"));
    assert_eq!(extract_title("#Title\n"), None);
    assert_eq!(extract_title(""), None);
    assert_eq!(extract_title("# Last line without break"), Some("Last line without break"));
}

#[test]
fn hidden_directories_start_with_a_dot() {
    assert!(is_hidden_dir(".hidden"));
    assert!(!is_hidden_dir("alpha"));
    assert!(!is_hidden_dir(""));
}

#[test]
fn describe_prompt_with_frontmatter() {
    let metadata = Frontmatter {
        name: Some("alpha".to_string()),
        description: Some("Alpha summary.".to_string()),
        argument_hint: Some("[topic] [audience]".to_string()),
    };
    let content = "---\nname: alpha\ndescription: Alpha summary.\nargument-hint: \"[topic] [audience]\"\n---\n\n# Alpha Prompt\n\nbody\n";
    let (entry, body) = describe_prompt("alpha", Some(metadata), content);
    assert_eq!(entry.name, "alpha");
    assert_eq!(entry.title, "Alpha Prompt");
    assert_eq!(entry.description.as_deref(), Some("Alpha summary."));
    assert_eq!(entry.arguments, ["topic", "audience"]);
    assert_eq!(entry.path, "alpha.md");
    assert_eq!(body, "# Alpha Prompt\n\nbody\n");
}

#[test]
fn describe_prompt_falls_back_to_directory_name() {
    let (entry, body) = describe_prompt("beta", None, "no heading here\n");
    assert_eq!(entry.name, "beta");
    assert_eq!(entry.title, "beta");
    assert_eq!(entry.description, None);
    assert!(entry.arguments.is_empty());
    assert_eq!(entry.path, "beta.md");
    assert_eq!(body, "no heading here\n");
}

#[test]
fn frontmatter_name_overrides_directory_name_in_entry() {
    let metadata = Frontmatter {
        name: Some("canonical-name".to_string()),
        ..Frontmatter::default()
    };
    let (entry, _) = describe_prompt(
        "some-dir",
        Some(metadata),
        "---\nname: canonical-name\n---\n\n# Title\n",
    );
    assert_eq!(entry.name, "canonical-name");
    assert_eq!(entry.path, "canonical-name.md");
    assert_eq!(entry.title, "Title");
}

fn entry(name: &str) -> (PromptEntry, String) {
    (
        PromptEntry {
            name: name.to_string(),
            title: name.to_string(),
            description: None,
            arguments: Vec::new(),
            path: format!("{name}.md"),
        },
        format!("body of {name}"),
    )
}

#[test]
fn sort_by_name_orders_entries() {
    let sorted = sort_by_name(vec![entry("gamma"), entry("alpha"), entry("beta"), entry("Zeta"), entry("alphabet")]);
    let names: Vec<&str> = sorted.iter().map(|(e, _)| e.name.as_str()).collect();
    assert_eq!(names, ["Zeta", "alpha", "alphabet", "beta", "gamma"]);
    assert_eq!(sorted[1].1, "body of alpha");
}

#[test]
fn sort_by_name_of_nothing_is_nothing() {
    assert!(sort_by_name(Vec::new()).is_empty());
}

#[test]
fn sort_by_name_uses_code_point_order() {
    let sorted = sort_by_name(vec![entry("é"), entry("z"), entry("a")]);
    let names: Vec<&str> = sorted.iter().map(|(e, _)| e.name.as_str()).collect();
    assert_eq!(names, ["a", "z", "é"]);
}

#[test]
fn sort_by_name_keeps_order_of_equal_names() {
    let mut first = entry("dup");
    first.1 = "first".to_string();
    let mut second = entry("dup");
    second.1 = "second".to_string();
    let sorted = sort_by_name(vec![first, entry("b"), second, entry("a")]);
    let bodies: Vec<&str> = sorted.iter().map(|(_, b)| b.as_str()).collect();
    assert_eq!(bodies, ["body of a", "body of b", "first", "second"]);
}
