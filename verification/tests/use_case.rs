use prompts::server::frontmatter::Frontmatter;
use prompts::server::repository::{PromptEntry, PromptsRepositoryError};
use prompts::server::use_case::{read_document, resolve_entry, summarize, PromptsUseCaseError};

fn entry(name: &str) -> PromptEntry {
    PromptEntry {
        name: name.to_string(),
        title: format!("Title of {name}"),
        description: None,
        arguments: Vec::new(),
        path: format!("{name}.md"),
    }
}

#[test]
fn read_prompt_resolves_path_via_list_json() {
    let resolved = resolve_entry(vec![entry("alpha"), entry("beta")], "beta")
        .expect("prompt should resolve");
    assert_eq!(resolved, entry("beta"));
    assert_eq!(resolved.path, "beta.md");
    let doc = read_document(resolved, "# Title of beta\n\nbody");
    assert_eq!(doc.entry, entry("beta"));
    assert_eq!(doc.content, "# Title of beta\n\nbody");
}

#[test]
fn read_prompt_strips_frontmatter_from_content() {
    let doc = read_document(
        entry("alpha"),
        "---\nname: Alpha Prompt\n---\n\n# Title of alpha\n\nbody\n",
    );
    assert_eq!(doc.content, "# Title of alpha\n\nbody\n");
}

#[test]
fn read_prompt_rejects_unlisted_names_without_fetching() {
    let err = resolve_entry(vec![entry("alpha")], "../../secret")
        .expect_err("unlisted name must not resolve");
    assert!(matches!(
        err,
        PromptsUseCaseError::NotFound { ref name } if name == "../../secret"
    ));
    assert_eq!(err.message(), "prompt not found: ../../secret");
}

#[test]
fn resolve_takes_first_entry_of_a_name() {
    let mut second = entry("alpha");
    second.path = "other.md".to_string();
    let resolved = resolve_entry(vec![entry("alpha"), second], "alpha").expect("resolves");
    assert_eq!(resolved.path, "alpha.md");
}

#[test]
fn list_prompts_prefers_frontmatter_name_and_description() {
    let summaries = summarize(
        vec![entry("alpha")],
        vec![Some(Frontmatter {
            name: Some("Alpha Prompt".to_string()),
            description: Some("Alpha summary.".to_string()),
        })],
    );
    assert_eq!(summaries.len(), 1);
    assert_eq!(summaries[0].title, "Alpha Prompt");
    assert_eq!(summaries[0].description.as_deref(), Some("Alpha summary."));
    assert_eq!(summaries[0].entry, entry("alpha"));
}

#[test]
fn list_prompts_falls_back_to_entry_title_without_frontmatter() {
    let summaries = summarize(vec![entry("alpha")], vec![None]);
    assert_eq!(summaries[0].title, "Title of alpha");
    assert_eq!(summaries[0].description, None);
}

#[test]
fn summary_keeps_entry_title_when_frontmatter_has_no_name() {
    let summaries = summarize(
        vec![entry("alpha"), entry("beta")],
        vec![
            Some(Frontmatter { name: None, description: Some("d".to_string()) }),
            None,
        ],
    );
    assert_eq!(summaries.len(), 2);
    assert_eq!(summaries[0].title, "Title of alpha");
    assert_eq!(summaries[0].description.as_deref(), Some("d"));
    assert_eq!(summaries[1].title, "Title of beta");
}

#[test]
fn repository_errors_keep_their_message() {
    let err = PromptsUseCaseError::Repository(PromptsRepositoryError::NotFound {
        url: "stub://list.json".to_string(),
    });
    assert_eq!(err.message(), "not found upstream: stub://list.json");
}
