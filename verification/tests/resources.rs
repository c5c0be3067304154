use prompts::server::frontmatter::Frontmatter;
use prompts::server::reply::McpErrorKind;
use prompts::server::repository::{PromptEntry, PromptsRepositoryError};
use prompts::server::resources::{
    prompt_uri, resource_contents, resource_error, resource_listing, resource_name,
    ResourceContent, PROMPT_MIME_TYPE, PROMPT_URI_SCHEME,
};
use prompts::server::use_case::{read_document, summarize, PromptsUseCaseError};

fn entry(name: &str, title: &str) -> PromptEntry {
    PromptEntry {
        name: name.to_string(),
        title: title.to_string(),
        description: None,
        arguments: Vec::new(),
        path: format!("{name}.md"),
    }
}

#[test]
fn prompt_uri_uses_custom_scheme() {
    assert_eq!(prompt_uri("alpha"), "prompts://alpha");
    assert_eq!(PROMPT_URI_SCHEME, "prompts://");
}

#[test]
fn listing_prefers_frontmatter_and_falls_back_to_list_json() {
    let summaries = summarize(
        vec![entry("alpha", "Alpha Title"), entry("beta", "Beta Title")],
        vec![
            Some(Frontmatter {
                name: Some("Alpha Frontmatter Name".to_string()),
                description: Some("Alpha frontmatter description.".to_string()),
            }),
            None,
        ],
    );
    let mut listed = summaries.into_iter().map(resource_listing);
    let alpha = listed.next().expect("alpha");
    assert_eq!(alpha.uri, "prompts://alpha");
    assert_eq!(alpha.name, "alpha");
    assert_eq!(alpha.title, "Alpha Frontmatter Name");
    assert_eq!(alpha.description.as_deref(), Some("Alpha frontmatter description."));
    assert_eq!(alpha.mime_type, "text/markdown");
    assert_eq!(alpha.mime_type, PROMPT_MIME_TYPE);
    let beta = listed.next().expect("beta");
    assert_eq!(beta.uri, "prompts://beta");
    assert_eq!(beta.title, "Beta Title");
    assert_eq!(beta.description, None);
}

#[test]
fn resource_name_reads_prompt_uris() {
    assert_eq!(resource_name("prompts://alpha").ok(), Some("alpha"));
    assert_eq!(resource_name("prompts://é/x").ok(), Some("é/x"));
}

#[test]
fn foreign_uri_scheme_is_rejected() {
    let failure = resource_name("file:///etc/passwd").expect_err("foreign scheme");
    assert_eq!(failure.kind, McpErrorKind::InvalidParams);
    assert!(failure.message.contains("unsupported URI scheme"));
    assert_eq!(failure.data, Some(("uri".to_string(), "file:///etc/passwd".to_string())));
}

#[test]
fn empty_prompt_name_is_rejected() {
    let failure = resource_name("prompts://").expect_err("empty name");
    assert_eq!(failure.kind, McpErrorKind::InvalidParams);
    assert!(failure.message.contains("non-empty prompt name"));
}

#[test]
fn unlisted_name_is_resource_not_found() {
    let failure = resource_error(&PromptsUseCaseError::NotFound { name: "gamma".to_string() });
    assert_eq!(failure.kind, McpErrorKind::ResourceNotFound);
    assert_eq!(failure.message, "resource_not_found");
    assert_eq!(failure.data, Some(("uri".to_string(), "prompts://gamma".to_string())));
}

#[test]
fn upstream_failure_is_internal_error() {
    let failure = resource_error(&PromptsUseCaseError::Repository(
        PromptsRepositoryError::UpstreamStatus { status: 500, url: "u".to_string() },
    ));
    assert_eq!(failure.kind, McpErrorKind::InternalError);
    assert!(failure.message.contains("500"));
}

#[test]
fn prompt_uri_round_trips_through_resource_name() {
    for name in ["alpha", "information-retrieval-policy", "ü"] {
        let uri = prompt_uri(name);
        assert_eq!(resource_name(&uri).ok(), Some(name));
    }
}

#[test]
fn read_contents_carry_stripped_body_under_requested_uri() {
    let document = read_document(
        entry("alpha", "Alpha Title"),
        "---\nname: Alpha\n---\n\n# Alpha\n\nBody.\n",
    );
    let contents = resource_contents(document, "prompts://alpha");
    assert_eq!(
        contents,
        ResourceContent {
            uri: "prompts://alpha".to_string(),
            mime_type: PROMPT_MIME_TYPE.to_string(),
            text: "# Alpha\n\nBody.\n".to_string(),
        }
    );
}
