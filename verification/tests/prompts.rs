use prompts::server::prompts::{
    prompt_error, prompt_listing, prompt_reply, substitute, substitute_values, value_to_string,
    PromptListing,
};
use prompts::server::reply::McpErrorKind;
use prompts::server::repository::{PromptEntry, PromptsRepositoryError};
use prompts::server::use_case::{PromptDocument, PromptsUseCaseError};
use serde_json::Value;

fn declared(names: &[&str]) -> Vec<String> {
    names.iter().map(|name| name.to_string()).collect()
}

fn provided(pairs: &[(&str, &str)]) -> serde_json::Map<String, Value> {
    let mut object = serde_json::Map::new();
    for (key, value) in pairs {
        object.insert(key.to_string(), Value::String(value.to_string()));
    }
    object
}

#[test]
fn substitutes_arguments_placeholder() {
    let arguments = provided(&[("topic", "rust"), ("audience", "beginners")]);
    assert_eq!(
        substitute(
            "Research $ARGUMENTS.",
            &declared(&["topic", "audience"]),
            Some(&arguments)
        ),
        "Research rust beginners."
    );
}

#[test]
fn substitutes_positional_placeholders() {
    let arguments = provided(&[("topic", "rust"), ("audience", "beginners")]);
    assert_eq!(
        substitute(
            "Research $1 for $2.",
            &declared(&["topic", "audience"]),
            Some(&arguments)
        ),
        "Research rust for beginners."
    );
}

#[test]
fn missing_positional_value_becomes_empty() {
    let arguments = provided(&[("topic", "rust")]);
    assert_eq!(
        substitute(
            "Research $1 for $2.",
            &declared(&["topic", "audience"]),
            Some(&arguments)
        ),
        "Research rust for ."
    );
}

#[test]
fn appends_values_when_body_has_no_placeholder() {
    let arguments = provided(&[("topic", "rust")]);
    assert_eq!(
        substitute("Do the thing.\n", &declared(&["topic"]), Some(&arguments)),
        "Do the thing.\n\nrust\n"
    );
}

#[test]
fn no_values_leaves_placeholder_free_body_unchanged() {
    assert_eq!(
        substitute("Do the thing.\n", &declared(&["topic"]), None),
        "Do the thing.\n"
    );
}

#[test]
fn no_values_blanks_placeholders() {
    assert_eq!(
        substitute("Research $ARGUMENTS now: $1.", &declared(&["topic"]), None),
        "Research  now: ."
    );
}

#[test]
fn undeclared_provided_arguments_are_ignored() {
    let arguments = provided(&[("unrelated", "x")]);
    assert_eq!(
        substitute("Body.\n", &declared(&["topic"]), Some(&arguments)),
        "Body.\n"
    );
}

#[test]
fn non_string_values_serialize_compactly() {
    let mut arguments = serde_json::Map::new();
    arguments.insert("count".to_string(), Value::from(3));
    assert_eq!(
        substitute("Take $1.", &declared(&["count"]), Some(&arguments)),
        "Take 3."
    );
}

#[test]
fn non_string_object_value_renders_as_compact_json() {
    let mut inner = serde_json::Map::new();
    inner.insert("a".to_string(), Value::from(vec![1, 2]));
    let mut arguments = serde_json::Map::new();
    arguments.insert("spec".to_string(), Value::Object(inner));
    assert_eq!(
        substitute("Use $1", &declared(&["spec"]), Some(&arguments)),
        "Use {\"a\":[1,2]}"
    );
}

#[test]
fn tenth_positional_is_not_clobbered_by_first() {
    let names: Vec<String> = (1..=10).map(|i| format!("a{i}")).collect();
    let mut arguments = serde_json::Map::new();
    for (i, name) in names.iter().enumerate() {
        arguments.insert(name.clone(), Value::String(format!("v{}", i + 1)));
    }
    assert_eq!(
        substitute("$10 $1 $2", &names, Some(&arguments)),
        "v10 v1 v2"
    );
}

#[test]
fn substitute_values_appends_after_trimming_body() {
    let values = vec![Some("x".to_string()), None, Some("y".to_string())];
    assert_eq!(substitute_values("Body \n\n", &values), "Body\n\nx y\n");
}

#[test]
fn substitute_values_only_empty_values_keep_body() {
    let values = vec![Some(String::new())];
    assert_eq!(substitute_values("Body.\n", &values), "Body.\n");
}

#[test]
fn substitute_values_positional_beyond_declared_is_left() {
    let values = vec![Some("a".to_string())];
    assert_eq!(substitute_values("$1 and $2", &values), "a and $2");
}

#[test]
fn substitute_values_arguments_value_is_not_rescanned_for_positionals() {
    let values = vec![Some("$2".to_string()), Some("x".to_string())];
    assert_eq!(substitute_values("[$ARGUMENTS]", &values), "[$2 x]");
}

#[test]
fn substitute_values_positional_value_is_inserted_verbatim() {
    let values = vec![Some("a".to_string()), Some("$1".to_string())];
    assert_eq!(substitute_values("$2", &values), "$1");
}

#[test]
fn provided_values_are_inserted_verbatim() {
    let args = provided(&[("a", "$2"), ("b", "x")]);
    assert_eq!(substitute("$ARGUMENTS", &declared(&["a", "b"]), Some(&args)), "$2 x");
}

fn entry(arguments: &[&str], description: Option<&str>) -> PromptEntry {
    PromptEntry {
        name: "alpha".to_string(),
        title: "Alpha Title".to_string(),
        description: description.map(str::to_string),
        arguments: arguments.iter().map(|a| a.to_string()).collect(),
        path: "alpha.md".to_string(),
    }
}

#[test]
fn listing_projects_entry_and_omits_empty_arguments() {
    let listing = prompt_listing(entry(&["topic", "audience"], Some("Alpha description.")));
    assert_eq!(
        listing,
        PromptListing {
            name: "alpha".to_string(),
            title: Some("Alpha Title".to_string()),
            description: Some("Alpha description.".to_string()),
            arguments: Some(vec!["topic".to_string(), "audience".to_string()]),
        }
    );
    let bare = prompt_listing(entry(&[], None));
    assert_eq!(bare.arguments, None);
    assert_eq!(bare.description, None);
}

#[test]
fn reply_substitutes_and_carries_description() {
    let document = PromptDocument {
        entry: entry(&["topic", "audience"], Some("Alpha description.")),
        content: "# Alpha Title\n\nResearch $1 for $2.\n".to_string(),
    };
    let arguments = provided(&[("topic", "rust"), ("audience", "beginners")]);
    let reply = prompt_reply(document, Some(&arguments));
    assert_eq!(reply.text, "# Alpha Title\n\nResearch rust for beginners.\n");
    assert_eq!(reply.description.as_deref(), Some("Alpha description."));
}

#[test]
fn unknown_prompt_is_invalid_params() {
    let failure = prompt_error(&PromptsUseCaseError::NotFound { name: "gamma".to_string() });
    assert_eq!(failure.kind, McpErrorKind::InvalidParams);
    assert_eq!(failure.message, "prompt not found: gamma");
    assert_eq!(failure.data, Some(("name".to_string(), "gamma".to_string())));
}

#[test]
fn upstream_failure_is_internal_error_with_status() {
    let failure = prompt_error(&PromptsUseCaseError::Repository(
        PromptsRepositoryError::UpstreamStatus {
            status: 500,
            url: "http://host/prompts/list.json".to_string(),
        },
    ));
    assert_eq!(failure.kind, McpErrorKind::InternalError);
    assert_eq!(
        failure.message,
        "upstream returned 500 Internal Server Error for http://host/prompts/list.json"
    );
    assert_eq!(failure.data, None);
}

#[test]
fn value_to_string_keeps_string_text_and_renders_others_compactly() {
    assert_eq!(value_to_string(&Value::String("a \"b\"".to_string())), "a \"b\"");
    assert_eq!(value_to_string(&Value::Bool(true)), "true");
    assert_eq!(value_to_string(&Value::Null), "null");
    let list = Value::Array(vec![Value::from(1), Value::String("x".to_string())]);
    assert_eq!(value_to_string(&list), "[1,\"x\"]");
}
