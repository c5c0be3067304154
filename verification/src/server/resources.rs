//! Prompts as MCP resources: `prompts://<name>` URIs, the resource
//! listing, and how `resources/read` requests and failures are answered.
//!
//! The custom scheme (rather than the raw hosting URL) keeps resource
//! URIs stable if the hosting ever moves.

use vstd::prelude::*;
use vstd::string::*;
use crate::server::reply::{McpErrorKind, McpFailure};
use crate::server::use_case::{use_case_message, PromptDocument, PromptSummary, PromptsUseCaseError};
use crate::text::{chars_of, starts_with};

verus! {

/// URI scheme under which prompts are exposed.
pub const PROMPT_URI_SCHEME: &'static str = "prompts://";

/// MIME type reported for every prompt resource.
pub const PROMPT_MIME_TYPE: &'static str = "text/markdown";

/// The scheme prefix `prompts://`.
pub open spec fn scheme() -> Seq<char> {
    seq!['p', 'r', 'o', 'm', 'p', 't', 's', ':', '/', '/']
}

/// The canonical resource URI of a prompt name.
pub open spec fn uri_of(name: Seq<char>) -> Seq<char> {
    scheme() + name
}

/// Build the canonical resource URI for a prompt name.
pub fn prompt_uri(name: &str) -> (res: String)
    ensures
        res@ == uri_of(name@),
{
    let mut uri = "prompts://".to_owned();
    proof {
        reveal_strlit("prompts://");
    }
    assert("prompts://"@ =~= scheme());
    uri.append(name);
    uri
}

/// A prompt as listed by `resources/list`.
#[derive(Debug, Clone, PartialEq, Eq)]
pub struct ResourceListing {
    /// `prompts://<name>`.
    pub uri: String,
    /// The `list.json` name.
    pub name: String,
    /// The display title.
    pub title: String,
    /// The description, when there is one.
    pub description: Option<String>,
    /// Always `text/markdown`.
    pub mime_type: String,
}

/// Project a listed prompt onto its resource: the URI of its name, its
/// display title and description, and the markdown MIME type.
pub fn resource_listing(summary: PromptSummary) -> (res: ResourceListing)
    ensures
        res.uri@ == uri_of(summary.entry.name@),
        res.name == summary.entry.name,
        res.title == summary.title,
        res.description == summary.description,
        res.mime_type@ == "text/markdown"@,
{
    let uri = prompt_uri(summary.entry.name.as_str());
    ResourceListing {
        uri,
        name: summary.entry.name,
        title: summary.title,
        description: summary.description,
        mime_type: "text/markdown".to_owned(),
    }
}

/// The prompt name a resource URI designates: what follows
/// `prompts://`, when that is not empty.
pub open spec fn named_prompt(uri: Seq<char>) -> Option<Seq<char>> {
    if starts_with(uri, scheme()) && uri.len() > scheme().len() {
        Some(uri.subrange(scheme().len() as int, uri.len() as int))
    } else {
        None
    }
}

/// Read the prompt name out of a `resources/read` URI. A URI of another
/// scheme, or `prompts://` with no name, is an invalid-params error that
/// carries the URI.
pub fn resource_name(uri: &str) -> (res: Result<&str, McpFailure>)
    ensures
        match res {
            Ok(name) => named_prompt(uri@) == Some(name@),
            Err(f) => {
                &&& named_prompt(uri@) is None
                &&& f.kind == McpErrorKind::InvalidParams
                &&& f.message@ == if starts_with(uri@, scheme()) {
                    "prompts:// requires a non-empty prompt name"@
                } else {
                    "unsupported URI scheme; expected prompts://<name>"@
                }
                &&& f.data matches Some((k, v)) && k@ == "uri"@ && v@ == uri@
            },
        },
{
    let v = chars_of(uri);
    let s: Vec<char> = vec!['p', 'r', 'o', 'm', 'p', 't', 's', ':', '/', '/'];
    assert(s@ =~= scheme());
    let has_scheme = crate::text::occurs_at_exec(&v, 0, &s);
    if !has_scheme {
        return Err(
            McpFailure {
                kind: McpErrorKind::InvalidParams,
                message: "unsupported URI scheme; expected prompts://<name>".to_owned(),
                data: Some(("uri".to_owned(), uri.to_owned())),
            },
        );
    }
    if v.len() == 10 {
        return Err(
            McpFailure {
                kind: McpErrorKind::InvalidParams,
                message: "prompts:// requires a non-empty prompt name".to_owned(),
                data: Some(("uri".to_owned(), uri.to_owned())),
            },
        );
    }
    Ok(uri.substring_char(10, v.len()))
}

/// A resource URI built from a non-empty name designates that name.
pub proof fn prompt_uri_round_trip(name: Seq<char>)
    requires
        name.len() > 0,
    ensures
        named_prompt(uri_of(name)) == Some(name),
{
    let u = uri_of(name);
    assert(u.subrange(0, scheme().len() as int) =~= scheme());
    assert(u.subrange(scheme().len() as int, u.len() as int) =~= name);
}

/// The contents that answer a successful `resources/read`.
#[derive(Debug, Clone, PartialEq, Eq)]
pub struct ResourceContent {
    /// The URI that was read, as the request gave it.
    pub uri: String,
    /// Always `text/markdown`.
    pub mime_type: String,
    /// The prompt markdown without its frontmatter block.
    pub text: String,
}

/// Answer `resources/read` for a resolved prompt: its body as markdown
/// text under the URI that was read.
pub fn resource_contents(document: PromptDocument, uri: &str) -> (res: ResourceContent)
    ensures
        res.uri@ == uri@,
        res.mime_type@ == "text/markdown"@,
        res.text@ == document.content@,
{
    ResourceContent {
        uri: uri.to_owned(),
        mime_type: "text/markdown".to_owned(),
        text: document.content,
    }
}

/// How a failed `resources/read` is reported: an unlisted name is
/// `resource_not_found` carrying the prompt's URI; anything else
/// (network, bad deployment) is an internal error carrying the
/// upstream detail.
pub fn resource_error(error: &PromptsUseCaseError) -> (f: McpFailure)
    ensures
        match *error {
            PromptsUseCaseError::NotFound { name } => {
                &&& f.kind == McpErrorKind::ResourceNotFound
                &&& f.message@ == "resource_not_found"@
                &&& f.data matches Some((k, v)) && k@ == "uri"@ && v@ == uri_of(name@)
            },
            PromptsUseCaseError::Repository(_) => {
                &&& f.kind == McpErrorKind::InternalError
                &&& f.message@ == use_case_message(*error)
                &&& f.data is None
            },
        },
{
    match error {
        PromptsUseCaseError::NotFound { name } => McpFailure {
            kind: McpErrorKind::ResourceNotFound,
            message: "resource_not_found".to_owned(),
            data: Some(("uri".to_owned(), prompt_uri(name.as_str()))),
        },
        PromptsUseCaseError::Repository(_) => McpFailure {
            kind: McpErrorKind::InternalError,
            message: error.message(),
            data: None,
        },
    }
}

} // verus!
