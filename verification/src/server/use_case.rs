//! The one piece of business logic between the MCP handlers and the
//! repository: prompt names are resolved **through `list.json`**, never
//! mapped to URLs directly. That keeps unlisted files unreadable and
//! makes `list.json` the single source of truth for what exists.
//!
//! Fetching is done by the program around this library; what is decided
//! here is which entry a name resolves to, what a resolved prompt's
//! content is, and how frontmatter enriches the listing.

use vstd::prelude::*;
use vstd::string::*;
use crate::builder::frontmatter::stripped;
use crate::server::frontmatter::{strip, Frontmatter};
use crate::server::repository::{repository_message, PromptEntry, PromptsRepositoryError};
use crate::text::same_text;

verus! {

/// A prompt resolved to both its index entry and its markdown body.
#[derive(Debug, Clone, PartialEq, Eq)]
pub struct PromptDocument {
    /// The `list.json` entry the prompt was resolved from.
    pub entry: PromptEntry,
    /// The prompt markdown, with any leading frontmatter block
    /// removed — the metadata is already surfaced on the listing, so
    /// contents carry only the document body.
    pub content: String,
}

/// A `list.json` entry enriched with the prompt's frontmatter.
#[derive(Debug, Clone, PartialEq, Eq)]
pub struct PromptSummary {
    /// The `list.json` entry.
    pub entry: PromptEntry,
    /// Display title: the frontmatter `name` when present, otherwise
    /// the `list.json` `title` (the prompt's first `#` heading).
    pub title: String,
    /// The frontmatter `description`, when present.
    pub description: Option<String>,
}

/// Errors surfaced by the use case.
#[derive(Debug, Clone, PartialEq, Eq)]
pub enum PromptsUseCaseError {
    /// The requested prompt name is not present in `list.json`.
    NotFound {
        /// The name that failed to resolve.
        name: String,
    },
    /// The repository failed underneath.
    Repository(PromptsRepositoryError),
}

/// The message of a use case error; a repository failure keeps its own.
pub open spec fn use_case_message(e: PromptsUseCaseError) -> Seq<char> {
    match e {
        PromptsUseCaseError::NotFound { name } => "prompt not found: "@ + name@,
        PromptsUseCaseError::Repository(r) => repository_message(r),
    }
}

impl PromptsUseCaseError {
    /// The human-readable message of this error.
    pub fn message(&self) -> (res: String)
        ensures
            res@ == use_case_message(*self),
    {
        match self {
            PromptsUseCaseError::NotFound { name } => {
                let mut m = "prompt not found: ".to_owned();
                m.append(name.as_str());
                m
            },
            PromptsUseCaseError::Repository(r) => r.message(),
        }
    }
}

/// Whether index `i` holds the first entry of `entries` named `name`.
pub open spec fn is_first_named(entries: Seq<PromptEntry>, name: Seq<char>, i: int) -> bool {
    &&& 0 <= i < entries.len()
    &&& entries[i].name@ == name
    &&& forall|j: int| 0 <= j < i ==> (#[trigger] entries[j]).name@ != name
}

/// Whether some entry of `entries` is named `name`.
pub open spec fn is_listed(entries: Seq<PromptEntry>, name: Seq<char>) -> bool {
    exists|i: int| 0 <= i < entries.len() && (#[trigger] entries[i]).name@ == name
}

/// Resolve `name` through the entries of `list.json`: the first entry
/// of that name, or `NotFound` when none has it. Only a path that the
/// index declares is ever fetched afterwards.
pub fn resolve_entry(entries: Vec<PromptEntry>, name: &str) -> (res: Result<
    PromptEntry,
    PromptsUseCaseError,
>)
    ensures
        match res {
            Ok(e) => exists|i: int| is_first_named(entries@, name@, i) && e == entries@[i],
            Err(err) => !is_listed(entries@, name@) && (err matches PromptsUseCaseError::NotFound {
                name: n,
            } && n@ == name@),
        },
{
    let mut i: usize = 0;
    while i < entries.len()
        invariant
            i <= entries@.len(),
            forall|j: int| 0 <= j < i ==> (#[trigger] entries@[j]).name@ != name@,
        ensures
            i <= entries@.len(),
            i < entries@.len() ==> entries@[i as int].name@ == name@,
            forall|j: int| 0 <= j < i ==> (#[trigger] entries@[j]).name@ != name@,
        decreases entries@.len() - i,
    {
        if same_text(entries[i].name.as_str(), name) {
            break;
        }
        i = i + 1;
    }
    if i < entries.len() {
        let ghost all = entries@;
        let mut entries = entries;
        let e = entries.remove(i);
        assert(is_first_named(all, name@, i as int));
        assert(e == all[i as int]);
        return Ok(e);
    }
    Err(PromptsUseCaseError::NotFound { name: name.to_owned() })
}

/// A resolved prompt: its entry, and its fetched markdown without the
/// leading frontmatter block.
pub fn read_document(entry: PromptEntry, content: &str) -> (doc: PromptDocument)
    ensures
        doc.entry == entry,
        doc.content@ == stripped(content@),
{
    PromptDocument { entry, content: strip(content).to_owned() }
}

/// The display title of an entry given its frontmatter: the frontmatter
/// `name` when present, else the entry's own title.
pub open spec fn summary_title(entry: PromptEntry, frontmatter: Option<Frontmatter>) -> Seq<char> {
    match frontmatter {
        Some(f) => match f.name {
            Some(n) => n@,
            None => entry.title@,
        },
        None => entry.title@,
    }
}

/// The description of an entry given its frontmatter: the frontmatter
/// `description`, when present.
pub open spec fn summary_description(frontmatter: Option<Frontmatter>) -> Option<String> {
    match frontmatter {
        Some(f) => f.description,
        None => None,
    }
}

/// Each field of a summary follows its own frontmatter field alone: the
/// description is the frontmatter's description whatever its name, and
/// the title is the frontmatter's name when it has one, else the entry's
/// title, whatever its description; without frontmatter the entry's own
/// title stands and there is no description.
pub proof fn summary_fields_are_independent(entry: PromptEntry, f: Frontmatter)
    ensures
        summary_description(Some(f)) == f.description,
        summary_title(entry, Some(f)) == match f.name {
            Some(n) => n@,
            None => entry.title@,
        },
        summary_description(None) is None,
        summary_title(entry, None) == entry.title@,
{
}

/// Whether `s` is the summary of `entry` under `frontmatter`.
pub open spec fn summarizes(s: PromptSummary, entry: PromptEntry, frontmatter: Option<Frontmatter>) -> bool {
    &&& s.entry == entry
    &&& s.title@ == summary_title(entry, frontmatter)
    &&& s.description == summary_description(frontmatter)
}

/// The listing: each entry in `list.json` order, enriched with the
/// frontmatter fetched for it (`None` where the body could not be
/// fetched or carries no parseable frontmatter, which falls back to the
/// `list.json` metadata).
pub fn summarize(entries: Vec<PromptEntry>, frontmatters: Vec<Option<Frontmatter>>) -> (res: Vec<
    PromptSummary,
>)
    ensures
        res@.len() == if entries@.len() <= frontmatters@.len() {
            entries@.len()
        } else {
            frontmatters@.len()
        },
        forall|i: int|
            0 <= i < res@.len() ==> summarizes(#[trigger] res@[i], entries@[i], frontmatters@[i]),
{
    let ghost all_e = entries@;
    let ghost all_f = frontmatters@;
    let mut entries = entries;
    let mut frontmatters = frontmatters;
    let mut res: Vec<PromptSummary> = Vec::new();
    while entries.len() > 0 && frontmatters.len() > 0
        invariant
            res@.len() + entries@.len() == all_e.len(),
            res@.len() + frontmatters@.len() == all_f.len(),
            forall|k: int| 0 <= k < entries@.len() ==> entries@[k] == all_e[res@.len() + k],
            forall|k: int| 0 <= k < frontmatters@.len() ==> frontmatters@[k] == all_f[res@.len() + k],
            forall|i: int| 0 <= i < res@.len() ==> summarizes(#[trigger] res@[i], all_e[i], all_f[i]),
        decreases entries@.len(),
    {
        let ghost n = res@.len();
        let entry = entries.remove(0);
        let frontmatter = frontmatters.remove(0);
        let summary = match frontmatter {
            Some(f) => {
                let title = match f.name {
                    Some(t) => t,
                    None => entry.title.clone(),
                };
                PromptSummary { entry, title, description: f.description }
            },
            None => {
                let title = entry.title.clone();
                PromptSummary { entry, title, description: None }
            },
        };
        res.push(summary);
        assert(summarizes(res@[n as int], all_e[n as int], all_f[n as int]));
    }
    res
}

} // verus!
