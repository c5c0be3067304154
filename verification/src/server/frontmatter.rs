//! Best-effort reading of YAML frontmatter from prompt markdown.
//!
//! Prompts MAY open with a `---`-delimited YAML block carrying `name`
//! and `description` fields. Locating the block is structural and never
//! fails; a missing, unterminated or malformed block leaves callers with
//! the `list.json` metadata.

use vstd::prelude::*;
use crate::builder::frontmatter::{block_parts, stripped};

verus! {

/// The frontmatter fields this server consumes. Unknown fields are
/// ignored so prompts can carry extra metadata without breaking the
/// listing.
#[derive(Debug, Clone, Default, PartialEq, Eq)]
pub struct Frontmatter {
    /// Human-readable display name; projected onto the MCP resource
    /// `title`.
    pub name: Option<String>,
    /// One-line summary; projected onto the MCP resource `description`.
    pub description: Option<String>,
}

/// Split `markdown` into its frontmatter YAML and the rest of the
/// document, or `None` when the document does not open with a
/// well-delimited `---` block.
pub fn split(markdown: &str) -> (res: Option<(&str, &str)>)
    ensures
        match res {
            Some((yaml, rest)) => block_parts(markdown@) == Some((yaml@, rest@)),
            None => block_parts(markdown@) is None,
        },
{
    crate::builder::frontmatter::split(markdown)
}

/// Return `markdown` without its leading frontmatter block, also
/// dropping the blank lines separating the block from the body.
///
/// Stripping is structural: a well-delimited block is removed even if
/// its YAML would not parse. A document without a (well-formed) block
/// is returned unchanged.
pub fn strip(markdown: &str) -> (res: &str)
    ensures
        res@ == stripped(markdown@),
{
    crate::builder::frontmatter::strip(markdown)
}

} // verus!
