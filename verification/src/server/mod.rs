//! The rules of the MCP prompt server: how prompts are named, listed,
//! resolved through `list.json`, substituted, and how failures are
//! reported.

/// Frontmatter reading for listed prompts.
pub mod frontmatter;
/// Argument substitution for `prompts/get`.
pub mod prompts;
/// The distribution over HTTP: locations, upstream answers, bodies.
pub mod repository;
/// How failed requests are reported.
pub mod reply;
/// Name resolution, contents and listing enrichment.
pub mod use_case;
/// Prompts as MCP resources.
pub mod resources;
