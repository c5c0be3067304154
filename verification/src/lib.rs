//! Prompt distribution: frontmatter handling, index building and the
//! name-resolution and substitution rules of the prompt server.

/// Character-level text primitives with their specifications.
pub mod text;
/// The static distribution's index.
pub mod builder;
/// The rules of the MCP prompt server.
pub mod server;
