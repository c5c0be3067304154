# prompts

A library for a repository of prompt projects published as static files,
and for the MCP server that re-exposes them. Its logic is written in
Verus and proved against its contracts.

## Layout

- `src/text.rs` — whitespace (Unicode `White_Space`), trimming, searching
  and line structure over `Seq<char>`, with executable forms.
- `src/builder/` — the distribution's index: locating and stripping the
  `---` frontmatter block, argument names from `argument-hint`, titles
  from the first `# ` heading, index entries, and a stable ordering by
  name.
- `src/server/` — the server's rules: resolving names through
  `list.json`, enriching the listing with frontmatter, `prompts://` URIs,
  argument substitution for `prompts/get`, classifying upstream answers,
  bounding response bodies, and how failures are reported.
- `tests/` — tests of the library on concrete values.
- `app/` — the program around the library: file-system scanning and
  writing of the distribution, YAML and JSON decoding and encoding, HTTP
  requests, and the MCP transports (`build`, `stdio`, `http`
  subcommands).
