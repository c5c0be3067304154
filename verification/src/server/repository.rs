//! The distribution as the server reads it over HTTP: where each file
//! lives, which upstream answers count as failures, how large a body may
//! grow, and how a prompt body is decoded.
//!
//! The distribution contract (see the repository README) is two kinds
//! of files under `<base>/resources/`:
//!
//! - `list.json` — JSON array of index entries
//! - `<path>` — one markdown file per prompt, referenced by `list.json`
//!
//! The requests themselves are made by the program around this library.

use vstd::prelude::*;
use vstd::string::*;
use vstd::utf8::{encode_utf8, valid_utf8};
use crate::server::prompts::{decimal, decimal_chars};
use crate::text::{chars_of, push_char, push_range};

verus! {

/// One entry of `list.json`, mirroring the builder's output shape.
#[derive(Debug, Clone, PartialEq, Eq)]
pub struct PromptEntry {
    /// Name of the prompt, e.g. `information-retrieval-policy`.
    pub name: String,
    /// Human-readable title (the prompt's first `#` heading).
    pub title: String,
    /// One-line summary, when the index carries one.
    pub description: Option<String>,
    /// Declared argument names, in positional order (empty when the
    /// index carries none).
    pub arguments: Vec<String>,
    /// Path of the markdown file relative to `resources/`.
    pub path: String,
}

/// Errors surfaced by the repository layer.
#[derive(Debug, Clone, PartialEq, Eq)]
pub enum PromptsRepositoryError {
    /// The HTTP request itself failed (DNS, TLS, timeout, ...).
    Request {
        /// URL the failing request targeted.
        url: String,
        /// What the transport reported.
        source: String,
    },
    /// The upstream returned 404 for the requested file.
    NotFound {
        /// URL that returned 404.
        url: String,
    },
    /// The upstream returned a non-2xx, non-404 status.
    UpstreamStatus {
        /// HTTP status returned.
        status: u16,
        /// URL that returned the status.
        url: String,
    },
    /// The response body exceeded the configured size cap.
    PayloadTooLarge {
        /// URL whose body blew the cap.
        url: String,
        /// The cap that fired.
        limit_bytes: usize,
    },
    /// `list.json` did not parse as the expected entry array.
    InvalidList {
        /// URL the malformed index was fetched from.
        url: String,
        /// What the JSON decoder reported.
        source: String,
    },
    /// A prompt body was not valid UTF-8.
    InvalidUtf8 {
        /// URL the malformed body was fetched from.
        url: String,
    },
}

/// Default per-response body size cap: 8 MiB.
///
/// Prompts are markdown documents of a few KB; `list.json` is smaller
/// still. 8 MiB leaves generous headroom while keeping a misbehaving
/// host from pinning the process with an arbitrarily large body.
pub const DEFAULT_UPSTREAM_BODY_BYTES: usize = 8 * 1024 * 1024;

// ---------------------------------------------------------------------
// Status lines
// ---------------------------------------------------------------------

/// The reason phrase that `http::StatusCode`'s `Display` writes after
/// the number: the canonical reason, or `<unknown status code>`.
pub uninterp spec fn status_reason(status: u16) -> Seq<char>;

/// The text of an HTTP status as `http::StatusCode` displays it, for a
/// status in `100..=999` (`StatusCode::from_u16`, then `Display`). The
/// contract claims that a status in that range is accepted and displays
/// as its decimal number, a space and [`status_reason`], and that any
/// other status is refused; the reason phrase itself is not stated.
#[verifier::external_body]
fn status_display(status: u16) -> (res: Option<String>)
    ensures
        res is Some <==> 100 <= status <= 999,
        res matches Some(t) ==> t@ == decimal(status as nat) + seq![' '] + status_reason(status),
{
    match reqwest::StatusCode::from_u16(status) {
        Ok(code) => Some(code.to_string()),
        Err(_) => None,
    }
}

/// The text of an HTTP status in error messages.
pub open spec fn status_text(status: u16) -> Seq<char> {
    if 100 <= status <= 999 {
        decimal(status as nat) + seq![' '] + status_reason(status)
    } else {
        decimal(status as nat)
    }
}

/// The message of a repository error.
pub open spec fn repository_message(e: PromptsRepositoryError) -> Seq<char> {
    match e {
        PromptsRepositoryError::Request { url, source } => "request to "@ + url@ + " failed: "@
            + source@,
        PromptsRepositoryError::NotFound { url } => "not found upstream: "@ + url@,
        PromptsRepositoryError::UpstreamStatus { status, url } => "upstream returned "@
            + status_text(status) + " for "@ + url@,
        PromptsRepositoryError::PayloadTooLarge { url, limit_bytes } => "response from "@ + url@
            + " exceeded the "@ + decimal(limit_bytes as nat) + "-byte cap"@,
        PromptsRepositoryError::InvalidList { url, source } => "invalid list.json from "@ + url@
            + ": "@ + source@,
        PromptsRepositoryError::InvalidUtf8 { url } => "non-UTF-8 prompt body from "@ + url@,
    }
}

/// Appends `v` to `s`.
fn push_chars(s: &mut String, v: &Vec<char>)
    ensures
        final(s)@ == old(s)@ + v@,
{
    push_range(s, v, 0, v.len());
    assert(v@.subrange(0, v@.len() as int) =~= v@);
}

impl PromptsRepositoryError {
    /// The human-readable message of this error.
    pub fn message(&self) -> (res: String)
        ensures
            res@ == repository_message(*self),
    {
        match self {
            PromptsRepositoryError::Request { url, source } => {
                let mut m = "request to ".to_owned();
                m.append(url.as_str());
                m.append(" failed: ");
                m.append(source.as_str());
                m
            },
            PromptsRepositoryError::NotFound { url } => {
                let mut m = "not found upstream: ".to_owned();
                m.append(url.as_str());
                m
            },
            PromptsRepositoryError::UpstreamStatus { status, url } => {
                let mut m = "upstream returned ".to_owned();
                match status_display(*status) {
                    Some(t) => m.append(t.as_str()),
                    None => {
                        let d = decimal_chars(*status as usize);
                        push_chars(&mut m, &d);
                    },
                }
                m.append(" for ");
                m.append(url.as_str());
                m
            },
            PromptsRepositoryError::PayloadTooLarge { url, limit_bytes } => {
                let mut m = "response from ".to_owned();
                m.append(url.as_str());
                m.append(" exceeded the ");
                let d = decimal_chars(*limit_bytes);
                push_chars(&mut m, &d);
                m.append("-byte cap");
                m
            },
            PromptsRepositoryError::InvalidList { url, source } => {
                let mut m = "invalid list.json from ".to_owned();
                m.append(url.as_str());
                m.append(": ");
                m.append(source.as_str());
                m
            },
            PromptsRepositoryError::InvalidUtf8 { url } => {
                let mut m = "non-UTF-8 prompt body from ".to_owned();
                m.append(url.as_str());
                m
            },
        }
    }
}

// ---------------------------------------------------------------------
// Locations
// ---------------------------------------------------------------------

/// `s` without its trailing `/` characters.
pub open spec fn trim_slashes(s: Seq<char>) -> Seq<char>
    decreases s.len(),
{
    if s.len() > 0 && s.last() == '/' {
        trim_slashes(s.drop_last())
    } else {
        s
    }
}

/// The URL of `file` in the distribution at `base_url`:
/// `<base>/resources/<file>`, whatever trailing slashes the base has.
pub open spec fn resource_location(base_url: Seq<char>, file: Seq<char>) -> Seq<char> {
    trim_slashes(base_url) + "/resources/"@ + file
}

/// The URL of `file` under the distribution at `base_url`. A trailing
/// slash on `base_url` is tolerated.
pub fn resource_url(base_url: &str, file: &str) -> (res: String)
    ensures
        res@ == resource_location(base_url@, file@),
{
    let v = chars_of(base_url);
    let mut n = v.len();
    assert(v@.subrange(0, v@.len() as int) =~= v@);
    while n > 0 && v[n - 1] == '/'
        invariant
            n <= v@.len(),
            trim_slashes(v@) == trim_slashes(v@.subrange(0, n as int)),
        decreases n,
    {
        assert(v@.subrange(0, n as int).drop_last() =~= v@.subrange(0, n - 1));
        n = n - 1;
    }
    proof {
        assert(v@.subrange(0, v@.len() as int) =~= v@);
    }
    let mut url = crate::text::string_of_range(&v, 0, n);
    url.append("/resources/");
    url.append(file);
    url
}

/// Trailing slashes on the base URL make no difference to where a file
/// is found.
pub proof fn trailing_slash_is_tolerated(base_url: Seq<char>, file: Seq<char>)
    ensures
        resource_location(base_url + seq!['/'], file) == resource_location(base_url, file),
{
    assert((base_url + seq!['/']).drop_last() =~= base_url);
}

// ---------------------------------------------------------------------
// Upstream answers
// ---------------------------------------------------------------------

/// How an upstream status is classified: 404 is `NotFound`, any other
/// status outside `200..=299` is `UpstreamStatus`, a success passes.
pub fn check_status(status: u16, url: &str) -> (res: Result<(), PromptsRepositoryError>)
    ensures
        status == 404 ==> (res matches Err(PromptsRepositoryError::NotFound { url: u }) && u@
            == url@),
        status != 404 && !(200 <= status <= 299) ==> (res matches Err(
            PromptsRepositoryError::UpstreamStatus { status: s, url: u },
        ) && s == status && u@ == url@),
        200 <= status <= 299 ==> res is Ok,
{
    if status == 404 {
        return Err(PromptsRepositoryError::NotFound { url: url.to_owned() });
    }
    if !(200 <= status && status <= 299) {
        return Err(PromptsRepositoryError::UpstreamStatus { status, url: url.to_owned() });
    }
    Ok(())
}

/// All `chunks` one after another.
pub open spec fn concat_chunks(chunks: Seq<Seq<u8>>) -> Seq<u8>
    decreases chunks.len(),
{
    if chunks.len() == 0 {
        Seq::empty()
    } else {
        concat_chunks(chunks.drop_last()) + chunks.last()
    }
}

/// The body once `chunk` is taken after `acc`: `None` when it would
/// grow past `limit_bytes`.
pub open spec fn admitted(acc: Seq<u8>, chunk: Seq<u8>, limit_bytes: nat) -> Option<Seq<u8>> {
    if acc.len() + chunk.len() <= limit_bytes {
        Some(acc + chunk)
    } else {
        None
    }
}

/// The body read from `chunks` by taking them one at a time from an
/// empty body, as [`admit_chunk`] does: `None` once a chunk is refused,
/// whatever follows it.
pub open spec fn read_chunks(chunks: Seq<Seq<u8>>, limit_bytes: nat) -> Option<Seq<u8>>
    decreases chunks.len(),
{
    if chunks.len() == 0 {
        Some(Seq::empty())
    } else {
        match read_chunks(chunks.drop_last(), limit_bytes) {
            Some(acc) => admitted(acc, chunks.last(), limit_bytes),
            None => None,
        }
    }
}

/// Taking chunks one at a time bounds the whole body, not just each
/// chunk: the body read is the concatenation of all chunks exactly when
/// its total size is within the limit, and is refused otherwise. The
/// refusal comes at the first chunk whose running total exceeds the
/// limit, every earlier prefix having been read in full, and once a
/// prefix is refused no later chunk is taken.
pub proof fn chunked_read_is_bounded(chunks: Seq<Seq<u8>>, limit_bytes: nat)
    ensures
        read_chunks(chunks, limit_bytes) == if concat_chunks(chunks).len() <= limit_bytes {
            Some(concat_chunks(chunks))
        } else {
            None::<Seq<u8>>
        },
        forall|k: int|
            0 <= k < chunks.len() && concat_chunks(chunks.take(k)).len() <= limit_bytes
                < concat_chunks(#[trigger] chunks.take(k + 1)).len() ==> read_chunks(
                chunks.take(k),
                limit_bytes,
            ) == Some(concat_chunks(chunks.take(k))) && read_chunks(
                chunks.take(k + 1),
                limit_bytes,
            ) is None,
        forall|m: int, n: int|
            0 <= m <= n <= chunks.len() && (#[trigger] read_chunks(chunks.take(m), limit_bytes))
                is None ==> (#[trigger] read_chunks(chunks.take(n), limit_bytes)) is None,
{
    lemma_read_chunks(chunks, limit_bytes);
    assert forall|k: int|
        0 <= k < chunks.len() && concat_chunks(chunks.take(k)).len() <= limit_bytes
            < concat_chunks(#[trigger] chunks.take(k + 1)).len() implies read_chunks(
        chunks.take(k),
        limit_bytes,
    ) == Some(concat_chunks(chunks.take(k))) && read_chunks(chunks.take(k + 1), limit_bytes)
        is None by {
        lemma_read_chunks(chunks.take(k), limit_bytes);
        lemma_read_chunks(chunks.take(k + 1), limit_bytes);
    }
    assert forall|m: int, n: int|
        0 <= m <= n <= chunks.len() && (#[trigger] read_chunks(chunks.take(m), limit_bytes))
            is None implies (#[trigger] read_chunks(chunks.take(n), limit_bytes)) is None by {
        lemma_read_chunks(chunks.take(m), limit_bytes);
        lemma_read_chunks(chunks.take(n), limit_bytes);
        lemma_concat_prefix_len(chunks, m, n);
    }
}

proof fn lemma_read_chunks(chunks: Seq<Seq<u8>>, limit_bytes: nat)
    ensures
        read_chunks(chunks, limit_bytes) == if concat_chunks(chunks).len() <= limit_bytes {
            Some(concat_chunks(chunks))
        } else {
            None::<Seq<u8>>
        },
    decreases chunks.len(),
{
    if chunks.len() > 0 {
        lemma_read_chunks(chunks.drop_last(), limit_bytes);
    }
}

/// A longer prefix of the chunks is at least as long once joined.
proof fn lemma_concat_prefix_len(chunks: Seq<Seq<u8>>, m: int, n: int)
    requires
        0 <= m <= n <= chunks.len(),
    ensures
        concat_chunks(chunks.take(m)).len() <= concat_chunks(chunks.take(n)).len(),
    decreases n - m,
{
    if m < n {
        lemma_concat_prefix_len(chunks, m, n - 1);
        assert(chunks.take(n).drop_last() =~= chunks.take(n - 1));
    }
}

/// Takes one more chunk of a response body into `acc`, unless the body
/// would then exceed `limit_bytes`: the running size is checked chunk by
/// chunk, so a misbehaving host cannot pin the process with an inflated
/// body whatever its `Content-Length` says.
pub fn admit_chunk(acc: &mut Vec<u8>, chunk: &[u8], url: &str, limit_bytes: usize) -> (res: Result<
    (),
    PromptsRepositoryError,
>)
    ensures
        match admitted(old(acc)@, chunk@, limit_bytes as nat) {
            Some(body) => res is Ok && final(acc)@ == body,
            None => final(acc)@ == old(acc)@ && (res matches Err(
                PromptsRepositoryError::PayloadTooLarge { url: u, limit_bytes: l },
            ) && u@ == url@ && l == limit_bytes),
        },
        old(acc)@.len() <= limit_bytes ==> final(acc)@.len() <= limit_bytes,
{
    if chunk.len() > limit_bytes || acc.len() > limit_bytes - chunk.len() {
        return Err(PromptsRepositoryError::PayloadTooLarge { url: url.to_owned(), limit_bytes });
    }
    let mut i: usize = 0;
    let ghost start = acc@;
    while i < chunk.len()
        invariant
            i <= chunk@.len(),
            acc@ == start + chunk@.subrange(0, i as int),
        decreases chunk@.len() - i,
    {
        acc.push(chunk[i]);
        i = i + 1;
        assert(acc@ =~= start + chunk@.subrange(0, i as int));
    }
    assert(chunk@.subrange(0, chunk@.len() as int) =~= chunk@);
    Ok(())
}

/// The string whose UTF-8 encoding is `bytes` (`String::from_utf8`),
/// when `bytes` is valid UTF-8.
#[verifier::external_body]
fn string_from_utf8(bytes: Vec<u8>) -> (res: Option<String>)
    ensures
        res is Some <==> valid_utf8(bytes@),
        res matches Some(s) ==> encode_utf8(s@) == bytes@,
{
    String::from_utf8(bytes).ok()
}

/// A prompt body as text: `InvalidUtf8` when the bytes are not UTF-8.
pub fn decode_prompt(body: Vec<u8>, url: &str) -> (res: Result<String, PromptsRepositoryError>)
    ensures
        valid_utf8(body@) <==> res is Ok,
        res matches Ok(s) ==> encode_utf8(s@) == body@,
        res matches Err(e) ==> (e matches PromptsRepositoryError::InvalidUtf8 { url: u } && u@
            == url@),
{
    match string_from_utf8(body) {
        Some(s) => Ok(s),
        None => Err(PromptsRepositoryError::InvalidUtf8 { url: url.to_owned() }),
    }
}

} // verus!
