use prompts::server::repository::{
    admit_chunk, check_status, decode_prompt, resource_url, PromptsRepositoryError,
    DEFAULT_UPSTREAM_BODY_BYTES,
};

#[test]
fn resource_url_tolerates_trailing_slashes() {
    assert_eq!(
        resource_url("https://46ki75.github.io/prompts", "list.json"),
        "https://46ki75.github.io/prompts/resources/list.json"
    );
    assert_eq!(
        resource_url("https://46ki75.github.io/prompts//", "alpha.md"),
        "https://46ki75.github.io/prompts/resources/alpha.md"
    );
}

#[test]
fn status_classification() {
    assert_eq!(check_status(200, "u"), Ok(()));
    assert_eq!(check_status(204, "u"), Ok(()));
    assert_eq!(
        check_status(404, "u"),
        Err(PromptsRepositoryError::NotFound { url: "u".to_string() })
    );
    assert_eq!(
        check_status(500, "u"),
        Err(PromptsRepositoryError::UpstreamStatus { status: 500, url: "u".to_string() })
    );
    assert_eq!(
        check_status(301, "u"),
        Err(PromptsRepositoryError::UpstreamStatus { status: 301, url: "u".to_string() })
    );
}

#[test]
fn body_cap_fires_once_exceeded() {
    let mut acc = Vec::new();
    assert_eq!(admit_chunk(&mut acc, b"abc", "u", 5), Ok(()));
    assert_eq!(admit_chunk(&mut acc, b"de", "u", 5), Ok(()));
    assert_eq!(acc, b"abcde");
    assert_eq!(
        admit_chunk(&mut acc, b"f", "u", 5),
        Err(PromptsRepositoryError::PayloadTooLarge { url: "u".to_string(), limit_bytes: 5 })
    );
    assert_eq!(acc, b"abcde");
    assert_eq!(DEFAULT_UPSTREAM_BODY_BYTES, 8 * 1024 * 1024);
}

#[test]
fn prompt_bodies_must_be_utf8() {
    assert_eq!(decode_prompt("# ü\n".as_bytes().to_vec(), "u"), Ok("# ü\n".to_string()));
    assert_eq!(
        decode_prompt(vec![0xff, 0xfe], "u"),
        Err(PromptsRepositoryError::InvalidUtf8 { url: "u".to_string() })
    );
}

#[test]
fn repository_messages() {
    let cases = [
        (
            PromptsRepositoryError::Request { url: "u".to_string(), source: "timeout".to_string() },
            "request to u failed: timeout",
        ),
        (PromptsRepositoryError::NotFound { url: "u".to_string() }, "not found upstream: u"),
        (
            PromptsRepositoryError::UpstreamStatus { status: 503, url: "u".to_string() },
            "upstream returned 503 Service Unavailable for u",
        ),
        (
            PromptsRepositoryError::PayloadTooLarge { url: "u".to_string(), limit_bytes: 8388608 },
            "response from u exceeded the 8388608-byte cap",
        ),
        (
            PromptsRepositoryError::InvalidList { url: "u".to_string(), source: "eof".to_string() },
            "invalid list.json from u: eof",
        ),
        (PromptsRepositoryError::InvalidUtf8 { url: "u".to_string() }, "non-UTF-8 prompt body from u"),
    ];
    for (error, message) in cases {
        assert_eq!(error.message(), message);
    }
}

#[test]
fn body_cap_bounds_the_running_total_of_small_chunks() {
    let chunks: [&[u8]; 4] = [b"ab", b"cd", b"ef", b"gh"];
    let mut acc = Vec::new();
    let mut refused_at = None;
    for (index, chunk) in chunks.iter().enumerate() {
        if admit_chunk(&mut acc, chunk, "u", 5).is_err() {
            refused_at = Some(index);
            break;
        }
    }
    assert_eq!(refused_at, Some(2));
    assert_eq!(acc, b"abcd");

    let mut whole = Vec::new();
    for chunk in chunks.iter() {
        assert_eq!(admit_chunk(&mut whole, chunk, "u", 8), Ok(()));
    }
    assert_eq!(whole, b"abcdefgh");
}
