use silicon_music::cache::generate_stream_token;

#[test]
fn stream_token_is_nonempty_hex_and_varies() {
    let a = generate_stream_token();
    let b = generate_stream_token();
    assert_eq!(a.len(), 32, "token should be 128 bits of hex");
    assert!(a.chars().all(|c| c.is_ascii_hexdigit()));
    assert_ne!(a, b, "two tokens in a row must differ");
}
