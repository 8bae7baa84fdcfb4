use diff_kdbx::mask::HashPrefix;

#[test]
fn known_vector_empty() {
    // SHA-256("") = e3b0c442 98fc1c14 ...
    let h = HashPrefix::of("");
    assert_eq!(h.0, "e3b0c442");
}

#[test]
fn known_vector_hello() {
    // SHA-256("hello") = 2cf24dba 5fb0a30e ...
    let h = HashPrefix::of("hello");
    assert_eq!(h.0, "2cf24dba");
}

#[test]
fn length_is_8() {
    let h = HashPrefix::of("any value here");
    assert_eq!(h.0.len(), HashPrefix::LEN);
}

#[test]
fn deterministic() {
    let a = HashPrefix::of("password");
    let b = HashPrefix::of("password");
    assert_eq!(a, b);
}

#[test]
fn different_inputs_produce_different_hashes() {
    let a = HashPrefix::of("password");
    let b = HashPrefix::of("Password");
    assert_ne!(a, b);
}

#[test]
fn display_matches_inner() {
    let h = HashPrefix::of("hello");
    assert_eq!(h.to_string(), "2cf24dba");
}

#[test]
fn hash_prefix_of_bytes_matches_text_for_ascii() {
    let h_text = HashPrefix::of("hello");
    let h_bytes = HashPrefix::of_bytes(b"hello");
    assert_eq!(h_text, h_bytes);
}

#[test]
fn nfc_and_nfd_hash_identically() {
    // U+00E9 (precomposed e-acute) vs U+0065 U+0301 (e + combining acute).
    let nfc = HashPrefix::of("\u{00E9}");
    let nfd = HashPrefix::of("\u{0065}\u{0301}");
    assert_eq!(nfc, nfd);
}

#[test]
fn of_bytes_hashes_binary_content() {
    // SHA-256 of the single byte 0x00 starts with 6e340b9c.
    let h = HashPrefix::of_bytes(&[0u8]);
    assert_eq!(h.0, "6e340b9c");
}

#[test]
fn non_ascii_text_hashes_its_nfc_bytes() {
    // The NFD spelling hashes as the NFC bytes, not as its own bytes.
    let nfd = "\u{0065}\u{0301}";
    assert_eq!(HashPrefix::of(nfd), HashPrefix::of_bytes("\u{00E9}".as_bytes()));
    assert_ne!(HashPrefix::of(nfd), HashPrefix::of_bytes(nfd.as_bytes()));
}

#[test]
fn hash_prefix_is_lowercase_hex() {
    for text in ["", "hello", "Password", "\u{00E9}", "x y z"] {
        let h = HashPrefix::of(text);
        assert!(h.0.chars().all(|c| c.is_ascii_digit() || ('a'..='f').contains(&c)));
    }
}
