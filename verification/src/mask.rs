//! Secret masking: stable 8-character hash prefixes for protected values.

use sha2::{Digest, Sha256};
use unicode_normalization::UnicodeNormalization;
use vstd::prelude::*;
use vstd::string::*;
use vstd::utf8::*;

use crate::text::{
    exec_hex_char, hex_byte, hex_lower, is_hex_digit_lower, lemma_hex_lower_append, lemma_hex_lower_digits,
    lemma_hex_lower_len, push_char,
};

verus! {

/// The SHA-256 digest of a byte string.
pub uninterp spec fn sha256_digest(data: Seq<u8>) -> Seq<u8>;

/// The Unicode Normalization Form C of a string.
pub uninterp spec fn nfc_form(s: Seq<char>) -> Seq<char>;

/// Calls `sha2::Sha256::digest` and copies the digest out.
///
/// Claimed: the result is `sha256_digest` of the input and, as the digest
/// type `GenericArray<u8, U32>` fixes, it is 32 bytes long.
#[verifier::external_body]
fn sha256(data: &[u8]) -> (r: Vec<u8>)
    ensures
        r@ == sha256_digest(data@),
        r@.len() == 32,
{
    Sha256::digest(data).to_vec()
}

/// Calls `unicode_normalization::UnicodeNormalization::nfc` on the string's
/// chars and collects the result.
///
/// Claimed: the result is `nfc_form` of the input, and an all-ASCII input
/// comes back unchanged: ASCII characters have no canonical decomposition,
/// combining class 0, and no canonical composition with one another, so
/// the crate's decompose-then-recompose iterator yields them as they are.
#[verifier::external_body]
fn nfc(s: &str) -> (r: String)
    ensures
        r@ == nfc_form(s@),
        is_ascii_chars(s@) ==> r@ == s@,
{
    s.nfc().collect()
}

/// The 8-char prefix of the lowercase hex SHA-256 digest of `b`.
pub open spec fn hash_of_bytes(b: Seq<u8>) -> Seq<char> {
    hex_lower(sha256_digest(b)).take(8)
}

/// The hash prefix of a text: of the UTF-8 bytes of its NFC form.
pub open spec fn hash_of_text(s: Seq<char>) -> Seq<char> {
    hash_of_bytes(encode_utf8(nfc_form(s)))
}

/// 8-character lowercase-hex prefix of SHA-256(plaintext).
#[derive(Debug, Clone, PartialEq, Eq, Hash)]
pub struct HashPrefix(pub String);

impl View for HashPrefix {
    type V = Seq<char>;

    open spec fn view(&self) -> Seq<char> {
        self.0@
    }
}

impl HashPrefix {
    /// Number of hex characters kept.
    pub const LEN: usize = 8;

    /// Compute hash prefix over UTF-8 NFC-normalized plaintext.
    ///
    /// Inputs in NFC and NFD that represent the same logical text hash
    /// identically. For pure-ASCII text the result equals `of_bytes` of
    /// its bytes.
    pub fn of(plaintext: &str) -> (r: Self)
        ensures
            r@ == hash_of_text(plaintext@),
            r@.len() == Self::LEN,
            forall|i: int| 0 <= i < r@.len() ==> is_hex_digit_lower(#[trigger] r@[i]),
            is_ascii_chars(plaintext@) ==> r@ == hash_of_bytes(plaintext.spec_bytes()),
    {
        let normalized = nfc(plaintext);
        Self::of_bytes(normalized.as_str().as_bytes())
    }

    /// Compute hash prefix over arbitrary binary content.
    pub fn of_bytes(bytes: &[u8]) -> (r: Self)
        ensures
            r@ == hash_of_bytes(bytes@),
            r@.len() == Self::LEN,
            forall|i: int| 0 <= i < r@.len() ==> is_hex_digit_lower(#[trigger] r@[i]),
    {
        let digest = sha256(bytes);
        let mut out = String::new();
        let mut i: usize = 0;
        while i < 4
            invariant
                i <= 4,
                digest@.len() == 32,
                out@ == hex_lower(digest@.take(i as int)),
            decreases 4 - i,
        {
            let b = digest[i];
            push_char(&mut out, exec_hex_char((b / 16) as u32));
            push_char(&mut out, exec_hex_char((b % 16) as u32));
            proof {
                assert(digest@.take(i + 1) =~= digest@.take(i as int) + seq![b]);
                lemma_hex_lower_append(digest@.take(i as int), seq![b]);
                assert(hex_lower(seq![b]) =~= hex_byte(b) + hex_lower(seq![b].drop_first()));
                assert(hex_lower(seq![b].drop_first()) =~= Seq::<char>::empty());
            }
            i = i + 1;
        }
        proof {
            let d = digest@;
            assert(d =~= d.take(4) + d.skip(4));
            lemma_hex_lower_append(d.take(4), d.skip(4));
            lemma_hex_lower_len(d.take(4));
            assert(hex_lower(d).take(8) =~= hex_lower(d.take(4)));
            lemma_hex_lower_digits(d.take(4));
        }
        HashPrefix(out)
    }

    /// The prefix as a string (what `Display` shows).
    pub fn to_string(&self) -> (r: String)
        ensures
            r@ == self@,
    {
        self.0.clone()
    }
}

/// Texts with the same NFC form get the same hash prefix, so NFC and NFD
/// spellings of one text mask identically.
pub proof fn lemma_hash_of_text_respects_nfc(s: Seq<char>, t: Seq<char>)
    requires
        nfc_form(s) == nfc_form(t),
    ensures
        hash_of_text(s) == hash_of_text(t),
{
}

} // verus!
