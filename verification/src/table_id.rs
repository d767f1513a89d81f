//! Table identifiers: a document name is fingerprinted by the hex-encoded
//! SHA-256 digest of its display name, so that equal names always address
//! the same storage table.

use sha2::Digest;
use vstd::prelude::*;

verus! {

/// The SHA-256 digest of a text's UTF-8 bytes; it depends on the text alone.
pub uninterp spec fn sha256_of(s: Seq<char>) -> Seq<u8>;

/// One lowercase hexadecimal digit.
pub open spec fn hex_digit(n: int) -> char {
    if n == 0 {
        '0'
    } else if n == 1 {
        '1'
    } else if n == 2 {
        '2'
    } else if n == 3 {
        '3'
    } else if n == 4 {
        '4'
    } else if n == 5 {
        '5'
    } else if n == 6 {
        '6'
    } else if n == 7 {
        '7'
    } else if n == 8 {
        '8'
    } else if n == 9 {
        '9'
    } else if n == 10 {
        'a'
    } else if n == 11 {
        'b'
    } else if n == 12 {
        'c'
    } else if n == 13 {
        'd'
    } else if n == 14 {
        'e'
    } else {
        'f'
    }
}

/// Lowercase hex encoding: two digits per byte, high nibble first.
pub open spec fn hex_of(bs: Seq<u8>) -> Seq<char>
    decreases bs.len(),
{
    if bs.len() == 0 {
        Seq::empty()
    } else {
        seq![
            hex_digit((bs[0] as int) / 16),
            hex_digit((bs[0] as int) % 16),
        ] + hex_of(bs.drop_first())
    }
}

pub proof fn lemma_hex_of_len(bs: Seq<u8>)
    ensures
        hex_of(bs).len() == 2 * bs.len(),
    decreases bs.len(),
{
    if bs.len() > 0 {
        lemma_hex_of_len(bs.drop_first());
    }
}

/// Relies on `sha2::Sha256` (`Digest::digest`): the SHA-256 digest of the
/// text's UTF-8 bytes — a function of the text alone, always 32 bytes long.
#[verifier::external_body]
fn sha256_digest(s: &str) -> (r: Vec<u8>)
    ensures
        r@ == sha256_of(s@),
        r@.len() == 32,
{
    sha2::Sha256::digest(s.as_bytes()).to_vec()
}

/// Relies on `hex::encode`: lowercase hexadecimal, two digits per byte, high
/// nibble first.
#[verifier::external_body]
fn hex_encode(bytes: &Vec<u8>) -> (r: String)
    ensures
        r@ == hex_of(bytes@),
{
    hex::encode(bytes)
}

/// The table identifier a document name maps to.
pub open spec fn table_id_of(name: Seq<char>) -> Seq<char> {
    hex_of(sha256_of(name))
}

/// Derives the storage table identifier of a document: the hex-encoded
/// SHA-256 digest of the document's display name.
pub fn derive_table_id(document_name: &str) -> (r: String)
    ensures
        r@ == table_id_of(document_name@),
        r@.len() == 64,
{
    let digest = sha256_digest(document_name);
    proof {
        lemma_hex_of_len(digest@);
    }
    hex_encode(&digest)
}

/// Deterministic table id: the identifier is a pure function of the name, so
/// equal document names always address the same table.
pub proof fn lemma_table_id_deterministic(a: Seq<char>, b: Seq<char>)
    requires
        a == b,
    ensures
        table_id_of(a) == table_id_of(b),
{
}

} // verus!
