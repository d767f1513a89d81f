//! Tests of table-identifier derivation against the published SHA-256 test
//! vectors, and of its determinism.

use docsearch::derive_table_id;

#[test]
fn known_digest_of_abc() {
    assert_eq!(
        derive_table_id("abc"),
        "ba7816bf8f01cfea414140de5dae2223b00361a396177a9cb410ff61f20015ad"
    );
}

#[test]
fn known_digest_of_empty_name() {
    assert_eq!(
        derive_table_id(""),
        "e3b0c44298fc1c149afbf4c8996fb92427ae41e4649b934ca495991b7852b855"
    );
}

#[test]
fn equal_names_equal_ids() {
    let a = derive_table_id("A Tale of Two Cities");
    let b = derive_table_id("A Tale of Two Cities");
    assert_eq!(a, b);
}

#[test]
fn distinct_names_distinct_ids() {
    let a = derive_table_id("volume one");
    let b = derive_table_id("volume two");
    assert_ne!(a, b);
}

#[test]
fn id_is_lowercase_hex_of_fixed_length() {
    let id = derive_table_id("any document");
    assert_eq!(id.len(), 64);
    assert!(id.chars().all(|c| c.is_ascii_hexdigit() && !c.is_ascii_uppercase()));
}
