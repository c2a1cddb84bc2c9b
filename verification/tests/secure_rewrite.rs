use envy_safe::errors::EnvError;
use envy_safe::rewrite::replace_key;
use envy_safe::secure::{decrypt_key, encrypt_key};

/// An invertible stand-in for the external cipher: reverses the bytes.
fn stub_transform(v: &[u8]) -> Vec<u8> {
    v.iter().rev().copied().collect()
}

#[test]
fn replace_key_rewrites_exactly_the_matching_line() {
    let r = replace_key(b"A=1\nSECRET=old\nB=2", b"SECRET", b"SECRET=new");
    assert_eq!(r, b"A=1\nSECRET=new\nB=2".to_vec());
}

#[test]
fn replace_key_preserves_other_lines_and_order() {
    let contents = b"# note\nA=1\nJUNK\nB=2";
    let r = replace_key(contents, b"A", b"A=x");
    assert_eq!(r, b"# note\nA=x\nJUNK\nB=2".to_vec());
}

#[test]
fn replace_key_without_match_returns_content_unchanged() {
    let contents = b"A=1\nB=2";
    let r = replace_key(contents, b"C", b"C=3");
    assert_eq!(r, contents.to_vec());
}

#[test]
fn replace_key_matches_indented_lines() {
    let r = replace_key(b"  A=1\nB=2", b"A", b"A=x");
    assert_eq!(r, b"A=x\nB=2".to_vec());
}

#[test]
fn replace_key_does_not_match_longer_keys() {
    let r = replace_key(b"AB=1\nA=2", b"A", b"A=x");
    assert_eq!(r, b"AB=1\nA=x".to_vec());
}

#[test]
fn encrypt_key_missing_key_fails_without_change() {
    let contents = b"A=1\nB=2";
    match encrypt_key(contents, b"SECRET", b"whatever") {
        Err(EnvError::KeyNotFound) => {}
        _ => panic!("expected KeyNotFound"),
    }
}

#[test]
fn decrypt_key_missing_key_fails() {
    match decrypt_key(b"A=1", b"SECRET") {
        Err(EnvError::KeyNotFound) => {}
        _ => panic!("expected KeyNotFound"),
    }
}

#[test]
fn encrypt_key_replaces_value_with_ciphertext() {
    let contents = b"A=1\nSECRET=plain\nB=2";
    let cipher = stub_transform(b"plain");
    let new_contents = encrypt_key(contents, b"SECRET", &cipher).unwrap();
    let mut expected = b"A=1\nSECRET=".to_vec();
    expected.extend_from_slice(&cipher);
    expected.extend_from_slice(b"\nB=2");
    assert_eq!(new_contents, expected);
}

#[test]
fn encrypt_then_decrypt_round_trip() {
    let contents = b"SECRET=plain";
    let cipher = stub_transform(b"plain");
    let new_contents = encrypt_key(contents, b"SECRET", &cipher).unwrap();
    let stored = decrypt_key(&new_contents, b"SECRET").unwrap();
    assert_eq!(stored, cipher);
    assert_eq!(stub_transform(&stored), b"plain".to_vec());
}

#[test]
fn decrypt_key_reads_without_modifying() {
    let contents = b"A=1\nSECRET=abc";
    let v = decrypt_key(contents, b"SECRET").unwrap();
    assert_eq!(v, b"abc".to_vec());
    assert_eq!(contents, b"A=1\nSECRET=abc");
}
