use envy_safe::envmap::parse_env;

fn get(contents: &str, key: &str) -> Option<String> {
    let m = parse_env(contents.as_bytes());
    m.get(key.as_bytes()).map(|v| String::from_utf8(v).unwrap())
}

#[test]
fn parses_simple_pairs() {
    assert_eq!(get("A=1\nB=2", "A"), Some("1".to_string()));
    assert_eq!(get("A=1\nB=2", "B"), Some("2".to_string()));
    assert_eq!(get("A=1\nB=2", "C"), None);
}

#[test]
fn skips_comments() {
    assert_eq!(get("# A=1\nB=2", "A"), None);
    assert_eq!(get("  # A=1\nB=2", "A"), None);
    assert_eq!(get("# A=1\nB=2", "B"), Some("2".to_string()));
}

#[test]
fn drops_lines_without_equals() {
    assert_eq!(get("JUNK\nA=1", "JUNK"), None);
    assert_eq!(get("JUNK\nA=1", "A"), Some("1".to_string()));
}

#[test]
fn splits_on_first_equals_only() {
    assert_eq!(get("URL=http://x?a=b", "URL"), Some("http://x?a=b".to_string()));
}

#[test]
fn trims_keys_and_values() {
    assert_eq!(get("  A  =  1  \n", "A"), Some("1".to_string()));
}

#[test]
fn last_duplicate_wins() {
    assert_eq!(get("A=1\nB=2\nA=3", "A"), Some("3".to_string()));
}

#[test]
fn duplicate_moves_to_last_write_position() {
    let m = parse_env(b"A=1\nB=2\nA=3");
    assert_eq!(m.len(), 2);
    let (k0, v0) = m.pair_at(0);
    let (k1, v1) = m.pair_at(1);
    assert_eq!((k0, v0), (b"B".to_vec(), b"2".to_vec()));
    assert_eq!((k1, v1), (b"A".to_vec(), b"3".to_vec()));
}

#[test]
fn empty_file_has_no_entries() {
    let m = parse_env(b"");
    assert_eq!(m.len(), 0);
    assert!(!m.contains_key(b"A"));
}

#[test]
fn blank_lines_are_ignored() {
    let m = parse_env(b"\n\nA=1\n\n");
    assert_eq!(m.len(), 1);
    assert_eq!(get("\n\nA=1\n\n", "A"), Some("1".to_string()));
}

#[test]
fn empty_value_is_kept() {
    assert_eq!(get("A=\nB=2", "A"), Some("".to_string()));
}
