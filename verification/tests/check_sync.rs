use envy_safe::diff::{check_env, missing_keys, sync_env};
use envy_safe::envmap::parse_env;
use envy_safe::errors::EnvError;

#[test]
fn check_succeeds_when_all_keys_present() {
    assert!(check_env(b"A=1\nB=2", b"A=9\nB=8").is_ok());
}

#[test]
fn check_ignores_value_content() {
    assert!(check_env(b"A=1\nB=2", b"A=\nB=completely-different").is_ok());
    assert!(check_env(b"A=1", b"A=1\nEXTRA=ok").is_ok());
}

#[test]
fn check_reports_missing_keys_in_template_order() {
    let r = check_env(b"A=1\nB=2\nC=3", b"B=2");
    match r {
        Err(EnvError::MissingKeys(ks)) => {
            assert_eq!(ks, vec![b"A".to_vec(), b"C".to_vec()]);
        }
        _ => panic!("expected missing keys"),
    }
}

#[test]
fn check_missing_scenario() {
    let r = check_env(b"A=1\nB=2", b"A=9");
    match r {
        Err(EnvError::MissingKeys(ks)) => {
            assert_eq!(ks, vec![b"B".to_vec()]);
        }
        _ => panic!("expected B to be reported missing"),
    }
}

#[test]
fn missing_keys_lists_only_absent_template_keys() {
    let t = parse_env(b"A=1\nB=2\nC=3");
    let a = parse_env(b"C=9");
    assert_eq!(missing_keys(&t, &a), vec![b"A".to_vec(), b"B".to_vec()]);
    let full = parse_env(b"A=0\nB=0\nC=0");
    assert_eq!(missing_keys(&t, &full), Vec::<Vec<u8>>::new());
}

#[test]
fn sync_is_noop_when_nothing_missing() {
    assert!(sync_env(b"A=1", b"A=9\nB=8").is_none());
}

#[test]
fn sync_appends_missing_with_template_values() {
    let r = sync_env(b"A=1\nB=2", b"A=9").unwrap();
    assert_eq!(r, b"A=9\nB=2\n".to_vec());
}

#[test]
fn sync_keeps_existing_content_as_prefix() {
    let actual = b"# comment\nA=9\nJUNK\n";
    let r = sync_env(b"A=1\nB=2\nC=3", actual).unwrap();
    assert!(r.starts_with(actual));
    assert_eq!(r, b"# comment\nA=9\nJUNK\nB=2\nC=3\n".to_vec());
}

#[test]
fn sync_separates_from_unterminated_last_line() {
    let r = sync_env(b"A=1\nB=2", b"A=9").unwrap();
    let m = parse_env(&r);
    assert_eq!(m.get(b"A"), Some(b"9".to_vec()));
    assert_eq!(m.get(b"B"), Some(b"2".to_vec()));
}

#[test]
fn sync_twice_is_noop() {
    let template = b"A=1\nB=2\nC=3";
    let once = sync_env(template, b"B=9").unwrap();
    assert!(sync_env(template, &once).is_none());
}

#[test]
fn sync_into_empty_file() {
    let r = sync_env(b"A=1", b"").unwrap();
    assert_eq!(r, b"A=1\n".to_vec());
}

#[test]
fn synced_file_passes_check() {
    let template = b"A=1\nB=2";
    let synced = sync_env(template, b"A=9").unwrap();
    assert!(check_env(template, &synced).is_ok());
}
