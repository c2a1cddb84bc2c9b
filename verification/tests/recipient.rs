use envy_safe::recipient::{recipient_from_config, resolve_recipient};

#[test]
fn override_wins_when_set_and_nonempty() {
    let r = resolve_recipient(Some("env-key".to_string()), Some("config-key".to_string()));
    assert_eq!(r, Some("env-key".to_string()));
}

#[test]
fn empty_override_falls_back_to_config() {
    let r = resolve_recipient(Some("".to_string()), Some("config-key".to_string()));
    assert_eq!(r, Some("config-key".to_string()));
}

#[test]
fn unset_override_falls_back_to_config() {
    let r = resolve_recipient(None, Some("config-key".to_string()));
    assert_eq!(r, Some("config-key".to_string()));
}

#[test]
fn nothing_resolves_to_none() {
    assert_eq!(resolve_recipient(None, None), None);
    assert_eq!(resolve_recipient(Some("".to_string()), None), None);
}

#[test]
fn config_recipient_field_is_read() {
    let cfg = "recipient = \"age1xyz\"\nother = 3\n";
    assert_eq!(recipient_from_config(cfg), Some("age1xyz".to_string()));
}

#[test]
fn config_without_recipient_yields_none() {
    assert_eq!(recipient_from_config("other = \"x\"\n"), None);
}

#[test]
fn malformed_config_yields_none() {
    assert_eq!(recipient_from_config("not [ valid toml"), None);
}

#[test]
fn non_string_recipient_yields_none() {
    assert_eq!(recipient_from_config("recipient = 42\n"), None);
}
