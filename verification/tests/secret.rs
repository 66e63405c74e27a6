use dshe::secret::{get_or_create_secret, new_secret, write_secret_line};

#[test]
fn a_given_secret_is_used() {
    let hex = "0102".repeat(16);
    let s = get_or_create_secret(Some(&hex), true).unwrap();
    assert_eq!(s.key[..4], [1, 2, 1, 2]);
    assert!(s.line.is_none());
}

#[test]
fn a_given_secret_must_be_one() {
    let e = get_or_create_secret(Some("nonsense"), true).unwrap_err();
    assert_eq!(e.message(), "invalid secret");
}

#[test]
fn a_new_secret_is_shown_on_request() {
    let a = get_or_create_secret(None, true).unwrap();
    let b = get_or_create_secret(None, false).unwrap();
    assert_ne!(a.key, b.key);
    assert_eq!(a.line.unwrap(), write_secret_line(&a.key));
    assert!(b.line.is_none());
}

#[test]
fn a_secret_that_was_shown_can_be_given() {
    let a = get_or_create_secret(None, true).unwrap();
    let line = a.line.unwrap();
    let shown = line.strip_prefix("using secret key ").unwrap();
    assert_eq!(get_or_create_secret(Some(shown), false).unwrap().key, a.key);
}

#[test]
fn secrets_are_shown_in_hexadecimal() {
    let s = new_secret([0xfe; 32], true);
    assert_eq!(s.line.unwrap(), format!("using secret key {}", "fe".repeat(32)));
    assert!(new_secret([0xfe; 32], false).line.is_none());
}
