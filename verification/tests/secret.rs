use rusty_vault::secret::{
    generate_secret, parse_special_spec, resolve_generate_options, str_chars, DEFAULT_SPECIAL_CHARS,
};

fn count(s: &str, f: impl Fn(char) -> bool) -> usize {
    s.chars().filter(|c| f(*c)).count()
}

#[test]
fn default_secret_has_length_twelve_and_each_class() {
    let (u, l, d, s) = resolve_generate_options(None, None, None, None);
    assert_eq!((u, l, d), (Some(1), Some(1), Some(1)));
    assert!(s.is_none());
    let secret = generate_secret(12, u, l, d, s);
    assert_eq!(secret.chars().count(), 12);
    assert!(count(&secret, |c| c.is_ascii_uppercase()) >= 1);
    assert!(count(&secret, |c| c.is_ascii_lowercase()) >= 1);
    assert!(count(&secret, |c| c.is_ascii_digit()) >= 1);
    assert!(secret.chars().all(|c| c.is_ascii_alphanumeric()));
}

#[test]
fn length_grows_to_fit_the_minimums() {
    let secret = generate_secret(4, Some(3), Some(2), Some(2), None);
    assert_eq!(secret.chars().count(), 7);
    assert!(count(&secret, |c| c.is_ascii_uppercase()) >= 3);
    assert!(count(&secret, |c| c.is_ascii_lowercase()) >= 2);
    assert!(count(&secret, |c| c.is_ascii_digit()) >= 2);
}

#[test]
fn only_requested_classes_appear() {
    let secret = generate_secret(30, None, None, Some(1), None);
    assert_eq!(secret.chars().count(), 30);
    assert!(secret.chars().all(|c| c.is_ascii_digit()));
}

#[test]
fn special_characters_come_from_the_charset() {
    let secret = generate_secret(10, None, None, None, Some(("!@#".to_string(), 2)));
    assert_eq!(secret.chars().count(), 10);
    assert!(secret.chars().all(|c| "!@#".contains(c)));
}

#[test]
fn zero_length_with_no_minimum_is_empty() {
    let secret = generate_secret(0, Some(0), None, None, None);
    assert_eq!(secret, "");
}

#[test]
fn special_spec_default_charset_min_one() {
    assert_eq!(parse_special_spec(""), (DEFAULT_SPECIAL_CHARS.to_string(), 1));
    assert_eq!(DEFAULT_SPECIAL_CHARS, "!@#$%^&*()-_=+");
}

#[test]
fn special_spec_default_charset_with_min() {
    assert_eq!(parse_special_spec("2"), ("!@#$%^&*()-_=+".to_string(), 2));
}

#[test]
fn special_spec_charset_only() {
    assert_eq!(parse_special_spec("!@#"), ("!@#".to_string(), 1));
}

#[test]
fn special_spec_charset_and_min() {
    assert_eq!(parse_special_spec("!@#2"), ("!@#".to_string(), 2));
    assert_eq!(parse_special_spec("!@#\"12"), ("!@#\"".to_string(), 12));
}

#[test]
fn special_spec_overflowing_min_is_one() {
    assert_eq!(parse_special_spec("ab99999999999999999999999"), ("ab".to_string(), 1));
}

#[test]
fn special_spec_only_trailing_digits_count() {
    assert_eq!(parse_special_spec("1a2"), ("1a".to_string(), 2));
    assert_eq!(parse_special_spec("é007"), ("é".to_string(), 7));
}

#[test]
fn explicit_flags_are_kept() {
    let (u, l, d, s) = resolve_generate_options(Some(2), None, None, Some("%3"));
    assert_eq!((u, l, d), (Some(2), None, None));
    assert_eq!(s, Some(("%".to_string(), 3)));
}

#[test]
fn chars_of_a_string() {
    assert_eq!(str_chars("aé1"), vec!['a', 'é', '1']);
}
