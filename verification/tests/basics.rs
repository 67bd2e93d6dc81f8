use envvault::password::{
    accept_first, accept_new, from_line, require_tty, value_prompt, PasswordError,
};
use envvault::path::FsPath;
use envvault::secret::{SecretBytes, SecretChars, SecretText};
use envvault::text;

#[test]
fn paths_have_components() {
    let a = FsPath::of("/a//b/./c/");
    let b = FsPath::of("/a/b/c");
    assert!(a.is_same(&b));
    assert!(!a.is_same(&FsPath::of("a/b/c")));
    assert!(FsPath::of("./x").is_same(&FsPath::of("./x/")));
    assert!(!FsPath::of("./x").is_same(&FsPath::of("x")));
    assert!(a.starts_with(&FsPath::of("/a/b/")));
    assert!(!FsPath::of("/ab").starts_with(&FsPath::of("/a")));
    assert!(!FsPath::of("/a").starts_with(&b));
    assert!(a.is_absolute() && !FsPath::of("x").is_absolute());
}

#[test]
fn paths_are_ordered_by_component() {
    assert!(FsPath::of("/a/b").is_before(&FsPath::of("/a.b")));
    assert!(FsPath::of("/a").is_before(&FsPath::of("/a/b")));
    assert!(!FsPath::of("/a/").is_before(&FsPath::of("/a")));
    assert!(FsPath::of("/z").is_before(&FsPath::of("a")));
}

#[test]
fn paths_join_and_part() {
    let home = FsPath::of("/home/u");
    assert_eq!(home.join(&FsPath::of("x/y")).display(), "/home/u/x/y");
    assert_eq!(FsPath::of("/h/").join(&FsPath::of("x")).display(), "/h/x");
    assert_eq!(home.join(&FsPath::of("/etc")).display(), "/etc");
    assert_eq!(FsPath::of("").join(&FsPath::of("x")).display(), "x");
    let inner = FsPath::of("/home//u/x/./y");
    assert_eq!(inner.relative_to(&home).unwrap().display(), "x/y");
    assert!(home.join(&inner.relative_to(&home).unwrap()).is_same(&inner));
    assert!(home.relative_to(&inner).is_none());
    assert_eq!(home.relative_to(&home).unwrap().as_bytes(), b"");
}

#[test]
fn odd_bytes_are_shown_as_replacements() {
    assert_eq!(FsPath::new(vec![0xff, b'a']).display(), "\u{fffd}a");
    assert_eq!(FsPath::of("/é").display(), "/é");
}

#[test]
fn secrets_are_wiped() {
    let mut bytes = SecretBytes::new(vec![1, 2, 3]);
    assert_eq!(bytes.len(), 3);
    bytes.wipe();
    assert_eq!(bytes.as_slice(), b"");
    let mut line = SecretText::new("pw".to_string());
    assert_eq!(line.as_str(), "pw");
    line.wipe();
    assert_eq!(line.as_str(), "");
    assert_eq!(SecretChars::of("ab").as_slice(), &['a', 'b']);
}

#[test]
fn passwords_lose_their_line_ends_only() {
    let read = |s: &str| from_line(SecretText::new(s.to_string())).as_str().to_string();
    assert_eq!(read("pw \r\n"), "pw ");
    assert_eq!(read("pw\n\r\n\n"), "pw");
    assert_eq!(read("\n"), "");
    assert_eq!(read("pw"), "pw");
}

#[test]
fn new_passwords_are_typed_twice() {
    assert_eq!(accept_first("x"), Ok(()));
    assert_eq!(accept_first(""), Err(PasswordError::Empty));
    assert_eq!(accept_new("x", "x"), Ok(()));
    assert_eq!(accept_new("x", "y"), Err(PasswordError::Mismatch));
    assert_eq!(accept_new("", ""), Err(PasswordError::Empty));
    assert_eq!(require_tty(true), Ok(()));
    assert_eq!(require_tty(false), Err(PasswordError::NoTerminal));
    assert_eq!(PasswordError::Empty.message(), "password cannot be empty");
    assert_eq!(PasswordError::Mismatch.message(), "passwords did not match");
    assert_eq!(
        PasswordError::NoTerminal.message(),
        "no interactive terminal for password entry; use --password-stdin"
    );
    assert_eq!(value_prompt("KEY"), "Value for KEY: ");
}

#[test]
fn text_is_cut_like_lines() {
    let chars = text::chars_of("a\r\nb\n\nc\r");
    let lines: Vec<String> = text::lines(&chars).iter().map(|l| l.iter().collect()).collect();
    assert_eq!(lines, vec!["a", "b", "", "c\r"]);
    assert!(text::lines(&text::chars_of("")).is_empty());
    let chars = text::chars_of(":a::b");
    let parts: Vec<String> =
        text::split(&chars, ':').iter().map(|l| l.iter().collect()).collect();
    assert_eq!(parts, vec!["", "a", "", "b"]);
}

#[test]
fn text_is_trimmed_of_every_blank() {
    for c in '\0'..='\u{ffff}' {
        assert_eq!(text::is_whitespace(c), c.is_whitespace(), "{c:?}");
    }
    let chars = text::chars_of("\u{3000} x y\t\u{85}");
    assert_eq!(text::string_of(text::trim(&chars)), "x y");
    assert_eq!(text::string_of(text::trim_start(&chars)), "x y\t\u{85}");
    assert_eq!(text::string_of(text::trim_end(&chars)), "\u{3000} x y");
}

#[test]
fn numbers_and_lists_are_written_out() {
    let mut s = String::new();
    text::push_decimal(&mut s, 0);
    text::push_decimal(&mut s, 18446744073709551615);
    assert_eq!(s, "018446744073709551615");
    let parts = vec!["a".to_string(), "".to_string(), "b".to_string()];
    assert_eq!(text::join(&parts, ", "), "a, , b");
    assert_eq!(text::join(&Vec::new(), ", "), "");
    assert_eq!(text::string_of(text::chomp(&text::chars_of("x\n\r\n"))), "x");
    assert_eq!(text::find(&text::chars_of("a=b=c"), '='), 1);
    assert_eq!(text::find(&text::chars_of("abc"), '='), 3);
}
