use envvault::commands::{check_keys, parse_contents, remove_keys};
use envvault::vault::{
    quote_if_needed, split_assignment, unquote, validate_key, EnvVault, KeyError,
};

#[test]
fn round_trips_basic_entries() {
    let v = EnvVault::parse("FOO=bar\nBAZ=qux\n");
    assert_eq!(v.len(), 2);
    let v2 = EnvVault::parse(&v.serialize());
    assert_eq!(v2.entries()[0].key, "FOO");
    assert_eq!(v2.entries()[0].value, "bar");
    assert_eq!(v2.entries()[1].value, "qux");
}

#[test]
fn ignores_comments_blanks_and_export() {
    let v = EnvVault::parse("# a comment\n\nexport API_KEY=sk-123\n");
    assert_eq!(v.len(), 1);
    assert_eq!(v.entries()[0].key, "API_KEY");
    assert_eq!(v.entries()[0].value, "sk-123");
}

#[test]
fn round_trips_tricky_values() {
    // values with spaces, '#', quotes, backslashes, leading/trailing space
    for raw in [
        "value with spaces",
        "has#hash",
        "with\"quote",
        "back\\slash",
        " leading-and-trailing ",
        "",
    ] {
        let mut v = EnvVault::default();
        v.set("K", raw);
        let restored = EnvVault::parse(&v.serialize());
        assert_eq!(restored.entries()[0].value, raw, "failed for {raw:?}");
    }
}

#[test]
fn set_updates_existing_key_in_place() {
    let mut v = EnvVault::parse("A=1\nB=2\n");
    let idx = v.set("A", "99");
    assert_eq!(idx, 0);
    assert_eq!(v.len(), 2);
    assert_eq!(v.entries()[0].value, "99");
}

#[test]
fn key_validation() {
    assert!(validate_key("FOO_BAR1").is_ok());
    assert!(validate_key("_x").is_ok());
    assert!(validate_key("").is_err());
    assert!(validate_key("1abc").is_err());
    assert!(validate_key("has-dash").is_err());
    assert!(validate_key("has space").is_err());
}

#[test]
fn each_key_error_has_its_reason() {
    assert_eq!(validate_key(""), Err(KeyError::Empty));
    assert_eq!(validate_key("1abc"), Err(KeyError::BadStart));
    assert_eq!(validate_key("a-b"), Err(KeyError::BadCharacter));
    assert_eq!(KeyError::Empty.message(), "key cannot be empty");
    assert_eq!(
        KeyError::BadStart.message(),
        "key must start with a letter or underscore"
    );
    assert_eq!(
        KeyError::BadCharacter.message(),
        "key may only contain letters, digits, and underscores"
    );
}

#[test]
fn serializes_with_quotes_only_where_needed() {
    let mut v = EnvVault::default();
    v.set("PLAIN", "a=b c");
    v.set("EMPTY", "");
    v.set("HASH", "x#y");
    v.set("QUOTE", "\"x\\");
    assert_eq!(
        v.serialize().as_str(),
        "PLAIN=a=b c\nEMPTY=\"\"\nHASH=\"x#y\"\nQUOTE=\"\\\"x\\\\\"\n"
    );
}

#[test]
fn parses_odd_lines() {
    let v = EnvVault::parse(
        "  export   A = 'single \\\" quoted' \r\nnoequals\n=novalue\nB=\"a\\nb\\\"\"\nexport=1\n\u{a0}C=\tx\t",
    );
    assert_eq!(v.len(), 4);
    assert_eq!(v.entries()[0].key, "A");
    assert_eq!(v.entries()[0].value, "single \\\" quoted");
    assert_eq!(v.entries()[1].value, "a\\nb\"");
    assert_eq!(v.entries()[2].key, "export");
    assert_eq!(v.entries()[3].key, "C");
    assert_eq!(v.entries()[3].value, "x");
}

#[test]
fn every_value_is_given_back() {
    for raw in [
        "\tx",
        "x\t",
        "a\nb",
        "\n",
        "a\r\nb\r",
        "\r",
        "\u{a0}x\u{2003}",
        "#\"\ny\"",
        "\\u{a}",
        "#\\u{a}\n\\",
        "\\\n",
        "'single'",
        "\"",
        "a\nB=2\n",
        "-----BEGIN KEY-----\nMIIB\n-----END KEY-----\n",
    ] {
        let mut v = EnvVault::default();
        v.set("K", raw);
        v.set("LAST", "z");
        let restored = EnvVault::parse(&v.serialize());
        assert_eq!(restored.len(), 2, "failed for {raw:?}");
        assert_eq!(restored.entries()[0].key, "K");
        assert_eq!(restored.entries()[0].value, raw, "failed for {raw:?}");
        assert_eq!(restored.entries()[1].value, "z");
    }
}

#[test]
fn a_value_with_line_feeds_is_written_over_several_lines() {
    let mut v = EnvVault::default();
    v.set("K", "a\n\"b\\");
    assert_eq!(v.serialize().as_str(), "K=\"a\n\\\"b\\\\\"\n");
    let v = EnvVault::parse("A=1\nK=\"a\nB=2\r\n\n#c\"\nC=3");
    assert_eq!(v.len(), 3);
    assert_eq!(v.entries()[1].value, "a\nB=2\r\n\n#c");
    assert_eq!(v.entries()[2].value, "3");
}

#[test]
fn anything_else_is_read_line_by_line() {
    let pairs = |text: &str| -> Vec<(String, String)> {
        let v = EnvVault::parse(text);
        v.entries().iter().map(|e| (e.key.clone(), e.value.clone())).collect()
    };
    let want = |k: &str, v: &str| (k.to_string(), v.to_string());
    assert_eq!(pairs("K=\"a\nB=2\n"), [want("K", "\"a"), want("B", "2")]);
    assert_eq!(
        pairs("K=\"C:\\dir\\\"\nB=\"x\"\n"),
        [want("K", "C:\\dir\\"), want("B", "x")]
    );
    assert_eq!(pairs("K=\"a\nB=b\" c\n"), [want("K", "\"a"), want("B", "b\" c")]);
    assert_eq!(pairs("#K=\"a\nB=b\"\n"), [want("B", "b\"")]);
    assert_eq!(pairs("export K=\"a\nB=b\"\n"), [want("K", "\"a"), want("B", "b\"")]);
    assert_eq!(pairs("K=\"\\u{a}\\n\"\n"), [want("K", "\\u{a}\\n")]);
}

#[test]
fn unquoting_undoes_quoting() {
    for s in ["", "plain", "a b", "\"", "'", "\\", "a\nb", "\t", "#\\\"\n", "'x'", "\"x\""] {
        assert_eq!(unquote(&quote_if_needed(s)), s);
    }
    assert_eq!(quote_if_needed("a b"), "a b");
    assert_eq!(quote_if_needed(" a\"\\"), "\" a\\\"\\\\\"");
    assert_eq!(quote_if_needed("a\nb"), "\"a\nb\"");
    assert_eq!(unquote("'a\\\\'"), "a\\\\");
    assert_eq!(unquote("\"a\\nb\\\"\\\""), "a\\nb\"\\");
    assert_eq!(unquote("\""), "\"");
}

#[test]
fn splits_assignments() {
    assert!(split_assignment("JUST_A_KEY").is_none());
    let (k, v) = split_assignment(" KEY = \"a b\" ").unwrap();
    assert_eq!(k, "KEY");
    assert_eq!(v, "a b");
    let (k, v) = split_assignment("=x=y").unwrap();
    assert_eq!(k, "");
    assert_eq!(v, "x=y");
}

#[test]
fn removes_and_finds_entries() {
    let mut v = EnvVault::parse("A=1\nB=2\nA=3\n");
    assert!(v.contains("A"));
    assert!(!v.contains("a"));
    v.remove_at(7);
    assert_eq!(v.len(), 3);
    v.remove_at(0);
    assert_eq!(v.entries()[0].key, "B");
    v.set_value_at(9, "no");
    v.set_value_at(0, "two");
    assert_eq!(v.entries()[0].value, "two");
    assert!(!v.is_empty());
    assert!(EnvVault::default().is_empty());
}

#[test]
fn removes_each_key_once() {
    let mut v = EnvVault::parse("A=1\nB=2\nA=3\n");
    assert_eq!(remove_keys(&mut v, &vec!["A".to_string()]), Ok(()));
    assert_eq!(v.serialize().as_str(), "B=2\nA=3\n");
    assert_eq!(
        remove_keys(&mut v, &vec!["B".to_string(), "B".to_string()]),
        Err(1)
    );
    assert_eq!(v.serialize().as_str(), "A=3\n");
}

#[test]
fn checks_all_keys_before_any_is_set() {
    let keys = vec!["OK".to_string(), "not ok".to_string(), "".to_string()];
    assert_eq!(check_keys(&keys), Err((1, KeyError::BadCharacter)));
    assert_eq!(check_keys(&vec!["OK".to_string()]), Ok(()));
}

#[test]
fn contents_must_be_text() {
    assert!(parse_contents(&[0xff, 0xfe]).is_none());
    let v = parse_contents("É=é\n".as_bytes()).unwrap();
    assert_eq!(v.entries()[0].key, "É");
    assert_eq!(v.entries()[0].value, "é");
}

#[test]
fn wiping_leaves_nothing() {
    let mut e = EnvVault::parse("A=secret").entries()[0].clone();
    assert_eq!(e.value, "secret");
    e.wipe();
    assert_eq!(e.key, "");
    assert_eq!(e.value, "");
}
