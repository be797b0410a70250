use std::borrow::Cow;

use git_config_env::quote::{sq_dequote, sq_dequote_step, QuoteError};

#[test]
fn word() {
    let fixture = "'name'";
    let expected = Cow::Borrowed("name");
    let mut input = fixture;
    let actual = sq_dequote(&mut input).unwrap();
    assert_eq!(actual, expected);
}

#[test]
fn space() {
    let fixture = "'a b'";
    let expected = Cow::Borrowed("a b");
    let mut input = fixture;
    let actual = sq_dequote(&mut input).unwrap();
    assert_eq!(actual, expected);
}

#[test]
fn sq_escaped() {
    let fixture = "'a'\\''b'";
    let expected: Cow<'_, str> = Cow::Owned("a'b".into());
    let mut input = fixture;
    let actual = sq_dequote(&mut input).unwrap();
    assert_eq!(actual, expected);
}

#[test]
fn exclamation_escaped() {
    let fixture = "'a'\\!'b'";
    let expected: Cow<'_, str> = Cow::Owned("a!b".into());
    let mut input = fixture;
    let actual = sq_dequote(&mut input).unwrap();
    assert_eq!(actual, expected);
}

fn step(fixture: &str) -> Option<(&str, &str, bool)> {
    let mut input = fixture;
    match sq_dequote_step(&mut input) {
        Ok(Cow::Borrowed(value)) => Some((value, input, false)),
        Ok(Cow::Owned(value)) => {
            let start = fixture.len() - input.len();
            assert!(fixture[..start].contains('\\'));
            Some((Box::leak(value.into_boxed_str()), input, true))
        }
        Err(QuoteError) => {
            assert_eq!(input, fixture);
            None
        }
    }
}

#[test]
fn plain_text_is_borrowed() {
    assert_eq!(step("'name'"), Some(("name", "", false)));
    assert_eq!(step("''"), Some(("", "", false)));
    assert_eq!(step("'a\\b'"), Some(("a\\b", "", false)));
    assert_eq!(step("'\u{e9}t\u{e9} \u{1f600}'"), Some(("\u{e9}t\u{e9} \u{1f600}", "", false)));
    let fixture = "'name' rest";
    let mut input = fixture;
    match sq_dequote_step(&mut input) {
        Ok(Cow::Borrowed(value)) => {
            assert_eq!(value.as_ptr(), fixture[1..].as_ptr());
        }
        _ => panic!("a plain section is handed out as it stands in the input"),
    }
}

#[test]
fn escaped_text_is_joined() {
    assert_eq!(step("'a'\\''b'"), Some(("a'b", "", true)));
    assert_eq!(step("'a'\\!'b'"), Some(("a!b", "", true)));
    assert_eq!(step("''\\'''"), Some(("'", "", true)));
    assert_eq!(step("'a'\\''b'\\!'c'\\'''"), Some(("a'b!c'", "", true)));
    assert_eq!(step("'\u{e9}'\\!'\u{1f600}'x"), Some(("\u{e9}!\u{1f600}", "x", true)));
}

#[test]
fn input_moves_behind_the_text() {
    assert_eq!(step("'a'='b'"), Some(("a", "='b'", false)));
    assert_eq!(step("'a' 'b'"), Some(("a", " 'b'", false)));
    assert_eq!(step("'a''b'"), Some(("a", "'b'", false)));
    assert_eq!(step("'a'\\''b' 'c'"), Some(("a'b", " 'c'", true)));
}

#[test]
fn incomplete_trail_is_left_in_the_input() {
    assert_eq!(step("'a'\\"), Some(("a", "\\", false)));
    assert_eq!(step("'a'\\'"), Some(("a", "\\'", false)));
    assert_eq!(step("'a'\\''b"), Some(("a", "\\''b", false)));
    assert_eq!(step("'a'\\x'b'"), Some(("a", "\\x'b'", false)));
    assert_eq!(step("'a'\\\\'b'"), Some(("a", "\\\\'b'", false)));
    assert_eq!(step("'a'\\''b'\\''c"), Some(("a'b", "\\''c", true)));
    assert_eq!(step("'a'\\''b'\\?'c'"), Some(("a'b", "\\?'c'", true)));
}

#[test]
fn malformed_quoting_is_an_error() {
    assert_eq!(step(""), None);
    assert_eq!(step("name"), None);
    assert_eq!(step("'name"), None);
    assert_eq!(step("'"), None);
    assert_eq!(step(" 'name'"), None);
    assert_eq!(step("\"name\""), None);
    assert_eq!(step("\\''a'"), None);
    let mut input = "name";
    assert!(sq_dequote(&mut input).is_err());
    assert_eq!(input, "name");
}

#[test]
fn error_message() {
    assert_eq!(QuoteError.message(), "invalid quoting");
}

// A text between single quotes, with each single quote and each exclamation
// mark outside the quotes behind a backslash.
fn quote(text: &str) -> String {
    let mut quoted = String::from("'");
    for c in text.chars() {
        if c == '\'' || c == '!' {
            quoted.push_str("'\\");
            quoted.push(c);
            quoted.push('\'');
        } else {
            quoted.push(c);
        }
    }
    quoted.push('\'');
    quoted
}

#[test]
fn decoding_undoes_quoting() {
    assert_eq!(quote("a'b"), "'a'\\''b'");
    assert_eq!(quote("a!b"), "'a'\\!'b'");
    let alphabet = ['\'', '!', '\\', 'a', ' ', '=', '\u{20ac}'];
    let mut texts = vec![String::new()];
    let mut from = 0;
    for _ in 0..5 {
        let upto = texts.len();
        for i in from..upto {
            for c in alphabet {
                let mut text = texts[i].clone();
                text.push(c);
                texts.push(text);
            }
        }
        from = upto;
    }
    for text in &texts {
        let quoted = quote(text);
        let escaped = text.contains('\'') || text.contains('!');
        assert_eq!(step(&quoted), Some((text.as_str(), "", escaped)), "{text:?}");
    }
}
