use std::borrow::Cow;

use git_config_env::quote::sq_dequote;
use itertools::Itertools;
use winnow::combinator::{alt, preceded, repeat, terminated};
use winnow::token::{one_of, take_while};
use winnow::Parser;

// The grammar of a quoted text, written with parser combinators.

fn section<'i>(input: &mut &'i str) -> winnow::Result<&'i str, ()> {
    terminated(preceded('\'', take_while(0.., |c| c != '\'')), '\'').parse_next(input)
}

fn escape<'i>(input: &mut &'i str) -> winnow::Result<&'i str, ()> {
    preceded('\\', one_of(['\'', '!']).take()).parse_next(input)
}

fn trail<'i>(input: &mut &'i str) -> winnow::Result<[&'i str; 2], ()> {
    (escape, section).map(|(e, s)| [e, s]).parse_next(input)
}

fn with_escapes<'i>(input: &mut &'i str) -> winnow::Result<Cow<'i, str>, ()> {
    (section, trail, repeat(0.., trail))
        .map(|(start, first, mut trails): (_, _, Vec<_>)| {
            trails.insert(0, first);
            trails.insert(0, [start, ""]);
            Cow::Owned(trails.into_iter().flatten().join(""))
        })
        .parse_next(input)
}

fn without_escapes<'i>(input: &mut &'i str) -> winnow::Result<Cow<'i, str>, ()> {
    section.map(Cow::Borrowed).parse_next(input)
}

fn quoted<'i>(input: &mut &'i str) -> winnow::Result<Cow<'i, str>, ()> {
    alt((with_escapes, without_escapes)).parse_next(input)
}

fn agree(text: &str) {
    let expected = quoted.parse_peek(text);
    let mut input = text;
    let actual = sq_dequote(&mut input);
    match (expected, actual) {
        (Ok((rest, expected)), Ok(actual)) => {
            assert_eq!(actual, expected, "{text:?}");
            assert_eq!(input, rest, "{text:?}");
            assert_eq!(
                matches!(actual, Cow::Borrowed(_)),
                matches!(expected, Cow::Borrowed(_)),
                "{text:?}"
            );
        }
        (Err(()), Err(())) => assert_eq!(input, text, "{text:?}"),
        (expected, actual) => panic!("{text:?}: {expected:?} and {actual:?}"),
    }
}

#[test]
fn agrees_on_chosen_texts() {
    for text in [
        "",
        "'",
        "''",
        "'name'",
        "'a b'",
        "'a'\\''b'",
        "'a'\\!'b'",
        "'a'\\''b'\\!'c' 'd'",
        "'a'\\''b",
        "'a'\\x'b'",
        "'a'='b'",
        "name",
        " 'name'",
        "'\u{e9}'\\!'\u{1f600}'\u{2003}",
    ] {
        agree(text);
    }
}

#[test]
fn agrees_on_all_short_texts() {
    let alphabet = ['\'', '\\', '!', 'a', '=', ' ', '\u{e9}'];
    let mut texts = vec![String::new()];
    let mut from = 0;
    for _ in 0..5 {
        let upto = texts.len();
        for i in from..upto {
            for c in alphabet {
                let mut text = texts[i].clone();
                text.push(c);
                texts.push(text);
            }
        }
        from = upto;
    }
    assert_eq!(texts.len(), 1 + 7 + 49 + 343 + 2401 + 16807);
    for text in &texts {
        agree(text);
    }
}

#[test]
fn agrees_on_longer_quoted_texts() {
    let pieces = ["'a'", "''", "\\'", "\\!", "\\", "'", "'b c'", "=", " "];
    let mut texts = vec![String::new()];
    let mut from = 0;
    for _ in 0..4 {
        let upto = texts.len();
        for i in from..upto {
            for piece in pieces {
                let mut text = texts[i].clone();
                text.push_str(piece);
                texts.push(text);
            }
        }
        from = upto;
    }
    for text in &texts {
        agree(text);
    }
}
