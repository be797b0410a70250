use git_config_env::{parse_parameter, ConfigEnv, ConfigParametersIter};

// What is read as white space before a word, against `char::is_whitespace`.
#[test]
fn white_space_is_that_of_unicode() {
    let mut spaces = 0;
    for code in 0..=0x10ffff_u32 {
        let Some(c) = char::from_u32(code) else {
            continue;
        };
        let text = format!("{c}'a'");
        let skipped = ConfigParametersIter::new(&text).next().is_some();
        assert_eq!(skipped, c.is_whitespace(), "{code:#x}");
        if skipped {
            spaces += 1;
        }
    }
    assert_eq!(spaces, 25);
}

// How many of twelve pairs are read under the count `text`.
fn count(text: &str) -> usize {
    let mut variables = vec![("GIT_CONFIG_COUNT", text)];
    let names: Vec<(String, String)> = (0..12)
        .map(|i| (format!("GIT_CONFIG_KEY_{i}"), format!("GIT_CONFIG_VALUE_{i}")))
        .collect();
    for (key, value) in &names {
        variables.push((key, "k"));
        variables.push((value, "v"));
    }
    let config = ConfigEnv::from_iter(variables);
    let mut reader = config.iter();
    let mut read = 0;
    while read < 12 && reader.next().is_some() {
        read += 1;
    }
    read
}

// What is read as a count, against `str::parse`.
#[test]
fn count_is_parsed_as_a_usize() {
    let alphabet = ['0', '1', '9', '+', '-', ' ', 'a', '_', '\u{661}'];
    let mut texts = vec![String::new()];
    let mut from = 0;
    for _ in 0..4 {
        let upto = texts.len();
        for i in from..upto {
            for c in alphabet {
                let mut text = texts[i].clone();
                text.push(c);
                texts.push(text);
            }
        }
        from = upto;
    }
    for text in &texts {
        let expected = text.parse::<usize>().unwrap_or(0).min(12);
        assert_eq!(count(text), expected, "{text:?}");
    }
}

#[test]
fn count_at_the_limit_of_usize() {
    let most = usize::MAX.to_string();
    assert_eq!(count(&most), 12);
    assert_eq!(count(&format!("+000{most}")), 12);
    let mut beyond = most.clone();
    beyond.push('0');
    assert_eq!(count(&beyond), 0);
    let last = most.len() - 1;
    let digit = most.as_bytes()[last];
    if digit < b'9' {
        let mut next = most.clone().into_bytes();
        next[last] = digit + 1;
        assert_eq!(count(&String::from_utf8(next).unwrap()), 0);
    }
    assert_eq!(count("100000000000000000000000000000000000000000"), 0);
    assert_eq!(count("000000000000000000000000000000000000000007"), 7);
}

// Where an argument is split, against `str::split_once`.
#[test]
fn argument_is_split_at_its_first_equals_sign() {
    let alphabet = ['=', 'a', '\u{e9}', '\u{20ac}', '\u{1f600}', '\''];
    let mut texts = vec![String::new()];
    let mut from = 0;
    for _ in 0..5 {
        let upto = texts.len();
        for i in from..upto {
            for c in alphabet {
                let mut text = texts[i].clone();
                text.push(c);
                texts.push(text);
            }
        }
        from = upto;
    }
    for text in &texts {
        let expected = match text.split_once('=') {
            Some((key, value)) => (key, Some(value)),
            None => (text.as_str(), None),
        };
        assert_eq!(parse_parameter(text), expected, "{text:?}");
    }
}

#[test]
fn split_parts_are_taken_from_the_argument() {
    let text = "k\u{e9}y=v\u{20ac}lue";
    let (key, value) = parse_parameter(text);
    assert_eq!(key.as_ptr(), text.as_ptr());
    assert_eq!(value.unwrap().as_ptr(), text["k\u{e9}y=".len()..].as_ptr());
}
