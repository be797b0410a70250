use std::borrow::Cow;

use git_config_env::{ConfigEnv, Env, MapEnv, NoEnv};

#[test]
fn implicitly_empty() {
    let c = ConfigEnv::empty();
    assert_eq!(c.iter().collect(), vec![]);
}

#[test]
fn explicitly_empty() {
    let c = ConfigEnv::from_iter(vec![("GIT_CONFIG_COUNT", "0")]);
    assert_eq!(c.iter().collect(), vec![]);
}

#[test]
fn bad_count() {
    let c = ConfigEnv::from_iter(vec![("GIT_CONFIG_COUNT", "")]);
    assert_eq!(c.iter().collect(), vec![]);

    let c = ConfigEnv::from_iter(vec![("GIT_CONFIG_COUNT", "-1")]);
    assert_eq!(c.iter().collect(), vec![]);

    let c = ConfigEnv::from_iter(vec![("GIT_CONFIG_COUNT", "County McCountFace")]);
    assert_eq!(c.iter().collect(), vec![]);
}

#[test]
fn single() {
    let c = ConfigEnv::from_iter(vec![
        ("GIT_CONFIG_COUNT", "1"),
        ("GIT_CONFIG_KEY_0", "key"),
        ("GIT_CONFIG_VALUE_0", "value"),
    ]);
    assert_eq!(
        c.iter().collect(),
        vec![(Cow::Borrowed("key"), Cow::Borrowed("value"))]
    );
}

#[test]
fn multiple() {
    let c = ConfigEnv::from_iter(vec![
        ("GIT_CONFIG_COUNT", "3"),
        ("GIT_CONFIG_KEY_0", "key"),
        ("GIT_CONFIG_VALUE_0", "value"),
        ("GIT_CONFIG_KEY_1", "one_key"),
        ("GIT_CONFIG_VALUE_1", "one_value"),
        ("GIT_CONFIG_KEY_2", "two_key"),
        ("GIT_CONFIG_VALUE_2", "two_value"),
    ]);
    assert_eq!(
        c.iter().collect(),
        vec![
            (Cow::Borrowed("key"), Cow::Borrowed("value")),
            (Cow::Borrowed("one_key"), Cow::Borrowed("one_value")),
            (Cow::Borrowed("two_key"), Cow::Borrowed("two_value")),
        ]
    );
}

fn pairs(variables: Vec<(&str, &str)>) -> Vec<(String, String)> {
    ConfigEnv::from_iter(variables)
        .iter()
        .collect()
        .into_iter()
        .map(|(k, v)| (k.into_owned(), v.into_owned()))
        .collect()
}

fn pair(key: &str, value: &str) -> (String, String) {
    (key.to_owned(), value.to_owned())
}

#[test]
fn missing_count() {
    assert_eq!(
        pairs(vec![("GIT_CONFIG_KEY_0", "key"), ("GIT_CONFIG_VALUE_0", "value")]),
        vec![]
    );
}

#[test]
fn malformed_count() {
    let counts = [
        "", "-1", "-0", "+", "1 ", " 1", "1_0", "0x1", "1.0", "one", "99999999999999999999999999",
    ];
    for count in counts {
        assert_eq!(
            pairs(vec![
                ("GIT_CONFIG_COUNT", count),
                ("GIT_CONFIG_KEY_0", "key"),
                ("GIT_CONFIG_VALUE_0", "value"),
            ]),
            vec![],
            "{count:?}"
        );
    }
}

#[test]
fn count_with_sign_or_zeros() {
    for count in ["1", "+1", "01", "+0001"] {
        assert_eq!(
            pairs(vec![
                ("GIT_CONFIG_COUNT", count),
                ("GIT_CONFIG_KEY_0", "key"),
                ("GIT_CONFIG_VALUE_0", "value"),
                ("GIT_CONFIG_KEY_1", "other"),
                ("GIT_CONFIG_VALUE_1", "text"),
            ]),
            vec![pair("key", "value")],
            "{count:?}"
        );
    }
}

#[test]
fn missing_pair_is_passed_over() {
    assert_eq!(
        pairs(vec![
            ("GIT_CONFIG_COUNT", "2"),
            ("GIT_CONFIG_KEY_0", "key"),
            ("GIT_CONFIG_VALUE_0", "value"),
        ]),
        vec![pair("key", "value")]
    );
    assert_eq!(
        pairs(vec![
            ("GIT_CONFIG_COUNT", "4"),
            ("GIT_CONFIG_KEY_0", "no value"),
            ("GIT_CONFIG_VALUE_1", "no key"),
            ("GIT_CONFIG_KEY_3", "key"),
            ("GIT_CONFIG_VALUE_3", "value"),
        ]),
        vec![pair("key", "value")]
    );
}

#[test]
fn pairs_beyond_the_count_are_not_read() {
    assert_eq!(
        pairs(vec![
            ("GIT_CONFIG_COUNT", "1"),
            ("GIT_CONFIG_KEY_0", "key"),
            ("GIT_CONFIG_VALUE_0", "value"),
            ("GIT_CONFIG_KEY_1", "one_key"),
            ("GIT_CONFIG_VALUE_1", "one_value"),
        ]),
        vec![pair("key", "value")]
    );
}

#[test]
fn numbers_are_written_in_decimal() {
    assert_eq!(
        pairs(vec![
            ("GIT_CONFIG_COUNT", "101"),
            ("GIT_CONFIG_KEY_9", "nine"),
            ("GIT_CONFIG_VALUE_9", "9"),
            ("GIT_CONFIG_KEY_10", "ten"),
            ("GIT_CONFIG_VALUE_10", "10"),
            ("GIT_CONFIG_KEY_010", "not ten"),
            ("GIT_CONFIG_VALUE_010", "010"),
            ("GIT_CONFIG_KEY_100", "hundred"),
            ("GIT_CONFIG_VALUE_100", "100"),
            ("GIT_CONFIG_KEY_101", "beyond"),
            ("GIT_CONFIG_VALUE_101", "101"),
        ]),
        vec![pair("nine", "9"), pair("ten", "10"), pair("hundred", "100")]
    );
}

#[test]
fn empty_keys_and_values_pass_through() {
    assert_eq!(
        pairs(vec![
            ("GIT_CONFIG_COUNT", "1"),
            ("GIT_CONFIG_KEY_0", ""),
            ("GIT_CONFIG_VALUE_0", ""),
        ]),
        vec![pair("", "")]
    );
}

#[test]
fn next_reads_one_pair_at_a_time() {
    let c = ConfigEnv::from_iter(vec![
        ("GIT_CONFIG_COUNT", "3"),
        ("GIT_CONFIG_KEY_0", "key"),
        ("GIT_CONFIG_VALUE_0", "value"),
        ("GIT_CONFIG_KEY_2", "two_key"),
        ("GIT_CONFIG_VALUE_2", "two_value"),
    ]);
    let mut reader = c.iter();
    assert_eq!(
        reader.next(),
        Some((Cow::Borrowed("key"), Cow::Borrowed("value")))
    );
    assert_eq!(
        reader.next(),
        Some((Cow::Borrowed("two_key"), Cow::Borrowed("two_value")))
    );
    assert_eq!(reader.next(), None);
    assert_eq!(reader.next(), None);
}

#[test]
fn later_entry_replaces_earlier() {
    let mut env = MapEnv::new();
    assert_eq!(env.var("name"), None);
    env.insert("name".to_owned(), "first".to_owned());
    env.insert("other".to_owned(), "text".to_owned());
    env.insert("name".to_owned(), "second".to_owned());
    assert_eq!(env.var("name"), Some(Cow::Borrowed("second")));
    assert_eq!(env.var("other"), Some(Cow::Borrowed("text")));
    assert_eq!(env.var("nam"), None);
    assert_eq!(NoEnv.var("name"), None);

    let c = ConfigEnv::with_env(env);
    assert_eq!(c.iter().collect(), vec![]);
}
