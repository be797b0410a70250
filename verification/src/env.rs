//! The counted pairs `GIT_CONFIG_KEY_<n>` and `GIT_CONFIG_VALUE_<n>`.
//!
//! `GIT_CONFIG_COUNT` says how many pairs there are; they are numbered from
//! zero. A number whose key or value is missing is passed over.

use vstd::prelude::*;
use std::borrow::Cow;
use crate::text::{decimal, is_digit, parse_usize, parsed_usize, to_decimal};

verus! {

/// A source of variables: a lookup from a name to a text.
pub trait Env {
    /// The text that the source holds under `key`, if it holds one.
    spec fn value_of(&self, key: Seq<char>) -> Option<Seq<char>>;

    /// Looks up `key`.
    fn var(&self, key: &str) -> (value: Option<Cow<'_, str>>)
        ensures
            cow_text(value) == self.value_of(key@),
    ;
}

/// The text of an optional decoded string.
pub open spec fn cow_text(value: Option<Cow<str>>) -> Option<Seq<char>> {
    match value {
        Some(v) => Some(v@),
        None => None,
    }
}

/// A source that holds nothing.
#[derive(Copy, Clone, Default, Debug, PartialEq, Eq)]
pub struct NoEnv;

impl Env for NoEnv {
    open spec fn value_of(&self, key: Seq<char>) -> Option<Seq<char>> {
        None
    }

    fn var(&self, _key: &str) -> (value: Option<Cow<'_, str>>) {
        None
    }
}

/// The string slice that a decoded string holds.
fn cow_str<'a>(text: &'a Cow<'_, str>) -> (slice: &'a str)
    ensures
        slice@ == text@,
{
    match text {
        Cow::Borrowed(borrowed) => borrowed,
        Cow::Owned(owned) => owned.as_str(),
    }
}

/// The variables that a list of names and texts gives: each name with the
/// text of its last entry in the list.
pub open spec fn variables_of(entries: Seq<(Seq<char>, Seq<char>)>) -> Map<Seq<char>, Seq<char>>
    decreases entries.len(),
{
    if entries.len() == 0 {
        Map::empty()
    } else {
        variables_of(entries.drop_last()).insert(entries.last().0, entries.last().1)
    }
}

/// The names and the texts of a list of variables.
pub open spec fn variable_texts(variables: Seq<(&str, &str)>) -> Seq<(Seq<char>, Seq<char>)> {
    variables.map_values(|variable: (&str, &str)| (variable.0@, variable.1@))
}

/// The names and the texts of a list of entries.
spec fn entry_texts(entries: Seq<(String, String)>) -> Seq<(Seq<char>, Seq<char>)> {
    entries.map_values(|entry: (String, String)| (entry.0@, entry.1@))
}

/// A source that holds what was put into it.
#[derive(Clone, Default, Debug)]
pub struct MapEnv {
    entries: Vec<(String, String)>,
}

impl View for MapEnv {
    type V = Map<Seq<char>, Seq<char>>;

    /// The variables of the source: its names, each with its text.
    closed spec fn view(&self) -> Map<Seq<char>, Seq<char>> {
        variables_of(entry_texts(self.entries@))
    }
}

impl MapEnv {
    /// A source that holds nothing yet.
    pub fn new() -> (env: Self)
        ensures
            env@ == Map::<Seq<char>, Seq<char>>::empty(),
    {
        Self { entries: Vec::new() }
    }

    /// Puts `value` under `key`, in place of what was there.
    pub fn insert(&mut self, key: String, value: String)
        ensures
            final(self)@ == old(self)@.insert(key@, value@),
    {
        let ghost before = entry_texts(self.entries@);
        self.entries.push((key, value));
        assert(entry_texts(self.entries@).drop_last() =~= before);
    }
}

impl Env for MapEnv {
    open spec fn value_of(&self, key: Seq<char>) -> Option<Seq<char>> {
        if self@.contains_key(key) {
            Some(self@[key])
        } else {
            None
        }
    }

    fn var(&self, key: &str) -> (value: Option<Cow<'_, str>>) {
        let ghost texts = entry_texts(self.entries@);
        let wanted = key.to_owned();
        let mut i = self.entries.len();
        assert(texts.take(i as int) =~= texts);
        while i > 0
            invariant
                i <= texts.len(),
                texts == entry_texts(self.entries@),
                wanted@ == key@,
                variables_of(texts).contains_key(key@) == variables_of(
                    texts.take(i as int),
                ).contains_key(key@),
                variables_of(texts).contains_key(key@) ==> variables_of(texts)[key@]
                    == variables_of(texts.take(i as int))[key@],
            decreases i,
        {
            i -= 1;
            assert(texts.take(i + 1).drop_last() =~= texts.take(i as int));
            if self.entries[i].0 == wanted {
                return Some(Cow::Borrowed(self.entries[i].1.as_str()));
            }
        }
        None
    }
}

/// The name of the variable that holds the key with number `i`.
pub open spec fn key_name(i: nat) -> Seq<char> {
    "GIT_CONFIG_KEY_"@ + decimal(i)
}

/// The name of the variable that holds the value with number `i`.
pub open spec fn value_name(i: nat) -> Seq<char> {
    "GIT_CONFIG_VALUE_"@ + decimal(i)
}

/// Writes the name of the variable that holds the key with number `i`.
fn key_variable(i: usize) -> (name: String)
    ensures
        name@ == key_name(i as nat),
{
    "GIT_CONFIG_KEY_".to_owned().concat(to_decimal(i).as_str())
}

/// Writes the name of the variable that holds the value with number `i`.
fn value_variable(i: usize) -> (name: String)
    ensures
        name@ == value_name(i as nat),
{
    "GIT_CONFIG_VALUE_".to_owned().concat(to_decimal(i).as_str())
}

/// The number of pairs that the text of `GIT_CONFIG_COUNT` announces: the
/// number it names, and none when the variable is missing or names no number.
pub open spec fn count_of(value: Option<Seq<char>>) -> nat {
    match value {
        Some(text) => match parsed_usize(text) {
            Some(n) => n as nat,
            None => 0,
        },
        None => 0,
    }
}

/// The pair with number `i`, when the source holds both its key and its value.
pub open spec fn pair_at<E: Env>(env: &E, i: nat) -> Option<(Seq<char>, Seq<char>)> {
    match (env.value_of(key_name(i)), env.value_of(value_name(i))) {
        (Some(key), Some(value)) => Some((key, value)),
        _ => None,
    }
}

/// The first pair with a number from `from` up to, not including, `to`, and
/// the number behind it.
pub open spec fn next_entry<E: Env>(env: &E, from: nat, to: nat) -> Option<
    ((Seq<char>, Seq<char>), nat),
>
    decreases to - from,
{
    if from >= to {
        None
    } else {
        match pair_at(env, from) {
            Some(pair) => Some((pair, from + 1)),
            None => next_entry(env, from + 1, to),
        }
    }
}

/// The pairs with numbers from `from` up to, not including, `to`, in the order
/// of their numbers.
pub open spec fn entries_between<E: Env>(env: &E, from: nat, to: nat) -> Seq<
    (Seq<char>, Seq<char>),
>
    decreases to - from,
{
    if from >= to {
        Seq::empty()
    } else {
        match pair_at(env, from) {
            Some(pair) => seq![pair] + entries_between(env, from + 1, to),
            None => entries_between(env, from + 1, to),
        }
    }
}

/// The counted pairs of a source: those with a number below the count that
/// `GIT_CONFIG_COUNT` announces, in the order of their numbers.
pub open spec fn counted_pairs<E: Env>(env: &E) -> Seq<(Seq<char>, Seq<char>)> {
    entries_between(env, 0, count_of(env.value_of("GIT_CONFIG_COUNT"@)))
}

/// The texts of a key and its value.
pub open spec fn entry_view(item: (Cow<str>, Cow<str>)) -> (Seq<char>, Seq<char>) {
    (item.0@, item.1@)
}

/// The counted pairs of a source of variables.
///
/// When `GIT_CONFIG_COUNT` names a number, the pairs `GIT_CONFIG_KEY_<n>` and
/// `GIT_CONFIG_VALUE_<n>` below that number are read, counted from zero. A
/// pair whose key or value is missing is passed over. An empty or malformed
/// `GIT_CONFIG_COUNT` announces no pairs.
#[derive(Copy, Clone, Default, Debug, PartialEq, Eq)]
pub struct ConfigEnv<E: Env> {
    e: E,
}

impl ConfigEnv<NoEnv> {
    /// The pairs of a source that holds nothing.
    pub fn empty() -> (config: Self)
        ensures
            config.source() == NoEnv,
    {
        Self { e: NoEnv }
    }
}

impl ConfigEnv<MapEnv> {
    /// The pairs of a source that holds the given variables; where a name
    /// comes twice, the later text stands.
    pub fn from_iter(variables: Vec<(&str, &str)>) -> (config: Self)
        ensures
            config.source()@ == variables_of(variable_texts(variables@)),
    {
        let ghost texts = variable_texts(variables@);
        let mut e = MapEnv::new();
        let mut i: usize = 0;
        while i < variables.len()
            invariant
                i <= variables@.len(),
                texts == variable_texts(variables@),
                e@ == variables_of(texts.take(i as int)),
            decreases variables@.len() - i,
        {
            assert(texts.take(i + 1).drop_last() =~= texts.take(i as int));
            e.insert(variables[i].0.to_owned(), variables[i].1.to_owned());
            i += 1;
        }
        assert(texts.take(i as int) =~= texts);
        Self { e }
    }
}

impl<E: Env> ConfigEnv<E> {
    /// The source that the pairs are read from.
    pub closed spec fn source(&self) -> E {
        self.e
    }

    /// The pairs of the source `e`.
    pub fn with_env(e: E) -> (config: Self)
        ensures
            config.source() == e,
    {
        Self { e }
    }

    /// A reader at the first pair, which reads as many numbers as
    /// `GIT_CONFIG_COUNT` announces.
    pub fn iter(&self) -> (reader: ConfigEnvIter<'_, E>)
        ensures
            *reader.source() == self.source(),
            reader.position() == 0,
            reader.limit() == count_of(self.source().value_of("GIT_CONFIG_COUNT"@)),
            reader.remaining() == counted_pairs(&self.source()),
    {
        let max = match self.e.var("GIT_CONFIG_COUNT") {
            Some(text) => match parse_usize(cow_str(&text)) {
                Some(n) => n,
                None => 0,
            },
            None => 0,
        };
        ConfigEnvIter { e: &self.e, max, i: 0 }
    }
}

/// A reader of the counted pairs of a source, which hands them out one by one.
#[derive(Copy, Clone, Debug, PartialEq, Eq)]
pub struct ConfigEnvIter<'e, E: Env> {
    e: &'e E,
    max: usize,
    i: usize,
}

impl<'e, E: Env> ConfigEnvIter<'e, E> {
    /// The source that the pairs are read from.
    pub closed spec fn source(&self) -> &'e E {
        self.e
    }

    /// The number of the pair that is read next.
    pub closed spec fn position(&self) -> nat {
        self.i as nat
    }

    /// The number at which reading ends.
    pub closed spec fn limit(&self) -> nat {
        self.max as nat
    }

    /// The pairs that are still to be read.
    pub open spec fn remaining(&self) -> Seq<(Seq<char>, Seq<char>)> {
        entries_between(self.source(), self.position(), self.limit())
    }

    /// Reads the next pair: the one with the lowest number, from the position
    /// of the reader on, whose key and value the source both holds. `None`
    /// when no such pair is left below the limit.
    pub fn next(&mut self) -> (item: Option<(Cow<'e, str>, Cow<'e, str>)>)
        ensures
            final(self).source() == old(self).source(),
            final(self).limit() == old(self).limit(),
            match next_entry(old(self).source(), old(self).position(), old(self).limit()) {
                Some((pair, position)) => {
                    &&& item matches Some(found) && entry_view(found) == pair
                    &&& final(self).position() == position
                },
                None => {
                    &&& item is None
                    &&& final(self).position() == if old(self).position() < old(self).limit() {
                        old(self).limit()
                    } else {
                        old(self).position()
                    }
                },
            },
    {
        while self.i < self.max
            invariant
                self.e == old(self).e,
                self.max == old(self).max,
                old(self).i < old(self).max ==> old(self).i <= self.i <= self.max,
                old(self).i >= old(self).max ==> self.i == old(self).i,
                next_entry(old(self).e, old(self).i as nat, old(self).max as nat) == next_entry(
                    self.e,
                    self.i as nat,
                    self.max as nat,
                ),
            decreases self.max - self.i,
        {
            let key_key = key_variable(self.i);
            let value_key = value_variable(self.i);
            self.i += 1;
            let e: &'e E = self.e;
            match (e.var(key_key.as_str()), e.var(value_key.as_str())) {
                (Some(key), Some(value)) => {
                    return Some((key, value));
                },
                _ => {},
            }
        }
        None
    }

    /// Reads the pairs that are left, in the order of their numbers.
    pub fn collect(self) -> (items: Vec<(Cow<'e, str>, Cow<'e, str>)>)
        ensures
            items@.len() == self.remaining().len(),
            forall|i: int|
                0 <= i < items@.len() ==> entry_view(#[trigger] items@[i]) == self.remaining()[i],
    {
        let mut reader = self;
        let mut items: Vec<(Cow<'e, str>, Cow<'e, str>)> = Vec::new();
        loop
            invariant
                reader.source() == self.source(),
                reader.limit() == self.limit(),
                items@.map_values(|item| entry_view(item)) + reader.remaining() == self.remaining(),
            ensures
                items@.map_values(|item| entry_view(item)) == self.remaining(),
            decreases reader.limit() - reader.position(),
        {
            let ghost before = reader;
            let ghost seen = items@.map_values(|item| entry_view(item));
            proof {
                lemma_next_entry(before.source(), before.position(), before.limit());
            }
            match reader.next() {
                Some(item) => {
                    items.push(item);
                    proof {
                        let now = items@.map_values(|item| entry_view(item));
                        assert(now =~= seen + seq![entry_view(item)]);
                        assert(now + reader.remaining() =~= seen + (seq![entry_view(item)]
                            + reader.remaining()));
                    }
                },
                None => {
                    assert(seen + before.remaining() =~= seen);
                    break ;
                },
            }
        }
        items
    }
}

/// Whether the text of `GIT_CONFIG_COUNT` is malformed: it is empty, starts
/// with a minus sign, or holds a character that is neither a digit nor a plus
/// sign at the front.
pub open spec fn malformed_count(text: Seq<char>) -> bool {
    ||| text.len() == 0
    ||| text[0] == '-'
    ||| exists|i: int|
        0 <= i < text.len() && !is_digit(#[trigger] text[i]) && !(i == 0 && text[i] == '+')
}

/// A source without `GIT_CONFIG_COUNT`, or with a malformed one, has no
/// counted pairs, whatever else it holds.
pub proof fn lemma_without_count<E: Env>(env: &E)
    requires
        env.value_of("GIT_CONFIG_COUNT"@) matches Some(text) ==> malformed_count(text),
    ensures
        count_of(env.value_of("GIT_CONFIG_COUNT"@)) == 0,
        counted_pairs(env) == Seq::<(Seq<char>, Seq<char>)>::empty(),
{
    if let Some(text) = env.value_of("GIT_CONFIG_COUNT"@) {
        lemma_malformed_count(text);
    }
}

/// A malformed text names no number.
pub proof fn lemma_malformed_count(text: Seq<char>)
    requires
        malformed_count(text),
    ensures
        parsed_usize(text) is None,
{
    if text.len() > 0 && text[0] != '-' {
        let i = choose|i: int|
            0 <= i < text.len() && !is_digit(#[trigger] text[i]) && !(i == 0 && text[i] == '+');
        if text[0] == '+' {
            assert(!is_digit(text.skip(1)[i - 1]));
        }
    }
}

/// The next pair is the first of the pairs that are left, and the rest follow
/// behind it.
pub proof fn lemma_next_entry<E: Env>(env: &E, from: nat, to: nat)
    ensures
        match next_entry(env, from, to) {
            Some((pair, position)) => {
                &&& from < position <= to
                &&& pair_at(env, (position - 1) as nat) == Some(pair)
                &&& forall|i: nat| from <= i < position - 1 ==> pair_at(env, i) is None
                &&& entries_between(env, from, to) == seq![pair] + entries_between(
                    env,
                    position,
                    to,
                )
            },
            None => {
                &&& forall|i: nat| from <= i < to ==> pair_at(env, i) is None
                &&& entries_between(env, from, to) == Seq::<(Seq<char>, Seq<char>)>::empty()
            },
        },
    decreases to - from,
{
    if from < to && pair_at(env, from) is None {
        lemma_next_entry(env, from + 1, to);
    }
}

} // verus!
