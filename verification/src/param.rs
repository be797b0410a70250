//! The parameter list that carries the `-c` options to a subcommand.
//!
//! The list is a run of single-quoted words with a space between each two.
//! A word is either `'key=value'` or `'key'` (the older form), or `'key'='value'`
//! or `'key'=` (the newer form). A key without a value stands for `true`.

use vstd::prelude::*;
use std::borrow::Cow;
use crate::quote::{dequoted, lemma_dequoted_extended, lemma_dequoted_shorter, sq_dequote_step};
use crate::text::{
    lemma_run_before_split, lemma_trimmed_start, lemma_trimmed_start_extended, run_before,
    split_once, strip_prefix, trim_start, trimmed_start,
};

verus! {

/// A key and its value as texts; no value stands for `true`.
pub type Pair = (Seq<char>, Option<Seq<char>>);

/// The key and the value of one `-c` argument: the argument is split at its
/// first `=`, and is a key without a value when it holds none.
pub open spec fn split_parameter(arg: Seq<char>) -> Pair {
    if arg.contains('=') {
        let n = run_before(arg, '=') as int;
        (arg.take(n), Some(arg.skip(n + 1)))
    } else {
        (arg, None)
    }
}

/// The text of an optional string slice.
pub open spec fn text_of(value: Option<&str>) -> Option<Seq<char>> {
    match value {
        Some(v) => Some(v@),
        None => None,
    }
}

/// The texts of a decoded key and value.
pub open spec fn pair_view(item: (Cow<str>, Option<Cow<str>>)) -> Pair {
    (
        item.0@,
        match item.1 {
            Some(v) => Some(v@),
            None => None,
        },
    )
}

/// The first pair of a parameter list, and the list behind it. `None` when the
/// list is at its end or malformed at its front.
pub open spec fn next_pair(list: Seq<char>) -> Option<(Pair, Seq<char>)> {
    match dequoted(trimmed_start(list)) {
        Some(key) => {
            let after = key.rest;
            if after.len() > 0 && after[0] == '=' {
                let after = after.skip(1);
                if after.len() == 0 {
                    Some(((key.value, None), after))
                } else if after[0] == ' ' {
                    Some(((key.value, None), after.skip(1)))
                } else {
                    match dequoted(after) {
                        Some(value) => Some(((key.value, Some(value.value)), value.rest)),
                        None => None,
                    }
                }
            } else if after.len() == 0 {
                Some((split_parameter(key.value), after))
            } else if after[0] == ' ' {
                Some((split_parameter(key.value), after.skip(1)))
            } else {
                None
            }
        },
        None => None,
    }
}

/// All pairs of a parameter list, in the order in which they are written. The
/// list is read up to its end or to the first place where it is malformed.
pub open spec fn pairs(list: Seq<char>) -> Seq<Pair>
    decreases list.len(),
{
    match next_pair(list) {
        Some((pair, rest)) => {
            proof {
                lemma_next_pair_shorter(list);
            }
            seq![pair] + pairs(rest)
        },
        None => Seq::empty(),
    }
}

/// Every pair that is read takes at least its two quotes from the list.
pub proof fn lemma_next_pair_shorter(list: Seq<char>)
    ensures
        next_pair(list) matches Some((_, rest)) ==> rest.len() + 2 <= list.len(),
{
    lemma_trimmed_start(list);
    lemma_dequoted_shorter(trimmed_start(list));
    if let Some(key) = dequoted(trimmed_start(list)) {
        if key.rest.len() > 0 && key.rest[0] == '=' {
            lemma_dequoted_shorter(key.rest.skip(1));
        }
    }
}

/// An empty list holds no pairs, and reading it gives nothing.
pub proof fn lemma_pairs_of_empty()
    ensures
        next_pair(Seq::empty()) is None,
        pairs(Seq::empty()) == Seq::<Pair>::empty(),
{
}

/// Whether `word` is a quoted text and nothing more, and `text` is what it
/// decodes to.
pub open spec fn is_quoting_of(word: Seq<char>, text: Seq<char>) -> bool {
    dequoted(word) matches Some(d) && d.value == text && d.rest.len() == 0
}

/// A quoting of a text with something behind it that is no backslash decodes
/// to the text, and leaves what is behind it.
proof fn lemma_quoting_then(word: Seq<char>, text: Seq<char>, more: Seq<char>)
    requires
        is_quoting_of(word, text),
        more.len() > 0 ==> more[0] != '\\',
    ensures
        trimmed_start(word + more) == word + more,
        dequoted(word + more) matches Some(d) && d.value == text && d.rest == more,
{
    let d = dequoted(word).unwrap();
    assert(d.rest + more =~= more);
    lemma_dequoted_extended(word, more);
    assert((word + more)[0] == '\'');
}

/// A word of the older form, `'key=value'` or `'key'`, is a list of one pair:
/// the text that the word decodes to, split at its first `=`.
pub proof fn lemma_old_style(word: Seq<char>, text: Seq<char>)
    requires
        is_quoting_of(word, text),
    ensures
        next_pair(word) == Some((split_parameter(text), Seq::<char>::empty())),
        pairs(word) == seq![split_parameter(text)],
{
    let none = Seq::<char>::empty();
    lemma_quoting_then(word, text, none);
    assert(word + none =~= word);
    lemma_pairs_of_empty();
    assert(seq![split_parameter(text)] + Seq::<Pair>::empty() =~= seq![split_parameter(text)]);
}

/// A word of the newer form with a value, `'key'='value'`, is a list of one
/// pair: the texts that the key and the value decode to. The key is not split,
/// and an empty value is a value.
pub proof fn lemma_new_style(
    quoted_key: Seq<char>,
    key: Seq<char>,
    quoted_value: Seq<char>,
    value: Seq<char>,
)
    requires
        is_quoting_of(quoted_key, key),
        is_quoting_of(quoted_value, value),
    ensures
        next_pair(quoted_key + seq!['='] + quoted_value) == Some(
            ((key, Some(value)), Seq::<char>::empty()),
        ),
        pairs(quoted_key + seq!['='] + quoted_value) == seq![(key, Some(value))],
{
    let none = Seq::<char>::empty();
    let more = seq!['='] + quoted_value;
    let pair: Pair = (key, Some(value));
    lemma_quoting_then(quoted_key, key, more);
    assert(quoted_key + seq!['='] + quoted_value =~= quoted_key + more);
    assert(more.skip(1) =~= quoted_value);
    lemma_quoting_then(quoted_value, value, none);
    assert(quoted_value + none =~= quoted_value);
    lemma_pairs_of_empty();
    assert(seq![pair] + Seq::<Pair>::empty() =~= seq![pair]);
}

/// A word of the newer form without a value, `'key'=`, is a list of one pair:
/// the text that the key decodes to, and no value.
pub proof fn lemma_new_style_bool(quoted_key: Seq<char>, key: Seq<char>)
    requires
        is_quoting_of(quoted_key, key),
    ensures
        next_pair(quoted_key + seq!['=']) == Some(
            ((key, None::<Seq<char>>), Seq::<char>::empty()),
        ),
        pairs(quoted_key + seq!['=']) == seq![(key, None::<Seq<char>>)],
{
    let pair: Pair = (key, None);
    lemma_quoting_then(quoted_key, key, seq!['=']);
    assert(seq!['='].skip(1) =~= Seq::<char>::empty());
    lemma_pairs_of_empty();
    assert(seq![pair] + Seq::<Pair>::empty() =~= seq![pair]);
}

/// A space before a list changes nothing of what the list holds.
pub proof fn lemma_pairs_after_space(list: Seq<char>)
    ensures
        pairs(seq![' '] + list) == pairs(list),
{
    assert((seq![' '] + list).skip(1) =~= list);
    assert(next_pair(seq![' '] + list) == next_pair(list));
}

/// Words with a single space between them give their pairs in the order in
/// which they are written: where `word` by itself is a list of one pair, a list
/// that starts with `word` and a space holds that pair first, and behind it the
/// pairs of what follows the space.
pub proof fn lemma_pairs_after_word(word: Seq<char>, rest: Seq<char>)
    requires
        next_pair(word) matches Some((_, left)) && left.len() == 0,
    ensures
        pairs(word + seq![' '] + rest) == seq![next_pair(word).unwrap().0] + pairs(rest),
{
    let more = seq![' '] + rest;
    let list = word + seq![' '] + rest;
    let front = trimmed_start(word);
    let key = dequoted(front).unwrap();
    assert(list =~= word + more);
    assert(more.skip(1) =~= rest);
    lemma_dequoted_shorter(front);
    lemma_trimmed_start_extended(word, more);
    lemma_pairs_after_space(rest);
    lemma_next_pair_shorter(list);
    if key.rest.len() > 0 && key.rest[0] == '=' {
        let after = key.rest.skip(1);
        lemma_dequoted_extended(front, more);
        assert((key.rest + more).skip(1) =~= after + more);
        if after.len() == 0 {
            assert(after + more =~= more);
        } else if after[0] == ' ' {
            assert(after =~= seq![' ']);
            assert((after + more).skip(1) =~= more);
        } else {
            let value = dequoted(after).unwrap();
            assert(value.rest + more =~= more);
            lemma_dequoted_extended(after, more);
        }
    } else if key.rest.len() == 0 {
        assert(key.rest + more =~= more);
        lemma_dequoted_extended(front, more);
    } else {
        assert(key.rest =~= seq![' ']);
        lemma_dequoted_extended(front, more);
        assert((key.rest + more).skip(1) =~= more);
    }
}

/// Parses one `-c` argument into its key and its value.
///
/// The argument is split at its first `=`: a section name that holds an `=`
/// cannot be told from a value that holds one, and the value is the part more
/// likely to hold arbitrary text. Without an `=` the argument is a key that
/// stands for `true`, and the value is `None`.
pub fn parse_parameter(arg: &str) -> (pair: (&str, Option<&str>))
    ensures
        (pair.0@, text_of(pair.1)) == split_parameter(arg@),
{
    match split_once(arg, '=') {
        Some((key, value)) => {
            proof {
                lemma_run_before_split(key@, '=', value@);
            }
            (key, Some(value))
        },
        None => (arg, None),
    }
}

/// Parses one `-c` argument as [`parse_parameter`] does, keeping a borrowed
/// argument borrowed.
pub fn parse_parameter_cow(arg: Cow<str>) -> (pair: (Cow<str>, Option<Cow<str>>))
    ensures
        pair_view(pair) == split_parameter(arg@),
        pair.0 is Borrowed <==> arg is Borrowed,
        pair.1 matches Some(value) ==> (value is Borrowed <==> arg is Borrowed),
{
    match arg {
        Cow::Borrowed(arg) => {
            let (key, value) = parse_parameter(arg);
            match value {
                Some(value) => (Cow::Borrowed(key), Some(Cow::Borrowed(value))),
                None => (Cow::Borrowed(key), None),
            }
        },
        Cow::Owned(arg) => {
            let (key, value) = parse_parameter(arg.as_str());
            match value {
                Some(value) => (Cow::Owned(key.to_owned()), Some(Cow::Owned(value.to_owned()))),
                None => (Cow::Owned(key.to_owned()), None),
            }
        },
    }
}

/// A parameter list, as it is found in `GIT_CONFIG_PARAMETERS`.
pub struct ConfigParameters {
    values: String,
}

impl View for ConfigParameters {
    type V = Seq<char>;

    /// The text of the list.
    closed spec fn view(&self) -> Seq<char> {
        self.values@
    }
}

impl ConfigParameters {
    /// The list with the given text.
    pub fn with_value(values: String) -> (list: Self)
        ensures
            list@ == values@,
    {
        Self { values }
    }

    /// A reader at the front of the list.
    pub fn iter(&self) -> (reader: ConfigParametersIter<'_>)
        ensures
            reader@ == self@,
    {
        ConfigParametersIter::new(self.values.as_str())
    }
}

/// A reader of a parameter list, which hands out the pairs one by one.
pub struct ConfigParametersIter<'s> {
    values: &'s str,
}

impl<'s> View for ConfigParametersIter<'s> {
    type V = Seq<char>;

    /// The part of the list that is still to be read.
    closed spec fn view(&self) -> Seq<char> {
        self.values@
    }
}

impl<'s> ConfigParametersIter<'s> {
    /// A reader at the front of the list `values`.
    pub fn new(values: &'s str) -> (reader: Self)
        ensures
            reader@ == values@,
    {
        Self { values }
    }

    /// Always empty. The pairs of the list are read with
    /// [`ConfigParametersIter::next`] and [`ConfigParametersIter::collect`].
    pub fn iter(&self) -> (items: Vec<(Cow<'_, str>, Cow<'_, str>)>)
        ensures
            items@.len() == 0,
    {
        Vec::new()
    }

    /// Reads the next pair of the list.
    ///
    /// White space before the word is skipped. In the newer form, `'key'=` at
    /// the end of the list or before a space is a key without a value. In the
    /// older form the word is split as [`parse_parameter`] splits an argument,
    /// and must be followed by a space or by the end of the list. Where the
    /// list is malformed, reading ends: `None` is returned, now and on every
    /// later call.
    pub fn next(&mut self) -> (item: Option<(Cow<'s, str>, Option<Cow<'s, str>>)>)
        ensures
            match next_pair(old(self)@) {
                Some((pair, rest)) => {
                    &&& item matches Some(found) && pair_view(found) == pair
                    &&& final(self)@ == rest
                },
                None => item is None && final(self)@ == Seq::<char>::empty(),
            },
    {
        proof {
            reveal_strlit("");
        }
        let mut cursor: &'s str = trim_start(self.values);
        let key = match sq_dequote_step(&mut cursor) {
            Ok(key) => key,
            Err(_) => {
                self.values = "";
                return None;
            },
        };
        if let Some(after) = strip_prefix(cursor, '=') {
            if after.is_empty() {
                self.values = after;
                Some((key, None))
            } else if let Some(rest) = strip_prefix(after, ' ') {
                self.values = rest;
                Some((key, None))
            } else {
                let mut cursor: &'s str = after;
                match sq_dequote_step(&mut cursor) {
                    Ok(value) => {
                        self.values = cursor;
                        Some((key, Some(value)))
                    },
                    Err(_) => {
                        self.values = "";
                        None
                    },
                }
            }
        } else if cursor.is_empty() {
            self.values = cursor;
            Some(parse_parameter_cow(key))
        } else if let Some(rest) = strip_prefix(cursor, ' ') {
            self.values = rest;
            Some(parse_parameter_cow(key))
        } else {
            self.values = "";
            None
        }
    }

    /// Reads the list to its end and gives the pairs in the order in which
    /// they are written.
    pub fn collect(self) -> (items: Vec<(Cow<'s, str>, Option<Cow<'s, str>>)>)
        ensures
            items@.len() == pairs(self@).len(),
            forall|i: int|
                0 <= i < items@.len() ==> pair_view(#[trigger] items@[i]) == pairs(self@)[i],
    {
        let mut reader = self;
        let mut items: Vec<(Cow<'s, str>, Option<Cow<'s, str>>)> = Vec::new();
        loop
            invariant
                items@.map_values(|item| pair_view(item)) + pairs(reader@) == pairs(self@),
            ensures
                items@.map_values(|item| pair_view(item)) == pairs(self@),
            decreases reader@.len(),
        {
            let ghost before = reader@;
            let ghost seen = items@.map_values(|item| pair_view(item));
            proof {
                lemma_next_pair_shorter(before);
            }
            match reader.next() {
                Some(item) => {
                    items.push(item);
                    proof {
                        let now = items@.map_values(|item| pair_view(item));
                        assert(now =~= seen + seq![pair_view(item)]);
                        assert(now + pairs(reader@) =~= seen + (seq![pair_view(item)] + pairs(
                            reader@,
                        )));
                    }
                },
                None => {
                    assert(pairs(before) =~= Seq::<Pair>::empty());
                    assert(seen + pairs(before) =~= seen);
                    break ;
                },
            }
        }
        items
    }
}

} // verus!
