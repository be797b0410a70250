//! Shell single quoting as git writes it.
//!
//! A quoted text is one or more sections between single quotes. A single quote
//! or an exclamation mark inside the text is written by closing the section,
//! writing the character behind a backslash, and opening a new section:
//! `'a'\''b'` stands for `a'b`.

use vstd::prelude::*;
use std::borrow::Cow;
use crate::text::{
    concat, join, lemma_concat_push, lemma_joined_empty_sep, lemma_run_before_absent,
    lemma_run_before_split, run_before, split_once, strip_prefix,
};

verus! {

/// The input does not start with a well-formed single-quoted text.
#[derive(Debug)]
pub struct QuoteError;

impl QuoteError {
    /// The message for this error.
    pub fn message(&self) -> (text: String)
        ensures
            text@ == "invalid quoting"@,
    {
        "invalid quoting".to_owned()
    }
}

/// `text` between two single quotes.
pub open spec fn quoted(text: Seq<char>) -> Seq<char> {
    seq!['\''] + text + seq!['\'']
}

/// A quoted section at the front of `s`: what stands between its quotes, and
/// what follows the closing quote. The section ends at the first quote behind
/// the opening one.
pub open spec fn section(s: Seq<char>) -> Option<(Seq<char>, Seq<char>)> {
    if s.len() > 0 && s[0] == '\'' && s.skip(1).contains('\'') {
        let inner = s.skip(1);
        let n = run_before(inner, '\'') as int;
        Some((inner.take(n), inner.skip(n + 1)))
    } else {
        None
    }
}

/// An escaped character at the front of `s`: a backslash and then a single
/// quote or an exclamation mark. Gives the character and what follows it.
pub open spec fn escape(s: Seq<char>) -> Option<(char, Seq<char>)> {
    if s.len() >= 2 && s[0] == '\\' && (s[1] == '\'' || s[1] == '!') {
        Some((s[1], s.skip(2)))
    } else {
        None
    }
}

/// An escaped character and the section behind it, at the front of `s`: the
/// text the two stand for, and what follows.
pub open spec fn trail(s: Seq<char>) -> Option<(Seq<char>, Seq<char>)> {
    match escape(s) {
        Some((c, after)) => match section(after) {
            Some((inner, rest)) => Some((seq![c] + inner, rest)),
            None => None,
        },
        None => None,
    }
}

/// As many trails as the front of `s` holds: the text they stand for together,
/// and what follows the last of them.
pub open spec fn trails(s: Seq<char>) -> (Seq<char>, Seq<char>)
    decreases s.len(),
{
    match trail(s) {
        Some((text, rest)) => {
            proof {
                lemma_trail_shape(s);
            }
            (text + trails(rest).0, trails(rest).1)
        },
        None => (Seq::empty(), s),
    }
}

/// What a quoted text decodes to.
pub struct Dequoted {
    /// The decoded text.
    pub value: Seq<char>,
    /// The input behind the quoted text.
    pub rest: Seq<char>,
    /// Whether the text was written with at least one escaped character.
    pub escaped: bool,
}

/// The quoted text at the front of `s`: a section and as many trails as follow
/// it. `None` when `s` does not start with a section.
pub open spec fn dequoted(s: Seq<char>) -> Option<Dequoted> {
    match section(s) {
        Some((first, after)) => Some(
            Dequoted {
                value: first + trails(after).0,
                rest: trails(after).1,
                escaped: trail(after) is Some,
            },
        ),
        None => None,
    }
}

/// A section is the input between two quotes, and holds no quote itself.
pub proof fn lemma_section_shape(s: Seq<char>)
    ensures
        section(s) matches Some((inner, rest)) ==> s == seq!['\''] + inner + seq!['\''] + rest
            && !inner.contains('\''),
{
    if let Some((inner, rest)) = section(s) {
        let body = s.skip(1);
        lemma_run_before_absent(body, '\'');
        if inner.contains('\'') {
            let i = choose|i: int| 0 <= i < inner.len() && inner[i] == '\'';
            assert(body[i] == '\'');
        }
        assert(s =~= seq!['\''] + inner + seq!['\''] + rest);
    }
}

/// A trail is a backslash, the escaped character and a section.
pub proof fn lemma_trail_shape(s: Seq<char>)
    ensures
        trail(s) matches Some((text, rest)) ==> {
            &&& text.len() >= 1
            &&& text[0] == '\'' || text[0] == '!'
            &&& !text.skip(1).contains('\'')
            &&& s == seq!['\\', text[0], '\''] + text.skip(1) + seq!['\''] + rest
        },
{
    if let Some((c, after)) = escape(s) {
        lemma_section_shape(after);
        if let Some((inner, rest)) = section(after) {
            let text = seq![c] + inner;
            assert(text.skip(1) =~= inner);
            assert(s =~= seq!['\\', c] + after);
            assert(s =~= seq!['\\', c, '\''] + inner + seq!['\''] + rest);
        }
    }
}

/// Decoding consumes at least the two quotes, and what it consumes beyond the
/// decoded text is quoting.
pub proof fn lemma_dequoted_shorter(s: Seq<char>)
    ensures
        dequoted(s) matches Some(d) ==> d.rest.len() + d.value.len() + 2 <= s.len(),
{
    if let Some((first, after)) = section(s) {
        lemma_section_shape(s);
        lemma_trails_shorter(after);
    }
}

proof fn lemma_trails_shorter(s: Seq<char>)
    ensures
        trails(s).1.len() + trails(s).0.len() <= s.len(),
    decreases s.len(),
{
    if let Some((text, rest)) = trail(s) {
        lemma_trail_shape(s);
        lemma_trails_shorter(rest);
    }
}

/// A text that holds no single quote, written between two single quotes,
/// decodes to itself: the text is taken as it stands, without any escaped
/// character, and the whole input is used up.
pub proof fn lemma_dequoted_plain(text: Seq<char>)
    requires
        !text.contains('\''),
    ensures
        dequoted(quoted(text)) == Some(
            Dequoted { value: text, rest: Seq::empty(), escaped: false },
        ),
{
    let s = quoted(text);
    let none = Seq::<char>::empty();
    lemma_run_before_split(text, '\'', none);
    assert(s.skip(1) =~= text + seq!['\''] + none);
    assert(text + trails(none).0 =~= text);
}

/// The inside of a quoted text as git writes it: every single quote and every
/// exclamation mark of `text` stands outside the quotes, behind a backslash.
pub open spec fn escaped_text(text: Seq<char>) -> Seq<char>
    decreases text.len(),
{
    if text.len() == 0 {
        Seq::empty()
    } else if text[0] == '\'' || text[0] == '!' {
        seq!['\'', '\\', text[0], '\''] + escaped_text(text.skip(1))
    } else {
        seq![text[0]] + escaped_text(text.skip(1))
    }
}

/// `text` quoted as git quotes it.
pub open spec fn sq_quoted(text: Seq<char>) -> Seq<char> {
    quoted(escaped_text(text))
}

/// Decoding undoes quoting: a text quoted as git quotes it decodes to itself
/// and uses up the whole input. It was written with an escaped character when
/// it holds a single quote or an exclamation mark.
pub proof fn lemma_dequoted_sq_quoted(text: Seq<char>)
    ensures
        dequoted(sq_quoted(text)) == Some(
            Dequoted {
                value: text,
                rest: Seq::empty(),
                escaped: text.contains('\'') || text.contains('!'),
            },
        ),
{
    lemma_dequoted_escaped_text(Seq::empty(), text);
    assert(Seq::<char>::empty() + escaped_text(text) =~= escaped_text(text));
    assert(Seq::<char>::empty() + text =~= text);
}

/// A text that starts with plain characters and goes on as git quotes a text
/// decodes to the plain characters and that text.
proof fn lemma_dequoted_escaped_text(plain: Seq<char>, text: Seq<char>)
    requires
        !plain.contains('\''),
    ensures
        dequoted(quoted(plain + escaped_text(text))) == Some(
            Dequoted {
                value: plain + text,
                rest: Seq::empty(),
                escaped: text.contains('\'') || text.contains('!'),
            },
        ),
    decreases text.len(),
{
    let whole = quoted(plain + escaped_text(text));
    if text.len() == 0 {
        lemma_dequoted_plain(plain);
        assert(plain + escaped_text(text) =~= plain);
        assert(plain + text =~= plain);
    } else if text[0] == '\'' || text[0] == '!' {
        let c = text[0];
        let tail = text.skip(1);
        let next = quoted(escaped_text(tail));
        let after = seq!['\\', c] + next;
        lemma_dequoted_escaped_text(Seq::empty(), tail);
        assert(Seq::<char>::empty() + escaped_text(tail) =~= escaped_text(tail));
        assert(Seq::<char>::empty() + tail =~= tail);
        let (first, behind) = section(next).unwrap();
        assert(whole =~= quoted(plain) + after);
        lemma_run_before_split(plain, '\'', after);
        assert(whole.skip(1) =~= plain + seq!['\''] + after);
        assert(section(whole) == Some((plain, after)));
        assert(after.skip(2) =~= next);
        assert(trail(after) == Some((seq![c] + first, behind)));
        lemma_trail_shape(after);
        assert(plain + (seq![c] + first + trails(behind).0) =~= plain + text) by {
            assert(text =~= seq![c] + tail);
            assert(tail == first + trails(behind).0);
        }
        assert(text.contains(c));
    } else {
        let c = text[0];
        let tail = text.skip(1);
        let longer = plain.push(c);
        assert(!longer.contains('\'')) by {
            if longer.contains('\'') {
                let i = choose|i: int| 0 <= i < longer.len() && longer[i] == '\'';
                assert(plain[i] == '\'');
            }
        }
        lemma_dequoted_escaped_text(longer, tail);
        assert(plain + escaped_text(text) =~= longer + escaped_text(tail));
        assert(plain + text =~= longer + tail);
        assert forall|d: char| d == '\'' || d == '!' implies text.contains(d) == tail.contains(
            d,
        ) by {
            if text.contains(d) {
                let i = choose|i: int| 0 <= i < text.len() && text[i] == d;
                assert(tail[i - 1] == d);
            }
            if tail.contains(d) {
                let i = choose|i: int| 0 <= i < tail.len() && tail[i] == d;
                assert(text[i + 1] == d);
            }
        }
    }
}

/// More input behind a section leaves the section as it is.
pub proof fn lemma_section_extended(s: Seq<char>, more: Seq<char>)
    ensures
        section(s) matches Some((inner, rest)) ==> section(s + more) == Some((inner, rest + more)),
{
    if let Some((inner, rest)) = section(s) {
        lemma_section_shape(s);
        lemma_run_before_split(inner, '\'', rest + more);
        assert((s + more).skip(1) =~= inner + seq!['\''] + (rest + more));
    }
}

/// More input behind a trail leaves the trail as it is.
pub proof fn lemma_trail_extended(s: Seq<char>, more: Seq<char>)
    ensures
        trail(s) matches Some((text, rest)) ==> trail(s + more) == Some((text, rest + more)),
{
    if let Some((c, after)) = escape(s) {
        lemma_section_extended(after, more);
        assert((s + more).skip(2) =~= after + more);
    }
}

/// More input behind a quoted text leaves the decoded text as it is, unless
/// the added input continues the quoted text with another trail.
pub proof fn lemma_dequoted_extended(s: Seq<char>, more: Seq<char>)
    requires
        dequoted(s) matches Some(d) && trail(d.rest + more) is None,
    ensures
        dequoted(s + more) == Some(
            Dequoted {
                value: dequoted(s).unwrap().value,
                rest: dequoted(s).unwrap().rest + more,
                escaped: dequoted(s).unwrap().escaped,
            },
        ),
{
    let (first, after) = section(s).unwrap();
    lemma_section_extended(s, more);
    lemma_trails_extended(after, more);
    lemma_trail_extended(after, more);
}

proof fn lemma_trails_extended(s: Seq<char>, more: Seq<char>)
    requires
        trail(trails(s).1 + more) is None,
    ensures
        trails(s + more) == (trails(s).0, trails(s).1 + more),
    decreases s.len(),
{
    if let Some((text, rest)) = trail(s) {
        lemma_trail_shape(s);
        lemma_trail_extended(s, more);
        lemma_trails_extended(rest, more);
    }
}

/// Reads one section: the text between the quote at the front of the input and
/// the next quote. The input moves behind that quote.
fn sq_dequote_section<'i>(input: &mut &'i str) -> (r: Result<&'i str, ()>)
    ensures
        match section(old(input)@) {
            Some((inner, rest)) => r matches Ok(text) && text@ == inner && final(input)@ == rest,
            None => r is Err && *final(input) == *old(input),
        },
{
    let opened = match strip_prefix(*input, '\'') {
        Some(opened) => opened,
        None => {
            return Err(());
        },
    };
    match split_once(opened, '\'') {
        Some((inner, rest)) => {
            proof {
                lemma_run_before_split(inner@, '\'', rest@);
            }
            *input = rest;
            Ok(inner)
        },
        None => Err(()),
    }
}

/// Reads one escaped character: a backslash and then a single quote or an
/// exclamation mark.
fn escaped<'i>(input: &mut &'i str) -> (r: Result<&'i str, ()>)
    ensures
        match escape(old(input)@) {
            Some((c, rest)) => r matches Ok(text) && text@ == seq![c] && final(input)@ == rest,
            None => r is Err && *final(input) == *old(input),
        },
{
    let after = match strip_prefix(*input, '\\') {
        Some(after) => after,
        None => {
            return Err(());
        },
    };
    proof {
        reveal_strlit("'");
        reveal_strlit("!");
    }
    if let Some(rest) = strip_prefix(after, '\'') {
        assert(rest@ =~= old(input)@.skip(2));
        assert("'"@ =~= seq!['\'']);
        *input = rest;
        Ok("'")
    } else if let Some(rest) = strip_prefix(after, '!') {
        assert(rest@ =~= old(input)@.skip(2));
        assert("!"@ =~= seq!['!']);
        *input = rest;
        Ok("!")
    } else {
        Err(())
    }
}

/// Reads one trail: an escaped character and the section behind it.
fn sq_dequote_trail<'i>(input: &mut &'i str) -> (r: Result<[&'i str; 2], ()>)
    ensures
        match trail(old(input)@) {
            Some((text, rest)) => {
                &&& r matches Ok(pair) && pair[0]@ + pair[1]@ == text
                &&& final(input)@ == rest
            },
            None => r is Err && *final(input) == *old(input),
        },
{
    let start = *input;
    let e = match escaped(input) {
        Ok(e) => e,
        Err(e) => {
            return Err(e);
        },
    };
    match sq_dequote_section(input) {
        Ok(s) => Ok([e, s]),
        Err(e) => {
            *input = start;
            Err(e)
        },
    }
}

/// Reads a quoted text that holds at least one escaped character, and puts its
/// pieces together.
fn sq_dequote_escaped<'i>(input: &mut &'i str) -> (r: Result<Cow<'i, str>, ()>)
    ensures
        match dequoted(old(input)@) {
            Some(d) => if d.escaped {
                r matches Ok(v) && v is Owned && v@ == d.value && final(input)@ == d.rest
            } else {
                r is Err && *final(input) == *old(input)
            },
            None => r is Err && *final(input) == *old(input),
        },
{
    let start = *input;
    let first = match sq_dequote_section(input) {
        Ok(first) => first,
        Err(e) => {
            return Err(e);
        },
    };
    let ghost after = input@;
    let mut parts: Vec<&str> = Vec::new();
    parts.push(first);
    proof {
        lemma_concat_push(Seq::empty(), first);
        assert(concat(parts@) =~= first@);
    }
    match sq_dequote_trail(input) {
        Ok(pair) => {
            proof {
                lemma_concat_push(parts@, pair[0]);
                lemma_concat_push(parts@.push(pair[0]), pair[1]);
            }
            parts.push(pair[0]);
            parts.push(pair[1]);
        },
        Err(e) => {
            *input = start;
            return Err(e);
        },
    }
    let ghost mut seen = trail(after).unwrap().0;
    proof {
        lemma_trail_shape(after);
        assert(concat(parts@) =~= first@ + seen);
    }
    loop
        invariant
            concat(parts@) == first@ + seen,
            trails(after) == (seen + trails(input@).0, trails(input@).1),
        ensures
            trail(input@) is None,
        decreases input@.len(),
    {
        let ghost before = input@;
        let ghost parts_before = parts@;
        match sq_dequote_trail(input) {
            Ok(pair) => {
                parts.push(pair[0]);
                parts.push(pair[1]);
                proof {
                    lemma_trail_shape(before);
                    let text = trail(before).unwrap().0;
                    lemma_concat_push(parts_before, pair[0]);
                    lemma_concat_push(parts_before.push(pair[0]), pair[1]);
                    assert(concat(parts@) =~= first@ + (seen + text));
                    assert(seen + (text + trails(input@).0) =~= (seen + text) + trails(input@).0);
                    seen = seen + text;
                }
            },
            Err(_) => {
                break ;
            },
        }
    }
    proof {
        assert(trails(after).0 =~= seen);
        lemma_joined_empty_sep(parts@);
        reveal_strlit("");
        assert(""@ =~= Seq::<char>::empty());
    }
    let value = join(&parts, "");
    Ok(Cow::Owned(value))
}

/// Reads a quoted text of a single section, and hands out the section as it
/// stands in the input.
fn sq_dequote_no_escaped<'i>(input: &mut &'i str) -> (r: Result<Cow<'i, str>, ()>)
    ensures
        match section(old(input)@) {
            Some((inner, rest)) => {
                &&& r matches Ok(v) && v is Borrowed && v@ == inner
                &&& final(input)@ == rest
            },
            None => r is Err && *final(input) == *old(input),
        },
{
    match sq_dequote_section(input) {
        Ok(inner) => Ok(Cow::Borrowed(inner)),
        Err(e) => Err(e),
    }
}

/// Decodes the quoted text at the front of the input and moves the input
/// behind it.
///
/// The text is first read as one with escaped characters; when no escaped
/// character follows its first section, that section alone is the text, and it
/// is handed out borrowed. When the input does not start with a section,
/// nothing is decoded and the input stays where it was.
#[allow(clippy::result_unit_err)]
pub fn sq_dequote<'i>(input: &mut &'i str) -> (r: Result<Cow<'i, str>, ()>)
    ensures
        match dequoted(old(input)@) {
            Some(d) => {
                &&& r matches Ok(v) && v@ == d.value && (v is Owned <==> d.escaped)
                &&& final(input)@ == d.rest
            },
            None => r is Err && *final(input) == *old(input),
        },
{
    match sq_dequote_escaped(input) {
        Ok(v) => Ok(v),
        Err(_) => {
            proof {
                if let Some((inner, after)) = section(old(input)@) {
                    assert(trails(after).0 =~= Seq::<char>::empty());
                    assert(inner + trails(after).0 =~= inner);
                }
            }
            sq_dequote_no_escaped(input)
        },
    }
}

/// Decodes the quoted text at the front of the input, as [`sq_dequote`] does,
/// and reports malformed quoting as a [`QuoteError`].
pub fn sq_dequote_step<'i>(input: &mut &'i str) -> (r: Result<Cow<'i, str>, QuoteError>)
    ensures
        match dequoted(old(input)@) {
            Some(d) => {
                &&& r matches Ok(v) && v@ == d.value && (v is Owned <==> d.escaped)
                &&& final(input)@ == d.rest
            },
            None => r is Err && *final(input) == *old(input),
        },
{
    match sq_dequote(input) {
        Ok(v) => Ok(v),
        Err(_) => Err(QuoteError),
    }
}

} // verus!
