//! The text primitives that the parsers are built from.
//!
//! Texts are modelled as sequences of `char`. In memory a text is a string
//! slice, and so UTF-8: [`split_first`] takes the first character off a slice
//! by the width that its first byte announces, and the other primitives are
//! built on it. The one function here that is believed and not proved is
//! [`join`], which hands the pieces of a text to `itertools`.

use vstd::prelude::*;
use vstd::string::StringSliceAdditionalSpecFns;
use vstd::utf8::{
    encode_scalar, encode_utf8, encode_utf8_decode_utf8, encode_utf8_first_scalar,
    encode_utf8_valid_utf8, is_char_boundary, is_char_boundary_iff_not_is_continuation_byte,
    is_char_boundary_start_end_of_seq, length_of_first_scalar,
};
use itertools::Itertools;

verus! {

/// The number of characters at the front of `s` that differ from `c`.
pub open spec fn run_before(s: Seq<char>, c: char) -> nat
    decreases s.len(),
{
    if s.len() > 0 && s[0] != c {
        1 + run_before(s.skip(1), c)
    } else {
        0
    }
}

/// Where the first `c` of a text stands: a text that is split at a `c` with no
/// `c` before it is split at its first `c`.
pub proof fn lemma_run_before_split(before: Seq<char>, c: char, after: Seq<char>)
    requires
        !before.contains(c),
    ensures
        run_before(before + seq![c] + after, c) == before.len(),
        (before + seq![c] + after).take(before.len() as int) == before,
        (before + seq![c] + after).skip(before.len() as int + 1) == after,
        (before + seq![c] + after).contains(c),
    decreases before.len(),
{
    let s = before + seq![c] + after;
    assert(s[before.len() as int] == c);
    assert(s.take(before.len() as int) =~= before);
    assert(s.skip(before.len() as int + 1) =~= after);
    if before.len() > 0 {
        assert(before[0] != c) by {
            if before[0] == c {
                assert(before.contains(c));
            }
        }
        let shorter = before.skip(1);
        assert(!shorter.contains(c)) by {
            if shorter.contains(c) {
                let i = choose|i: int| 0 <= i < shorter.len() && shorter[i] == c;
                assert(before[i + 1] == c);
            }
        }
        lemma_run_before_split(shorter, c, after);
        assert(s.skip(1) =~= shorter + seq![c] + after);
    }
}

/// A text without `c` runs to its end before any `c`.
pub proof fn lemma_run_before_absent(s: Seq<char>, c: char)
    ensures
        run_before(s, c) <= s.len(),
        !s.contains(c) <==> run_before(s, c) == s.len(),
        run_before(s, c) < s.len() ==> s[run_before(s, c) as int] == c,
        forall|i: int| 0 <= i < run_before(s, c) ==> s[i] != c,
    decreases s.len(),
{
    if s.len() > 0 && s[0] != c {
        let t = s.skip(1);
        lemma_run_before_absent(t, c);
        if t.contains(c) {
            let i = choose|i: int| 0 <= i < t.len() && t[i] == c;
            assert(s[i + 1] == c);
        }
        if s.contains(c) {
            let i = choose|i: int| 0 <= i < s.len() && s[i] == c;
            assert(t[i - 1] == c);
        }
        assert forall|i: int| 0 <= i < run_before(s, c) implies s[i] != c by {
            if i > 0 {
                assert(s[i] == t[i - 1]);
            }
        }
    } else if s.len() > 0 {
        assert(s.contains(c));
    }
}

/// Whether `c` is white space in the sense of Unicode (the property `White_Space`).
pub open spec fn is_whitespace(c: char) -> bool {
    ||| '\u{9}' <= c <= '\u{d}'
    ||| c == ' '
    ||| c == '\u{85}'
    ||| c == '\u{a0}'
    ||| c == '\u{1680}'
    ||| '\u{2000}' <= c <= '\u{200a}'
    ||| c == '\u{2028}'
    ||| c == '\u{2029}'
    ||| c == '\u{202f}'
    ||| c == '\u{205f}'
    ||| c == '\u{3000}'
}

/// `s` without the white space at its front.
pub open spec fn trimmed_start(s: Seq<char>) -> Seq<char>
    decreases s.len(),
{
    if s.len() > 0 && is_whitespace(s[0]) {
        trimmed_start(s.skip(1))
    } else {
        s
    }
}

/// Trimming removes characters from the front and nothing else.
pub proof fn lemma_trimmed_start(s: Seq<char>)
    ensures
        trimmed_start(s).len() <= s.len(),
        trimmed_start(s) == s.skip(s.len() - trimmed_start(s).len()),
        trimmed_start(s).len() > 0 ==> !is_whitespace(trimmed_start(s)[0]),
        forall|i: int|
            0 <= i < s.len() - trimmed_start(s).len() ==> is_whitespace(#[trigger] s[i]),
    decreases s.len(),
{
    if s.len() > 0 && is_whitespace(s[0]) {
        let t = s.skip(1);
        lemma_trimmed_start(t);
        assert(trimmed_start(s) =~= s.skip(s.len() - trimmed_start(s).len()));
        assert forall|i: int| 0 <= i < s.len() - trimmed_start(s).len() implies is_whitespace(
            #[trigger] s[i],
        ) by {
            if i > 0 {
                assert(s[i] == t[i - 1]);
            }
        }
    } else {
        assert(trimmed_start(s) =~= s.skip(0));
    }
}

/// White space before a text stays white space before a longer text.
pub proof fn lemma_trimmed_start_extended(s: Seq<char>, more: Seq<char>)
    requires
        trimmed_start(s).len() > 0,
    ensures
        trimmed_start(s + more) == trimmed_start(s) + more,
    decreases s.len(),
{
    if is_whitespace(s[0]) {
        lemma_trimmed_start_extended(s.skip(1), more);
        assert((s + more).skip(1) =~= s.skip(1) + more);
    }
}

/// The texts of `parts` in order, with `sep` between each two neighbours.
pub open spec fn joined(parts: Seq<&str>, sep: Seq<char>) -> Seq<char>
    decreases parts.len(),
{
    if parts.len() == 0 {
        Seq::empty()
    } else if parts.len() == 1 {
        parts[0]@
    } else {
        joined(parts.drop_last(), sep) + sep + parts.last()@
    }
}

/// The texts of `parts` one after the other.
pub open spec fn concat(parts: Seq<&str>) -> Seq<char>
    decreases parts.len(),
{
    if parts.len() == 0 {
        Seq::empty()
    } else {
        concat(parts.drop_last()) + parts.last()@
    }
}

/// One more part adds its text at the end.
pub proof fn lemma_concat_push(parts: Seq<&str>, part: &str)
    ensures
        concat(parts.push(part)) == concat(parts) + part@,
{
    assert(parts.push(part).drop_last() =~= parts);
}

/// Joining with an empty separator is concatenation.
pub proof fn lemma_joined_empty_sep(parts: Seq<&str>)
    ensures
        joined(parts, Seq::empty()) == concat(parts),
    decreases parts.len(),
{
    if parts.len() == 0 {
    } else if parts.len() == 1 {
        assert(concat(parts.drop_last()) =~= Seq::empty());
        assert(concat(parts) =~= parts[0]@);
    } else {
        lemma_joined_empty_sep(parts.drop_last());
        assert(joined(parts, Seq::empty()) =~= concat(parts));
    }
}

/// The character for a decimal digit below ten.
pub open spec fn digit(d: nat) -> char {
    seq!['0', '1', '2', '3', '4', '5', '6', '7', '8', '9'][d as int]
}

/// A number written in decimal, without a sign and without leading zeros.
pub open spec fn decimal(n: nat) -> Seq<char>
    decreases n,
{
    if n < 10 {
        seq![digit(n)]
    } else {
        decimal(n / 10).push(digit(n % 10))
    }
}

/// Whether `c` is one of the ten decimal digits.
pub open spec fn is_digit(c: char) -> bool {
    '0' <= c <= '9'
}

/// The number that a run of decimal digits stands for.
pub open spec fn number(digits: Seq<char>) -> nat
    decreases digits.len(),
{
    if digits.len() == 0 {
        0
    } else {
        (number(digits.drop_last()) * 10 + (digits.last() as nat - '0' as nat)) as nat
    }
}

/// Whether a text is made of decimal digits alone, and of at least one.
pub open spec fn is_digits(s: Seq<char>) -> bool {
    s.len() > 0 && forall|i: int| 0 <= i < s.len() ==> is_digit(#[trigger] s[i])
}

/// A text without the `+` at its front, if it has one.
pub open spec fn without_plus(s: Seq<char>) -> Seq<char> {
    if s.len() > 0 && s[0] == '+' {
        s.skip(1)
    } else {
        s
    }
}

/// The `usize` that a text stands for: one or more decimal digits, with or
/// without a `+` before them, naming a number within the range of `usize`.
/// Any other text stands for none.
pub open spec fn parsed_usize(s: Seq<char>) -> Option<usize> {
    if is_digits(without_plus(s)) && number(without_plus(s)) <= usize::MAX {
        Some(number(without_plus(s)) as usize)
    } else {
        None
    }
}

/// Two texts with the same bytes are the same text.
proof fn lemma_same_bytes(bytes: Seq<u8>, chars: Seq<char>, other: Seq<char>)
    requires
        bytes == encode_utf8(chars),
        bytes == encode_utf8(other),
    ensures
        chars == other,
{
    encode_utf8_decode_utf8(chars);
    encode_utf8_decode_utf8(other);
}

/// The first character of a text, and the text behind it.
pub(crate) fn split_first(s: &str) -> (parts: Option<(char, &str)>)
    ensures
        match parts {
            Some((c, rest)) => s@.len() > 0 && c == s@[0] && rest@ == s@.skip(1),
            None => s@.len() == 0,
        },
{
    if s.is_empty() {
        return None;
    }
    let c = s.get_char(0);
    let bytes = s.as_bytes();
    proof {
        encode_utf8_valid_utf8(s@);
        encode_utf8_first_scalar(s@);
        assert(encode_utf8(s@) =~= encode_scalar(s@[0] as u32) + encode_utf8(s@.drop_first()));
    }
    let lead = bytes[0];
    let width: usize = if lead < 0x80 {
        1
    } else if lead < 0xe0 {
        2
    } else if lead < 0xf0 {
        3
    } else {
        4
    };
    proof {
        reveal_with_fuel(is_char_boundary, 2);
        assert(width == length_of_first_scalar(bytes@));
        assert(is_char_boundary(bytes@, width as int));
    }
    let (_, rest) = s.split_at(width);
    proof {
        assert(rest.spec_bytes() =~= encode_utf8(s@.drop_first()));
        lemma_same_bytes(rest.spec_bytes(), rest@, s@.drop_first());
        assert(s@.drop_first() =~= s@.skip(1));
    }
    Some((c, rest))
}

/// The text behind the first character of `s` when that character is `c`,
/// nothing otherwise.
pub(crate) fn strip_prefix(s: &str, c: char) -> (rest: Option<&str>)
    ensures
        rest is Some <==> (s@.len() > 0 && s@[0] == c),
        rest matches Some(t) ==> t@ == s@.skip(1),
{
    match split_first(s) {
        Some((first, rest)) => if first == c {
            Some(rest)
        } else {
            None
        },
        None => None,
    }
}

/// The bytes of a text are the bytes of its front and then those of its back.
proof fn lemma_bytes_of_parts(front: Seq<char>, back: Seq<char>)
    ensures
        encode_utf8(front + back) == encode_utf8(front) + encode_utf8(back),
    decreases front.len(),
{
    if front.len() == 0 {
        assert(front + back =~= back);
        assert(encode_utf8(front) + encode_utf8(back) =~= encode_utf8(back));
    } else {
        lemma_bytes_of_parts(front.drop_first(), back);
        assert((front + back).drop_first() =~= front.drop_first() + back);
        assert(encode_utf8(front + back) =~= encode_utf8(front) + encode_utf8(back));
    }
}

/// The front of `s` that `back` leaves: `back` is the back of `s`, from its
/// character with number `n` on.
fn front_of<'a>(s: &'a str, back: &str, Ghost(n): Ghost<int>) -> (front: &'a str)
    requires
        0 <= n <= s@.len(),
        back@ == s@.skip(n),
    ensures
        front@ == s@.take(n),
{
    let ghost bytes = s.spec_bytes();
    proof {
        assert(s@ =~= s@.take(n) + s@.skip(n));
        lemma_bytes_of_parts(s@.take(n), s@.skip(n));
        encode_utf8_valid_utf8(s@);
        encode_utf8_valid_utf8(back@);
        is_char_boundary_start_end_of_seq(bytes);
        assert(bytes == encode_utf8(s@.take(n)) + back.spec_bytes());
        if back@.len() > 0 {
            let at = encode_utf8(s@.take(n)).len() as int;
            assert(back.spec_bytes() =~= encode_scalar(back@[0] as u32) + encode_utf8(
                back@.drop_first(),
            ));
            assert(back.spec_bytes().len() > 0);
            assert(bytes[at] == back.spec_bytes()[0]);
            is_char_boundary_start_end_of_seq(back.spec_bytes());
            is_char_boundary_iff_not_is_continuation_byte(back.spec_bytes(), 0);
            is_char_boundary_iff_not_is_continuation_byte(bytes, at);
        }
    }
    let at = s.as_bytes().len() - back.as_bytes().len();
    let (front, _) = s.split_at(at);
    proof {
        assert(front.spec_bytes() =~= encode_utf8(s@.take(n)));
        lemma_same_bytes(front.spec_bytes(), front@, s@.take(n));
    }
    front
}

/// The texts before and behind the first `c` of `s`, nothing when `s` holds
/// no `c`.
pub(crate) fn split_once(s: &str, c: char) -> (halves: Option<(&str, &str)>)
    ensures
        halves is Some <==> s@.contains(c),
        halves matches Some((before, after)) ==> {
            &&& !before@.contains(c)
            &&& s@ == before@ + seq![c] + after@
        },
{
    let mut back = s;
    let ghost mut n = 0int;
    loop
        invariant
            0 <= n <= s@.len(),
            back@ == s@.skip(n),
            !s@.take(n).contains(c),
        decreases back@.len(),
    {
        match split_first(back) {
            Some((first, after)) => {
                if first == c {
                    let before = front_of(s, back, Ghost(n));
                    assert(s@ =~= before@ + seq![c] + after@);
                    assert(s@[n] == c);
                    return Some((before, after));
                }
                proof {
                    let longer = s@.take(n + 1);
                    assert(longer =~= s@.take(n).push(first));
                    if longer.contains(c) {
                        let i = choose|i: int| 0 <= i < longer.len() && longer[i] == c;
                        assert(s@.take(n)[i] == c);
                    }
                    assert(after@ =~= s@.skip(n + 1));
                    n = n + 1;
                }
                back = after;
            },
            None => {
                assert(s@.take(n) =~= s@);
                return None;
            },
        }
    }
}

/// Whether `c` is white space.
fn is_space(c: char) -> (space: bool)
    ensures
        space == is_whitespace(c),
{
    ('\u{9}' <= c && c <= '\u{d}') || c == ' ' || c == '\u{85}' || c == '\u{a0}' || c == '\u{1680}'
        || ('\u{2000}' <= c && c <= '\u{200a}') || c == '\u{2028}' || c == '\u{2029}' || c
        == '\u{202f}' || c == '\u{205f}' || c == '\u{3000}'
}

/// The text from its first character that is not white space.
pub(crate) fn trim_start(s: &str) -> (rest: &str)
    ensures
        rest@ == trimmed_start(s@),
{
    let mut rest = s;
    loop
        invariant
            trimmed_start(rest@) == trimmed_start(s@),
        ensures
            rest@ == trimmed_start(s@),
        decreases rest@.len(),
    {
        match split_first(rest) {
            Some((first, after)) => {
                if !is_space(first) {
                    break ;
                }
                rest = after;
            },
            None => {
                break ;
            },
        }
    }
    rest
}

/// The number that a decimal digit stands for, nothing for any other character.
fn digit_value(c: char) -> (value: Option<usize>)
    ensures
        value is Some <==> is_digit(c),
        value matches Some(d) ==> d == c as nat - '0' as nat,
{
    if '0' <= c && c <= '9' {
        Some((c as u32 - '0' as u32) as usize)
    } else {
        None
    }
}

/// A run of digits stands for no less than any of its fronts.
proof fn lemma_number_of_front(digits: Seq<char>, n: int)
    requires
        0 <= n <= digits.len(),
        is_digits(digits),
    ensures
        number(digits.take(n)) <= number(digits),
    decreases digits.len(),
{
    if n == digits.len() {
        assert(digits.take(n) =~= digits);
    } else {
        let shorter = digits.drop_last();
        assert(shorter.take(n) =~= digits.take(n));
        assert(is_digit(digits.last()));
        if n > 0 {
            assert forall|i: int| 0 <= i < shorter.len() implies is_digit(
                #[trigger] shorter[i],
            ) by {
                assert(shorter[i] == digits[i]);
            }
            lemma_number_of_front(shorter, n);
        } else {
            assert(number(digits.take(0)) == 0);
        }
    }
}

/// The `usize` that a text stands for in decimal, nothing when the text is
/// empty, holds anything but digits behind an optional `+`, or names a number
/// beyond `usize`.
pub(crate) fn parse_usize(s: &str) -> (n: Option<usize>)
    ensures
        n == parsed_usize(s@),
{
    let digits = match strip_prefix(s, '+') {
        Some(rest) => rest,
        None => s,
    };
    if digits.is_empty() {
        return None;
    }
    let mut rest = digits;
    let mut value: usize = 0;
    let ghost mut n = 0int;
    loop
        invariant
            digits@ == without_plus(s@),
            digits@.len() > 0,
            0 <= n <= digits@.len(),
            rest@ == digits@.skip(n),
            is_digits(digits@.take(n)) || n == 0,
            value == number(digits@.take(n)),
        decreases rest@.len(),
    {
        let (c, after) = match split_first(rest) {
            Some(parts) => parts,
            None => {
                assert(n == digits@.len());
                assert(digits@.take(n) =~= digits@);
                return Some(value);
            },
        };
        let ghost longer = digits@.take(n + 1);
        proof {
            assert(longer.drop_last() =~= digits@.take(n));
            assert(longer.last() == c);
            assert(after@ =~= digits@.skip(n + 1));
            assert(digits@[n] == c);
            if is_digits(digits@) {
                lemma_number_of_front(digits@, n + 1);
            }
        }
        let d = match digit_value(c) {
            Some(d) => d,
            None => {
                return None;
            },
        };
        let tens = match value.checked_mul(10) {
            Some(tens) => tens,
            None => {
                return None;
            },
        };
        value = match tens.checked_add(d) {
            Some(value) => value,
            None => {
                return None;
            },
        };
        proof {
            assert forall|i: int| 0 <= i < longer.len() implies is_digit(#[trigger] longer[i]) by {
                if i < n {
                    assert(longer[i] == digits@.take(n)[i]);
                }
            }
            n = n + 1;
        }
        rest = after;
    }
}

/// A decimal digit as a text.
fn digit_text(d: usize) -> (text: &'static str)
    requires
        d < 10,
    ensures
        text@ == seq![digit(d as nat)],
{
    proof {
        reveal_strlit("0");
        reveal_strlit("1");
        reveal_strlit("2");
        reveal_strlit("3");
        reveal_strlit("4");
        reveal_strlit("5");
        reveal_strlit("6");
        reveal_strlit("7");
        reveal_strlit("8");
        reveal_strlit("9");
    }
    let text = if d == 0 {
        "0"
    } else if d == 1 {
        "1"
    } else if d == 2 {
        "2"
    } else if d == 3 {
        "3"
    } else if d == 4 {
        "4"
    } else if d == 5 {
        "5"
    } else if d == 6 {
        "6"
    } else if d == 7 {
        "7"
    } else if d == 8 {
        "8"
    } else {
        "9"
    };
    assert(text@ =~= seq![digit(d as nat)]);
    text
}

/// The number written in decimal.
pub(crate) fn to_decimal(n: usize) -> (text: String)
    ensures
        text@ == decimal(n as nat),
    decreases n,
{
    if n < 10 {
        digit_text(n).to_owned()
    } else {
        to_decimal(n / 10).concat(digit_text(n % 10))
    }
}

/// `Itertools::join` on string slices: the slices in order, written out as they
/// are, with `sep` between each two neighbours.
#[verifier::external_body]
pub(crate) fn join(parts: &Vec<&str>, sep: &str) -> (text: String)
    ensures
        text@ == joined(parts@, sep@),
{
    parts.iter().join(sep)
}

} // verus!
