//! Text as sequences of characters: replacement of a pattern, search for a
//! pattern, decimal numerals.

use vstd::prelude::*;

verus! {

/// `String::push` appends one character to the end of the string.
pub assume_specification[ String::push ](s: &mut String, ch: char)
    ensures
        final(s)@ == old(s)@.push(ch),
;

/// The characters of a string, in order.
pub fn chars_of(s: &str) -> (chars: Vec<char>)
    ensures
        chars@ == s@,
{
    let mut chars: Vec<char> = Vec::new();
    for c in it: s.chars()
        invariant
            it.seq() == s@,
            chars@ == s@.take(it.index()),
    {
        chars.push(c);
    }
    chars
}

/// The string made of the given characters, in order.
pub fn string_of(chars: &[char]) -> (s: String)
    ensures
        s@ == chars@,
{
    let mut s = String::new();
    let mut i: usize = 0;
    while i < chars.len()
        invariant
            i <= chars.len(),
            s@ == chars@.take(i as int),
        decreases chars.len() - i,
    {
        s.push(chars[i]);
        i = i + 1;
    }
    s
}

/// Appends `more` to `out`.
pub fn append_chars(out: &mut Vec<char>, more: &[char])
    ensures
        final(out)@ == old(out)@ + more@,
{
    let mut i: usize = 0;
    while i < more.len()
        invariant
            i <= more.len(),
            out@ == old(out)@ + more@.take(i as int),
        decreases more.len() - i,
    {
        out.push(more[i]);
        i = i + 1;
    }
}

/// `text` with every occurrence of `from` replaced by `to`: occurrences are
/// found from the left and do not overlap, and what was put in is not
/// searched again. An empty pattern occurs nowhere.
pub open spec fn replaced(text: Seq<char>, from: Seq<char>, to: Seq<char>) -> Seq<char>
    decreases text.len(),
{
    if from.len() == 0 || text.len() == 0 {
        text
    } else if from.is_prefix_of(text) {
        to + replaced(text.skip(from.len() as int), from, to)
    } else {
        seq![text[0]] + replaced(text.skip(1), from, to)
    }
}

/// `pattern` stands in `text` at index `at`.
pub open spec fn occurs_at(text: Seq<char>, pattern: Seq<char>, at: int) -> bool {
    0 <= at && at + pattern.len() <= text.len() && text.subrange(at, at + pattern.len())
        == pattern
}

/// `pattern` stands somewhere in `text`.
pub open spec fn occurs(text: Seq<char>, pattern: Seq<char>) -> bool {
    exists|at: int| occurs_at(text, pattern, at)
}

/// `text` holds the character `c` nowhere.
pub open spec fn lacks(text: Seq<char>, c: char) -> bool {
    forall|i: int| 0 <= i < text.len() ==> text[i] != c
}

/// Two texts that lack a character lack it when joined.
pub proof fn lemma_lacks_joined(first: Seq<char>, second: Seq<char>, c: char)
    requires
        lacks(first, c),
        lacks(second, c),
    ensures
        lacks(first + second, c),
{
}

/// A pattern that stands nowhere in a text leaves the text as it is.
pub proof fn lemma_replaced_without_occurrence(text: Seq<char>, from: Seq<char>, to: Seq<char>)
    requires
        !occurs(text, from),
    ensures
        replaced(text, from, to) == text,
    decreases text.len(),
{
    if from.len() > 0 && text.len() > 0 {
        if from.is_prefix_of(text) {
            assert(occurs_at(text, from, 0));
        }
        let rest = text.skip(1);
        assert forall|at: int| !occurs_at(rest, from, at) by {
            if occurs_at(rest, from, at) {
                assert(rest.subrange(at, at + from.len()) =~= text.subrange(
                    at + 1,
                    at + 1 + from.len(),
                ));
                assert(occurs_at(text, from, at + 1));
            }
        }
        lemma_replaced_without_occurrence(rest, from, to);
        assert(seq![text[0]] + rest =~= text);
    }
}

/// A pattern stands nowhere in a text that lacks the pattern's first
/// character.
pub proof fn lemma_first_character_absent(text: Seq<char>, pattern: Seq<char>)
    requires
        pattern.len() > 0,
        lacks(text, pattern[0]),
    ensures
        !occurs(text, pattern),
{
    assert forall|at: int| !occurs_at(text, pattern, at) by {
        if occurs_at(text, pattern, at) {
            assert(text.subrange(at, at + pattern.len())[0] == text[at]);
        }
    }
}

/// A text that lacks the first character of a pattern is left as it is.
pub proof fn lemma_replaced_lacking(text: Seq<char>, from: Seq<char>, to: Seq<char>)
    requires
        from.len() > 0,
        lacks(text, from[0]),
    ensures
        replaced(text, from, to) == text,
{
    lemma_first_character_absent(text, from);
    lemma_replaced_without_occurrence(text, from, to);
}

/// Replacement passes over a stretch that lacks the first character of
/// the pattern, and goes on behind it.
pub proof fn lemma_replaced_past(head: Seq<char>, tail: Seq<char>, from: Seq<char>, to: Seq<char>)
    requires
        from.len() > 0,
        lacks(head, from[0]),
    ensures
        replaced(head + tail, from, to) == head + replaced(tail, from, to),
    decreases head.len(),
{
    let text = head + tail;
    if head.len() == 0 {
        assert(text =~= tail);
        assert(head + replaced(tail, from, to) =~= replaced(tail, from, to));
    } else {
        assert(text[0] == head[0]);
        if from.is_prefix_of(text) {
            assert(text.subrange(0, from.len() as int)[0] == text[0]);
        }
        assert(text.skip(1) =~= head.skip(1) + tail);
        lemma_replaced_past(head.skip(1), tail, from, to);
        assert(seq![text[0]] + (head.skip(1) + replaced(tail, from, to)) =~= head + replaced(
            tail,
            from,
            to,
        ));
    }
}

/// Where the pattern stands at the start, the replacement takes its
/// place, and replacement goes on behind it.
pub proof fn lemma_replaced_pattern(from: Seq<char>, tail: Seq<char>, to: Seq<char>)
    requires
        from.len() > 0,
    ensures
        replaced(from + tail, from, to) == to + replaced(tail, from, to),
{
    let text = from + tail;
    assert(text.subrange(0, from.len() as int) =~= from);
    assert(text.skip(from.len() as int) =~= tail);
}

/// A text that does not start with a pattern keeps its first character,
/// followed by the rest with its occurrences replaced.
pub proof fn lemma_replaced_after_start(text: Seq<char>, from: Seq<char>, to: Seq<char>)
    requires
        text.len() > 0,
        !occurs_at(text, from, 0),
    ensures
        replaced(text, from, to) == seq![text[0]] + replaced(text.skip(1), from, to),
{
    if from.len() == 0 {
        assert(text.subrange(0, 0) =~= from);
    }
}

/// Whether `pattern` stands in `text` at index `at`.
pub fn matches_at(text: &[char], pattern: &[char], at: usize) -> (found: bool)
    ensures
        found == occurs_at(text@, pattern@, at as int),
{
    if at > text.len() || pattern.len() > text.len() - at {
        return false;
    }
    let mut j: usize = 0;
    while j < pattern.len()
        invariant
            j <= pattern.len(),
            at + pattern.len() <= text.len(),
            forall|k: int| 0 <= k < j ==> text@[at + k] == pattern@[k],
        decreases pattern.len() - j,
    {
        if text[at + j] != pattern[j] {
            assert(text@.subrange(at as int, at + pattern.len())[j as int] != pattern@[j as int]);
            return false;
        }
        j = j + 1;
    }
    assert(text@.subrange(at as int, at + pattern.len()) =~= pattern@);
    true
}

/// Whether `pattern` stands somewhere in `text`.
pub fn contains(text: &[char], pattern: &[char]) -> (found: bool)
    ensures
        found == occurs(text@, pattern@),
{
    let mut at: usize = 0;
    while at < text.len()
        invariant
            at <= text.len(),
            forall|k: int| 0 <= k < at ==> !occurs_at(text@, pattern@, k),
        decreases text.len() - at,
    {
        if matches_at(text, pattern, at) {
            return true;
        }
        at = at + 1;
    }
    matches_at(text, pattern, at)
}

/// Replaces every occurrence of `from` in `text` by `to`.
pub fn replace_all(text: &[char], from: &[char], to: &[char]) -> (out: Vec<char>)
    ensures
        out@ == replaced(text@, from@, to@),
{
    let mut out: Vec<char> = Vec::new();
    if from.len() == 0 {
        append_chars(&mut out, text);
        return out;
    }
    let mut at: usize = 0;
    proof {
        assert(text@.skip(0) =~= text@);
        assert(out@ + replaced(text@, from@, to@) =~= replaced(text@, from@, to@));
    }
    while at < text.len()
        invariant
            at <= text.len(),
            from.len() > 0,
            out@ + replaced(text@.skip(at as int), from@, to@) == replaced(text@, from@, to@),
        decreases text.len() - at,
    {
        let ghost rest = text@.skip(at as int);
        if matches_at(text, from, at) {
            proof {
                assert(rest.subrange(0, from.len() as int) =~= text@.subrange(
                    at as int,
                    at + from.len(),
                ));
                assert(rest.skip(from.len() as int) =~= text@.skip(at + from.len()));
                assert((out@ + to@) + replaced(text@.skip(at + from.len()), from@, to@) =~= out@
                    + (to@ + replaced(text@.skip(at + from.len()), from@, to@)));
            }
            append_chars(&mut out, to);
            at = at + from.len();
        } else {
            proof {
                if from.len() <= rest.len() {
                    assert(rest.subrange(0, from.len() as int) =~= text@.subrange(
                        at as int,
                        at + from.len(),
                    ));
                }
                assert(rest.skip(1) =~= text@.skip(at + 1));
                assert(out@.push(text@[at as int]) + replaced(text@.skip(at + 1), from@, to@)
                    =~= out@ + (seq![rest[0]] + replaced(text@.skip(at + 1), from@, to@)));
            }
            out.push(text[at]);
            at = at + 1;
        }
    }
    assert(out@ + Seq::<char>::empty() =~= out@);
    out
}

/// The ten decimal digits, by value.
pub open spec fn digits() -> Seq<char> {
    seq!['0', '1', '2', '3', '4', '5', '6', '7', '8', '9']
}

/// The decimal numeral of `n`, without leading zeros.
pub open spec fn decimal(n: nat) -> Seq<char>
    decreases n,
{
    if n < 10 {
        seq![digits()[n as int]]
    } else {
        decimal(n / 10) + seq![digits()[(n % 10) as int]]
    }
}

/// A decimal numeral is made of digits, and of at least one.
pub proof fn lemma_decimal_digits(n: nat)
    ensures
        decimal(n).len() > 0,
        forall|i: int|
            0 <= i < decimal(n).len() ==> '0' <= (#[trigger] decimal(n)[i]) && decimal(n)[i]
                <= '9',
    decreases n,
{
    if n >= 10 {
        lemma_decimal_digits(n / 10);
    }
}

/// The digit for a value below ten.
fn digit(value: usize) -> (c: char)
    requires
        value < 10,
    ensures
        c == digits()[value as int],
{
    match value {
        0 => '0',
        1 => '1',
        2 => '2',
        3 => '3',
        4 => '4',
        5 => '5',
        6 => '6',
        7 => '7',
        8 => '8',
        _ => '9',
    }
}

/// Writes `n` as a decimal numeral.
pub fn to_decimal(n: usize) -> (text: Vec<char>)
    ensures
        text@ == decimal(n as nat),
    decreases n,
{
    let mut text: Vec<char> = if n < 10 {
        Vec::new()
    } else {
        to_decimal(n / 10)
    };
    text.push(digit(n % 10));
    text
}

} // verus!
