//! What the rewriting of a template does to each marker of the source
//! dialect, whatever plain text stands around the marker.

use crate::error::{error_at, ErrorKind, SyntaxError};
use crate::template::{
    indexed, placeholder, promoted, reference, resolved, rewritten, unique_id, SENTINEL,
};
use crate::text::{
    decimal, lacks, lemma_decimal_digits, lemma_first_character_absent, lemma_lacks_joined,
    lemma_replaced_after_start, lemma_replaced_lacking, lemma_replaced_past,
    lemma_replaced_pattern, lemma_replaced_without_occurrence, occurs, occurs_at, replaced,
};
use vstd::prelude::*;

verus! {

/// A text is plain when it holds none of the characters that mark a
/// placeholder or stand for one: `$`, `%` and the sentinel.
pub open spec fn plain(text: Seq<char>) -> bool {
    lacks(text, '$') && lacks(text, '%') && lacks(text, SENTINEL)
}

/// A name is plain when it is plain as a text and does not hold `]`, which
/// closes a reference. Every identifier is plain.
pub open spec fn plain_name(name: Seq<char>) -> bool {
    plain(name) && lacks(name, ']')
}

/// An entry of the table is apart from `name` when it is no name, or a
/// plain name other than `name`.
pub open spec fn apart(entry: Option<Seq<char>>, name: Seq<char>) -> bool {
    match entry {
        Some(other) => plain_name(other) && other != name,
        None => true,
    }
}

/// Where `$[` stands nowhere in a text, no reference stands in it.
pub proof fn lemma_reference_needs_marker(text: Seq<char>, name: Seq<char>)
    requires
        !occurs(text, seq!['$', '[']),
    ensures
        !occurs(text, reference(name)),
{
    let pattern = reference(name);
    assert forall|at: int| !occurs_at(text, pattern, at) by {
        if occurs_at(text, pattern, at) {
            assert(text.subrange(at, at + 2) =~= text.subrange(at, at + pattern.len()).subrange(
                0,
                2,
            ));
            assert(pattern.subrange(0, 2) =~= seq!['$', '[']);
            assert(occurs_at(text, seq!['$', '['], at));
        }
    }
}

/// Once `$[` stands nowhere in the text that the first `done` names have
/// left, the names that follow leave that text as it is.
pub proof fn lemma_resolved_stays(
    text: Seq<char>,
    names: Seq<Option<Seq<char>>>,
    done: nat,
    count: nat,
)
    requires
        done <= count,
        !occurs(resolved(text, names, done), seq!['$', '[']),
    ensures
        resolved(text, names, count) == resolved(text, names, done),
    decreases count,
{
    if done < count {
        lemma_resolved_stays(text, names, done, (count - 1) as nat);
        if let Some(name) = names[count - 1] {
            lemma_reference_needs_marker(resolved(text, names, done), name);
            lemma_replaced_without_occurrence(
                resolved(text, names, done),
                reference(name),
                placeholder((count - 1) as nat),
            );
        }
    }
}

/// In a text whose only `$` is not followed by the character `second`,
/// the pair of `$` and `second` stands nowhere.
proof fn lemma_marker_elsewhere(head: Seq<char>, second: char, tail: Seq<char>)
    requires
        lacks(head, '$'),
        lacks(tail, '$'),
        tail.len() == 0 || tail[0] != second,
    ensures
        !occurs(head + seq!['$'] + tail, seq!['$', second]),
{
    let text = head + seq!['$'] + tail;
    let pair = seq!['$', second];
    assert forall|at: int| !occurs_at(text, pair, at) by {
        if occurs_at(text, pair, at) {
            assert(text.subrange(at, at + 2)[0] == text[at]);
            assert(text.subrange(at, at + 2)[1] == text[at + 1]);
            if at < head.len() {
                assert(text[at] == head[at]);
            } else if at > head.len() {
                assert(text[at] == tail[at - head.len() - 1]);
            } else {
                assert(text[at + 1] == tail[0]);
            }
        }
    }
}

/// A text that lacks `$` and the sentinel is what the rewriting ends with
/// once the markers are promoted: no name is referred to in it, and the
/// last two steps find nothing to replace.
proof fn lemma_settled(template: Seq<char>, names: Seq<Option<Seq<char>>>)
    requires
        lacks(promoted(template), '$'),
        lacks(promoted(template), SENTINEL),
    ensures
        rewritten(template, names) == Ok::<Seq<char>, SyntaxError>(promoted(template)),
{
    let text = promoted(template);
    lemma_first_character_absent(text, seq!['$', '[']);
    lemma_resolved_stays(text, names, 0, names.len());
    lemma_replaced_lacking(text, seq!['$', '='], unique_id());
    lemma_replaced_lacking(text, seq![SENTINEL], seq!['$', '$']);
}

/// Plain text is rewritten to itself, whatever the names.
pub proof fn lemma_plain_text(text: Seq<char>, names: Seq<Option<Seq<char>>>)
    requires
        plain(text),
    ensures
        rewritten(text, names) == Ok::<Seq<char>, SyntaxError>(text),
{
    lemma_replaced_lacking(text, seq!['$'], seq![SENTINEL]);
    lemma_replaced_lacking(text, seq!['%'], seq!['$']);
    lemma_replaced_lacking(text, seq!['$', '$'], seq!['%']);
    lemma_settled(text, names);
}

/// Positional rewrite: amid plain text, a `%` of the source that is not
/// followed by `[` or `=` becomes `$`, so that `%0` becomes `$0`,
/// whatever the names.
pub proof fn lemma_positional(before: Seq<char>, after: Seq<char>, names: Seq<Option<Seq<char>>>)
    requires
        plain(before),
        plain(after),
        after.len() == 0 || (after[0] != '[' && after[0] != '='),
    ensures
        rewritten(before + seq!['%'] + after, names) == Ok::<Seq<char>, SyntaxError>(
            before + seq!['$'] + after,
        ),
{
    let source = before + seq!['%'] + after;
    let text = before + seq!['$'] + after;
    assert(replaced(source, seq!['$'], seq![SENTINEL]) == source) by {
        lemma_lacks_joined(before, seq!['%'], '$');
        lemma_lacks_joined(before + seq!['%'], after, '$');
        lemma_replaced_lacking(source, seq!['$'], seq![SENTINEL]);
    }
    assert(replaced(source, seq!['%'], seq!['$']) == text) by {
        assert(source =~= before + (seq!['%'] + after));
        lemma_replaced_past(before, seq!['%'] + after, seq!['%'], seq!['$']);
        lemma_replaced_pattern(seq!['%'], after, seq!['$']);
        lemma_replaced_lacking(after, seq!['%'], seq!['$']);
        assert(before + (seq!['$'] + after) =~= text);
    }
    assert(!occurs(text, seq!['$', '$'])) by {
        lemma_marker_elsewhere(before, '$', after);
    }
    lemma_replaced_without_occurrence(text, seq!['$', '$'], seq!['%']);
    assert(promoted(source) == text);
    lemma_marker_elsewhere(before, '[', after);
    lemma_marker_elsewhere(before, '=', after);
    lemma_resolved_stays(text, names, 0, names.len());
    lemma_replaced_without_occurrence(text, seq!['$', '='], unique_id());
    lemma_lacks_joined(before, seq!['$'], SENTINEL);
    lemma_lacks_joined(before + seq!['$'], after, SENTINEL);
    lemma_replaced_lacking(text, seq![SENTINEL], seq!['$', '$']);
}

/// Escape of the percent sign: amid plain text, `%%` of the source is
/// rewritten to exactly one `%`, whatever the names.
pub proof fn lemma_escaped_percent(
    before: Seq<char>,
    after: Seq<char>,
    names: Seq<Option<Seq<char>>>,
)
    requires
        plain(before),
        plain(after),
    ensures
        rewritten(before + seq!['%', '%'] + after, names) == Ok::<Seq<char>, SyntaxError>(
            before + seq!['%'] + after,
        ),
{
    let escape = seq!['%', '%'];
    let source = before + escape + after;
    let marked = before + seq!['$', '$'] + after;
    let text = before + seq!['%'] + after;
    assert(replaced(source, seq!['$'], seq![SENTINEL]) == source) by {
        lemma_lacks_joined(before, escape, '$');
        lemma_lacks_joined(before + escape, after, '$');
        lemma_replaced_lacking(source, seq!['$'], seq![SENTINEL]);
    }
    assert(replaced(source, seq!['%'], seq!['$']) == marked) by {
        let percent = seq!['%'];
        assert(source =~= before + (percent + (percent + after)));
        lemma_replaced_past(before, percent + (percent + after), percent, seq!['$']);
        lemma_replaced_pattern(percent, percent + after, seq!['$']);
        lemma_replaced_pattern(percent, after, seq!['$']);
        lemma_replaced_lacking(after, percent, seq!['$']);
        assert(before + (seq!['$'] + (seq!['$'] + after)) =~= marked);
    }
    assert(replaced(marked, seq!['$', '$'], seq!['%']) == text) by {
        let pair = seq!['$', '$'];
        assert(marked =~= before + (pair + after));
        lemma_replaced_past(before, pair + after, pair, seq!['%']);
        lemma_replaced_pattern(pair, after, seq!['%']);
        lemma_replaced_lacking(after, pair, seq!['%']);
        assert(before + (seq!['%'] + after) =~= text);
    }
    assert(promoted(source) == text);
    lemma_lacks_joined(before, seq!['%'], '$');
    lemma_lacks_joined(before + seq!['%'], after, '$');
    lemma_lacks_joined(before, seq!['%'], SENTINEL);
    lemma_lacks_joined(before + seq!['%'], after, SENTINEL);
    lemma_settled(source, names);
}

/// Escape of the dollar sign: amid plain text, a `$` of the source is
/// rewritten to `$$`, whatever the names.
pub proof fn lemma_escaped_dollar(
    before: Seq<char>,
    after: Seq<char>,
    names: Seq<Option<Seq<char>>>,
)
    requires
        plain(before),
        plain(after),
    ensures
        rewritten(before + seq!['$'] + after, names) == Ok::<Seq<char>, SyntaxError>(
            before + seq!['$', '$'] + after,
        ),
{
    let dollar = seq!['$'];
    let kept = seq![SENTINEL];
    let source = before + dollar + after;
    let text = before + kept + after;
    assert(replaced(source, dollar, kept) == text) by {
        assert(source =~= before + (dollar + after));
        lemma_replaced_past(before, dollar + after, dollar, kept);
        lemma_replaced_pattern(dollar, after, kept);
        lemma_replaced_lacking(after, dollar, kept);
        assert(before + (kept + after) =~= text);
    }
    lemma_lacks_joined(before, kept, '%');
    lemma_lacks_joined(before + kept, after, '%');
    lemma_lacks_joined(before, kept, '$');
    lemma_lacks_joined(before + kept, after, '$');
    lemma_replaced_lacking(text, seq!['%'], dollar);
    lemma_replaced_lacking(text, seq!['$', '$'], seq!['%']);
    assert(promoted(source) == text);
    lemma_first_character_absent(text, seq!['$', '[']);
    lemma_resolved_stays(text, names, 0, names.len());
    lemma_replaced_lacking(text, seq!['$', '='], unique_id());
    assert(replaced(text, kept, seq!['$', '$']) == before + seq!['$', '$'] + after) by {
        assert(text =~= before + (kept + after));
        lemma_replaced_past(before, kept + after, kept, seq!['$', '$']);
        lemma_replaced_pattern(kept, after, seq!['$', '$']);
        lemma_replaced_lacking(after, kept, seq!['$', '$']);
        assert(before + (seq!['$', '$'] + after) =~= before + seq!['$', '$'] + after);
    }
}

/// Unique-id rewrite: amid plain text, the marker `%=` of the source is
/// rewritten to the placeholder `${:uid}` of the target, whatever the
/// names.
pub proof fn lemma_unique_id(before: Seq<char>, after: Seq<char>, names: Seq<Option<Seq<char>>>)
    requires
        plain(before),
        plain(after),
    ensures
        rewritten(before + seq!['%', '='] + after, names) == Ok::<Seq<char>, SyntaxError>(
            before + unique_id() + after,
        ),
{
    let source = before + seq!['%', '='] + after;
    let marker = seq!['$', '='];
    let text = before + marker + after;
    let tail = seq!['='] + after;
    lemma_lacks_joined(seq!['='], after, '%');
    lemma_lacks_joined(seq!['='], after, '$');
    assert(replaced(source, seq!['$'], seq![SENTINEL]) == source) by {
        lemma_lacks_joined(before, seq!['%', '='], '$');
        lemma_lacks_joined(before + seq!['%', '='], after, '$');
        lemma_replaced_lacking(source, seq!['$'], seq![SENTINEL]);
    }
    assert(replaced(source, seq!['%'], seq!['$']) == text) by {
        assert(source =~= before + (seq!['%'] + tail));
        lemma_replaced_past(before, seq!['%'] + tail, seq!['%'], seq!['$']);
        lemma_replaced_pattern(seq!['%'], tail, seq!['$']);
        lemma_replaced_lacking(tail, seq!['%'], seq!['$']);
        assert(before + (seq!['$'] + tail) =~= text);
    }
    assert(replaced(text, seq!['$', '$'], seq!['%']) == text) by {
        let pair = seq!['$', '$'];
        let rest = marker + after;
        assert(text =~= before + rest);
        lemma_replaced_past(before, rest, pair, seq!['%']);
        assert(!occurs_at(rest, pair, 0)) by {
            if occurs_at(rest, pair, 0) {
                assert(rest.subrange(0, 2)[1] == rest[1]);
            }
        }
        lemma_replaced_after_start(rest, pair, seq!['%']);
        assert(rest.skip(1) =~= tail);
        lemma_replaced_lacking(tail, pair, seq!['%']);
        assert(before + (seq![rest[0]] + tail) =~= text);
    }
    assert(promoted(source) == text);
    assert(!occurs(text, seq!['$', '['])) by {
        assert(text =~= before + seq!['$'] + tail);
        lemma_marker_elsewhere(before, '[', tail);
    }
    lemma_resolved_stays(text, names, 0, names.len());
    let numbered = before + unique_id() + after;
    assert(replaced(text, marker, unique_id()) == numbered) by {
        assert(text =~= before + (marker + after));
        lemma_replaced_past(before, marker + after, marker, unique_id());
        lemma_replaced_pattern(marker, after, unique_id());
        lemma_replaced_lacking(after, marker, unique_id());
        assert(before + (unique_id() + after) =~= numbered);
    }
    lemma_lacks_joined(before, unique_id(), SENTINEL);
    lemma_lacks_joined(before + unique_id(), after, SENTINEL);
    lemma_replaced_lacking(numbered, seq![SENTINEL], seq!['$', '$']);
}

/// Amid plain text, the reference to a plain name holds the reference to
/// no other plain name.
proof fn lemma_other_reference_absent(
    before: Seq<char>,
    name: Seq<char>,
    after: Seq<char>,
    other: Seq<char>,
)
    requires
        plain(before),
        plain(after),
        plain_name(name),
        plain_name(other),
        other != name,
    ensures
        !occurs(before + reference(name) + after, reference(other)),
{
    let text = before + reference(name) + after;
    let pattern = reference(other);
    let start = before.len() as int;
    assert forall|at: int| !occurs_at(text, pattern, at) by {
        if occurs_at(text, pattern, at) {
            let found = text.subrange(at, at + pattern.len());
            assert(found[0] == text[at]);
            if at < start {
                assert(text[at] == before[at]);
            } else if at >= start + reference(name).len() {
                assert(text[at] == after[at - start - reference(name).len()]);
            } else if at > start {
                let i = at - start;
                assert(text[at] == reference(name)[i]);
                if 2 <= i < 2 + name.len() {
                    assert(reference(name)[i] == name[i - 2]);
                }
            } else {
                let shorter = if other.len() < name.len() {
                    other.len() as int
                } else {
                    name.len() as int
                };
                assert forall|i: int| 0 <= i < shorter implies other[i] == name[i] by {
                    assert(found[2 + i] == text[start + 2 + i]);
                    assert(text[start + 2 + i] == reference(name)[2 + i]);
                    assert(pattern[2 + i] == other[i]);
                    assert(reference(name)[2 + i] == name[i]);
                }
                let end = 2 + shorter;
                assert(found[end] == text[start + end]);
                assert(text[start + end] == reference(name)[end]);
                if other.len() < name.len() {
                    assert(pattern[end] == ']');
                    assert(reference(name)[end] == name[end - 2]);
                } else if other.len() > name.len() {
                    assert(reference(name)[end] == ']');
                    assert(pattern[end] == other[end - 2]);
                } else {
                    assert(other =~= name);
                }
            }
        }
    }
}

/// Amid plain text, the reference to a plain name stays as it is while the
/// plain names before the first entry that bears the name are resolved.
proof fn lemma_resolved_before(
    before: Seq<char>,
    name: Seq<char>,
    after: Seq<char>,
    names: Seq<Option<Seq<char>>>,
    count: nat,
)
    requires
        plain(before),
        plain(after),
        plain_name(name),
        count <= names.len(),
        forall|j: int| 0 <= j < count ==> apart(#[trigger] names[j], name),
    ensures
        resolved(before + reference(name) + after, names, count) == before + reference(name)
            + after,
    decreases count,
{
    if count > 0 {
        lemma_resolved_before(before, name, after, names, (count - 1) as nat);
        if let Some(other) = names[count - 1] {
            lemma_other_reference_absent(before, name, after, other);
            lemma_replaced_without_occurrence(
                before + reference(name) + after,
                reference(other),
                placeholder((count - 1) as nat),
            );
        }
    }
}

/// Symbolic rewrite, step by step: amid plain text, the reference
/// `%[name]` of the source stands as `$[name]` once the markers are
/// promoted.
proof fn lemma_reference_promoted(before: Seq<char>, name: Seq<char>, after: Seq<char>)
    requires
        plain(before),
        plain(after),
        plain_name(name),
    ensures
        promoted(before + (seq!['%', '['] + name + seq![']']) + after) == before + reference(
            name,
        ) + after,
{
    let body = seq!['['] + name + seq![']'];
    let source = before + (seq!['%', '['] + name + seq![']']) + after;
    let target = reference(name);
    let text = before + target + after;
    let tail = body + after;
    assert(lacks(body, '$') && lacks(body, '%') && lacks(body, SENTINEL)) by {
        assert forall|i: int| 1 <= i < body.len() - 1 implies body[i] == name[i - 1] by {}
    }
    lemma_lacks_joined(body, after, '$');
    lemma_lacks_joined(body, after, '%');
    assert(replaced(source, seq!['$'], seq![SENTINEL]) == source) by {
        assert(source =~= before + (seq!['%'] + tail));
        lemma_lacks_joined(seq!['%'], tail, '$');
        lemma_lacks_joined(before, seq!['%'] + tail, '$');
        lemma_replaced_lacking(source, seq!['$'], seq![SENTINEL]);
    }
    assert(replaced(source, seq!['%'], seq!['$']) == text) by {
        assert(source =~= before + (seq!['%'] + tail));
        lemma_replaced_past(before, seq!['%'] + tail, seq!['%'], seq!['$']);
        lemma_replaced_pattern(seq!['%'], tail, seq!['$']);
        lemma_replaced_lacking(tail, seq!['%'], seq!['$']);
        assert(before + (seq!['$'] + tail) =~= text);
    }
    assert(replaced(text, seq!['$', '$'], seq!['%']) == text) by {
        let pair = seq!['$', '$'];
        let rest = target + after;
        assert(text =~= before + rest);
        lemma_replaced_past(before, rest, pair, seq!['%']);
        assert(!occurs_at(rest, pair, 0)) by {
            if occurs_at(rest, pair, 0) {
                assert(rest.subrange(0, 2)[1] == rest[1]);
            }
        }
        lemma_replaced_after_start(rest, pair, seq!['%']);
        assert(rest.skip(1) =~= tail);
        lemma_replaced_lacking(tail, pair, seq!['%']);
        assert(before + (seq![rest[0]] + tail) =~= text);
    }
}

/// Undeclared name: amid plain text, the reference `%[name]` to a plain
/// name that the table does not bear, among plain names, is refused.
pub proof fn lemma_reference_undeclared(
    before: Seq<char>,
    name: Seq<char>,
    after: Seq<char>,
    names: Seq<Option<Seq<char>>>,
)
    requires
        plain(before),
        plain(after),
        plain_name(name),
        forall|j: int| 0 <= j < names.len() ==> apart(#[trigger] names[j], name),
    ensures
        rewritten(before + (seq!['%', '['] + name + seq![']']) + after, names) == Err::<
            Seq<char>,
            SyntaxError,
        >(error_at(ErrorKind::BadSymbolicReference, 0)),
{
    let text = before + reference(name) + after;
    lemma_reference_promoted(before, name, after);
    lemma_resolved_before(before, name, after, names, names.len());
    let at = before.len() as int;
    assert(text.subrange(at, at + 2) =~= seq!['$', '[']);
    assert(occurs_at(text, seq!['$', '['], at));
}

/// Symbolic rewrite: amid plain text, the reference `%[name]` of the
/// source is rewritten to the placeholder of the first index at which the
/// table bears the name, `$` and the index in decimal. The name and the
/// names before it in the table are plain, as identifiers are, and none of
/// those before it is the name.
pub proof fn lemma_reference_resolved(
    before: Seq<char>,
    name: Seq<char>,
    after: Seq<char>,
    names: Seq<Option<Seq<char>>>,
    index: int,
)
    requires
        plain(before),
        plain(after),
        plain_name(name),
        0 <= index < names.len(),
        names[index] == Some(name),
        forall|j: int| 0 <= j < index ==> apart(#[trigger] names[j], name),
    ensures
        rewritten(before + (seq!['%', '['] + name + seq![']']) + after, names) == Ok::<
            Seq<char>,
            SyntaxError,
        >(before + placeholder(index as nat) + after),
{
    let source = before + (seq!['%', '['] + name + seq![']']) + after;
    let target = reference(name);
    let text = before + target + after;
    let number = placeholder(index as nat);
    let numbered = before + number + after;
    lemma_reference_promoted(before, name, after);
    lemma_resolved_before(before, name, after, names, index as nat);
    assert(resolved(text, names, (index + 1) as nat) == numbered) by {
        assert(text =~= before + (target + after));
        lemma_replaced_past(before, target + after, target, number);
        lemma_replaced_pattern(target, after, number);
        lemma_replaced_lacking(after, target, number);
        assert(before + (number + after) =~= numbered);
    }
    let digits = decimal(index as nat) + after;
    lemma_decimal_digits(index as nat);
    assert(lacks(digits, '$') && lacks(digits, SENTINEL) && digits[0] != '[' && digits[0] != '=')
        by {
        assert forall|i: int| 0 <= i < decimal(index as nat).len() implies digits[i] == decimal(
            index as nat,
        )[i] by {}
        assert(digits[0] == decimal(index as nat)[0]);
    }
    assert(numbered =~= before + seq!['$'] + digits);
    lemma_marker_elsewhere(before, '[', digits);
    lemma_marker_elsewhere(before, '=', digits);
    lemma_resolved_stays(text, names, (index + 1) as nat, names.len());
    assert(indexed(source, names) == numbered);
    lemma_replaced_without_occurrence(numbered, seq!['$', '='], unique_id());
    lemma_lacks_joined(before, seq!['$'], SENTINEL);
    lemma_lacks_joined(before + seq!['$'], digits, SENTINEL);
    lemma_replaced_lacking(numbered, seq![SENTINEL], seq!['$', '$']);
}

} // verus!
