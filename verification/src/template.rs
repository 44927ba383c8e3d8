//! The template: its assembly from string literals, and the rewriting of
//! its placeholders from the source dialect into the target dialect.

use crate::error::{error_at, ErrorKind, SyntaxError};
use crate::text::{
    append_chars, chars_of, contains, decimal, occurs, replace_all, replaced, string_of,
    to_decimal,
};
use crate::token::{get_string_literal, Token, TokenView};
use vstd::prelude::*;

verus! {

/// Stands for a literal `$` of the source while `$` is taken over as the
/// placeholder marker.
pub const SENTINEL: char = '\u{80}';

/// The text of a literal token; no text for any other token.
pub open spec fn literal_text(token: TokenView) -> Seq<char> {
    match token {
        TokenView::Literal(text) => text,
        _ => Seq::empty(),
    }
}

/// How many string literals stand at the start of `tokens`.
pub open spec fn leading_literals(tokens: Seq<TokenView>) -> nat
    decreases tokens.len(),
{
    if tokens.len() > 0 && tokens[0] is Literal {
        1 + leading_literals(tokens.skip(1))
    } else {
        0
    }
}

/// The texts of the literals among `tokens`, joined in order.
pub open spec fn concatenated(tokens: Seq<TokenView>) -> Seq<char>
    decreases tokens.len(),
{
    if tokens.len() == 0 {
        Seq::empty()
    } else {
        concatenated(tokens.drop_last()) + literal_text(tokens.last())
    }
}

/// The template that a template section denotes: its literals joined, or
/// `NonLiteralTemplate` at the first token that is no string literal.
pub open spec fn assembled(section: Seq<TokenView>) -> Result<Seq<char>, SyntaxError> {
    if leading_literals(section) < section.len() {
        Err(error_at(ErrorKind::NonLiteralTemplate, leading_literals(section) as int))
    } else {
        Ok(concatenated(section))
    }
}

/// The leading literals end at the first token that is no literal.
pub proof fn lemma_leading_literals(tokens: Seq<TokenView>)
    ensures
        leading_literals(tokens) <= tokens.len(),
        forall|i: int| 0 <= i < leading_literals(tokens) ==> tokens[i] is Literal,
        leading_literals(tokens) < tokens.len() ==> !(tokens[leading_literals(tokens) as int]
            is Literal),
    decreases tokens.len(),
{
    if tokens.len() > 0 && tokens[0] is Literal {
        let rest = tokens.skip(1);
        lemma_leading_literals(rest);
        assert forall|i: int| 0 <= i < leading_literals(tokens) implies tokens[i] is Literal by {
            if i > 0 {
                assert(tokens[i] == rest[i - 1]);
            }
        }
        if leading_literals(tokens) < tokens.len() {
            assert(tokens[leading_literals(tokens) as int] == rest[leading_literals(rest) as int]);
        }
    }
}

/// A run of tokens that are all literals up to index `n` has at least `n`
/// leading literals; exactly `n` where the token at `n` is no literal.
proof fn lemma_literals_counted(tokens: Seq<TokenView>, n: int)
    requires
        0 <= n <= tokens.len(),
        forall|i: int| 0 <= i < n ==> tokens[i] is Literal,
    ensures
        leading_literals(tokens) >= n,
        n < tokens.len() && !(tokens[n] is Literal) ==> leading_literals(tokens) == n,
    decreases n,
{
    if n > 0 {
        let rest = tokens.skip(1);
        assert forall|i: int| 0 <= i < n - 1 implies rest[i] is Literal by {
            assert(rest[i] == tokens[i + 1]);
        }
        lemma_literals_counted(rest, n - 1);
    }
}

/// Joins the string literals of the template section into one string.
/// Several literals side by side are read as one, as in C.
pub fn assemble_template(section: &[Token]) -> (template: Result<String, SyntaxError>)
    ensures
        match assembled(section.deep_view()) {
            Ok(text) => template matches Ok(s) && s@ == text,
            Err(e) => template matches Err(f) && f == e,
        },
{
    let ghost view = section.deep_view();
    let mut text: Vec<char> = Vec::new();
    let mut i: usize = 0;
    while i < section.len()
        invariant
            i <= section.len(),
            view == section.deep_view(),
            forall|j: int| 0 <= j < i ==> view[j] is Literal,
            text@ == concatenated(view.take(i as int)),
        decreases section.len() - i,
    {
        assert(view[i as int] == section@[i as int].deep_view());
        match get_string_literal(&section[i]) {
            Some(piece) => {
                let more = chars_of(piece.as_str());
                proof {
                    assert(view.take(i + 1).drop_last() =~= view.take(i as int));
                    assert(view.take(i + 1).last() == view[i as int]);
                }
                append_chars(&mut text, &more);
            },
            None => {
                proof {
                    lemma_literals_counted(view, i as int);
                }
                return Err(SyntaxError { kind: ErrorKind::NonLiteralTemplate, position: i });
            },
        }
        i = i + 1;
    }
    proof {
        lemma_literals_counted(view, i as int);
        assert(view.take(i as int) =~= view);
    }
    Ok(string_of(&text))
}

/// The source's reference to the operand named `name`, once `%` has become
/// `$`: `$[name]`.
pub open spec fn reference(name: Seq<char>) -> Seq<char> {
    seq!['$', '['] + name + seq![']']
}

/// The target's placeholder for the operand at `index`: `$` and the index
/// in decimal.
pub open spec fn placeholder(index: nat) -> Seq<char> {
    seq!['$'] + decimal(index)
}

/// The target's placeholder for the number of the expansion: `${:uid}`.
pub open spec fn unique_id() -> Seq<char> {
    seq!['$', '{', ':', 'u', 'i', 'd', '}']
}

/// The template after its markers were promoted: every `$` put aside as the
/// sentinel, then every `%` turned into `$`, then every `$$` (a `%%` of the
/// source) turned into one `%`.
pub open spec fn promoted(template: Seq<char>) -> Seq<char> {
    replaced(
        replaced(replaced(template, seq!['$'], seq![SENTINEL]), seq!['%'], seq!['$']),
        seq!['$', '$'],
        seq!['%'],
    )
}

/// `text` after the references to the first `count` names of the table
/// were replaced, name by name in the order of the table, by the
/// placeholders of their indices.
pub open spec fn resolved(text: Seq<char>, names: Seq<Option<Seq<char>>>, count: nat) -> Seq<
    char,
>
    decreases count,
{
    if count == 0 {
        text
    } else {
        let before = resolved(text, names, (count - 1) as nat);
        match names[count - 1] {
            Some(name) => replaced(before, reference(name), placeholder((count - 1) as nat)),
            None => before,
        }
    }
}

/// The template with all references to names of the table resolved: the
/// text in which a reference to an undeclared name would still show.
pub open spec fn indexed(template: Seq<char>, names: Seq<Option<Seq<char>>>) -> Seq<char> {
    resolved(promoted(template), names, names.len())
}

/// The template in the target dialect, or `BadSymbolicReference` where
/// a `$[` is left once every declared name was resolved. After the names,
/// `$=` becomes the unique-id placeholder and each sentinel becomes `$$`.
pub open spec fn rewritten(template: Seq<char>, names: Seq<Option<Seq<char>>>) -> Result<
    Seq<char>,
    SyntaxError,
> {
    if occurs(indexed(template, names), seq!['$', '[']) {
        Err(error_at(ErrorKind::BadSymbolicReference, 0))
    } else {
        Ok(
            replaced(
                replaced(indexed(template, names), seq!['$', '='], unique_id()),
                seq![SENTINEL],
                seq!['$', '$'],
            ),
        )
    }
}

/// Rewrites the placeholders of `template` for the target dialect.
/// `symbolic_names` holds, for each operand of the combined list of outputs
/// and inputs, the name it was declared with, if any; a reference to a name
/// becomes the placeholder of the first operand that bears it.
pub fn replace_template(template: String, symbolic_names: &[Option<String>]) -> (new_template:
    Result<String, SyntaxError>)
    ensures
        match rewritten(template@, symbolic_names.deep_view()) {
            Ok(text) => new_template matches Ok(s) && s@ == text,
            Err(e) => new_template matches Err(f) && f == e,
        },
{
    let ghost names = symbolic_names.deep_view();
    let source = chars_of(template.as_str());
    let dollar: Vec<char> = vec!['$'];
    let percent: Vec<char> = vec!['%'];
    let sentinel: Vec<char> = vec![SENTINEL];
    let two_dollars: Vec<char> = vec!['$', '$'];
    let protected = replace_all(&source, &dollar, &sentinel);
    let marked = replace_all(&protected, &percent, &dollar);
    let mut text = replace_all(&marked, &two_dollars, &percent);
    assert(text@ == promoted(template@)) by {
        assert(dollar@ =~= seq!['$']);
        assert(percent@ =~= seq!['%']);
        assert(sentinel@ =~= seq![SENTINEL]);
        assert(two_dollars@ =~= seq!['$', '$']);
    }
    let mut i: usize = 0;
    while i < symbolic_names.len()
        invariant
            i <= symbolic_names.len(),
            names == symbolic_names.deep_view(),
            text@ == resolved(promoted(template@), names, i as nat),
        decreases symbolic_names.len() - i,
    {
        match &symbolic_names[i] {
            Some(name) => {
                let mut pattern: Vec<char> = vec!['$', '['];
                let name_chars = chars_of(name.as_str());
                append_chars(&mut pattern, &name_chars);
                pattern.push(']');
                let mut value: Vec<char> = vec!['$'];
                let number = to_decimal(i);
                append_chars(&mut value, &number);
                proof {
                    assert(names[i as int] == Some(name@));
                    assert(pattern@ =~= reference(name@));
                    assert(value@ =~= placeholder(i as nat));
                }
                text = replace_all(&text, &pattern, &value);
            },
            None => {
                assert(names[i as int] is None);
            },
        }
        i = i + 1;
    }
    let open_reference: Vec<char> = vec!['$', '['];
    assert(open_reference@ =~= seq!['$', '[']);
    if contains(&text, &open_reference) {
        return Err(SyntaxError { kind: ErrorKind::BadSymbolicReference, position: 0 });
    }
    let marker: Vec<char> = vec!['$', '='];
    let uid: Vec<char> = vec!['$', '{', ':', 'u', 'i', 'd', '}'];
    assert(marker@ =~= seq!['$', '=']);
    assert(uid@ =~= unique_id());
    let numbered = replace_all(&text, &marker, &uid);
    let restored = replace_all(&numbered, &sentinel, &two_dollars);
    assert(sentinel@ =~= seq![SENTINEL]);
    assert(two_dollars@ =~= seq!['$', '$']);
    Ok(string_of(&restored))
}

} // verus!
