//! Splitting a run of tokens on the separators at its top level.

use crate::token::{Token, TokenView};
use vstd::prelude::*;

verus! {

/// The tokens on which a run is split.
#[derive(Clone, Copy, Debug, PartialEq, Eq, Structural)]
pub enum Separator {
    /// `:`, between the sections of a description.
    Colon,
    /// `,`, between the operands of a section.
    Comma,
}

/// `token` is the separator `separator`. A separator inside a group is part
/// of the group's token and never the token itself.
pub open spec fn is_separator(token: TokenView, separator: Separator) -> bool {
    match separator {
        Separator::Colon => token is Colon,
        Separator::Comma => token is Comma,
    }
}

/// How many tokens stand before the first separator; the length of the run
/// where it holds none.
pub open spec fn run_length(tokens: Seq<TokenView>, separator: Separator) -> nat
    decreases tokens.len(),
{
    if tokens.len() == 0 || is_separator(tokens[0], separator) {
        0
    } else {
        1 + run_length(tokens.skip(1), separator)
    }
}

/// The pieces between the separators of `tokens`: one more piece than
/// there are separators, so that an empty run is one empty piece.
pub open spec fn pieces(tokens: Seq<TokenView>, separator: Separator) -> Seq<Seq<TokenView>>
    decreases tokens.len(),
{
    let first = run_length(tokens, separator) as int;
    if first >= tokens.len() {
        seq![tokens]
    } else {
        seq![tokens.take(first)] + pieces(tokens.skip(first + 1), separator)
    }
}

/// What splitting yields: nothing for an empty run, else its pieces.
pub open spec fn split(tokens: Seq<TokenView>, separator: Separator) -> Seq<Seq<TokenView>> {
    if tokens.len() == 0 {
        Seq::empty()
    } else {
        pieces(tokens, separator)
    }
}

/// The index, in the run that was split, at which piece `k` starts: each
/// earlier piece takes its own length and one separator.
pub open spec fn piece_offset(parts: Seq<Seq<TokenView>>, k: int) -> int
    decreases k,
{
    if k <= 0 {
        0
    } else {
        piece_offset(parts, k - 1) + parts[k - 1].len() + 1
    }
}

/// A run whose first `n` tokens are no separators, and which ends there or
/// has a separator there, has run length `n`.
pub proof fn lemma_run_length(tokens: Seq<TokenView>, separator: Separator, n: int)
    requires
        0 <= n <= tokens.len(),
        forall|i: int| 0 <= i < n ==> !is_separator(tokens[i], separator),
        n == tokens.len() || is_separator(tokens[n], separator),
    ensures
        run_length(tokens, separator) == n,
    decreases n,
{
    if n > 0 {
        let rest = tokens.skip(1);
        assert forall|i: int| 0 <= i < n - 1 implies !is_separator(rest[i], separator) by {
            assert(rest[i] == tokens[i + 1]);
        }
        lemma_run_length(rest, separator, n - 1);
    }
}

/// The run length stays within the run, no token before it is a separator,
/// and the token at it, if there is one, is a separator.
pub proof fn lemma_run_length_bounds(tokens: Seq<TokenView>, separator: Separator)
    ensures
        run_length(tokens, separator) <= tokens.len(),
        forall|i: int|
            0 <= i < run_length(tokens, separator) ==> !is_separator(tokens[i], separator),
        run_length(tokens, separator) < tokens.len() ==> is_separator(
            tokens[run_length(tokens, separator) as int],
            separator,
        ),
    decreases tokens.len(),
{
    if tokens.len() == 0 || is_separator(tokens[0], separator) {
    } else {
        let rest = tokens.skip(1);
        lemma_run_length_bounds(rest, separator);
        assert forall|i: int| 0 <= i < run_length(tokens, separator) implies !is_separator(
            tokens[i],
            separator,
        ) by {
            if i > 0 {
                assert(tokens[i] == rest[i - 1]);
            }
        }
        if run_length(tokens, separator) < tokens.len() {
            assert(tokens[run_length(tokens, separator) as int] == rest[run_length(
                rest,
                separator,
            ) as int]);
        }
    }
}

/// Splitting loses nothing and finds every separator: piece `k` is the
/// stretch of the run that starts at its offset, it holds no separator, a
/// separator follows every piece but the last, and the last piece ends
/// where the run ends.
pub proof fn lemma_pieces(tokens: Seq<TokenView>, separator: Separator, k: int)
    requires
        0 <= k < pieces(tokens, separator).len(),
    ensures
        0 <= piece_offset(pieces(tokens, separator), k),
        piece_offset(pieces(tokens, separator), k) + pieces(tokens, separator)[k].len()
            <= tokens.len(),
        pieces(tokens, separator)[k] == tokens.subrange(
            piece_offset(pieces(tokens, separator), k),
            piece_offset(pieces(tokens, separator), k) + pieces(tokens, separator)[k].len(),
        ),
        forall|i: int|
            0 <= i < pieces(tokens, separator)[k].len() ==> !is_separator(
                #[trigger] pieces(tokens, separator)[k][i],
                separator,
            ),
        k + 1 < pieces(tokens, separator).len() ==> piece_offset(pieces(tokens, separator), k)
            + pieces(tokens, separator)[k].len() < tokens.len() && is_separator(
            tokens[piece_offset(pieces(tokens, separator), k) + pieces(tokens, separator)[k].len()],
            separator,
        ),
        k + 1 == pieces(tokens, separator).len() ==> piece_offset(pieces(tokens, separator), k)
            + pieces(tokens, separator)[k].len() == tokens.len(),
    decreases tokens.len(),
{
    let parts = pieces(tokens, separator);
    let first = run_length(tokens, separator) as int;
    lemma_run_length_bounds(tokens, separator);
    if first >= tokens.len() {
        assert(parts[0] =~= tokens.subrange(0, tokens.len() as int));
    } else {
        let rest = tokens.skip(first + 1);
        let later = pieces(rest, separator);
        assert(parts =~= seq![tokens.take(first)] + later);
        if k == 0 {
            assert(parts[0] =~= tokens.subrange(0, first));
        } else {
            lemma_pieces(rest, separator, k - 1);
            lemma_offset_after_first(tokens.take(first), later, k - 1);
            assert(parts[k] == later[k - 1]);
            let at = piece_offset(later, k - 1);
            assert(rest.subrange(at, at + later[k - 1].len()) =~= tokens.subrange(
                first + 1 + at,
                first + 1 + at + later[k - 1].len(),
            ));
            if k + 1 < parts.len() {
                assert(rest[at + later[k - 1].len()] == tokens[first + 1 + at + later[k
                    - 1].len()]);
            }
        }
    }
}

/// With one more piece in front, every offset grows by that piece's length
/// and its separator.
proof fn lemma_offset_after_first(head: Seq<TokenView>, later: Seq<Seq<TokenView>>, k: int)
    requires
        0 <= k < later.len(),
    ensures
        piece_offset(seq![head] + later, k + 1) == head.len() + 1 + piece_offset(later, k),
    decreases k,
{
    let parts = seq![head] + later;
    if k > 0 {
        lemma_offset_after_first(head, later, k - 1);
        assert(parts[k] == later[k - 1]);
    } else {
        assert(parts[0] == head);
        assert(piece_offset(parts, 0) == 0);
    }
}

/// Whether `token` is the separator `separator`.
fn separates(token: &Token, separator: Separator) -> (yes: bool)
    ensures
        yes == is_separator(token.deep_view(), separator),
{
    match separator {
        Separator::Colon => match token {
            Token::Colon => true,
            _ => false,
        },
        Separator::Comma => match token {
            Token::Comma => true,
            _ => false,
        },
    }
}

/// Splits `token_trees` on the tokens that are `separator`. An empty run
/// has no pieces; any other has one piece more than it has separators, and
/// a piece may be empty.
pub fn split_on_token<'a>(token_trees: &'a [Token], separator: Separator) -> (parts: Vec<
    &'a [Token],
>)
    ensures
        parts.deep_view() == split(token_trees.deep_view(), separator),
{
    let ghost view = token_trees.deep_view();
    let mut parts: Vec<&'a [Token]> = Vec::new();
    if token_trees.len() == 0 {
        assert(parts.deep_view() =~= split(view, separator));
        return parts;
    }
    let mut start: usize = 0;
    let mut i: usize = 0;
    proof {
        assert(view.skip(0) =~= view);
        assert(parts.deep_view() + pieces(view, separator) =~= pieces(view, separator));
    }
    while i < token_trees.len()
        invariant
            start <= i <= token_trees.len(),
            view == token_trees.deep_view(),
            forall|j: int| start <= j < i ==> !is_separator(view[j], separator),
            parts.deep_view() + pieces(view.skip(start as int), separator) == pieces(
                view,
                separator,
            ),
        decreases token_trees.len() - i,
    {
        if separates(&token_trees[i], separator) {
            let piece = &token_trees[start..i];
            let ghost before = parts.deep_view();
            parts.push(piece);
            proof {
                let rest = view.skip(start as int);
                lemma_run_length(rest, separator, i - start);
                assert(rest.skip(i - start + 1) =~= view.skip(i + 1));
                assert(piece.deep_view() =~= rest.take(i - start));
                assert(parts.deep_view() =~= before.push(piece.deep_view()));
                assert(before.push(piece.deep_view()) + pieces(view.skip(i + 1), separator)
                    =~= before + (seq![rest.take(i - start)] + pieces(
                    view.skip(i + 1),
                    separator,
                )));
            }
            start = i + 1;
        }
        i = i + 1;
    }
    let piece = &token_trees[start..i];
    let ghost before = parts.deep_view();
    parts.push(piece);
    proof {
        let rest = view.skip(start as int);
        lemma_run_length(rest, separator, i - start);
        assert(piece.deep_view() =~= rest);
        assert(parts.deep_view() =~= before + seq![rest]);
    }
    parts
}

/// The index in `token_trees` at which piece `k` of its split starts.
pub(crate) fn start_of(
    token_trees: &[Token],
    separator: Separator,
    parts: &Vec<&[Token]>,
    k: usize,
) -> (start: usize)
    requires
        parts.deep_view() == split(token_trees.deep_view(), separator),
        k < parts.len(),
    ensures
        start == piece_offset(parts.deep_view(), k as int),
        start + parts[k as int].len() <= token_trees.len(),
{
    let ghost view = token_trees.deep_view();
    let ghost views = parts.deep_view();
    let mut start: usize = 0;
    let mut j: usize = 0;
    assert(views.len() == parts.len());
    assert(view.len() == token_trees.len());
    while j < k
        invariant
            j <= k < parts.len(),
            views == parts.deep_view(),
            views == pieces(view, separator),
            view.len() == token_trees.len(),
            start == piece_offset(views, j as int),
        decreases k - j,
    {
        proof {
            lemma_pieces(view, separator, j as int);
            assert(views[j as int] == parts@[j as int].deep_view());
            assert(parts@[j as int].deep_view().len() == parts@[j as int].len());
        }
        start = start + parts[j].len() + 1;
        j = j + 1;
    }
    proof {
        lemma_pieces(view, separator, k as int);
        assert(views[k as int] == parts@[k as int].deep_view());
        assert(parts@[k as int].deep_view().len() == parts@[k as int].len());
    }
    start
}

} // verus!
