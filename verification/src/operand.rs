//! Operands: how an item of an operand list is read, and how an operand
//! that is both read and written is expanded into an output and an input.

use crate::error::{error_at, ErrorKind, SyntaxError};
use crate::split::{lemma_pieces, piece_offset, split, split_on_token, Separator};
use crate::text::{append_chars, chars_of, decimal, string_of, to_decimal};
use crate::token::{
    clone_tokens, get_string_literal, lemma_group_view, make_string_literal, Delimiter, Token,
    TokenView,
};
use vstd::prelude::*;

verus! {

/// One operand: the name it may be referred to by, its constraint, and the
/// tokens of the expression it is bound to.
#[derive(Debug, PartialEq, Eq)]
pub struct OperandSpec {
    pub symbolic_name: Option<String>,
    pub constraint: String,
    pub expression: Vec<Token>,
}

/// What an [`OperandSpec`] is, as a mathematical value.
pub struct OperandView {
    pub symbolic_name: Option<Seq<char>>,
    pub constraint: Seq<char>,
    pub expression: Seq<TokenView>,
}

impl DeepView for OperandSpec {
    type V = OperandView;

    open spec fn deep_view(&self) -> OperandView {
        OperandView {
            symbolic_name: self.symbolic_name.deep_view(),
            constraint: self.constraint@,
            expression: self.expression.deep_view(),
        }
    }
}

/// A copy of a name, if there is one.
fn clone_name(name: &Option<String>) -> (copy: Option<String>)
    ensures
        copy.deep_view() == name.deep_view(),
{
    match name {
        Some(text) => Some(text.clone()),
        None => None,
    }
}

impl Clone for OperandSpec {
    /// A copy with the same view.
    fn clone(&self) -> (copy: Self)
        ensures
            copy.deep_view() == self.deep_view(),
    {
        OperandSpec {
            symbolic_name: clone_name(&self.symbolic_name),
            constraint: self.constraint.clone(),
            expression: clone_tokens(self.expression.as_slice()),
        }
    }
}

/// The tokens that an operand is written with: its constraint as a string
/// literal, then its expression. The name is not written.
pub open spec fn tokens_of(operand: OperandView) -> Seq<TokenView> {
    seq![TokenView::Literal(operand.constraint)] + operand.expression
}

impl OperandSpec {
    /// The operand as it is written after its name: the constraint, then the
    /// expression.
    pub fn to_tokens(&self) -> (tokens: Vec<Token>)
        ensures
            tokens.deep_view() == tokens_of(self.deep_view()),
    {
        let mut tokens: Vec<Token> = Vec::new();
        tokens.push(make_string_literal(self.constraint.clone()));
        let ghost first = tokens.deep_view();
        let mut expression = clone_tokens(self.expression.as_slice());
        let ghost rest = expression.deep_view();
        tokens.append(&mut expression);
        assert(tokens.deep_view() =~= first + rest);
        assert(first =~= seq![TokenView::Literal(self.constraint@)]);
        tokens
    }
}

/// The name that an item declares. An item that starts with a bracket
/// group is named by the one identifier in the group; any other item that
/// has a token has no name.
pub open spec fn declared_name(item: Seq<TokenView>) -> Result<Option<Seq<char>>, SyntaxError> {
    if item.len() == 0 {
        Err(error_at(ErrorKind::EmptyOperand, 0))
    } else {
        match item[0] {
            TokenView::Group(Delimiter::Bracket, inner) => {
                if inner.len() == 1 && inner[0] is Ident {
                    Ok(Some(inner[0]->Ident_0))
                } else {
                    Err(error_at(ErrorKind::BadSymbolicName, 0))
                }
            },
            _ => Ok(None),
        }
    }
}

/// The item without the group that names it.
pub open spec fn without_name(item: Seq<TokenView>) -> Seq<TokenView> {
    if declared_name(item) matches Ok(Some(_)) {
        item.skip(1)
    } else {
        item
    }
}

/// The operand that an item denotes: after the name, if any, a string
/// literal is the constraint, and all that follows it is the expression.
pub open spec fn operand_of(item: Seq<TokenView>) -> Result<OperandView, SyntaxError> {
    match declared_name(item) {
        Err(e) => Err(e),
        Ok(name) => {
            let rest = without_name(item);
            let at = item.len() - rest.len();
            if rest.len() == 0 {
                Err(error_at(ErrorKind::EmptyOperand, at))
            } else {
                match rest[0] {
                    TokenView::Literal(constraint) => Ok(
                        OperandView {
                            symbolic_name: name,
                            constraint,
                            expression: rest.skip(1),
                        },
                    ),
                    _ => Err(error_at(ErrorKind::NonLiteralConstraint, at)),
                }
            }
        },
    }
}

/// An operand that is written and read again is the operand without its
/// name.
pub proof fn lemma_written_operand_reads_back(operand: OperandView)
    ensures
        operand_of(tokens_of(operand)) == Ok::<OperandView, SyntaxError>(
            OperandView {
                symbolic_name: None,
                constraint: operand.constraint,
                expression: operand.expression,
            },
        ),
{
    assert(tokens_of(operand).skip(1) =~= operand.expression);
}

/// Takes the symbolic name off the front of an item. On success the name,
/// or `None` for an item without one, is appended to `ordered_list`, and the
/// item's other tokens are returned. On failure the list is left as it was.
pub fn extract_symbolic_name(ordered_list: &mut Vec<Option<String>>, tts: &[Token]) -> (rest:
    Result<Vec<Token>, SyntaxError>)
    ensures
        match declared_name(tts.deep_view()) {
            Ok(name) => {
                &&& rest matches Ok(tokens)
                &&& tokens.deep_view() == without_name(tts.deep_view())
                &&& final(ordered_list).deep_view() == old(ordered_list).deep_view().push(name)
            },
            Err(e) => {
                &&& rest matches Err(f)
                &&& f == e
                &&& final(ordered_list).deep_view() == old(ordered_list).deep_view()
            },
        },
{
    let ghost view = tts.deep_view();
    if tts.len() == 0 {
        return Err(SyntaxError { kind: ErrorKind::EmptyOperand, position: 0 });
    }
    assert(view[0] == tts@[0].deep_view());
    let mut name: Option<String> = None;
    let mut named: usize = 0;
    match &tts[0] {
        Token::Group(delimiter, inner) => {
            proof {
                lemma_group_view(*delimiter, *inner);
            }
            match delimiter {
                Delimiter::Bracket => {
                    if inner.len() != 1 {
                        return Err(
                            SyntaxError { kind: ErrorKind::BadSymbolicName, position: 0 },
                        );
                    }
                    assert(inner.deep_view()[0] == inner@[0].deep_view());
                    match &inner[0] {
                        Token::Ident(text) => {
                            name = Some(text.clone());
                            named = 1;
                        },
                        _ => {
                            return Err(
                                SyntaxError { kind: ErrorKind::BadSymbolicName, position: 0 },
                            );
                        },
                    }
                },
                _ => {},
            }
        },
        _ => {},
    }
    let ghost before = ordered_list.deep_view();
    let ghost declared = name.deep_view();
    ordered_list.push(name);
    let tokens = clone_tokens(&tts[named..tts.len()]);
    proof {
        assert(declared_name(view) == Ok::<Option<Seq<char>>, SyntaxError>(declared));
        assert(ordered_list.deep_view() =~= before.push(declared));
        assert(tts@.subrange(named as int, tts.len() as int).len() == tts.len() - named);
        assert(tokens.deep_view() =~= without_name(view));
    }
    Ok(tokens)
}

/// Cuts a table of names back to its first `len` entries.
fn cut_back(ordered_list: &mut Vec<Option<String>>, len: usize)
    requires
        len <= old(ordered_list).len(),
    ensures
        final(ordered_list).deep_view() == old(ordered_list).deep_view().take(len as int),
{
    ordered_list.truncate(len);
    assert(ordered_list.deep_view() =~= old(ordered_list).deep_view().take(len as int));
}

/// Reads one item of an operand list. On success the operand's name, or
/// `None`, is appended to `ordered_list`; on failure the list is left as it
/// was.
pub fn parse_operand(ordered_list: &mut Vec<Option<String>>, tts: &[Token]) -> (operand: Result<
    OperandSpec,
    SyntaxError,
>)
    ensures
        match operand_of(tts.deep_view()) {
            Ok(op) => {
                &&& operand matches Ok(parsed)
                &&& parsed.deep_view() == op
                &&& final(ordered_list).deep_view() == old(ordered_list).deep_view().push(
                    op.symbolic_name,
                )
            },
            Err(e) => {
                &&& operand matches Err(f)
                &&& f == e
                &&& final(ordered_list).deep_view() == old(ordered_list).deep_view()
            },
        },
{
    let ghost view = tts.deep_view();
    let ghost before = ordered_list.deep_view();
    let mut rest = match extract_symbolic_name(ordered_list, tts) {
        Ok(rest) => rest,
        Err(e) => {
            return Err(e);
        },
    };
    assert(rest.deep_view().len() == rest.len());
    assert(ordered_list.deep_view().len() == ordered_list.len());
    let at: usize = tts.len() - rest.len();
    if rest.len() == 0 {
        cut_back(ordered_list, ordered_list.len() - 1);
        assert(ordered_list.deep_view() =~= before);
        return Err(SyntaxError { kind: ErrorKind::EmptyOperand, position: at });
    }
    assert(rest.deep_view()[0] == rest@[0].deep_view());
    let constraint = match get_string_literal(&rest[0]) {
        Some(text) => text.clone(),
        None => {
            cut_back(ordered_list, ordered_list.len() - 1);
            assert(ordered_list.deep_view() =~= before);
            return Err(SyntaxError { kind: ErrorKind::NonLiteralConstraint, position: at });
        },
    };
    let ghost tail = rest.deep_view().skip(1);
    rest.remove(0);
    assert(rest.deep_view() =~= tail);
    let symbolic_name = clone_name(&ordered_list[ordered_list.len() - 1]);
    assert(ordered_list.deep_view()[ordered_list.len() - 1] == ordered_list@[ordered_list.len()
        - 1].deep_view());
    Ok(OperandSpec { symbolic_name, constraint, expression: rest })
}

/// The names of operands, in the order of the operands.
pub open spec fn names_of(operands: Seq<OperandView>) -> Seq<Option<Seq<char>>> {
    Seq::new(operands.len(), |i: int| operands[i].symbolic_name)
}

/// The operands of the first `count` items, or the first error among
/// them, at its index in the run that the items were split from.
pub open spec fn operands_among(items: Seq<Seq<TokenView>>, count: nat) -> Result<
    Seq<OperandView>,
    SyntaxError,
>
    decreases count,
{
    if count == 0 {
        Ok(Seq::empty())
    } else {
        match operands_among(items, (count - 1) as nat) {
            Err(e) => Err(e),
            Ok(earlier) => match operand_of(items[count - 1]) {
                Ok(operand) => Ok(earlier.push(operand)),
                Err(e) => Err(e.shifted(piece_offset(items, count - 1))),
            },
        }
    }
}

/// The operands that a section denotes: its items are what stands between
/// its commas, and an empty section has none.
pub open spec fn operands_of(section: Seq<TokenView>) -> Result<Seq<OperandView>, SyntaxError> {
    operands_among(split(section, Separator::Comma), split(section, Separator::Comma).len())
}

/// An item's error lies within the item, or right at its end.
pub proof fn lemma_error_within_item(item: Seq<TokenView>)
    ensures
        operand_of(item) matches Err(e) ==> e.position <= item.len(),
{
}

/// The first error among items lies within the run they were split from,
/// or right at its end.
pub proof fn lemma_error_within_section(section: Seq<TokenView>, count: nat)
    requires
        count <= split(section, Separator::Comma).len(),
    ensures
        operands_among(split(section, Separator::Comma), count) matches Err(e) ==> e.position
            <= section.len(),
    decreases count,
{
    let items = split(section, Separator::Comma);
    if count > 0 {
        lemma_error_within_section(section, (count - 1) as nat);
        if operands_among(items, (count - 1) as nat) is Ok {
            lemma_pieces(section, Separator::Comma, count - 1);
            lemma_error_within_item(items[count - 1]);
        }
    }
}

/// Reads an operand section: splits it on commas and reads each item.
/// On success the names of the operands, `None` for those without one, are
/// appended to `ordered_list` in the order of the operands. On failure the
/// first error is returned, at its index in the section, and the list is
/// left as it was.
pub fn parse_operands(ordered_list: &mut Vec<Option<String>>, section: &[Token]) -> (operands:
    Result<Vec<OperandSpec>, SyntaxError>)
    ensures
        match operands_of(section.deep_view()) {
            Ok(ops) => {
                &&& operands matches Ok(parsed)
                &&& parsed.deep_view() == ops
                &&& final(ordered_list).deep_view() == old(ordered_list).deep_view() + names_of(
                    ops,
                )
            },
            Err(e) => {
                &&& operands matches Err(f)
                &&& f == e
                &&& final(ordered_list).deep_view() == old(ordered_list).deep_view()
            },
        },
{
    let ghost view = section.deep_view();
    let ghost before = ordered_list.deep_view();
    let items = split_on_token(section, Separator::Comma);
    let ghost parts = items.deep_view();
    let kept = ordered_list.len();
    let mut operands: Vec<OperandSpec> = Vec::new();
    let mut offset: usize = 0;
    let mut k: usize = 0;
    proof {
        assert(operands.deep_view() =~= Seq::empty());
        assert(names_of(operands.deep_view()) =~= Seq::empty());
        assert(before + names_of(operands.deep_view()) =~= before);
    }
    while k < items.len()
        invariant
            k <= items.len(),
            view == section.deep_view(),
            parts == items.deep_view(),
            parts == split(view, Separator::Comma),
            kept == before.len(),
            before == old(ordered_list).deep_view(),
            operands_among(parts, k as nat) == Ok::<Seq<OperandView>, SyntaxError>(
                operands.deep_view(),
            ),
            ordered_list.deep_view() == before + names_of(operands.deep_view()),
            k < items.len() ==> offset == piece_offset(parts, k as int),
        decreases items.len() - k,
    {
        let item = items[k];
        proof {
            assert(parts.len() == items.len());
            assert(parts[k as int] == item.deep_view());
            assert(item.deep_view().len() == item.len());
            assert(view.len() == section.len());
            lemma_pieces(view, Separator::Comma, k as int);
            lemma_error_within_item(parts[k as int]);
        }
        let ghost earlier = operands.deep_view();
        match parse_operand(ordered_list, item) {
            Ok(operand) => {
                operands.push(operand);
                proof {
                    assert(operands.deep_view() =~= earlier.push(operand.deep_view()));
                    assert(names_of(operands.deep_view()) =~= names_of(earlier).push(
                        operand.deep_view().symbolic_name,
                    ));
                    assert(ordered_list.deep_view() =~= before + names_of(operands.deep_view()));
                }
            },
            Err(e) => {
                assert(ordered_list.deep_view().len() == ordered_list.len());
                cut_back(ordered_list, kept);
                assert(ordered_list.deep_view() =~= before);
                assert(operands_among(parts, (k + 1) as nat) == Err::<
                    Seq<OperandView>,
                    SyntaxError,
                >(e.shifted(offset as int)));
                proof {
                    lemma_first_error_stays(parts, (k + 1) as nat, parts.len());
                }
                return Err(e.shift(offset));
            },
        }
        if k + 1 < items.len() {
            offset = offset + item.len() + 1;
        }
        k = k + 1;
    }
    Ok(operands)
}

/// Once an item has failed, the items after it are not read.
pub proof fn lemma_first_error_stays(items: Seq<Seq<TokenView>>, failed: nat, count: nat)
    requires
        failed <= count,
        operands_among(items, failed) is Err,
    ensures
        operands_among(items, count) == operands_among(items, failed),
    decreases count,
{
    if failed < count {
        lemma_first_error_stays(items, failed, (count - 1) as nat);
    }
}

/// An operand is tied, read and written in one place, when its constraint
/// starts with `+`.
pub open spec fn is_tied(operand: OperandView) -> bool {
    operand.constraint.len() > 0 && operand.constraint[0] == '+'
}

/// The output that an operand becomes: a tied operand has its leading `+`
/// turned into `=`, any other operand stays as it is.
pub open spec fn as_output(operand: OperandView) -> OperandView {
    if is_tied(operand) {
        OperandView {
            symbolic_name: operand.symbolic_name,
            constraint: seq!['='] + operand.constraint.skip(1),
            expression: operand.expression,
        }
    } else {
        operand
    }
}

/// The input that a tied output at `position` brings with it: unnamed,
/// constrained to the output's position in decimal, bound to the output's
/// expression.
pub open spec fn as_input(position: nat, operand: OperandView) -> OperandView {
    OperandView {
        symbolic_name: None,
        constraint: decimal(position),
        expression: operand.expression,
    }
}

/// Expands one output operand, given with its position among the outputs.
/// A tied operand yields its output form and the input that goes with it;
/// any other operand is handed back alone.
pub fn extract_tied_operands(pos_and_operand: (usize, OperandSpec)) -> (pair: (
    OperandSpec,
    Option<OperandSpec>,
))
    ensures
        pair.0.deep_view() == as_output(pos_and_operand.1.deep_view()),
        pair.1.deep_view() == if is_tied(pos_and_operand.1.deep_view()) {
            Some(as_input(pos_and_operand.0 as nat, pos_and_operand.1.deep_view()))
        } else {
            None
        },
{
    let (position, operand) = pos_and_operand;
    let constraint = chars_of(operand.constraint.as_str());
    if constraint.len() > 0 && constraint[0] == '+' {
        let mut output_constraint: Vec<char> = vec!['='];
        append_chars(&mut output_constraint, &constraint[1..constraint.len()]);
        assert(output_constraint@ =~= seq!['='] + operand.constraint@.skip(1));
        let number = to_decimal(position);
        let input = OperandSpec {
            symbolic_name: None,
            constraint: string_of(&number),
            expression: clone_tokens(operand.expression.as_slice()),
        };
        let output = OperandSpec {
            symbolic_name: operand.symbolic_name,
            constraint: string_of(&output_constraint),
            expression: operand.expression,
        };
        (output, Some(input))
    } else {
        (operand, None)
    }
}

/// The outputs after expansion: each in its place, in its output form.
pub open spec fn expanded_outputs(outputs: Seq<OperandView>) -> Seq<OperandView> {
    Seq::new(outputs.len(), |k: int| as_output(outputs[k]))
}

/// The inputs that the tied operands among the first `count` outputs
/// bring with them, in the order of those outputs.
pub open spec fn tied_inputs(outputs: Seq<OperandView>, count: nat) -> Seq<OperandView>
    decreases count,
{
    if count == 0 {
        Seq::empty()
    } else if is_tied(outputs[count - 1]) {
        tied_inputs(outputs, (count - 1) as nat).push(
            as_input((count - 1) as nat, outputs[count - 1]),
        )
    } else {
        tied_inputs(outputs, (count - 1) as nat)
    }
}

/// The inputs after expansion: the declared inputs, then the inputs of
/// the tied outputs.
pub open spec fn expanded_inputs(outputs: Seq<OperandView>, inputs: Seq<OperandView>) -> Seq<
    OperandView,
> {
    inputs + tied_inputs(outputs, outputs.len())
}

/// `count` entries for operands without a name.
pub open spec fn unnamed(count: nat) -> Seq<Option<Seq<char>>> {
    Seq::new(count, |i: int| None::<Seq<char>>)
}

/// A table of names is aligned with two operand lists when it holds, index
/// by index, the name of each output and then of each input.
pub open spec fn aligned(
    table: Seq<Option<Seq<char>>>,
    outputs: Seq<OperandView>,
    inputs: Seq<OperandView>,
) -> bool {
    table == names_of(outputs + inputs)
}

/// An aligned table has one entry for each operand of the two lists.
pub proof fn lemma_aligned_length(
    table: Seq<Option<Seq<char>>>,
    outputs: Seq<OperandView>,
    inputs: Seq<OperandView>,
)
    requires
        aligned(table, outputs, inputs),
    ensures
        table.len() == outputs.len() + inputs.len(),
        forall|i: int| 0 <= i < outputs.len() ==> table[i] == outputs[i].symbolic_name,
        forall|i: int|
            0 <= i < inputs.len() ==> table[outputs.len() + i] == inputs[i].symbolic_name,
{
    assert forall|i: int| 0 <= i < inputs.len() implies table[outputs.len() + i]
        == inputs[i].symbolic_name by {
        assert((outputs + inputs)[outputs.len() + i] == inputs[i]);
    }
}

/// Expansion keeps a table aligned: the outputs keep their names and their
/// places, and the inputs that are added have no names.
pub proof fn lemma_expansion_keeps_alignment(
    table: Seq<Option<Seq<char>>>,
    outputs: Seq<OperandView>,
    inputs: Seq<OperandView>,
)
    requires
        aligned(table, outputs, inputs),
    ensures
        aligned(
            table + unnamed(tied_inputs(outputs, outputs.len()).len()),
            expanded_outputs(outputs),
            expanded_inputs(outputs, inputs),
        ),
{
    let tied = tied_inputs(outputs, outputs.len());
    lemma_tied_inputs_unnamed(outputs, outputs.len());
    assert(table + unnamed(tied.len()) =~= names_of(
        expanded_outputs(outputs) + expanded_inputs(outputs, inputs),
    ));
}

/// The inputs of tied outputs have no names and the expressions of
/// their outputs, and there are no more of them than outputs.
pub proof fn lemma_tied_inputs_unnamed(outputs: Seq<OperandView>, count: nat)
    ensures
        tied_inputs(outputs, count).len() <= count,
        forall|j: int|
            0 <= j < tied_inputs(outputs, count).len() ==> (#[trigger] tied_inputs(
                outputs,
                count,
            )[j]).symbolic_name is None,
    decreases count,
{
    if count > 0 {
        lemma_tied_inputs_unnamed(outputs, (count - 1) as nat);
    }
}

/// The input that a tied output brings with it stands, among the inputs of
/// the first `count` outputs, behind those of the tied outputs before it.
pub proof fn lemma_tied_input_place(outputs: Seq<OperandView>, k: nat, count: nat)
    requires
        k < count,
        is_tied(outputs[k as int]),
    ensures
        tied_inputs(outputs, k).len() < tied_inputs(outputs, count).len(),
        tied_inputs(outputs, count)[tied_inputs(outputs, k).len() as int] == as_input(
            k,
            outputs[k as int],
        ),
    decreases count,
{
    if k + 1 < count {
        lemma_tied_input_place(outputs, k, (count - 1) as nat);
    }
}

/// Tied expansion, for the output at position `k` when it is tied: the
/// output stays at position `k` with `=` in place of its leading `+`, and
/// one input is added for it behind all declared inputs, behind the inputs
/// of the tied outputs before it, constrained to `k` in decimal and bound
/// to the same expression.
pub proof fn lemma_tied_expansion(outputs: Seq<OperandView>, inputs: Seq<OperandView>, k: int)
    requires
        0 <= k < outputs.len(),
        is_tied(outputs[k]),
    ensures
        expanded_outputs(outputs).len() == outputs.len(),
        expanded_outputs(outputs)[k].constraint == seq!['='] + outputs[k].constraint.skip(1),
        expanded_outputs(outputs)[k].expression == outputs[k].expression,
        expanded_outputs(outputs)[k].symbolic_name == outputs[k].symbolic_name,
        inputs.len() + tied_inputs(outputs, k as nat).len() < expanded_inputs(
            outputs,
            inputs,
        ).len(),
        expanded_inputs(outputs, inputs)[(inputs.len() + tied_inputs(
            outputs,
            k as nat,
        ).len()) as int] == as_input(k as nat, outputs[k]),
        as_input(k as nat, outputs[k]).constraint == decimal(k as nat),
        as_input(k as nat, outputs[k]).expression == outputs[k].expression,
{
    lemma_tied_input_place(outputs, k as nat, outputs.len());
}

/// What expansion leaves alone: an output that is not tied, and every
/// declared input, in its place. Only tied outputs add inputs.
pub proof fn lemma_expansion_keeps_the_rest(outputs: Seq<OperandView>, inputs: Seq<OperandView>)
    ensures
        expanded_outputs(outputs).len() == outputs.len(),
        forall|k: int|
            0 <= k < outputs.len() && !is_tied(outputs[k]) ==> #[trigger] expanded_outputs(
                outputs,
            )[k] == outputs[k],
        inputs.len() <= expanded_inputs(outputs, inputs).len() <= inputs.len() + outputs.len(),
        forall|j: int|
            0 <= j < inputs.len() ==> #[trigger] expanded_inputs(outputs, inputs)[j] == inputs[j],
        (forall|k: int| 0 <= k < outputs.len() ==> !is_tied(outputs[k])) ==> expanded_inputs(
            outputs,
            inputs,
        ) == inputs,
{
    lemma_tied_inputs_unnamed(outputs, outputs.len());
    if forall|k: int| 0 <= k < outputs.len() ==> !is_tied(outputs[k]) {
        lemma_no_tied_inputs(outputs, outputs.len());
        assert(expanded_inputs(outputs, inputs) =~= inputs);
    }
}

/// Outputs of which none is tied bring no inputs.
proof fn lemma_no_tied_inputs(outputs: Seq<OperandView>, count: nat)
    requires
        count <= outputs.len(),
        forall|k: int| 0 <= k < outputs.len() ==> !is_tied(outputs[k]),
    ensures
        tied_inputs(outputs, count).len() == 0,
    decreases count,
{
    if count > 0 {
        lemma_no_tied_inputs(outputs, (count - 1) as nat);
    }
}

/// Expands the tied operands among `outputs`. The outputs come back in
/// their output forms; the inputs come back followed by one input for each
/// tied output, in the order of the outputs; and `ordered_list` grows by
/// one `None` for each input that was added, so that a table that was
/// aligned with the lists before the call is aligned with them after it.
pub fn expand_tied_operands(
    ordered_list: &mut Vec<Option<String>>,
    outputs: Vec<OperandSpec>,
    inputs: Vec<OperandSpec>,
) -> (lists: (Vec<OperandSpec>, Vec<OperandSpec>))
    ensures
        lists.0.deep_view() == expanded_outputs(outputs.deep_view()),
        lists.1.deep_view() == expanded_inputs(outputs.deep_view(), inputs.deep_view()),
        final(ordered_list).deep_view() == old(ordered_list).deep_view() + unnamed(
            tied_inputs(outputs.deep_view(), outputs.deep_view().len()).len(),
        ),
        aligned(old(ordered_list).deep_view(), outputs.deep_view(), inputs.deep_view())
            ==> aligned(final(ordered_list).deep_view(), lists.0.deep_view(), lists.1.deep_view()),
{
    let ghost declared = outputs.deep_view();
    let ghost given = inputs.deep_view();
    let ghost before = ordered_list.deep_view();
    let mut new_outputs: Vec<OperandSpec> = Vec::new();
    let mut new_inputs: Vec<OperandSpec> = inputs;
    let mut position: usize = 0;
    assert(given + tied_inputs(declared, 0) =~= given);
    assert(before + unnamed(0) =~= before);
    for operand in it: outputs.into_iter()
        invariant
            it.seq() == outputs@,
            declared == outputs.deep_view(),
            position == it.index(),
            new_outputs.len() == position,
            forall|k: int|
                0 <= k < position ==> new_outputs@[k].deep_view() == as_output(declared[k]),
            new_inputs.deep_view() == given + tied_inputs(declared, position as nat),
            ordered_list.deep_view() == before + unnamed(
                tied_inputs(declared, position as nat).len(),
            ),
    {
        assert(position < outputs.len());
        assert(declared[position as int] == operand.deep_view());
        let ghost inputs_so_far = new_inputs.deep_view();
        let ghost names_so_far = ordered_list.deep_view();
        let (output, input) = extract_tied_operands((position, operand));
        new_outputs.push(output);
        match input {
            Some(tied) => {
                new_inputs.push(tied);
                ordered_list.push(None);
                proof {
                    assert(new_inputs.deep_view() =~= inputs_so_far.push(tied.deep_view()));
                    assert(new_inputs.deep_view() =~= given + tied_inputs(
                        declared,
                        (position + 1) as nat,
                    ));
                    assert(ordered_list.deep_view() =~= names_so_far.push(None));
                    assert(ordered_list.deep_view() =~= before + unnamed(
                        tied_inputs(declared, (position + 1) as nat).len(),
                    ));
                }
            },
            None => {},
        }
        position = position + 1;
    }
    proof {
        assert(new_outputs.deep_view() =~= expanded_outputs(declared));
        if aligned(before, declared, given) {
            lemma_expansion_keeps_alignment(before, declared, given);
        }
    }
    (new_outputs, new_inputs)
}

} // verus!
