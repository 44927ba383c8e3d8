//! The translation as a whole: from the tokens of a description to the
//! block in the target dialect.

use crate::error::{error_at, ErrorKind, SyntaxError};
use crate::operand::{
    aligned, expand_tied_operands, expanded_inputs, expanded_outputs, lemma_error_within_section,
    names_of, operands_of, parse_operands, OperandSpec, OperandView,
};
use crate::split::{lemma_pieces, piece_offset, split, split_on_token, start_of, Separator};
use crate::template::{assemble_template, assembled, replace_template, rewritten};
use crate::token::{Token, TokenView};
use vstd::prelude::*;

verus! {

/// A description in the target dialect.
#[derive(Debug, PartialEq, Eq)]
pub struct AsmBlock {
    /// The template, with the placeholders of the target dialect.
    pub template: String,
    /// The operands that are written, by position.
    pub outputs: Vec<OperandSpec>,
    /// The operands that are read, by position after the outputs.
    pub inputs: Vec<OperandSpec>,
    /// The clobbers: always empty.
    pub clobbers: Vec<String>,
    /// Whether the block must be kept and kept in place even though
    /// nothing is seen to depend on it.
    pub volatile: bool,
}

/// What an [`AsmBlock`] is, as a mathematical value.
pub struct BlockView {
    pub template: Seq<char>,
    pub outputs: Seq<OperandView>,
    pub inputs: Seq<OperandView>,
    pub clobbers: Seq<Seq<char>>,
    pub volatile: bool,
}

impl DeepView for AsmBlock {
    type V = BlockView;

    open spec fn deep_view(&self) -> BlockView {
        BlockView {
            template: self.template@,
            outputs: self.outputs.deep_view(),
            inputs: self.inputs.deep_view(),
            clobbers: self.clobbers.deep_view(),
            volatile: self.volatile,
        }
    }
}

/// The block made of a template and two operand lists: it has no
/// clobbers, and it is volatile exactly when it has no outputs.
pub open spec fn block_of(
    template: Seq<char>,
    outputs: Seq<OperandView>,
    inputs: Seq<OperandView>,
) -> BlockView {
    BlockView {
        template,
        outputs,
        inputs,
        clobbers: Seq::empty(),
        volatile: outputs.len() == 0,
    }
}

impl AsmBlock {
    /// What holds of every block that the library makes: it has no
    /// clobbers, and it is volatile exactly when it has no outputs.
    pub open spec fn well_formed(&self) -> bool {
        &&& self.clobbers@.len() == 0
        &&& self.volatile <==> self.outputs@.len() == 0
    }

    /// Puts a block together from its rewritten template and its final
    /// operand lists.
    pub fn assemble(
        template: String,
        outputs: Vec<OperandSpec>,
        inputs: Vec<OperandSpec>,
    ) -> (block: AsmBlock)
        ensures
            block.well_formed(),
            block.deep_view() == block_of(template@, outputs.deep_view(), inputs.deep_view()),
    {
        let volatile = outputs.len() == 0;
        let clobbers: Vec<String> = Vec::new();
        assert(clobbers.deep_view() =~= Seq::empty());
        assert(outputs.deep_view().len() == outputs.len());
        AsmBlock { template, outputs, inputs, clobbers, volatile }
    }
}

/// Section `k` of a description; empty where the description has fewer
/// sections.
pub open spec fn section(sections: Seq<Seq<TokenView>>, k: int) -> Seq<TokenView> {
    if 0 <= k < sections.len() {
        sections[k]
    } else {
        Seq::empty()
    }
}

/// What a description translates to.
///
/// The description is split on its colons into template, outputs, inputs
/// and clobbers. The checks come in this order, and the first that fails
/// gives the error: there is a template; the template section holds string
/// literals only; there are no clobbers; no fifth section follows; the
/// outputs can be read; the inputs can be read; the template refers to
/// declared names only. Positions count the tokens of the description.
pub open spec fn translated(tokens: Seq<TokenView>) -> Result<BlockView, SyntaxError> {
    let sections = split(tokens, Separator::Colon);
    if sections.len() == 0 {
        Err(error_at(ErrorKind::MissingTemplate, 0))
    } else {
        match assembled(sections[0]) {
            Err(e) => Err(e),
            Ok(template) => {
                if section(sections, 3).len() > 0 {
                    Err(error_at(ErrorKind::UnsupportedClobbers, piece_offset(sections, 3)))
                } else if sections.len() > 4 {
                    Err(error_at(ErrorKind::TrailingTokens, piece_offset(sections, 4) - 1))
                } else {
                    match operands_of(section(sections, 1)) {
                        Err(e) => Err(e.shifted(piece_offset(sections, 1))),
                        Ok(outputs) => match operands_of(section(sections, 2)) {
                            Err(e) => Err(e.shifted(piece_offset(sections, 2))),
                            Ok(inputs) => {
                                let final_outputs = expanded_outputs(outputs);
                                let final_inputs = expanded_inputs(outputs, inputs);
                                match rewritten(
                                    template,
                                    names_of(final_outputs + final_inputs),
                                ) {
                                    Err(e) => Err(e),
                                    Ok(text) => Ok(block_of(text, final_outputs, final_inputs)),
                                }
                            },
                        },
                    }
                }
            },
        }
    }
}

/// What a call of [`gcc_asm`] gave, as a mathematical value.
pub open spec fn outcome(result: Result<AsmBlock, SyntaxError>) -> Result<
    BlockView,
    SyntaxError,
> {
    match result {
        Ok(block) => Ok(block.deep_view()),
        Err(e) => Err(e),
    }
}

/// Translates one description from the source dialect into the target
/// dialect. No block is made of a description that is refused.
pub fn gcc_asm(tokens: &[Token]) -> (block: Result<AsmBlock, SyntaxError>)
    ensures
        outcome(block) == translated(tokens.deep_view()),
        block matches Ok(made) ==> made.well_formed(),
{
    let ghost view = tokens.deep_view();
    let sections = split_on_token(tokens, Separator::Colon);
    let ghost parts = sections.deep_view();
    if sections.len() == 0 {
        return Err(SyntaxError { kind: ErrorKind::MissingTemplate, position: 0 });
    }
    proof {
        assert(parts.len() == sections.len());
        assert(view.len() == tokens.len());
        assert(parts[0] == sections@[0].deep_view());
    }
    let template = match assemble_template(sections[0]) {
        Ok(template) => template,
        Err(e) => {
            return Err(e);
        },
    };
    if sections.len() > 3 {
        assert(parts[3] == sections@[3].deep_view());
        assert(sections@[3].deep_view().len() == sections@[3].len());
        if sections[3].len() > 0 {
            let at = start_of(tokens, Separator::Colon, &sections, 3);
            return Err(SyntaxError { kind: ErrorKind::UnsupportedClobbers, position: at });
        }
    }
    if sections.len() > 4 {
        let at = start_of(tokens, Separator::Colon, &sections, 4);
        proof {
            lemma_pieces(view, Separator::Colon, 3);
        }
        return Err(SyntaxError { kind: ErrorKind::TrailingTokens, position: at - 1 });
    }
    let nothing: &[Token] = &tokens[0..0];
    assert(nothing.deep_view() =~= Seq::<TokenView>::empty());
    let mut symbolic_names: Vec<Option<String>> = Vec::new();
    assert(symbolic_names.deep_view() =~= Seq::empty());

    let output_section: &[Token] = if sections.len() > 1 {
        sections[1]
    } else {
        nothing
    };
    assert(output_section.deep_view() == section(parts, 1)) by {
        if sections.len() > 1 {
            assert(parts[1] == sections@[1].deep_view());
        }
    }
    let outputs = match parse_operands(&mut symbolic_names, output_section) {
        Ok(outputs) => outputs,
        Err(e) => {
            let at = start_of(tokens, Separator::Colon, &sections, 1);
            proof {
                lemma_error_within_section(
                    section(parts, 1),
                    split(section(parts, 1), Separator::Comma).len(),
                );
                assert(output_section.deep_view().len() == output_section.len());
            }
            return Err(e.shift(at));
        },
    };
    let input_section: &[Token] = if sections.len() > 2 {
        sections[2]
    } else {
        nothing
    };
    assert(input_section.deep_view() == section(parts, 2)) by {
        if sections.len() > 2 {
            assert(parts[2] == sections@[2].deep_view());
        }
    }
    let inputs = match parse_operands(&mut symbolic_names, input_section) {
        Ok(inputs) => inputs,
        Err(e) => {
            let at = start_of(tokens, Separator::Colon, &sections, 2);
            proof {
                lemma_error_within_section(
                    section(parts, 2),
                    split(section(parts, 2), Separator::Comma).len(),
                );
                assert(input_section.deep_view().len() == input_section.len());
            }
            return Err(e.shift(at));
        },
    };
    proof {
        assert(symbolic_names.deep_view() =~= names_of(
            outputs.deep_view() + inputs.deep_view(),
        ));
    }
    let (final_outputs, final_inputs) = expand_tied_operands(
        &mut symbolic_names,
        outputs,
        inputs,
    );
    let new_template = match replace_template(template, symbolic_names.as_slice()) {
        Ok(text) => text,
        Err(e) => {
            return Err(e);
        },
    };
    Ok(AsmBlock::assemble(new_template, final_outputs, final_inputs))
}

/// Translation is a function of the tokens: two calls on runs of tokens
/// with the same views give the same block, character for character, or
/// the same error.
pub proof fn lemma_deterministic(
    first: &[Token],
    second: &[Token],
    first_block: Result<AsmBlock, SyntaxError>,
    second_block: Result<AsmBlock, SyntaxError>,
)
    requires
        first.deep_view() == second.deep_view(),
        call_ensures(gcc_asm, (first,), first_block),
        call_ensures(gcc_asm, (second,), second_block),
    ensures
        outcome(first_block) == outcome(second_block),
{
}

/// A block that comes out of the translation has no clobbers and is
/// volatile exactly when it has no outputs.
pub proof fn lemma_volatile_without_outputs(tokens: Seq<TokenView>)
    requires
        translated(tokens) is Ok,
    ensures
        translated(tokens)->Ok_0.volatile <==> translated(tokens)->Ok_0.outputs.len() == 0,
        translated(tokens)->Ok_0.clobbers.len() == 0,
{
}

/// The template of a block is the template section's literals, joined
/// and rewritten against the table of names of the block's own lists:
/// the table has one entry for each output and then each input of the
/// block, tied inputs included, so that an index in the rewritten template
/// is a position in those lists.
pub proof fn lemma_index_alignment(tokens: Seq<TokenView>)
    requires
        translated(tokens) is Ok,
    ensures
        ({
            let block = translated(tokens)->Ok_0;
            let table = names_of(block.outputs + block.inputs);
            &&& aligned(table, block.outputs, block.inputs)
            &&& table.len() == block.outputs.len() + block.inputs.len()
            &&& assembled(split(tokens, Separator::Colon)[0]) matches Ok(template)
            &&& rewritten(template, table) == Ok::<Seq<char>, SyntaxError>(block.template)
        }),
{
}

} // verus!
