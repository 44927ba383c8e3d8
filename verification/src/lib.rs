//! Translation of extended-assembly descriptions from the GCC placeholder
//! dialect (`%0`, `%[name]`, `%%`, `%=`, `+` constraints) into the dialect of
//! the `asm!` construct (`$0`, `$$`, `${:uid}`, no names, no `+`).
//!
//! The translation works on a sequence of [`Token`]s and yields an
//! [`AsmBlock`], or a [`SyntaxError`] that names the token it is about.
//! Every step is a verified function whose contract is stated over the
//! mathematical views of its arguments:
//!
//! - [`split`]: the sections of a description, the items of a section;
//! - [`template`]: the template joined from its literals and rewritten;
//! - [`operand`]: the operands read, tied operands expanded;
//! - [`block`]: the steps put together in [`gcc_asm`];
//! - [`laws`]: what the rewriting does to each marker;
//! - [`text`]: replacement and search in sequences of characters;
//! - [`token`], [`error`]: the data.

pub mod block;
pub mod error;
pub mod laws;
pub mod operand;
pub mod split;
pub mod template;
pub mod text;
pub mod token;

pub use block::{gcc_asm, AsmBlock};
pub use error::{ErrorKind, SyntaxError};
pub use operand::{
    expand_tied_operands, extract_symbolic_name, extract_tied_operands, parse_operand,
    parse_operands, OperandSpec,
};
pub use split::{split_on_token, Separator};
pub use template::{assemble_template, replace_template};
pub use token::{get_string_literal, make_string_literal, Delimiter, Token};
