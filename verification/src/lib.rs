//! An integer calculator: a lexer, a shunting-yard conversion to reverse
//! Polish notation, a stack evaluator, and the front ends' formatting and
//! line editor, each with its contract.

pub mod compiler;
pub mod digits;
pub mod editor;
pub mod expr;
pub mod fast;
pub mod grammar;
pub mod lexer;
pub mod repl;
pub mod report;
pub mod rpn;
pub mod text;
pub mod token;
pub mod utf8_index;

pub use compiler::compile;
pub use editor::{App, Control, Key};
pub use expr::{evaluate, try_evaluate};
pub use fast::fast_two;
pub use lexer::{lex, try_lex};
pub use repl::{repl_command, ReplCommand};
pub use report::{calculate, format_outcome};
pub use rpn::{eval_rpn, try_eval_rpn};
pub use text::trim;
pub use token::{fmt_op, Op, Token};
