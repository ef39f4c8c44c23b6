//! A minimal interactive shell's parsing core and dispatch table.
//!
//! The library turns one raw input line into a sequence of structured
//! command calls: the tokenizer resolves quoting and escaping, and the
//! call builder splits the line on `;`, separates flags from positional
//! arguments, and hands each call to a registered command's metadata for
//! dispatch.  The surrounding read-eval-print loop and the commands that
//! touch the filesystem live outside the library.

pub mod command;
pub mod command_call;
pub mod text;
