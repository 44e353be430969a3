//! The calculation cores behind the command-line tool: each command
//! parses its arguments and renders its report into a text buffer; the
//! surrounding binary does the argument handling and the printing.

pub mod aggregate;
pub mod arg_parser;
pub mod cidr_formatter;
pub mod compare;
pub mod describe;
pub mod split;

mod errors;

pub use errors::ErrorKind;
