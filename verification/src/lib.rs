//! Reads the help text of a command line program, which follows no grammar,
//! and extracts what it says of the program: its options with their names,
//! arguments and descriptions, its usage, and its subcommands. From the
//! command so found it writes completion scripts for five shells, JSON, and
//! a plain view.
//!
//! Each function states what it returns over a model of its arguments, and
//! these statements are proved. What functions of other crates do is taken
//! on trust; those contracts stand in `foreign`.

pub mod alignment;
pub mod assemble;
pub mod chars;
pub mod cli;
pub mod encoding;
pub mod foreign;
pub mod generators;
pub mod io_handler;
pub mod json_gen;
pub mod layout;
pub mod order;
pub mod parser;
pub mod postprocessor;
pub mod subcommand_parser;
pub mod text;
pub mod types;
pub mod unique;

pub use assemble::{build_command, clean_text, command_name, format_native};
pub use cli::{Cli, Shell};
pub use generators::{
    BashGenerator, ElvishGenerator, FishGenerator, NushellGenerator, ZshGenerator,
};
pub use io_handler::IoHandler;
pub use json_gen::JsonGenerator;
pub use layout::Layout;
pub use parser::Parser;
pub use postprocessor::Postprocessor;
pub use subcommand_parser::SubcommandParser;
pub use types::{Command, Opt, OptName, OptNameType, Subcommand};
