//! What the command line asks for, once it has been read.

use vstd::prelude::*;

verus! {

/// The shells that a completion script of the program itself can be
/// written for.
#[derive(Clone, Copy, Debug, PartialEq, Eq, Structural)]
pub enum Shell {
    Bash,
    Fish,
    Zsh,
    PowerShell,
    Elvish,
    Nushell,
}

/// The settings of one run.
#[derive(Debug)]
pub struct Cli {
    /// The command whose help text or manual page is to be read.
    pub command: Option<String>,
    /// The file that holds the help text.
    pub file: Option<String>,
    /// The subcommand, written as command and subcommand with a dash between.
    pub subcommand: Option<String>,
    /// The file that holds a command as JSON.
    pub loadjson: Option<String>,
    /// The format of the output.
    pub format: String,
    /// Whether the output is JSON whatever `format` says.
    pub json: bool,
    /// Whether the manual page is passed over.
    pub skip_man: bool,
    /// Whether the subcommands are listed and nothing else.
    pub list_subcommands: bool,
    /// Whether the text is preprocessed and nothing else.
    pub debug: bool,
    /// How deep subcommands are followed.
    pub depth: usize,
    /// The shell for which the program's own completions are written.
    pub completions: Option<Shell>,
    /// Whether the script is written to the shell's rc file.
    pub write: bool,
    /// Whether bash gets the names with their descriptions.
    pub bash_completion_compat: bool,
}

/// The format that is in force: `json` where the JSON flag is set, else the
/// format given.
pub open spec fn format_in_force(json: bool, format: Seq<char>) -> Seq<char> {
    if json {
        "json"@
    } else {
        format
    }
}

/// The first of the three that is given: the JSON file, the file, the
/// command.
pub open spec fn input_in_force(
    loadjson: Option<Seq<char>>,
    file: Option<Seq<char>>,
    command: Option<Seq<char>>,
) -> Option<Seq<char>> {
    if loadjson is Some {
        loadjson
    } else if file is Some {
        file
    } else {
        command
    }
}

/// The text of an optional string.
pub open spec fn text_of(s: Option<String>) -> Option<Seq<char>> {
    match s {
        Some(t) => Some(t@),
        None => None,
    }
}

impl Cli {
    /// The format that is in force: `json` where the JSON flag is set, else
    /// the format given.
    pub fn effective_format(&self) -> (r: &str)
        ensures
            r@ == format_in_force(self.json, self.format@),
    {
        if self.json {
            "json"
        } else {
            self.format.as_str()
        }
    }

    /// The input that is in force: the JSON file where one is given, else
    /// the file, else the command.
    pub fn get_input(&self) -> (r: Option<&str>)
        ensures
            match r {
                Some(t) => input_in_force(
                    text_of(self.loadjson),
                    text_of(self.file),
                    text_of(self.command),
                ) == Some(t@),
                None => input_in_force(
                    text_of(self.loadjson),
                    text_of(self.file),
                    text_of(self.command),
                ) is None,
            },
    {
        match &self.loadjson {
            Some(t) => Some(t.as_str()),
            None => match &self.file {
                Some(t) => Some(t.as_str()),
                None => match &self.command {
                    Some(t) => Some(t.as_str()),
                    None => None,
                },
            },
        }
    }

    /// Whether the text is preprocessed and nothing else.
    pub fn is_preprocess_only(&self) -> (r: bool)
        ensures
            r == self.debug,
    {
        self.debug
    }
}

} // verus!
