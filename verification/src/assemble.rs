//! Putting a command together from a help text, and showing it.

use vstd::prelude::*;
use crate::cli::{text_of, Cli};
use crate::io_handler::{normalized, IoHandler};
use crate::layout::{blocks, parsed_blocks, usage_of, Layout};
use crate::postprocessor::{debulleted, spaces_to_ascii, Postprocessor};
use crate::subcommand_parser::{subcommands_of, SubcommandParser};
use crate::text::{cat, cat_of, chars_of, join, join_range, rows, string_of};
use crate::types::{
    raws, subcommand_models, Command, CommandModel, Opt, OptModel, Subcommand, SubcommandModel,
};

verus! {

/// The command that stands for a candidate: its name and description, and
/// nothing else.
pub open spec fn lifted(s: SubcommandModel) -> CommandModel {
    CommandModel {
        name: s.cmd,
        description: s.desc,
        usage: Seq::empty(),
        options: Seq::empty(),
        subcommands: Seq::empty(),
        version: Seq::empty(),
    }
}

/// The commands that stand for the candidates.
pub open spec fn all_lifted(subs: Seq<SubcommandModel>) -> Seq<CommandModel> {
    Seq::new(subs.len(), |i: int| lifted(subs[i]))
}

/// The command called `name` that the help text `content` describes: its
/// usage, its options block by block, and, where `depth` is above 0, its
/// subcommands. Description and version stay empty.
pub open spec fn built(name: Seq<char>, content: Seq<char>, depth: nat) -> CommandModel {
    CommandModel {
        name,
        description: Seq::empty(),
        usage: usage_of(content),
        options: parsed_blocks(blocks(content)),
        subcommands: if depth > 0 {
            all_lifted(subcommands_of(content))
        } else {
            Seq::empty()
        },
        version: Seq::empty(),
    }
}

/// The text made ready for parsing: brought into shape, then without
/// bullets, then with ASCII spaces for the wide ones.
pub open spec fn cleaned(content: Seq<char>) -> Seq<char> {
    spaces_to_ascii(debulleted(normalized(content)))
}

/// The line of an option in the plain view: its names with a comma and a
/// space between them, and its argument in round brackets.
pub open spec fn native_option(opt: OptModel) -> Seq<char> {
    cat(seq!["  "@, join(raws(opt.names), ", "@), " ("@, opt.argument, ")"@])
}

/// The lines of the first `n` options in the plain view.
pub open spec fn native_options(opts: Seq<OptModel>, n: int) -> Seq<Seq<char>>
    decreases n,
{
    if n <= 0 {
        seq![]
    } else {
        native_options(opts, n - 1).push(native_option(opts[n - 1]))
    }
}

/// The lines of the first `n` subcommands in the plain view.
pub open spec fn native_subcommands(subs: Seq<CommandModel>, n: int) -> Seq<Seq<char>>
    decreases n,
{
    if n <= 0 {
        seq![]
    } else {
        native_subcommands(subs, n - 1).push(cat(seq!["Subcommand: "@, subs[n - 1].name]))
    }
}

/// The plain view of a command: name, description and usage, a line for each
/// option and a line for each subcommand, with an empty line between each
/// two of them.
pub open spec fn native(c: CommandModel) -> Seq<char> {
    join(
        seq![
            cat(seq!["Name:  "@, c.name]),
            cat(seq!["Desc:  "@, c.description]),
            cat(seq!["Usage:\n"@, c.usage]),
        ] + native_options(c.options, c.options.len() as int) + native_subcommands(
            c.subcommands,
            c.subcommands.len() as int,
        ),
        "\n\n"@,
    )
}

/// The name that a command gets: the command asked for; else, where a file
/// was given, the name of the file, or `command` where it has none; else the
/// subcommand asked for; else `command`.
pub open spec fn name_in_force(
    command: Option<Seq<char>>,
    file: Option<Seq<char>>,
    file_name: Option<Seq<char>>,
    subcommand: Option<Seq<char>>,
) -> Seq<char> {
    if command is Some {
        command->0
    } else if file is Some {
        if file_name is Some {
            file_name->0
        } else {
            "command"@
        }
    } else if subcommand is Some {
        subcommand->0
    } else {
        "command"@
    }
}

/// The name of the command that the settings ask for, `file_name` being the
/// last part of the path of the file, where the path has one: see
/// `name_in_force`.
pub fn command_name(cli: &Cli, file_name: Option<&str>) -> (r: String)
    ensures
        r@ == name_in_force(
            text_of(cli.command),
            text_of(cli.file),
            match file_name {
                Some(n) => Some(n@),
                None => None,
            },
            text_of(cli.subcommand),
        ),
{
    match &cli.command {
        Some(name) => name.clone(),
        None => match &cli.file {
            Some(_) => match file_name {
                Some(name) => name.to_owned(),
                None => "command".to_owned(),
            },
            None => match &cli.subcommand {
                Some(name) => name.clone(),
                None => "command".to_owned(),
            },
        },
    }
}

/// The command that stands for a candidate.
pub fn lift(s: Subcommand) -> (r: Command)
    ensures
        r@ == lifted(s@),
{
    let r = Command {
        name: s.cmd,
        description: s.desc,
        usage: String::new(),
        options: Vec::new(),
        subcommands: Vec::new(),
        version: String::new(),
    };
    proof {
        assert(r@.options =~= Seq::empty());
        assert(r@.subcommands =~= Seq::empty());
    }
    r
}

/// The command called `name` that the help text `content` describes: its
/// usage as `Layout::parse_usage` finds it, its options as
/// `Layout::parse_blockwise` finds them, and, where `depth` is above 0, a
/// subcommand for each candidate that `SubcommandParser::parse` finds, with
/// the candidate's name and description and nothing else.
pub fn build_command(name: String, content: &str, depth: usize) -> (r: Command)
    ensures
        r@ == built(name@, content@, depth as nat),
{
    let mut cmd = Command::new(name);
    cmd.options = Layout::parse_options(content);
    cmd.usage = Layout::usage_text(content);
    let ghost wanted = all_lifted(subcommands_of(content@));
    if depth > 0 {
        let candidates = SubcommandParser::parse(content);
        let ghost found = candidates@;
        let mut subcommands: Vec<Command> = Vec::new();
        for candidate in it: candidates
            invariant
                it.seq() == found,
                subcommand_models(found) == subcommands_of(content@),
                subcommands@.len() == it.index(),
                forall|k: int|
                    0 <= k < subcommands@.len() ==> (#[trigger] subcommands@[k])@ == lifted(
                        found[k]@,
                    ),
        {
            subcommands.push(lift(candidate));
        }
        cmd.subcommands = subcommands;
        proof {
            assert(cmd@.subcommands.len() == wanted.len());
            assert forall|k: int| 0 <= k < wanted.len() implies cmd@.subcommands[k] == wanted[k] by {
                assert(cmd.subcommands@[k]@ == lifted(found[k]@));
                assert(subcommand_models(found)[k] == found[k]@);
            }
            assert(cmd@.subcommands =~= wanted);
        }
    } else {
        proof {
            assert(cmd@.subcommands =~= Seq::<CommandModel>::empty());
        }
    }
    cmd
}

/// The text made ready for parsing: brought into shape by
/// `IoHandler::normalize_text`, then without bullets, then with ASCII spaces
/// for the wide ones.
pub fn clean_text(content: &str) -> (r: String)
    ensures
        r@ == cleaned(content@),
{
    let shaped = IoHandler::normalized_string(content);
    let plain = Postprocessor::remove_bullets(shaped.as_str());
    Postprocessor::unicode_spaces_to_ascii(plain.as_str())
}

/// The line of an option in the plain view.
fn native_option_of(opt: &Opt) -> (r: Vec<char>)
    ensures
        r@ == native_option(opt@),
{
    let mut names: Vec<Vec<char>> = Vec::new();
    let ghost all = raws(opt@.names);
    let mut k: usize = 0;
    while k < opt.names.len()
        invariant
            k <= opt.names@.len(),
            all == raws(opt@.names),
            all.len() == opt.names@.len(),
            rows(names@) == all.take(k as int),
        decreases opt.names@.len() - k,
    {
        let raw = chars_of(opt.names[k].raw.as_str());
        let ghost prev = rows(names@);
        names.push(raw);
        proof {
            assert(opt@.names[k as int] == opt.names@[k as int]@);
            assert(rows(names@) =~= prev.push(raw@));
            assert(all.take(k + 1) =~= all.take(k as int).push(all[k as int]));
        }
        k += 1;
    }
    let comma = chars_of(", ");
    proof {
        assert(all.take(opt.names@.len() as int) =~= all);
        assert(rows(names@).subrange(0, names@.len() as int) =~= rows(names@));
    }
    let joined = join_range(&names, 0, names.len(), comma.as_slice());
    let mut parts: Vec<Vec<char>> = Vec::new();
    parts.push(chars_of("  "));
    parts.push(joined);
    parts.push(chars_of(" ("));
    parts.push(chars_of(opt.argument.as_str()));
    parts.push(chars_of(")"));
    proof {
        assert(rows(parts@) =~= seq![
            "  "@,
            join(raws(opt@.names), ", "@),
            " ("@,
            opt@.argument,
            ")"@,
        ]);
    }
    cat_of(&parts)
}

/// A text behind a label.
fn labelled(label: &str, text: &str) -> (r: Vec<char>)
    ensures
        r@ == cat(seq![label@, text@]),
{
    let mut parts: Vec<Vec<char>> = Vec::new();
    parts.push(chars_of(label));
    parts.push(chars_of(text));
    proof {
        assert(rows(parts@) =~= seq![label@, text@]);
    }
    cat_of(&parts)
}

/// The plain view of a command: its name, its description and its usage,
/// then a line with names and argument for each option, then a line for each
/// subcommand, with an empty line between each two of them.
pub fn format_native(cmd: &Command) -> (r: String)
    ensures
        r@ == native(cmd@),
{
    let mut output: Vec<Vec<char>> = Vec::new();
    output.push(labelled("Name:  ", cmd.name.as_str()));
    output.push(labelled("Desc:  ", cmd.description.as_str()));
    output.push(labelled("Usage:\n", cmd.usage.as_str()));
    let ghost head = seq![
        cat(seq!["Name:  "@, cmd@.name]),
        cat(seq!["Desc:  "@, cmd@.description]),
        cat(seq!["Usage:\n"@, cmd@.usage]),
    ];
    proof {
        assert(rows(output@) =~= head);
        assert(head + native_options(cmd@.options, 0) =~= head);
    }
    let mut i: usize = 0;
    while i < cmd.options.len()
        invariant
            i <= cmd.options@.len(),
            cmd@.options.len() == cmd.options@.len(),
            rows(output@) == head + native_options(cmd@.options, i as int),
        decreases cmd.options@.len() - i,
    {
        let line = native_option_of(&cmd.options[i]);
        let ghost prev = rows(output@);
        output.push(line);
        proof {
            assert(cmd@.options[i as int] == cmd.options@[i as int]@);
            assert(rows(output@) =~= prev.push(line@));
            assert(head + native_options(cmd@.options, i as int).push(line@) =~= (head
                + native_options(cmd@.options, i as int)).push(line@));
        }
        i += 1;
    }
    let ghost upper = head + native_options(cmd@.options, cmd@.options.len() as int);
    proof {
        assert(upper + native_subcommands(cmd@.subcommands, 0) =~= upper);
    }
    let mut j: usize = 0;
    while j < cmd.subcommands.len()
        invariant
            j <= cmd.subcommands@.len(),
            cmd@.subcommands.len() == cmd.subcommands@.len(),
            rows(output@) == upper + native_subcommands(cmd@.subcommands, j as int),
        decreases cmd.subcommands@.len() - j,
    {
        let line = labelled("Subcommand: ", cmd.subcommands[j].name.as_str());
        let ghost prev = rows(output@);
        output.push(line);
        proof {
            assert(cmd@.subcommands[j as int] == cmd.subcommands@[j as int]@);
            assert(rows(output@) =~= prev.push(line@));
            assert(upper + native_subcommands(cmd@.subcommands, j as int).push(line@) =~= (upper
                + native_subcommands(cmd@.subcommands, j as int)).push(line@));
        }
        j += 1;
    }
    let gap = chars_of("\n\n");
    proof {
        assert(rows(output@).subrange(0, output@.len() as int) =~= rows(output@));
    }
    let text = join_range(&output, 0, output.len(), gap.as_slice());
    string_of(text.as_slice())
}

} // verus!
