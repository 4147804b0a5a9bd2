//! Completion scripts for five shells, written from a command: each script
//! is a list of lines, and each line a list of pieces.

use vstd::prelude::*;
use crate::chars::CharClass;
use crate::order::{sorted_set, sorted_texts, text_order};
use crate::text::{
    cat, cat_of, chars_of, contains_seq, copy_range, folded, has_folded, join, join_range,
    push_all, rows, run_from, run_len, string_of, texts, words, words_of,
};
use crate::types::{
    opt_models, Command, CommandModel, Opt, OptModel, OptName, OptNameModel, OptNameType,
};

verus! {

/// Writes completions for fish.
pub struct FishGenerator;

/// Writes completions for zsh.
pub struct ZshGenerator;

/// Writes completions for bash.
pub struct BashGenerator;

/// Writes completions for elvish.
pub struct ElvishGenerator;

/// Writes completions for nushell.
pub struct NushellGenerator;

/// The lines joined by line feeds.
pub open spec fn script(lines: Seq<Seq<char>>) -> Seq<char> {
    join(lines, seq!['\n'])
}

/// The text up to its first full stop; the whole text where it has none.
pub open spec fn first_sentence(s: Seq<char>) -> Seq<char> {
    s.take(run_len(s, CharClass::Until('.')) as int)
}

/// The text without the dashes in front of it.
pub open spec fn without_dashes(s: Seq<char>) -> Seq<char> {
    s.skip(run_len(s, CharClass::Only('-')) as int)
}

/// The text with `with` in place of each `c`.
pub open spec fn replaced(s: Seq<char>, c: char, with: Seq<char>) -> Seq<char>
    decreases s.len(),
{
    if s.len() == 0 {
        seq![]
    } else if s.last() == c {
        replaced(s.drop_last(), c, with) + with
    } else {
        replaced(s.drop_last(), c, with).push(s.last())
    }
}

/// Whether a name is left out of every script: a dash or two dashes alone.
pub open spec fn is_alone(t: OptNameType) -> bool {
    t == OptNameType::SingleDashAlone || t == OptNameType::DoubleDashAlone
}

/// The flag by which fish tells the kinds of names apart.
pub open spec fn fish_flag(t: OptNameType) -> Seq<char> {
    match t {
        OptNameType::LongType => "-l"@,
        OptNameType::ShortType => "-s"@,
        OptNameType::OldType => "-o"@,
        _ => Seq::<char>::empty(),
    }
}

/// Whether the option takes a file: its argument speaks of a file, a
/// directory, a path or an archive, or its description of a file, a directory
/// or a path, in capital or small letters.
pub open spec fn takes_file(opt: OptModel) -> bool {
    ||| contains_seq(folded(opt.argument), "file"@)
    ||| contains_seq(folded(opt.argument), "dir"@)
    ||| contains_seq(folded(opt.argument), "path"@)
    ||| contains_seq(folded(opt.argument), "archive"@)
    ||| contains_seq(folded(opt.description), "file"@)
    ||| contains_seq(folded(opt.description), "dir"@)
    ||| contains_seq(folded(opt.description), "path"@)
}

/// The flag by which fish learns what the option takes: nothing, a file, or
/// something else.
pub open spec fn fish_arg_flag(opt: OptModel) -> Seq<char> {
    if opt.argument.len() == 0 {
        Seq::<char>::empty()
    } else if takes_file(opt) {
        "-r"@
    } else {
        "-x"@
    }
}

/// The description as bash shows it behind a name: its first sentence, the
/// words joined by underscores, and underscores for colons.
pub open spec fn bash_hint(description: Seq<char>) -> Seq<char> {
    replaced(join(words(first_sentence(description)), "_"@), ':', "_"@)
}

/// The kinds of lines and words that the scripts hold for a name.
#[derive(Clone, Copy, Debug)]
pub enum Style {
    /// A `complete` line of fish.
    Fish,
    /// An `options+=` line of zsh.
    Zsh,
    /// A `cand` line of elvish.
    Elvish,
    /// A flag of a nushell `extern`.
    Nushell,
    /// A name between double quotes, for nushell's list of options.
    NushellWord,
    /// A name, for bash's list of options.
    BashWord,
    /// A name with its description, for bash's list of options.
    BashCompatWord,
}

/// The line or word of the given kind for the name `name` of the option
/// `opt`, in a command reached by `path`.
pub open spec fn styled(
    style: Style,
    path: Seq<Seq<char>>,
    opt: OptModel,
    name: OptNameModel,
) -> Seq<char> {
    match style {
        Style::Fish => cat(
            seq![
                "complete -c "@,
                join(path, "_"@),
                " "@,
                fish_flag(name.opt_type),
                " "@,
                "'"@,
                without_dashes(name.raw),
                "'"@,
                " "@,
                fish_arg_flag(opt),
                " -d '"@,
                replaced(first_sentence(opt.description), '\'', "\\'"@),
                "'"@,
            ],
        ),
        Style::Zsh => if opt.argument.len() == 0 {
            cat(
                seq![
                    "  options+=("@,
                    "'"@,
                    name.raw,
                    "["@,
                    first_sentence(opt.description),
                    "]'"@,
                    ")"@,
                ],
            )
        } else {
            cat(
                seq![
                    "  options+=("@,
                    "'"@,
                    name.raw,
                    "["@,
                    opt.argument,
                    " "@,
                    first_sentence(opt.description),
                    "]'"@,
                    ")"@,
                ],
            )
        },
        Style::Elvish => cat(
            seq![
                "            cand "@,
                name.raw,
                " '"@,
                replaced(first_sentence(opt.description), '\'', Seq::<char>::empty()),
                "'"@,
            ],
        ),
        Style::Nushell => if opt.argument.len() == 0 {
            cat(
                seq![
                    "    "@,
                    name.raw,
                    " # "@,
                    first_sentence(opt.description),
                ],
            )
        } else {
            cat(
                seq![
                    "    "@,
                    name.raw,
                    ": string  # "@,
                    opt.argument,
                    " # "@,
                    first_sentence(opt.description),
                ],
            )
        },
        Style::NushellWord => cat(
            seq![
                "\""@,
                name.raw,
                "\""@,
            ],
        ),
        Style::BashWord => name.raw,
        Style::BashCompatWord => if bash_hint(opt.description).len() == 0 {
            name.raw
        } else {
            cat(
                seq![
                    name.raw,
                    ":"@,
                    bash_hint(opt.description),
                ],
            )
        },
    }
}

/// The lines of the first `n` names of the option, names alone left out.
pub open spec fn styled_names(style: Style, path: Seq<Seq<char>>, opt: OptModel, n: int) -> Seq<
    Seq<char>,
>
    decreases n,
{
    if n <= 0 {
        seq![]
    } else if is_alone(opt.names[n - 1].opt_type) {
        styled_names(style, path, opt, n - 1)
    } else {
        styled_names(style, path, opt, n - 1).push(styled(style, path, opt, opt.names[n - 1]))
    }
}

/// The lines of the first `n` options, each with all its names.
pub open spec fn styled_options(
    style: Style,
    path: Seq<Seq<char>>,
    opts: Seq<OptModel>,
    n: int,
) -> Seq<Seq<char>>
    decreases n,
{
    if n <= 0 {
        seq![]
    } else {
        styled_options(style, path, opts, n - 1) + styled_names(
            style,
            path,
            opts[n - 1],
            opts[n - 1].names.len() as int,
        )
    }
}

/// All lines of the given kind for the options of a command.
pub open spec fn all_styled(style: Style, path: Seq<Seq<char>>, opts: Seq<OptModel>) -> Seq<
    Seq<char>,
> {
    styled_options(style, path, opts, opts.len() as int)
}

/// The lines of fish for a command reached by `path` and for all commands
/// below it: the lines of its own options first, then those of each
/// subcommand in turn. The command's name is added to the path.
pub open spec fn fish_lines(c: CommandModel, path: Seq<Seq<char>>) -> Seq<Seq<char>>
    decreases c, 1int, 0int,
{
    all_styled(Style::Fish, path.push(c.name), c.options) + fish_below(
        c,
        path.push(c.name),
        c.subcommands.len() as int,
    )
}

/// The lines of fish for the first `n` subcommands of `c`.
pub open spec fn fish_below(c: CommandModel, path: Seq<Seq<char>>, n: int) -> Seq<Seq<char>>
    decreases c, 0int, n,
{
    if n <= 0 || n > c.subcommands.len() {
        seq![]
    } else {
        fish_below(c, path, n - 1) + fish_lines(c.subcommands[n - 1], path)
    }
}

/// The script of fish for a command.
pub open spec fn fish_script(c: CommandModel) -> Seq<char> {
    script(fish_lines(c, Seq::empty()))
}

/// The lines of zsh before the options.
pub open spec fn zsh_head(c: CommandModel) -> Seq<Seq<char>> {
    seq![
        cat(seq!["#compdef "@, c.name]),
        Seq::<char>::empty(),
        cat(seq!["_"@, c.name, "() {"@]),
        "  local -a options"@,
        Seq::<char>::empty(),
    ]
}

/// The lines of zsh behind the options.
pub open spec fn zsh_foot(c: CommandModel) -> Seq<Seq<char>> {
    seq![
        "  _arguments -s -S $options"@,
        "}"@,
        Seq::<char>::empty(),
        cat(seq!["_"@, c.name, " \"$@\""@]),
    ]
}

/// The script of zsh for a command.
pub open spec fn zsh_script(c: CommandModel) -> Seq<char> {
    script(zsh_head(c) + all_styled(Style::Zsh, Seq::empty(), c.options) + zsh_foot(c))
}

/// The kind of word that bash lists for a name.
pub open spec fn bash_style(compat: bool) -> Style {
    if compat {
        Style::BashCompatWord
    } else {
        Style::BashWord
    }
}

/// The lines of bash before the list of options.
pub open spec fn bash_head(c: CommandModel) -> Seq<Seq<char>> {
    seq![
        cat(seq!["_"@, c.name, "()"@]),
        "{"@,
        "  local cur prev opts"@,
        "  COMPREPLY=()"@,
        "  cur=\"${COMP_WORDS[COMP_CWORD]}\""@,
        "  prev=\"${COMP_WORDS[COMP_CWORD-1]}\""@,
        Seq::<char>::empty(),
    ]
}

/// The line of bash with the list of options: the words for all names, each
/// once, in the dictionary order, with one space between them.
pub open spec fn bash_opts_line(c: CommandModel, compat: bool) -> Seq<char> {
    cat(
        seq![
            "  opts=\""@,
            join(
                sorted_set(all_styled(bash_style(compat), Seq::empty(), c.options), text_order()),
                " "@,
            ),
            "\""@,
        ],
    )
}

/// The lines of bash behind the list of options.
pub open spec fn bash_mid(c: CommandModel) -> Seq<Seq<char>> {
    seq![
        Seq::<char>::empty(),
        "  COMPREPLY=($(compgen -W \"${opts}\" -- ${cur}))"@,
    ]
}

/// The lines of bash between the list of options and the last lines: those
/// that complete the word, and with `compat` those that cut the
/// descriptions off again.
pub open spec fn bash_middle(c: CommandModel, compat: bool) -> Seq<Seq<char>> {
    if compat {
        bash_mid(c) + bash_compat_lines(c)
    } else {
        bash_mid(c)
    }
}

/// The lines of bash that cut the descriptions off again.
pub open spec fn bash_compat_lines(c: CommandModel) -> Seq<Seq<char>> {
    seq![
        "  if type __ltrim_colon_completions &>/dev/null; then"@,
        "    __ltrim_colon_completions \"$cur\""@,
        "  fi"@,
    ]
}

/// The last lines of bash.
pub open spec fn bash_foot(c: CommandModel) -> Seq<Seq<char>> {
    seq![
        "}"@,
        Seq::<char>::empty(),
        cat(seq!["complete -o bashdefault -o default -o nospace -F _"@, c.name, " "@, c.name]),
    ]
}

/// The script of bash for a command; with `compat`, each name is listed
/// with its description, and the script cuts the descriptions off again
/// where the shell offers the function for it.
pub open spec fn bash_script(c: CommandModel, compat: bool) -> Seq<char> {
    script(bash_head(c) + seq![bash_opts_line(c, compat)] + bash_middle(c, compat) + bash_foot(c))
}

/// The lines of elvish before the options.
pub open spec fn elvish_head(c: CommandModel) -> Seq<Seq<char>> {
    seq![
        "use builtin;"@,
        "use str;"@,
        Seq::<char>::empty(),
        cat(seq!["set edit:completion:arg-completer["@, c.name, "] = {|@words|"@]),
        "    fn spaces {|n|"@,
        "        builtin:repeat $n ' ' | str:join ''"@,
        "    }"@,
        "    fn cand {|text desc|"@,
        "        edit:complex-candidate $text &display=$text' '(spaces (- 14 (wcswidth $text)))$desc"@,
        "    }"@,
        cat(seq!["    var command = '"@, c.name, "'"@]),
        "    for word $words[1..-1] {"@,
        "        if (str:has-prefix $word '-') {"@,
        "            break"@,
        "        }"@,
        "        set command = $command';'$word"@,
        "    }"@,
        "    var completions = ["@,
        cat(seq!["        &'"@, c.name, "'= {"@]),
    ]
}

/// The lines of elvish behind the options.
pub open spec fn elvish_foot(c: CommandModel) -> Seq<Seq<char>> {
    seq![
        "        }"@,
        "    ]"@,
        "    $completions[$command]"@,
        "}"@,
    ]
}

/// The script of elvish for a command.
pub open spec fn elvish_script(c: CommandModel) -> Seq<char> {
    script(elvish_head(c) + all_styled(Style::Elvish, Seq::empty(), c.options) + elvish_foot(c))
}

/// The lines of nushell before the list of options.
pub open spec fn nu_head(c: CommandModel) -> Seq<Seq<char>> {
    seq![
        "module completions {"@,
        Seq::<char>::empty(),
        cat(seq!["  # Completions for "@, c.name, " options"@]),
        cat(seq!["  def \"nu-complete "@, c.name, " options\" [] {"@]),
    ]
}

/// The line of nushell with the list of options: the names between double
/// quotes, each once, in the dictionary order.
pub open spec fn nu_list_line(c: CommandModel) -> Seq<char> {
    let listed = sorted_set(all_styled(Style::NushellWord, Seq::empty(), c.options), text_order());
    if listed.len() == 0 {
        "    []"@
    } else {
        cat(seq!["    [ "@, join(listed, " "@), " ]"@])
    }
}

/// The lines of nushell between the list of options and the flags.
pub open spec fn nu_mid(c: CommandModel) -> Seq<Seq<char>> {
    seq![
        "  }"@,
        Seq::<char>::empty(),
        cat(seq!["  export extern "@, c.name, " ["@]),
    ]
}

/// The last lines of nushell.
pub open spec fn nu_foot(c: CommandModel) -> Seq<Seq<char>> {
    seq![
        "  ]"@,
        Seq::<char>::empty(),
        "}"@,
        Seq::<char>::empty(),
        "export use completions *"@,
    ]
}

/// The script of nushell for a command.
pub open spec fn nu_script(c: CommandModel) -> Seq<char> {
    script(
        nu_head(c) + seq![nu_list_line(c)] + nu_mid(c) + all_styled(
            Style::Nushell,
            Seq::empty(),
            c.options,
        ) + nu_foot(c),
    )
}

/// The lines joined by line feeds, as a string.
pub fn script_of(lines: &Vec<Vec<char>>) -> (r: String)
    ensures
        r@ == script(rows(lines@)),
{
    let nl: Vec<char> = vec!['\n'];
    proof {
        assert(rows(lines@).subrange(0, lines@.len() as int) =~= rows(lines@));
        assert(nl@ =~= seq!['\n']);
    }
    let text = join_range(lines, 0, lines.len(), nl.as_slice());
    string_of(text.as_slice())
}

/// The text up to its first full stop.
pub fn first_sentence_of(s: &[char]) -> (r: Vec<char>)
    ensures
        r@ == first_sentence(s@),
{
    let n = run_from(s, 0, CharClass::Until('.'));
    proof {
        assert(s@.skip(0) =~= s@);
        assert(s@.take(n as int) =~= s@.subrange(0, n as int));
    }
    copy_range(s, 0, n)
}

/// The text without the dashes in front of it.
pub fn without_dashes_of(s: &[char]) -> (r: Vec<char>)
    ensures
        r@ == without_dashes(s@),
{
    let n = run_from(s, 0, CharClass::Only('-'));
    proof {
        assert(s@.skip(0) =~= s@);
        assert(s@.skip(n as int) =~= s@.subrange(n as int, s@.len() as int));
    }
    copy_range(s, n, s.len())
}

/// The text with `with` in place of each `c`.
pub fn replace_char(s: &[char], c: char, with: &[char]) -> (r: Vec<char>)
    ensures
        r@ == replaced(s@, c, with@),
{
    let mut out: Vec<char> = Vec::new();
    let mut i: usize = 0;
    proof {
        assert(s@.take(0) =~= Seq::<char>::empty());
    }
    while i < s.len()
        invariant
            i <= s@.len(),
            out@ == replaced(s@.take(i as int), c, with@),
        decreases s@.len() - i,
    {
        proof {
            assert(s@.take(i + 1).drop_last() =~= s@.take(i as int));
            assert(s@.take(i + 1).last() == s@[i as int]);
        }
        if s[i] == c {
            push_all(&mut out, with);
        } else {
            out.push(s[i]);
        }
        i += 1;
    }
    proof {
        assert(s@.take(s@.len() as int) =~= s@);
    }
    out
}

/// Whether a name is left out of every script.
pub fn is_alone_type(t: OptNameType) -> (r: bool)
    ensures
        r == is_alone(t),
{
    match t {
        OptNameType::SingleDashAlone => true,
        OptNameType::DoubleDashAlone => true,
        _ => false,
    }
}

/// The description as bash shows it behind a name.
pub fn bash_hint_of(description: &[char]) -> (r: Vec<char>)
    ensures
        r@ == bash_hint(description@),
{
    let sentence = first_sentence_of(description);
    let ws = words_of(sentence.as_slice());
    let underscore = chars_of("_");
    proof {
        assert(rows(ws@).subrange(0, ws@.len() as int) =~= rows(ws@));
    }
    let joined = join_range(&ws, 0, ws.len(), underscore.as_slice());
    replace_char(joined.as_slice(), ':', underscore.as_slice())
}

impl FishGenerator {
    /// Whether the name is left out: a dash or two dashes alone.
    pub fn should_skip_option(name: &OptName) -> (r: bool)
        ensures
            r == is_alone(name@.opt_type),
    {
        is_alone_type(name.opt_type)
    }

    /// The flag by which fish tells the kinds of names apart: `-l` for a long
    /// name, `-s` for a short one, `-o` for one of the old kind, and nothing
    /// for the others.
    pub fn opt_type_to_flag(opt_type: OptNameType) -> (r: String)
        ensures
            r@ == fish_flag(opt_type),
    {
        match opt_type {
            OptNameType::LongType => "-l".to_owned(),
            OptNameType::ShortType => "-s".to_owned(),
            OptNameType::OldType => "-o".to_owned(),
            _ => String::new(),
        }
    }

    /// The flag by which fish learns what the option takes: nothing where it
    /// has no argument, `-r` where it takes a file, `-x` otherwise.
    pub fn opt_arg_to_flag(opt: &Opt) -> (r: &'static str)
        ensures
            r@ == fish_arg_flag(opt@),
    {
        let arg = chars_of(opt.argument.as_str());
        let desc = chars_of(opt.description.as_str());
        let file = chars_of("file");
        let dir = chars_of("dir");
        let path = chars_of("path");
        let archive = chars_of("archive");
        if arg.len() == 0 {
            proof {
                reveal_strlit("");
                assert(""@ =~= Seq::<char>::empty());
            }
            ""
        } else if has_folded(arg.as_slice(), file.as_slice()) || has_folded(
            arg.as_slice(),
            dir.as_slice(),
        ) || has_folded(arg.as_slice(), path.as_slice()) || has_folded(
            arg.as_slice(),
            archive.as_slice(),
        ) || has_folded(desc.as_slice(), file.as_slice()) || has_folded(
            desc.as_slice(),
            dir.as_slice(),
        ) || has_folded(desc.as_slice(), path.as_slice()) {
            "-r"
        } else {
            "-x"
        }
    }

    /// The text up to its first full stop; the whole text where it has none.
    pub fn truncate_after_period(line: &str) -> (r: String)
        ensures
            r@ == first_sentence(line@),
    {
        let chars = chars_of(line);
        let sentence = first_sentence_of(chars.as_slice());
        string_of(sentence.as_slice())
    }

    /// The `complete` line for the name at place `k` of the option, in a
    /// command reached by `path`.
    fn make_option_line(path: &Vec<Vec<char>>, opt: &Opt, k: usize) -> (r: Vec<char>)
        requires
            k < opt.names@.len(),
        ensures
            r@ == styled(Style::Fish, rows(path@), opt@, opt@.names[k as int]),
    {
        styled_line(Style::Fish, path, opt, k)
    }

    /// The `complete` lines for the options of a command reached by `path`.
    fn option_lines(path: &Vec<Vec<char>>, options: &Vec<Opt>) -> (r: Vec<Vec<char>>)
        ensures
            rows(r@) == all_styled(Style::Fish, rows(path@), opt_models(options@)),
    {
        let mut out: Vec<Vec<char>> = Vec::new();
        let ghost opts = opt_models(options@);
        let ghost way = rows(path@);
        let mut i: usize = 0;
        proof {
            assert(rows(out@) =~= Seq::<Seq<char>>::empty());
        }
        while i < options.len()
            invariant
                i <= options@.len(),
                opts == opt_models(options@),
                way == rows(path@),
                rows(out@) == styled_options(Style::Fish, way, opts, i as int),
            decreases options@.len() - i,
        {
            let opt = &options[i];
            let ghost base = rows(out@);
            let mut k: usize = 0;
            proof {
                assert(opts[i as int] == opt@);
                assert(opt@.names.len() == opt.names@.len());
                assert(base + Seq::<Seq<char>>::empty() =~= base);
            }
            while k < opt.names.len()
                invariant
                    k <= opt.names@.len(),
                    way == rows(path@),
                    opt@.names.len() == opt.names@.len(),
                    rows(out@) == base + styled_names(Style::Fish, way, opt@, k as int),
                decreases opt.names@.len() - k,
            {
                proof {
                    assert(opt@.names[k as int] == opt.names@[k as int]@);
                }
                if !Self::should_skip_option(&opt.names[k]) {
                    let line = Self::make_option_line(path, opt, k);
                    let ghost prev = rows(out@);
                    out.push(line);
                    proof {
                        assert(rows(out@) =~= prev.push(line@));
                        assert(base + styled_names(Style::Fish, way, opt@, k as int).push(line@)
                            =~= (base + styled_names(Style::Fish, way, opt@, k as int)).push(
                            line@,
                        ));
                    }
                }
                k += 1;
            }
            i += 1;
        }
        out
    }

    /// Appends the lines of fish for `cmd`, reached by `path`, and for all
    /// commands below it.
    pub fn generate_rec(lines: &mut Vec<Vec<char>>, path: &Vec<Vec<char>>, cmd: &Command)
        ensures
            rows(final(lines)@) == rows(old(lines)@) + fish_lines(cmd@, rows(path@)),
        decreases cmd,
    {
        let ghost before = rows(lines@);
        let mut current_path: Vec<Vec<char>> = Vec::new();
        let mut p: usize = 0;
        while p < path.len()
            invariant
                p <= path@.len(),
                rows(current_path@) == rows(path@).take(p as int),
            decreases path@.len() - p,
        {
            let part = copy_range(path[p].as_slice(), 0, path[p].len());
            let ghost prev = rows(current_path@);
            current_path.push(part);
            proof {
                assert(part@ =~= path@[p as int]@);
                assert(rows(current_path@) =~= prev.push(part@));
                assert(rows(path@).take(p + 1) =~= rows(path@).take(p as int).push(path@[p as int]@));
            }
            p += 1;
        }
        let name = chars_of(cmd.name.as_str());
        current_path.push(name);
        proof {
            assert(rows(path@).take(path@.len() as int) =~= rows(path@));
            assert(rows(current_path@) =~= rows(path@).push(cmd@.name));
        }
        let mut own = Self::option_lines(&current_path, &cmd.options);
        let ghost own_rows = rows(own@);
        lines.append(&mut own);
        proof {
            assert(rows(lines@) =~= before + own_rows);
        }
        let ghost full = rows(current_path@);
        let mut i: usize = 0;
        while i < cmd.subcommands.len()
            invariant
                i <= cmd.subcommands@.len(),
                full == rows(current_path@),
                rows(lines@) == before + own_rows + fish_below(cmd@, full, i as int),
            decreases cmd.subcommands@.len() - i,
        {
            proof {
                assert(cmd@.subcommands[i as int] == cmd.subcommands@[i as int]@);
            }
            assert(decreases_to!(cmd => cmd.subcommands@[i as int]));
            Self::generate_rec(lines, &current_path, &cmd.subcommands[i]);
            proof {
                assert(rows(lines@) =~= before + own_rows + fish_below(cmd@, full, i + 1));
            }
            i += 1;
        }
    }

    /// The script of fish for `cmd`: a `complete` line for every name of
    /// every option of the command and of all commands below it (names that
    /// are a dash or two dashes alone left out), the lines joined by line
    /// feeds.
    pub fn generate(cmd: &Command) -> (r: String)
        ensures
            r@ == fish_script(cmd@),
    {
        let mut lines: Vec<Vec<char>> = Vec::new();
        let path: Vec<Vec<char>> = Vec::new();
        proof {
            assert(rows(path@) =~= Seq::<Seq<char>>::empty());
            assert(rows(lines@) =~= Seq::<Seq<char>>::empty());
        }
        Self::generate_rec(&mut lines, &path, cmd);
        proof {
            assert(rows(lines@) =~= fish_lines(cmd@, Seq::empty()));
        }
        script_of(&lines)
    }
}

/// The line or word of the given kind for the name at place `k` of the
/// option.
fn styled_line(style: Style, path: &Vec<Vec<char>>, opt: &Opt, k: usize) -> (r: Vec<char>)
    requires
        k < opt.names@.len(),
    ensures
        r@ == styled(style, rows(path@), opt@, opt@.names[k as int]),
{
    let raw = chars_of(opt.names[k].raw.as_str());
    let name_type = opt.names[k].opt_type;
    let ghost raw_view = raw@;
    proof {
        assert(opt@.names[k as int] == opt.names@[k as int]@);
    }
    let desc = chars_of(opt.description.as_str());
    let arg = chars_of(opt.argument.as_str());
    match style {
        Style::Fish => {
            let underscore = chars_of("_");
            proof {
                assert(rows(path@).subrange(0, path@.len() as int) =~= rows(path@));
            }
            let path_text = join_range(path, 0, path.len(), underscore.as_slice());
            let flag = chars_of(FishGenerator::opt_type_to_flag(name_type).as_str());
            let dashless = without_dashes_of(raw.as_slice());
            let arg_flag = chars_of(FishGenerator::opt_arg_to_flag(opt));
            let sentence = first_sentence_of(desc.as_slice());
            let quote = chars_of("\\'");
            let escaped = replace_char(sentence.as_slice(), '\'', quote.as_slice());
            let mut parts: Vec<Vec<char>> = Vec::new();
            parts.push(chars_of("complete -c "));
            parts.push(path_text);
            parts.push(chars_of(" "));
            parts.push(flag);
            parts.push(chars_of(" "));
            parts.push(chars_of("'"));
            parts.push(dashless);
            parts.push(chars_of("'"));
            parts.push(chars_of(" "));
            parts.push(arg_flag);
            parts.push(chars_of(" -d '"));
            parts.push(escaped);
            parts.push(chars_of("'"));
            proof {
                assert(rows(parts@) =~= seq![
                    "complete -c "@,
                    join(rows(path@), "_"@),
                    " "@,
                    fish_flag(name_type),
                    " "@,
                    "'"@,
                    without_dashes(raw@),
                    "'"@,
                    " "@,
                    fish_arg_flag(opt@),
                    " -d '"@,
                    replaced(first_sentence(opt@.description), '\'', "\\'"@),
                    "'"@,
                ]);
            }
            cat_of(&parts)
        },
        Style::Zsh => {
            let sentence = first_sentence_of(desc.as_slice());
            if arg.len() == 0 {
                let mut parts: Vec<Vec<char>> = Vec::new();
                parts.push(chars_of("  options+=("));
                parts.push(chars_of("'"));
                parts.push(raw);
                parts.push(chars_of("["));
                parts.push(sentence);
                parts.push(chars_of("]'"));
                parts.push(chars_of(")"));
                proof {
                    assert(rows(parts@) =~= seq![
                        "  options+=("@,
                        "'"@,
                        raw_view,
                        "["@,
                        first_sentence(opt@.description),
                        "]'"@,
                        ")"@,
                    ]);
                }
                cat_of(&parts)
            } else {
                let mut parts: Vec<Vec<char>> = Vec::new();
                parts.push(chars_of("  options+=("));
                parts.push(chars_of("'"));
                parts.push(raw);
                parts.push(chars_of("["));
                parts.push(arg);
                parts.push(chars_of(" "));
                parts.push(sentence);
                parts.push(chars_of("]'"));
                parts.push(chars_of(")"));
                proof {
                    assert(rows(parts@) =~= seq![
                        "  options+=("@,
                        "'"@,
                        raw_view,
                        "["@,
                        opt@.argument,
                        " "@,
                        first_sentence(opt@.description),
                        "]'"@,
                        ")"@,
                    ]);
                }
                cat_of(&parts)
            }
        },
        Style::Elvish => {
            let sentence = first_sentence_of(desc.as_slice());
            let none: Vec<char> = Vec::new();
            proof {
                assert(none@ =~= Seq::<char>::empty());
            }
            let unquoted = replace_char(sentence.as_slice(), '\'', none.as_slice());
            let mut parts: Vec<Vec<char>> = Vec::new();
            parts.push(chars_of("            cand "));
            parts.push(raw);
            parts.push(chars_of(" '"));
            parts.push(unquoted);
            parts.push(chars_of("'"));
            proof {
                assert(rows(parts@) =~= seq![
                    "            cand "@,
                    raw_view,
                    " '"@,
                    replaced(first_sentence(opt@.description), '\'', Seq::<char>::empty()),
                    "'"@,
                ]);
            }
            cat_of(&parts)
        },
        Style::Nushell => {
            let sentence = first_sentence_of(desc.as_slice());
            if arg.len() == 0 {
                let mut parts: Vec<Vec<char>> = Vec::new();
                parts.push(chars_of("    "));
                parts.push(raw);
                parts.push(chars_of(" # "));
                parts.push(sentence);
                proof {
                    assert(rows(parts@) =~= seq![
                        "    "@,
                        raw_view,
                        " # "@,
                        first_sentence(opt@.description),
                    ]);
                }
                cat_of(&parts)
            } else {
                let mut parts: Vec<Vec<char>> = Vec::new();
                parts.push(chars_of("    "));
                parts.push(raw);
                parts.push(chars_of(": string  # "));
                parts.push(arg);
                parts.push(chars_of(" # "));
                parts.push(sentence);
                proof {
                    assert(rows(parts@) =~= seq![
                        "    "@,
                        raw_view,
                        ": string  # "@,
                        opt@.argument,
                        " # "@,
                        first_sentence(opt@.description),
                    ]);
                }
                cat_of(&parts)
            }
        },
        Style::NushellWord => {
            let mut parts: Vec<Vec<char>> = Vec::new();
            parts.push(chars_of("\""));
            parts.push(raw);
            parts.push(chars_of("\""));
            proof {
                assert(rows(parts@) =~= seq![
                    "\""@,
                    raw_view,
                    "\""@,
                ]);
            }
            cat_of(&parts)
        },
        Style::BashWord => raw,
        Style::BashCompatWord => {
            let hint = bash_hint_of(desc.as_slice());
            if hint.len() == 0 {
                raw
            } else {
                let mut parts: Vec<Vec<char>> = Vec::new();
                parts.push(raw);
                parts.push(chars_of(":"));
                parts.push(hint);
                proof {
                    assert(rows(parts@) =~= seq![
                        raw_view,
                        ":"@,
                        bash_hint(opt@.description),
                    ]);
                }
                cat_of(&parts)
            }
        },
    }
}

/// All lines of the given kind for the options.
pub fn styled_lines(style: Style, path: &Vec<Vec<char>>, options: &Vec<Opt>) -> (r: Vec<Vec<char>>)
    ensures
        rows(r@) == all_styled(style, rows(path@), opt_models(options@)),
{
    let mut out: Vec<Vec<char>> = Vec::new();
    let ghost opts = opt_models(options@);
    let ghost way = rows(path@);
    let mut i: usize = 0;
    proof {
        assert(rows(out@) =~= Seq::<Seq<char>>::empty());
    }
    while i < options.len()
        invariant
            i <= options@.len(),
            opts == opt_models(options@),
            way == rows(path@),
            rows(out@) == styled_options(style, way, opts, i as int),
        decreases options@.len() - i,
    {
        let opt = &options[i];
        let ghost base = rows(out@);
        let mut k: usize = 0;
        proof {
            assert(opts[i as int] == opt@);
            assert(opt@.names.len() == opt.names@.len());
            assert(base + Seq::<Seq<char>>::empty() =~= base);
        }
        while k < opt.names.len()
            invariant
                k <= opt.names@.len(),
                way == rows(path@),
                opt@.names.len() == opt.names@.len(),
                rows(out@) == base + styled_names(style, way, opt@, k as int),
            decreases opt.names@.len() - k,
        {
            proof {
                assert(opt@.names[k as int] == opt.names@[k as int]@);
            }
            if !is_alone_type(opt.names[k].opt_type) {
                let line = styled_line(style, path, opt, k);
                let ghost prev = rows(out@);
                out.push(line);
                proof {
                    assert(rows(out@) =~= prev.push(line@));
                    assert(base + styled_names(style, way, opt@, k as int).push(line@) =~= (base
                        + styled_names(style, way, opt@, k as int)).push(line@));
                }
            }
            k += 1;
        }
        i += 1;
    }
    out
}

impl ZshGenerator {
    /// The text up to its first full stop; the whole text where it has none.
    pub fn truncate_after_period(line: &str) -> (r: String)
        ensures
            r@ == first_sentence(line@),
    {
        FishGenerator::truncate_after_period(line)
    }

    /// The `options+=` lines for the names of one option.
    pub fn generate_opt(opt: &Opt) -> (r: Vec<String>)
        ensures
            texts(r@) == styled_names(
                Style::Zsh,
                Seq::empty(),
                opt@,
                opt@.names.len() as int,
            ),
    {
        let path: Vec<Vec<char>> = Vec::new();
        let mut out: Vec<String> = Vec::new();
        let mut k: usize = 0;
        proof {
            assert(rows(path@) =~= Seq::<Seq<char>>::empty());
            assert(texts(out@) =~= Seq::<Seq<char>>::empty());
        }
        while k < opt.names.len()
            invariant
                k <= opt.names@.len(),
                opt@.names.len() == opt.names@.len(),
                rows(path@) == Seq::<Seq<char>>::empty(),
                texts(out@) == styled_names(Style::Zsh, Seq::empty(), opt@, k as int),
            decreases opt.names@.len() - k,
        {
            proof {
                assert(opt@.names[k as int] == opt.names@[k as int]@);
            }
            if !is_alone_type(opt.names[k].opt_type) {
                let line = string_of(styled_line(Style::Zsh, &path, opt, k).as_slice());
                let ghost prev = texts(out@);
                out.push(line);
                proof {
                    assert(texts(out@) =~= prev.push(line@));
                }
            }
            k += 1;
        }
        out
    }

    /// The script of zsh for `cmd`: the head, an `options+=` line for every
    /// name of every option (names that are a dash or two dashes alone left
    /// out), and the foot; the lines joined by line feeds.
    pub fn generate(cmd: &Command) -> (r: String)
        ensures
            r@ == zsh_script(cmd@),
    {
        let name = chars_of(cmd.name.as_str());
        let path: Vec<Vec<char>> = Vec::new();
        proof {
            assert(rows(path@) =~= Seq::<Seq<char>>::empty());
        }
        let mut lines: Vec<Vec<char>> = Vec::new();
        let mut piece0: Vec<Vec<char>> = Vec::new();
        piece0.push(chars_of("#compdef "));
        piece0.push(name.clone());
        proof {
            assert(rows(piece0@) =~= seq!["#compdef "@, name@]);
        }
        lines.push(cat_of(&piece0));
        lines.push(Vec::new());
        let mut piece1: Vec<Vec<char>> = Vec::new();
        piece1.push(chars_of("_"));
        piece1.push(name.clone());
        piece1.push(chars_of("() {"));
        proof {
            assert(rows(piece1@) =~= seq!["_"@, name@, "() {"@]);
        }
        lines.push(cat_of(&piece1));
        lines.push(chars_of("  local -a options"));
        lines.push(Vec::new());
        proof {
            assert(rows(lines@) =~= zsh_head(cmd@));
        }
        let mut body = styled_lines(Style::Zsh, &path, &cmd.options);
        let ghost body_rows = rows(body@);
        lines.append(&mut body);
        proof {
            assert(rows(lines@) =~= zsh_head(cmd@) + body_rows);
        }
        let mut foot = zsh_foot_of(&name, Ghost(cmd@));
        lines.append(&mut foot);
        proof {
            assert(rows(lines@) =~= zsh_head(cmd@) + body_rows + zsh_foot(cmd@));
        }
        script_of(&lines)
    }
}

/// The lines of zsh behind the options.
fn zsh_foot_of(name: &Vec<char>, Ghost(c): Ghost<CommandModel>) -> (lines: Vec<Vec<char>>)
    requires
        name@ == c.name,
    ensures
        rows(lines@) == zsh_foot(c),
{
    let mut lines: Vec<Vec<char>> = Vec::new();
    lines.push(chars_of("  _arguments -s -S $options"));
    lines.push(chars_of("}"));
    lines.push(Vec::new());
    let mut piece0: Vec<Vec<char>> = Vec::new();
    piece0.push(chars_of("_"));
    piece0.push(name.clone());
    piece0.push(chars_of(" \"$@\""));
    proof {
        assert(rows(piece0@) =~= seq!["_"@, name@, " \"$@\""@]);
    }
    lines.push(cat_of(&piece0));
    proof {
        assert(rows(lines@) =~= zsh_foot(c));
    }
    lines
}

/// The last lines of bash.
fn bash_foot_of(name: &Vec<char>, Ghost(c): Ghost<CommandModel>) -> (lines: Vec<Vec<char>>)
    requires
        name@ == c.name,
    ensures
        rows(lines@) == bash_foot(c),
{
    let mut lines: Vec<Vec<char>> = Vec::new();
    lines.push(chars_of("}"));
    lines.push(Vec::new());
    let mut piece0: Vec<Vec<char>> = Vec::new();
    piece0.push(chars_of("complete -o bashdefault -o default -o nospace -F _"));
    piece0.push(name.clone());
    piece0.push(chars_of(" "));
    piece0.push(name.clone());
    proof {
        assert(rows(piece0@) =~= seq!["complete -o bashdefault -o default -o nospace -F _"@, name@, " "@, name@]);
    }
    lines.push(cat_of(&piece0));
    proof {
        assert(rows(lines@) =~= bash_foot(c));
    }
    lines
}

/// The lines of bash between the list of options and the last lines.
fn bash_middle_of(compat: bool, Ghost(c): Ghost<CommandModel>) -> (lines: Vec<Vec<char>>)
    ensures
        rows(lines@) == bash_middle(c, compat),
{
    let mut lines: Vec<Vec<char>> = Vec::new();
    lines.push(Vec::new());
    lines.push(chars_of("  COMPREPLY=($(compgen -W \"${opts}\" -- ${cur}))"));
    proof {
        assert(rows(lines@) =~= bash_mid(c));
    }
    if compat {
        lines.push(chars_of("  if type __ltrim_colon_completions &>/dev/null; then"));
        lines.push(chars_of("    __ltrim_colon_completions \"$cur\""));
        lines.push(chars_of("  fi"));
        proof {
            assert(rows(lines@) =~= bash_mid(c) + bash_compat_lines(c));
        }
    }
    lines
}

impl BashGenerator {
    /// The script of bash for `cmd`, the names listed without descriptions.
    pub fn generate(cmd: &Command) -> (r: String)
        ensures
            r@ == bash_script(cmd@, false),
    {
        Self::generate_with_compat(cmd, false)
    }

    /// The script of bash for `cmd`: the head, the line that lists the words
    /// for all names (each once, in the dictionary order; names that are a
    /// dash or two dashes alone left out), and the foot; the lines joined by
    /// line feeds. With `bash_completion_compat`, each name is listed with
    /// its description, and three more lines cut the descriptions off
    /// again.
    pub fn generate_with_compat(cmd: &Command, bash_completion_compat: bool) -> (r: String)
        ensures
            r@ == bash_script(cmd@, bash_completion_compat),
    {
        let name = chars_of(cmd.name.as_str());
        let path: Vec<Vec<char>> = Vec::new();
        proof {
            assert(rows(path@) =~= Seq::<Seq<char>>::empty());
        }
        let mut lines: Vec<Vec<char>> = Vec::new();
        let mut piece0: Vec<Vec<char>> = Vec::new();
        piece0.push(chars_of("_"));
        piece0.push(name.clone());
        piece0.push(chars_of("()"));
        proof {
            assert(rows(piece0@) =~= seq!["_"@, name@, "()"@]);
        }
        lines.push(cat_of(&piece0));
        lines.push(chars_of("{"));
        lines.push(chars_of("  local cur prev opts"));
        lines.push(chars_of("  COMPREPLY=()"));
        lines.push(chars_of("  cur=\"${COMP_WORDS[COMP_CWORD]}\""));
        lines.push(chars_of("  prev=\"${COMP_WORDS[COMP_CWORD-1]}\""));
        lines.push(Vec::new());
        proof {
            assert(rows(lines@) =~= bash_head(cmd@));
        }
        let style = if bash_completion_compat {
            Style::BashCompatWord
        } else {
            Style::BashWord
        };
        let all_opts = sorted_texts(styled_lines(style, &path, &cmd.options));
        let space = chars_of(" ");
        proof {
            assert(rows(all_opts@).subrange(0, all_opts@.len() as int) =~= rows(all_opts@));
        }
        let listed = join_range(&all_opts, 0, all_opts.len(), space.as_slice());
        let mut piece: Vec<Vec<char>> = Vec::new();
        piece.push(chars_of("  opts=\""));
        piece.push(listed);
        piece.push(chars_of("\""));
        proof {
            assert(rows(piece@) =~= seq![
                "  opts=\""@,
                join(
                    sorted_set(
                        all_styled(bash_style(bash_completion_compat), Seq::empty(), cmd@.options),
                        text_order(),
                    ),
                    " "@,
                ),
                "\""@,
            ]);
        }
        let opts_line = cat_of(&piece);
        lines.push(opts_line);
        proof {
            assert(rows(lines@) =~= bash_head(cmd@) + seq![
                bash_opts_line(cmd@, bash_completion_compat),
            ]);
        }
        let mut middle = bash_middle_of(bash_completion_compat, Ghost(cmd@));
        let ghost middle_rows = rows(middle@);
        lines.append(&mut middle);
        proof {
            assert(rows(lines@) =~= bash_head(cmd@) + seq![
                bash_opts_line(cmd@, bash_completion_compat),
            ] + middle_rows);
        }
        let mut foot = bash_foot_of(&name, Ghost(cmd@));
        lines.append(&mut foot);
        proof {
            assert(rows(lines@) =~= bash_head(cmd@) + seq![
                bash_opts_line(cmd@, bash_completion_compat),
            ] + bash_middle(cmd@, bash_completion_compat) + bash_foot(cmd@));
        }
        script_of(&lines)
    }
}

/// The lines of elvish before the options.
fn elvish_head_of(name: &Vec<char>, Ghost(cmd): Ghost<CommandModel>) -> (lines: Vec<Vec<char>>)
    requires
        name@ == cmd.name,
    ensures
        rows(lines@) == elvish_head(cmd),
{
    let mut lines: Vec<Vec<char>> = Vec::new();
    lines.push(chars_of("use builtin;"));
    lines.push(chars_of("use str;"));
    lines.push(Vec::new());
    let mut piece0: Vec<Vec<char>> = Vec::new();
    piece0.push(chars_of("set edit:completion:arg-completer["));
    piece0.push(name.clone());
    piece0.push(chars_of("] = {|@words|"));
    proof {
        assert(rows(piece0@) =~= seq!["set edit:completion:arg-completer["@, name@, "] = {|@words|"@]);
    }
    lines.push(cat_of(&piece0));
    lines.push(chars_of("    fn spaces {|n|"));
    lines.push(chars_of("        builtin:repeat $n ' ' | str:join ''"));
    lines.push(chars_of("    }"));
    lines.push(chars_of("    fn cand {|text desc|"));
    lines.push(chars_of("        edit:complex-candidate $text &display=$text' '(spaces (- 14 (wcswidth $text)))$desc"));
    lines.push(chars_of("    }"));
    let mut piece1: Vec<Vec<char>> = Vec::new();
    piece1.push(chars_of("    var command = '"));
    piece1.push(name.clone());
    piece1.push(chars_of("'"));
    proof {
        assert(rows(piece1@) =~= seq!["    var command = '"@, name@, "'"@]);
    }
    lines.push(cat_of(&piece1));
    lines.push(chars_of("    for word $words[1..-1] {"));
    lines.push(chars_of("        if (str:has-prefix $word '-') {"));
    lines.push(chars_of("            break"));
    lines.push(chars_of("        }"));
    lines.push(chars_of("        set command = $command';'$word"));
    lines.push(chars_of("    }"));
    lines.push(chars_of("    var completions = ["));
    let mut piece2: Vec<Vec<char>> = Vec::new();
    piece2.push(chars_of("        &'"));
    piece2.push(name.clone());
    piece2.push(chars_of("'= {"));
    proof {
        assert(rows(piece2@) =~= seq!["        &'"@, name@, "'= {"@]);
    }
    lines.push(cat_of(&piece2));
    proof {
        assert(rows(lines@) =~= elvish_head(cmd));
    }
    lines
}

/// The lines of elvish behind the options.
fn elvish_foot_of(Ghost(c): Ghost<CommandModel>) -> (lines: Vec<Vec<char>>)
    ensures
        rows(lines@) == elvish_foot(c),
{
    let mut lines: Vec<Vec<char>> = Vec::new();
    lines.push(chars_of("        }"));
    lines.push(chars_of("    ]"));
    lines.push(chars_of("    $completions[$command]"));
    lines.push(chars_of("}"));
    proof {
        assert(rows(lines@) =~= elvish_foot(c));
    }
    lines
}

impl ElvishGenerator {
    /// The script of elvish for `cmd`: the head, a `cand` line for every name
    /// of every option (names that are a dash or two dashes alone left out),
    /// and the foot; the lines joined by line feeds.
    pub fn generate(cmd: &Command) -> (r: String)
        ensures
            r@ == elvish_script(cmd@),
    {
        let name = chars_of(cmd.name.as_str());
        let path: Vec<Vec<char>> = Vec::new();
        proof {
            assert(rows(path@) =~= Seq::<Seq<char>>::empty());
        }
        let mut lines = elvish_head_of(&name, Ghost(cmd@));
        let mut body = styled_lines(Style::Elvish, &path, &cmd.options);
        let ghost body_rows = rows(body@);
        lines.append(&mut body);
        proof {
            assert(rows(lines@) =~= elvish_head(cmd@) + body_rows);
        }
        let mut foot = elvish_foot_of(Ghost(cmd@));
        lines.append(&mut foot);
        proof {
            assert(rows(lines@) =~= elvish_head(cmd@) + body_rows + elvish_foot(cmd@));
        }
        script_of(&lines)
    }
}

/// The lines of nushell before the list of options.
fn nu_head_of(name: &Vec<char>, Ghost(cmd): Ghost<CommandModel>) -> (lines: Vec<Vec<char>>)
    requires
        name@ == cmd.name,
    ensures
        rows(lines@) == nu_head(cmd),
{
    let mut lines: Vec<Vec<char>> = Vec::new();
    lines.push(chars_of("module completions {"));
    lines.push(Vec::new());
    let mut piece0: Vec<Vec<char>> = Vec::new();
    piece0.push(chars_of("  # Completions for "));
    piece0.push(name.clone());
    piece0.push(chars_of(" options"));
    proof {
        assert(rows(piece0@) =~= seq!["  # Completions for "@, name@, " options"@]);
    }
    lines.push(cat_of(&piece0));
    let mut piece1: Vec<Vec<char>> = Vec::new();
    piece1.push(chars_of("  def \"nu-complete "));
    piece1.push(name.clone());
    piece1.push(chars_of(" options\" [] {"));
    proof {
        assert(rows(piece1@) =~= seq!["  def \"nu-complete "@, name@, " options\" [] {"@]);
    }
    lines.push(cat_of(&piece1));
    proof {
        assert(rows(lines@) =~= nu_head(cmd));
    }
    lines
}

/// The lines of nushell between the list of options and the flags.
fn nu_mid_of(name: &Vec<char>, Ghost(cmd): Ghost<CommandModel>) -> (lines: Vec<Vec<char>>)
    requires
        name@ == cmd.name,
    ensures
        rows(lines@) == nu_mid(cmd),
{
    let mut lines: Vec<Vec<char>> = Vec::new();
    lines.push(chars_of("  }"));
    lines.push(Vec::new());
    let mut piece0: Vec<Vec<char>> = Vec::new();
    piece0.push(chars_of("  export extern "));
    piece0.push(name.clone());
    piece0.push(chars_of(" ["));
    proof {
        assert(rows(piece0@) =~= seq!["  export extern "@, name@, " ["@]);
    }
    lines.push(cat_of(&piece0));
    proof {
        assert(rows(lines@) =~= nu_mid(cmd));
    }
    lines
}

/// The last lines of nushell.
fn nu_foot_of(Ghost(c): Ghost<CommandModel>) -> (lines: Vec<Vec<char>>)
    ensures
        rows(lines@) == nu_foot(c),
{
    let mut lines: Vec<Vec<char>> = Vec::new();
    lines.push(chars_of("  ]"));
    lines.push(Vec::new());
    lines.push(chars_of("}"));
    lines.push(Vec::new());
    lines.push(chars_of("export use completions *"));
    proof {
        assert(rows(lines@) =~= nu_foot(c));
    }
    lines
}

impl NushellGenerator {
    /// The script of nushell for `cmd`: the head, the line that lists the
    /// names between double quotes (each once, in the dictionary order), a
    /// flag line for every name of every option, and the foot; names that
    /// are a dash or two dashes alone left out, the lines joined by line
    /// feeds.
    pub fn generate(cmd: &Command) -> (r: String)
        ensures
            r@ == nu_script(cmd@),
    {
        let name = chars_of(cmd.name.as_str());
        let path: Vec<Vec<char>> = Vec::new();
        proof {
            assert(rows(path@) =~= Seq::<Seq<char>>::empty());
        }
        let mut lines = nu_head_of(&name, Ghost(cmd@));
        let all_opts = sorted_texts(styled_lines(Style::NushellWord, &path, &cmd.options));
        let list_line = if all_opts.len() == 0 {
            chars_of("    []")
        } else {
            let space = chars_of(" ");
            proof {
                assert(rows(all_opts@).subrange(0, all_opts@.len() as int) =~= rows(all_opts@));
            }
            let joined = join_range(&all_opts, 0, all_opts.len(), space.as_slice());
            let mut piece: Vec<Vec<char>> = Vec::new();
            piece.push(chars_of("    [ "));
            piece.push(joined);
            piece.push(chars_of(" ]"));
            proof {
                assert(rows(piece@) =~= seq!["    [ "@, join(rows(all_opts@), " "@), " ]"@]);
            }
            cat_of(&piece)
        };
        lines.push(list_line);
        proof {
            assert(rows(lines@) =~= nu_head(cmd@) + seq![nu_list_line(cmd@)]);
        }
        let mut middle = nu_mid_of(&name, Ghost(cmd@));
        lines.append(&mut middle);
        let mut body = styled_lines(Style::Nushell, &path, &cmd.options);
        let ghost body_rows = rows(body@);
        lines.append(&mut body);
        proof {
            assert(rows(lines@) =~= nu_head(cmd@) + seq![nu_list_line(cmd@)] + nu_mid(cmd@)
                + body_rows);
        }
        let mut foot = nu_foot_of(Ghost(cmd@));
        lines.append(&mut foot);
        proof {
            assert(rows(lines@) =~= nu_head(cmd@) + seq![nu_list_line(cmd@)] + nu_mid(cmd@)
                + body_rows + nu_foot(cmd@));
        }
        script_of(&lines)
    }
}

} // verus!
