//! The completion scripts and the plain view against the same templates
//! written with `format!`, on generated commands.

use std::collections::BTreeSet;

use hcl::types::{Command, Opt, OptName, OptNameType};
use hcl::{
    format_native, BashGenerator, ElvishGenerator, FishGenerator, IoHandler, NushellGenerator,
    Postprocessor, ZshGenerator,
};

const WORDS: &[&str] = &[
    "", "file", "FILE", "Dir", "path", "ARCHIVE", "N", "be verbose", "Read a FILE. Then stop.",
    "it's here", "mode: fast", "a  b\tc.d", "the Path to it", "archive it", "x", "caf\u{e9}.",
    "'", ".", ":", "d\u{130}r", "\u{212A}ey",
];

const NAMES: &[(&str, OptNameType)] = &[
    ("-v", OptNameType::ShortType),
    ("--verbose", OptNameType::LongType),
    ("-name", OptNameType::OldType),
    ("--", OptNameType::DoubleDashAlone),
    ("-", OptNameType::SingleDashAlone),
    ("--out-dir", OptNameType::LongType),
    ("---x", OptNameType::LongType),
    ("-a", OptNameType::ShortType),
];

struct Dice {
    state: u64,
}

impl Dice {
    fn roll(&mut self, bound: usize) -> usize {
        self.state = self
            .state
            .wrapping_mul(6364136223846793005)
            .wrapping_add(1442695040888963407);
        ((self.state >> 33) as usize) % bound
    }

    fn word(&mut self) -> String {
        WORDS[self.roll(WORDS.len())].to_string()
    }

    fn opt(&mut self) -> Opt {
        let count = self.roll(4);
        let names = (0..count)
            .map(|_| {
                let (raw, t) = NAMES[self.roll(NAMES.len())];
                OptName::new(raw.to_string(), t)
            })
            .collect();
        Opt { names, argument: self.word(), description: self.word() }
    }

    fn command(&mut self, depth: usize) -> Command {
        let mut cmd = Command::new(["tool", "my-cmd", "x", ""][self.roll(4)].to_string());
        cmd.description = self.word();
        cmd.usage = self.word();
        cmd.version = ["", "1.0"][self.roll(2)].to_string();
        for _ in 0..self.roll(4) {
            cmd.options.push(self.opt());
        }
        if depth > 0 {
            for _ in 0..self.roll(3) {
                cmd.subcommands.push(self.command(depth - 1));
            }
        }
        cmd
    }
}

fn alone(name: &OptName) -> bool {
    matches!(name.opt_type, OptNameType::SingleDashAlone | OptNameType::DoubleDashAlone)
}

fn sentence(line: &str) -> String {
    line.split('.').next().unwrap_or("").to_string()
}

fn plain_arg_flag(opt: &Opt) -> &'static str {
    let arg = opt.argument.to_lowercase();
    let desc = opt.description.to_lowercase();
    if opt.argument.is_empty() {
        ""
    } else if arg.contains("file")
        || arg.contains("dir")
        || arg.contains("path")
        || arg.contains("archive")
        || desc.contains("file")
        || desc.contains("dir")
        || desc.contains("path")
    {
        "-r"
    } else {
        "-x"
    }
}

fn plain_fish(lines: &mut Vec<String>, path: &[&str], cmd: &Command) {
    let mut current = path.to_vec();
    current.push(&cmd.name);
    for opt in &cmd.options {
        for name in &opt.names {
            if alone(name) {
                continue;
            }
            let flag = match name.opt_type {
                OptNameType::LongType => "-l",
                OptNameType::ShortType => "-s",
                OptNameType::OldType => "-o",
                _ => "",
            };
            lines.push(format!(
                "complete -c {} {} '{}' {} -d '{}'",
                current.join("_"),
                flag,
                name.raw.trim_start_matches('-'),
                plain_arg_flag(opt),
                sentence(&opt.description).replace('\'', "\\'")
            ));
        }
    }
    for sub in &cmd.subcommands {
        plain_fish(lines, &current, sub);
    }
}

fn plain_zsh(cmd: &Command) -> String {
    let mut lines = vec![
        format!("#compdef {}", cmd.name),
        "".to_string(),
        format!("_{}() {{", cmd.name),
        "  local -a options".to_string(),
        "".to_string(),
    ];
    for opt in &cmd.options {
        let desc = sentence(&opt.description);
        for name in &opt.names {
            if alone(name) {
                continue;
            }
            let spec = if opt.argument.is_empty() {
                format!("'{}[{}]'", name.raw, desc)
            } else {
                format!("'{}[{} {}]'", name.raw, opt.argument, desc)
            };
            lines.push(format!("  options+=({})", spec));
        }
    }
    lines.push("  _arguments -s -S $options".to_string());
    lines.push("}".to_string());
    lines.push("".to_string());
    lines.push(format!("_{} \"$@\"", cmd.name));
    lines.join("\n")
}

fn plain_bash(cmd: &Command, compat: bool) -> String {
    let mut lines = vec![
        format!("_{}()", cmd.name),
        "{".to_string(),
        "  local cur prev opts".to_string(),
        "  COMPREPLY=()".to_string(),
        "  cur=\"${COMP_WORDS[COMP_CWORD]}\"".to_string(),
        "  prev=\"${COMP_WORDS[COMP_CWORD-1]}\"".to_string(),
        "".to_string(),
    ];
    let mut words = BTreeSet::new();
    for opt in &cmd.options {
        let desc = sentence(&opt.description)
            .split_whitespace()
            .collect::<Vec<_>>()
            .join("_")
            .replace(':', "_");
        for name in &opt.names {
            if alone(name) {
                continue;
            }
            if compat && !desc.is_empty() {
                words.insert(format!("{}:{}", name.raw, desc));
            } else {
                words.insert(name.raw.clone());
            }
        }
    }
    let words: Vec<String> = words.into_iter().collect();
    lines.push(format!("  opts=\"{}\"", words.join(" ")));
    lines.push("".to_string());
    lines.push("  COMPREPLY=($(compgen -W \"${opts}\" -- ${cur}))".to_string());
    if compat {
        lines.push("  if type __ltrim_colon_completions &>/dev/null; then".to_string());
        lines.push("    __ltrim_colon_completions \"$cur\"".to_string());
        lines.push("  fi".to_string());
    }
    lines.push("}".to_string());
    lines.push("".to_string());
    lines.push(format!(
        "complete -o bashdefault -o default -o nospace -F _{} {}",
        cmd.name, cmd.name
    ));
    lines.join("\n")
}

fn plain_elvish(cmd: &Command) -> String {
    let mut lines = Vec::new();
    lines.push("use builtin;".to_string());
    lines.push("use str;".to_string());
    lines.push("".to_string());
    lines.push(format!("set edit:completion:arg-completer[{}] = {{|@words|", cmd.name));
    lines.push("    fn spaces {|n|".to_string());
    lines.push("        builtin:repeat $n ' ' | str:join ''".to_string());
    lines.push("    }".to_string());
    lines.push("    fn cand {|text desc|".to_string());
    lines.push(
        "        edit:complex-candidate $text &display=$text' '(spaces (- 14 (wcswidth $text)))$desc"
            .to_string(),
    );
    lines.push("    }".to_string());
    lines.push(format!("    var command = '{}'", cmd.name));
    lines.push("    for word $words[1..-1] {".to_string());
    lines.push("        if (str:has-prefix $word '-') {".to_string());
    lines.push("            break".to_string());
    lines.push("        }".to_string());
    lines.push("        set command = $command';'$word".to_string());
    lines.push("    }".to_string());
    lines.push("    var completions = [".to_string());
    lines.push(format!("        &'{}'= {{", cmd.name));
    for opt in &cmd.options {
        let desc = sentence(&opt.description);
        for name in &opt.names {
            if alone(name) {
                continue;
            }
            lines.push(format!("            cand {} '{}'", name.raw, desc.replace("'", "")));
        }
    }
    lines.push("        }".to_string());
    lines.push("    ]".to_string());
    lines.push("    $completions[$command]".to_string());
    lines.push("}".to_string());
    lines.join("\n")
}

fn plain_nushell(cmd: &Command) -> String {
    let mut lines = Vec::new();
    lines.push("module completions {".to_string());
    lines.push("".to_string());
    lines.push(format!("  # Completions for {} options", cmd.name));
    lines.push(format!("  def \"nu-complete {} options\" [] {{", cmd.name));
    let mut words = BTreeSet::new();
    for opt in &cmd.options {
        for name in &opt.names {
            if !alone(name) {
                words.insert(format!("\"{}\"", name.raw));
            }
        }
    }
    let words: Vec<String> = words.into_iter().collect();
    if words.is_empty() {
        lines.push("    []".to_string());
    } else {
        lines.push(format!("    [ {} ]", words.join(" ")));
    }
    lines.push("  }".to_string());
    lines.push("".to_string());
    lines.push(format!("  export extern {} [", cmd.name));
    for opt in &cmd.options {
        let desc = sentence(&opt.description);
        let arg = if opt.argument.is_empty() {
            String::new()
        } else {
            format!(": string  # {}", opt.argument)
        };
        for name in &opt.names {
            if alone(name) {
                continue;
            }
            lines.push(format!("    {}{} # {}", name.raw, arg, desc));
        }
    }
    lines.push("  ]".to_string());
    lines.push("".to_string());
    lines.push("}".to_string());
    lines.push("".to_string());
    lines.push("export use completions *".to_string());
    lines.join("\n")
}

fn plain_native(cmd: &Command) -> String {
    let mut output = Vec::new();
    output.push(format!("Name:  {}", cmd.name));
    output.push(format!("Desc:  {}", cmd.description));
    output.push(format!("Usage:\n{}", cmd.usage));
    for opt in &cmd.options {
        output.push(format!(
            "  {} ({})",
            opt.names.iter().map(|n| n.raw.clone()).collect::<Vec<_>>().join(", "),
            opt.argument
        ));
    }
    for sub in &cmd.subcommands {
        output.push(format!("Subcommand: {}", sub.name));
    }
    output.join("\n\n")
}

#[test]
fn scripts_agree_with_the_plain_templates() {
    let mut dice = Dice { state: 11 };
    for _ in 0..600 {
        let cmd = dice.command(2);
        let mut fish = Vec::new();
        plain_fish(&mut fish, &[], &cmd);
        assert_eq!(FishGenerator::generate(&cmd), fish.join("\n"));
        assert_eq!(ZshGenerator::generate(&cmd), plain_zsh(&cmd));
        assert_eq!(BashGenerator::generate(&cmd), plain_bash(&cmd, false));
        assert_eq!(BashGenerator::generate_with_compat(&cmd, true), plain_bash(&cmd, true));
        assert_eq!(ElvishGenerator::generate(&cmd), plain_elvish(&cmd));
        assert_eq!(NushellGenerator::generate(&cmd), plain_nushell(&cmd));
        assert_eq!(format_native(&cmd), plain_native(&cmd));
        for opt in &cmd.options {
            assert_eq!(FishGenerator::opt_arg_to_flag(opt), plain_arg_flag(opt));
            assert_eq!(
                opt.to_text(),
                format!(
                    "{}  ::  {}\n{}\n",
                    opt.names.iter().map(|n| n.raw.clone()).collect::<Vec<_>>().join(" "),
                    opt.argument,
                    opt.description
                )
            );
        }
    }
}

#[test]
fn text_steps_agree_with_the_plain_replacements() {
    fn plain_normalize(text: &str) -> String {
        text.replace('\t', "        ").replace("  ", " ")
    }
    fn plain_spaces(text: &str) -> String {
        text.chars()
            .map(|c| match c {
                '\u{00A0}' => " ".to_string(),
                '\u{2003}' => "   ".to_string(),
                '\u{2002}' => "  ".to_string(),
                _ => c.to_string(),
            })
            .collect()
    }
    const PIECES: &[&str] = &[
        " ", " ", "  ", "\t", "\n", "\r\n", "\r", "a", "-", "\u{00A0}", "\u{2002}", "\u{2003}",
        "\u{e9}", "\u{2004}", "\u{a1}", "x y",
    ];
    let mut dice = Dice { state: 12 };
    for _ in 0..5000 {
        let mut text = String::new();
        for _ in 0..dice.roll(12) {
            text.push_str(PIECES[dice.roll(PIECES.len())]);
        }
        assert_eq!(IoHandler::normalize_text(&text).as_str(), plain_normalize(&text), "{:?}", text);
        assert_eq!(Postprocessor::unicode_spaces_to_ascii(&text), plain_spaces(&text), "{:?}", text);
        let width = dice.roll(9);
        assert_eq!(
            Postprocessor::convert_tabs_to_spaces(&text, width),
            text.replace('\t', &" ".repeat(width)),
            "{:?}",
            text
        );
    }
}
