//! The library against plain implementations of the same rules, written with
//! the string methods of the standard library, on a few thousand generated
//! texts.

use std::collections::BTreeSet;

use hcl::types::{Command, Opt, OptName, OptNameType, Subcommand};
use hcl::{IoHandler, Layout, Parser, Postprocessor, SubcommandParser};

const PIECES: &[&str] = &[
    " ", " ", " ", "  ", "\n", "\n", "\n", "\r\n", "\t", "-", "-", "--", "-a", "-b", "--all",
    "--verbose", "-name", ",", "/", "|", "=", ".", ":", "*", "\u{2022}", "\r", "a", "b", "run",
    "build", "FILE", "usage", "Usage:", "USAGE", "synopsis", "Synopsis:", "s", "U", "\u{00A0}",
    "\u{2002}", "\u{2003}", "\u{3000}", "\u{e9}", "\u{130}", "\u{212A}", "sub-cmd", "x_1", "'",
];

struct Texts {
    state: u64,
}

impl Texts {
    fn new(seed: u64) -> Self {
        Texts { state: seed }
    }

    fn next(&mut self, bound: usize) -> usize {
        self.state = self
            .state
            .wrapping_mul(6364136223846793005)
            .wrapping_add(1442695040888963407);
        ((self.state >> 33) as usize) % bound
    }

    fn text(&mut self) -> String {
        let pieces = self.next(14);
        let mut out = String::new();
        for _ in 0..pieces {
            out.push_str(PIECES[self.next(PIECES.len())]);
        }
        out
    }
}

fn corpus(seed: u64, count: usize) -> Vec<String> {
    let mut texts = Texts::new(seed);
    (0..count).map(|_| texts.text()).collect()
}

fn plain_blocks(content: &str) -> Vec<String> {
    let mut blocks = Vec::new();
    let mut current = String::new();
    let mut in_block = false;
    for line in content.lines() {
        let trimmed = line.trim_start();
        if trimmed.is_empty() {
            if in_block && !current.is_empty() {
                blocks.push(current.clone());
                current.clear();
                in_block = false;
            }
        } else if trimmed.starts_with('-') || in_block {
            if !current.is_empty() {
                current.push('\n');
            }
            current.push_str(line);
            in_block = true;
        }
    }
    if !current.is_empty() {
        blocks.push(current);
    }
    blocks
}

fn plain_preprocess(s: &str) -> Vec<(String, String)> {
    let lines: Vec<&str> = s.lines().collect();
    let mut result = Vec::new();
    let mut i = 0;
    while i < lines.len() {
        let trimmed = lines[i].trim_start();
        if !trimmed.starts_with('-') {
            i += 1;
            continue;
        }
        let parts: Vec<&str> = trimmed.split_whitespace().collect();
        let mut opt_end = 0;
        for (idx, part) in parts.iter().enumerate() {
            if part.starts_with('-') || idx == 0 {
                opt_end = idx + 1;
            } else if part.contains('=') || !part.starts_with('-') {
                opt_end = idx + 1;
            } else {
                break;
            }
        }
        if opt_end > 0 && opt_end < parts.len() {
            result.push((parts[0..opt_end].join(" "), parts[opt_end..].join(" ")));
            i += 1;
        } else if opt_end > 0 {
            let desc = if i + 1 < lines.len() && !lines[i + 1].trim_start().starts_with('-') {
                lines[i + 1].trim().to_string()
            } else {
                String::new()
            };
            if !desc.is_empty() {
                result.push((trimmed.to_string(), desc));
                i += 2;
            } else {
                result.push((trimmed.to_string(), String::new()));
                i += 1;
            }
        } else {
            i += 1;
        }
    }
    result
}

fn plain_type(s: &str) -> Option<OptNameType> {
    match s {
        "-" => Some(OptNameType::SingleDashAlone),
        "--" => Some(OptNameType::DoubleDashAlone),
        s if s.starts_with("--") => Some(OptNameType::LongType),
        s if s.starts_with('-') && s.len() == 2 => Some(OptNameType::ShortType),
        s if s.starts_with('-') => Some(OptNameType::OldType),
        _ => None,
    }
}

fn plain_names(s: &str) -> Vec<OptName> {
    let mut names = Vec::new();
    for part in s.split([',', '/', '|']) {
        for word in part.trim().split_whitespace() {
            if let Some(t) = plain_type(word) {
                names.push(OptName::new(word.to_string(), t));
            }
        }
    }
    names.sort();
    names.dedup();
    names
}

fn plain_argument(s: &str) -> String {
    for part in s.split([',', '/', '|']) {
        let words: Vec<&str> = part.trim().split_whitespace().collect();
        if words.len() < 2 {
            continue;
        }
        let arg = words[1..].join(" ");
        if arg.is_empty() || arg == "." {
            continue;
        }
        return arg;
    }
    String::new()
}

fn plain_options(s: &str) -> Vec<Opt> {
    let mut opts: Vec<Opt> = Vec::new();
    for (opt_str, desc_str) in plain_preprocess(s) {
        let names = plain_names(&opt_str);
        if names.is_empty() {
            continue;
        }
        let opt = Opt { names, argument: plain_argument(&opt_str), description: desc_str };
        if !opts.contains(&opt) {
            opts.push(opt);
        }
    }
    opts
}

fn plain_usage(content: &str) -> String {
    let lines: Vec<&str> = content.lines().collect();
    for (i, line) in lines.iter().enumerate() {
        let lower = line.to_lowercase();
        if (lower.contains("usage") || lower.contains("synopsis")) && lower.contains(':') {
            let mut block = vec![*line];
            for l in lines[i + 1..].iter() {
                if l.is_empty() || (!l.starts_with(' ') && !l.contains(':')) {
                    break;
                }
                block.push(*l);
            }
            return block.join("\n");
        }
    }
    String::new()
}

fn plain_valid_name(name: &str) -> bool {
    !name.starts_with('-')
        && !name.is_empty()
        && name.chars().all(|c| c.is_alphanumeric() || c == '-' || c == '_')
}

fn plain_line_pair(first: &str, second: &str) -> Option<Subcommand> {
    let head = first.trim();
    if head.is_empty() || head.starts_with('-') {
        return None;
    }
    let word = head.split_whitespace().next()?;
    if !plain_valid_name(word) {
        return None;
    }
    let desc = second.trim();
    if desc.is_empty() || desc.starts_with('-') {
        return None;
    }
    Some(Subcommand {
        cmd: word.to_string(),
        desc: desc.split('\n').next().unwrap_or("").to_string(),
    })
}

fn plain_single_line(line: &str) -> Option<Subcommand> {
    let trimmed = line.trim();
    if trimmed.is_empty() || trimmed.starts_with('-') {
        return None;
    }
    let parts: Vec<&str> = trimmed.split_whitespace().collect();
    if parts.len() < 3 || !plain_valid_name(parts[0]) {
        return None;
    }
    Some(Subcommand { cmd: parts[0].to_string(), desc: parts[1..].join(" ") })
}

fn plain_subcommands(content: &str) -> Vec<Subcommand> {
    let lines: Vec<&str> = content.lines().collect();
    let mut found = BTreeSet::new();
    for window in lines.windows(2) {
        if let Some(s) = plain_line_pair(window[0], window[1]) {
            found.insert(s);
        }
    }
    for line in &lines {
        if let Some(s) = plain_single_line(line) {
            found.insert(s);
        }
    }
    found.into_iter().collect()
}

fn plain_remove_bullets(text: &str) -> String {
    let mut lines = Vec::new();
    for line in text.lines() {
        let trimmed = line.trim_start();
        let indent = &line[..line.len() - trimmed.len()];
        let mut chars = trimmed.chars();
        let bullet = chars.next();
        let blank = chars.next();
        match (bullet, blank) {
            (Some('*' | '-' | '\u{2022}'), Some(b)) if b.is_ascii_whitespace() => {
                lines.push(format!("{}{}", indent, chars.as_str().trim_start()));
            }
            _ => lines.push(line.to_string()),
        }
    }
    lines.join("\n")
}

fn plain_fix(mut cmd: Command) -> Command {
    let mut seen = BTreeSet::new();
    let mut kept = Vec::new();
    for opt in cmd.options {
        let key = (
            opt.names.iter().map(|n| n.raw.clone()).collect::<Vec<_>>().join("|"),
            opt.argument.clone(),
        );
        if seen.insert(key) {
            kept.push(opt);
        }
    }
    cmd.options = kept
        .into_iter()
        .filter(|o| !o.names.is_empty() && !o.names[0].raw.is_empty() && !o.description.is_empty())
        .collect();
    cmd.subcommands = cmd.subcommands.into_iter().map(plain_fix).collect();
    cmd
}

fn plain_offset(text: &str, long: bool) -> Option<usize> {
    let offsets: Vec<usize> = text
        .lines()
        .filter_map(|line| {
            let trimmed = line.trim_start();
            let dashed = trimmed.starts_with('-');
            let doubled = trimmed.starts_with("--");
            if (long && doubled) || (!long && dashed && !doubled) {
                Some(line.len() - trimmed.len())
            } else {
                None
            }
        })
        .collect();
    let mut best: Option<(usize, usize)> = None;
    for o in &offsets {
        let count = offsets.iter().filter(|x| *x == o).count();
        if best.map_or(true, |(_, c)| count > c) {
            best = Some((*o, count));
        }
    }
    best.map(|(o, _)| o)
}

#[test]
fn blocks_agree_with_the_plain_rule() {
    for text in corpus(1, 4000) {
        assert_eq!(Layout::split_into_blocks(&text), plain_blocks(&text), "{:?}", text);
    }
}

#[test]
fn pairs_agree_with_the_plain_rule() {
    for text in corpus(2, 4000) {
        assert_eq!(Parser::preprocess(&text), plain_preprocess(&text), "{:?}", text);
    }
}

#[test]
fn names_and_arguments_agree_with_the_plain_rule() {
    for text in corpus(3, 4000) {
        assert_eq!(Parser::parse_opt_names(&text), plain_names(&text), "{:?}", text);
        assert_eq!(Parser::parse_opt_arg(&text), plain_argument(&text), "{:?}", text);
        let name = hcl::types::OptName::from_text(&text);
        assert_eq!(name.map(|n| n.opt_type), plain_type(&text), "{:?}", text);
    }
}

#[test]
fn options_agree_with_the_plain_rule() {
    for text in corpus(4, 3000) {
        assert_eq!(Parser::parse_line(&text), plain_options(&text), "{:?}", text);
        let blockwise: Vec<Opt> =
            plain_blocks(&text).iter().flat_map(|b| plain_options(b)).collect();
        assert_eq!(Layout::parse_blockwise(&text).as_slice(), blockwise.as_slice(), "{:?}", text);
        let pairs: Vec<(String, String)> =
            plain_blocks(&text).iter().flat_map(|b| plain_preprocess(b)).collect();
        let found: Vec<(String, String)> = Layout::preprocess_blockwise(&text)
            .iter()
            .map(|(a, b)| (a.to_string(), b.to_string()))
            .collect();
        assert_eq!(found, pairs, "{:?}", text);
    }
}

#[test]
fn usage_agrees_with_the_plain_rule() {
    for text in corpus(5, 6000) {
        assert_eq!(Layout::parse_usage(&text).as_str(), plain_usage(&text), "{:?}", text);
    }
}

#[test]
fn subcommands_agree_with_the_plain_rule() {
    for text in corpus(6, 4000) {
        assert_eq!(SubcommandParser::parse(&text), plain_subcommands(&text), "{:?}", text);
        assert_eq!(
            SubcommandParser::is_valid_subcommand_name(&text),
            plain_valid_name(&text),
            "{:?}",
            text
        );
    }
}

#[test]
fn bullets_agree_with_the_plain_rule() {
    for text in corpus(7, 6000) {
        assert_eq!(Postprocessor::remove_bullets(&text), plain_remove_bullets(&text), "{:?}", text);
    }
}

#[test]
fn offsets_agree_with_the_plain_rule() {
    for text in corpus(8, 4000) {
        assert_eq!(Layout::get_short_option_offset(&text), plain_offset(&text, false), "{:?}", text);
        assert_eq!(Layout::get_long_option_offset(&text), plain_offset(&text, true), "{:?}", text);
        let expected: Vec<usize> = match (plain_offset(&text, false), plain_offset(&text, true)) {
            (None, None) => vec![],
            (None, Some(y)) => vec![y],
            (Some(x), None) => vec![x],
            (Some(x), Some(y)) if x == y => vec![x],
            (Some(x), Some(y)) => vec![x, y],
        };
        assert_eq!(Layout::get_option_offsets(&text).as_slice(), expected.as_slice(), "{:?}", text);
    }
}

#[test]
fn cleaning_agrees_with_the_plain_rule() {
    let mut texts = Texts::new(9);
    for _ in 0..1500 {
        let mut commands = Vec::new();
        for _ in 0..3 {
            let mut cmd = Command::new(texts.text());
            for _ in 0..texts.next(6) {
                let names = plain_names(&texts.text());
                let argument = ["", "", "N", "FILE"][texts.next(4)].to_string();
                let description = ["", "one", "two"][texts.next(3)].to_string();
                cmd.options.push(Opt { names, argument, description });
            }
            if let Some(child) = commands.pop() {
                cmd.subcommands.push(child);
            }
            commands.push(cmd);
        }
        let root = commands.pop().unwrap();
        let fixed = Postprocessor::fix_command(root.clone());
        assert_eq!(fixed, plain_fix(root));
        assert_eq!(Postprocessor::fix_command(fixed.clone()), fixed);
    }
}

#[test]
fn normalizing_agrees_with_the_plain_replacement() {
    for text in corpus(10, 4000) {
        let expected = text.replace('\t', "        ").replace("  ", " ");
        let found = IoHandler::normalize_text(&text);
        assert_eq!(found.as_str(), expected, "{:?}", text);
        if !text.contains('\t') && !text.contains("  ") {
            assert_eq!(found.as_str(), text);
        }
    }
}

#[test]
fn usage_headers_agree_with_the_plain_rule() {
    fn plain_header(keywords: &[&str], block: &str) -> Option<String> {
        if keywords.is_empty() || block.is_empty() {
            return None;
        }
        let header = block.lines().next()?.to_lowercase();
        for keyword in keywords {
            let pattern = format!(r"^\s*{}\s*:?\s*$", regex::escape(keyword));
            if let Ok(re) = regex::Regex::new(&pattern) {
                if re.is_match(&header) {
                    return Some(header);
                }
            }
        }
        None
    }
    let keywords = ["usage", "synopsis", "u.age"];
    let heads = ["", "Usage", " USAGE: ", "synopsis :", "Usage:\r", "U.AGE", "uxage", "usage::", "\t\u{130}"];
    let mut found = 0;
    for (n, text) in corpus(13, 300).into_iter().enumerate() {
        let block = format!("{}{}", heads[n % heads.len()], text);
        for k in 0..keywords.len() {
            let expected = plain_header(&keywords[k..], &block);
            if expected.is_some() {
                found += 1;
            }
            assert_eq!(Parser::parse_usage_header(&keywords[k..], &block), expected, "{:?}", block);
        }
    }
    assert!(found > 20);
}
