use hcl::types::{Command, Opt, OptName, OptNameType};
use hcl::Postprocessor;

fn opt(names: &[&str], argument: &str, description: &str) -> Opt {
    Opt {
        names: names
            .iter()
            .map(|n| OptName::from_text(n).unwrap_or(OptName::new(n.to_string(), OptNameType::OldType)))
            .collect(),
        argument: argument.to_string(),
        description: description.to_string(),
    }
}

fn command(name: &str, options: Vec<Opt>, subcommands: Vec<Command>) -> Command {
    Command {
        name: name.to_string(),
        description: String::new(),
        usage: String::new(),
        options,
        subcommands,
        version: String::new(),
    }
}

#[test]
fn test_deduplicate_options() {
    let opts = vec![
        Opt {
            names: vec![OptName::new("-v".to_string(), OptNameType::ShortType)],
            argument: String::new(),
            description: "verbose".to_string(),
        },
        Opt {
            names: vec![OptName::new("-v".to_string(), OptNameType::ShortType)],
            argument: String::new(),
            description: "verbose".to_string(),
        },
    ];

    let result = Postprocessor::deduplicate_options(opts);
    assert_eq!(result.len(), 1);
}

#[test]
fn test_remove_bullets() {
    let text = "• Item one\n* Item two\n- Item three";
    let result = Postprocessor::remove_bullets(text);
    assert!(!result.contains("•"));
}

#[test]
fn test_unicode_and_tabs_helpers() {
    // Text with various unicode spaces and a tab
    let text = "\u{00A0}foo\u{2002}bar\u{2003}baz\tend";
    let ascii = Postprocessor::unicode_spaces_to_ascii(text);

    // Non-breaking/en-space/em-space should be replaced with ASCII spaces
    assert_eq!(ascii, " foo  bar   baz\tend");

    let with_spaces = Postprocessor::convert_tabs_to_spaces(&ascii, 4);
    assert!(!with_spaces.contains('\t'));
    assert!(with_spaces.ends_with("    end"));
}

#[test]
fn test_fix_command_filters_and_deduplicates() {
    let valid_opt = Opt {
        names: vec![OptName::new("-v".to_string(), OptNameType::ShortType)],
        argument: String::new(),
        description: "verbose".to_string(),
    };

    let invalid_opt = Opt {
        names: vec![],
        argument: String::new(),
        description: String::new(),
    };

    let cmd = Command {
        name: "root".to_string(),
        description: String::new(),
        usage: String::new(),
        options: vec![valid_opt.clone(), valid_opt.clone(), invalid_opt],
        subcommands: vec![Command {
            name: "child".to_string(),
            description: String::new(),
            usage: String::new(),
            options: vec![valid_opt.clone()],
            subcommands: vec![],
            version: String::new(),
        }],
        version: String::new(),
    };

    let fixed = Postprocessor::fix_command(cmd);
    assert_eq!(fixed.options.len(), 1);
    assert_eq!(fixed.subcommands.len(), 1);
    assert_eq!(fixed.subcommands[0].options.len(), 1);
}

#[test]
fn unicode_spaces_then_tabs_of_four() {
    let ascii = Postprocessor::unicode_spaces_to_ascii("\u{00A0}foo\u{2002}bar\u{2003}baz\tend");
    assert_eq!(
        Postprocessor::convert_tabs_to_spaces(&ascii, 4),
        " foo  bar   baz    end"
    );
}

#[test]
fn unicode_spaces_quick_way_out_agrees_with_the_slow_way() {
    fn slow(text: &str) -> String {
        let mut out = String::new();
        for c in text.chars() {
            match c {
                '\u{00A0}' => out.push(' '),
                '\u{2003}' => out.push_str("   "),
                '\u{2002}' => out.push_str("  "),
                _ => out.push(c),
            }
        }
        out
    }
    let samples = [
        "",
        "plain ascii",
        "tabs\tand\nlines\r\n",
        "\u{00A0}",
        "a\u{2002}b",
        "a\u{2003}",
        "\u{2001}\u{2004}\u{00A1}\u{009F}",
        "caf\u{e9} \u{3042}\u{1F600}",
        "\u{00A0}\u{2002}\u{2003}\u{00A0}",
    ];
    for text in samples {
        assert_eq!(Postprocessor::unicode_spaces_to_ascii(text), slow(text), "{:?}", text);
    }
}

#[test]
fn tabs_quick_way_out_agrees_with_the_slow_way() {
    for width in [0usize, 1, 4, 8] {
        for text in ["", "no tabs", "\t", "a\tb\t", "\t\tx", "\u{e9}\t\u{3042}"] {
            let slow = text.replace('\t', &" ".repeat(width));
            assert_eq!(Postprocessor::convert_tabs_to_spaces(text, width), slow);
        }
    }
}

#[test]
fn remove_bullets_strips_one_bullet_and_keeps_the_indentation() {
    assert_eq!(
        Postprocessor::remove_bullets("\u{2022} Item one\n* Item two\n- Item three"),
        "Item one\nItem two\nItem three"
    );
    assert_eq!(Postprocessor::remove_bullets("  *   deep"), "  deep");
    assert_eq!(Postprocessor::remove_bullets("\t-\tx"), "\tx");
    assert_eq!(Postprocessor::remove_bullets("* * twice"), "* twice");
}

#[test]
fn remove_bullets_leaves_other_lines_alone() {
    assert_eq!(Postprocessor::remove_bullets("-a, --all"), "-a, --all");
    assert_eq!(Postprocessor::remove_bullets("*bold*"), "*bold*");
    assert_eq!(Postprocessor::remove_bullets("*"), "*");
    assert_eq!(Postprocessor::remove_bullets("text * more"), "text * more");
    assert_eq!(Postprocessor::remove_bullets("\u{2022}\u{00A0}x"), "\u{2022}\u{00A0}x");
    assert_eq!(Postprocessor::remove_bullets("+ plus"), "+ plus");
}

#[test]
fn remove_bullets_joins_lines_by_line_feeds() {
    assert_eq!(Postprocessor::remove_bullets("a\r\n* b\n"), "a\nb");
    assert_eq!(Postprocessor::remove_bullets(""), "");
    assert_eq!(Postprocessor::remove_bullets("\n\n"), "\n");
    assert_eq!(Postprocessor::remove_bullets("* "), "");
}

#[test]
fn options_with_the_same_names_and_argument_collapse_to_the_first() {
    let cmd = command(
        "root",
        vec![
            opt(&["--all", "-a"], "", "first"),
            opt(&["--all", "-a"], "", "second"),
            opt(&["--all", "-a"], "N", "with argument"),
        ],
        vec![],
    );
    let fixed = Postprocessor::fix_command(cmd);
    assert_eq!(fixed.options.len(), 2);
    assert_eq!(fixed.options[0].description, "first");
    assert_eq!(fixed.options[1].description, "with argument");
}

#[test]
fn the_key_is_the_joined_spelling() {
    // the spellings "a|b" and "a", "b" give the same key
    let opts = vec![opt(&["a|b"], "", "one"), opt(&["a", "b"], "", "two")];
    let result = Postprocessor::deduplicate_options(opts);
    assert_eq!(result.len(), 1);
    assert_eq!(result[0].description, "one");
}

#[test]
fn an_invalid_first_occurrence_still_hides_later_ones() {
    let cmd = command(
        "root",
        vec![opt(&["-v"], "", ""), opt(&["-v"], "", "described")],
        vec![],
    );
    let fixed = Postprocessor::fix_command(cmd);
    assert!(fixed.options.is_empty());
}

#[test]
fn filter_drops_options_without_name_or_description() {
    let opts = vec![
        opt(&[], "", "no names"),
        opt(&[""], "", "empty name"),
        opt(&["-k"], "", ""),
        opt(&["-k"], "", "kept"),
    ];
    let kept = Postprocessor::filter_invalid_options(opts);
    assert_eq!(kept.len(), 1);
    assert_eq!(kept[0].description, "kept");
}

#[test]
fn fix_command_reaches_every_depth() {
    let leaf = command(
        "leaf",
        vec![opt(&["-x"], "", "x"), opt(&["-x"], "", "again"), opt(&[], "", "")],
        vec![],
    );
    let mid = command("mid", vec![opt(&["-m"], "", "")], vec![leaf]);
    let root = command("root", vec![opt(&["-r"], "", "r")], vec![mid]);
    let fixed = Postprocessor::fix_command(root);
    assert_eq!(fixed.name, "root");
    assert_eq!(fixed.options.len(), 1);
    assert_eq!(fixed.subcommands[0].name, "mid");
    assert!(fixed.subcommands[0].options.is_empty());
    let leaf = &fixed.subcommands[0].subcommands[0];
    assert_eq!(leaf.options.len(), 1);
    assert_eq!(leaf.options[0].description, "x");
}

#[test]
fn fix_command_twice_is_fix_command_once() {
    let leaf = command(
        "leaf",
        vec![opt(&["-x"], "", "x"), opt(&["-x"], "", "again"), opt(&[], "", "")],
        vec![],
    );
    let root = command(
        "root",
        vec![opt(&["-r"], "", ""), opt(&["-r"], "A", "r"), opt(&["-r"], "A", "r2")],
        vec![leaf.clone(), leaf],
    );
    let once = Postprocessor::fix_command(root);
    let twice = Postprocessor::fix_command(once.clone());
    assert_eq!(once, twice);
}
