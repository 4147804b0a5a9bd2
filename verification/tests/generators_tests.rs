use hcl::types::{Command, Opt, OptName, OptNameType};
use hcl::{BashGenerator, ElvishGenerator, FishGenerator, NushellGenerator, ZshGenerator};

fn verbose_command(argument: &str, description: &str) -> Command {
    Command {
        name: "test".to_string(),
        description: "Test command".to_string(),
        usage: "test [OPTIONS]".to_string(),
        options: vec![Opt {
            names: vec![
                OptName::new("-v".to_string(), OptNameType::ShortType),
                OptName::new("--verbose".to_string(), OptNameType::LongType),
            ],
            argument: argument.to_string(),
            description: description.to_string(),
        }],
        subcommands: vec![],
        version: String::new(),
    }
}

#[test]
fn test_truncate_after_period() {
    let text = "This is a description. With more text.";
    assert_eq!(
        FishGenerator::truncate_after_period(text),
        "This is a description"
    );
}

#[test]
fn truncate_keeps_a_text_without_full_stop() {
    assert_eq!(FishGenerator::truncate_after_period("no stop"), "no stop");
    assert_eq!(FishGenerator::truncate_after_period(""), "");
    assert_eq!(FishGenerator::truncate_after_period(".hidden"), "");
    assert_eq!(ZshGenerator::truncate_after_period("a.b.c"), "a");
}

#[test]
fn test_fish_generator_snapshot() {
    let cmd = verbose_command("FILE", "Enable verbose mode using a file");
    let output = FishGenerator::generate(&cmd);
    assert_eq!(
        output,
        "complete -c test -s 'v' -r -d 'Enable verbose mode using a file'\n\
         complete -c test -l 'verbose' -r -d 'Enable verbose mode using a file'"
    );
}

#[test]
fn fish_walks_the_tree_and_joins_the_path() {
    let mut root = verbose_command("", "It's loud. Really.");
    root.options[0].names.push(OptName::new("--".to_string(), OptNameType::DoubleDashAlone));
    root.options[0].names.push(OptName::new("-".to_string(), OptNameType::SingleDashAlone));
    let mut child = Command::new("sub".to_string());
    child.options.push(Opt {
        names: vec![OptName::new("-name".to_string(), OptNameType::OldType)],
        argument: "N".to_string(),
        description: "a number".to_string(),
    });
    let mut leaf = Command::new("leaf".to_string());
    leaf.options.push(Opt {
        names: vec![OptName::new("--out".to_string(), OptNameType::LongType)],
        argument: "X".to_string(),
        description: "the output DIRECTORY".to_string(),
    });
    child.subcommands.push(leaf);
    root.subcommands.push(child);
    let output = FishGenerator::generate(&root);
    let expected = [
        "complete -c test -s 'v'  -d 'It\\'s loud'",
        "complete -c test -l 'verbose'  -d 'It\\'s loud'",
        "complete -c test_sub -o 'name' -x -d 'a number'",
        "complete -c test_sub_leaf -l 'out' -r -d 'the output DIRECTORY'",
    ];
    assert_eq!(output, expected.join("\n"));
}

#[test]
fn fish_flags_of_kinds_and_arguments() {
    assert_eq!(FishGenerator::opt_type_to_flag(OptNameType::LongType), "-l");
    assert_eq!(FishGenerator::opt_type_to_flag(OptNameType::ShortType), "-s");
    assert_eq!(FishGenerator::opt_type_to_flag(OptNameType::OldType), "-o");
    assert_eq!(FishGenerator::opt_type_to_flag(OptNameType::SingleDashAlone), "");
    assert_eq!(FishGenerator::opt_type_to_flag(OptNameType::DoubleDashAlone), "");
    let opt = |argument: &str, description: &str| Opt {
        names: vec![],
        argument: argument.to_string(),
        description: description.to_string(),
    };
    assert_eq!(FishGenerator::opt_arg_to_flag(&opt("", "a file")), "");
    assert_eq!(FishGenerator::opt_arg_to_flag(&opt("FILE", "")), "-r");
    assert_eq!(FishGenerator::opt_arg_to_flag(&opt("Archive", "")), "-r");
    assert_eq!(FishGenerator::opt_arg_to_flag(&opt("N", "search PATH")), "-r");
    assert_eq!(FishGenerator::opt_arg_to_flag(&opt("N", "an archive")), "-x");
    assert_eq!(FishGenerator::opt_arg_to_flag(&opt("N", "count")), "-x");
    assert!(FishGenerator::should_skip_option(&OptName::new("-".to_string(), OptNameType::SingleDashAlone)));
    assert!(!FishGenerator::should_skip_option(&OptName::new("-a".to_string(), OptNameType::ShortType)));
}

#[test]
fn test_zsh_generator_with_descriptions_snapshot() {
    let cmd = verbose_command("", "Enable verbose mode");
    let output = ZshGenerator::generate(&cmd);
    let expected = [
        "#compdef test",
        "",
        "_test() {",
        "  local -a options",
        "",
        "  options+=('-v[Enable verbose mode]')",
        "  options+=('--verbose[Enable verbose mode]')",
        "  _arguments -s -S $options",
        "}",
        "",
        "_test \"$@\"",
    ];
    assert_eq!(output, expected.join("\n"));
}

#[test]
fn zsh_shows_the_argument_before_the_description() {
    let cmd = verbose_command("LEVEL", "How loud. Default 1.");
    assert_eq!(
        ZshGenerator::generate_opt(&cmd.options[0]),
        vec![
            "  options+=('-v[LEVEL How loud]')".to_string(),
            "  options+=('--verbose[LEVEL How loud]')".to_string(),
        ]
    );
}

#[test]
fn test_bash_generator_snapshot() {
    let cmd = verbose_command("", "Enable verbose mode");
    let output = BashGenerator::generate(&cmd);
    let expected = [
        "_test()",
        "{",
        "  local cur prev opts",
        "  COMPREPLY=()",
        "  cur=\"${COMP_WORDS[COMP_CWORD]}\"",
        "  prev=\"${COMP_WORDS[COMP_CWORD-1]}\"",
        "",
        "  opts=\"--verbose -v\"",
        "",
        "  COMPREPLY=($(compgen -W \"${opts}\" -- ${cur}))",
        "}",
        "",
        "complete -o bashdefault -o default -o nospace -F _test test",
    ];
    assert_eq!(output, expected.join("\n"));
    assert_eq!(BashGenerator::generate_with_compat(&cmd, false), output);
}

#[test]
fn test_bash_generator_compat_snapshot() {
    let cmd = verbose_command("", "Enable verbose mode");
    let output = BashGenerator::generate_with_compat(&cmd, true);
    let expected = [
        "_test()",
        "{",
        "  local cur prev opts",
        "  COMPREPLY=()",
        "  cur=\"${COMP_WORDS[COMP_CWORD]}\"",
        "  prev=\"${COMP_WORDS[COMP_CWORD-1]}\"",
        "",
        "  opts=\"--verbose:Enable_verbose_mode -v:Enable_verbose_mode\"",
        "",
        "  COMPREPLY=($(compgen -W \"${opts}\" -- ${cur}))",
        "  if type __ltrim_colon_completions &>/dev/null; then",
        "    __ltrim_colon_completions \"$cur\"",
        "  fi",
        "}",
        "",
        "complete -o bashdefault -o default -o nospace -F _test test",
    ];
    assert_eq!(output, expected.join("\n"));
}

#[test]
fn bash_lists_each_word_once_and_replaces_colons() {
    let mut cmd = verbose_command("", "mode: loud  and clear. More.");
    cmd.options.push(cmd.options[0].clone());
    cmd.options.push(Opt {
        names: vec![
            OptName::new("-a".to_string(), OptNameType::ShortType),
            OptName::new("--".to_string(), OptNameType::DoubleDashAlone),
        ],
        argument: String::new(),
        description: String::new(),
    });
    let plain = BashGenerator::generate(&cmd);
    assert!(plain.contains("  opts=\"--verbose -a -v\"\n"));
    let compat = BashGenerator::generate_with_compat(&cmd, true);
    assert!(compat.contains(
        "  opts=\"--verbose:mode__loud_and_clear -a -v:mode__loud_and_clear\"\n"
    ));
}

#[test]
fn test_elvish_generator_snapshot() {
    let cmd = verbose_command("", "Enable verbose mode");
    let output = ElvishGenerator::generate(&cmd);
    let expected = [
        "use builtin;",
        "use str;",
        "",
        "set edit:completion:arg-completer[test] = {|@words|",
        "    fn spaces {|n|",
        "        builtin:repeat $n ' ' | str:join ''",
        "    }",
        "    fn cand {|text desc|",
        "        edit:complex-candidate $text &display=$text' '(spaces (- 14 (wcswidth $text)))$desc",
        "    }",
        "    var command = 'test'",
        "    for word $words[1..-1] {",
        "        if (str:has-prefix $word '-') {",
        "            break",
        "        }",
        "        set command = $command';'$word",
        "    }",
        "    var completions = [",
        "        &'test'= {",
        "            cand -v 'Enable verbose mode'",
        "            cand --verbose 'Enable verbose mode'",
        "        }",
        "    ]",
        "    $completions[$command]",
        "}",
    ];
    assert_eq!(output, expected.join("\n"));
}

#[test]
fn elvish_drops_quotes_from_descriptions() {
    let cmd = verbose_command("", "It's 'loud'. Yes.");
    assert!(ElvishGenerator::generate(&cmd).contains("            cand -v 'Its loud'\n"));
}

#[test]
fn test_nushell_generator_snapshot() {
    let cmd = verbose_command("", "Enable verbose mode");
    let output = NushellGenerator::generate(&cmd);
    let expected = [
        "module completions {",
        "",
        "  # Completions for test options",
        "  def \"nu-complete test options\" [] {",
        "    [ \"--verbose\" \"-v\" ]",
        "  }",
        "",
        "  export extern test [",
        "    -v # Enable verbose mode",
        "    --verbose # Enable verbose mode",
        "  ]",
        "",
        "}",
        "",
        "export use completions *",
    ];
    assert_eq!(output, expected.join("\n"));
}

#[test]
fn nushell_without_options_and_with_arguments() {
    let empty = Command::new("tool".to_string());
    assert!(NushellGenerator::generate(&empty).contains("options\" [] {\n    []\n  }"));
    let cmd = verbose_command("FILE", "Read it. Now.");
    assert!(NushellGenerator::generate(&cmd)
        .contains("  export extern test [\n    -v: string  # FILE # Read it\n    --verbose: string  # FILE # Read it\n  ]"));
}
