use hcl::types::{Command, Opt, OptName, OptNameType, Subcommand};

#[test]
fn from_text_classifies_by_shape() {
    let cases = [
        ("-", OptNameType::SingleDashAlone),
        ("--", OptNameType::DoubleDashAlone),
        ("--all", OptNameType::LongType),
        ("---", OptNameType::LongType),
        ("--x", OptNameType::LongType),
        ("-a", OptNameType::ShortType),
        ("-1", OptNameType::ShortType),
        ("-ab", OptNameType::OldType),
        ("-name", OptNameType::OldType),
        ("-a-", OptNameType::OldType),
    ];
    for (text, expected) in cases {
        let name = OptName::from_text(text).unwrap();
        assert_eq!(name.raw, text);
        assert_eq!(name.opt_type, expected, "{}", text);
    }
}

#[test]
fn from_text_counts_bytes_for_short_names() {
    // one character of two bytes behind the dash: three bytes in all
    let name = OptName::from_text("-\u{e9}").unwrap();
    assert_eq!(name.opt_type, OptNameType::OldType);
    let name = OptName::from_text("-\u{3042}").unwrap();
    assert_eq!(name.opt_type, OptNameType::OldType);
}

#[test]
fn from_text_rejects_what_does_not_start_with_a_dash() {
    for text in ["", "a", "a-", " -a", "file", "\u{2013}a", "=-"] {
        assert!(OptName::from_text(text).is_none(), "{:?}", text);
    }
}

#[test]
fn from_text_accepts_every_text_that_starts_with_a_dash() {
    for text in ["-", "--", "-=", "- ", "-\n", "--\u{0}", "-\u{10ffff}"] {
        assert!(OptName::from_text(text).is_some(), "{:?}", text);
    }
}

#[test]
fn names_are_ordered_by_spelling_then_class() {
    let a = OptName::new("--all".to_string(), OptNameType::LongType);
    let b = OptName::new("-a".to_string(), OptNameType::ShortType);
    let c = OptName::new("-a".to_string(), OptNameType::OldType);
    assert!(a < b);
    assert!(b < c);
    assert_eq!(b.clone(), b);
}

#[test]
fn classes_are_ordered_as_declared() {
    assert!(OptNameType::LongType < OptNameType::ShortType);
    assert!(OptNameType::ShortType < OptNameType::OldType);
    assert!(OptNameType::OldType < OptNameType::DoubleDashAlone);
    assert!(OptNameType::DoubleDashAlone < OptNameType::SingleDashAlone);
}

#[test]
fn new_command_is_empty_but_for_its_name() {
    let cmd = Command::new("tool".to_string());
    assert_eq!(cmd.name, "tool");
    assert_eq!(cmd.description, "");
    assert_eq!(cmd.usage, "");
    assert!(cmd.options.is_empty());
    assert!(cmd.subcommands.is_empty());
    assert_eq!(cmd.version, "");
}

#[test]
fn as_subcommand_takes_name_and_description() {
    let mut cmd = Command::new("run".to_string());
    cmd.description = "Run a command".to_string();
    assert_eq!(
        cmd.as_subcommand(),
        Subcommand { cmd: "run".to_string(), desc: "Run a command".to_string() }
    );
}

#[test]
fn clone_copies_the_whole_tree() {
    let opt = Opt {
        names: vec![OptName::new("-v".to_string(), OptNameType::ShortType)],
        argument: "N".to_string(),
        description: "verbose".to_string(),
    };
    let mut child = Command::new("child".to_string());
    child.options.push(opt.clone());
    let mut root = Command::new("root".to_string());
    root.options.push(opt);
    root.subcommands.push(child);
    let copy = root.clone();
    assert_eq!(copy, root);
    assert_eq!(copy.subcommands[0].options[0].argument, "N");
}

#[test]
fn names_options_and_candidates_as_text() {
    let opt = Opt {
        names: vec![
            OptName::new("--all".to_string(), OptNameType::LongType),
            OptName::new("-a".to_string(), OptNameType::ShortType),
        ],
        argument: "N".to_string(),
        description: "show all".to_string(),
    };
    assert_eq!(opt.names[0].to_text(), "--all");
    assert_eq!(opt.to_text(), "--all -a  ::  N\nshow all\n");
    let sub = Subcommand { cmd: "run".to_string(), desc: "Run a command".to_string() };
    assert_eq!(sub.to_text(), format!("{:<25} ({})", "run", "Run a command"));
    assert_eq!(sub.to_text(), "run                       (Run a command)");
    let long = Subcommand { cmd: "x".repeat(30), desc: String::new() };
    assert_eq!(long.to_text(), format!("{} ()", "x".repeat(30)));
    let wide = Subcommand { cmd: "\u{e9}t\u{e9}".to_string(), desc: "d".to_string() };
    assert_eq!(wide.to_text(), format!("{:<25} ({})", "\u{e9}t\u{e9}", "d"));
}
