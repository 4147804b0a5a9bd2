use hcl::types::{Command, Opt, OptName, OptNameType};
use std::path::Path;

use hcl::{
    build_command, clean_text, command_name, format_native, Cli, JsonGenerator, Postprocessor,
};

fn cli() -> Cli {
    Cli {
        command: None,
        file: None,
        subcommand: None,
        loadjson: None,
        format: "native".to_string(),
        json: false,
        skip_man: false,
        list_subcommands: false,
        debug: false,
        depth: 4,
        completions: None,
        write: false,
        bash_completion_compat: false,
    }
}

#[test]
fn test_build_command_uses_command_name_and_parses_options() {
    let mut given = cli();
    given.command = Some("mycmd".to_string());

    let help = "USAGE: mycmd [OPTIONS]\n\nOPTIONS:\n  -v, --verbose   be verbose";
    let cmd = build_command(command_name(&given, None), help, given.depth);

    assert_eq!(cmd.name, "mycmd");
    assert!(cmd.usage.contains("mycmd"));
    assert_eq!(cmd.options.len(), 1);
    let opt = &cmd.options[0];
    let names: Vec<String> = opt.names.iter().map(|n| n.raw.clone()).collect();
    assert!(names.contains(&"-v".to_string()));
    assert!(names.contains(&"--verbose".to_string()));
}

#[test]
fn test_build_command_name_from_file_and_subcommands() {
    let mut given = cli();
    given.file = Some("/tmp/mycmd-help.txt".to_string());
    given.depth = 1;

    let help = "USAGE: mycmd [COMMAND]\n\nSUBCOMMANDS:\n  run   Run things\n  build Build things";
    let file_name = Path::new("/tmp/mycmd-help.txt").file_name().and_then(|n| n.to_str());
    let cmd = build_command(command_name(&given, file_name), help, given.depth);

    assert_eq!(cmd.name, "mycmd-help.txt".to_string());
    let names: Vec<String> = cmd.subcommands.iter().map(|s| s.name.clone()).collect();
    assert!(names.contains(&"run".to_string()));
    assert!(names.contains(&"build".to_string()));
}

#[test]
fn the_name_is_the_command_then_the_file_name_then_the_subcommand() {
    let mut given = cli();
    assert_eq!(command_name(&given, None), "command");
    given.subcommand = Some("git-log".to_string());
    assert_eq!(command_name(&given, None), "git-log");
    assert_eq!(command_name(&given, Some("ignored")), "git-log");
    given.file = Some("dir/help.txt".to_string());
    assert_eq!(command_name(&given, Some("help.txt")), "help.txt");
    // a path without a last part
    assert_eq!(command_name(&given, None), "command");
    given.command = Some("ls".to_string());
    assert_eq!(command_name(&given, Some("help.txt")), "ls");
}

#[test]
fn test_format_native_includes_fields() {
    let mut cmd = Command::new("test".to_string());
    cmd.description = "Test command".to_string();
    cmd.usage = "test [OPTIONS]".to_string();

    cmd.options.push(Opt {
        names: vec![
            OptName::new("-v".to_string(), OptNameType::ShortType),
            OptName::new("--verbose".to_string(), OptNameType::LongType),
        ],
        argument: "FILE".to_string(),
        description: "Enable verbose mode".to_string(),
    });

    cmd.subcommands.push(Command {
        name: "sub".to_string(),
        description: String::new(),
        usage: String::new(),
        options: Vec::new(),
        subcommands: Vec::new(),
        version: String::new(),
    });

    let out = format_native(&cmd);
    assert!(out.contains("Name:  test"));
    assert!(out.contains("Desc:  Test command"));
    assert!(out.contains("Usage:\ntest [OPTIONS]"));
    assert!(out.contains("-v, --verbose"));
    assert!(out.contains("Subcommand: sub"));
    assert_eq!(
        out,
        "Name:  test\n\nDesc:  Test command\n\nUsage:\ntest [OPTIONS]\n\n  -v, --verbose (FILE)\n\nSubcommand: sub"
    );
}

#[test]
fn test_cli_effective_format_and_helpers() {
    let mut given = cli();
    given.command = Some("ls".to_string());
    given.format = "bash".to_string();

    // json flag off, effective_format should be underlying format
    assert_eq!(given.effective_format(), "bash");
    assert_eq!(given.get_input(), Some("ls"));
    assert!(!given.is_preprocess_only());

    given.json = true;
    // json flag forces json format
    assert_eq!(given.effective_format(), "json");
}

#[test]
fn input_prefers_json_file_then_file_then_command() {
    let mut given = cli();
    assert_eq!(given.get_input(), None);
    given.command = Some("c".to_string());
    assert_eq!(given.get_input(), Some("c"));
    given.file = Some("f".to_string());
    assert_eq!(given.get_input(), Some("f"));
    given.loadjson = Some("j".to_string());
    assert_eq!(given.get_input(), Some("j"));
    given.debug = true;
    assert!(given.is_preprocess_only());
}

#[test]
fn built_command_has_usage_options_and_lifted_subcommands() {
    let help = "usage: tool [OPTIONS]\n\n  -a\n      all of it\n\nrun  Run a thing";
    let cmd = build_command("tool".to_string(), help, 1);
    assert_eq!(cmd.usage, "usage: tool [OPTIONS]");
    assert_eq!(cmd.description, "");
    assert_eq!(cmd.version, "");
    assert_eq!(cmd.options.len(), 1);
    assert_eq!(cmd.options[0].description, "all of it");
    for sub in &cmd.subcommands {
        assert!(sub.options.is_empty());
        assert!(sub.subcommands.is_empty());
        assert_eq!(sub.usage, "");
        assert_eq!(sub.version, "");
    }
    assert!(cmd.subcommands.iter().any(|s| s.name == "run" && s.description == "Run a thing"));
    let fixed = Postprocessor::fix_command(cmd);
    assert_eq!(fixed.options.len(), 1);
}

#[test]
fn depth_zero_finds_no_subcommands() {
    let cmd = build_command("tool".to_string(), "run  Run a thing", 0);
    assert!(cmd.subcommands.is_empty());
    assert!(!build_command("tool".to_string(), "run  Run a thing", 1).subcommands.is_empty());
}

#[test]
fn clean_text_runs_the_three_steps_in_order() {
    assert_eq!(clean_text("* a\tb"), "a    b");
    assert_eq!(clean_text("\u{2022} x\u{00A0}y  z\n"), "x y z");
    assert_eq!(clean_text("plain\n"), "plain");
    assert_eq!(clean_text(""), "");
}

#[test]
fn test_json_generator_includes_fields() {
    let cmd = Command {
        name: "test".to_string(),
        description: "Test command".to_string(),
        usage: "test [OPTIONS]".to_string(),
        options: vec![],
        subcommands: vec![Command {
            name: "sub".to_string(),
            description: "Subcommand".to_string(),
            usage: String::new(),
            options: vec![],
            subcommands: vec![],
            version: String::new(),
        }],
        version: "1.0.0".to_string(),
    };

    let json_str = JsonGenerator::generate(&cmd);
    let value: serde_json::Value = serde_json::from_str(&json_str).unwrap();
    assert_eq!(value["name"], "test");
    assert_eq!(value["description"], "Test command");
    assert_eq!(value["usage"], "test [OPTIONS]");
    assert_eq!(value["version"], "1.0.0");
    assert_eq!(value["subcommands"][0]["name"], "sub");
    assert_eq!(value["subcommands"][0]["description"], "Subcommand");
}

#[test]
fn test_json_generator_includes_options() {
    let cmd = Command {
        name: "test".to_string(),
        description: "Test command".to_string(),
        usage: "test [OPTIONS]".to_string(),
        options: vec![Opt {
            names: vec![
                OptName::new("-v".to_string(), OptNameType::ShortType),
                OptName::new("--verbose".to_string(), OptNameType::LongType),
            ],
            argument: "FILE".to_string(),
            description: "Enable verbose mode".to_string(),
        }],
        subcommands: vec![],
        version: String::new(),
    };

    let json_str = JsonGenerator::generate(&cmd);
    let value: serde_json::Value = serde_json::from_str(&json_str).unwrap();

    assert_eq!(value["options"].as_array().unwrap().len(), 1);
    let opt = &value["options"][0];
    assert_eq!(
        opt["names"],
        serde_json::Value::Array(vec![
            serde_json::Value::String("-v".to_string()),
            serde_json::Value::String("--verbose".to_string()),
        ])
    );
    assert_eq!(opt["argument"], "FILE");
    assert_eq!(opt["description"], "Enable verbose mode");
}

#[test]
fn json_leaves_out_empty_version_and_missing_subcommands() {
    let cmd = Command::new("tool".to_string());
    let value: serde_json::Value = serde_json::from_str(&JsonGenerator::generate(&cmd)).unwrap();
    let object = value.as_object().unwrap();
    let keys: Vec<&str> = object.keys().map(|k| k.as_str()).collect();
    assert_eq!(keys, vec!["description", "name", "options", "usage"]);
    assert_eq!(
        JsonGenerator::generate(&cmd),
        "{\n  \"description\": \"\",\n  \"name\": \"tool\",\n  \"options\": [],\n  \"usage\": \"\"\n}"
    );
}

#[test]
fn json_shows_subcommands_by_name_and_description_only() {
    let mut leaf = Command::new("leaf".to_string());
    leaf.options.push(Opt {
        names: vec![OptName::new("-x".to_string(), OptNameType::ShortType)],
        argument: String::new(),
        description: "x".to_string(),
    });
    leaf.subcommands.push(Command::new("deeper".to_string()));
    let mut root = Command::new("root".to_string());
    root.subcommands.push(leaf);
    let value = JsonGenerator::command_to_json(&root);
    let sub = value["subcommands"][0].as_object().unwrap();
    assert_eq!(sub.len(), 2);
    assert_eq!(sub["name"], "leaf");
    assert_eq!(sub["description"], "");
}
