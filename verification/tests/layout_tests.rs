use hcl::types::Opt;
use hcl::{IoHandler, Layout, Parser};

fn raws(opt: &Opt) -> Vec<String> {
    opt.names.iter().map(|n| n.raw.clone()).collect()
}

#[test]
fn test_normalize_text() {
    let input = "hello\t\tworld";
    let output = IoHandler::normalize_text(input);
    assert!(!output.contains('\t'));
}

#[test]
fn test_parse_usage() {
    let content = "usage: command [options]\n\ndescription";
    let usage = Layout::parse_usage(content);
    assert!(!usage.is_empty());
}

#[test]
fn test_parse_and_preprocess_blockwise() {
    let content = "\
  -a, --all        show all\n\
\n\
      --verbose    be verbose\n";

    let opts = Layout::parse_blockwise(content);
    assert_eq!(opts.len(), 2);

    let pairs = Layout::preprocess_blockwise(content);
    assert!(pairs.iter().any(|(opt, _)| opt.contains("-a")));
    assert!(pairs.iter().any(|(opt, _)| opt.contains("--verbose")));
}

#[test]
fn test_get_option_offsets() {
    let content = "\
      -a, --all        show all\n\
      --verbose        be verbose\n";

    let offsets = Layout::get_option_offsets(content);
    assert!(!offsets.is_empty());
    // both short and long options are aligned, so we should get a single offset
    assert_eq!(offsets.len(), 1);
}

#[test]
fn two_blocks_give_two_options() {
    let content = "  -a, --all        show all\n\n      --verbose    be verbose\n";
    let blocks = Layout::split_into_blocks(content);
    assert_eq!(
        blocks,
        vec!["  -a, --all        show all", "      --verbose    be verbose"]
    );
    let opts = Layout::parse_blockwise(content);
    assert_eq!(opts.len(), 2);
    assert_eq!(raws(&opts[0]), vec!["--all", "-a"]);
    assert_eq!(opts[0].argument, "show all");
    assert_eq!(opts[0].description, "");
    assert_eq!(raws(&opts[1]), vec!["--verbose"]);
    assert_eq!(opts[1].argument, "be verbose");
    assert_eq!(opts[1].description, "");
}

#[test]
fn usage_stops_at_the_blank_line() {
    assert_eq!(
        Layout::parse_usage("usage: mycmd [OPTIONS]\n\ndescription"),
        "usage: mycmd [OPTIONS]"
    );
}

#[test]
fn usage_takes_indented_lines_and_lines_with_a_colon() {
    let text = "intro\nUSAGE: tool\n  tool run\nor: tool stop\nplain\n  late";
    assert_eq!(Layout::parse_usage(text), "USAGE: tool\n  tool run\nor: tool stop");
    assert_eq!(Layout::parse_usage("Synopsis:\r\n more\r\n"), "Synopsis:\n more");
}

#[test]
fn usage_needs_keyword_and_colon_on_one_line() {
    assert_eq!(Layout::parse_usage(""), "");
    assert_eq!(Layout::parse_usage("usage\n: later"), "");
    assert_eq!(Layout::parse_usage("nothing: here"), "");
    assert_eq!(Layout::parse_usage("no letters of the keyword: 1 2 3"), "");
    assert_eq!(Layout::parse_usage("note: see usage"), "note: see usage");
    assert_eq!(Layout::parse_usage("a\nsYnOpSiS :x"), "sYnOpSiS :x");
}

#[test]
fn usage_matches_as_lowercasing_does() {
    for line in ["Us\u{212A}age:", "U\u{17F}age:", "SYNOPS\u{130}S:", "usage\u{ff1a}", "\u{3a5}SAGE:"] {
        let lower = line.to_lowercase();
        let expected = (lower.contains("usage") || lower.contains("synopsis")) && lower.contains(':');
        assert_eq!(!Layout::parse_usage(line).is_empty(), expected, "{:?}", line);
    }
}

#[test]
fn blocks_end_at_blank_lines_and_take_wrapped_lines() {
    let text = "intro\n  -a  first\n     wrapped\n   \nbetween\n--b\n-c\n\n\nend";
    assert_eq!(
        Layout::split_into_blocks(text),
        vec!["  -a  first\n     wrapped", "--b\n-c"]
    );
}

#[test]
fn text_without_a_dash_has_no_blocks() {
    assert!(Layout::split_into_blocks("").is_empty());
    assert!(Layout::split_into_blocks("plain\n\ntext").is_empty());
    assert!(Layout::parse_blockwise("plain\n\ntext").is_empty());
    assert!(Layout::split_into_blocks("mid-word dash only").is_empty());
    assert!(Layout::split_into_blocks("\u{2013} en dash").is_empty());
}

#[test]
fn blocks_drop_carriage_returns_of_line_ends() {
    assert_eq!(Layout::split_into_blocks("-a\r\n x\r\n\r\n-b\r"), vec!["-a\n x", "-b\r"]);
}

fn many_blocks(n: usize) -> String {
    let mut text = String::new();
    for i in 0..n {
        text.push_str(&format!("  -{}, --option-{}  Description {}\n      more of {}\n\n", i % 10, i, i, i));
    }
    text
}

#[test]
fn parallel_parsing_keeps_the_order_of_the_blocks() {
    let text = many_blocks(40);
    let blocks: Vec<Vec<char>> = Layout::block_rows(&text);
    assert_eq!(blocks.len(), 40);
    let sequential = Layout::parse_blocks_sequential(&blocks);
    let parallel = Layout::parse_blocks_parallel(&blocks);
    assert_eq!(sequential, parallel);
    assert_eq!(sequential.len(), 40);
    let whole = Layout::parse_blockwise(&text);
    assert_eq!(whole.as_slice(), sequential.as_slice());
    for (i, opt) in sequential.iter().enumerate() {
        assert!(opt.names.iter().any(|n| n.raw == format!("--option-{}", i)));
    }
}

#[test]
fn parallel_preprocessing_keeps_the_order_of_the_blocks() {
    let text = many_blocks(9);
    let blocks = Layout::block_rows(&text);
    let sequential = Layout::preprocess_blocks_sequential(&blocks);
    let parallel = Layout::preprocess_blocks_parallel(&blocks);
    assert_eq!(sequential, parallel);
    let whole = Layout::preprocess_blockwise(&text);
    assert_eq!(whole.len(), 9);
    for (i, (opt, desc)) in whole.iter().enumerate() {
        assert!(opt.contains(&format!("--option-{}", i)));
        assert_eq!(desc.as_str(), format!("more of {}", i));
    }
}

#[test]
fn parsing_blockwise_is_repeatable() {
    let text = many_blocks(12);
    let first = Layout::parse_blockwise(&text);
    for _ in 0..5 {
        assert_eq!(Layout::parse_blockwise(&text), first);
    }
}

#[test]
fn few_blocks_and_many_blocks_parse_block_by_block() {
    for n in [0usize, 1, 4, 5, 6] {
        let text = many_blocks(n);
        let expected: Vec<Opt> = Layout::split_into_blocks(&text)
            .iter()
            .flat_map(|b| Parser::parse_line(b))
            .collect();
        assert_eq!(Layout::parse_blockwise(&text).as_slice(), expected.as_slice());
    }
}

#[test]
fn offsets_of_short_and_long_options() {
    assert!(Layout::get_option_offsets("no options").is_empty());
    assert_eq!(Layout::get_option_offsets("  -a\n  -b\n    -c").as_slice(), &[2]);
    assert_eq!(Layout::get_option_offsets("    --long").as_slice(), &[4]);
    assert_eq!(
        Layout::get_option_offsets("  -a, --all\n      --verbose\n      --quiet\n  -b").as_slice(),
        &[2, 6]
    );
}

#[test]
fn offsets_of_equal_frequency_take_the_first() {
    assert_eq!(Layout::get_option_offsets(" -a\n   -b\n   -c\n -d").as_slice(), &[1]);
    assert_eq!(Layout::get_option_offsets("   -a\n -b\n -c\n   -d").as_slice(), &[3]);
    assert_eq!(Layout::get_short_option_offset("-a\n -b\n -c"), Some(1));
    assert_eq!(Layout::get_long_option_offset("-a\n -b\n -c"), None);
}

#[test]
fn offsets_count_bytes_of_the_indentation() {
    // a no-break space takes two bytes, an ideographic space three
    assert_eq!(Layout::get_option_offsets("\u{00A0}-a").as_slice(), &[2]);
    assert_eq!(Layout::get_option_offsets("\u{3000}\t--b").as_slice(), &[4]);
    assert_eq!(
        Layout::get_option_locations("x\n  -a\n--b\n\t-c", false),
        vec![(1, 2), (3, 1)]
    );
    assert_eq!(Layout::get_option_locations("x\n  -a\n--b\n\t-c", true), vec![(2, 0)]);
}

#[test]
fn most_frequent_offset_of_locations() {
    assert_eq!(Layout::get_most_frequent_offset(&vec![]), None);
    assert_eq!(Layout::get_most_frequent_offset(&vec![(0, 7)]), Some(7));
    assert_eq!(
        Layout::get_most_frequent_offset(&vec![(0, 2), (1, 4), (2, 4), (3, 2), (4, 4)]),
        Some(4)
    );
}

#[test]
fn normalize_leaves_plain_text_alone() {
    for text in ["", "plain", "a b c", "line\r\nline\n", "\u{e9} \u{3042}"] {
        assert_eq!(IoHandler::normalize_text(text).as_str(), text);
    }
}

#[test]
fn normalize_expands_tabs_and_then_collapses_pairs() {
    // eight spaces for the tab, then one space for each pair
    assert_eq!(IoHandler::normalize_text("a\tb").as_str(), "a    b");
    assert_eq!(IoHandler::normalize_text("hello\t\tworld").as_str(), "hello        world");
    assert_eq!(IoHandler::normalize_text("a \tb").as_str(), "a     b");
    assert_eq!(IoHandler::normalize_text("x  y\ta").as_str(), "x y    a");
}

#[test]
fn normalize_collapses_pairs_of_spaces() {
    assert_eq!(IoHandler::normalize_text("a  b").as_str(), "a b");
    assert_eq!(IoHandler::normalize_text("a   b").as_str(), "a  b");
    assert_eq!(IoHandler::normalize_text("a    b").as_str(), "a  b");
    assert_eq!(IoHandler::normalize_text("a        b").as_str(), "a    b");
}

#[test]
fn normalize_keeps_line_ends() {
    assert_eq!(IoHandler::normalize_text("a  b\n").as_str(), "a b\n");
    assert_eq!(IoHandler::normalize_text("a  b\n c \n").as_str(), "a b\n c \n");
    assert_eq!(IoHandler::normalize_text("a\tb\r\nc\n").as_str(), "a    b\r\nc\n");
    assert_eq!(IoHandler::normalize_text("\n\n\t").as_str(), "\n\n    ");
}

#[test]
fn normalize_agrees_with_the_plain_replacement() {
    fn slow(text: &str) -> String {
        text.replace('\t', "        ").replace("  ", " ")
    }
    for text in ["", "a", "\t", "  ", "a \tb", " \t \n\t\t\n   x", "a\r\n\tb  c\r\n", "\n\n\t"] {
        assert_eq!(IoHandler::normalize_text(text).as_str(), slow(text), "{:?}", text);
    }
}
