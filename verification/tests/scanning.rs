use minigrep::config::{parse_args, Config};
use minigrep::scan::{decimal_text, prefix_text, read_failure, scan_line, scan_lines};
use minigrep::text::effective_pattern;
use minigrep::usage::{usage, wants_usage};

fn tokens(items: &[&str]) -> Vec<String> {
    items.iter().map(|s| s.to_string()).collect()
}

fn parse(items: &[&str]) -> Config {
    parse_args(tokens(items)).expect("every token list is accepted")
}

fn sample() -> Vec<String> {
    vec!["Hello world".to_string(), "goodbye world".to_string()]
}

#[test]
fn decimal_text_of_small_and_large_numbers() {
    assert_eq!(decimal_text(0), "0");
    assert_eq!(decimal_text(7), "7");
    assert_eq!(decimal_text(9), "9");
    assert_eq!(decimal_text(10), "10");
    assert_eq!(decimal_text(101), "101");
    assert_eq!(decimal_text(12345), "12345");
    assert_eq!(decimal_text(9876543210), "9876543210");
    assert_eq!(decimal_text(usize::MAX), format!("{}", usize::MAX));
}

#[test]
fn decimal_text_agrees_with_std_formatting() {
    for n in 0..2000usize {
        assert_eq!(decimal_text(n), format!("{}", n));
    }
}

#[test]
fn prefix_is_empty_by_default() {
    let cfg = Config::default();
    assert_eq!(prefix_text("a.txt", 3, &cfg), "");
}

#[test]
fn prefix_with_file_name() {
    let mut cfg = Config::default();
    cfg.show_filenames = true;
    assert_eq!(prefix_text("dir/a.txt", 3, &cfg), "dir/a.txt: ");
}

#[test]
fn prefix_with_line_number() {
    let mut cfg = Config::default();
    cfg.show_line_numbers = true;
    assert_eq!(prefix_text("a.txt", 42, &cfg), "42: ");
}

#[test]
fn prefix_has_the_file_name_before_the_line_number() {
    let mut cfg = Config::default();
    cfg.show_filenames = true;
    cfg.show_line_numbers = true;
    assert_eq!(prefix_text("a.txt", 7, &cfg), "a.txt: 7: ");
}

#[test]
fn read_failure_names_the_path_and_the_reason() {
    assert_eq!(
        read_failure("nope.txt", "No such file or directory (os error 2)"),
        "Failed to read nope.txt: No such file or directory (os error 2)"
    );
    assert_eq!(read_failure("", ""), "Failed to read : ");
}

#[test]
fn scan_line_emits_a_matching_line_as_it_is() {
    let cfg = parse(&["world", "a.txt"]);
    assert_eq!(
        scan_line("a.txt", 1, "Hello world", "world", &cfg),
        Some("Hello world".to_string())
    );
}

#[test]
fn scan_line_drops_a_line_without_the_pattern() {
    let cfg = parse(&["Hello", "a.txt"]);
    assert_eq!(scan_line("a.txt", 2, "goodbye world", "Hello", &cfg), None);
}

#[test]
fn scan_line_in_inverted_mode() {
    let cfg = parse(&["-v", "Hello", "a.txt"]);
    assert_eq!(scan_line("a.txt", 1, "Hello world", "Hello", &cfg), None);
    assert_eq!(
        scan_line("a.txt", 2, "goodbye world", "Hello", &cfg),
        Some("goodbye world".to_string())
    );
}

#[test]
fn scan_line_with_both_prefixes() {
    let cfg = parse(&["-fn", "world", "a.txt"]);
    assert_eq!(
        scan_line("a.txt", 10, "Hello world", "world", &cfg),
        Some("a.txt: 10: Hello world".to_string())
    );
}

#[test]
fn scenario_plain_search_emits_both_lines_unmodified() {
    let cfg = parse(&["world", "a.txt"]);
    assert!(!wants_usage(&cfg));
    assert_eq!(
        scan_lines("a.txt", &sample(), &cfg),
        vec!["Hello world".to_string(), "goodbye world".to_string()]
    );
}

#[test]
fn scenario_numbered_inverted_search() {
    let cfg = parse(&["-n", "-v", "Hello", "a.txt"]);
    assert!(!wants_usage(&cfg));
    assert_eq!(
        scan_lines("a.txt", &sample(), &cfg),
        vec!["2: goodbye world".to_string()]
    );
}

#[test]
fn scenario_case_insensitive_search() {
    let cfg = parse(&["-i", "HELLO", "a.txt"]);
    assert!(!wants_usage(&cfg));
    assert_eq!(
        scan_lines("a.txt", &sample(), &cfg),
        vec!["Hello world".to_string()]
    );
}

#[test]
fn scenario_search_with_file_names() {
    let cfg = parse(&["-f", "world", "a.txt"]);
    assert!(!wants_usage(&cfg));
    assert_eq!(
        scan_lines("a.txt", &sample(), &cfg),
        vec!["a.txt: Hello world".to_string(), "a.txt: goodbye world".to_string()]
    );
}

#[test]
fn scenario_missing_file_gives_one_report_and_no_output() {
    let cfg = parse(&["world", "nope.txt"]);
    assert!(!wants_usage(&cfg));
    let emitted = scan_lines("nope.txt", &Vec::new(), &cfg);
    assert!(emitted.is_empty());
    let report = read_failure("nope.txt", "No such file or directory (os error 2)");
    assert!(report.contains("nope.txt"));
    assert!(report.starts_with("Failed to read nope.txt: "));
    assert!(!report.contains('\n'));
}

#[test]
fn scenario_no_arguments_shows_usage() {
    let cfg = parse(&[]);
    assert!(wants_usage(&cfg));
    assert!(usage().starts_with("Usage: grep [OPTIONS] <pattern> <files...>\n"));
}

#[test]
fn line_numbers_count_every_line_read() {
    let cfg = parse(&["-n", "b", "f"]);
    let lines = tokens(&["a", "b", "c", "b", "", "ab"]);
    assert_eq!(
        scan_lines("f", &lines, &cfg),
        tokens(&["2: b", "4: b", "6: ab"])
    );
}

#[test]
fn line_numbers_do_not_depend_on_inversion() {
    let cfg = parse(&["-nv", "b", "f"]);
    let lines = tokens(&["a", "b", "c", "b", "", "ab"]);
    assert_eq!(
        scan_lines("f", &lines, &cfg),
        tokens(&["1: a", "3: c", "5: "])
    );
}

#[test]
fn inversion_emits_the_complement() {
    let lines = tokens(&["alpha", "beta", "", "gamma", "alphabet", "BETA"]);
    for pattern in ["a", "alpha", "beta", "zzz", "m"] {
        for flags in ["-n", "-ni"] {
            let plain = parse(&[flags, pattern, "f"]);
            let mut turned = plain.clone();
            turned.invert_match = true;
            let kept = scan_lines("f", &lines, &plain);
            let dropped = scan_lines("f", &lines, &turned);
            assert_eq!(kept.len() + dropped.len(), lines.len());
            for (i, line) in lines.iter().enumerate() {
                let text = format!("{}: {}", i + 1, line);
                assert_ne!(kept.contains(&text), dropped.contains(&text));
            }
            let mut back = turned.clone();
            back.invert_match = !back.invert_match;
            assert_eq!(scan_lines("f", &lines, &back), kept);
        }
    }
}

#[test]
fn the_empty_pattern_emits_every_line() {
    let mut cfg = Config::default();
    cfg.targets = tokens(&["f"]);
    let lines = tokens(&["one", "", "three"]);
    assert_eq!(scan_lines("f", &lines, &cfg), lines);
    cfg.case_insensitive = true;
    assert_eq!(scan_lines("f", &lines, &cfg), lines);
}

#[test]
fn the_empty_pattern_emits_nothing_in_inverted_mode() {
    let mut cfg = Config::default();
    cfg.targets = tokens(&["f"]);
    cfg.invert_match = true;
    let lines = tokens(&["one", "", "three"]);
    assert!(scan_lines("f", &lines, &cfg).is_empty());
    cfg.case_insensitive = true;
    assert!(scan_lines("f", &lines, &cfg).is_empty());
}

#[test]
fn scan_lines_of_an_empty_file() {
    let cfg = parse(&["x", "f"]);
    assert!(scan_lines("f", &Vec::new(), &cfg).is_empty());
}

#[test]
fn scan_lines_folds_the_pattern_once_for_the_file() {
    let cfg = parse(&["-i", "WoRLd", "f"]);
    assert_eq!(effective_pattern(&cfg.pattern, cfg.case_insensitive), "world");
    let lines = tokens(&["Hello WORLD", "nothing", "world"]);
    assert_eq!(
        scan_lines("f", &lines, &cfg),
        tokens(&["Hello WORLD", "world"])
    );
}
