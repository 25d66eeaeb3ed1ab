use minigrep::config::Config;
use minigrep::highlight::{fold_map, highlight, highlight_folded, match_spans, splice};
use minigrep::scan::{scan_line, scan_lines};

fn chars(s: &str) -> Vec<char> {
    s.chars().collect()
}

fn colours_on() {
    colored::control::set_override(true);
}

fn colored_config(pattern: &str) -> Config {
    let mut cfg = Config::default();
    cfg.colored = true;
    cfg.pattern = pattern.to_string();
    cfg.targets = vec!["a.txt".to_string()];
    cfg
}

fn one_to_one(len: usize) -> Vec<usize> {
    (0..=len).collect()
}

fn spans_in(hay: &str, needle: &str) -> Vec<(usize, usize)> {
    let hay = chars(hay);
    match_spans(&hay, &chars(needle), &one_to_one(hay.len()))
}

#[test]
fn match_spans_are_leftmost_and_do_not_overlap() {
    assert_eq!(spans_in("aaaa", "aa"), vec![(0, 2), (2, 4)]);
    assert_eq!(spans_in("aaaaa", "aa"), vec![(0, 2), (2, 4)]);
    assert_eq!(spans_in("abcabcabc", "bc"), vec![(1, 3), (4, 6), (7, 9)]);
    assert_eq!(spans_in("ababa", "aba"), vec![(0, 3)]);
    assert_eq!(spans_in("hello", "xyz"), Vec::<(usize, usize)>::new());
    assert_eq!(spans_in("hello", ""), Vec::<(usize, usize)>::new());
    assert_eq!(spans_in("", "a"), Vec::<(usize, usize)>::new());
}

#[test]
fn match_spans_map_places_back_to_the_line() {
    // A line of two characters whose first takes two places in the copy.
    let hay = chars("i\u{307}x");
    let bounds = vec![0, 2, 3];
    assert_eq!(match_spans(&hay, &chars("x"), &bounds), vec![(1, 2)]);
    assert_eq!(match_spans(&hay, &chars("i"), &bounds), vec![(0, 1)]);
    assert_eq!(match_spans(&hay, &chars("\u{307}"), &bounds), vec![(0, 1)]);
    assert_eq!(match_spans(&hay, &chars("\u{307}x"), &bounds), vec![(0, 2)]);
    assert_eq!(match_spans(&hay, &chars("i\u{307}x"), &bounds), vec![(0, 2)]);
}

#[test]
fn match_spans_go_on_behind_the_part_that_was_taken() {
    // Both places of the first character match; it is taken once.
    let hay = chars("aab");
    let bounds = vec![0, 2, 3];
    assert_eq!(match_spans(&hay, &chars("a"), &bounds), vec![(0, 1)]);
    assert_eq!(match_spans(&hay, &chars("b"), &bounds), vec![(1, 2)]);
}

#[test]
fn match_spans_without_bounds() {
    assert_eq!(
        match_spans(&chars("abc"), &chars("b"), &Vec::new()),
        Vec::<(usize, usize)>::new()
    );
    assert_eq!(
        match_spans(&chars("abc"), &chars("b"), &vec![0]),
        Vec::<(usize, usize)>::new()
    );
}

#[test]
fn fold_map_of_a_line_that_keeps_its_length() {
    assert_eq!(fold_map("Hello", 5, true), Some(vec![0, 1, 2, 3, 4, 5]));
    assert_eq!(fold_map("Hello", 5, false), Some(vec![0, 1, 2, 3, 4, 5]));
    assert_eq!(fold_map("", 0, true), Some(vec![0]));
    assert_eq!(fold_map("\u{c9}t\u{e9}", 3, true), Some(vec![0, 1, 2, 3]));
}

#[test]
fn fold_map_of_a_line_that_grows_when_folded() {
    assert_eq!("\u{130}x".to_lowercase().chars().count(), 3);
    assert_eq!(fold_map("\u{130}x", 3, true), Some(vec![0, 2, 3]));
    assert_eq!(fold_map("a\u{130}\u{130}", 5, true), Some(vec![0, 1, 3, 5]));
}

#[test]
fn fold_map_refuses_a_copy_of_another_length() {
    assert_eq!(fold_map("Hello", 4, true), None);
    assert_eq!(fold_map("Hello", 6, true), None);
    assert_eq!(fold_map("Hello", 4, false), None);
    assert_eq!(fold_map("\u{130}x", 2, true), None);
    assert_eq!(fold_map("", 1, false), None);
}

#[test]
fn fold_map_accepts_a_line_with_a_final_sigma() {
    let line = "\u{391}\u{3a3} \u{3a3}\u{391}\u{3a3}";
    let folded = line.to_lowercase();
    assert_eq!(folded, "\u{3b1}\u{3c2} \u{3c3}\u{3b1}\u{3c2}");
    assert_eq!(
        fold_map(line, folded.chars().count(), true),
        Some(vec![0, 1, 2, 3, 4, 5, 6])
    );
}

#[test]
fn fold_map_accepts_every_character_between_two_letters() {
    for code in 0u32..0x3000 {
        if let Some(c) = char::from_u32(code) {
            let line = format!("a{}b", c);
            let folded_len = line.to_lowercase().chars().count();
            let bounds = fold_map(&line, folded_len, true).expect("folded by character");
            assert_eq!(bounds.len(), 4);
            assert_eq!(bounds[0], 0);
            assert_eq!(bounds[1], 1);
            assert_eq!(bounds[3], folded_len);
        }
    }
}

#[test]
fn splice_replaces_each_span() {
    let spans = vec![(1, 3), (4, 6)];
    let paints = vec!["<BC>".to_string(), "[bc]".to_string()];
    assert_eq!(splice("abcabcx", &spans, &paints), "a<BC>a[bc]x");
}

#[test]
fn splice_without_spans_gives_the_line() {
    assert_eq!(splice("abc", &Vec::new(), &Vec::new()), "abc");
    assert_eq!(splice("", &Vec::new(), &Vec::new()), "");
}

#[test]
fn splice_at_both_ends() {
    let spans = vec![(0, 2), (3, 5)];
    let paints = vec!["X".to_string(), "Y".to_string()];
    assert_eq!(splice("ab-cd", &spans, &paints), "X-Y");
}

#[test]
fn splice_counts_characters() {
    let spans = vec![(1, 2)];
    let paints = vec!["*".to_string()];
    assert_eq!(splice("\u{e9}\u{4e16}z", &spans, &paints), "\u{e9}*z");
}

#[test]
fn splice_with_spans_of_different_widths() {
    let spans = vec![(0, 1), (1, 4)];
    let paints = vec!["<a>".to_string(), "<bcd>".to_string()];
    assert_eq!(splice("abcde", &spans, &paints), "<a><bcd>e");
}

#[test]
fn highlight_wraps_each_match_in_red() {
    colours_on();
    assert_eq!(
        highlight("Hello world", "world", false),
        "Hello \u{1b}[31mworld\u{1b}[0m"
    );
    assert_eq!(
        highlight("abcabc", "bc", false),
        "a\u{1b}[31mbc\u{1b}[0ma\u{1b}[31mbc\u{1b}[0m"
    );
}

#[test]
fn highlight_takes_matches_from_the_left_without_overlap() {
    colours_on();
    assert_eq!(
        highlight("aaaaa", "aa", false),
        "\u{1b}[31maa\u{1b}[0m\u{1b}[31maa\u{1b}[0ma"
    );
}

#[test]
fn highlight_keeps_the_case_of_the_line() {
    colours_on();
    assert_eq!(
        highlight("Hello HELLO hello", "hello", true),
        "\u{1b}[31mHello\u{1b}[0m \u{1b}[31mHELLO\u{1b}[0m \u{1b}[31mhello\u{1b}[0m"
    );
}

#[test]
fn highlight_is_case_sensitive_unless_told() {
    colours_on();
    assert_eq!(
        highlight("Hello hello", "hello", false),
        "Hello \u{1b}[31mhello\u{1b}[0m"
    );
}

#[test]
fn highlight_outside_ascii_keeps_positions() {
    colours_on();
    assert_eq!(
        highlight("\u{c9}t\u{e9} \u{c9}T\u{c9}", "\u{e9}t\u{e9}", true),
        "\u{1b}[31m\u{c9}t\u{e9}\u{1b}[0m \u{1b}[31m\u{c9}T\u{c9}\u{1b}[0m"
    );
}

#[test]
fn highlight_where_folding_changes_byte_lengths() {
    colours_on();
    assert_eq!(
        highlight("\u{23a}x\u{23a}", "x", true),
        "\u{23a}\u{1b}[31mx\u{1b}[0m\u{23a}"
    );
}

#[test]
fn highlight_folds_the_pattern_too() {
    colours_on();
    assert_eq!(
        highlight("Hello world", "HELLO", true),
        "\u{1b}[31mHello\u{1b}[0m world"
    );
    assert_eq!(
        highlight("Hello world", "WoRLd", true),
        "Hello \u{1b}[31mworld\u{1b}[0m"
    );
}

#[test]
fn highlight_does_not_fold_the_pattern_when_case_counts() {
    colours_on();
    assert_eq!(highlight("Hello world", "HELLO", false), "Hello world");
}

#[test]
fn highlight_where_folding_changes_the_number_of_characters() {
    colours_on();
    assert_eq!(
        highlight("\u{130}x", "x", true),
        "\u{130}\u{1b}[31mx\u{1b}[0m"
    );
    assert_eq!(
        highlight("\u{130}stanbul x", "x", true),
        "\u{130}stanbul \u{1b}[31mx\u{1b}[0m"
    );
    assert_eq!(
        highlight("x\u{130}x\u{130}", "X", true),
        "\u{1b}[31mx\u{1b}[0m\u{130}\u{1b}[31mx\u{1b}[0m\u{130}"
    );
}

#[test]
fn highlight_takes_the_whole_character_that_a_match_touches() {
    colours_on();
    assert_eq!(
        highlight("a\u{130}b", "i", true),
        "a\u{1b}[31m\u{130}\u{1b}[0mb"
    );
    assert_eq!(
        highlight("a\u{130}b", "\u{130}", true),
        "a\u{1b}[31m\u{130}\u{1b}[0mb"
    );
    assert_eq!(
        highlight("a\u{130}b", "\u{307}B", true),
        "a\u{1b}[31m\u{130}b\u{1b}[0m"
    );
}

#[test]
fn highlight_with_the_empty_pattern_gives_the_line() {
    colours_on();
    assert_eq!(highlight("Hello world", "", false), "Hello world");
    assert_eq!(highlight("Hello world", "", true), "Hello world");
    assert_eq!(highlight("", "", false), "");
}

#[test]
fn highlight_without_a_match_gives_the_line() {
    colours_on();
    assert_eq!(highlight("Hello world", "xyz", false), "Hello world");
    assert_eq!(highlight("Hello world", "HELLO", false), "Hello world");
    assert_eq!(highlight("", "a", false), "");
}

#[test]
fn highlight_switches_red_on_again_behind_a_reset_in_the_match() {
    colours_on();
    assert_eq!(
        highlight("a\u{1b}[0mb c", "a\u{1b}[0mb", false),
        "\u{1b}[31ma\u{1b}[0m\u{1b}[31mb\u{1b}[0m c"
    );
}

#[test]
fn highlight_folded_looks_in_the_copy_and_paints_the_line() {
    colours_on();
    assert_eq!(
        highlight_folded("ABCD", "abcd", "bc", &one_to_one(4)),
        "A\u{1b}[31mBC\u{1b}[0mD"
    );
    assert_eq!(
        highlight_folded("\u{130}X", "i\u{307}x", "x", &vec![0, 2, 3]),
        "\u{130}\u{1b}[31mX\u{1b}[0m"
    );
}

#[test]
fn scan_line_highlights_when_colours_are_asked_for() {
    colours_on();
    let cfg = colored_config("world");
    assert_eq!(
        scan_line("a.txt", 1, "Hello world", "world", &cfg),
        Some("Hello \u{1b}[31mworld\u{1b}[0m".to_string())
    );
}

#[test]
fn scan_line_puts_the_prefix_before_the_highlighted_body() {
    colours_on();
    let mut cfg = colored_config("world");
    cfg.show_filenames = true;
    cfg.show_line_numbers = true;
    assert_eq!(
        scan_line("a.txt", 12, "Hello world", "world", &cfg),
        Some("a.txt: 12: Hello \u{1b}[31mworld\u{1b}[0m".to_string())
    );
}

#[test]
fn scan_line_does_not_highlight_in_inverted_mode() {
    colours_on();
    let mut cfg = colored_config("world");
    cfg.invert_match = true;
    assert_eq!(scan_line("a.txt", 1, "Hello world", "world", &cfg), None);
    assert_eq!(
        scan_line("a.txt", 2, "nothing here", "world", &cfg),
        Some("nothing here".to_string())
    );
}

#[test]
fn scan_line_does_not_highlight_unless_asked() {
    colours_on();
    let mut cfg = colored_config("world");
    cfg.colored = false;
    assert_eq!(
        scan_line("a.txt", 1, "Hello world", "world", &cfg),
        Some("Hello world".to_string())
    );
}

#[test]
fn scan_lines_highlights_with_case_ignored() {
    colours_on();
    let mut cfg = colored_config("HELLO");
    cfg.case_insensitive = true;
    let lines = vec!["Hello world".to_string(), "goodbye world".to_string()];
    assert_eq!(
        scan_lines("a.txt", &lines, &cfg),
        vec!["\u{1b}[31mHello\u{1b}[0m world".to_string()]
    );
}

#[test]
fn scan_lines_highlights_a_line_that_grows_when_folded() {
    colours_on();
    let mut cfg = colored_config("X");
    cfg.case_insensitive = true;
    cfg.show_line_numbers = true;
    let lines = vec!["nothing".to_string(), "\u{130}x".to_string()];
    assert_eq!(
        scan_lines("a.txt", &lines, &cfg),
        vec!["2: \u{130}\u{1b}[31mx\u{1b}[0m".to_string()]
    );
}

#[test]
fn scan_line_folds_the_pattern_it_is_given_when_it_highlights() {
    colours_on();
    let mut cfg = colored_config("hello");
    cfg.case_insensitive = true;
    assert_eq!(
        scan_line("a.txt", 1, "Hello world", "hello", &cfg),
        Some("\u{1b}[31mHello\u{1b}[0m world".to_string())
    );
}
