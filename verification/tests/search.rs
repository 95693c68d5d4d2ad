use textkit::config::{ConfigError, Configuration};
use textkit::engine::{search_files, SourceFile};
use textkit::record::{path_precedes, MatchRecord};
use textkit::report::{render, render_line, Aggregator};
use textkit::search::{search_file, FileScanner};
use textkit::sort::sort_records;
use textkit::text::decimal_string;

fn lines_of(text: &str) -> Vec<String> {
    text.lines().map(|l| l.to_string()).collect()
}

fn readable(path: &str, text: &str) -> SourceFile {
    SourceFile { path: path.to_string(), lines: Some(lines_of(text)) }
}

fn unreadable(path: &str) -> SourceFile {
    SourceFile { path: path.to_string(), lines: None }
}

fn literal(keyword: &str, ignore_case: bool) -> Configuration {
    Configuration::validate(keyword, "root", true, ignore_case, false).unwrap()
}

fn pattern(keyword: &str) -> Configuration {
    Configuration::validate(keyword, "root", true, false, true).unwrap()
}

fn triples(records: &[MatchRecord]) -> Vec<(String, usize, String)> {
    records
        .iter()
        .map(|r| (r.file_path.clone(), r.line_number, r.content.clone()))
        .collect()
}

fn triple(path: &str, line: usize, content: &str) -> (String, usize, String) {
    (path.to_string(), line, content.to_string())
}

#[test]
fn test_basic_search() {
    let cfg = literal("hello", false);
    let files = vec![readable("dir/test.txt", "hello\nworld\nhello world")];
    let report = search_files(&cfg, files);
    let out = render(&report.matches).join("\n");
    assert!(out.contains("hello"));
    assert!(out.contains("hello world"));
    assert_eq!(out, "dir/test.txt:1: hello\ndir/test.txt:3: hello world");
}

#[test]
fn test_case_insensitive() {
    let cfg = Configuration::validate("hello", "dir", true, true, false).unwrap();
    let files = vec![readable("dir/test.txt", "Hello\nWORLD")];
    let report = search_files(&cfg, files);
    let out = render(&report.matches).join("\n");
    assert!(out.contains("Hello"));
    assert_eq!(out, "dir/test.txt:1: Hello");
}

#[test]
fn test_regex_search() {
    let cfg = Configuration::validate(r"\d{3}", "dir", true, false, true).unwrap();
    let files = vec![readable("dir/test.txt", "123\n456\n789")];
    let report = search_files(&cfg, files);
    let out = render(&report.matches).join("\n");
    assert!(out.contains("123"));
    assert!(out.contains("456"));
    assert!(out.contains("789"));
    assert_eq!(report.matches.len(), 3);
}

#[test]
fn empty_keyword_is_an_invalid_argument() {
    for regex_mode in [false, true] {
        for root_is_dir in [false, true] {
            let r = Configuration::validate("", "root", root_is_dir, false, regex_mode);
            assert_eq!(r.err(), Some(ConfigError::InvalidArgument));
        }
    }
}

#[test]
fn missing_root_is_path_not_found() {
    let r = Configuration::validate("word", "nowhere", false, false, false);
    assert_eq!(r.err(), Some(ConfigError::PathNotFound));
    let r = Configuration::validate("(", "nowhere", false, false, true);
    assert_eq!(r.err(), Some(ConfigError::PathNotFound));
}

#[test]
fn invalid_regex_is_an_invalid_pattern() {
    let r = Configuration::validate("foo(bar", "root", true, false, true);
    assert_eq!(r.err(), Some(ConfigError::InvalidPattern));
    let r = Configuration::validate("[a-", "root", true, true, true);
    assert_eq!(r.err(), Some(ConfigError::InvalidPattern));
}

#[test]
fn invalid_regex_is_fine_as_a_literal() {
    let cfg = Configuration::validate("foo(bar", "root", true, false, false).unwrap();
    assert!(cfg.matches("call foo(bar)"));
    assert!(!cfg.matches("foobar"));
}

#[test]
fn configuration_keeps_its_parameters() {
    let cfg = Configuration::validate("Needle", "some/root", true, true, false).unwrap();
    assert_eq!(cfg.keyword(), "Needle");
    assert_eq!(cfg.root(), "some/root");
    assert!(cfg.ignore_case());
    assert!(!cfg.regex_mode());
    let cfg = Configuration::validate(r"a+b", "r", true, false, true).unwrap();
    assert_eq!(cfg.keyword(), "a+b");
    assert_eq!(cfg.root(), "r");
    assert!(!cfg.ignore_case());
    assert!(cfg.regex_mode());
}

#[test]
fn from_compiled_takes_the_pattern_of_the_expression() {
    let cfg =
        Configuration::from_compiled(regex::Regex::new("ab+c"), "root", true, false).unwrap();
    assert_eq!(cfg.keyword(), "ab+c");
    assert!(cfg.regex_mode());
    assert!(cfg.matches("xxabbbcxx"));
    assert!(!cfg.matches("ac"));
}

#[test]
fn from_compiled_reports_each_failure() {
    let r = Configuration::from_compiled(regex::Regex::new("a"), "root", false, false);
    assert_eq!(r.err(), Some(ConfigError::PathNotFound));
    let r = Configuration::from_compiled(regex::Regex::new("("), "root", false, false);
    assert_eq!(r.err(), Some(ConfigError::PathNotFound));
    let r = Configuration::from_compiled(regex::Regex::new("("), "root", true, false);
    assert_eq!(r.err(), Some(ConfigError::InvalidPattern));
    let r = Configuration::from_compiled(regex::Regex::new(""), "root", true, false);
    assert_eq!(r.err(), Some(ConfigError::InvalidArgument));
}

#[test]
fn literal_reports_each_failure() {
    let r = Configuration::literal("", "root", true, false);
    assert_eq!(r.err(), Some(ConfigError::InvalidArgument));
    let r = Configuration::literal("", "root", false, false);
    assert_eq!(r.err(), Some(ConfigError::InvalidArgument));
    let r = Configuration::literal("a", "root", false, true);
    assert_eq!(r.err(), Some(ConfigError::PathNotFound));
    assert!(Configuration::literal("a", "root", true, true).is_ok());
}

#[test]
fn case_sensitive_literal_needs_the_same_case() {
    let sensitive = literal("hello", false);
    assert!(!sensitive.matches("Hello"));
    assert!(sensitive.matches("say hello"));
    let folded = literal("hello", true);
    assert!(folded.matches("Hello"));
    assert!(folded.matches("HELLO there"));
    assert!(!folded.matches("help"));
}

#[test]
fn folding_applies_to_the_keyword_too() {
    let cfg = literal("HeLLo", true);
    assert!(cfg.matches("well, hello"));
    assert!(cfg.matches("HELLO"));
    let cfg = literal("HeLLo", false);
    assert!(!cfg.matches("well, hello"));
    assert!(cfg.matches("HeLLo"));
}

#[test]
fn literal_matches_a_contiguous_part_only() {
    let cfg = literal("abc", false);
    assert!(cfg.matches("abc"));
    assert!(cfg.matches("xxabcxx"));
    assert!(!cfg.matches("ab c"));
    assert!(!cfg.matches("acb"));
    assert!(!cfg.matches(""));
}

#[test]
fn regex_matches_three_digits() {
    let cfg = pattern(r"\d{3}");
    assert!(cfg.matches("123"));
    assert!(cfg.matches("456"));
    assert!(cfg.matches("789"));
    assert!(!cfg.matches("ab"));
    assert!(!cfg.matches("12"));
    assert!(cfg.matches("ab1234"));
}

#[test]
fn regex_is_applied_to_the_line_as_it_stands() {
    let cfg = Configuration::validate("[A-Z]+", "root", true, true, true).unwrap();
    assert!(cfg.matches("some WORD"));
    assert!(!cfg.matches("no capitals"));
    let cfg = Configuration::validate("hello", "root", true, true, true).unwrap();
    assert!(!cfg.matches("Hello"));
}

#[test]
fn scan_numbers_lines_from_one() {
    let cfg = literal("x", false);
    let found = search_file("f", lines_of("x\n\nax\nb\nxx"), &cfg);
    assert_eq!(
        triples(&found),
        vec![triple("f", 1, "x"), triple("f", 3, "ax"), triple("f", 5, "xx")]
    );
}

#[test]
fn scan_keeps_the_line_unchanged() {
    let cfg = literal("hello", true);
    let found = search_file("p", vec!["   HeLLo World \t".to_string()], &cfg);
    assert_eq!(triples(&found), vec![triple("p", 1, "   HeLLo World \t")]);
}

#[test]
fn scan_of_no_lines_finds_nothing() {
    let cfg = literal("x", false);
    assert!(search_file("f", Vec::new(), &cfg).is_empty());
    assert!(search_file("f", lines_of("a\nb"), &cfg).is_empty());
}

#[test]
fn scanner_reports_each_line_as_it_is_fed() {
    let cfg = literal("a", false);
    let mut scanner = FileScanner::new("file");
    assert_eq!(scanner.line_count(), 0);
    assert!(!scanner.feed(&cfg, "b".to_string()));
    assert!(scanner.feed(&cfg, "cat".to_string()));
    assert!(!scanner.feed(&cfg, "".to_string()));
    assert!(scanner.feed(&cfg, "a".to_string()));
    assert_eq!(scanner.line_count(), 4);
    let found = scanner.finish();
    assert_eq!(triples(&found), vec![triple("file", 2, "cat"), triple("file", 4, "a")]);
}

#[test]
fn scanner_agrees_with_the_batch_scan() {
    let cfg = pattern("o+");
    let text = "foo\nbar\nboo\n\nzoo";
    let mut scanner = FileScanner::new("t");
    for line in lines_of(text) {
        scanner.feed(&cfg, line);
    }
    assert_eq!(
        triples(&scanner.finish()),
        triples(&search_file("t", lines_of(text), &cfg))
    );
}

#[test]
fn report_lists_paths_in_order() {
    let mut agg = Aggregator::new();
    agg.collect(MatchRecord::new("b.txt".to_string(), 1, "match".to_string()));
    agg.collect(MatchRecord::new("a.txt".to_string(), 5, "match".to_string()));
    let report = agg.finish();
    assert_eq!(
        triples(&report.matches),
        vec![triple("a.txt", 5, "match"), triple("b.txt", 1, "match")]
    );
    assert_eq!(render(&report.matches), vec!["a.txt:5: match", "b.txt:1: match"]);
}

#[test]
fn sort_keeps_the_order_within_a_path() {
    let input = vec![
        MatchRecord::new("b".to_string(), 1, "b1".to_string()),
        MatchRecord::new("a".to_string(), 2, "a2".to_string()),
        MatchRecord::new("b".to_string(), 4, "b4".to_string()),
        MatchRecord::new("c".to_string(), 1, "c1".to_string()),
        MatchRecord::new("a".to_string(), 9, "a9".to_string()),
        MatchRecord::new("b".to_string(), 7, "b7".to_string()),
        MatchRecord::new("a".to_string(), 3, "late".to_string()),
    ];
    let out = sort_records(input);
    assert_eq!(
        triples(&out),
        vec![
            triple("a", 2, "a2"),
            triple("a", 9, "a9"),
            triple("a", 3, "late"),
            triple("b", 1, "b1"),
            triple("b", 4, "b4"),
            triple("b", 7, "b7"),
            triple("c", 1, "c1"),
        ]
    );
}

#[test]
fn sort_of_few_records() {
    assert!(sort_records(Vec::new()).is_empty());
    let one = sort_records(vec![MatchRecord::new("x".to_string(), 3, "c".to_string())]);
    assert_eq!(triples(&one), vec![triple("x", 3, "c")]);
}

#[test]
fn sort_agrees_with_a_stable_sort_by_path() {
    let mut input = Vec::new();
    let mut seed: u32 = 12345;
    for n in 0..500usize {
        seed = seed.wrapping_mul(1103515245).wrapping_add(12345);
        let path = format!("dir/f{}", (seed >> 16) % 23);
        input.push((path, n, format!("line {}", n)));
    }
    let mut expected = input.clone();
    expected.sort_by(|a, b| a.0.cmp(&b.0));
    let records = input
        .into_iter()
        .map(|(p, n, c)| MatchRecord::new(p, n, c))
        .collect();
    assert_eq!(triples(&sort_records(records)), expected);
}

#[test]
fn paths_are_ordered_byte_by_byte() {
    assert!(path_precedes("a", "b"));
    assert!(!path_precedes("b", "a"));
    assert!(!path_precedes("a", "a"));
    assert!(path_precedes("a", "ab"));
    assert!(!path_precedes("ab", "a"));
    assert!(path_precedes("", "a"));
    assert!(path_precedes("B", "a"));
    assert!(path_precedes("a.b", "a/b"));
    assert!(path_precedes("z", "\u{e9}"));
    assert!(path_precedes("dir/10", "dir/9"));
}

#[test]
fn rendered_line_has_path_number_and_trimmed_content() {
    let r = MatchRecord::new("src/a.rs".to_string(), 120, "\t  let x = 1;  \r".to_string());
    assert_eq!(render_line(&r), "src/a.rs:120: let x = 1;");
    let r = MatchRecord::new("f".to_string(), 1, "   ".to_string());
    assert_eq!(render_line(&r), "f:1: ");
    let r = MatchRecord::new("f".to_string(), 7, "\u{3000}a b\u{a0}".to_string());
    assert_eq!(render_line(&r), "f:7: a b");
}

#[test]
fn numerals_are_decimal() {
    assert_eq!(decimal_string(0), "0");
    assert_eq!(decimal_string(7), "7");
    assert_eq!(decimal_string(10), "10");
    assert_eq!(decimal_string(1234567890), "1234567890");
    assert_eq!(decimal_string(u64::MAX), "18446744073709551615");
}

#[test]
fn empty_tree_gives_an_empty_report() {
    let cfg = literal("anything", false);
    let report = search_files(&cfg, Vec::new());
    assert!(report.matches.is_empty());
    assert!(report.skipped.is_empty());
    assert!(render(&report.matches).is_empty());
}

#[test]
fn files_without_matches_give_an_empty_report() {
    let cfg = literal("needle", false);
    let files = vec![readable("a", "hay\nhay"), readable("b", ""), readable("c", "more hay")];
    let report = search_files(&cfg, files);
    assert!(report.matches.is_empty());
    assert!(report.skipped.is_empty());
}

#[test]
fn unreadable_file_is_skipped_and_the_rest_is_searched() {
    let cfg = literal("hit", false);
    let files = vec![
        readable("d/one", "hit\nmiss"),
        unreadable("d/locked"),
        readable("d/two", "miss\nhit again"),
        readable("d/three", "a hit\nhit"),
    ];
    let report = search_files(&cfg, files);
    assert_eq!(report.skipped, vec!["d/locked"]);
    assert_eq!(
        render(&report.matches),
        vec!["d/one:1: hit", "d/three:1: a hit", "d/three:2: hit", "d/two:2: hit again"]
    );
    let without = vec![
        readable("d/one", "hit\nmiss"),
        readable("d/two", "miss\nhit again"),
        readable("d/three", "a hit\nhit"),
    ];
    let other = search_files(&cfg, without);
    assert_eq!(triples(&other.matches), triples(&report.matches));
    assert!(other.skipped.is_empty());
}

#[test]
fn report_does_not_depend_on_the_order_of_files() {
    let cfg = literal("e", true);
    let build = |order: &[usize]| -> Vec<SourceFile> {
        let all = [
            ("z/last", "one\ntwo\nthree"),
            ("a/first", "E\nf\ne"),
            ("m/mid", "none\nsome\n"),
            ("a/also", "x\ny"),
        ];
        order.iter().map(|&k| readable(all[k].0, all[k].1)).collect()
    };
    let first = search_files(&cfg, build(&[0, 1, 2, 3]));
    let second = search_files(&cfg, build(&[3, 2, 1, 0]));
    let third = search_files(&cfg, build(&[2, 0, 3, 1]));
    assert_eq!(render(&first.matches), render(&second.matches));
    assert_eq!(render(&first.matches), render(&third.matches));
    assert_eq!(
        render(&first.matches),
        vec![
            "a/first:1: E",
            "a/first:3: e",
            "m/mid:1: none",
            "m/mid:2: some",
            "z/last:1: one",
            "z/last:3: three",
        ]
    );
}

#[test]
fn searching_twice_gives_the_same_report() {
    let cfg = pattern("a.c");
    let files = || vec![readable("y", "abc\nac\na-c"), readable("x", "xxaxcxx")];
    let one = render(&search_files(&cfg, files()).matches);
    let two = render(&search_files(&cfg, files()).matches);
    assert_eq!(one, two);
    assert_eq!(one, vec!["x:1: xxaxcxx", "y:1: abc", "y:3: a-c"]);
}

#[test]
fn report_holds_exactly_the_matching_lines() {
    let cfg = literal("1", false);
    let mut files = Vec::new();
    let mut expected = Vec::new();
    for f in 0..12usize {
        let path = format!("file{:02}", f);
        let mut lines = Vec::new();
        for l in 0..40usize {
            let line = format!("{}", (f * 7 + l * 13) % 31);
            if line.contains('1') {
                expected.push((path.clone(), l + 1, line.clone()));
            }
            lines.push(line);
        }
        files.push(SourceFile { path, lines: Some(lines) });
    }
    files.reverse();
    let report = search_files(&cfg, files);
    assert_eq!(triples(&report.matches), expected);
}

#[test]
fn aggregator_takes_records_in_any_interleaving() {
    let rec = |p: &str, n: usize| MatchRecord::new(p.to_string(), n, format!("{}{}", p, n));
    let mut one = Aggregator::new();
    one.collect_all(vec![rec("b", 1), rec("b", 2)]);
    one.skip("unreadable");
    one.collect_all(vec![rec("a", 3), rec("a", 8)]);
    let mut two = Aggregator::new();
    two.collect(rec("a", 3));
    two.collect(rec("b", 1));
    two.skip("unreadable");
    two.collect(rec("b", 2));
    two.collect(rec("a", 8));
    let one = one.finish();
    let two = two.finish();
    assert_eq!(triples(&one.matches), triples(&two.matches));
    assert_eq!(one.skipped, vec!["unreadable"]);
    assert_eq!(two.skipped, vec!["unreadable"]);
    assert_eq!(
        triples(&one.matches),
        vec![
            triple("a", 3, "a3"),
            triple("a", 8, "a8"),
            triple("b", 1, "b1"),
            triple("b", 2, "b2")
        ]
    );
}
