use lib::report::pretty_report;
use lib::human::human_size;
use lib::parser::{parse, Entry, SizeUnit};
use lib::printer::{basename, print_tree, print_tree_json, PrintOptions, SortMode};

#[test]
fn formats_units() {
    assert_eq!(human_size(512), "512B");
    assert_eq!(human_size(2048), "2.0KiB");
    assert_eq!(human_size(1024 * 1024 * 3), "3.0MiB");
}

#[test]
fn basename_handles_root() {
    assert_eq!(basename("/"), "/");
    assert_eq!(basename("/var/log"), "log");
}

fn sample_entries() -> Vec<Entry> {
    vec![
        Entry { size: 4096, path: "/var".to_string(), line: 1 },
        Entry { size: 3072, path: "/var/log".to_string(), line: 2 },
        Entry { size: 2048, path: "/var/log/syslog".to_string(), line: 3 },
        Entry { size: 1, path: "/var/log/auth.log".to_string(), line: 4 },
        Entry { size: 1, path: "/var/log/kern.log".to_string(), line: 5 },
        Entry { size: 1024, path: "/var/cache".to_string(), line: 6 },
    ]
}

#[test]
fn no_options_prints_full_tree() {
    let entries = sample_entries();
    let out = print_tree(&entries, &PrintOptions::default());
    assert_eq!(out.lines().count(), entries.len());
}

#[test]
fn max_depth_collapses_deeper_entries_into_a_summary() {
    let entries = sample_entries();
    let opts = PrintOptions { max_depth: Some(1), collapse_under: None, ..Default::default() };
    let out = print_tree(&entries, &opts);
    // roots + their direct children (var, cache, log) print in full, the
    // three entries under /var/log fold into one "more entries" line.
    assert_eq!(out.lines().count(), 4);
    assert!(out.contains("2.0KiB  ... 3 more entries"));
}

#[test]
fn collapse_under_folds_small_siblings_together() {
    let entries = sample_entries();
    let opts = PrintOptions { max_depth: None, collapse_under: Some(1024), ..Default::default() };
    let out = print_tree(&entries, &opts);
    assert!(out.contains("2B  ... 2 more entries"));
    assert!(!out.contains("auth.log"));
    assert!(!out.contains("kern.log"));
    assert!(out.contains("syslog"));
}

#[test]
fn json_output_nests_children_and_omits_hidden_when_absent() {
    let entries = vec![
        Entry { size: 4096, path: "/var".to_string(), line: 1 },
        Entry { size: 1024, path: "/var/cache".to_string(), line: 2 },
    ];
    let out = print_tree_json(&entries, &PrintOptions::default());
    assert_eq!(
        out,
        r#"[{"path":"/var","name":"var","size":4096,"children":[{"path":"/var/cache","name":"cache","size":1024,"children":[]}]}]"#
    );
}

#[test]
fn json_max_depth_reports_hidden_count_and_size() {
    let entries = sample_entries();
    let opts = PrintOptions { max_depth: Some(1), collapse_under: None, ..Default::default() };
    let out = print_tree_json(&entries, &opts);
    assert!(out.contains(r#""path":"/var/log","name":"log","size":3072,"children":[],"hidden":{"count":3,"size":2050}"#));
}

#[test]
fn json_collapse_under_reports_hidden_count_and_size() {
    let entries = sample_entries();
    let opts = PrintOptions { max_depth: None, collapse_under: Some(1024), ..Default::default() };
    let out = print_tree_json(&entries, &opts);
    assert!(out.contains(r#""hidden":{"count":2,"size":2}"#));
    assert!(!out.contains("auth.log"));
}

#[test]
fn json_string_escaping_handles_quotes_and_backslashes() {
    let entries = vec![Entry { size: 1, path: "/a\"b\\c".to_string(), line: 1 }];
    let out = print_tree_json(&entries, &PrintOptions::default());
    assert!(out.contains(r#""name":"a\"b\\c""#));
}

#[test]
fn sort_by_name_orders_siblings_alphabetically() {
    let entries = sample_entries();
    let opts = PrintOptions { sort: SortMode::Name, ..Default::default() };
    let out = print_tree(&entries, &opts);
    let auth_pos = out.find("auth.log").unwrap();
    let kern_pos = out.find("kern.log").unwrap();
    let syslog_pos = out.find("syslog").unwrap();
    assert!(auth_pos < kern_pos);
    assert!(kern_pos < syslog_pos);
}

fn readme_report() -> Vec<Entry> {
    let input = "4096\t/var\n2048\t/var/log\n1024\t/var/log/syslog\n1024\t/var/log/auth.log\n8192\t/var/cache\n";
    parse(input, SizeUnit::Bytes).unwrap()
}

#[test]
fn readme_full_tree() {
    let out = print_tree(&readme_report(), &PrintOptions::default());
    assert_eq!(
        out,
        "    4.0KiB  var\n      8.0KiB  cache\n      2.0KiB  log\n        1.0KiB  auth.log\n        1.0KiB  syslog\n"
    );
}

#[test]
fn readme_max_depth_one() {
    let opts = PrintOptions { max_depth: Some(1), ..Default::default() };
    let out = print_tree(&readme_report(), &opts);
    assert_eq!(
        out,
        "    4.0KiB  var\n      8.0KiB  cache\n      2.0KiB  log\n        2.0KiB  ... 2 more entries\n"
    );
}

#[test]
fn readme_collapse_under() {
    let opts = PrintOptions { collapse_under: Some(2048), ..Default::default() };
    let out = print_tree(&readme_report(), &opts);
    assert_eq!(
        out,
        "    4.0KiB  var\n      8.0KiB  cache\n      2.0KiB  log\n        2.0KiB  ... 2 more entries\n"
    );
}

#[test]
fn readme_sort_by_name() {
    let opts = PrintOptions { sort: SortMode::Name, max_depth: Some(1), ..Default::default() };
    let out = print_tree(&readme_report(), &opts);
    assert_eq!(
        out,
        "    4.0KiB  var\n      8.0KiB  cache\n      2.0KiB  log\n        2.0KiB  ... 2 more entries\n"
    );
}

#[test]
fn readme_json_max_depth_one() {
    let opts = PrintOptions { max_depth: Some(1), ..Default::default() };
    let out = print_tree_json(&readme_report(), &opts);
    assert_eq!(
        out,
        r#"[{"path":"/var","name":"var","size":4096,"children":[{"path":"/var/cache","name":"cache","size":8192,"children":[]},{"path":"/var/log","name":"log","size":2048,"children":[],"hidden":{"count":2,"size":2048}}]}]"#
    );
}

#[test]
fn a_single_hidden_entry_is_still_counted_as_entries() {
    let entries = vec![
        Entry { size: 10, path: "/a".to_string(), line: 1 },
        Entry { size: 3, path: "/a/b".to_string(), line: 2 },
    ];
    let opts = PrintOptions { max_depth: Some(0), ..Default::default() };
    assert_eq!(print_tree(&entries, &opts), "       10B  a\n          3B  ... 1 more entries\n");
}

#[test]
fn equal_sizes_are_ordered_by_path() {
    let entries = vec![
        Entry { size: 10, path: "/".to_string(), line: 1 },
        Entry { size: 5, path: "/b".to_string(), line: 2 },
        Entry { size: 5, path: "/a".to_string(), line: 3 },
        Entry { size: 7, path: "/c".to_string(), line: 4 },
    ];
    let out = print_tree(&entries, &PrintOptions::default());
    assert_eq!(out, "       10B  /\n          7B  c\n          5B  a\n          5B  b\n");
}

#[test]
fn orphans_are_printed_as_roots_and_names_tie_in_report_order() {
    let entries = vec![
        Entry { size: 1, path: "/x/b/f".to_string(), line: 1 },
        Entry { size: 2, path: "/y/a/f".to_string(), line: 2 },
        Entry { size: 3, path: "/z/e".to_string(), line: 3 },
    ];
    let opts = PrintOptions { sort: SortMode::Name, ..Default::default() };
    let out = print_tree(&entries, &opts);
    assert_eq!(out, "        3B  e\n        1B  f\n        2B  f\n");
}

#[test]
fn json_escapes_control_characters() {
    let entries = vec![Entry { size: 1, path: "/a\n\t\r\u{1}\u{1f}é".to_string(), line: 1 }];
    let out = print_tree_json(&entries, &PrintOptions::default());
    assert!(out.contains(r#""name":"a\n\t\r\u0001\u001fé""#));
}

#[test]
fn empty_report_prints_nothing() {
    assert_eq!(print_tree(&[], &PrintOptions::default()), "");
    assert_eq!(print_tree_json(&[], &PrintOptions::default()), "[]");
}

#[test]
fn deep_summary_counts_all_descendants() {
    let entries = vec![
        Entry { size: 100, path: "/r".to_string(), line: 1 },
        Entry { size: 60, path: "/r/a".to_string(), line: 2 },
        Entry { size: 30, path: "/r/a/b".to_string(), line: 3 },
        Entry { size: 10, path: "/r/a/b/c".to_string(), line: 4 },
        Entry { size: 40, path: "/r/d".to_string(), line: 5 },
    ];
    let opts = PrintOptions { max_depth: Some(0), ..Default::default() };
    assert_eq!(print_tree(&entries, &opts), "      100B  r\n        100B  ... 4 more entries\n");
    let json = print_tree_json(&entries, &opts);
    assert_eq!(json, r#"[{"path":"/r","name":"r","size":100,"children":[],"hidden":{"count":4,"size":100}}]"#);
}

#[test]
fn basename_cases() {
    assert_eq!(basename("var"), "var");
    assert_eq!(basename("/var/"), "/var/");
    assert_eq!(basename("./a"), "a");
}

#[test]
fn human_size_boundaries() {
    assert_eq!(human_size(0), "0B");
    assert_eq!(human_size(1023), "1023B");
    assert_eq!(human_size(1024), "1.0KiB");
    assert_eq!(human_size(1280), "1.2KiB");
    assert_eq!(human_size(1792), "1.8KiB");
    assert_eq!(human_size(1024 * 1024 - 1), "1024.0KiB");
    assert_eq!(human_size(1u64 << 40), "1.0TiB");
    assert_eq!(human_size(1u64 << 50), "1024.0TiB");
}

fn float_reference(bytes: u64) -> String {
    const UNITS: [&str; 5] = ["B", "KiB", "MiB", "GiB", "TiB"];
    if bytes < 1024 {
        return format!("{}{}", bytes, UNITS[0]);
    }
    let mut size = bytes as f64;
    let mut unit = 0;
    while size >= 1024.0 && unit < UNITS.len() - 1 {
        size /= 1024.0;
        unit += 1;
    }
    format!("{:.1}{}", size, UNITS[unit])
}

#[test]
fn human_size_agrees_with_float_formatting() {
    let mut samples: Vec<u64> = vec![
        1024, 1075, 1126, 1127, 1280, 1331, 1536, 1792, 10239, 10240, 1048575, 1048576,
        u64::MAX, u64::MAX - 1, (1u64 << 53) + 1, (1u64 << 53) + 3, (1u64 << 54) + 2,
        (1u64 << 63) + (1u64 << 10), 9007199254740993, 123456789012345678,
    ];
    let mut x: u64 = 1;
    for _ in 0..2000 {
        x = x.wrapping_mul(6364136223846793005).wrapping_add(1442695040888963407);
        samples.push(x >> (x % 60));
        samples.push(x);
    }
    for k in 10..64 {
        let b = 1u64 << k;
        samples.push(b);
        samples.push(b + b / 20);
        samples.push(b + b / 4);
        samples.push(b - 1);
    }
    for s in samples {
        assert_eq!(human_size(s), float_reference(s), "size {}", s);
    }
}

fn repeated_entries() -> Vec<Entry> {
    vec![
        Entry { size: 20, path: "/a".to_string(), line: 1 },
        Entry { size: 10, path: "/a".to_string(), line: 2 },
        Entry { size: 5, path: "/a/b".to_string(), line: 3 },
        Entry { size: 5, path: "/a/b".to_string(), line: 4 },
        Entry { size: 1, path: "/a/b/c".to_string(), line: 5 },
    ]
}

#[test]
fn repeated_paths_each_carry_the_children_of_their_path() {
    let entries = repeated_entries();
    let under_a = format!(
        "  {:>10}  b\n    {:>10}  c\n  {:>10}  b\n    {:>10}  c\n",
        "5B", "1B", "5B", "1B"
    );
    let expected = format!("{:>10}  a\n{}{:>10}  a\n{}", "20B", under_a, "10B", under_a);
    assert_eq!(print_tree(&entries, &PrintOptions::default()), expected);
}

#[test]
fn repeated_paths_are_counted_once_per_occurrence_in_summaries() {
    let entries = repeated_entries();
    let opts = PrintOptions { max_depth: Some(0), ..Default::default() };
    let summary = format!("  {:>10}  ... 4 more entries\n", "10B");
    let expected = format!("{:>10}  a\n{}{:>10}  a\n{}", "20B", summary, "10B", summary);
    assert_eq!(print_tree(&entries, &opts), expected);
    let json = print_tree_json(&entries, &opts);
    assert_eq!(
        json,
        r#"[{"path":"/a","name":"a","size":20,"children":[],"hidden":{"count":4,"size":10}},{"path":"/a","name":"a","size":10,"children":[],"hidden":{"count":4,"size":10}}]"#
    );
}

#[test]
fn pretty_report_parses_then_prints() {
    let input = "4096\t/var\n1024\t/var/cache\n";
    let text = pretty_report(input, SizeUnit::Bytes, &PrintOptions::default(), false).unwrap();
    assert_eq!(text, "    4.0KiB  var\n      1.0KiB  cache\n");
    let json = pretty_report(input, SizeUnit::Bytes, &PrintOptions::default(), true).unwrap();
    assert_eq!(
        json,
        r#"[{"path":"/var","name":"var","size":4096,"children":[{"path":"/var/cache","name":"cache","size":1024,"children":[]}]}]"#
    );
    let err = pretty_report("1\t/a\n2\t/a\n", SizeUnit::Bytes, &PrintOptions::default(), false).unwrap_err();
    assert_eq!(err.describe(), "line 2: duplicate path \"/a\"");
}

#[test]
fn json_names_keep_non_ascii_and_slashes_unescaped() {
    let entries = vec![Entry { size: 1, path: "/caf\u{e9}\u{1}".to_string(), line: 1 }];
    let out = print_tree_json(&entries, &PrintOptions::default());
    assert!(out.contains("\"name\":\"caf\u{e9}\\u0001\""));
}

#[test]
fn json_nodes_follow_the_text_lines() {
    let entries = sample_entries();
    let opts = PrintOptions { collapse_under: Some(1024), ..Default::default() };
    let text = print_tree(&entries, &opts);
    let json = print_tree_json(&entries, &opts);
    let names_in_text: Vec<&str> = text
        .lines()
        .filter(|l| !l.contains("... "))
        .map(|l| l.trim_start().splitn(2, "  ").nth(1).unwrap())
        .collect();
    let mut names_in_json = Vec::new();
    for part in json.split("\"name\":\"").skip(1) {
        names_in_json.push(part.split('"').next().unwrap());
    }
    assert_eq!(names_in_text, names_in_json);
    assert!(text.contains("2B  ... 2 more entries"));
    assert!(json.contains(r#""hidden":{"count":2,"size":2}"#));
}
