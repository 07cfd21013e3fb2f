use lib::parser::{parse, validate_tree, Entry, SizeUnit};

#[test]
fn parses_simple_report() {
    let input = "4096\t/var\n2048\t/var/log\n";
    let entries = parse(input, SizeUnit::Bytes).unwrap();
    assert_eq!(entries.len(), 2);
    assert_eq!(entries[1].path, "/var/log");
}

#[test]
fn rejects_missing_parent() {
    let input = "10\t/var/log/syslog\n";
    assert!(parse(input, SizeUnit::Bytes).is_err());
}

#[test]
fn rejects_duplicate_path() {
    let input = "1\t/a\n2\t/a\n";
    assert!(parse(input, SizeUnit::Bytes).is_err());
}

#[test]
fn blocks512_scales_sizes_up_to_bytes() {
    let input = "8\t/var\n1\t/var/log\n";
    let entries = parse(input, SizeUnit::Blocks512).unwrap();
    assert_eq!(entries[0].size, 4096);
    assert_eq!(entries[1].size, 512);
}

#[test]
fn blocks512_rejects_overflowing_size() {
    let input = "18446744073709551615\t/var\n";
    assert!(parse(input, SizeUnit::Blocks512).is_err());
}

fn message(input: &str, unit: SizeUnit) -> (usize, String) {
    let e = parse(input, unit).unwrap_err();
    (e.line, e.message)
}

#[test]
fn readme_example_report_parses_in_order() {
    let input = "4096\t/var\n2048\t/var/log\n1024\t/var/log/syslog\n1024\t/var/log/auth.log\n8192\t/var/cache\n";
    let entries = parse(input, SizeUnit::Bytes).unwrap();
    let got: Vec<(u64, &str, usize)> = entries.iter().map(|e| (e.size, e.path.as_str(), e.line)).collect();
    assert_eq!(
        got,
        vec![
            (4096, "/var", 1),
            (2048, "/var/log", 2),
            (1024, "/var/log/syslog", 3),
            (1024, "/var/log/auth.log", 4),
            (8192, "/var/cache", 5),
        ]
    );
}

#[test]
fn readme_missing_parent_message() {
    let e = parse("10\t/var/log/syslog\n", SizeUnit::Bytes).unwrap_err();
    assert_eq!(e.line, 1);
    assert_eq!(e.describe(), "line 1: path \"/var/log/syslog\" has no matching parent entry \"/var/log\"");
}

#[test]
fn blank_lines_are_skipped_but_counted() {
    let input = "\n   \n4096 /var\r\n\t\n2048  /var/log  \n";
    let entries = parse(input, SizeUnit::Bytes).unwrap();
    assert_eq!(entries.len(), 2);
    assert_eq!(entries[0].line, 3);
    assert_eq!(entries[1].line, 5);
    assert_eq!(entries[1].path, "/var/log");
    assert_eq!(parse("", SizeUnit::Bytes).unwrap().len(), 0);
}

#[test]
fn each_fault_is_reported_with_its_line() {
    assert_eq!(message("4096\t/var\n\t/x\n", SizeUnit::Bytes), (2, "missing size field".to_string()));
    assert_eq!(
        message("12k\t/var\n", SizeUnit::Bytes),
        (1, "size \"12k\" is not a non-negative integer".to_string())
    );
    assert_eq!(
        message("-1\t/var\n", SizeUnit::Bytes),
        (1, "size \"-1\" is not a non-negative integer".to_string())
    );
    assert_eq!(
        message("18446744073709551616\t/var\n", SizeUnit::Bytes),
        (1, "size \"18446744073709551616\" is not a non-negative integer".to_string())
    );
    assert_eq!(
        message("36028797018963968\t/var\n", SizeUnit::Blocks512),
        (1, "size overflows after applying block size (\"36028797018963968\")".to_string())
    );
    assert_eq!(message("4096\n", SizeUnit::Bytes), (1, "missing path field".to_string()));
    assert_eq!(message("4096 \t \n", SizeUnit::Bytes), (1, "missing path field".to_string()));
    assert_eq!(
        message("4096\t/var/\n", SizeUnit::Bytes),
        (1, "path \"/var/\" has a trailing slash".to_string())
    );
    assert_eq!(
        message("1\t/a\n2\t/a\n", SizeUnit::Bytes),
        (2, "duplicate path \"/a\"".to_string())
    );
    assert_eq!(
        message("1\t/a\n2\t/a/b/c\n", SizeUnit::Bytes),
        (2, "path \"/a/b/c\" has no matching parent entry \"/a/b\"".to_string())
    );
}

#[test]
fn line_faults_come_before_missing_parents() {
    assert_eq!(
        message("1\t/a/b\nxyz\t/c\n", SizeUnit::Bytes),
        (2, "size \"xyz\" is not a non-negative integer".to_string())
    );
}

#[test]
fn quoting_escapes_what_debug_escapes() {
    assert_eq!(
        message("4096\t/v\"a\\r/\n", SizeUnit::Bytes),
        (1, "path \"/v\\\"a\\\\r/\" has a trailing slash".to_string())
    );
}

#[test]
fn sizes_take_an_optional_plus_sign_and_leading_zeros() {
    let entries = parse("+10\t/\n007\t/x\n", SizeUnit::Bytes).unwrap();
    assert_eq!(entries[0].size, 10);
    assert_eq!(entries[1].size, 7);
    assert!(parse("+\t/\n", SizeUnit::Bytes).is_err());
}

#[test]
fn roots_and_relative_paths() {
    let entries = parse("10 .\n5 ./a\n3 ./a/b\n1 top\n", SizeUnit::Bytes).unwrap();
    assert_eq!(entries.len(), 4);
    let entries = parse("10 /\n5 /a\n", SizeUnit::Bytes).unwrap();
    assert_eq!(entries[1].path, "/a");
}

#[test]
fn paths_may_contain_spaces() {
    let entries = parse("10 /\n5 /my dir\n", SizeUnit::Bytes).unwrap();
    assert_eq!(entries[1].path, "/my dir");
}

#[test]
fn largest_block_count_that_fits_is_accepted() {
    let entries = parse("36028797018963967\t/\n", SizeUnit::Blocks512).unwrap();
    assert_eq!(entries[0].size, 36028797018963967u64 * 512);
}

#[test]
fn validate_tree_reports_the_first_orphan() {
    let entries = vec![
        Entry { size: 1, path: "/a".to_string(), line: 1 },
        Entry { size: 1, path: "/b/c".to_string(), line: 7 },
        Entry { size: 1, path: "/d/e".to_string(), line: 9 },
    ];
    let e = validate_tree(&entries).unwrap_err();
    assert_eq!(e.line, 7);
    assert!(validate_tree(&entries[..1]).is_ok());
}

#[test]
fn unit_scaling() {
    assert_eq!(SizeUnit::Bytes.scale(7), Ok(7));
    assert_eq!(SizeUnit::Blocks512.scale(7), Ok(3584));
    assert!(SizeUnit::Blocks512.scale(u64::MAX).is_err());
    assert_eq!(SizeUnit::default(), SizeUnit::Bytes);
}

#[test]
fn children_may_come_before_their_parents() {
    let children_first = "1024\t/var/log/syslog\n2048\t/var/log\n4096\t/var\n";
    let entries = parse(children_first, SizeUnit::Bytes).unwrap();
    assert_eq!(entries.len(), 3);
    let mut reversed = entries.clone();
    reversed.reverse();
    assert!(validate_tree(&entries).is_ok());
    assert!(validate_tree(&reversed).is_ok());
    let orphan = vec![
        Entry { size: 1, path: "/x/y".to_string(), line: 1 },
        Entry { size: 1, path: "/a".to_string(), line: 2 },
    ];
    let mut swapped = orphan.clone();
    swapped.reverse();
    assert!(validate_tree(&orphan).is_err());
    assert!(validate_tree(&swapped).is_err());
}
