use lib::cli::{parse_args, parse_command_line};
use lib::parser::SizeUnit;
use lib::printer::SortMode;

#[test]
fn parses_flags_and_path_in_any_order() {
    let args: Vec<String> = vec!["--max-depth=2".to_string(), "usage.txt".to_string(), "--collapse-under=1024".to_string()];
    let (opts, path) = parse_args(&args).unwrap();
    assert_eq!(opts.max_depth, Some(2));
    assert_eq!(opts.collapse_under, Some(1024));
    assert_eq!(path, Some("usage.txt".to_string()));
}

#[test]
fn rejects_unknown_flag() {
    let args: Vec<String> = vec!["--bogus".to_string()];
    assert!(parse_args(&args).is_err());
}

#[test]
fn parses_sort_flag() {
    let args: Vec<String> = vec!["--sort=name".to_string()];
    let (opts, _) = parse_args(&args).unwrap();
    assert_eq!(opts.sort, SortMode::Name);
}

#[test]
fn rejects_invalid_sort_value() {
    let args: Vec<String> = vec!["--sort=alphabetical".to_string()];
    assert!(parse_args(&args).is_err());
}

#[test]
fn rejects_second_path() {
    let args: Vec<String> = vec!["a.txt".to_string(), "b.txt".to_string()];
    assert!(parse_args(&args).is_err());
}

fn strings(args: &[&str]) -> Vec<String> {
    args.iter().map(|a| a.to_string()).collect()
}

#[test]
fn no_arguments_give_the_defaults() {
    let cmd = parse_command_line(&strings(&[])).unwrap();
    assert_eq!(cmd.opts.max_depth, None);
    assert_eq!(cmd.opts.collapse_under, None);
    assert_eq!(cmd.opts.sort, SortMode::Size);
    assert_eq!(cmd.unit, SizeUnit::Bytes);
    assert!(!cmd.json);
    assert_eq!(cmd.path, None);
}

#[test]
fn size_unit_and_json_flags_are_read() {
    let cmd = parse_command_line(&strings(&["--size-unit=blocks", "--json", "usage.txt"])).unwrap();
    assert_eq!(cmd.unit, SizeUnit::Blocks512);
    assert!(cmd.json);
    assert_eq!(cmd.path, Some("usage.txt".to_string()));
    let cmd = parse_command_line(&strings(&["--size-unit=blocks", "--size-unit=bytes"])).unwrap();
    assert_eq!(cmd.unit, SizeUnit::Bytes);
}

#[test]
fn later_flags_override_earlier_ones() {
    let (opts, _) = parse_args(&strings(&["--max-depth=3", "--max-depth=1", "--sort=name", "--sort=size"])).unwrap();
    assert_eq!(opts.max_depth, Some(1));
    assert_eq!(opts.sort, SortMode::Size);
}

#[test]
fn error_messages_quote_the_bad_value() {
    assert_eq!(
        parse_args(&strings(&["--max-depth=two"])).unwrap_err(),
        "invalid --max-depth value \"two\""
    );
    assert_eq!(
        parse_args(&strings(&["--collapse-under=-1"])).unwrap_err(),
        "invalid --collapse-under value \"-1\""
    );
    assert_eq!(
        parse_args(&strings(&["--sort=alphabetical"])).unwrap_err(),
        "invalid --sort value \"alphabetical\" (expected \"size\" or \"name\")"
    );
    assert_eq!(
        parse_command_line(&strings(&["--size-unit=kb"])).unwrap_err(),
        "invalid --size-unit value \"kb\" (expected \"bytes\" or \"blocks\")"
    );
    assert_eq!(parse_args(&strings(&["--bogus"])).unwrap_err(), "unknown flag --bogus");
    assert_eq!(parse_args(&strings(&["--max-depth"])).unwrap_err(), "unknown flag --max-depth");
    assert_eq!(parse_args(&strings(&["a", "b"])).unwrap_err(), "only one input path may be given");
}

#[test]
fn numbers_are_read_as_rust_reads_unsigned_integers() {
    let (opts, _) = parse_args(&strings(&["--max-depth=+7", "--collapse-under=007"])).unwrap();
    assert_eq!(opts.max_depth, Some(7));
    assert_eq!(opts.collapse_under, Some(7));
    assert!(parse_args(&strings(&["--max-depth="])).is_err());
    assert!(parse_args(&strings(&["--max-depth=+"])).is_err());
    assert!(parse_args(&strings(&["--collapse-under=18446744073709551616"])).is_err());
    let (opts, _) = parse_args(&strings(&["--collapse-under=18446744073709551615"])).unwrap();
    assert_eq!(opts.collapse_under, Some(u64::MAX));
}

#[test]
fn a_single_dash_argument_is_a_path() {
    let (_, path) = parse_args(&strings(&["-"])).unwrap();
    assert_eq!(path, Some("-".to_string()));
}

#[test]
fn the_first_refused_argument_is_reported() {
    assert_eq!(
        parse_args(&strings(&["--bogus", "--sort=x"])).unwrap_err(),
        "unknown flag --bogus"
    );
}

#[test]
fn argument_order_does_not_change_the_outcome() {
    let a = strings(&["--sort=name", "r.txt", "--max-depth=3", "--json", "--collapse-under=5"]);
    let b = strings(&["--collapse-under=5", "--json", "r.txt", "--max-depth=3", "--sort=name"]);
    let ca = parse_command_line(&a).unwrap();
    let cb = parse_command_line(&b).unwrap();
    assert_eq!(ca.opts.max_depth, cb.opts.max_depth);
    assert_eq!(ca.opts.collapse_under, cb.opts.collapse_under);
    assert_eq!(ca.opts.sort, cb.opts.sort);
    assert_eq!(ca.json, cb.json);
    assert_eq!(ca.path, cb.path);
    let bad_a = strings(&["x", "--sort=size", "y"]);
    let bad_b = strings(&["--sort=size", "y", "x"]);
    assert!(parse_args(&bad_a).is_err());
    assert!(parse_args(&bad_b).is_err());
}
