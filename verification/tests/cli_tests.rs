use dupy::cli::{parse_args, parse_size, size_factor, Mode, OutputFormat, USAGE};
use dupy::error::DupyError;

fn message(r: Result<u64, DupyError>) -> String {
    match r {
        Err(DupyError::InvalidArguments(m)) => m,
        other => panic!("expected an argument error, got {:?}", other),
    }
}

#[test]
fn sizes_with_suffixes() {
    assert_eq!(parse_size("1048576").unwrap(), 1048576);
    assert_eq!(parse_size("500KB").unwrap(), 512000);
    assert_eq!(parse_size("500K").unwrap(), 512000);
    assert_eq!(parse_size("1MB").unwrap(), 1048576);
    assert_eq!(parse_size("1mb").unwrap(), 1048576);
    assert_eq!(parse_size("3m").unwrap(), 3 * 1048576);
    assert_eq!(parse_size("2G").unwrap(), 2 * 1073741824);
    assert_eq!(parse_size("2gb").unwrap(), 2 * 1073741824);
    assert_eq!(parse_size("10B").unwrap(), 10);
    assert_eq!(parse_size("10b").unwrap(), 10);
    assert_eq!(parse_size("0").unwrap(), 0);
    assert_eq!(parse_size("007k").unwrap(), 7168);
}

#[test]
fn size_products_saturate() {
    assert_eq!(parse_size("18446744073709551615").unwrap(), u64::MAX);
    assert_eq!(parse_size("18446744073709551615GB").unwrap(), u64::MAX);
    assert_eq!(parse_size("17179869184GB").unwrap(), u64::MAX);
    assert_eq!(parse_size("17179869183GB").unwrap(), 17179869183u64 * 1073741824);
}

#[test]
fn size_errors() {
    assert_eq!(message(parse_size("")), "Invalid size '': no numeric prefix");
    assert_eq!(message(parse_size("MB")), "Invalid size 'MB': no numeric prefix");
    assert_eq!(message(parse_size("-5")), "Invalid size '-5': no numeric prefix");
    assert_eq!(
        message(parse_size("18446744073709551616")),
        "Invalid size '18446744073709551616': numeric part too large"
    );
    assert_eq!(
        message(parse_size("99999999999999999999999KB")),
        "Invalid size '99999999999999999999999KB': numeric part too large"
    );
    assert_eq!(
        message(parse_size("5xb")),
        "Unknown size suffix 'XB' (use B, KB, MB, GB)"
    );
    assert_eq!(
        message(parse_size("5 MB")),
        "Unknown size suffix ' MB' (use B, KB, MB, GB)"
    );
    assert_eq!(
        message(parse_size("1.5MB")),
        "Unknown size suffix '.5MB' (use B, KB, MB, GB)"
    );
    // Upper-casing is Unicode's: `ß` becomes `SS`.
    assert_eq!(
        message(parse_size("4ß")),
        "Unknown size suffix 'SS' (use B, KB, MB, GB)"
    );
}

#[test]
fn factors_of_suffixes() {
    assert_eq!(size_factor(""), Some(1));
    assert_eq!(size_factor("B"), Some(1));
    assert_eq!(size_factor("K"), Some(1024));
    assert_eq!(size_factor("KB"), Some(1024));
    assert_eq!(size_factor("M"), Some(1048576));
    assert_eq!(size_factor("MB"), Some(1048576));
    assert_eq!(size_factor("G"), Some(1073741824));
    assert_eq!(size_factor("GB"), Some(1073741824));
    assert_eq!(size_factor("kb"), None);
    assert_eq!(size_factor("TB"), None);
}

fn args(list: &[&str]) -> Vec<String> {
    list.iter().map(|s| s.to_string()).collect()
}

fn arg_error(list: &[&str]) -> String {
    match parse_args(&args(list)) {
        Err(DupyError::InvalidArguments(m)) => m,
        other => panic!("expected an argument error, got {:?}", other),
    }
}

#[test]
fn defaults() {
    let a = parse_args(&args(&["dupy", "/data"])).unwrap();
    assert_eq!(a.directory, "/data");
    assert_eq!(a.mode, Mode::Content);
    assert_eq!(a.min_size, 0);
    assert!(!a.quiet);
    assert_eq!(a.format, OutputFormat::Plain);
    assert!(a.excludes.is_empty());
    assert!(!a.include_junk);
}

#[test]
fn every_flag() {
    let a = parse_args(&args(&[
        "dupy",
        "--names",
        "--min-size",
        "1MB",
        "-q",
        "--format",
        "csv",
        "--exclude",
        "*.bak",
        "--exclude",
        "*.log",
        "--include-junk",
        "/share",
    ]))
    .unwrap();
    assert_eq!(a.directory, "/share");
    assert_eq!(a.mode, Mode::Names);
    assert_eq!(a.min_size, 1048576);
    assert!(a.quiet);
    assert_eq!(a.format, OutputFormat::Csv);
    assert_eq!(a.excludes, vec!["*.bak".to_string(), "*.log".to_string()]);
    assert!(a.include_junk);
}

#[test]
fn short_flags_and_later_values_win() {
    let a = parse_args(&args(&[
        "dupy", "-n", "--format", "csv", "--format", "plain", "--min-size", "1k", "--min-size",
        "2k", "dir",
    ]))
    .unwrap();
    assert_eq!(a.mode, Mode::Names);
    assert_eq!(a.format, OutputFormat::Plain);
    assert_eq!(a.min_size, 2048);
}

#[test]
fn argument_errors() {
    assert_eq!(arg_error(&["dupy"]), USAGE);
    assert_eq!(arg_error(&["dupy", "-q"]), USAGE);
    assert_eq!(arg_error(&["dupy", "a", "b"]), USAGE);
    assert_eq!(arg_error(&["dupy", "dir", "--min-size"]), "--min-size requires a value");
    assert_eq!(
        arg_error(&["dupy", "dir", "--format"]),
        "--format requires a value (plain or csv)"
    );
    assert_eq!(
        arg_error(&["dupy", "dir", "--format", "json"]),
        "Unknown format 'json' (use plain or csv)"
    );
    assert_eq!(arg_error(&["dupy", "dir", "--exclude"]), "--exclude requires a pattern");
    assert_eq!(
        arg_error(&["dupy", "--min-size", "big", "dir"]),
        "Invalid size 'big': no numeric prefix"
    );
    // An unknown flag is taken for the directory.
    assert_eq!(parse_args(&args(&["dupy", "--verbose"])).unwrap().directory, "--verbose");
    assert_eq!(arg_error(&["dupy", "--verbose", "dir"]), USAGE);
}

#[test]
fn usage_text() {
    assert_eq!(
        USAGE,
        "Usage: dupy [--names|-n] [--min-size <size>] [--quiet|-q]\n        [--format plain|csv] [--exclude <pattern>]...\n        [--include-junk] <directory>"
    );
}

#[test]
fn error_messages() {
    assert_eq!(
        DupyError::InvalidArguments("bad".to_string()).message(),
        "Invalid arguments: bad"
    );
    assert_eq!(
        DupyError::InvalidPath("/nope".to_string()).message(),
        "Invalid or inaccessible path: /nope"
    );
    let io = std::io::Error::new(std::io::ErrorKind::Other, "disk on fire");
    assert_eq!(DupyError::from(io).message(), "I/O error: disk on fire");
}
