use mac_file_analyzer::cli::truncate_path;
use mac_file_analyzer::path::PathBuf;
use mac_file_analyzer::size_arg::parse_min_size;

#[test]
fn parse_plain_bytes() {
    assert_eq!(parse_min_size("0").unwrap(), 0);
    assert_eq!(parse_min_size("512").unwrap(), 512);
    assert_eq!(parse_min_size("1024B").unwrap(), 1_024);
}

#[test]
fn parse_kilobytes() {
    assert_eq!(parse_min_size("1K").unwrap(),   1_024);
    assert_eq!(parse_min_size("1KB").unwrap(),  1_024);
    assert_eq!(parse_min_size("1KiB").unwrap(), 1_024);
    assert_eq!(parse_min_size("2 KiB").unwrap(), 2_048);
}

#[test]
fn parse_megabytes() {
    assert_eq!(parse_min_size("10MB").unwrap(),  10 * 1_024 * 1_024);
    assert_eq!(parse_min_size("10MiB").unwrap(), 10 * 1_024 * 1_024);
    assert_eq!(parse_min_size("10M").unwrap(),   10 * 1_024 * 1_024);
}

#[test]
fn parse_gigabytes() {
    assert_eq!(parse_min_size("1GiB").unwrap(), 1_024u64 * 1_024 * 1_024);
    assert_eq!(parse_min_size("1GB").unwrap(),  1_024u64 * 1_024 * 1_024);
}

#[test]
fn parse_fractional() {
    let half_gib = (0.5_f64 * (1_024u64 * 1_024 * 1_024) as f64) as u64;
    assert_eq!(parse_min_size("0.5GiB").unwrap(), half_gib);
}

#[test]
fn parse_errors() {
    assert!(parse_min_size("abc").is_err());
    assert!(parse_min_size("10QQ").is_err());
    assert!(parse_min_size("-1MB").is_err());
    // NaN and infinity must be rejected, not silently treated as 0 or pass the overflow check.
    assert!(parse_min_size("nan").is_err());
    assert!(parse_min_size("inf").is_err());
    assert!(parse_min_size("-inf").is_err());
}

// ── truncate_path tests ──────────────────────────────────────────────────

#[test]
fn truncate_path_short_path_returned_unchanged() {
    let p = &PathBuf::from("/usr/local/bin/mfa");
    assert_eq!(truncate_path(p, 80), "/usr/local/bin/mfa");
}

#[test]
fn truncate_path_at_exact_boundary_returned_unchanged() {
    let p = &PathBuf::from("/exact");
    let s = p.display();
    // Path length equals max_chars → must not be truncated.
    assert_eq!(truncate_path(p, s.len()), s);
}

#[test]
fn truncate_path_long_path_uses_ellipsis_format() {
    let p = &PathBuf::from("/a/very/deeply/nested/directory/structure/with/many/levels/file.txt");
    let result = truncate_path(p, 20);
    assert!(
        result.starts_with('…'),
        "long path must start with '…', got: {:?}",
        result
    );
    assert!(
        result.contains("file.txt"),
        "truncated path must contain the filename, got: {:?}",
        result
    );
    assert!(
        result.contains("levels"),
        "truncated path must contain the immediate parent directory name, got: {:?}",
        result
    );
}

#[test]
fn truncate_path_result_format_is_ellipsis_parent_file() {
    let p = &PathBuf::from("/parent_dir/child_file.bin");
    // Make max_chars smaller than the full path.
    let result = truncate_path(p, 5);
    assert_eq!(result, "…/parent_dir/child_file.bin");
}

// ── parse_min_size overflow tests ────────────────────────────────────────

#[test]
fn parse_min_size_overflow_returns_error() {
    // 999_999_999_999 TB vastly exceeds u64::MAX (~18.4 EB).
    assert!(
        parse_min_size("999999999999TB").is_err(),
        "hugely oversized value must return an error, not silently truncate"
    );
}

#[test]
fn parse_min_size_large_valid_value_succeeds() {
    // 16383 TiB is a large but representable u64 value (~16 PiB).
    let val = parse_min_size("16383TB").unwrap();
    let expected: u64 = 16383u64 * 1_024 * 1_024 * 1_024 * 1_024;
    assert_eq!(val, expected);
}
