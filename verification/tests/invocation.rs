//! The validated invocation: flags, lanes, key normalisation, scanning.

use xrc::cli::{normalize_key, scan_selects, CliArgs};
use xrc::err::AppError;

fn paths(names: &[&str]) -> Vec<String> {
    names.iter().map(|s| s.to_string()).collect()
}

fn args(paths_in: &[&str], n_jobs: usize) -> CliArgs {
    CliArgs::new(
        true,
        false,
        false,
        false,
        n_jobs,
        paths(paths_in),
        "/tmp".to_string(),
    )
    .unwrap()
}

#[test]
fn both_direction_flags_are_refused() {
    let r = CliArgs::new(true, true, false, false, 4, paths(&["a"]), "/tmp".to_string());
    assert!(matches!(r, Err(AppError::IncorrectFlags)));
    let r = CliArgs::new(false, false, false, false, 4, paths(&["a"]), "/tmp".to_string());
    assert!(matches!(r, Err(AppError::IncorrectFlags)));
}

#[test]
fn zero_lanes_are_refused() {
    let r = CliArgs::new(true, false, false, false, 0, paths(&["a"]), "/tmp".to_string());
    assert!(matches!(r, Err(AppError::IncorrectFlags)));
}

#[test]
fn an_empty_file_set_is_refused() {
    let r = CliArgs::new(false, true, false, false, 4, Vec::new(), "/tmp".to_string());
    assert!(matches!(r, Err(AppError::NoFilesOrFolder)));
}

#[test]
fn accessors_report_the_invocation() {
    let c = CliArgs::new(
        false,
        true,
        true,
        true,
        3,
        paths(&["a", "b"]),
        "/tmp".to_string(),
    )
    .unwrap();
    assert!(!c.to_encrypt());
    assert!(c.is_legacy());
    assert!(c.should_preserve());
    assert_eq!(c.get_jobs(), 3);
    assert_eq!(c.get_path_count(), 2);
    assert_eq!(c.get_log_path().as_str(), "/tmp");
}

#[test]
fn lanes_are_dealt_round_robin() {
    let c = args(&["a", "b", "c", "d", "e"], 2);
    let pool = c.get_paths();
    assert_eq!(pool.len(), 2);
    assert_eq!(pool[0], paths(&["a", "c", "e"]));
    assert_eq!(pool[1], paths(&["b", "d"]));
}

#[test]
fn extra_lanes_stay_empty() {
    let c = args(&["a", "b"], 4);
    let pool = c.get_paths();
    assert_eq!(pool.len(), 4);
    assert_eq!(pool[0], paths(&["a"]));
    assert_eq!(pool[1], paths(&["b"]));
    assert!(pool[2].is_empty());
    assert!(pool[3].is_empty());
}

#[test]
fn one_lane_takes_everything_in_order() {
    let c = args(&["a", "b", "c"], 1);
    let pool = c.get_paths();
    assert_eq!(pool.len(), 1);
    assert_eq!(pool[0], paths(&["a", "b", "c"]));
}

#[test]
fn entered_keys_lose_their_line_endings() {
    assert_eq!(normalize_key("passphrase\n"), "passphrase");
    assert_eq!(normalize_key("passphrase\r\n"), "passphrase");
    assert_eq!(normalize_key("passphrase"), "passphrase");
    assert_eq!(normalize_key("\r\n"), "");
    assert_eq!(normalize_key(""), "");
}

#[test]
fn scans_skip_the_log_file() {
    assert!(!scan_selects("xrc_log.txt", Some("txt"), true));
    assert!(!scan_selects("xrc_log.txt", Some("txt"), false));
}

#[test]
fn encrypting_scans_take_files_without_the_reserved_extension() {
    assert!(scan_selects("a.txt", Some("txt"), true));
    assert!(scan_selects("name", None, true));
    assert!(!scan_selects("a.xrc", Some("xrc"), true));
}

#[test]
fn decrypting_scans_take_only_the_reserved_extension() {
    assert!(scan_selects("a.xrc", Some("xrc"), false));
    assert!(!scan_selects("a.txt", Some("txt"), false));
    assert!(!scan_selects("name", None, false));
}
