use gtr::config::{get_config_path_dir_and_file, Config};
use gtr::error::{ConfigError, GitError, GtrError};

#[test]
fn gtr_error_wraps_a_message() {
    let e = GtrError::new(String::from("something broke"));
    assert_eq!(e.message(), "something broke");
}

#[test]
fn git_error_constructors_name_the_phase() {
    let e = <GtrError as GitError>::not_git_repo("/tmp/repo");
    assert_eq!(e.message(), "/tmp/repo is not a git repository");
    let e = <GtrError as GitError>::command_failed("spawn denied");
    assert_eq!(e.message(), "Error running git command, spawn denied");
    let e = <GtrError as GitError>::ignore_failed("disk full");
    assert_eq!(e.message(), "Error persisting git ignore, disk full");
    let e = <GtrError as GitError>::pack_read_failed("pipe closed");
    assert_eq!(e.message(), "Error requesting pack file: pipe closed");
    let e = <GtrError as GitError>::pack_write_failed("disk full");
    assert_eq!(e.message(), "Error reading pack file content: disk full");
}

#[test]
fn config_error_constructors_name_the_phase() {
    let e = <GtrError as ConfigError>::save_failed("denied");
    assert_eq!(e.message(), "Cant save configuration to file denied");
    let e = <GtrError as ConfigError>::read_failed("denied");
    assert_eq!(e.message(), "Cant read configuration from file denied");
    let e = <GtrError as ConfigError>::dir_creation_failed("denied");
    assert_eq!(e.message(), "Cant create  gtr directory denied");
}

#[test]
fn default_config_shares_nothing() {
    let c = Config::default();
    assert!(c.branches.is_empty());
    assert!(c.transport.torrent.is_none());
}

#[test]
fn config_paths_sit_under_the_settings_directory() {
    let (dir, file) = get_config_path_dir_and_file("/repo");
    assert_eq!(dir, "/repo/.gtr");
    assert_eq!(file, "/repo/.gtr/config.toml");
}
