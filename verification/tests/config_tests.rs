use bookmark_sync::storage::{Command, Storage, StorageConfig, StorageSpec, StorageType};
use bookmark_sync::types::Error;
use bookmark_sync::ConflictResolution;

fn cmd(words: &[&str]) -> Command {
    Command {
        fetch: words.iter().map(|w| w.to_string()).collect(),
    }
}

fn nc_config(url: bool, user: bool, pass: bool) -> StorageConfig {
    StorageConfig {
        kind: StorageType::Nextcloud,
        url: if url { Some("http://nc".to_string()) } else { None },
        path: None,
        username: if user { Some(cmd(&["sh", "echo", "user"])) } else { None },
        password: if pass { Some(cmd(&["sh", "echo", "pw"])) } else { None },
    }
}

fn expect_missing(r: Result<StorageSpec, Error>, field: &str) {
    match r {
        Err(Error::MissingConfig(f)) => assert_eq!(f, field),
        _ => panic!("expected a missing `{}`", field),
    }
}

#[test]
fn file_storage_needs_path() {
    let cfg = StorageConfig {
        kind: StorageType::File,
        url: None,
        path: None,
        username: None,
        password: None,
    };
    expect_missing(Storage::from_config(&cfg), "path");
}

#[test]
fn file_storage_spec_carries_path() {
    let cfg = StorageConfig {
        kind: StorageType::File,
        url: None,
        path: Some("/tmp/bookmarks".to_string()),
        username: None,
        password: None,
    };
    match Storage::from_config(&cfg).unwrap() {
        StorageSpec::File { path } => assert_eq!(path, "/tmp/bookmarks"),
        _ => panic!("expected a file spec"),
    }
}

#[test]
fn nextcloud_storage_needs_url_username_password() {
    expect_missing(Storage::from_config(&nc_config(false, true, true)), "url");
    expect_missing(Storage::from_config(&nc_config(true, false, true)), "username");
    expect_missing(Storage::from_config(&nc_config(true, true, false)), "password");
}

#[test]
fn nextcloud_storage_spec_carries_credentials() {
    match Storage::from_config(&nc_config(true, true, true)).unwrap() {
        StorageSpec::Nextcloud {
            url,
            username,
            password,
        } => {
            assert_eq!(url, "http://nc");
            assert_eq!(username.fetch, vec!["sh", "echo", "user"]);
            assert_eq!(password.fetch, vec!["sh", "echo", "pw"]);
        }
        _ => panic!("expected a remote spec"),
    }
}

#[test]
fn default_conflict_resolution_is_error() {
    assert_eq!(ConflictResolution::default(), ConflictResolution::Error);
}
