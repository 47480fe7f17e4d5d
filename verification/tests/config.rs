use ftp_sync::config::{check_plain_extension, clone_texts, FtpConfig};
use ftp_sync::error::{ErrorKind, SyncError};

#[test]
fn default_config_has_the_documented_values() {
    let config = FtpConfig::default();
    assert_eq!(config.host, "localhost");
    assert_eq!(config.port, 21);
    assert_eq!(config.username, "user");
    assert_eq!(config.password, "password");
    assert_eq!(config.remote_path, "/var/www/html");
    assert_eq!(config.local_path, ".");
    assert!(config.auto_sync);
    assert_eq!(config.file_extensions, vec!["php", "html", "css", "js"]);
}

#[test]
fn default_config_is_valid() {
    assert!(FtpConfig::default().is_valid());
}

#[test]
fn config_without_a_root_is_not_valid() {
    let mut config = FtpConfig::default();
    config.remote_path = String::new();
    assert!(!config.is_valid());
    let mut config = FtpConfig::default();
    config.local_path = String::new();
    assert!(!config.is_valid());
}

#[test]
fn config_with_a_dotted_or_capital_extension_is_not_valid() {
    let mut config = FtpConfig::default();
    config.file_extensions.push(".php".to_string());
    assert!(!config.is_valid());
    let mut config = FtpConfig::default();
    config.file_extensions.push("Php".to_string());
    assert!(!config.is_valid());
    let mut config = FtpConfig::default();
    config.file_extensions = Vec::new();
    assert!(config.is_valid());
}

#[test]
fn plain_extensions_have_no_leading_dot_and_no_capitals() {
    assert!(check_plain_extension("php"));
    assert!(check_plain_extension("tar.gz"));
    assert!(check_plain_extension("mp3"));
    assert!(check_plain_extension(""));
    assert!(!check_plain_extension(".php"));
    assert!(!check_plain_extension("PHP"));
    assert!(!check_plain_extension("phP"));
    assert!(!check_plain_extension("Z"));
    assert!(!check_plain_extension("A"));
    assert!(check_plain_extension("@["));
}

#[test]
fn cloned_config_equals_its_source() {
    let mut config = FtpConfig::default();
    config.host = "ftp.example.org".to_string();
    config.port = 2121;
    config.auto_sync = false;
    let copy = config.clone();
    assert_eq!(copy.host, "ftp.example.org");
    assert_eq!(copy.port, 2121);
    assert_eq!(copy.username, config.username);
    assert_eq!(copy.password, config.password);
    assert_eq!(copy.remote_path, config.remote_path);
    assert_eq!(copy.local_path, config.local_path);
    assert_eq!(copy.auto_sync, false);
    assert_eq!(copy.file_extensions, config.file_extensions);
}

#[test]
fn clone_texts_copies_in_order() {
    let list = vec!["b".to_string(), "a".to_string(), "b".to_string()];
    assert_eq!(clone_texts(&list), list);
    assert_eq!(clone_texts(&Vec::new()), Vec::<String>::new());
}

#[test]
fn errors_tell_their_kind_and_text() {
    let cases = [
        (SyncError::Connection("refused".to_string()), ErrorKind::Connection, true),
        (SyncError::Auth("530".to_string()), ErrorKind::Auth, true),
        (SyncError::Discovery("denied".to_string()), ErrorKind::Discovery, true),
        (SyncError::PathMapping("/x".to_string()), ErrorKind::PathMapping, false),
        (SyncError::LocalRead("gone".to_string()), ErrorKind::LocalRead, false),
        (SyncError::RemoteUpload("553".to_string()), ErrorKind::RemoteUpload, false),
    ];
    for (error, kind, fatal) in cases {
        assert_eq!(error.kind(), kind);
        assert_eq!(error.is_fatal(), fatal);
        let copy = error.clone();
        assert_eq!(copy.kind(), kind);
        assert_eq!(copy.text(), error.text());
    }
    assert_eq!(SyncError::Auth("530".to_string()).text(), "530");
}
