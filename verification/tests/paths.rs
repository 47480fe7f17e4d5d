use ftp_sync::config::FtpConfig;
use ftp_sync::error::{ErrorKind, SyncError};
use ftp_sync::path::{
    chars_of, contains_text, directory_chain, extension_of_name, file_extension,
    has_extension_in, is_dot_text, lies_under, map_remote_path, parent_of, split_components,
    split_segments, starts_at_root, trim_end_slashes,
};
use ftp_sync::plugin::FtpSyncExtension;

fn texts(items: &[&str]) -> Vec<String> {
    items.iter().map(|s| s.to_string()).collect()
}

fn config_watching(extensions: &[&str]) -> FtpConfig {
    let mut config = FtpConfig::default();
    config.file_extensions = texts(extensions);
    config
}

#[test]
fn should_sync_accepts_a_watched_extension() {
    let plugin = FtpSyncExtension::new();
    let config = config_watching(&["php", "html"]);
    assert!(plugin.should_sync_file("index.php", &config));
}

#[test]
fn should_sync_refuses_an_unwatched_extension() {
    let plugin = FtpSyncExtension::new();
    let config = config_watching(&["php", "html"]);
    assert!(!plugin.should_sync_file("readme.md", &config));
}

#[test]
fn should_sync_compares_the_extension_as_it_stands() {
    let plugin = FtpSyncExtension::new();
    let config = config_watching(&["php", "html"]);
    assert!(!plugin.should_sync_file("index.PHP", &config));
    assert!(!plugin.should_sync_file("index.ph", &config));
    assert!(!plugin.should_sync_file("index.phpx", &config));
    assert!(plugin.should_sync_file("site/pages/about.html", &config));
    assert!(!plugin.should_sync_file("php", &config));
}

#[test]
fn should_sync_with_no_watched_extension_refuses_everything() {
    let plugin = FtpSyncExtension::new();
    let config = config_watching(&[]);
    assert!(!plugin.should_sync_file("index.php", &config));
}

#[test]
fn plugin_starts_without_settings_and_without_a_current_file() {
    let plugin = FtpSyncExtension::new();
    assert!(plugin.config.is_none());
    assert_eq!(plugin.get_current_file(), None);
}

#[test]
fn extension_is_what_follows_the_last_dot() {
    assert_eq!(file_extension("index.php"), Some("php".to_string()));
    assert_eq!(file_extension("archive.tar.gz"), Some("gz".to_string()));
    assert_eq!(file_extension("/var/www/html/style.css"), Some("css".to_string()));
    assert_eq!(file_extension("a.b/c.d"), Some("d".to_string()));
    assert_eq!(file_extension("..a"), Some("a".to_string()));
    assert_eq!(file_extension(".a.b"), Some("b".to_string()));
}

#[test]
fn extension_may_be_empty() {
    assert_eq!(file_extension("name."), Some(String::new()));
}

#[test]
fn extension_is_missing_without_a_dot_inside_the_name() {
    assert_eq!(file_extension("Makefile"), None);
    assert_eq!(file_extension(".gitignore"), None);
    assert_eq!(file_extension("dir.d/Makefile"), None);
    assert_eq!(file_extension(""), None);
    assert_eq!(file_extension("/"), None);
    assert_eq!(file_extension(".."), None);
    assert_eq!(file_extension("."), None);
    assert_eq!(file_extension("a/.."), None);
}

#[test]
fn extension_ignores_trailing_separators() {
    assert_eq!(file_extension("dir.d/"), Some("d".to_string()));
    assert_eq!(file_extension("dir.d///"), Some("d".to_string()));
}

#[test]
fn extension_passes_over_dot_segments_at_the_end() {
    assert_eq!(file_extension("foo.txt/."), Some("txt".to_string()));
    assert_eq!(file_extension("foo.txt/./"), Some("txt".to_string()));
    assert_eq!(file_extension("a/foo.txt/././/."), Some("txt".to_string()));
    assert_eq!(file_extension("./index.php"), Some("php".to_string()));
    assert_eq!(file_extension("./."), None);
    assert_eq!(file_extension("a/../."), None);
    assert_eq!(file_extension("name/."), None);
    assert_eq!(file_extension("site.php/notphp"), None);
}

#[test]
fn should_sync_looks_past_a_final_dot_segment() {
    let plugin = FtpSyncExtension::new();
    let config = config_watching(&["txt"]);
    assert!(plugin.should_sync_file("foo.txt/.", &config));
    assert!(!plugin.should_sync_file("foo.txt/..", &config));
    assert!(!plugin.should_sync_file("foo.md/.", &config));
}

#[test]
fn extension_of_a_name_follows_its_last_dot() {
    assert_eq!(extension_of_name("index.php"), Some("php".to_string()));
    assert_eq!(extension_of_name("a.b.c"), Some("c".to_string()));
    assert_eq!(extension_of_name("a."), Some(String::new()));
    assert_eq!(extension_of_name("..."), Some(String::new()));
    assert_eq!(extension_of_name(".htaccess"), None);
    assert_eq!(extension_of_name(".."), None);
    assert_eq!(extension_of_name("."), None);
    assert_eq!(extension_of_name(""), None);
    assert_eq!(extension_of_name("plain"), None);
}

#[test]
fn dot_text_is_the_single_dot() {
    assert!(is_dot_text("."));
    assert!(!is_dot_text(".."));
    assert!(!is_dot_text(""));
    assert!(!is_dot_text("a"));
    assert!(!is_dot_text("./"));
}

#[test]
fn components_leave_out_dot_segments_but_a_leading_one() {
    assert_eq!(split_components("./site/./assets/."), texts(&[".", "site", "assets"]));
    assert_eq!(split_components("site/./assets"), texts(&["site", "assets"]));
    assert_eq!(split_components("/./site/./x"), texts(&["site", "x"]));
    assert_eq!(split_components("."), texts(&["."]));
    assert_eq!(split_components("././a"), texts(&[".", "a"]));
    assert_eq!(split_components("a/../b"), texts(&["a", "..", "b"]));
    assert_eq!(split_components(""), Vec::<String>::new());
    assert_eq!(split_components("/"), Vec::<String>::new());
    assert_eq!(split_components("/."), Vec::<String>::new());
}

#[test]
fn extension_of_a_name_with_letters_beyond_ascii() {
    assert_eq!(file_extension("übersicht.héé"), Some("héé".to_string()));
    assert_eq!(file_extension("données/fichier.txt"), Some("txt".to_string()));
}

#[test]
fn has_extension_in_looks_the_extension_up() {
    let watched = texts(&["php", "js"]);
    assert!(has_extension_in("a.php", &watched));
    assert!(has_extension_in("sub/c.js", &watched));
    assert!(!has_extension_in("b.txt", &watched));
    assert!(!has_extension_in("js", &watched));
    assert!(has_extension_in("name.", &texts(&[""])));
    assert!(!has_extension_in("name", &texts(&[""])));
}

#[test]
fn contains_text_finds_members_only() {
    let list = texts(&["a", "bc", ""]);
    assert!(contains_text(&list, &"bc".to_string()));
    assert!(contains_text(&list, &String::new()));
    assert!(!contains_text(&list, &"b".to_string()));
    assert!(!contains_text(&Vec::new(), &"a".to_string()));
}

#[test]
fn chars_of_gives_every_character() {
    assert_eq!(chars_of("a/é"), vec!['a', '/', 'é']);
    assert_eq!(chars_of(""), Vec::<char>::new());
}

#[test]
fn segments_are_the_non_empty_pieces() {
    assert_eq!(split_segments("/var/www/html"), texts(&["var", "www", "html"]));
    assert_eq!(split_segments("var//www///html/"), texts(&["var", "www", "html"]));
    assert_eq!(split_segments("./site"), texts(&[".", "site"]));
    assert_eq!(split_segments("index.php"), texts(&["index.php"]));
    assert_eq!(split_segments(""), Vec::<String>::new());
    assert_eq!(split_segments("///"), Vec::<String>::new());
}

#[test]
fn trim_end_slashes_removes_all_of_them() {
    assert_eq!(trim_end_slashes("/var/www/html/"), "/var/www/html");
    assert_eq!(trim_end_slashes("/var/www/html///"), "/var/www/html");
    assert_eq!(trim_end_slashes("/var/www/html"), "/var/www/html");
    assert_eq!(trim_end_slashes("/"), "");
    assert_eq!(trim_end_slashes(""), "");
    assert_eq!(trim_end_slashes("a//b"), "a//b");
}

#[test]
fn starts_at_root_looks_at_the_first_character() {
    assert!(starts_at_root("/var"));
    assert!(starts_at_root("/"));
    assert!(!starts_at_root("var/"));
    assert!(!starts_at_root(""));
    assert!(!starts_at_root("./var"));
}

#[test]
fn lies_under_compares_whole_segments() {
    assert!(lies_under("./site", "./site/index.php"));
    assert!(lies_under("./site/", "./site/assets/style.css"));
    assert!(lies_under("./site", "./site"));
    assert!(lies_under("", "a/b"));
    assert!(lies_under("/", "/a/b"));
    assert!(!lies_under("./site", "./sitemap/index.php"));
    assert!(!lies_under("./site", "./index.php"));
    assert!(!lies_under("./site", "site/index.php"));
    assert!(!lies_under("site", "/site/index.php"));
    assert!(!lies_under("/site", "site/index.php"));
    assert!(!lies_under("a/b/c", "a/b"));
    assert!(lies_under("./site", "./site/./index.php"));
    assert!(lies_under("./site/.", "./site/index.php"));
    assert!(lies_under("site", "site/./a/./b"));
    assert!(!lies_under("site", "./site/index.php"));
    assert!(!lies_under(".", "a.php"));
    assert!(lies_under(".", "./a.php"));
    assert!(lies_under("/./srv", "/srv/x"));
}

#[test]
fn map_remote_path_joins_the_relative_path_onto_the_remote_root() {
    assert_eq!(
        map_remote_path("./site", "/var/www/html", "./site/index.php").unwrap(),
        "/var/www/html/index.php"
    );
    assert_eq!(
        map_remote_path("./site", "/var/www/html", "./site/assets/style.css").unwrap(),
        "/var/www/html/assets/style.css"
    );
}

#[test]
fn map_remote_path_trims_the_remote_root() {
    assert_eq!(
        map_remote_path("./site", "/var/www/html/", "./site/index.php").unwrap(),
        "/var/www/html/index.php"
    );
    assert_eq!(
        map_remote_path("./site", "/var/www/html///", "./site/a/b.js").unwrap(),
        "/var/www/html/a/b.js"
    );
    assert_eq!(map_remote_path(".", "/", "./a.php").unwrap(), "/a.php");
    assert_eq!(map_remote_path(".", "", "./a.php").unwrap(), "/a.php");
}

#[test]
fn map_remote_path_writes_single_separators() {
    assert_eq!(map_remote_path("site", "/r", "site//a///b.php").unwrap(), "/r/a/b.php");
    assert_eq!(map_remote_path("site/", "/r", "site/a/b.php").unwrap(), "/r/a/b.php");
    assert_eq!(map_remote_path("/home/me/site", "up", "/home/me/site/x.css").unwrap(), "up/x.css");
}

#[test]
fn map_remote_path_leaves_out_dot_segments() {
    assert_eq!(
        map_remote_path("./site", "/var/www/html", "./site/./index.php").unwrap(),
        "/var/www/html/index.php"
    );
    assert_eq!(
        map_remote_path("./site", "/var/www/html", "./site/a/./b/./c.css").unwrap(),
        "/var/www/html/a/b/c.css"
    );
    assert_eq!(map_remote_path("site/.", "/r", "site/x.php").unwrap(), "/r/x.php");
    assert_eq!(map_remote_path("", "/r", "./a.php").unwrap(), "/r/./a.php");
    assert_eq!(map_remote_path("", "/r", "a/./b.php").unwrap(), "/r/a/b.php");
    assert!(map_remote_path("site", "/r", "./site/x.php").is_err());
    assert!(map_remote_path("./site", "/r", "site/x.php").is_err());
}

#[test]
fn map_remote_path_of_the_root_itself_is_the_remote_root() {
    assert_eq!(map_remote_path("./site", "/r/", "./site").unwrap(), "/r");
}

#[test]
fn map_remote_path_refuses_a_file_outside_the_local_root() {
    let refused = map_remote_path("./site", "/var/www/html", "./sitemap/index.php");
    match refused {
        Err(SyncError::PathMapping(path)) => assert_eq!(path, "./sitemap/index.php"),
        other => panic!("expected a path mapping failure, got {:?}", other),
    }
    let refused = map_remote_path("./site", "/var/www/html", "/etc/passwd").unwrap_err();
    assert_eq!(refused.kind(), ErrorKind::PathMapping);
    assert_eq!(refused.text(), "/etc/passwd");
    assert!(!refused.is_fatal());
    assert!(map_remote_path("site/assets", "/r", "site/index.php").is_err());
    assert!(map_remote_path("/site", "/r", "site/index.php").is_err());
}

#[test]
fn remote_path_keeps_the_root_in_front_and_the_relative_path_behind() {
    let cases = [
        ("./site", "/var/www/html/", "./site/index.php"),
        ("./site", "/var/www/html", "./site/assets/img/logo.png"),
        ("/srv/project", "htdocs//", "/srv/project/js/app.js"),
        (".", "/", "./deep/er/and/deeper.css"),
    ];
    for (local_root, remote_root, file) in cases {
        let remote = map_remote_path(local_root, remote_root, file).unwrap();
        let root = trim_end_slashes(remote_root);
        assert!(remote.starts_with(root));
        let rest = split_segments(&remote[root.len()..]);
        let all = split_segments(file);
        let below = all[split_segments(local_root).len()..].to_vec();
        assert_eq!(rest, below);
        let mut mirrored = split_segments(remote_root);
        mirrored.extend(below);
        assert_eq!(split_segments(&remote), mirrored);
    }
}

#[test]
fn parent_of_cuts_the_last_segment() {
    assert_eq!(parent_of("/var/www/html/index.php"), "/var/www/html/");
    assert_eq!(parent_of("/var/www/html/assets/"), "/var/www/html/");
    assert_eq!(parent_of("/index.php"), "/");
    assert_eq!(parent_of("index.php"), "");
    assert_eq!(parent_of(""), "");
    assert_eq!(parent_of("/"), "");
    assert_eq!(parent_of("a/b"), "a/");
}

#[test]
fn directory_chain_builds_every_prefix() {
    assert_eq!(
        directory_chain("/var/www/html"),
        texts(&["/var", "/var/www", "/var/www/html"])
    );
    assert_eq!(directory_chain("a/b/c"), texts(&["/a", "/a/b", "/a/b/c"]));
    assert_eq!(directory_chain("//a///b//"), texts(&["/a", "/a/b"]));
    assert_eq!(directory_chain("/"), Vec::<String>::new());
    assert_eq!(directory_chain(""), Vec::<String>::new());
}
