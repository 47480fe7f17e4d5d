use ftp_sync::discovery::{check_entry_name, find_files_recursively, join_child, DirEntry, Walk};
use ftp_sync::error::{ErrorKind, SyncError};

fn texts(items: &[&str]) -> Vec<String> {
    items.iter().map(|s| s.to_string()).collect()
}

fn file(name: &str) -> DirEntry {
    DirEntry { name: name.to_string(), is_dir: false }
}

fn dir(name: &str) -> DirEntry {
    DirEntry { name: name.to_string(), is_dir: true }
}

fn listing_of(tree: &[(&str, Vec<DirEntry>)], wanted: &str) -> Option<Vec<DirEntry>> {
    for (path, entries) in tree {
        if *path == wanted {
            return Some(
                entries.iter().map(|e| DirEntry { name: e.name.clone(), is_dir: e.is_dir }).collect(),
            );
        }
    }
    None
}

fn run(walk: &mut Walk, tree: &[(&str, Vec<DirEntry>)]) -> Vec<String> {
    let mut listed = Vec::new();
    let mut steps = 0;
    loop {
        let wanted = match walk.awaited() {
            Some(dir) => dir.to_string(),
            None => break,
        };
        listed.push(wanted.clone());
        match listing_of(tree, &wanted) {
            Some(entries) => walk.supply(&entries),
            None => walk.fail(format!("cannot list {}", wanted)),
        }
        steps += 1;
        assert!(steps < 100);
    }
    listed
}

#[test]
fn discovery_yields_exactly_the_watched_files() {
    let tree = [
        ("root", vec![file("a.php"), file("b.txt"), dir("sub")]),
        ("root/sub", vec![file("c.js")]),
    ];
    let mut walk = find_files_recursively("root", &texts(&["php", "js"]));
    run(&mut walk, &tree);
    assert!(walk.is_done());
    assert!(!walk.has_failed());
    let mut found = walk.finish().unwrap().unwrap();
    found.sort();
    assert_eq!(found, texts(&["root/a.php", "root/sub/c.js"]));
}

#[test]
fn discovery_yields_the_same_files_whatever_the_listing_order() {
    let tree = [
        ("root", vec![dir("sub"), file("b.txt"), file("a.php")]),
        ("root/sub", vec![file("c.js")]),
    ];
    let mut walk = find_files_recursively("root", &texts(&["js", "php"]));
    run(&mut walk, &tree);
    let mut found = walk.finish().unwrap().unwrap();
    found.sort();
    assert_eq!(found, texts(&["root/a.php", "root/sub/c.js"]));
}

#[test]
fn discovery_visits_a_directory_before_the_directories_in_it() {
    let tree = [
        ("p", vec![file("1.x"), dir("a"), file("2.x"), dir("b")]),
        ("p/a", vec![dir("deep"), file("3.x")]),
        ("p/a/deep", vec![file("4.x")]),
        ("p/b", vec![file("5.x")]),
    ];
    let mut walk = find_files_recursively("p", &texts(&["x"]));
    assert_eq!(walk.awaited(), Some("p"));
    let listed = run(&mut walk, &tree);
    assert_eq!(listed, texts(&["p", "p/a", "p/a/deep", "p/b"]));
    assert_eq!(
        walk.finish().unwrap().unwrap(),
        texts(&["p/1.x", "p/2.x", "p/a/3.x", "p/a/deep/4.x", "p/b/5.x"])
    );
}

#[test]
fn discovery_of_an_empty_directory_finds_nothing() {
    let tree = [(".", vec![])];
    let mut walk = find_files_recursively(".", &texts(&["php"]));
    run(&mut walk, &tree);
    assert_eq!(walk.finish().unwrap().unwrap(), Vec::<String>::new());
}

#[test]
fn discovery_is_not_finished_while_a_directory_is_awaited() {
    let mut walk = find_files_recursively("root", &texts(&["php"]));
    assert!(!walk.is_done());
    walk.supply(&vec![dir("sub"), file("a.php")]);
    assert!(!walk.is_done());
    assert_eq!(walk.awaited(), Some("root/sub"));
    assert_eq!(walk.found(), &texts(&["root/a.php"]));
    assert!(walk.finish().is_none());
}

#[test]
fn discovery_fails_when_the_root_cannot_be_listed() {
    let mut walk = find_files_recursively("missing", &texts(&["php"]));
    run(&mut walk, &[]);
    assert!(walk.is_done());
    assert!(walk.has_failed());
    match walk.finish() {
        Some(Err(SyncError::Discovery(reason))) => assert_eq!(reason, "cannot list missing"),
        other => panic!("expected a discovery failure, got {:?}", other),
    }
}

#[test]
fn discovery_failure_in_a_subdirectory_gives_no_partial_result() {
    let tree = [("root", vec![file("a.php"), dir("locked"), dir("open")]), ("root/open", vec![file("b.php")])];
    let mut walk = find_files_recursively("root", &texts(&["php"]));
    let listed = run(&mut walk, &tree);
    assert_eq!(listed, texts(&["root", "root/locked"]));
    assert!(walk.has_failed());
    assert_eq!(walk.found(), &Vec::<String>::new());
    let error = walk.finish().unwrap().unwrap_err();
    assert_eq!(error.kind(), ErrorKind::Discovery);
    assert_eq!(error.text(), "cannot list root/locked");
}

#[test]
fn finished_discovery_ignores_further_input() {
    let mut walk = find_files_recursively("root", &texts(&["php"]));
    walk.supply(&vec![file("a.php")]);
    assert!(walk.is_done());
    walk.supply(&vec![file("b.php"), dir("sub")]);
    walk.fail("late".to_string());
    assert!(walk.is_done());
    assert!(!walk.has_failed());
    assert_eq!(walk.into_found(), texts(&["root/a.php"]));
}

#[test]
fn failed_discovery_stays_failed() {
    let mut walk = find_files_recursively("root", &texts(&["php"]));
    walk.fail("denied".to_string());
    walk.supply(&vec![file("a.php")]);
    walk.fail("again".to_string());
    assert_eq!(walk.finish().unwrap().unwrap_err().text(), "denied");
}

#[test]
fn discovery_passes_over_entries_that_cannot_be_names() {
    let mut walk = find_files_recursively("root", &texts(&["php", ""]));
    walk.supply(&vec![
        dir("."),
        dir(".."),
        dir(""),
        file(""),
        file("x/y.php"),
        dir("x/y"),
        file("ok.php"),
        file(".."),
        file("."),
    ]);
    assert!(walk.is_done());
    assert_eq!(walk.into_found(), texts(&["root/ok.php"]));
}

#[test]
fn discovery_joins_names_onto_any_form_of_root() {
    let mut walk = find_files_recursively("site/", &texts(&["css"]));
    walk.supply(&vec![file("a.css")]);
    assert_eq!(walk.into_found(), texts(&["site/a.css"]));
    let mut walk = find_files_recursively("", &texts(&["css"]));
    walk.supply(&vec![file("a.css")]);
    assert_eq!(walk.into_found(), texts(&["a.css"]));
    let mut walk = find_files_recursively("/", &texts(&["css"]));
    walk.supply(&vec![file("a.css")]);
    assert_eq!(walk.into_found(), texts(&["/a.css"]));
}

#[test]
fn join_child_puts_one_separator_between() {
    assert_eq!(join_child("./site", "index.php"), "./site/index.php");
    assert_eq!(join_child("./site/", "index.php"), "./site/index.php");
    assert_eq!(join_child("/", "etc"), "/etc");
    assert_eq!(join_child("", "etc"), "etc");
    assert_eq!(join_child(".", "a"), "./a");
}

#[test]
fn entry_names_are_segments_other_than_the_dots() {
    assert!(check_entry_name("index.php"));
    assert!(check_entry_name("..."));
    assert!(check_entry_name(".a"));
    assert!(check_entry_name("a."));
    assert!(!check_entry_name(""));
    assert!(!check_entry_name("."));
    assert!(!check_entry_name(".."));
    assert!(!check_entry_name("a/b"));
    assert!(!check_entry_name("/"));
    assert!(!check_entry_name("a/"));
}
