use ftp_sync::config::FtpConfig;
use ftp_sync::discovery::DirEntry;
use ftp_sync::error::{ErrorKind, SyncError};
use ftp_sync::job::{
    make_report, upload_all_files, upload_file, Command, Mode, Phase, Reply, SyncJob, SyncReport,
    TransferOutcome, TransferStatus,
};

/// A local tree and a server that exist only in memory.
struct World {
    dirs: Vec<(String, Vec<(String, bool)>)>,
    files: Vec<(String, Vec<u8>)>,
    connect_error: Option<String>,
    login_error: Option<String>,
    refused_uploads: Vec<String>,
    refused_dirs: Vec<String>,
    log: Vec<String>,
    stored: Vec<(String, Vec<u8>)>,
    connected: bool,
}

fn world() -> World {
    World {
        dirs: Vec::new(),
        files: Vec::new(),
        connect_error: None,
        login_error: None,
        refused_uploads: Vec::new(),
        refused_dirs: Vec::new(),
        log: Vec::new(),
        stored: Vec::new(),
        connected: false,
    }
}

fn site() -> World {
    let mut w = world();
    w.dirs.push((
        "./site".to_string(),
        vec![("index.php".to_string(), false), ("assets".to_string(), true)],
    ));
    w.dirs.push(("./site/assets".to_string(), vec![("style.css".to_string(), false)]));
    w.files.push(("./site/index.php".to_string(), b"<?php echo 1;".to_vec()));
    w.files.push(("./site/assets/style.css".to_string(), b"body {}".to_vec()));
    w
}

fn site_config() -> FtpConfig {
    let mut config = FtpConfig::default();
    config.host = "ftp.example.org".to_string();
    config.port = 2121;
    config.username = "deploy".to_string();
    config.password = "hunter2".to_string();
    config.local_path = "./site".to_string();
    config.remote_path = "/var/www/html".to_string();
    config.file_extensions = vec!["php".to_string(), "css".to_string()];
    config
}

fn answer(world: &mut World, command: Command<'_>) -> Option<Reply> {
    let failed = |reason: &str| Some(Reply::Failed(reason.to_string()));
    match command {
        Command::Finished => None,
        Command::ListDir(dir) => {
            world.log.push(format!("LIST {}", dir));
            match world.dirs.iter().find(|(path, _)| path == dir) {
                Some((_, entries)) => Some(Reply::Listing(
                    entries
                        .iter()
                        .map(|(name, is_dir)| DirEntry { name: name.clone(), is_dir: *is_dir })
                        .collect(),
                )),
                None => failed("no such directory"),
            }
        }
        Command::Connect { host, port } => {
            world.log.push(format!("CONNECT {}:{}", host, port));
            match &world.connect_error {
                Some(reason) => Some(Reply::Failed(reason.clone())),
                None => {
                    world.connected = true;
                    Some(Reply::Done)
                }
            }
        }
        Command::Login { username, password } => {
            assert!(world.connected);
            world.log.push(format!("USER {} PASS {}", username, password));
            match &world.login_error {
                Some(reason) => Some(Reply::Failed(reason.clone())),
                None => Some(Reply::Done),
            }
        }
        Command::SetPassive => {
            assert!(world.connected);
            world.log.push("PASV".to_string());
            Some(Reply::Done)
        }
        Command::ReadFile(path) => {
            world.log.push(format!("READ {}", path));
            match world.files.iter().find(|(name, _)| name == path) {
                Some((_, content)) => Some(Reply::Content(content.clone())),
                None => failed("file vanished"),
            }
        }
        Command::MakeDir(dir) => {
            assert!(world.connected);
            world.log.push(format!("MKD {}", dir));
            if world.refused_dirs.iter().any(|d| d == dir) {
                failed("550 exists")
            } else {
                Some(Reply::Done)
            }
        }
        Command::Store { remote_path, content } => {
            assert!(world.connected);
            world.log.push(format!("STOR {}", remote_path));
            if world.refused_uploads.iter().any(|p| p == remote_path) {
                failed("553 refused")
            } else {
                world.stored.push((remote_path.to_string(), content.clone()));
                Some(Reply::Done)
            }
        }
        Command::Quit => {
            assert!(world.connected);
            world.connected = false;
            world.log.push("QUIT".to_string());
            Some(Reply::Done)
        }
    }
}

fn drive(job: &mut SyncJob, world: &mut World) {
    let mut steps = 0;
    loop {
        let reply = match answer(world, job.next_command()) {
            Some(reply) => reply,
            None => break,
        };
        job.on_reply(reply);
        steps += 1;
        assert!(steps < 1000);
    }
    assert!(job.is_finished());
    assert!(!world.connected);
}

fn run(mut job: SyncJob, world: &mut World) -> Result<SyncReport, SyncError> {
    drive(&mut job, world);
    job.finish().unwrap()
}

fn log_of(world: &World) -> Vec<&str> {
    world.log.iter().map(|s| s.as_str()).collect()
}

fn failure_of(outcome: &TransferOutcome) -> Option<(ErrorKind, String)> {
    match &outcome.status {
        TransferStatus::Success => None,
        TransferStatus::Failed(e) => Some((e.kind(), e.text().to_string())),
    }
}

#[test]
fn sync_all_mirrors_the_site() {
    let mut w = site();
    let report = run(upload_all_files(&site_config()), &mut w).unwrap();
    assert_eq!(report.total, 2);
    assert_eq!(report.succeeded, 2);
    assert_eq!(report.failed, 0);
    assert_eq!(
        w.stored,
        vec![
            ("/var/www/html/index.php".to_string(), b"<?php echo 1;".to_vec()),
            ("/var/www/html/assets/style.css".to_string(), b"body {}".to_vec()),
        ]
    );
    assert_eq!(report.outcomes.len(), 2);
    assert_eq!(report.outcomes[0].local_path, "./site/index.php");
    assert_eq!(report.outcomes[0].remote_path, "/var/www/html/index.php");
    assert!(report.outcomes[0].is_success());
    assert_eq!(report.outcomes[1].local_path, "./site/assets/style.css");
    assert_eq!(report.outcomes[1].remote_path, "/var/www/html/assets/style.css");
    assert!(report.outcomes[1].is_success());
}

#[test]
fn sync_all_issues_its_commands_in_order() {
    let mut w = site();
    run(upload_all_files(&site_config()), &mut w).unwrap();
    assert_eq!(
        log_of(&w),
        vec![
            "LIST ./site",
            "LIST ./site/assets",
            "CONNECT ftp.example.org:2121",
            "USER deploy PASS hunter2",
            "PASV",
            "READ ./site/index.php",
            "MKD /var",
            "MKD /var/www",
            "MKD /var/www/html",
            "STOR /var/www/html/index.php",
            "READ ./site/assets/style.css",
            "MKD /var/www/html/assets",
            "STOR /var/www/html/assets/style.css",
            "QUIT",
        ]
    );
}

#[test]
fn sync_all_creates_the_directory_before_the_file_in_it() {
    let mut w = site();
    run(upload_all_files(&site_config()), &mut w).unwrap();
    let log = log_of(&w);
    let made = log.iter().position(|l| *l == "MKD /var/www/html/assets").unwrap();
    let sent = log.iter().position(|l| *l == "STOR /var/www/html/assets/style.css").unwrap();
    assert!(made < sent);
    assert_eq!(log.iter().filter(|l| l.starts_with("MKD ")).count(), 4);
}

#[test]
fn sync_all_goes_on_after_an_unreadable_file() {
    let mut w = site();
    w.files.remove(0);
    let report = run(upload_all_files(&site_config()), &mut w).unwrap();
    assert_eq!(report.total, 2);
    assert_eq!(report.succeeded, 1);
    assert_eq!(report.failed, 1);
    assert_eq!(
        w.stored,
        vec![("/var/www/html/assets/style.css".to_string(), b"body {}".to_vec())]
    );
    assert_eq!(report.outcomes[0].local_path, "./site/index.php");
    assert_eq!(report.outcomes[0].remote_path, "/var/www/html/index.php");
    assert_eq!(
        failure_of(&report.outcomes[0]),
        Some((ErrorKind::LocalRead, "file vanished".to_string()))
    );
    assert_eq!(failure_of(&report.outcomes[1]), None);
    assert_eq!(w.log.last().unwrap(), "QUIT");
}

#[test]
fn sync_all_goes_on_after_a_refused_upload() {
    let mut w = site();
    w.refused_uploads.push("/var/www/html/index.php".to_string());
    let report = run(upload_all_files(&site_config()), &mut w).unwrap();
    assert_eq!((report.total, report.succeeded, report.failed), (2, 1, 1));
    assert_eq!(
        failure_of(&report.outcomes[0]),
        Some((ErrorKind::RemoteUpload, "553 refused".to_string()))
    );
    assert_eq!(w.stored.len(), 1);
    assert_eq!(w.stored[0].0, "/var/www/html/assets/style.css");
}

#[test]
fn sync_all_reports_every_file_when_all_fail() {
    let mut w = site();
    w.files.clear();
    let report = run(upload_all_files(&site_config()), &mut w).unwrap();
    assert_eq!((report.total, report.succeeded, report.failed), (2, 0, 2));
    assert!(w.stored.is_empty());
    assert!(!w.log.iter().any(|l| l.starts_with("MKD ")));
}

#[test]
fn sync_all_aborts_when_authentication_fails() {
    let mut w = site();
    w.login_error = Some("530 not logged in".to_string());
    let result = run(upload_all_files(&site_config()), &mut w);
    match result {
        Err(SyncError::Auth(reason)) => assert_eq!(reason, "530 not logged in"),
        other => panic!("expected an authentication failure, got {:?}", other),
    }
    assert!(w.stored.is_empty());
    assert_eq!(
        log_of(&w),
        vec![
            "LIST ./site",
            "LIST ./site/assets",
            "CONNECT ftp.example.org:2121",
            "USER deploy PASS hunter2",
            "QUIT",
        ]
    );
}

#[test]
fn sync_all_aborts_when_the_server_cannot_be_reached() {
    let mut w = site();
    w.connect_error = Some("connection refused".to_string());
    let error = run(upload_all_files(&site_config()), &mut w).unwrap_err();
    assert_eq!(error.kind(), ErrorKind::Connection);
    assert_eq!(error.text(), "connection refused");
    assert!(error.is_fatal());
    assert_eq!(w.log.last().unwrap(), "CONNECT ftp.example.org:2121");
    assert!(w.stored.is_empty());
}

#[test]
fn sync_all_aborts_before_connecting_when_discovery_fails() {
    let mut w = site();
    w.dirs.remove(1);
    let error = run(upload_all_files(&site_config()), &mut w).unwrap_err();
    assert_eq!(error.kind(), ErrorKind::Discovery);
    assert_eq!(error.text(), "no such directory");
    assert_eq!(log_of(&w), vec!["LIST ./site", "LIST ./site/assets"]);
}

#[test]
fn sync_all_ignores_refused_directories() {
    let mut w = site();
    w.refused_dirs.push("/var".to_string());
    w.refused_dirs.push("/var/www/html/assets".to_string());
    let report = run(upload_all_files(&site_config()), &mut w).unwrap();
    assert_eq!((report.total, report.succeeded, report.failed), (2, 2, 0));
    assert_eq!(w.stored.len(), 2);
}

#[test]
fn sync_all_asks_again_for_a_directory_that_was_refused() {
    let mut w = site();
    w.refused_dirs.push("/var".to_string());
    w.refused_dirs.push("/var/www/html".to_string());
    run(upload_all_files(&site_config()), &mut w).unwrap();
    let made: Vec<&str> = log_of(&w).into_iter().filter(|l| l.starts_with("MKD ")).collect();
    assert_eq!(
        made,
        vec![
            "MKD /var",
            "MKD /var/www",
            "MKD /var/www/html",
            "MKD /var",
            "MKD /var/www/html",
            "MKD /var/www/html/assets",
        ]
    );
}

#[test]
fn sync_all_asks_once_for_a_directory_that_was_made() {
    let mut w = world();
    w.dirs.push((
        "./site".to_string(),
        vec![("a.php".to_string(), false), ("b.php".to_string(), false), ("c.css".to_string(), false)],
    ));
    for name in ["a.php", "b.php", "c.css"] {
        w.files.push((format!("./site/{}", name), name.as_bytes().to_vec()));
    }
    let report = run(upload_all_files(&site_config()), &mut w).unwrap();
    assert_eq!((report.total, report.succeeded, report.failed), (3, 3, 0));
    let made: Vec<&str> = log_of(&w).into_iter().filter(|l| l.starts_with("MKD ")).collect();
    assert_eq!(made, vec!["MKD /var", "MKD /var/www", "MKD /var/www/html"]);
}

#[test]
fn sync_one_leaves_out_dot_segments_of_the_local_path() {
    let mut w = site();
    w.files.push(("./site/./index.php".to_string(), b"dotted".to_vec()));
    let report = run(upload_file(&site_config(), "./site/./index.php"), &mut w).unwrap();
    assert_eq!((report.total, report.succeeded, report.failed), (1, 1, 0));
    assert_eq!(w.stored, vec![("/var/www/html/index.php".to_string(), b"dotted".to_vec())]);
}

#[test]
fn sync_all_of_a_tree_without_watched_files_reports_nothing() {
    let mut w = world();
    w.dirs.push(("./site".to_string(), vec![("notes.txt".to_string(), false)]));
    let report = run(upload_all_files(&site_config()), &mut w).unwrap();
    assert_eq!((report.total, report.succeeded, report.failed), (0, 0, 0));
    assert_eq!(
        log_of(&w),
        vec!["LIST ./site", "CONNECT ftp.example.org:2121", "USER deploy PASS hunter2", "PASV", "QUIT"]
    );
}

#[test]
fn sync_all_sends_into_the_root_of_the_server() {
    let mut w = site();
    let mut config = site_config();
    config.remote_path = "/".to_string();
    run(upload_all_files(&config), &mut w).unwrap();
    assert_eq!(w.stored[0].0, "/index.php");
    assert_eq!(w.stored[1].0, "/assets/style.css");
    assert_eq!(
        w.log.iter().filter(|l| l.starts_with("MKD ")).collect::<Vec<_>>(),
        vec!["MKD /assets"]
    );
}

#[test]
fn sync_all_starts_by_listing_the_local_root() {
    let job = upload_all_files(&site_config());
    assert_eq!(job.mode(), Mode::WholeProject);
    assert_eq!(job.phase(), Phase::Discovering);
    assert!(!job.is_finished());
    assert_eq!(job.file_count(), 0);
    match job.next_command() {
        Command::ListDir(dir) => assert_eq!(dir, "./site"),
        other => panic!("expected a listing, got {:?}", other),
    }
    assert!(job.finish().is_none());
}

#[test]
fn sync_all_reads_an_unexpected_reply_as_a_failure_where_data_was_due() {
    let mut job = upload_all_files(&site_config());
    job.on_reply(Reply::Done);
    assert!(job.is_finished());
    let error = job.finish().unwrap().unwrap_err();
    assert_eq!(error.kind(), ErrorKind::Discovery);
    assert_eq!(error.text(), "");
}

#[test]
fn sync_one_uploads_the_file() {
    let mut w = site();
    let report = run(upload_file(&site_config(), "./site/assets/style.css"), &mut w).unwrap();
    assert_eq!((report.total, report.succeeded, report.failed), (1, 1, 0));
    assert_eq!(
        w.stored,
        vec![("/var/www/html/assets/style.css".to_string(), b"body {}".to_vec())]
    );
    assert_eq!(
        log_of(&w),
        vec![
            "CONNECT ftp.example.org:2121",
            "USER deploy PASS hunter2",
            "PASV",
            "READ ./site/assets/style.css",
            "STOR /var/www/html/assets/style.css",
            "QUIT",
        ]
    );
}

#[test]
fn sync_one_does_nothing_for_an_unwatched_file() {
    let mut w = site();
    let job = upload_file(&site_config(), "./site/readme.md");
    assert_eq!(job.mode(), Mode::SingleFile);
    assert!(job.is_finished());
    let report = run(job, &mut w).unwrap();
    assert_eq!((report.total, report.succeeded, report.failed), (0, 0, 0));
    assert!(w.log.is_empty());
}

#[test]
fn sync_one_fails_when_the_file_cannot_be_read() {
    let mut w = site();
    let error = run(upload_file(&site_config(), "./site/missing.php"), &mut w).unwrap_err();
    assert_eq!(error.kind(), ErrorKind::LocalRead);
    assert_eq!(error.text(), "file vanished");
    assert!(w.stored.is_empty());
    assert_eq!(w.log.last().unwrap(), "QUIT");
}

#[test]
fn sync_one_fails_when_the_upload_is_refused() {
    let mut w = site();
    w.refused_uploads.push("/var/www/html/index.php".to_string());
    let error = run(upload_file(&site_config(), "./site/index.php"), &mut w).unwrap_err();
    assert_eq!(error.kind(), ErrorKind::RemoteUpload);
    assert_eq!(error.text(), "553 refused");
    assert_eq!(w.log.last().unwrap(), "QUIT");
}

#[test]
fn sync_one_fails_for_a_file_outside_the_local_root() {
    let mut w = site();
    w.files.push(("./other/index.php".to_string(), b"x".to_vec()));
    let error = run(upload_file(&site_config(), "./other/index.php"), &mut w).unwrap_err();
    assert_eq!(error.kind(), ErrorKind::PathMapping);
    assert_eq!(error.text(), "./other/index.php");
    assert!(w.stored.is_empty());
    assert_eq!(
        log_of(&w),
        vec!["CONNECT ftp.example.org:2121", "USER deploy PASS hunter2", "PASV", "QUIT"]
    );
}

#[test]
fn sync_one_fails_when_authentication_fails() {
    let mut w = site();
    w.login_error = Some("530".to_string());
    let error = run(upload_file(&site_config(), "./site/index.php"), &mut w).unwrap_err();
    assert_eq!(error.kind(), ErrorKind::Auth);
    assert!(!w.log.iter().any(|l| l.starts_with("READ ") || l.starts_with("STOR ")));
    assert_eq!(w.log.last().unwrap(), "QUIT");
}

#[test]
fn sync_one_fails_when_the_server_cannot_be_reached() {
    let mut w = site();
    w.connect_error = Some("timed out".to_string());
    let error = run(upload_file(&site_config(), "./site/index.php"), &mut w).unwrap_err();
    assert_eq!(error.kind(), ErrorKind::Connection);
    assert_eq!(error.text(), "timed out");
    assert_eq!(w.log.len(), 1);
}

#[test]
fn finished_job_stays_finished() {
    let mut w = site();
    let mut job = upload_file(&site_config(), "./site/index.php");
    drive(&mut job, &mut w);
    assert_eq!(job.phase(), Phase::Finished);
    job.on_reply(Reply::Failed("late".to_string()));
    job.on_reply(Reply::Content(vec![1, 2, 3]));
    assert!(matches!(job.next_command(), Command::Finished));
    let report = job.finish().unwrap().unwrap();
    assert_eq!((report.total, report.succeeded, report.failed), (1, 1, 0));
}

#[test]
fn job_hands_the_content_it_was_given_to_the_server() {
    let mut job = upload_file(&site_config(), "./site/index.php");
    job.on_reply(Reply::Done);
    job.on_reply(Reply::Done);
    job.on_reply(Reply::Done);
    assert_eq!(job.phase(), Phase::Reading);
    job.on_reply(Reply::Content(vec![0, 255, 10, 13]));
    match job.next_command() {
        Command::Store { remote_path, content } => {
            assert_eq!(remote_path, "/var/www/html/index.php");
            assert_eq!(content, &vec![0u8, 255, 10, 13]);
        }
        other => panic!("expected a store command, got {:?}", other),
    }
}

#[test]
fn report_counts_successes_and_failures() {
    let outcome = |name: &str, failed: bool| TransferOutcome {
        local_path: name.to_string(),
        remote_path: format!("/r/{}", name),
        status: if failed {
            TransferStatus::Failed(SyncError::RemoteUpload("no".to_string()))
        } else {
            TransferStatus::Success
        },
    };
    let report = make_report(vec![
        outcome("a", false),
        outcome("b", true),
        outcome("c", true),
        outcome("d", false),
        outcome("e", false),
    ]);
    assert_eq!((report.total, report.succeeded, report.failed), (5, 3, 2));
    assert_eq!(report.outcomes.len(), 5);
    assert_eq!(report.outcomes[2].local_path, "c");
    let empty = make_report(Vec::new());
    assert_eq!((empty.total, empty.succeeded, empty.failed), (0, 0, 0));
}
