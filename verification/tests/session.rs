use ftp_sync::session::{Session, SessionState};

fn ready_session() -> Session {
    let mut session = Session::new();
    session.connect();
    session.login();
    session.set_passive_mode();
    session
}

#[test]
fn session_goes_through_its_states_in_order() {
    let mut session = Session::new();
    assert_eq!(session.state(), SessionState::Disconnected);
    assert!(!session.is_ready());
    session.connect();
    assert_eq!(session.state(), SessionState::Connected);
    session.login();
    assert_eq!(session.state(), SessionState::Authenticated);
    assert!(!session.is_ready());
    session.set_passive_mode();
    assert_eq!(session.state(), SessionState::Ready);
    assert!(session.is_ready());
    session.close();
    assert_eq!(session.state(), SessionState::Closed);
    assert!(!session.is_ready());
}

#[test]
fn session_can_be_closed_from_any_state() {
    let mut session = Session::new();
    session.close();
    assert_eq!(session.state(), SessionState::Closed);
    let mut session = Session::new();
    session.connect();
    session.close();
    assert_eq!(session.state(), SessionState::Closed);
}

fn make_all(session: &mut Session, dirs: &[String]) {
    for dir in dirs {
        session.directory_created(dir);
    }
}

#[test]
fn create_remote_directories_asks_for_every_prefix() {
    let session = ready_session();
    let requests = session.create_remote_directories("/var/www/html/assets");
    assert_eq!(
        requests,
        vec!["/var", "/var/www", "/var/www/html", "/var/www/html/assets"]
    );
    assert_eq!(session.known_dir_count(), 0);
    assert_eq!(session.state(), SessionState::Ready);
}

#[test]
fn create_remote_directories_makes_relative_paths_absolute() {
    let session = ready_session();
    assert_eq!(session.create_remote_directories("a/b"), vec!["/a", "/a/b"]);
}

#[test]
fn directory_created_records_each_directory_once() {
    let mut session = ready_session();
    session.directory_created("/var");
    session.directory_created("/var/www");
    session.directory_created("/var");
    assert_eq!(session.known_dir_count(), 2);
    assert!(session.knows_dir(&"/var/www".to_string()));
    assert!(!session.knows_dir(&"/var/www/".to_string()));
    assert!(!session.knows_dir(&"/var/www/html".to_string()));
    assert_eq!(session.state(), SessionState::Ready);
}

#[test]
fn ensure_remote_dir_twice_asks_for_nothing_the_second_time() {
    let mut session = ready_session();
    let first = session.create_remote_directories("/var/www/html/assets");
    assert_eq!(first.len(), 4);
    make_all(&mut session, &first);
    let second = session.create_remote_directories("/var/www/html/assets");
    assert_eq!(second, Vec::<String>::new());
    make_all(&mut session, &second);
    assert_eq!(session.known_dir_count(), 4);
    let third = session.create_remote_directories("/var/www/html/assets/");
    assert_eq!(third, Vec::<String>::new());
    assert_eq!(session.known_dir_count(), 4);
}

#[test]
fn create_remote_directories_asks_only_for_what_is_not_made() {
    let mut session = ready_session();
    let first = session.create_remote_directories("/var/www/html");
    make_all(&mut session, &first);
    let requests = session.create_remote_directories("/var/www/html/assets/img");
    assert_eq!(requests, vec!["/var/www/html/assets", "/var/www/html/assets/img"]);
    make_all(&mut session, &requests);
    let requests = session.create_remote_directories("/var/log");
    assert_eq!(requests, vec!["/var/log"]);
    make_all(&mut session, &requests);
    assert_eq!(session.known_dir_count(), 6);
}

#[test]
fn create_remote_directories_asks_again_for_what_the_server_refused() {
    let mut session = ready_session();
    let first = session.create_remote_directories("/a/b/c");
    assert_eq!(first, vec!["/a", "/a/b", "/a/b/c"]);
    session.directory_created("/a");
    session.directory_created("/a/b/c");
    assert_eq!(session.create_remote_directories("/a/b/c"), vec!["/a/b"]);
    assert_eq!(session.create_remote_directories("/a/b"), vec!["/a/b"]);
    assert_eq!(session.create_remote_directories("/a"), Vec::<String>::new());
}

#[test]
fn create_remote_directories_of_the_root_asks_for_nothing() {
    let session = ready_session();
    assert_eq!(session.create_remote_directories("/"), Vec::<String>::new());
    assert_eq!(session.create_remote_directories(""), Vec::<String>::new());
    assert_eq!(session.known_dir_count(), 0);
}
