use tempo::client::{expect_id, expect_list};
use tempo::connection::Connection;
use tempo::protocol::{Command, Frame, FrameParseError};
use tempo::registry::{Note, NotesHandler, NOTE_TIMEOUT};
use tempo::server_cli;
use tempo::session::{end_of_stream, handshake, run_command, Action, NotesServer};

#[test]
fn add_100_notes() {
    let mut notes_handler = NotesHandler::new();
    for _ in 0..100 {
        notes_handler.create_note("test note".to_string(), 0).unwrap();
    }
    assert_eq!(notes_handler.get_all().len(), 100);
}

#[test]
fn create_then_evict_after_ttl() {
    let mut h = NotesHandler::new();
    let id = h.create_note("hello".to_string(), 10).unwrap();
    assert_eq!(h.bodies(), vec!["hello".to_string()]);
    assert_eq!(h.get(id).unwrap().body(), "hello");
    assert_eq!(h.evict_expired(10 + NOTE_TIMEOUT - 1), 0);
    assert_eq!(h.bodies(), vec!["hello".to_string()]);
    assert_eq!(h.evict_expired(10 + NOTE_TIMEOUT), 1);
    assert!(h.bodies().is_empty());
    assert!(h.get(id).is_none());
}

#[test]
fn eviction_keeps_young_notes() {
    let mut h = NotesHandler::new();
    h.create_note("old".to_string(), 0).unwrap();
    h.create_note("new".to_string(), 50).unwrap();
    assert_eq!(h.evict_expired(60), 1);
    assert_eq!(h.bodies(), vec!["new".to_string()]);
}

#[test]
fn identifiers_increase_and_are_not_reused() {
    let mut h = NotesHandler::new();
    let a = h.create_note("a".to_string(), 0).unwrap();
    let b = h.create_note("b".to_string(), 0).unwrap();
    assert_eq!((a, b), (0, 1));
    assert_eq!(h.remove(b).unwrap().id(), 1);
    assert!(h.remove(b).is_none());
    let c = h.create_note("c".to_string(), 0).unwrap();
    assert_eq!(c, 2);
    let ids: Vec<u64> = h.get_all().iter().map(|n| n.id()).collect();
    assert_eq!(ids, vec![0, 2]);
}

#[test]
fn note_accessors() {
    let n = Note::new(3, "x".to_string(), 100);
    assert_eq!(n.id(), 3);
    assert_eq!(n.body(), "x");
    assert_eq!(n.elapsed(130), 30);
    assert_eq!(n.elapsed(50), 0);
}

#[test]
fn session_scenario() {
    let mut server: NotesServer<&str> = NotesServer::new();
    let mut notes = NotesHandler::new();
    let id = server.handle_connection("task").unwrap();
    assert_eq!(id, 0);
    assert_eq!(expect_id(handshake(id)), Some(0));
    assert!(matches!(
        run_command(&mut notes, id, Command::Create("buy milk".to_string()), 0),
        Action::Continue
    ));
    match run_command(&mut notes, id, Command::Read, 1) {
        Action::Reply(f) => {
            assert_eq!(f, Frame(Command::List(vec!["buy milk".to_string()])));
            assert_eq!(expect_list(f), Some(vec!["buy milk".to_string()]));
        }
        _ => panic!("expected a reply"),
    }
    match run_command(&mut notes, id, Command::Disconnect(0), 2) {
        Action::Disconnect(d) => assert_eq!(server.remove(d), Some("task")),
        _ => panic!("expected a disconnect"),
    }
    assert!(server.remove(0).is_none());
    assert!(server.close().is_empty());
}

#[test]
fn invalid_tag_ends_one_session_only() {
    let mut server: NotesServer<u8> = NotesServer::new();
    let a = server.handle_connection(1).unwrap();
    let b = server.handle_connection(2).unwrap();
    assert_ne!(a, b);
    let mut bad = Connection::new();
    let mut good = Connection::new();
    bad.receive(&[0xFF]);
    good.receive(b"$");
    assert_eq!(bad.parse_frame(), Err(FrameParseError::Invalid(0xFF)));
    assert_eq!(server.remove(a), Some(1));
    let mut notes = NotesHandler::new();
    let f = good.parse_frame().unwrap().unwrap();
    assert!(matches!(run_command(&mut notes, b, f.0, 0), Action::Reply(_)));
    assert_eq!(server.close(), vec![2]);
}

#[test]
fn quit_and_stream_end_report_the_session() {
    let mut notes = NotesHandler::new();
    assert!(matches!(run_command(&mut notes, 4, Command::Quit, 0), Action::Disconnect(4)));
    assert!(matches!(end_of_stream(9), Action::Disconnect(9)));
    assert!(matches!(run_command(&mut notes, 4, Command::Id(1), 0), Action::Continue));
}

#[test]
fn server_port_default() {
    assert_eq!(server_cli::parse(None).port, 7536);
    assert_eq!(server_cli::parse(Some(80)).port, 80);
}
