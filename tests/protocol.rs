use tempo::connection::Connection;
use tempo::protocol::{Command, Frame, FrameParseError};

fn round_trip(c: Command) {
    let f = Frame(c.clone());
    let bytes = f.encode();
    assert_eq!(Frame::check(&bytes), Ok(bytes.len()));
    assert_eq!(Frame::parse(&bytes).unwrap(), Frame(c));
}

#[test]
fn encode_then_decode_every_command() {
    round_trip(Command::Create("buy milk".to_string()));
    round_trip(Command::Create("naïve café".to_string()));
    round_trip(Command::Create(String::new()));
    round_trip(Command::Read);
    round_trip(Command::Quit);
    round_trip(Command::Id(0));
    round_trip(Command::Id(u64::MAX));
    round_trip(Command::Disconnect(12345));
    round_trip(Command::List(vec![]));
    round_trip(Command::List(vec!["a".to_string(), "".to_string(), "é#12".to_string()]));
}

#[test]
fn exact_encodings() {
    assert_eq!(Frame(Command::Create("hi".to_string())).encode(), b"+hi\r\n".to_vec());
    assert_eq!(Frame(Command::Id(42)).encode(), b"#42\r\n".to_vec());
    assert_eq!(Frame(Command::Disconnect(7)).encode(), b"!7\r\n".to_vec());
    assert_eq!(Frame(Command::Read).encode(), b"$".to_vec());
    assert_eq!(Frame(Command::Quit).encode(), b"-".to_vec());
    assert_eq!(
        Frame(Command::List(vec!["ab".to_string(), "c".to_string()])).encode(),
        b"%2#ab1#c\r\n".to_vec()
    );
    assert_eq!(Frame(Command::List(vec![])).encode(), b"%\r\n".to_vec());
    assert_eq!(Command::Create(String::new()).byte(), b'+');
    assert_eq!(Command::List(vec![]).byte(), b'%');
}

#[test]
fn prefixes_are_incomplete() {
    let frames = vec![
        Frame(Command::Create("buy milk".to_string())),
        Frame(Command::List(vec!["x".to_string(), "yz".to_string()])),
        Frame(Command::Id(99)),
        Frame(Command::Read),
    ];
    for f in frames {
        let bytes = f.encode();
        for j in 0..bytes.len() {
            assert_eq!(Frame::check(&bytes[..j]), Err(FrameParseError::Incomplete));
        }
        assert_eq!(Frame::check(&bytes), Ok(bytes.len()));
        assert_eq!(Frame::parse(&bytes).unwrap(), f);
    }
}

#[test]
fn invalid_tag_and_malformed_bodies() {
    assert_eq!(Frame::check(&[0xFF]), Err(FrameParseError::Invalid(0xFF)));
    assert_eq!(Frame::parse(&[0xFF, 1, 2]), Err(FrameParseError::Invalid(0xFF)));
    assert_eq!(Frame::parse(b"#12a\r\n"), Err(FrameParseError::Malformed));
    assert_eq!(Frame::parse(b"#\r\n"), Err(FrameParseError::Malformed));
    assert_eq!(Frame::parse(b"#18446744073709551616\r\n"), Err(FrameParseError::Malformed));
    assert_eq!(Frame::parse(b"%5#ab\r\n"), Err(FrameParseError::Malformed));
    assert_eq!(Frame::parse(b"%#ab\r\n"), Err(FrameParseError::Malformed));
    assert_eq!(Frame::parse(b"%2#ab3\r\n"), Err(FrameParseError::Malformed));
    assert_eq!(Frame::parse(&[b'+', 0xC3, b'\r', b'\n']), Err(FrameParseError::Malformed));
    assert_eq!(Frame::parse(b"+ab"), Err(FrameParseError::Incomplete));
}

#[test]
fn check_leaves_following_bytes() {
    assert_eq!(Frame::check(b"+a\r\n$"), Ok(4));
    assert_eq!(Frame::check(b"$+a"), Ok(1));
    assert_eq!(Frame::parse(b"!5\r\n#6\r\n").unwrap(), Frame(Command::Disconnect(5)));
}

#[test]
fn connection_assembles_frames_across_reads() {
    let mut c = Connection::new();
    assert!(c.is_drained());
    assert_eq!(c.parse_frame(), Ok(None));
    c.receive(b"+buy ");
    assert_eq!(c.parse_frame(), Ok(None));
    assert!(!c.is_drained());
    c.receive(b"milk\r\n$");
    assert_eq!(c.parse_frame(), Ok(Some(Frame(Command::Create("buy milk".to_string())))));
    assert_eq!(c.parse_frame(), Ok(Some(Frame(Command::Read))));
    assert!(c.is_drained());
    c.receive(&[0xFF]);
    assert_eq!(c.parse_frame(), Err(FrameParseError::Invalid(0xFF)));
    assert!(!c.is_drained());
}

#[test]
fn command_names() {
    assert_eq!(Command::Create(String::new()).to_string(), "CREATE");
    assert_eq!(Command::List(vec![]).to_string(), "LIST");
    assert_eq!(Command::Read.to_string(), "READ");
    assert_eq!(Command::Quit.to_string(), "QUIT");
    assert_eq!(Command::Disconnect(1).to_string(), "DISCONNECT");
    assert_eq!(Command::Id(1).to_string(), "ID");
    assert_eq!(Command::Read.byte(), b'$');
    assert_eq!(Command::Quit.byte(), b'-');
    assert_eq!(Command::Disconnect(0).byte(), b'!');
    assert_eq!(Command::Id(0).byte(), b'#');
}

#[test]
fn list_round_trip_of_many_entries() {
    let entries: Vec<String> = (0..30).map(|i| "x".repeat(i)).collect();
    let f = Frame(Command::List(entries));
    let bytes = f.encode();
    assert_eq!(Frame::parse(&bytes).unwrap(), f);
}
