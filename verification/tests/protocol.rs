use kubelog::command::Command;
use kubelog::engine::Description;
use kubelog::server::{
    append_reply, decode_header, describe_reply, error, frame, read_reply, request, room_required,
    Arrival, Connections, Header, Request, Transfer,
};
use kubelog::storage::Page;

fn header_of(frame: &[u8]) -> Option<Header> {
    decode_header(frame[..20].try_into().unwrap())
}

/// The code, the outcome, the room required and the message of an error reply.
fn fault(reply: &[u8]) -> (u16, u8, u32, String) {
    let header = header_of(reply).unwrap();
    assert_eq!((header.op, header.id), (255, 77));
    let body = &reply[20..];
    assert_eq!(body.len(), header.length);
    assert_eq!(body[3], 0);
    let length = u16::from_be_bytes(body[8..10].try_into().unwrap()) as usize;
    assert_eq!(body.len(), 10 + length);
    (
        u16::from_be_bytes(body[..2].try_into().unwrap()),
        body[2],
        u32::from_be_bytes(body[4..8].try_into().unwrap()),
        String::from_utf8(body[10..].to_vec()).unwrap(),
    )
}

fn refusal(header: Header, body: &[u8]) -> (u16, u8, u32, String) {
    match request(&header, body) {
        Request::Refused { reply } => fault(&reply),
        _ => panic!("a refusal was expected"),
    }
}

#[test]
fn frames_are_spelled_exactly() {
    assert_eq!(
        frame(129, 0x0102_0304_0506_0708, &[9, 10]),
        [
            b'K', b'L', b'G', b'N', 0, 1, 129, 0, 1, 2, 3, 4, 5, 6, 7, 8, 0, 0, 0, 2, 9, 10
        ]
    );
    assert_eq!(
        error(1, 0x0102, 2, 0x0304_0506, "hi")[20..],
        [1, 2, 2, 0, 3, 4, 5, 6, 0, 2, b'h', b'i']
    );
}

#[test]
fn headers_are_read_back() {
    let sent = frame(2, 42, &[0; 16]);
    assert_eq!(
        header_of(&sent),
        Some(Header {
            version: 1,
            op: 2,
            flags: 0,
            id: 42,
            length: 16
        })
    );
    let mut tag = sent.clone();
    tag[3] = b'X';
    assert_eq!(header_of(&tag), None);
}

#[test]
fn bodies_that_are_too_long_are_refused() {
    for (op, longest) in [
        (1, 1024 * 1024 + 1),
        (2, 16),
        (3, 0),
        (9, 4 * 1024 * 1024 + 20),
    ] {
        let mut header = frame(op, 1, &[]);
        header[16..20].copy_from_slice(&(longest as u32).to_be_bytes());
        assert_eq!(header_of(&header).unwrap().length, longest);
        header[16..20].copy_from_slice(&(longest as u32 + 1).to_be_bytes());
        assert_eq!(header_of(&header), None);
    }
}

#[test]
fn requests_are_understood() {
    let header = header_of(&frame(1, 5, &[1, 7, 8])).unwrap();
    assert!(matches!(
        request(&header, &[1, 7, 8]),
        Request::Append { payload } if payload == [7, 8]
    ));
    let body = [0, 0, 0, 0, 0, 0, 1, 0, 0, 0, 4, 0, 0, 0x40, 0, 0];
    let header = header_of(&frame(2, 5, &body)).unwrap();
    assert!(matches!(
        request(&header, &body),
        Request::Read {
            offset: 256,
            records: 1024,
            bytes: 0x40_0000
        }
    ));
    let header = header_of(&frame(3, 5, &[])).unwrap();
    assert!(matches!(request(&header, &[]), Request::Describe));
}

#[test]
fn faulty_requests_are_answered() {
    let header = Header {
        version: 1,
        op: 1,
        flags: 0,
        id: 77,
        length: 0,
    };
    let say = |code, outcome, message: &str| (code, outcome, 0, message.to_string());
    assert_eq!(
        refusal(Header { version: 2, ..header }, &[1]),
        say(2, 0, "unsupported protocol version")
    );
    assert_eq!(
        refusal(Header { version: 0, op: 3, ..header }, &[]),
        say(2, 2, "unsupported protocol version")
    );
    assert_eq!(
        refusal(Header { flags: 1, ..header }, &[1]),
        say(1, 0, "unsupported frame flags")
    );
    assert_eq!(refusal(header, &[]), say(1, 0, "missing ack mode"));
    assert_eq!(refusal(header, &[0]), say(3, 0, "unsupported ack mode"));
    let read = Header { op: 2, ..header };
    assert_eq!(refusal(read, &[0; 15]), say(1, 2, "read needs 16 bytes"));
    let limits = |records: u32, bytes: u32| {
        let mut body = vec![0; 8];
        body.extend(records.to_be_bytes());
        body.extend(bytes.to_be_bytes());
        body
    };
    for (records, bytes) in [(0, 1), (1025, 1), (1, 0), (1, 4 * 1024 * 1024 + 1)] {
        assert_eq!(
            refusal(read, &limits(records, bytes)),
            say(1, 2, "invalid read limits")
        );
    }
    assert_eq!(
        refusal(Header { op: 4, ..header }, &[]),
        say(1, 2, "unknown operation")
    );
    assert_eq!(
        refusal(Header { op: 0, ..header }, &[]),
        say(1, 2, "unknown operation")
    );
}

#[test]
fn appends_are_answered() {
    let reply = append_reply(77, &Ok(5));
    assert_eq!(header_of(&reply).unwrap().op, 129);
    assert_eq!(
        reply[20..],
        [0, 0, 0, 0, 0, 0, 0, 5, 0, 0, 0, 0, 0, 0, 0, 6]
    );
    for (message, code, outcome) in [
        ("engine overloaded", 4, 0),
        ("offset capacity reached", 10, 0),
        ("segment capacity reached", 10, 0),
        ("record exceeds segment limit", 10, 0),
        ("engine unavailable", 5, 0),
        ("payload too large", 1, 0),
        ("append outcome unknown; writer stopped", 6, 1),
        ("store failed; reopen after recovery", 6, 1),
        ("generation overflow", 6, 1),
    ] {
        assert_eq!(
            fault(&append_reply(77, &Err(message.to_string()))),
            (code, outcome, 0, message.to_string())
        );
    }
}

#[test]
fn reads_are_answered() {
    let page = Page {
        end: 9,
        next: 4,
        records: vec![vec![1, 2], vec![], vec![3]],
    };
    let reply = read_reply(77, &Ok(page));
    assert_eq!(header_of(&reply).unwrap().op, 130);
    assert_eq!(
        reply[20..],
        [0, 0, 0, 0, 0, 0, 0, 9, 0, 0, 0, 0, 0, 0, 0, 4, 0, 0, 0, 3, 1, 2, 3]
    );
    for (message, code, required) in [
        ("buffer too small: requires 4294967295 bytes", 8, 4294967295),
        ("buffer too small: requires 4294967296 bytes", 6, 0),
        ("buffer too small: requires +7 bytes", 8, 7),
        ("buffer too small: requires 0 bytes", 6, 0),
        ("buffer too small: requires bytes", 6, 0),
        ("offset out of range", 7, 0),
        ("engine unavailable", 6, 0),
        ("checksum mismatch at offset 3", 6, 0),
    ] {
        assert_eq!(room_required(message), required);
        assert_eq!(
            fault(&read_reply(77, &Err(message.to_string()))),
            (code, 2, required, message.to_string())
        );
    }
}

#[test]
fn the_state_is_described() {
    let mut state = Description {
        end: 3,
        segments: 2,
        queued: 1,
        bytes: 0x0102_0304,
        healthy: true,
    };
    let reply = describe_reply(77, &state);
    assert_eq!(header_of(&reply).unwrap().op, 131);
    assert_eq!(
        reply[20..],
        [
            1, 0, 0, 0, 0, 0, 0, 0, 0, 0, 0, 0, 0, 0, 0, 3, 0, 0, 0, 0, 0, 0, 0, 3, 0, 0, 0, 2, 0,
            0, 0, 1, 0, 0, 0, 0, 1, 2, 3, 4
        ]
    );
    state.healthy = false;
    assert_eq!(describe_reply(77, &state)[20], 3);
}

#[test]
fn long_messages_are_cut_between_characters() {
    let ascii = "x".repeat(300);
    assert_eq!(fault(&error(77, 6, 1, 0, &ascii)).3, ascii[..256]);
    let exact = "y".repeat(256);
    assert_eq!(fault(&error(77, 6, 1, 0, &exact)).3, exact);
    let wide = "x".to_string() + &"\u{20ac}".repeat(100);
    assert_eq!(fault(&error(77, 6, 1, 0, &wide)).3, wide[..256]);
    let wider = "xx".to_string() + &"\u{20ac}".repeat(100);
    assert_eq!(fault(&error(77, 6, 1, 0, &wider)).3, wider[..254]);
    assert_eq!(fault(&error(77, 6, 1, 0, "")).3, "");
}

#[test]
fn transfers_are_followed() {
    let mut transfer = Transfer::start(5);
    assert_eq!(transfer.received(0), Arrival::Closed);
    assert_eq!(transfer.received(2), Arrival::Bytes);
    assert_eq!((transfer.done(), transfer.finished()), (2, false));
    assert_eq!(transfer.received(0), Arrival::Broken);
    assert_eq!(transfer.received(3), Arrival::Bytes);
    assert!(transfer.finished());
    assert!(Transfer::start(0).finished());
    let mut transfer = Transfer::start(2);
    assert!(!transfer.sent(0));
    assert!(transfer.sent(2));
    assert!(transfer.finished());
}

#[test]
fn connections_are_counted() {
    let mut connections = Connections::none();
    for _ in 0..32 {
        assert!(connections.open());
    }
    assert!(!connections.open());
    assert_eq!(connections.active(), 32);
    connections.close();
    assert_eq!(connections.active(), 31);
    assert!(connections.open());
}

fn parsed(args: &[&str]) -> Result<Command, String> {
    let args: Vec<String> = args.iter().map(|arg| arg.to_string()).collect();
    Command::parse(&args)
}

#[test]
fn commands_are_parsed() {
    assert!(matches!(
        parsed(&["kubelog", "init", "data"]),
        Ok(Command::Init { path }) if path == "data"
    ));
    assert!(matches!(
        parsed(&["kubelog", "serve", "data"]),
        Ok(Command::Serve { path, address }) if path == "data" && address == "127.0.0.1:7676"
    ));
    assert!(matches!(
        parsed(&["kubelog", "serve", "data", "0.0.0.0:1"]),
        Ok(Command::Serve { path, address }) if path == "data" && address == "0.0.0.0:1"
    ));
    for args in [
        &["kubelog"][..],
        &["kubelog", "init"],
        &["kubelog", "init", "data", "more"],
        &["kubelog", "serve"],
        &["kubelog", "serve", "data", "address", "more"],
        &["kubelog", "stop", "data"],
        &[],
    ] {
        assert_eq!(
            parsed(args).err(),
            Some(
                "usage: kubelog init DATA_DIR | kubelog serve DATA_DIR [127.0.0.1:PORT]"
                    .to_string()
            )
        );
    }
}
