use std::borrow::Cow;
use tokio_dbus::{decode_server_cmd, encode_client_cmd, AuthCodec, ClientCommand, ServerCommand};

fn encoded(cmd: &ClientCommand) -> Vec<u8> {
    let mut out = Vec::new();
    encode_client_cmd(cmd, &mut out);
    out
}

fn decoded(input: &[u8]) -> Option<(ServerCommand, usize)> {
    decode_server_cmd(input)
        .unwrap()
        .map(|(cmd, rest)| (cmd, input.len() - rest.len()))
}

#[test]
fn decode_ok_reads_guid_words() {
    let line = b"OK 0123456789abcdef0123456789abcdef\r\n";
    assert_eq!(
        decoded(line),
        Some((
            ServerCommand::Okay { server_guid: [0x0123456789abcdef, 0x0123456789abcdef] },
            line.len()
        ))
    );
    let upper = b"OK FEDCBA98765432100000000000000001\r\n";
    assert_eq!(
        decoded(upper),
        Some((
            ServerCommand::Okay { server_guid: [0xfedcba9876543210, 1] },
            upper.len()
        ))
    );
}

#[test]
fn decode_rejected_lists_mechanisms() {
    let line = b"REJECTED ANONYMOUS DBUS_COOKIE_SHA1\r\n";
    assert_eq!(
        decoded(line),
        Some((
            ServerCommand::Rejected {
                supported_mechanisms: vec![b"ANONYMOUS".to_vec(), b"DBUS_COOKIE_SHA1".to_vec()]
            },
            line.len()
        ))
    );
    assert_eq!(
        decoded(b"REJECTED\r\n"),
        Some((ServerCommand::Rejected { supported_mechanisms: vec![] }, 10))
    );
}

#[test]
fn decode_error_and_data() {
    assert_eq!(decoded(b"ERROR\r\n"), Some((ServerCommand::Error, 7)));
    assert_eq!(
        decoded(b"DATA 0aFF\r\n"),
        Some((ServerCommand::Data(vec![0x0a, 0xff]), 11))
    );
}

#[test]
fn decode_raw_commands() {
    assert_eq!(
        decoded(b"BEGIN\r\n"),
        Some((ServerCommand::Raw { cmd: b"BEGIN".to_vec(), payload: None }, 7))
    );
    assert_eq!(
        decoded(b"AGREE_UNIX_FD SOME_THING\r\n"),
        Some((
            ServerCommand::Raw {
                cmd: b"AGREE_UNIX_FD".to_vec(),
                payload: Some(b"SOME_THING".to_vec())
            },
            26
        ))
    );
    assert_eq!(
        decoded(b"ERROR FOO\r\n"),
        Some((ServerCommand::Raw { cmd: b"ERROR".to_vec(), payload: Some(b"FOO".to_vec()) }, 11))
    );
}

#[test]
fn decode_malformed_complete_lines() {
    assert!(decode_server_cmd(b"hello\r\n").is_err());
    assert!(decode_server_cmd(b"\r\n").is_err());
    assert!(decode_server_cmd(b"DATA 0\r\n").is_err());
    assert!(decode_server_cmd(b"DATA \r\n").is_err());
    assert!(decode_server_cmd(b"OK 0123\r\n").is_err());
    assert!(decode_server_cmd(b"A B C\r\n").is_err());
}

#[test]
fn decode_without_crlf_needs_more() {
    assert_eq!(decoded(b""), None);
    assert_eq!(decoded(b"OK 0123456789abcdef0123456789abcdef"), None);
    assert_eq!(decoded(b"OK 0123456789abcdef0123456789abcdef\r"), None);
    assert_eq!(decoded(b"hello"), None);
}

#[test]
fn decode_leaves_what_follows_the_line() {
    let (cmd, rest) = decode_server_cmd(b"ERROR\r\nBEGIN\r\n").unwrap().unwrap();
    assert_eq!(cmd, ServerCommand::Error);
    assert_eq!(rest, b"BEGIN\r\n");
}

#[test]
fn byte_at_a_time_matches_whole_frame() {
    let frame = b"REJECTED EXTERNAL\r\nDATA 00\r\n";
    let whole = decoded(frame);
    let first_len = 19;
    for k in 0..first_len {
        assert_eq!(decoded(&frame[..k]), None);
    }
    for k in first_len..=frame.len() {
        assert_eq!(decoded(&frame[..k]), whole);
    }
}

#[test]
fn codec_drains_one_frame_at_a_time() {
    let mut codec = AuthCodec;
    let mut buf: Vec<u8> = Vec::new();
    let stream = b"ERROR\r\nOK 0123456789abcdef0123456789abcdef\r\n";
    let mut got = Vec::new();
    for &b in stream.iter() {
        buf.push(b);
        if let Some(cmd) = codec.decode(&mut buf).unwrap() {
            got.push(cmd);
        }
    }
    assert!(buf.is_empty());
    assert_eq!(
        got,
        vec![
            ServerCommand::Error,
            ServerCommand::Okay { server_guid: [0x0123456789abcdef, 0x0123456789abcdef] }
        ]
    );
}

#[test]
fn codec_keeps_buffer_on_error() {
    let mut codec = AuthCodec;
    let mut buf = b"bad\r\nERROR\r\n".to_vec();
    assert!(codec.decode(&mut buf).is_err());
    assert_eq!(buf, b"bad\r\nERROR\r\n".to_vec());
}

#[test]
fn encode_auth() {
    let cmd = ClientCommand::Auth {
        mechanism: Cow::Borrowed(&b"EXTERNAL"[..]),
        initial_response: Some(Cow::Borrowed(&b"1000"[..])),
    };
    assert_eq!(encoded(&cmd), b"AUTH EXTERNAL 31303030\r\n".to_vec());
    let bare = ClientCommand::Auth { mechanism: Cow::Borrowed(&b"ANONYMOUS"[..]), initial_response: None };
    assert_eq!(encoded(&bare), b"AUTH ANONYMOUS\r\n".to_vec());
}

#[test]
fn encode_fixed_commands() {
    assert_eq!(encoded(&ClientCommand::Begin), b"BEGIN\r\n".to_vec());
    assert_eq!(encoded(&ClientCommand::Cancel), b"CANCEL\r\n".to_vec());
    assert_eq!(encoded(&ClientCommand::Error(None)), b"ERROR\r\n".to_vec());
    assert_eq!(
        encoded(&ClientCommand::Error(Some(Cow::Borrowed(&b"bad thing"[..])))),
        b"ERROR bad thing\r\n".to_vec()
    );
    assert_eq!(
        encoded(&ClientCommand::Data(Cow::Owned(vec![0x00, 0xab]))),
        b"DATA 00ab\r\n".to_vec()
    );
}

#[test]
fn encode_raw_keeps_literal_line() {
    let with_crlf = ClientCommand::Raw { cmd: Cow::Borrowed(&b"NEGOTIATE_UNIX_FD\r\n"[..]), payload: None };
    assert_eq!(encoded(&with_crlf), b"NEGOTIATE_UNIX_FD\r\n".to_vec());
    let bare = ClientCommand::Raw { cmd: Cow::Borrowed(&b"NEGOTIATE_UNIX_FD"[..]), payload: None };
    assert_eq!(encoded(&bare), b"NEGOTIATE_UNIX_FD\r\n".to_vec());
    let with_payload = ClientCommand::Raw {
        cmd: Cow::Borrowed(&b"FOO"[..]),
        payload: Some(Cow::Borrowed(&b"BAR"[..])),
    };
    assert_eq!(encoded(&with_payload), b"FOO BAR\r\n".to_vec());
}

#[test]
fn codec_encode_appends() {
    let mut codec = AuthCodec;
    let mut buf = b"BEGIN\r\n".to_vec();
    codec.encode(ClientCommand::Cancel, &mut buf);
    assert_eq!(buf, b"BEGIN\r\nCANCEL\r\n".to_vec());
}
