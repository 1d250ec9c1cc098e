use std::io;
use tokio_dbus::handshake::decimal_bytes;
use tokio_dbus::{
    auth_step, decode_server_cmd, encode_client_cmd, start_external, AuthError, AuthEvent,
    AuthState, ClientCommand,
};

fn bytes_of(cmd: &ClientCommand) -> Vec<u8> {
    let mut out = Vec::new();
    encode_client_cmd(cmd, &mut out);
    out
}

/// Reports a completed send and checks that nothing is to be sent next.
fn sent(state: AuthState) -> AuthState {
    let (state, next) = auth_step(state, AuthEvent::Sent);
    assert!(next.is_none());
    state
}

fn receive(state: AuthState, line: &[u8]) -> (AuthState, Option<ClientCommand>) {
    let (cmd, rest) = decode_server_cmd(line).unwrap().unwrap();
    assert!(rest.is_empty());
    auth_step(state, AuthEvent::Received(cmd))
}

#[test]
fn scenario_success() {
    let (state, cmd) = start_external(1000);
    assert_eq!(bytes_of(&cmd), b"AUTH EXTERNAL 31303030\r\n".to_vec());
    let state = sent(state);
    assert!(matches!(state, AuthState::AwaitingResponse));
    let (state, next) = receive(state, b"OK 0123456789abcdef0123456789abcdef\r\n");
    assert!(next.is_none());
    match state {
        AuthState::Authenticated { server_guid } => {
            assert_eq!(server_guid, [0x0123456789abcdef, 0x0123456789abcdef]);
        }
        other => panic!("unexpected {:?}", other),
    }
}

#[test]
fn scenario_rejection() {
    let (state, _) = start_external(0);
    let (state, next) = receive(sent(state), b"REJECTED ANONYMOUS DBUS_COOKIE_SHA1\r\n");
    assert!(next.is_none());
    match state {
        AuthState::Failed { error: AuthError::Rejected { supported_mechanisms }, keeps_channel } => {
            assert_eq!(
                supported_mechanisms,
                vec![b"ANONYMOUS".to_vec(), b"DBUS_COOKIE_SHA1".to_vec()]
            );
            assert!(keeps_channel);
        }
        other => panic!("unexpected {:?}", other),
    }
}

#[test]
fn scenario_recovery_loop() {
    let (state, _) = start_external(1000);
    let (state, next) = receive(sent(state), b"ERROR\r\n");
    assert!(matches!(state, AuthState::Sending));
    assert_eq!(bytes_of(&next.unwrap()), b"CANCEL\r\n".to_vec());
    let (state, next) = receive(sent(state), b"OK 0123456789abcdef0123456789abcdef\r\n");
    assert!(next.is_none());
    assert!(matches!(
        state,
        AuthState::Authenticated { server_guid: [0x0123456789abcdef, 0x0123456789abcdef] }
    ));
}

#[test]
fn other_responses_are_answered_with_error() {
    let (state, _) = start_external(1000);
    let (state, next) = receive(sent(state), b"DATA 00\r\n");
    assert!(matches!(state, AuthState::Sending));
    let next = next.unwrap();
    assert!(matches!(next, ClientCommand::Error(None)));
    assert_eq!(bytes_of(&next), b"ERROR\r\n".to_vec());
    let (state, next) = receive(sent(state), b"BEGIN\r\n");
    assert!(matches!(state, AuthState::Sending));
    assert!(matches!(next, Some(ClientCommand::Error(None))));
}

#[test]
fn end_of_stream_is_unexpected() {
    let (state, _) = start_external(1000);
    let (state, next) = auth_step(sent(state), AuthEvent::EndOfStream);
    assert!(next.is_none());
    assert!(matches!(
        state,
        AuthState::Failed { error: AuthError::UnexpectedEof, keeps_channel: true }
    ));
}

#[test]
fn transport_failures() {
    let (state, _) = start_external(1000);
    let (failed_send, next) = auth_step(
        state,
        AuthEvent::SendFailed(io::Error::new(io::ErrorKind::BrokenPipe, "pipe")),
    );
    assert!(next.is_none());
    match failed_send {
        AuthState::Failed { error: AuthError::Io(e), keeps_channel } => {
            assert_eq!(e.kind(), io::ErrorKind::BrokenPipe);
            assert!(!keeps_channel);
        }
        other => panic!("unexpected {:?}", other),
    }
    let (state, _) = start_external(1000);
    let (failed_receive, _) = auth_step(
        sent(state),
        AuthEvent::ReceiveFailed(io::Error::new(io::ErrorKind::InvalidData, "bad line")),
    );
    assert!(matches!(
        failed_receive,
        AuthState::Failed { error: AuthError::Io(_), keeps_channel: true }
    ));
}

#[test]
fn uid_is_written_in_decimal() {
    assert_eq!(decimal_bytes(0), b"0".to_vec());
    assert_eq!(decimal_bytes(7), b"7".to_vec());
    assert_eq!(decimal_bytes(1000), b"1000".to_vec());
    assert_eq!(decimal_bytes(u32::MAX), b"4294967295".to_vec());
    let (_, cmd) = start_external(0);
    assert_eq!(bytes_of(&cmd), b"AUTH EXTERNAL 30\r\n".to_vec());
}
