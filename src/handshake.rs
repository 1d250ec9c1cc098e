use std::borrow::Cow;
use vstd::prelude::*;

use crate::commands::{ClientCommand, ServerCommand, ServerGuid};

verus! {

/// The error type of std's I/O, carried as it is: the handshake never looks inside it.
#[verifier::external_type_specification]
#[verifier::external_body]
pub struct ExIoError(std::io::Error);

/// The mechanisms that the handshake can run.
pub enum AuthMode {
    External,
}

/// Why a handshake ended without success.
#[derive(Debug)]
pub enum AuthError {
    /// The channel failed under a send or a receive.
    Io(std::io::Error),
    /// The server refused the mechanism, and named those it accepts.
    Rejected { supported_mechanisms: Vec<Vec<u8>> },
    /// The stream ended before the server answered.
    UnexpectedEof,
}

/// Where a handshake stands.
#[derive(Debug)]
pub enum AuthState {
    /// A command was handed out; the outcome of sending it is awaited.
    Sending,
    /// A command was sent; its one answer is awaited.
    AwaitingResponse,
    /// The server accepted; the next command on the channel is `BEGIN`.
    Authenticated { server_guid: ServerGuid },
    /// The handshake is over. `keeps_channel` says whether the channel is handed
    /// back to the caller; it is not after a failed send.
    Failed { error: AuthError, keeps_channel: bool },
}

/// What came of the operation that a state asked for.
#[derive(Debug)]
pub enum AuthEvent {
    /// The command was written in full.
    Sent,
    SendFailed(std::io::Error),
    /// One server command was received.
    Received(ServerCommand),
    ReceiveFailed(std::io::Error),
    /// The stream ended cleanly.
    EndOfStream,
}

/// `EXTERNAL`
pub open spec fn external_word() -> Seq<u8> {
    seq![69u8, 88, 84, 69, 82, 78, 65, 76]
}

/// The decimal digits of a number, most significant first, without leading zeros.
pub open spec fn decimal(n: nat) -> Seq<u8>
    decreases n,
{
    if n < 10 {
        seq![(48 + n) as u8]
    } else {
        decimal(n / 10) + seq![(48 + n % 10) as u8]
    }
}

/// The first command of an `EXTERNAL` handshake for the user `uid`: the mechanism
/// and the user id in decimal as its initial response.
pub open spec fn is_external_auth(cmd: ClientCommand, uid: u32) -> bool {
    match cmd {
        ClientCommand::Auth { mechanism, initial_response: Some(response) } => {
            mechanism@ == external_word() && response@ == decimal(uid as nat)
        },
        _ => false,
    }
}

/// Whether `event` is an outcome of the operation that `state` asks for: a send in
/// `Sending`, a receive in `AwaitingResponse`. The finished states ask for none.
pub open spec fn event_fits(state: AuthState, event: AuthEvent) -> bool {
    match state {
        AuthState::Sending => event is Sent || event is SendFailed,
        AuthState::AwaitingResponse => !(event is Sent || event is SendFailed),
        _ => false,
    }
}

fn push_decimal(n: u32, out: &mut Vec<u8>)
    ensures
        final(out)@ == old(out)@ + decimal(n as nat),
    decreases n,
{
    if n >= 10 {
        push_decimal(n / 10, out);
    }
    out.push(48 + (n % 10) as u8);
    assert(out@ =~= old(out)@ + decimal(n as nat));
}

/// The decimal digits of `n`.
pub fn decimal_bytes(n: u32) -> (r: Vec<u8>)
    ensures
        r@ == decimal(n as nat),
{
    let mut out: Vec<u8> = Vec::new();
    push_decimal(n, &mut out);
    assert(out@ =~= decimal(n as nat));
    out
}

/// The start of an `EXTERNAL` handshake for the user `uid`: its `AUTH` command, to
/// be sent now.
pub fn start_external(uid: u32) -> (r: (AuthState, ClientCommand))
    ensures
        r.0 is Sending,
        is_external_auth(r.1, uid),
{
    let mechanism: Vec<u8> = vec![69u8, 88, 84, 69, 82, 78, 65, 76];
    let response = decimal_bytes(uid);
    let cmd = ClientCommand::Auth {
        mechanism: Cow::Owned(mechanism),
        initial_response: Some(Cow::Owned(response)),
    };
    (AuthState::Sending, cmd)
}

/// One step of the handshake: the next state, and the command to send next if there is
/// one. After a send the answer is awaited; `OK` ends the handshake with the server's
/// identity, `REJECTED` with the mechanisms that the server names; an `ERROR` is
/// answered with `CANCEL`, any other command with `ERROR`; a failed operation or the
/// end of the stream ends it with that error.
pub fn auth_step(state: AuthState, event: AuthEvent) -> (r: (AuthState, Option<ClientCommand>))
    requires
        event_fits(state, event),
    ensures
        r.0 is Sending <==> r.1 is Some,
        match event {
            AuthEvent::Sent => r.0 is AwaitingResponse,
            AuthEvent::SendFailed(e) => r.0 == (AuthState::Failed {
                error: AuthError::Io(e),
                keeps_channel: false,
            }),
            AuthEvent::Received(ServerCommand::Okay { server_guid }) => r.0 == (
            AuthState::Authenticated { server_guid }),
            AuthEvent::Received(ServerCommand::Rejected { supported_mechanisms }) => r.0 == (
            AuthState::Failed {
                error: AuthError::Rejected { supported_mechanisms },
                keeps_channel: true,
            }),
            AuthEvent::Received(ServerCommand::Error) => r.1 matches Some(ClientCommand::Cancel),
            AuthEvent::Received(_) => r.1 matches Some(ClientCommand::Error(None)),
            AuthEvent::ReceiveFailed(e) => r.0 == (AuthState::Failed {
                error: AuthError::Io(e),
                keeps_channel: true,
            }),
            AuthEvent::EndOfStream => r.0 == (AuthState::Failed {
                error: AuthError::UnexpectedEof,
                keeps_channel: true,
            }),
        },
{
    match event {
        AuthEvent::Sent => (AuthState::AwaitingResponse, None),
        AuthEvent::SendFailed(e) => (
            AuthState::Failed { error: AuthError::Io(e), keeps_channel: false },
            None,
        ),
        AuthEvent::Received(response) => match response {
            ServerCommand::Okay { server_guid } => (AuthState::Authenticated { server_guid }, None),
            ServerCommand::Rejected { supported_mechanisms } => (
                AuthState::Failed {
                    error: AuthError::Rejected { supported_mechanisms },
                    keeps_channel: true,
                },
                None,
            ),
            ServerCommand::Error => (AuthState::Sending, Some(ClientCommand::Cancel)),
            ServerCommand::Data(_) => (AuthState::Sending, Some(ClientCommand::Error(None))),
            ServerCommand::Raw { .. } => (AuthState::Sending, Some(ClientCommand::Error(None))),
        },
        AuthEvent::ReceiveFailed(e) => (
            AuthState::Failed { error: AuthError::Io(e), keeps_channel: true },
            None,
        ),
        AuthEvent::EndOfStream => (
            AuthState::Failed { error: AuthError::UnexpectedEof, keeps_channel: true },
            None,
        ),
    }
}

} // verus!
