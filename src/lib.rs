//! Client side of the local bus handshake: the hexadecimal codec, the codec of the
//! handshake's command lines, the state machine of an `EXTERNAL` authentication, and
//! the grammar of type signatures.

pub mod commands;
pub mod handshake;
pub mod hex;
pub mod signature;

pub use commands::{
    decode_server_cmd, encode_client_cmd, AuthCodec, ClientCommand, ProtocolError, ServerCommand,
    ServerGuid,
};
pub use handshake::{auth_step, start_external, AuthError, AuthEvent, AuthMode, AuthState};
pub use hex::{extend_from_hex_encoded, hex_decode, hex_encode, hex_encoded_len, HexError};
pub use signature::{
    decode_signature, encode_signature, parse_signature, parse_type, BasicType, ContainerType,
    InvalidSignature, Signature, Type,
};
