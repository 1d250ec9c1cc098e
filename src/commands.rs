use std::borrow::Cow;
use vstd::prelude::*;

use crate::hex::{
    extend_from_hex_encoded, hex_decode, hex_decoding, hex_digit_value, hex_encoding, hex_number,
    is_hex_digit, is_hex_text, lemma_hex_number_bound, pow16,
};

verus! {

/// The identity of a bus instance: 128 bits as two words, the first read first.
pub type ServerGuid = [u64; 2];

/// A line that the server sends during the handshake.
#[derive(Clone, Debug, PartialEq, Eq)]
pub enum ServerCommand {
    Data(Vec<u8>),
    Error,
    Okay { server_guid: ServerGuid },
    Rejected { supported_mechanisms: Vec<Vec<u8>> },
    Raw { cmd: Vec<u8>, payload: Option<Vec<u8>> },
}

/// A line that the client sends during the handshake.
#[derive(Debug, PartialEq, Eq)]
pub enum ClientCommand {
    Auth { mechanism: Cow<'static, [u8]>, initial_response: Option<Cow<'static, [u8]>> },
    Begin,
    Cancel,
    Data(Cow<'static, [u8]>),
    Error(Option<Cow<'static, [u8]>>),
    Raw { cmd: Cow<'static, [u8]>, payload: Option<Cow<'static, [u8]>> },
}

/// A complete line from the server that fits none of the forms of the protocol.
#[derive(Clone, Copy, Debug, PartialEq, Eq, Structural)]
pub struct ProtocolError;

/// The mathematical form of a server line, which `ServerCommand` is a view of.
pub enum Reply {
    Data(Seq<u8>),
    Error,
    Okay(u64, u64),
    Rejected(Seq<Seq<u8>>),
    Raw(Seq<u8>, Option<Seq<u8>>),
}

pub open spec fn bytes_of(v: Vec<u8>) -> Seq<u8> {
    v@
}

pub open spec fn opt_bytes(o: Option<Vec<u8>>) -> Option<Seq<u8>> {
    match o {
        Some(v) => Some(v@),
        None => None,
    }
}

/// The names of a list, as byte strings.
pub open spec fn names_view(v: Seq<Vec<u8>>) -> Seq<Seq<u8>> {
    v.map_values(|m: Vec<u8>| bytes_of(m))
}

impl View for ServerCommand {
    type V = Reply;

    open spec fn view(&self) -> Reply {
        match self {
            ServerCommand::Data(b) => Reply::Data(b@),
            ServerCommand::Error => Reply::Error,
            ServerCommand::Okay { server_guid } => Reply::Okay(server_guid@[0], server_guid@[1]),
            ServerCommand::Rejected { supported_mechanisms } => Reply::Rejected(names_view(supported_mechanisms@)),
            ServerCommand::Raw { cmd, payload } => Reply::Raw(cmd@, opt_bytes(*payload)),
        }
    }
}

pub open spec fn crlf() -> Seq<u8> {
    seq![13u8, 10]
}

/// `DATA `
pub open spec fn data_tag() -> Seq<u8> {
    seq![68u8, 65, 84, 65, 32]
}

/// `ERROR`
pub open spec fn error_word() -> Seq<u8> {
    seq![69u8, 82, 82, 79, 82]
}

/// `OK `
pub open spec fn ok_tag() -> Seq<u8> {
    seq![79u8, 75, 32]
}

/// `REJECTED`
pub open spec fn rejected_word() -> Seq<u8> {
    seq![82u8, 69, 74, 69, 67, 84, 69, 68]
}

/// `AUTH `
pub open spec fn auth_tag() -> Seq<u8> {
    seq![65u8, 85, 84, 72, 32]
}

/// `BEGIN`
pub open spec fn begin_word() -> Seq<u8> {
    seq![66u8, 69, 71, 73, 78]
}

/// `CANCEL`
pub open spec fn cancel_word() -> Seq<u8> {
    seq![67u8, 65, 78, 67, 69, 76]
}

/// A character of a command name: `A-Z` or `_`.
pub open spec fn is_cmd_name_byte(c: u8) -> bool {
    (65 <= c <= 90) || c == 95
}

/// A character of a mechanism name: `A-Z`, `0-9` or `_`.
pub open spec fn is_mechanism_byte(c: u8) -> bool {
    is_cmd_name_byte(c) || (48 <= c <= 57)
}

pub open spec fn name_byte(c: u8, digits: bool) -> bool {
    if digits {
        is_mechanism_byte(c)
    } else {
        is_cmd_name_byte(c)
    }
}

/// Where the run of name characters that starts at `i` ends.
pub open spec fn name_end(s: Seq<u8>, i: int, digits: bool) -> int
    decreases s.len() - i,
{
    if 0 <= i < s.len() && name_byte(s[i], digits) {
        name_end(s, i + 1, digits)
    } else {
        i
    }
}

/// The mechanism names of `s` from `i` on, each after one space, appended to `acc`.
pub open spec fn mechanisms_from(s: Seq<u8>, i: int, acc: Seq<Seq<u8>>) -> Option<Seq<Seq<u8>>>
    decreases s.len() - i,
{
    if i >= s.len() {
        Some(acc)
    } else if i < 0 || s[i] != 32 {
        None
    } else {
        let e = name_end(s, i + 1, true);
        if i + 1 < e <= s.len() {
            mechanisms_from(s, e, acc.push(s.subrange(i + 1, e)))
        } else {
            None
        }
    }
}

/// A command name, alone or followed by one space and one payload name.
pub open spec fn raw_reply(l: Seq<u8>) -> Option<Reply> {
    let c = name_end(l, 0, false);
    if c == 0 {
        None
    } else if c == l.len() {
        Some(Reply::Raw(l, None))
    } else if l[c] == 32 && c + 1 < l.len() && name_end(l, c + 1, false) == l.len() {
        Some(Reply::Raw(l.take(c), Some(l.skip(c + 1))))
    } else {
        None
    }
}

/// `OK ` and thirty-two hex digits.
pub open spec fn is_guid_line(l: Seq<u8>) -> bool {
    &&& l.len() == 35
    &&& l.take(3) == ok_tag()
    &&& forall|i: int| 3 <= i < 35 ==> is_hex_digit(#[trigger] l[i])
}

/// What a line without its CRLF says; the forms are tried in this order.
pub open spec fn line_reply(l: Seq<u8>) -> Option<Reply> {
    if l.len() > 5 && l.take(5) == data_tag() && is_hex_text(l.skip(5)) {
        Some(Reply::Data(hex_decoding(l.skip(5))))
    } else if l == error_word() {
        Some(Reply::Error)
    } else if is_guid_line(l) {
        Some(
            Reply::Okay(hex_number(l.subrange(3, 19)) as u64, hex_number(l.subrange(19, 35)) as u64),
        )
    } else if l.len() >= 8 && l.take(8) == rejected_word() && mechanisms_from(l, 8, seq![])
        is Some {
        Some(Reply::Rejected(mechanisms_from(l, 8, seq![])->0))
    } else {
        raw_reply(l)
    }
}

pub open spec fn crlf_at(b: Seq<u8>, i: int) -> bool {
    0 <= i && i + 1 < b.len() && b[i] == 13 && b[i + 1] == 10
}

/// The first CRLF at or after `i`.
pub open spec fn first_crlf_from(b: Seq<u8>, i: int) -> Option<int>
    decreases b.len() - i,
{
    if i < 0 || i + 1 >= b.len() {
        None
    } else if crlf_at(b, i) {
        Some(i)
    } else {
        first_crlf_from(b, i + 1)
    }
}

/// What the start of a receive buffer holds.
pub enum Decoded {
    /// No complete line yet.
    NeedMore,
    /// A line, and the number of bytes it takes with its CRLF.
    Frame(Reply, int),
    /// A complete line that is no server command.
    Malformed,
}

/// The first line of a buffer, read up to its first CRLF.
pub open spec fn decode_frame(b: Seq<u8>) -> Decoded {
    match first_crlf_from(b, 0) {
        None => Decoded::NeedMore,
        Some(i) => match line_reply(b.take(i)) {
            Some(r) => Decoded::Frame(r, i + 2),
            None => Decoded::Malformed,
        },
    }
}

pub open spec fn ends_with_crlf(s: Seq<u8>) -> bool {
    s.len() >= 2 && s[s.len() - 2] == 13 && s[s.len() - 1] == 10
}

/// The bytes that a client command is sent as.
pub open spec fn client_cmd_bytes(c: ClientCommand) -> Seq<u8> {
    match c {
        ClientCommand::Auth { mechanism, initial_response } => auth_tag() + mechanism@ + (
        match initial_response {
            None => Seq::empty(),
            Some(r) => seq![32u8] + hex_encoding(r@),
        }) + crlf(),
        ClientCommand::Begin => begin_word() + crlf(),
        ClientCommand::Cancel => cancel_word() + crlf(),
        ClientCommand::Data(b) => data_tag() + hex_encoding(b@) + crlf(),
        ClientCommand::Error(None) => error_word() + crlf(),
        ClientCommand::Error(Some(m)) => error_word() + seq![32u8] + m@ + crlf(),
        ClientCommand::Raw { cmd, payload: None } => if ends_with_crlf(cmd@) {
            cmd@
        } else {
            cmd@ + crlf()
        },
        ClientCommand::Raw { cmd, payload: Some(p) } => cmd@ + seq![32u8] + p@ + crlf(),
    }
}

/// `A-Z` or `_`: a character of a command name.
pub fn is_cmd_name_char(c: u8) -> (r: bool)
    ensures
        r == is_cmd_name_byte(c),
{
    (c >= 65 && c <= 90) || c == 95
}

/// `A-Z`, `0-9` or `_`: a character of a mechanism name.
pub fn is_mechanism_char(c: u8) -> (r: bool)
    ensures
        r == is_mechanism_byte(c),
{
    is_cmd_name_char(c) || (c >= 48 && c <= 57)
}

fn is_name_char(c: u8, digits: bool) -> (r: bool)
    ensures
        r == name_byte(c, digits),
{
    if digits {
        is_mechanism_char(c)
    } else {
        is_cmd_name_char(c)
    }
}

/// The end of the run of name characters that starts at `i`.
fn scan_name(s: &[u8], i: usize, digits: bool) -> (r: usize)
    requires
        i <= s@.len(),
    ensures
        r == name_end(s@, i as int, digits),
        i <= r <= s@.len(),
{
    let mut j = i;
    while j < s.len() && is_name_char(s[j], digits)
        invariant
            i <= j <= s@.len(),
            name_end(s@, i as int, digits) == name_end(s@, j as int, digits),
        decreases s@.len() - j,
    {
        j += 1;
    }
    j
}

/// Whether `s` starts with `p`.
fn has_prefix(s: &[u8], p: &[u8]) -> (r: bool)
    ensures
        r == (p@.len() <= s@.len() && s@.take(p@.len() as int) == p@),
{
    if p.len() > s.len() {
        return false;
    }
    let mut i: usize = 0;
    while i < p.len()
        invariant
            p@.len() <= s@.len(),
            0 <= i <= p@.len(),
            forall|k: int| 0 <= k < i ==> s@[k] == p@[k],
        decreases p@.len() - i,
    {
        if s[i] != p[i] {
            proof {
                assert(s@.take(p@.len() as int)[i as int] != p@[i as int]);
            }
            return false;
        }
        i += 1;
    }
    proof {
        assert(s@.take(p@.len() as int) =~= p@);
    }
    true
}

/// Whether every character of `s` in `from..to` is a hex digit.
fn all_hex_digits(s: &[u8], from: usize, to: usize) -> (r: bool)
    requires
        from <= to <= s@.len(),
    ensures
        r == forall|i: int| from <= i < to ==> is_hex_digit(#[trigger] s@[i]),
{
    let mut i = from;
    while i < to
        invariant
            from <= i <= to <= s@.len(),
            forall|k: int| from <= k < i ==> is_hex_digit(#[trigger] s@[k]),
        decreases to - i,
    {
        if hex_digit_value(s[i]).is_none() {
            return false;
        }
        i += 1;
    }
    true
}

/// Appends `bytes` to `out`.
fn push_bytes(out: &mut Vec<u8>, bytes: &[u8])
    ensures
        final(out)@ == old(out)@ + bytes@,
{
    let ghost start = out@;
    let mut i: usize = 0;
    while i < bytes.len()
        invariant
            0 <= i <= bytes@.len(),
            out@ == start + bytes@.take(i as int),
        decreases bytes@.len() - i,
    {
        out.push(bytes[i]);
        proof {
            assert(bytes@.take(i + 1) =~= bytes@.take(i as int).push(bytes@[i as int]));
        }
        i += 1;
    }
    proof {
        assert(bytes@.take(bytes@.len() as int) =~= bytes@);
    }
}

/// A copy of `s[from..to]`.
fn copy_range(s: &[u8], from: usize, to: usize) -> (r: Vec<u8>)
    requires
        from <= to <= s@.len(),
    ensures
        r@ == s@.subrange(from as int, to as int),
{
    vstd::slice::slice_to_vec(vstd::slice::slice_subrange(s, from, to))
}

proof fn lemma_pow16_mono(a: nat, b: nat)
    requires
        a <= b,
    ensures
        pow16(a) <= pow16(b),
    decreases b,
{
    if a < b {
        lemma_pow16_mono(a, (b - 1) as nat);
    }
}

/// The number that the sixteen hex digits at `start` stand for.
fn hex_u64(l: &[u8], start: usize) -> (r: u64)
    requires
        start + 16 <= l@.len(),
        forall|i: int| start <= i < start + 16 ==> is_hex_digit(#[trigger] l@[i]),
    ensures
        r as nat == hex_number(l@.subrange(start as int, start + 16)),
{
    let len = l.len();
    let mut acc: u64 = 0;
    let mut i: usize = 0;
    proof {
        reveal_with_fuel(pow16, 17);
        assert(pow16(16) == 0x1_0000_0000_0000_0000);
        assert(l@.subrange(start as int, start as int) =~= Seq::<u8>::empty());
    }
    while i < 16
        invariant
            0 <= i <= 16,
            len == l@.len(),
            start + 16 <= len,
            forall|k: int| start <= k < start + 16 ==> is_hex_digit(#[trigger] l@[k]),
            acc as nat == hex_number(l@.subrange(start as int, start + i)),
            pow16(16) == 0x1_0000_0000_0000_0000,
        decreases 16 - i,
    {
        let d = match hex_digit_value(l[start + i]) {
            Some(v) => v,
            None => 0,
        };
        proof {
            let next = l@.subrange(start as int, start + i + 1);
            assert(next.drop_last() =~= l@.subrange(start as int, start + i));
            assert forall|k: int| 0 <= k < next.len() implies is_hex_digit(#[trigger] next[k]) by {
                assert(next[k] == l@[start + k]);
            }
            lemma_hex_number_bound(next);
            lemma_pow16_mono((i + 1) as nat, 16);
        }
        acc = acc * 16 + d as u64;
        i += 1;
    }
    acc
}

/// The mechanism names of `l` from `start` on, each after one space.
fn parse_mechanisms(l: &[u8], start: usize) -> (r: Option<Vec<Vec<u8>>>)
    requires
        start <= l@.len(),
    ensures
        match (r, mechanisms_from(l@, start as int, seq![])) {
            (Some(v), Some(ms)) => names_view(v@) == ms,
            (None, None) => true,
            _ => false,
        },
{
    let mut names: Vec<Vec<u8>> = Vec::new();
    let mut i = start;
    proof {
        assert(names_view(names@) =~= seq![]);
    }
    while i < l.len()
        invariant
            start <= i <= l@.len(),
            mechanisms_from(l@, start as int, seq![]) == mechanisms_from(
                l@,
                i as int,
                names_view(names@),
            ),
        decreases l@.len() - i,
    {
        if l[i] != 32 {
            return None;
        }
        let e = scan_name(l, i + 1, true);
        if e == i + 1 {
            return None;
        }
        let name = copy_range(l, i + 1, e);
        let ghost before = names@;
        names.push(name);
        proof {
            assert(names_view(names@) =~= names_view(before).push(l@.subrange(i + 1, e as int)));
        }
        i = e;
    }
    Some(names)
}

/// A command name, alone or with one payload name after a space.
fn parse_raw(l: &[u8]) -> (r: Option<ServerCommand>)
    ensures
        match (r, raw_reply(l@)) {
            (Some(c), Some(m)) => c@ == m,
            (None, None) => true,
            _ => false,
        },
{
    let c = scan_name(l, 0, false);
    if c == 0 {
        return None;
    }
    if c == l.len() {
        proof {
            assert(l@.subrange(0, c as int) =~= l@);
        }
        return Some(ServerCommand::Raw { cmd: copy_range(l, 0, c), payload: None });
    }
    if l[c] == 32 && c + 1 < l.len() {
        let e = scan_name(l, c + 1, false);
        if e == l.len() {
            let cmd = copy_range(l, 0, c);
            let payload = copy_range(l, c + 1, l.len());
            return Some(ServerCommand::Raw { cmd, payload: Some(payload) });
        }
    }
    None
}

/// What one line, without its CRLF, says.
fn parse_line(l: &[u8]) -> (r: Option<ServerCommand>)
    ensures
        match (r, line_reply(l@)) {
            (Some(c), Some(m)) => c@ == m,
            (None, None) => true,
            _ => false,
        },
{
    if l.len() > 5 && has_prefix(l, &[68u8, 65, 84, 65, 32]) {
        let payload = vstd::slice::slice_subrange(l, 5, l.len());
        match hex_decode(payload) {
            Ok(bytes) => {
                return Some(ServerCommand::Data(bytes));
            },
            Err(_) => {},
        }
    }
    proof {
        if l@.len() == 5 {
            assert(l@.take(5) =~= l@);
        }
    }
    if l.len() == 5 && has_prefix(l, &[69u8, 82, 82, 79, 82]) {
        return Some(ServerCommand::Error);
    }
    if l.len() == 35 && has_prefix(l, &[79u8, 75, 32]) && all_hex_digits(l, 3, 35) {
        let high = hex_u64(l, 3);
        let low = hex_u64(l, 19);
        return Some(ServerCommand::Okay { server_guid: [high, low] });
    }
    if l.len() >= 8 && has_prefix(l, &[82u8, 69, 74, 69, 67, 84, 69, 68]) {
        match parse_mechanisms(l, 8) {
            Some(names) => {
                return Some(ServerCommand::Rejected { supported_mechanisms: names });
            },
            None => {},
        }
    }
    parse_raw(l)
}

proof fn lemma_first_crlf(b: Seq<u8>, i: int)
    requires
        0 <= i,
    ensures
        match first_crlf_from(b, i) {
            Some(j) => i <= j && crlf_at(b, j) && forall|k: int| i <= k < j ==> !crlf_at(b, k),
            None => forall|k: int| i <= k ==> !crlf_at(b, k),
        },
    decreases b.len() - i,
{
    if i + 1 < b.len() && !crlf_at(b, i) {
        lemma_first_crlf(b, i + 1);
    }
}

/// The position of the first CRLF in `b`.
fn find_crlf(b: &[u8]) -> (r: Option<usize>)
    ensures
        match (r, first_crlf_from(b@, 0)) {
            (Some(i), Some(j)) => i == j,
            (None, None) => true,
            _ => false,
        },
{
    let mut i: usize = 0;
    while b.len() - i >= 2
        invariant
            0 <= i <= b@.len(),
            first_crlf_from(b@, 0) == first_crlf_from(b@, i as int),
        decreases b@.len() - i,
    {
        if b[i] == 13 && b[i + 1] == 10 {
            return Some(i);
        }
        i += 1;
    }
    None
}

/// Decodes the first line of `input`: `Ok(None)` while no CRLF has arrived, the
/// command and what follows its CRLF for a line of the protocol, and an error for a
/// complete line that is none.
pub fn decode_server_cmd(input: &[u8]) -> (r: Result<Option<(ServerCommand, &[u8])>, ProtocolError>)
    ensures
        match (r, decode_frame(input@)) {
            (Ok(None), Decoded::NeedMore) => true,
            (Ok(Some((cmd, rest))), Decoded::Frame(m, n)) => cmd@ == m && rest@ == input@.skip(n),
            (Err(_), Decoded::Malformed) => true,
            _ => false,
        },
{
    let n = input.len();
    proof {
        lemma_first_crlf(input@, 0);
    }
    match find_crlf(input) {
        None => Ok(None),
        Some(i) => {
            let line = vstd::slice::slice_subrange(input, 0, i);
            match parse_line(line) {
                Some(cmd) => Ok(Some((cmd, vstd::slice::slice_subrange(input, i + 2, n)))),
                None => Err(ProtocolError),
            }
        },
    }
}

/// The bytes of a command field.
fn cow_bytes<'a>(c: &'a Cow<'static, [u8]>) -> (r: &'a [u8])
    ensures
        r@ == c@,
{
    match c {
        Cow::Borrowed(b) => *b,
        Cow::Owned(o) => o.as_slice(),
    }
}

/// Appends the line that `cmd` is sent as to `output`.
pub fn encode_client_cmd(cmd: &ClientCommand, output: &mut Vec<u8>)
    ensures
        final(output)@ == old(output)@ + client_cmd_bytes(*cmd),
{
    match cmd {
        ClientCommand::Auth { mechanism, initial_response } => {
            push_bytes(output, &[65u8, 85, 84, 72, 32]);
            push_bytes(output, cow_bytes(mechanism));
            match initial_response {
                None => {},
                Some(response) => {
                    output.push(32);
                    extend_from_hex_encoded(output, cow_bytes(response));
                },
            }
            push_bytes(output, &[13u8, 10]);
        },
        ClientCommand::Begin => {
            push_bytes(output, &[66u8, 69, 71, 73, 78, 13, 10]);
        },
        ClientCommand::Cancel => {
            push_bytes(output, &[67u8, 65, 78, 67, 69, 76, 13, 10]);
        },
        ClientCommand::Data(bytes) => {
            push_bytes(output, &[68u8, 65, 84, 65, 32]);
            extend_from_hex_encoded(output, cow_bytes(bytes));
            push_bytes(output, &[13u8, 10]);
        },
        ClientCommand::Error(message) => {
            push_bytes(output, &[69u8, 82, 82, 79, 82]);
            match message {
                None => {},
                Some(message) => {
                    output.push(32);
                    push_bytes(output, cow_bytes(message));
                },
            }
            push_bytes(output, &[13u8, 10]);
        },
        ClientCommand::Raw { cmd, payload } => {
            let name = cow_bytes(cmd);
            push_bytes(output, name);
            match payload {
                None => {
                    let n = name.len();
                    if !(n >= 2 && name[n - 2] == 13 && name[n - 1] == 10) {
                        push_bytes(output, &[13u8, 10]);
                    }
                },
                Some(payload) => {
                    output.push(32);
                    push_bytes(output, cow_bytes(payload));
                    push_bytes(output, &[13u8, 10]);
                },
            }
        },
    }
    assert(output@ =~= old(output)@ + client_cmd_bytes(*cmd));
}

/// The codec of the handshake: server lines in, client lines out.
pub struct AuthCodec;

impl AuthCodec {
    /// Takes the first complete line off the front of `buf` and decodes it. While no
    /// CRLF has arrived, or when the complete line is malformed, `buf` is left as it is.
    pub fn decode(&mut self, buf: &mut Vec<u8>) -> (r: Result<Option<ServerCommand>, ProtocolError>)
        ensures
            match (r, decode_frame(old(buf)@)) {
                (Ok(None), Decoded::NeedMore) => final(buf)@ == old(buf)@,
                (Ok(Some(cmd)), Decoded::Frame(m, n)) => cmd@ == m && final(buf)@ == old(buf)@.skip(n),
                (Err(_), Decoded::Malformed) => final(buf)@ == old(buf)@,
                _ => false,
            },
    {
        proof {
            lemma_first_crlf(buf@, 0);
        }
        let (cmd, consumed) = match decode_server_cmd(buf.as_slice()) {
            Ok(Some((cmd, rest))) => (cmd, buf.len() - rest.len()),
            Ok(None) => {
                return Ok(None);
            },
            Err(e) => {
                return Err(e);
            },
        };
        let tail = buf.split_off(consumed);
        *buf = tail;
        Ok(Some(cmd))
    }

    /// Appends the line that `cmd` is sent as to `buf`.
    pub fn encode(&mut self, cmd: ClientCommand, buf: &mut Vec<u8>)
        ensures
            final(buf)@ == old(buf)@ + client_cmd_bytes(cmd),
    {
        encode_client_cmd(&cmd, buf);
    }
}

proof fn lemma_first_crlf_is(b: Seq<u8>, j: int)
    requires
        crlf_at(b, j),
        forall|k: int| 0 <= k < j ==> !crlf_at(b, k),
    ensures
        first_crlf_from(b, 0) == Some(j),
{
    lemma_first_crlf(b, 0);
}

/// A buffer that holds no CRLF asks for more data; it never decodes to an error.
pub proof fn lemma_decode_without_crlf(b: Seq<u8>)
    requires
        forall|i: int| !crlf_at(b, i),
    ensures
        decode_frame(b) is NeedMore,
{
    lemma_first_crlf(b, 0);
}

/// Bytes that arrive after a complete line change nothing about how it decodes: a
/// buffer that decodes to a command, or to an error, decodes the same once more bytes
/// are appended.
pub proof fn lemma_decode_extend(b: Seq<u8>, x: Seq<u8>)
    requires
        !(decode_frame(b) is NeedMore),
    ensures
        decode_frame(b + x) == decode_frame(b),
{
    lemma_first_crlf(b, 0);
    let j = first_crlf_from(b, 0)->0;
    let b2 = b + x;
    assert forall|k: int| 0 <= k < j implies !crlf_at(b2, k) by {
        assert(!crlf_at(b, k));
        assert(b2[k] == b[k] && b2[k + 1] == b[k + 1]);
    }
    assert(b2[j] == b[j] && b2[j + 1] == b[j + 1]);
    lemma_first_crlf_is(b2, j);
    assert(b2.take(j) =~= b.take(j));
}

/// Feeding a buffer one byte at a time gives what feeding it whole gives: every
/// prefix shorter than its first frame asks for more data, and every prefix that
/// holds the frame decodes to the same command and the same length.
pub proof fn lemma_decode_incremental(b: Seq<u8>, k: int)
    requires
        0 <= k <= b.len(),
    ensures
        match decode_frame(b) {
            Decoded::Frame(_, n) => if k < n {
                decode_frame(b.take(k)) is NeedMore
            } else {
                decode_frame(b.take(k)) == decode_frame(b)
            },
            _ => true,
        },
{
    lemma_first_crlf(b, 0);
    if let Decoded::Frame(_, n) = decode_frame(b) {
        let j = first_crlf_from(b, 0)->0;
        let p = b.take(k);
        if k < n {
            assert forall|m: int| !crlf_at(p, m) by {
                if crlf_at(p, m) {
                    assert(p[m] == b[m] && p[m + 1] == b[m + 1]);
                    assert(crlf_at(b, m));
                }
            }
            lemma_decode_without_crlf(p);
        } else {
            assert forall|m: int| 0 <= m < j implies !crlf_at(p, m) by {
                assert(!crlf_at(b, m));
                assert(p[m] == b[m] && p[m + 1] == b[m + 1]);
            }
            assert(p[j] == b[j] && p[j + 1] == b[j + 1]);
            lemma_first_crlf_is(p, j);
            assert(p.take(j) =~= b.take(j));
        }
    }
}

} // verus!
