use vstd::prelude::*;

verus! {

/// The thirteen basic types, each written as one character.
#[derive(Clone, Copy, Debug, PartialEq, Eq, Structural)]
pub enum BasicType {
    Byte,
    Bool,
    Int16,
    UInt16,
    Int32,
    UInt32,
    Int64,
    UInt64,
    Double,
    String,
    ObjectPath,
    Signature,
    UnixFd,
}

/// One complete type of a signature.
#[derive(Debug, PartialEq, Eq)]
pub enum Type {
    BasicType(BasicType),
    ContainerType(Box<ContainerType>),
}

#[derive(Debug, PartialEq, Eq)]
pub enum ContainerType {
    Array(Type),
    Dict(BasicType, Type),
    Struct(Vec<Type>),
    Variant,
}

/// The types that a message body holds, in order.
pub type Signature = Vec<Type>;

/// Why a byte string is not a signature; the reason is not told apart.
#[derive(Clone, Copy, Debug, PartialEq, Eq, Structural)]
pub struct InvalidSignature;

/// The mathematical form of a type, which `Type` is a view of.
pub enum SigType {
    Basic(BasicType),
    Array(Box<SigType>),
    Dict(BasicType, Box<SigType>),
    Struct(Seq<SigType>),
    Variant,
}

pub open spec fn type_model(t: Type) -> SigType
    decreases t,
{
    match t {
        Type::BasicType(b) => SigType::Basic(b),
        Type::ContainerType(c) => container_model(*c),
    }
}

pub open spec fn container_model(c: ContainerType) -> SigType
    decreases c,
{
    match c {
        ContainerType::Array(t) => SigType::Array(Box::new(type_model(t))),
        ContainerType::Dict(k, v) => SigType::Dict(k, Box::new(type_model(v))),
        ContainerType::Struct(ts) => SigType::Struct(types_model(ts@)),
        ContainerType::Variant => SigType::Variant,
    }
}

pub open spec fn types_model(ts: Seq<Type>) -> Seq<SigType>
    decreases ts,
{
    if ts.len() == 0 {
        Seq::empty()
    } else {
        seq![type_model(ts[0])] + types_model(ts.subrange(1, ts.len() as int))
    }
}

impl View for Type {
    type V = SigType;

    open spec fn view(&self) -> SigType {
        type_model(*self)
    }
}

/// The character that stands for a basic type.
pub open spec fn basic_code(b: BasicType) -> u8 {
    match b {
        BasicType::Byte => 121,  // y
        BasicType::Bool => 98,  // b
        BasicType::Int16 => 110,  // n
        BasicType::UInt16 => 113,  // q
        BasicType::Int32 => 105,  // i
        BasicType::UInt32 => 117,  // u
        BasicType::Int64 => 120,  // x
        BasicType::UInt64 => 116,  // t
        BasicType::Double => 100,  // d
        BasicType::String => 115,  // s
        BasicType::ObjectPath => 111,  // o
        BasicType::Signature => 103,  // g
        BasicType::UnixFd => 104,  // h
    }
}

/// The basic type that a character stands for, if any.
pub open spec fn basic_of_code(c: u8) -> Option<BasicType> {
    if c == 121 {
        Some(BasicType::Byte)
    } else if c == 98 {
        Some(BasicType::Bool)
    } else if c == 110 {
        Some(BasicType::Int16)
    } else if c == 113 {
        Some(BasicType::UInt16)
    } else if c == 105 {
        Some(BasicType::Int32)
    } else if c == 117 {
        Some(BasicType::UInt32)
    } else if c == 120 {
        Some(BasicType::Int64)
    } else if c == 116 {
        Some(BasicType::UInt64)
    } else if c == 100 {
        Some(BasicType::Double)
    } else if c == 115 {
        Some(BasicType::String)
    } else if c == 111 {
        Some(BasicType::ObjectPath)
    } else if c == 103 {
        Some(BasicType::Signature)
    } else if c == 104 {
        Some(BasicType::UnixFd)
    } else {
        None
    }
}

/// The text of a type: `a` before an array's element, `a{`, key, value and `}` for a
/// dictionary, the members between `(` and `)` for a struct, `v` for a variant.
pub open spec fn sig_encoding(t: SigType) -> Seq<u8>
    decreases t,
{
    match t {
        SigType::Basic(b) => seq![basic_code(b)],
        SigType::Array(e) => seq![97u8] + sig_encoding(*e),
        SigType::Dict(k, v) => seq![97u8, 123u8, basic_code(k)] + sig_encoding(*v) + seq![125u8],
        SigType::Struct(ts) => seq![40u8] + sigs_encoding(ts) + seq![41u8],
        SigType::Variant => seq![118u8],
    }
}

/// The texts of several types, one after the other.
pub open spec fn sigs_encoding(ts: Seq<SigType>) -> Seq<u8>
    decreases ts,
{
    if ts.len() == 0 {
        Seq::empty()
    } else {
        sig_encoding(ts[0]) + sigs_encoding(ts.subrange(1, ts.len() as int))
    }
}

/// Every struct, at any depth, has at least one member.
pub open spec fn sig_wf(t: SigType) -> bool
    decreases t,
{
    match t {
        SigType::Basic(_) => true,
        SigType::Array(e) => sig_wf(*e),
        SigType::Dict(_, v) => sig_wf(*v),
        SigType::Struct(ts) => ts.len() > 0 && sigs_wf(ts),
        SigType::Variant => true,
    }
}

pub open spec fn sigs_wf(ts: Seq<SigType>) -> bool
    decreases ts,
{
    ts.len() == 0 || (sig_wf(ts[0]) && sigs_wf(ts.subrange(1, ts.len() as int)))
}

/// A signature: at least one type, each well formed.
pub open spec fn signature_wf(ts: Seq<SigType>) -> bool {
    ts.len() > 0 && sigs_wf(ts)
}

/// The type that a text starts with, and its length, read by the grammar of types.
pub open spec fn parsed_type(s: Seq<u8>) -> Option<(SigType, int)>
    decreases s.len(), 0int,
{
    if s.len() == 0 {
        None
    } else if basic_of_code(s[0]) is Some {
        Some((SigType::Basic(basic_of_code(s[0])->0), 1))
    } else if s[0] == 118 {
        Some((SigType::Variant, 1))
    } else if s[0] == 97 {
        if s.len() >= 2 && s[1] == 123 {
            if s.len() >= 3 && basic_of_code(s[2]) is Some {
                match parsed_type(s.subrange(3, s.len() as int)) {
                    Some((v, n)) => if 3 + n < s.len() && s[3 + n] == 125 {
                        Some((SigType::Dict(basic_of_code(s[2])->0, Box::new(v)), n + 4))
                    } else {
                        None
                    },
                    None => None,
                }
            } else {
                None
            }
        } else {
            match parsed_type(s.subrange(1, s.len() as int)) {
                Some((e, n)) => Some((SigType::Array(Box::new(e)), n + 1)),
                None => None,
            }
        }
    } else if s[0] == 40 {
        match parsed_members(s.subrange(1, s.len() as int)) {
            Some((ts, n)) => if ts.len() > 0 {
                Some((SigType::Struct(ts), n + 1))
            } else {
                None
            },
            None => None,
        }
    } else {
        None
    }
}

/// The members of a struct up to and with its closing `)`, and the length they take.
pub open spec fn parsed_members(s: Seq<u8>) -> Option<(Seq<SigType>, int)>
    decreases s.len(), 1int,
{
    if s.len() == 0 {
        None
    } else if s[0] == 41 {
        Some((Seq::empty(), 1))
    } else {
        match parsed_type(s) {
            Some((t, n)) => if 0 < n <= s.len() {
                match parsed_members(s.subrange(n, s.len() as int)) {
                    Some((ts, m)) => Some((seq![t] + ts, n + m)),
                    None => None,
                }
            } else {
                None
            },
            None => None,
        }
    }
}

/// As many types as can be read from the start of a text, and the length they take.
pub open spec fn parsed_types(s: Seq<u8>) -> (Seq<SigType>, int)
    decreases s.len(),
{
    match parsed_type(s) {
        Some((t, n)) => if 0 < n <= s.len() {
            let (ts, m) = parsed_types(s.subrange(n, s.len() as int));
            (seq![t] + ts, n + m)
        } else {
            (Seq::empty(), 0)
        },
        None => (Seq::empty(), 0),
    }
}

/// The signature that a whole text is, if it is one.
pub open spec fn decoded_signature(s: Seq<u8>) -> Option<Seq<SigType>> {
    let (ts, n) = parsed_types(s);
    if ts.len() > 0 && n == s.len() {
        Some(ts)
    } else {
        None
    }
}

proof fn lemma_basic_code(b: BasicType)
    ensures
        basic_of_code(basic_code(b)) == Some(b),
{
}

proof fn lemma_basic_of_code(c: u8)
    ensures
        basic_of_code(c) is Some ==> basic_code(basic_of_code(c)->0) == c,
{
}

/// The first character of a type's text opens it: it never closes a struct or a
/// dictionary, nor opens a dictionary's body.
proof fn lemma_encoding_head(t: SigType)
    ensures
        sig_encoding(t).len() > 0,
        sig_encoding(t)[0] != 41,
        sig_encoding(t)[0] != 123,
        sig_encoding(t)[0] != 125,
{
    match t {
        SigType::Basic(b) => {},
        SigType::Array(e) => {},
        SigType::Dict(k, v) => {},
        SigType::Struct(ts) => {},
        SigType::Variant => {},
    }
}

proof fn lemma_sigs_encoding_cons(t: SigType, ts: Seq<SigType>)
    ensures
        sigs_encoding(seq![t] + ts) == sig_encoding(t) + sigs_encoding(ts),
        sigs_wf(seq![t] + ts) == (sig_wf(t) && sigs_wf(ts)),
{
    let all = seq![t] + ts;
    assert(all[0] == t);
    assert(all.subrange(1, all.len() as int) =~= ts);
}

/// What the grammar reads is the text of a well-formed type.
proof fn lemma_parsed_type_sound(s: Seq<u8>)
    ensures
        match parsed_type(s) {
            Some((t, n)) => 0 < n <= s.len() && s.subrange(0, n) == sig_encoding(t) && sig_wf(t),
            None => true,
        },
    decreases s.len(), 0int,
{
    if s.len() == 0 {
    } else if basic_of_code(s[0]) is Some {
        lemma_basic_of_code(s[0]);
        assert(s.subrange(0, 1) =~= seq![s[0]]);
    } else if s[0] == 118 {
        assert(s.subrange(0, 1) =~= seq![s[0]]);
    } else if s[0] == 97 {
        if s.len() >= 2 && s[1] == 123 {
            if s.len() >= 3 && basic_of_code(s[2]) is Some {
                let s3 = s.subrange(3, s.len() as int);
                lemma_parsed_type_sound(s3);
                lemma_basic_of_code(s[2]);
                if let Some((v, n)) = parsed_type(s3) {
                    if 3 + n < s.len() && s[3 + n] == 125 {
                        let k = basic_of_code(s[2])->0;
                        assert(s.subrange(0, n + 4) =~= seq![97u8, 123u8, basic_code(k)]
                            + s3.subrange(0, n) + seq![125u8]);
                    }
                }
            }
        } else {
            let s1 = s.subrange(1, s.len() as int);
            lemma_parsed_type_sound(s1);
            if let Some((e, n)) = parsed_type(s1) {
                assert(s.subrange(0, n + 1) =~= seq![97u8] + s1.subrange(0, n));
            }
        }
    } else if s[0] == 40 {
        let s1 = s.subrange(1, s.len() as int);
        lemma_parsed_members_sound(s1);
        if let Some((ts, n)) = parsed_members(s1) {
            if ts.len() > 0 {
                assert(s.subrange(0, n + 1) =~= seq![40u8] + s1.subrange(0, n));
            }
        }
    }
}

/// What the grammar reads as struct members is their text and the closing `)`.
proof fn lemma_parsed_members_sound(s: Seq<u8>)
    ensures
        match parsed_members(s) {
            Some((ts, n)) => 0 < n <= s.len() && s.subrange(0, n) == sigs_encoding(ts) + seq![
                41u8,
            ] && sigs_wf(ts),
            None => true,
        },
    decreases s.len(), 1int,
{
    if s.len() == 0 {
    } else if s[0] == 41 {
        assert(s.subrange(0, 1) =~= Seq::<u8>::empty() + seq![41u8]);
    } else {
        lemma_parsed_type_sound(s);
        if let Some((t, n)) = parsed_type(s) {
            if 0 < n <= s.len() {
                let s1 = s.subrange(n, s.len() as int);
                lemma_parsed_members_sound(s1);
                if let Some((ts, m)) = parsed_members(s1) {
                    lemma_sigs_encoding_cons(t, ts);
                    assert(s.subrange(0, n + m) =~= s.subrange(0, n) + s1.subrange(0, m));
                }
            }
        }
    }
}

/// The types read from the start of a text are its prefix of the length read.
proof fn lemma_parsed_types_sound(s: Seq<u8>)
    ensures
        0 <= parsed_types(s).1 <= s.len(),
        s.subrange(0, parsed_types(s).1) == sigs_encoding(parsed_types(s).0),
        sigs_wf(parsed_types(s).0),
    decreases s.len(),
{
    lemma_parsed_type_sound(s);
    if let Some((t, n)) = parsed_type(s) {
        if 0 < n <= s.len() {
            let s1 = s.subrange(n, s.len() as int);
            lemma_parsed_types_sound(s1);
            let (ts, m) = parsed_types(s1);
            lemma_sigs_encoding_cons(t, ts);
            assert(s.subrange(0, n + m) =~= s.subrange(0, n) + s1.subrange(0, m));
        } else {
            assert(s.subrange(0, 0) =~= Seq::<u8>::empty());
        }
    } else {
        assert(s.subrange(0, 0) =~= Seq::<u8>::empty());
    }
}

/// The grammar reads a well-formed type back from its text, whatever follows it.
proof fn lemma_parsed_type_complete(t: SigType, rest: Seq<u8>)
    requires
        sig_wf(t),
    ensures
        parsed_type(sig_encoding(t) + rest) == Some((t, sig_encoding(t).len() as int)),
    decreases t,
{
    let s = sig_encoding(t) + rest;
    match t {
        SigType::Basic(b) => {
            lemma_basic_code(b);
        },
        SigType::Array(e) => {
            lemma_encoding_head(*e);
            assert(s[1] == sig_encoding(*e)[0]);
            assert(s.subrange(1, s.len() as int) =~= sig_encoding(*e) + rest);
            lemma_parsed_type_complete(*e, rest);
        },
        SigType::Dict(k, v) => {
            lemma_basic_code(k);
            let tail = seq![125u8] + rest;
            assert(s.subrange(3, s.len() as int) =~= sig_encoding(*v) + tail);
            lemma_parsed_type_complete(*v, tail);
            assert(s[3 + sig_encoding(*v).len() as int] == 125);
        },
        SigType::Struct(ts) => {
            assert(s.subrange(1, s.len() as int) =~= sigs_encoding(ts) + seq![41u8] + rest);
            lemma_parsed_members_complete(ts, rest);
        },
        SigType::Variant => {},
    }
}

/// The grammar reads well-formed struct members back from their text and the `)`.
proof fn lemma_parsed_members_complete(ts: Seq<SigType>, rest: Seq<u8>)
    requires
        sigs_wf(ts),
    ensures
        parsed_members(sigs_encoding(ts) + seq![41u8] + rest) == Some(
            (ts, sigs_encoding(ts).len() + 1int),
        ),
    decreases ts,
{
    let s = sigs_encoding(ts) + seq![41u8] + rest;
    if ts.len() == 0 {
        assert(s[0] == 41);
        assert(ts =~= Seq::<SigType>::empty());
    } else {
        let t = ts[0];
        let tail = ts.subrange(1, ts.len() as int);
        let after = sigs_encoding(tail) + seq![41u8] + rest;
        lemma_encoding_head(t);
        assert(s =~= sig_encoding(t) + after);
        lemma_parsed_type_complete(t, after);
        let n = sig_encoding(t).len() as int;
        assert(s.subrange(n, s.len() as int) =~= after);
        lemma_parsed_members_complete(tail, rest);
        assert(seq![t] + tail =~= ts);
    }
}

/// The grammar reads well-formed types back from their text, up to a point where no
/// further type starts.
proof fn lemma_parsed_types_complete(ts: Seq<SigType>, rest: Seq<u8>)
    requires
        sigs_wf(ts),
        parsed_type(rest) is None,
    ensures
        parsed_types(sigs_encoding(ts) + rest) == (ts, sigs_encoding(ts).len() as int),
    decreases ts.len(),
{
    let s = sigs_encoding(ts) + rest;
    if ts.len() == 0 {
        assert(s =~= rest);
        assert(ts =~= Seq::<SigType>::empty());
    } else {
        let t = ts[0];
        let tail = ts.subrange(1, ts.len() as int);
        let after = sigs_encoding(tail) + rest;
        assert(s =~= sig_encoding(t) + after);
        lemma_parsed_type_complete(t, after);
        lemma_encoding_head(t);
        let n = sig_encoding(t).len() as int;
        assert(s.subrange(n, s.len() as int) =~= after);
        lemma_parsed_types_complete(tail, rest);
        assert(seq![t] + tail =~= ts);
    }
}

/// Canonical form: a text that decodes as a signature is exactly the encoding of the
/// signature it decodes to, which is well formed.
pub proof fn lemma_signature_canonical(s: Seq<u8>)
    requires
        decoded_signature(s) is Some,
    ensures
        signature_wf(decoded_signature(s)->0),
        sigs_encoding(decoded_signature(s)->0) == s,
{
    lemma_parsed_types_sound(s);
    assert(s.subrange(0, s.len() as int) =~= s);
}

/// Round trip: every well-formed signature decodes from its encoding to itself.
pub proof fn lemma_signature_round_trip(ts: Seq<SigType>)
    requires
        signature_wf(ts),
    ensures
        decoded_signature(sigs_encoding(ts)) == Some(ts),
{
    lemma_parsed_types_complete(ts, Seq::empty());
    assert(sigs_encoding(ts) + Seq::<u8>::empty() =~= sigs_encoding(ts));
}

/// A text decodes as a signature exactly when it is the encoding of a well-formed one.
pub proof fn lemma_signature_text(s: Seq<u8>)
    ensures
        decoded_signature(s) is Some <==> exists|ts: Seq<SigType>|
            signature_wf(ts) && #[trigger] sigs_encoding(ts) == s,
{
    if decoded_signature(s) is Some {
        lemma_signature_canonical(s);
    }
    if exists|ts: Seq<SigType>| signature_wf(ts) && #[trigger] sigs_encoding(ts) == s {
        let ts = choose|ts: Seq<SigType>| signature_wf(ts) && #[trigger] sigs_encoding(ts) == s;
        lemma_signature_round_trip(ts);
    }
}

/// How a result of `parse_type` stands to what the grammar reads from `pos` on.
pub open spec fn type_parse_agrees(r: Option<(Type, usize)>, m: Option<(SigType, int)>, pos: int) -> bool {
    match (r, m) {
        (Some((t, end)), Some((mt, n))) => t@ == mt && end == pos + n,
        (None, None) => true,
        _ => false,
    }
}

fn basic_type_of(c: u8) -> (r: Option<BasicType>)
    ensures
        r == basic_of_code(c),
{
    if c == 121 {
        Some(BasicType::Byte)
    } else if c == 98 {
        Some(BasicType::Bool)
    } else if c == 110 {
        Some(BasicType::Int16)
    } else if c == 113 {
        Some(BasicType::UInt16)
    } else if c == 105 {
        Some(BasicType::Int32)
    } else if c == 117 {
        Some(BasicType::UInt32)
    } else if c == 120 {
        Some(BasicType::Int64)
    } else if c == 116 {
        Some(BasicType::UInt64)
    } else if c == 100 {
        Some(BasicType::Double)
    } else if c == 115 {
        Some(BasicType::String)
    } else if c == 111 {
        Some(BasicType::ObjectPath)
    } else if c == 103 {
        Some(BasicType::Signature)
    } else if c == 104 {
        Some(BasicType::UnixFd)
    } else {
        None
    }
}

/// Reads one type that starts at `pos`, and returns it with the position after it.
pub fn parse_type(input: &[u8], pos: usize) -> (r: Option<(Type, usize)>)
    requires
        pos <= input@.len(),
    ensures
        type_parse_agrees(r, parsed_type(input@.subrange(pos as int, input@.len() as int)), pos as int),
    decreases input@.len() - pos, 0int,
{
    let ghost s = input@.subrange(pos as int, input@.len() as int);
    if pos >= input.len() {
        return None;
    }
    let c = input[pos];
    match basic_type_of(c) {
        Some(b) => {
            return Some((Type::BasicType(b), pos + 1));
        },
        None => {},
    }
    if c == 118 {
        return Some((Type::ContainerType(Box::new(ContainerType::Variant)), pos + 1));
    }
    if c == 97 {
        if pos + 1 < input.len() && input[pos + 1] == 123 {
            if pos + 2 >= input.len() {
                return None;
            }
            let key = match basic_type_of(input[pos + 2]) {
                Some(k) => k,
                None => {
                    return None;
                },
            };
            proof {
                assert(s.subrange(3, s.len() as int) =~= input@.subrange(pos + 3, input@.len() as int));
                lemma_parsed_type_sound(s.subrange(3, s.len() as int));
            }
            match parse_type(input, pos + 3) {
                Some((value, end)) => {
                    proof {
                        if end < input@.len() {
                            assert(s[end - pos] == input@[end as int]);
                        }
                    }
                    if end < input.len() && input[end] == 125 {
                        return Some(
                            (Type::ContainerType(Box::new(ContainerType::Dict(key, value))), end + 1),
                        );
                    }
                    return None;
                },
                None => {
                    return None;
                },
            }
        } else {
            proof {
                assert(s.subrange(1, s.len() as int) =~= input@.subrange(pos + 1, input@.len() as int));
            }
            match parse_type(input, pos + 1) {
                Some((elem, end)) => {
                    return Some((Type::ContainerType(Box::new(ContainerType::Array(elem))), end));
                },
                None => {
                    return None;
                },
            }
        }
    }
    if c == 40 {
        proof {
            assert(s.subrange(1, s.len() as int) =~= input@.subrange(pos + 1, input@.len() as int));
        }
        match parse_struct_members(input, pos + 1) {
            Some((members, end)) => {
                if members.len() > 0 {
                    return Some((Type::ContainerType(Box::new(ContainerType::Struct(members))), end));
                }
                return None;
            },
            None => {
                return None;
            },
        }
    }
    None
}

proof fn lemma_types_model_cons(t: Type, ts: Seq<Type>)
    ensures
        types_model(seq![t] + ts) == seq![t@] + types_model(ts),
{
    let all = seq![t] + ts;
    assert(all[0] == t);
    assert(all.subrange(1, all.len() as int) =~= ts);
}

/// Reads struct members from `pos` up to and with the closing `)`.
fn parse_struct_members(input: &[u8], pos: usize) -> (r: Option<(Vec<Type>, usize)>)
    requires
        pos <= input@.len(),
    ensures
        match (r, parsed_members(input@.subrange(pos as int, input@.len() as int))) {
            (Some((v, end)), Some((ts, n))) => types_model(v@) == ts && end == pos + n,
            (None, None) => true,
            _ => false,
        },
    decreases input@.len() - pos, 1int,
{
    let ghost s = input@.subrange(pos as int, input@.len() as int);
    if pos >= input.len() {
        return None;
    }
    if input[pos] == 41 {
        return Some((Vec::new(), pos + 1));
    }
    proof {
        lemma_parsed_type_sound(s);
    }
    let (first, mid) = match parse_type(input, pos) {
        Some(x) => x,
        None => {
            return None;
        },
    };
    proof {
        assert(s.subrange(mid - pos, s.len() as int) =~= input@.subrange(
            mid as int,
            input@.len() as int,
        ));
    }
    let (mut members, end) = match parse_struct_members(input, mid) {
        Some(x) => x,
        None => {
            return None;
        },
    };
    let ghost tail = members@;
    members.insert(0, first);
    proof {
        assert(members@ =~= seq![first] + tail);
        lemma_types_model_cons(first, tail);
    }
    Some((members, end))
}

/// Reads as many types as follow one another from `pos` on.
fn parse_types(input: &[u8], pos: usize) -> (r: (Vec<Type>, usize))
    requires
        pos <= input@.len(),
    ensures
        types_model(r.0@) == parsed_types(input@.subrange(pos as int, input@.len() as int)).0,
        r.1 == pos + parsed_types(input@.subrange(pos as int, input@.len() as int)).1,
    decreases input@.len() - pos,
{
    let ghost s = input@.subrange(pos as int, input@.len() as int);
    proof {
        lemma_parsed_type_sound(s);
    }
    match parse_type(input, pos) {
        Some((first, mid)) => {
            proof {
                assert(s.subrange(mid - pos, s.len() as int) =~= input@.subrange(
                    mid as int,
                    input@.len() as int,
                ));
            }
            let (mut types, end) = parse_types(input, mid);
            let ghost tail = types@;
            types.insert(0, first);
            proof {
                assert(types@ =~= seq![first] + tail);
                lemma_types_model_cons(first, tail);
            }
            (types, end)
        },
        None => {
            let types: Vec<Type> = Vec::new();
            proof {
                assert(types_model(types@) =~= Seq::<SigType>::empty());
            }
            (types, pos)
        },
    }
}

/// Reads a signature, one type or more, from `pos` on, and returns it with the
/// position where the next type would start; `None` where no type starts at `pos`.
pub fn parse_signature(input: &[u8], pos: usize) -> (r: Option<(Signature, usize)>)
    requires
        pos <= input@.len(),
    ensures
        ({
            let (ts, n) = parsed_types(input@.subrange(pos as int, input@.len() as int));
            match r {
                Some((sig, end)) => ts.len() > 0 && types_model(sig@) == ts && end == pos + n,
                None => ts.len() == 0,
            }
        }),
{
    let (types, end) = parse_types(input, pos);
    if types.len() == 0 {
        proof {
            assert(types_model(types@) =~= Seq::<SigType>::empty());
        }
        None
    } else {
        Some((types, end))
    }
}

/// Decodes a whole text as a signature. It succeeds exactly when the text is the
/// encoding of a well-formed signature, and then gives that signature and an empty
/// remainder.
pub fn decode_signature(input: &[u8]) -> (r: Result<Option<(Signature, &[u8])>, InvalidSignature>)
    ensures
        match r {
            Ok(Some((sig, rest))) => {
                &&& decoded_signature(input@) == Some(types_model(sig@))
                &&& signature_wf(types_model(sig@))
                &&& sigs_encoding(types_model(sig@)) == input@
                &&& rest@ == Seq::<u8>::empty()
            },
            Ok(None) => false,
            Err(_) => {
                &&& decoded_signature(input@) is None
                &&& !exists|ts: Seq<SigType>| signature_wf(ts) && #[trigger] sigs_encoding(ts) == input@
            },
        },
{
    proof {
        assert(input@.subrange(0, input@.len() as int) =~= input@);
        lemma_signature_text(input@);
    }
    match parse_signature(input, 0) {
        Some((sig, end)) => {
            if end == input.len() {
                proof {
                    lemma_signature_canonical(input@);
                }
                let rest = vstd::slice::slice_subrange(input, end, end);
                Ok(Some((sig, rest)))
            } else {
                Err(InvalidSignature)
            }
        },
        None => Err(InvalidSignature),
    }
}

fn encode_basic_type(ty: &BasicType, output: &mut Vec<u8>)
    ensures
        final(output)@ == old(output)@.push(basic_code(*ty)),
{
    match ty {
        BasicType::Byte => output.push(121),
        BasicType::Bool => output.push(98),
        BasicType::Int16 => output.push(110),
        BasicType::UInt16 => output.push(113),
        BasicType::Int32 => output.push(105),
        BasicType::UInt32 => output.push(117),
        BasicType::Int64 => output.push(120),
        BasicType::UInt64 => output.push(116),
        BasicType::Double => output.push(100),
        BasicType::String => output.push(115),
        BasicType::ObjectPath => output.push(111),
        BasicType::Signature => output.push(103),
        BasicType::UnixFd => output.push(104),
    }
}

fn encode_type(ty: &Type, output: &mut Vec<u8>)
    ensures
        final(output)@ == old(output)@ + sig_encoding(ty@),
    decreases ty,
{
    match ty {
        Type::BasicType(basic_ty) => {
            encode_basic_type(basic_ty, output);
            assert(output@ =~= old(output)@ + sig_encoding(ty@));
        },
        Type::ContainerType(container_ty) => encode_container_type(container_ty, output),
    }
}

fn encode_container_type(ty: &ContainerType, output: &mut Vec<u8>)
    ensures
        final(output)@ == old(output)@ + sig_encoding(container_model(*ty)),
    decreases ty,
{
    match ty {
        ContainerType::Array(inner_ty) => {
            output.push(97);
            encode_type(inner_ty, output);
            assert(output@ =~= old(output)@ + sig_encoding(container_model(*ty)));
        },
        ContainerType::Dict(key_ty, value_ty) => {
            output.push(97);
            output.push(123);
            encode_basic_type(key_ty, output);
            encode_type(value_ty, output);
            output.push(125);
            assert(output@ =~= old(output)@ + sig_encoding(container_model(*ty)));
        },
        ContainerType::Struct(inner_tys) => {
            output.push(40);
            encode_types(inner_tys, output);
            output.push(41);
            assert(output@ =~= old(output)@ + sig_encoding(container_model(*ty)));
        },
        ContainerType::Variant => {
            output.push(118);
            assert(output@ =~= old(output)@ + sig_encoding(container_model(*ty)));
        },
    }
}

fn encode_types(tys: &Vec<Type>, output: &mut Vec<u8>)
    ensures
        final(output)@ == old(output)@ + sigs_encoding(types_model(tys@)),
    decreases tys,
{
    let ghost whole = old(output)@ + sigs_encoding(types_model(tys@));
    let mut i: usize = 0;
    proof {
        assert(tys@.subrange(0, tys@.len() as int) =~= tys@);
    }
    while i < tys.len()
        invariant
            0 <= i <= tys@.len(),
            whole == output@ + sigs_encoding(
                types_model(tys@.subrange(i as int, tys@.len() as int)),
            ),
        decreases tys@.len() - i,
    {
        let ghost before = output@;
        let ghost rest = tys@.subrange(i as int, tys@.len() as int);
        let ghost tail = tys@.subrange(i + 1, tys@.len() as int);
        proof {
            assert(rest =~= seq![tys@[i as int]] + tail);
            lemma_types_model_cons(tys@[i as int], tail);
            lemma_sigs_encoding_cons(tys@[i as int]@, types_model(tail));
        }
        encode_type(&tys[i], output);
        proof {
            assert(whole =~= output@ + sigs_encoding(types_model(tail)));
        }
        i += 1;
    }
    proof {
        assert(sigs_encoding(types_model(tys@.subrange(i as int, tys@.len() as int)))
            =~= Seq::<u8>::empty()) by {
            assert(tys@.subrange(i as int, tys@.len() as int) =~= Seq::<Type>::empty());
        }
        assert(output@ =~= whole);
    }
}

/// Appends the text of a signature to `output`: one character per basic type or
/// variant, with the brackets and prefixes of containers.
pub fn encode_signature(signature: &Signature, output: &mut Vec<u8>)
    ensures
        final(output)@ == old(output)@ + sigs_encoding(types_model(signature@)),
{
    encode_types(signature, output);
}

} // verus!
