use tokio_dbus::{
    decode_signature, encode_signature, parse_signature, parse_type, BasicType, ContainerType,
    InvalidSignature, Type,
};

fn basic(b: BasicType) -> Type {
    Type::BasicType(b)
}

fn container(c: ContainerType) -> Type {
    Type::ContainerType(Box::new(c))
}

fn round_trip(text: &[u8]) {
    let (sig, rest) = decode_signature(text).unwrap().unwrap();
    assert!(rest.is_empty());
    let mut out = Vec::new();
    encode_signature(&sig, &mut out);
    assert_eq!(out.as_slice(), text);
}

#[test]
fn array_without_element_is_rejected() {
    assert_eq!(decode_signature(b"a"), Err(InvalidSignature));
}

#[test]
fn unterminated_struct_is_rejected() {
    assert_eq!(decode_signature(b"("), Err(InvalidSignature));
    assert_eq!(decode_signature(b"(yy"), Err(InvalidSignature));
}

#[test]
fn empty_struct_is_rejected() {
    assert_eq!(decode_signature(b"()"), Err(InvalidSignature));
    assert_eq!(decode_signature(b"a()"), Err(InvalidSignature));
}

#[test]
fn empty_signature_is_rejected() {
    assert_eq!(decode_signature(b""), Err(InvalidSignature));
}

#[test]
fn unknown_code_is_rejected() {
    assert_eq!(decode_signature(b"z"), Err(InvalidSignature));
    assert_eq!(decode_signature(b"yz"), Err(InvalidSignature));
    assert_eq!(decode_signature(b"y "), Err(InvalidSignature));
}

#[test]
fn dict_key_must_be_basic() {
    assert_eq!(decode_signature(b"a{vs}"), Err(InvalidSignature));
    assert_eq!(decode_signature(b"a{s}"), Err(InvalidSignature));
    assert_eq!(decode_signature(b"a{sv"), Err(InvalidSignature));
}

#[test]
fn dict_decodes() {
    let (sig, _) = decode_signature(b"a{sv}").unwrap().unwrap();
    assert_eq!(
        sig,
        vec![container(ContainerType::Dict(
            BasicType::String,
            container(ContainerType::Variant)
        ))]
    );
}

#[test]
fn every_basic_code_decodes() {
    let (sig, _) = decode_signature(b"ybnqiuxtdsogh").unwrap().unwrap();
    assert_eq!(
        sig,
        vec![
            basic(BasicType::Byte),
            basic(BasicType::Bool),
            basic(BasicType::Int16),
            basic(BasicType::UInt16),
            basic(BasicType::Int32),
            basic(BasicType::UInt32),
            basic(BasicType::Int64),
            basic(BasicType::UInt64),
            basic(BasicType::Double),
            basic(BasicType::String),
            basic(BasicType::ObjectPath),
            basic(BasicType::Signature),
            basic(BasicType::UnixFd),
        ]
    );
}

#[test]
fn signatures_round_trip() {
    round_trip(b"yyyyuua(yv)");
    round_trip(b"a{sa{sv}}");
    round_trip(b"aaay");
    round_trip(b"((y)(ss)v)a(ii)");
    round_trip(b"ybnqiuxtdsogh");
}

#[test]
fn deep_nesting_is_accepted() {
    let mut text = vec![b'a'; 200];
    text.push(b'y');
    round_trip(&text);
}

#[test]
fn encode_appends_to_output() {
    let mut out = b"x".to_vec();
    encode_signature(
        &vec![container(ContainerType::Array(basic(BasicType::Int32))), basic(BasicType::Bool)],
        &mut out,
    );
    assert_eq!(out, b"xaib".to_vec());
}

#[test]
fn parse_type_reads_a_prefix() {
    assert_eq!(
        parse_type(b"ay)", 0),
        Some((container(ContainerType::Array(basic(BasicType::Byte))), 2))
    );
    assert_eq!(parse_type(b"ay)", 2), None);
    assert_eq!(parse_type(b"", 0), None);
}

#[test]
fn parse_signature_stops_where_no_type_starts() {
    assert_eq!(
        parse_signature(b"yv)x", 0),
        Some((vec![basic(BasicType::Byte), container(ContainerType::Variant)], 2))
    );
    assert_eq!(parse_signature(b")", 0), None);
}
