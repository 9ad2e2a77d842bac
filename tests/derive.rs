use ssh_derive::attributes::{Attribute, Token};
use ssh_derive::codec::{ErrorType, RecordValue};
use ssh_derive::derive::{try_derive_decode, try_derive_encode, DataKind, DeriveInput, FieldSchema};
use ssh_derive::wire::{FieldType, FieldValue, WireError};

fn ident(s: &str) -> Token {
    Token::Ident(s.as_bytes().to_vec())
}

fn ssh(tokens: Vec<Token>) -> Attribute {
    Attribute { path: b"ssh".to_vec(), tokens: Some(tokens) }
}

fn named(name: &str, ty: FieldType, attrs: Vec<Attribute>) -> FieldSchema {
    FieldSchema { name: Some(name.as_bytes().to_vec()), ty, attrs }
}

fn unnamed(ty: FieldType) -> FieldSchema {
    FieldSchema { name: None, ty, attrs: Vec::new() }
}

fn record(name: &str, attrs: Vec<Attribute>, fields: Vec<FieldSchema>) -> DeriveInput {
    DeriveInput { ident: name.as_bytes().to_vec(), data: DataKind::Struct, attrs, fields }
}

fn most_types() -> DeriveInput {
    record(
        "MostTypes",
        Vec::new(),
        vec![
            named("a", FieldType::U8, Vec::new()),
            named("b", FieldType::U32, Vec::new()),
            named("c", FieldType::U64, Vec::new()),
            named("d", FieldType::Usize, Vec::new()),
            named("e", FieldType::Bool, Vec::new()),
            named("f", FieldType::ByteArray(7), Vec::new()),
            named("g", FieldType::Text, Vec::new()),
            named("h", FieldType::Bytes, Vec::new()),
            named("i", FieldType::U8, Vec::new()),
        ],
    )
}

fn custom_error_type() -> DeriveInput {
    record(
        "CustomErrorType",
        vec![ssh(vec![ident("decode_error"), Token::Paren(b"CustomError".to_vec())])],
        vec![unnamed(FieldType::U8), unnamed(FieldType::U32)],
    )
}

fn length_prefixed() -> DeriveInput {
    record(
        "LengthPrefixed",
        vec![ssh(vec![ident("length_prefixed")])],
        vec![
            named("a", FieldType::U32, vec![ssh(vec![ident("length_prefixed")])]),
            named("b", FieldType::Text, Vec::new()),
        ],
    )
}

fn values(fields: Vec<FieldValue>) -> RecordValue {
    RecordValue { fields }
}

#[test]
fn derive_encode_decode_roundtrip_most_types() {
    let data = [
        42,
        0xDE, 0xAD, 0xBE, 0xEF,
        0xCA, 0xFE, 0xBA, 0xBE, 0xFA, 0xCE, 0xFE, 0xED,
        0x00, 0x00, 0xAB, 0xCD,
        0x01,
        b'e', b'x', b'a', b'm', b'p', b'l', b'e',
        0x00, 0x00, 0x00, 0x05, b'h', b'e', b'l', b'l', b'o',
        0x00, 0x00, 0x00, 0x05, b'w', b'o', b'r', b'l', b'd',
        0x20,
    ];
    let expected = values(vec![
        FieldValue::U8(42),
        FieldValue::U32(0xDEAD_BEEF),
        FieldValue::U64(0xCAFE_BABE_FACE_FEED),
        FieldValue::Usize(0xABCD),
        FieldValue::Bool(true),
        FieldValue::ByteArray(b"example".to_vec()),
        FieldValue::Text("hello".as_bytes().to_vec()),
        FieldValue::Bytes(b"world".to_vec()),
        FieldValue::U8(0x20),
    ]);
    let input = most_types();
    let encoder = try_derive_encode(&input).unwrap();
    let decoder = try_derive_decode(&input).unwrap();
    assert_eq!(&data, encoder.encode_vec(&expected).unwrap().as_slice());
    let (most_types, _) = decoder.decode(&data[..]).unwrap();
    assert_eq!(most_types, expected);
}

#[test]
fn derive_encode_reference() {
    let data = b"\x00\x00\x00\x07example";
    let input = record("Reference", Vec::new(), vec![unnamed(FieldType::Bytes)]);
    let expected = values(vec![FieldValue::Bytes(data[4..].to_vec())]);
    let encoder = try_derive_encode(&input).unwrap();
    assert_eq!(data, encoder.encode_vec(&expected).unwrap().as_slice());
}

#[test]
fn derive_decode_custom_error() {
    let data = [42, 0xDE, 0xAD, 0xBE, 0xEF];
    let expected = values(vec![FieldValue::U8(42), FieldValue::U32(0xDEAD_BEEF)]);
    let decoder = try_derive_decode(&custom_error_type()).unwrap();
    assert_eq!(expected, decoder.decode(&data[..]).unwrap().0);
    let err = decoder.decode(&data[1..]).unwrap_err();
    assert_eq!(ErrorType::Custom(b"CustomError".to_vec()), err.error_type);
    assert_eq!(WireError::Length, err.cause);
}

#[test]
fn derive_encode_decode_roundtrip_length_prefixed() {
    let data = [
        0x00, 0x00, 0x00, 0x11,
        0x00, 0x00, 0x00, 0x04, 0x00, 0x00, 0x00, 0x2A,
        0x00, 0x00, 0x00, 0x05, b'h', b'e', b'l', b'l', b'o',
    ];
    let expected = values(vec![FieldValue::U32(42), FieldValue::Text("hello".as_bytes().to_vec())]);
    let input = length_prefixed();
    let encoder = try_derive_encode(&input).unwrap();
    let decoder = try_derive_decode(&input).unwrap();
    assert_eq!(&data, encoder.encode_vec(&expected).unwrap().as_slice());
    let (length_prefixed, _) = decoder.decode(&data[..]).unwrap();
    assert_eq!(length_prefixed, expected);
}
