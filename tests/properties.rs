use ssh_derive::attributes::{Attribute, AttributeErrorKind, ContainerAttributes, FieldAttributes, Token};
use ssh_derive::codec::{ErrorType, RecordValue};
use ssh_derive::derive::{try_derive_decode, try_derive_encode, DataKind, DeriveInput, FieldSchema, GenerationError};
use ssh_derive::wire::{FieldType, FieldValue, WireError};

fn ident(s: &str) -> Token {
    Token::Ident(s.as_bytes().to_vec())
}

fn ssh(tokens: Vec<Token>) -> Attribute {
    Attribute { path: b"ssh".to_vec(), tokens: Some(tokens) }
}

fn field(name: &str, ty: FieldType, attrs: Vec<Attribute>) -> FieldSchema {
    FieldSchema { name: Some(name.as_bytes().to_vec()), ty, attrs }
}

fn record(attrs: Vec<Attribute>, fields: Vec<FieldSchema>) -> DeriveInput {
    DeriveInput { ident: b"Msg".to_vec(), data: DataKind::Struct, attrs, fields }
}

fn plain(fields: Vec<FieldSchema>) -> DeriveInput {
    record(Vec::new(), fields)
}

fn values(fields: Vec<FieldValue>) -> RecordValue {
    RecordValue { fields }
}

fn round_trip(input: &DeriveInput, v: &RecordValue) -> Vec<u8> {
    let encoder = try_derive_encode(input).unwrap();
    let decoder = try_derive_decode(input).unwrap();
    let bytes = encoder.encode_vec(v).unwrap();
    assert_eq!(encoder.encoded_len(v).unwrap(), bytes.len());
    let mut with_tail = bytes.clone();
    with_tail.extend_from_slice(&[9, 9, 9]);
    let (back, used) = decoder.decode(&with_tail).unwrap();
    assert_eq!(&back, v);
    assert_eq!(used, bytes.len());
    bytes
}

#[test]
fn round_trip_of_every_primitive() {
    let input = plain(vec![
        field("a", FieldType::U64, vec![ssh(vec![ident("length_prefixed")])]),
        field("b", FieldType::Bool, Vec::new()),
        field("c", FieldType::Bytes, vec![ssh(vec![ident("length_prefixed")])]),
        field("d", FieldType::Text, Vec::new()),
        field("e", FieldType::ByteArray(0), Vec::new()),
    ]);
    let v = values(vec![
        FieldValue::U64(u64::MAX),
        FieldValue::Bool(false),
        FieldValue::Bytes(Vec::new()),
        FieldValue::Text("h\u{e9}".as_bytes().to_vec()),
        FieldValue::ByteArray(Vec::new()),
    ]);
    let bytes = round_trip(&input, &v);
    assert_eq!(bytes.len(), 12 + 1 + 8 + 7);
}

#[test]
fn length_matches_bytes_written() {
    let input = record(
        vec![ssh(vec![ident("length_prefixed")])],
        vec![field("a", FieldType::Text, vec![ssh(vec![ident("length_prefixed")])])],
    );
    let v = values(vec![FieldValue::Text(b"abc".to_vec())]);
    let encoder = try_derive_encode(&input).unwrap();
    assert_eq!(encoder.encoded_len(&v), Ok(15));
    let mut out = vec![0xFF];
    encoder.encode(&v, &mut out).unwrap();
    assert_eq!(out.len(), 16);
    assert_eq!(out, vec![0xFF, 0, 0, 0, 11, 0, 0, 0, 7, 0, 0, 0, 3, b'a', b'b', b'c']);
}

#[test]
fn field_order_changes_bytes() {
    let ab = plain(vec![field("a", FieldType::U8, Vec::new()), field("b", FieldType::U32, Vec::new())]);
    let ba = plain(vec![field("b", FieldType::U32, Vec::new()), field("a", FieldType::U8, Vec::new())]);
    let v1 = values(vec![FieldValue::U8(1), FieldValue::U32(2)]);
    let v2 = values(vec![FieldValue::U32(2), FieldValue::U8(1)]);
    let e1 = try_derive_encode(&ab).unwrap().encode_vec(&v1).unwrap();
    let e2 = try_derive_encode(&ba).unwrap().encode_vec(&v2).unwrap();
    assert_eq!(e1, vec![1, 0, 0, 0, 2]);
    assert_eq!(e2, vec![0, 0, 0, 2, 1]);
    assert_ne!(e1, e2);
}

#[test]
fn prefixes_count_what_follows() {
    let input = record(
        vec![ssh(vec![ident("length_prefixed")])],
        vec![
            field("a", FieldType::Bytes, vec![ssh(vec![ident("length_prefixed")])]),
            field("b", FieldType::U8, Vec::new()),
        ],
    );
    let v = values(vec![FieldValue::Bytes(vec![1, 2, 3, 4, 5]), FieldValue::U8(7)]);
    let bytes = round_trip(&input, &v);
    let outer = u32::from_be_bytes([bytes[0], bytes[1], bytes[2], bytes[3]]) as usize;
    assert_eq!(outer, bytes.len() - 4);
    let inner = u32::from_be_bytes([bytes[4], bytes[5], bytes[6], bytes[7]]) as usize;
    assert_eq!(inner, 9);
}

#[test]
fn unknown_record_modifier_is_rejected() {
    let input = record(vec![ssh(vec![ident("compact")])], vec![field("a", FieldType::U8, Vec::new())]);
    let expected = GenerationError::Attribute(ssh_derive::attributes::AttributeError {
        kind: AttributeErrorKind::Unknown,
        name: b"compact".to_vec(),
        attribute: 0,
        token: 0,
    });
    assert_eq!(try_derive_decode(&input).unwrap_err(), expected);
    assert_eq!(try_derive_encode(&input).unwrap_err(), expected);
}

#[test]
fn unknown_field_modifier_is_rejected() {
    let input = plain(vec![field("a", FieldType::U8, vec![ssh(vec![ident("decode_error"), Token::Paren(b"E".to_vec())])])]);
    match try_derive_encode(&input).unwrap_err() {
        GenerationError::FieldAttribute(0, e) => {
            assert_eq!(e.kind, AttributeErrorKind::Unknown);
            assert_eq!(e.name, b"decode_error".to_vec());
        },
        other => panic!("unexpected {:?}", other),
    }
}

#[test]
fn other_attribute_paths_are_skipped() {
    let input = record(
        vec![Attribute { path: b"doc".to_vec(), tokens: Some(vec![ident("anything")]) }],
        vec![field("a", FieldType::U8, Vec::new())],
    );
    assert!(try_derive_decode(&input).is_ok());
}

#[test]
fn malformed_modifier_lists() {
    let no_parens = ContainerAttributes::try_from(&vec![ssh(vec![ident("decode_error")])]).unwrap_err();
    assert_eq!(no_parens.kind, AttributeErrorKind::ExpectedParens);
    let no_comma = FieldAttributes::try_from(&vec![ssh(vec![ident("length_prefixed"), ident("length_prefixed")])]).unwrap_err();
    assert_eq!(no_comma.kind, AttributeErrorKind::ExpectedComma);
    assert_eq!(no_comma.token, 1);
    let no_ident = FieldAttributes::try_from(&vec![ssh(vec![Token::Other])]).unwrap_err();
    assert_eq!(no_ident.kind, AttributeErrorKind::ExpectedIdent);
    let both = ContainerAttributes::try_from(&vec![ssh(vec![
        ident("length_prefixed"),
        Token::Comma,
        ident("decode_error"),
        Token::Paren(b"MyError".to_vec()),
        Token::Comma,
    ])])
    .unwrap();
    assert!(both.length_prefixed);
    assert_eq!(both.decode_error_type, ErrorType::Custom(b"MyError".to_vec()));
    let default = ContainerAttributes::try_from(&Vec::new()).unwrap();
    assert!(!default.length_prefixed);
    assert_eq!(default.decode_error_type, ErrorType::Standard);
}

#[test]
fn zero_fields_are_rejected() {
    let input = plain(Vec::new());
    assert_eq!(try_derive_decode(&input).unwrap_err(), GenerationError::NoFields);
    assert_eq!(try_derive_encode(&input).unwrap_err(), GenerationError::NoFields);
}

#[test]
fn enumerations_are_rejected() {
    let mut input = plain(vec![field("a", FieldType::U8, Vec::new())]);
    input.data = DataKind::Enum;
    assert_eq!(try_derive_decode(&input).unwrap_err(), GenerationError::UnsupportedKind(DataKind::Enum));
    assert_eq!(try_derive_encode(&input).unwrap_err(), GenerationError::UnsupportedKind(DataKind::Enum));
}

#[test]
fn positional_and_named_records() {
    let named = try_derive_decode(&plain(vec![field("a", FieldType::U8, Vec::new())])).unwrap();
    assert!(!named.positional);
    assert_eq!(named.fields[0].name, Some(b"a".to_vec()));
    let tuple = try_derive_decode(&plain(vec![FieldSchema { name: None, ty: FieldType::U8, attrs: Vec::new() }])).unwrap();
    assert!(tuple.positional);
}

#[test]
fn standard_error_type_by_default() {
    let decoder = try_derive_decode(&plain(vec![field("a", FieldType::U32, Vec::new())])).unwrap();
    let err = decoder.decode(&[1, 2]).unwrap_err();
    assert_eq!(err.error_type, ErrorType::Standard);
    assert_eq!(err.cause, WireError::Length);
}

#[test]
fn bad_boolean_byte() {
    let decoder = try_derive_decode(&plain(vec![field("a", FieldType::Bool, Vec::new())])).unwrap();
    assert_eq!(decoder.decode(&[2]).unwrap_err().cause, WireError::FormatEncoding);
}

#[test]
fn text_must_be_utf8() {
    let decoder = try_derive_decode(&plain(vec![field("a", FieldType::Text, Vec::new())])).unwrap();
    assert_eq!(decoder.decode(&[0, 0, 0, 2, 0xC3, 0x28]).unwrap_err().cause, WireError::CharacterEncoding);
    let (v, n) = decoder.decode(&[0, 0, 0, 2, 0xC3, 0xA9]).unwrap();
    assert_eq!(v, values(vec![FieldValue::Text(vec![0xC3, 0xA9])]));
    assert_eq!(n, 6);
}

#[test]
fn prefixed_region_must_be_consumed() {
    let decoder = try_derive_decode(&plain(vec![field("a", FieldType::U8, vec![ssh(vec![ident("length_prefixed")])])])).unwrap();
    assert_eq!(decoder.decode(&[0, 0, 0, 2, 7, 8]).unwrap_err().cause, WireError::TrailingData);
    assert_eq!(decoder.decode(&[0, 0, 0, 5, 7]).unwrap_err().cause, WireError::Length);
    assert_eq!(decoder.decode(&[0, 0, 0, 1, 7]).unwrap().0, values(vec![FieldValue::U8(7)]));
}

#[test]
fn oversized_usize_does_not_encode() {
    let encoder = try_derive_encode(&plain(vec![
        field("a", FieldType::U8, Vec::new()),
        field("b", FieldType::Usize, Vec::new()),
    ]))
    .unwrap();
    let v = values(vec![FieldValue::U8(1), FieldValue::Usize(0x1_0000_0000)]);
    assert_eq!(encoder.encoded_len(&v), Ok(5));
    let mut out = vec![3];
    assert_eq!(encoder.encode(&v, &mut out), Err(WireError::Overflow));
    assert_eq!(out, vec![3]);
}

#[test]
fn values_are_checked_against_the_schema() {
    let encoder = try_derive_encode(&plain(vec![
        field("a", FieldType::U8, Vec::new()),
        field("b", FieldType::ByteArray(2), Vec::new()),
    ]))
    .unwrap();
    assert!(encoder.accepts_value(&values(vec![FieldValue::U8(1), FieldValue::ByteArray(vec![1, 2])])));
    assert!(!encoder.accepts_value(&values(vec![FieldValue::U8(1), FieldValue::ByteArray(vec![1])])));
    assert!(!encoder.accepts_value(&values(vec![FieldValue::U32(1), FieldValue::ByteArray(vec![1, 2])])));
    assert!(!encoder.accepts_value(&values(vec![FieldValue::U8(1)])));
}

#[test]
fn second_decode_error_is_rejected() {
    let one_list = ContainerAttributes::try_from(&vec![ssh(vec![
        ident("decode_error"),
        Token::Paren(b"A".to_vec()),
        Token::Comma,
        ident("decode_error"),
        Token::Paren(b"B".to_vec()),
    ])])
    .unwrap_err();
    assert_eq!(one_list.kind, AttributeErrorKind::DuplicateDecodeError);
    let two_lists = ContainerAttributes::try_from(&vec![
        ssh(vec![ident("decode_error"), Token::Paren(b"A".to_vec())]),
        ssh(vec![ident("decode_error"), Token::Paren(b"B".to_vec())]),
    ])
    .unwrap_err();
    assert_eq!(two_lists.kind, AttributeErrorKind::DuplicateDecodeError);
}

#[test]
fn bare_ssh_attribute_is_rejected() {
    let bare = vec![Attribute { path: b"ssh".to_vec(), tokens: None }];
    assert_eq!(ContainerAttributes::try_from(&bare).unwrap_err().kind, AttributeErrorKind::ExpectedList);
    assert_eq!(FieldAttributes::try_from(&bare).unwrap_err().kind, AttributeErrorKind::ExpectedList);
    let input = plain(vec![field("a", FieldType::U8, bare)]);
    assert!(try_derive_decode(&input).is_err());
    assert!(try_derive_encode(&input).is_err());
}

#[test]
fn unknown_modifier_after_valid_ones_is_rejected() {
    let input = record(
        vec![
            Attribute { path: b"doc".to_vec(), tokens: None },
            ssh(vec![ident("length_prefixed"), Token::Comma, ident("compact")]),
        ],
        vec![field("a", FieldType::U8, Vec::new())],
    );
    match try_derive_decode(&input).unwrap_err() {
        GenerationError::Attribute(e) => {
            assert_eq!(e.kind, AttributeErrorKind::Unknown);
            assert_eq!(e.name, b"compact".to_vec());
            assert_eq!((e.attribute, e.token), (1, 2));
        },
        other => panic!("unexpected {:?}", other),
    }
}

#[test]
fn fields_separated_by_others_are_observable() {
    let abc = plain(vec![
        field("a", FieldType::U8, Vec::new()),
        field("b", FieldType::U8, Vec::new()),
        field("c", FieldType::U32, Vec::new()),
    ]);
    let cba = plain(vec![
        field("c", FieldType::U32, Vec::new()),
        field("b", FieldType::U8, Vec::new()),
        field("a", FieldType::U8, Vec::new()),
    ]);
    let v1 = values(vec![FieldValue::U8(1), FieldValue::U8(9), FieldValue::U32(2)]);
    let v2 = values(vec![FieldValue::U32(2), FieldValue::U8(9), FieldValue::U8(1)]);
    assert_eq!(try_derive_encode(&abc).unwrap().encode_vec(&v1).unwrap(), vec![1, 9, 0, 0, 0, 2]);
    assert_eq!(try_derive_encode(&cba).unwrap().encode_vec(&v2).unwrap(), vec![0, 0, 0, 2, 9, 1]);
}
