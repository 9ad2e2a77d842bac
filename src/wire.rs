//! Primitive values of the wire format and their big-endian encodings.

use vstd::prelude::*;

verus! {

/// The primitive type of one record field.
#[derive(Clone, Copy, PartialEq, Eq, Structural, Debug)]
pub enum FieldType {
    U8,
    U32,
    U64,
    /// A `usize`, carried on the wire as a `uint32`.
    Usize,
    Bool,
    /// A fixed-size byte array of the given length, written without a prefix.
    ByteArray(usize),
    /// UTF-8 text, written as a `uint32` length followed by its bytes.
    Text,
    /// A byte sequence, written as a `uint32` length followed by its bytes.
    Bytes,
    /// A type with a codec of its own, which plans name but cannot run.
    External,
}

/// One field value.
#[derive(Clone, PartialEq, Eq, Debug)]
pub enum FieldValue {
    U8(u8),
    U32(u32),
    U64(u64),
    Usize(usize),
    Bool(bool),
    ByteArray(Vec<u8>),
    Text(Vec<u8>),
    Bytes(Vec<u8>),
}

/// The mathematical model of a field value.
pub enum WireValue {
    U8(u8),
    U32(u32),
    U64(u64),
    Usize(usize),
    Bool(bool),
    ByteArray(Seq<u8>),
    Text(Seq<u8>),
    Bytes(Seq<u8>),
}

impl View for FieldValue {
    type V = WireValue;

    open spec fn view(&self) -> WireValue {
        match self {
            FieldValue::U8(x) => WireValue::U8(*x),
            FieldValue::U32(x) => WireValue::U32(*x),
            FieldValue::U64(x) => WireValue::U64(*x),
            FieldValue::Usize(x) => WireValue::Usize(*x),
            FieldValue::Bool(x) => WireValue::Bool(*x),
            FieldValue::ByteArray(b) => WireValue::ByteArray(b@),
            FieldValue::Text(b) => WireValue::Text(b@),
            FieldValue::Bytes(b) => WireValue::Bytes(b@),
        }
    }
}

/// Failures of the primitive codec.
#[derive(Clone, Copy, PartialEq, Eq, Structural, Debug)]
pub enum WireError {
    /// Fewer bytes are available than the value needs, or a length sum overflows.
    Length,
    /// A value does not fit the `uint32` that carries it.
    Overflow,
    /// Text bytes are not valid UTF-8.
    CharacterEncoding,
    /// A boolean byte other than 0 or 1.
    FormatEncoding,
    /// A length-prefixed region was not consumed exactly.
    TrailingData,
    /// A field of a type with a codec of its own.
    Unsupported,
}

/// Whether the bytes are valid UTF-8.
pub uninterp spec fn is_utf8(b: Seq<u8>) -> bool;

/// Relies on `core::str::from_utf8`: it succeeds exactly on valid UTF-8.
#[verifier::external_body]
fn utf8_valid(buf: &[u8], start: usize, end: usize) -> (r: bool)
    requires
        start <= end <= buf@.len(),
    ensures
        r == is_utf8(buf@.subrange(start as int, end as int)),
{
    core::str::from_utf8(&buf[start..end]).is_ok()
}

/// The four big-endian bytes of `v`.
pub open spec fn be32(v: u32) -> Seq<u8> {
    seq![(v >> 24u32) as u8, (v >> 16u32) as u8, (v >> 8u32) as u8, v as u8]
}

/// The eight big-endian bytes of `v`.
pub open spec fn be64(v: u64) -> Seq<u8> {
    be32((v >> 32u64) as u32) + be32(v as u32)
}

/// The `uint32` held big-endian in the first four bytes of `b`.
pub open spec fn read_be32(b: Seq<u8>) -> u32
    recommends
        b.len() >= 4,
{
    ((b[0] as u32) << 24u32) | ((b[1] as u32) << 16u32) | ((b[2] as u32) << 8u32) | (b[3] as u32)
}

/// The `uint64` held big-endian in the first eight bytes of `b`.
pub open spec fn read_be64(b: Seq<u8>) -> u64
    recommends
        b.len() >= 8,
{
    ((read_be32(b) as u64) << 32u64) | (read_be32(b.subrange(4, 8)) as u64)
}

/// Whether `v` is a value of type `t`.
pub open spec fn has_type(t: FieldType, v: WireValue) -> bool {
    match (t, v) {
        (FieldType::U8, WireValue::U8(_)) => true,
        (FieldType::U32, WireValue::U32(_)) => true,
        (FieldType::U64, WireValue::U64(_)) => true,
        (FieldType::Usize, WireValue::Usize(_)) => true,
        (FieldType::Bool, WireValue::Bool(_)) => true,
        (FieldType::ByteArray(n), WireValue::ByteArray(b)) => b.len() == n,
        (FieldType::Text, WireValue::Text(_)) => true,
        (FieldType::Bytes, WireValue::Bytes(_)) => true,
        _ => false,
    }
}

/// Whether `v` can be written: every length and `usize` fits a `uint32`.
pub open spec fn fits(v: WireValue) -> bool {
    match v {
        WireValue::Usize(x) => x <= u32::MAX,
        WireValue::Text(b) => b.len() <= u32::MAX,
        WireValue::Bytes(b) => b.len() <= u32::MAX,
        _ => true,
    }
}

/// Whether `v` is a value of `t` that decoding can give back: text must be UTF-8.
pub open spec fn legal(t: FieldType, v: WireValue) -> bool {
    &&& has_type(t, v)
    &&& fits(v)
    &&& (v matches WireValue::Text(b) ==> is_utf8(b))
}

/// The number of bytes that encode `v`.
pub open spec fn value_len(v: WireValue) -> nat {
    match v {
        WireValue::U8(_) => 1,
        WireValue::U32(_) => 4,
        WireValue::U64(_) => 8,
        WireValue::Usize(_) => 4,
        WireValue::Bool(_) => 1,
        WireValue::ByteArray(b) => b.len(),
        WireValue::Text(b) => 4 + b.len(),
        WireValue::Bytes(b) => 4 + b.len(),
    }
}

/// The bytes that encode `v`.
pub open spec fn encode_value(v: WireValue) -> Seq<u8> {
    match v {
        WireValue::U8(x) => seq![x],
        WireValue::U32(x) => be32(x),
        WireValue::U64(x) => be64(x),
        WireValue::Usize(x) => be32(x as u32),
        WireValue::Bool(x) => seq![if x { 1u8 } else { 0u8 }],
        WireValue::ByteArray(b) => b,
        WireValue::Text(b) => be32(b.len() as u32) + b,
        WireValue::Bytes(b) => be32(b.len() as u32) + b,
    }
}

/// A `uint32` length prefix followed by a region of that length, or the failure.
pub open spec fn prefixed_region(b: Seq<u8>) -> Result<(int, int), WireError> {
    if b.len() < 4 {
        Err(WireError::Length)
    } else if b.len() - 4 < read_be32(b) {
        Err(WireError::Length)
    } else {
        Ok((4, 4 + read_be32(b)))
    }
}

/// Decoding one value of type `t` from the front of `b`: the value and the bytes consumed.
pub open spec fn decode_value(t: FieldType, b: Seq<u8>) -> Result<(WireValue, int), WireError> {
    match t {
        FieldType::U8 => if b.len() < 1 { Err(WireError::Length) } else { Ok((WireValue::U8(b[0]), 1)) },
        FieldType::U32 => if b.len() < 4 { Err(WireError::Length) } else { Ok((WireValue::U32(read_be32(b)), 4)) },
        FieldType::U64 => if b.len() < 8 { Err(WireError::Length) } else { Ok((WireValue::U64(read_be64(b)), 8)) },
        FieldType::Usize => if b.len() < 4 {
            Err(WireError::Length)
        } else {
            Ok((WireValue::Usize(read_be32(b) as usize), 4))
        },
        FieldType::Bool => if b.len() < 1 {
            Err(WireError::Length)
        } else if b[0] == 0 {
            Ok((WireValue::Bool(false), 1))
        } else if b[0] == 1 {
            Ok((WireValue::Bool(true), 1))
        } else {
            Err(WireError::FormatEncoding)
        },
        FieldType::ByteArray(n) => if b.len() < n {
            Err(WireError::Length)
        } else {
            Ok((WireValue::ByteArray(b.subrange(0, n as int)), n as int))
        },
        FieldType::Bytes => match prefixed_region(b) {
            Err(e) => Err(e),
            Ok((s, e)) => Ok((WireValue::Bytes(b.subrange(s, e)), e)),
        },
        FieldType::External => Err(WireError::Unsupported),
        FieldType::Text => match prefixed_region(b) {
            Err(e) => Err(e),
            Ok((s, e)) => if is_utf8(b.subrange(s, e)) {
                Ok((WireValue::Text(b.subrange(s, e)), e))
            } else {
                Err(WireError::CharacterEncoding)
            },
        },
    }
}

/// A `uint32` takes four bytes.
pub proof fn lemma_be32_len(v: u32)
    ensures
        be32(v).len() == 4,
{
}

/// Reading back the four bytes written for `v` gives `v`.
pub proof fn lemma_be32_round_trip(v: u32, rest: Seq<u8>)
    ensures
        read_be32(be32(v) + rest) == v,
{
    let b = be32(v) + rest;
    assert(b[0] == (v >> 24u32) as u8);
    assert(b[1] == (v >> 16u32) as u8);
    assert(b[2] == (v >> 8u32) as u8);
    assert(b[3] == v as u8);
    assert(((((v >> 24u32) as u8) as u32) << 24u32) | ((((v >> 16u32) as u8) as u32) << 16u32)
        | ((((v >> 8u32) as u8) as u32) << 8u32) | ((v as u8) as u32) == v) by (bit_vector);
}

/// Reading back the eight bytes written for `v` gives `v`.
pub proof fn lemma_be64_round_trip(v: u64, rest: Seq<u8>)
    ensures
        be64(v).len() == 8,
        read_be64(be64(v) + rest) == v,
{
    let hi = (v >> 32u64) as u32;
    let lo = v as u32;
    let b = be64(v) + rest;
    assert(b =~= be32(hi) + (be32(lo) + rest));
    lemma_be32_round_trip(hi, be32(lo) + rest);
    assert(b.subrange(4, 8) =~= be32(lo) + Seq::<u8>::empty());
    lemma_be32_round_trip(lo, Seq::<u8>::empty());
    assert(((((v >> 32u64) as u32) as u64) << 32u64) | ((v as u32) as u64) == v) by (bit_vector);
}


/// The encoding of `v` has `value_len(v)` bytes.
pub proof fn lemma_encode_value_len(v: WireValue)
    ensures
        encode_value(v).len() == value_len(v),
{
}

/// Encoding then decoding a legal value gives it back, whatever follows it.
pub proof fn lemma_value_round_trip(t: FieldType, v: WireValue, rest: Seq<u8>)
    requires
        legal(t, v),
    ensures
        encode_value(v).len() == value_len(v),
        decode_value(t, encode_value(v) + rest) == Ok::<(WireValue, int), WireError>((v, value_len(v) as int)),
{
    let b = encode_value(v) + rest;
    match v {
        WireValue::U8(x) => {},
        WireValue::U32(x) => { lemma_be32_round_trip(x, rest); },
        WireValue::U64(x) => { lemma_be64_round_trip(x, rest); },
        WireValue::Usize(x) => { lemma_be32_round_trip(x as u32, rest); },
        WireValue::Bool(x) => {},
        WireValue::ByteArray(d) => { assert(b.subrange(0, d.len() as int) =~= d); },
        WireValue::Text(d) => {
            lemma_be32_round_trip(d.len() as u32, d + rest);
            assert(b =~= be32(d.len() as u32) + (d + rest));
            assert(b.subrange(4, 4 + d.len() as int) =~= d);
        },
        WireValue::Bytes(d) => {
            lemma_be32_round_trip(d.len() as u32, d + rest);
            assert(b =~= be32(d.len() as u32) + (d + rest));
            assert(b.subrange(4, 4 + d.len() as int) =~= d);
        },
    }
}

/// Appends the four big-endian bytes of `v`.
pub fn push_be32(out: &mut Vec<u8>, v: u32)
    ensures
        final(out)@ == old(out)@ + be32(v),
{
    out.push((v >> 24u32) as u8);
    out.push((v >> 16u32) as u8);
    out.push((v >> 8u32) as u8);
    out.push(v as u8);
    assert(final(out)@ =~= old(out)@ + be32(v));
}

/// Appends the eight big-endian bytes of `v`.
pub fn push_be64(out: &mut Vec<u8>, v: u64)
    ensures
        final(out)@ == old(out)@ + be64(v),
{
    push_be32(out, (v >> 32u64) as u32);
    push_be32(out, v as u32);
    assert(final(out)@ =~= old(out)@ + be64(v));
}

/// Appends the bytes of `b`.
pub fn push_bytes(out: &mut Vec<u8>, b: &Vec<u8>)
    ensures
        final(out)@ == old(out)@ + b@,
{
    let ghost start = out@;
    let mut i: usize = 0;
    while i < b.len()
        invariant
            i <= b@.len(),
            out@ == start + b@.subrange(0, i as int),
        decreases b@.len() - i,
    {
        out.push(b[i]);
        i = i + 1;
        assert(out@ =~= start + b@.subrange(0, i as int));
    }
    assert(b@.subrange(0, i as int) =~= b@);
}

/// The `uint32` held big-endian at `buf[pos..pos + 4]`.
pub fn get_be32(buf: &[u8], pos: usize) -> (r: u32)
    requires
        pos + 4 <= buf@.len(),
    ensures
        r == read_be32(buf@.subrange(pos as int, buf@.len() as int)),
{
    ((buf[pos] as u32) << 24u32) | ((buf[pos + 1] as u32) << 16u32) | ((buf[pos + 2] as u32) << 8u32)
        | (buf[pos + 3] as u32)
}

/// The bytes `buf[start..end]` as a vector.
pub fn copy_range(buf: &[u8], start: usize, end: usize) -> (r: Vec<u8>)
    requires
        start <= end <= buf@.len(),
    ensures
        r@ == buf@.subrange(start as int, end as int),
{
    let mut r: Vec<u8> = Vec::new();
    let mut i: usize = start;
    while i < end
        invariant
            start <= i <= end <= buf@.len(),
            r@ == buf@.subrange(start as int, i as int),
        decreases end - i,
    {
        r.push(buf[i]);
        i = i + 1;
        assert(r@ =~= buf@.subrange(start as int, i as int));
    }
    r
}

/// Whether `v` is a value of type `t`.
pub fn value_has_type(t: FieldType, v: &FieldValue) -> (r: bool)
    ensures
        r == has_type(t, v@),
{
    match (t, v) {
        (FieldType::U8, FieldValue::U8(_)) => true,
        (FieldType::U32, FieldValue::U32(_)) => true,
        (FieldType::U64, FieldValue::U64(_)) => true,
        (FieldType::Usize, FieldValue::Usize(_)) => true,
        (FieldType::Bool, FieldValue::Bool(_)) => true,
        (FieldType::ByteArray(n), FieldValue::ByteArray(b)) => b.len() == n,
        (FieldType::Text, FieldValue::Text(_)) => true,
        (FieldType::Bytes, FieldValue::Bytes(_)) => true,
        _ => false,
    }
}

/// Whether every length and `usize` in `v` fits a `uint32`.
pub fn value_fits(v: &FieldValue) -> (r: bool)
    ensures
        r == fits(v@),
{
    match v {
        FieldValue::Usize(x) => *x <= 0xFFFF_FFFFusize,
        FieldValue::Text(b) => b.len() <= 0xFFFF_FFFFusize,
        FieldValue::Bytes(b) => b.len() <= 0xFFFF_FFFFusize,
        _ => true,
    }
}

/// The number of bytes that encode `v`, or `None` where that exceeds `usize`.
pub fn value_encoded_len(v: &FieldValue) -> (r: Option<usize>)
    ensures
        r matches Some(n) ==> n == value_len(v@),
        r is None <==> value_len(v@) > usize::MAX,
{
    match v {
        FieldValue::U8(_) => Some(1),
        FieldValue::U32(_) => Some(4),
        FieldValue::U64(_) => Some(8),
        FieldValue::Usize(_) => Some(4),
        FieldValue::Bool(_) => Some(1),
        FieldValue::ByteArray(b) => Some(b.len()),
        FieldValue::Text(b) => b.len().checked_add(4),
        FieldValue::Bytes(b) => b.len().checked_add(4),
    }
}

/// Appends the encoding of `v`.
pub fn encode_value_into(v: &FieldValue, out: &mut Vec<u8>)
    requires
        fits(v@),
    ensures
        final(out)@ == old(out)@ + encode_value(v@),
{
    match v {
        FieldValue::U8(x) => { out.push(*x); },
        FieldValue::U32(x) => { push_be32(out, *x); },
        FieldValue::U64(x) => { push_be64(out, *x); },
        FieldValue::Usize(x) => { push_be32(out, *x as u32); },
        FieldValue::Bool(x) => { out.push(if *x { 1u8 } else { 0u8 }); },
        FieldValue::ByteArray(b) => { push_bytes(out, b); },
        FieldValue::Text(b) => {
            push_be32(out, b.len() as u32);
            push_bytes(out, b);
        },
        FieldValue::Bytes(b) => {
            push_be32(out, b.len() as u32);
            push_bytes(out, b);
        },
    }
    assert(final(out)@ =~= old(out)@ + encode_value(v@));
}

/// The bounds of the region that a `uint32` length prefix at `buf[start..end]` announces.
pub fn read_prefixed_region(buf: &[u8], start: usize, end: usize) -> (r: Result<(usize, usize), WireError>)
    requires
        start <= end <= buf@.len(),
    ensures
        match r {
            Ok((s, e)) => {
                &&& prefixed_region(buf@.subrange(start as int, end as int))
                    == Ok::<(int, int), WireError>((s - start, e - start))
                &&& start <= s <= e <= end
            },
            Err(err) => prefixed_region(buf@.subrange(start as int, end as int)) == Err::<(int, int), WireError>(err),
        },
{
    let ghost b = buf@.subrange(start as int, end as int);
    if end - start < 4 {
        return Err(WireError::Length);
    }
    let n = get_be32(buf, start);
    assert(buf@.subrange(start as int, buf@.len() as int).subrange(0, 4) =~= b.subrange(0, 4));
    assert(n == read_be32(b));
    if ((end - start - 4) as u64) < (n as u64) {
        return Err(WireError::Length);
    }
    Ok((start + 4, start + 4 + n as usize))
}

/// Decodes one value of type `t` from the front of `buf[start..end]`.
pub fn decode_value_at(t: FieldType, buf: &[u8], start: usize, end: usize) -> (r: Result<(FieldValue, usize), WireError>)
    requires
        start <= end <= buf@.len(),
    ensures
        match r {
            Ok((v, n)) => {
                &&& decode_value(t, buf@.subrange(start as int, end as int))
                    == Ok::<(WireValue, int), WireError>((v@, n as int))
                &&& n <= end - start
            },
            Err(e) => decode_value(t, buf@.subrange(start as int, end as int)) == Err::<(WireValue, int), WireError>(e),
        },
{
    let ghost b = buf@.subrange(start as int, end as int);
    let avail = end - start;
    match t {
        FieldType::U8 => {
            if avail < 1 { return Err(WireError::Length); }
            Ok((FieldValue::U8(buf[start]), 1))
        },
        FieldType::U32 => {
            if avail < 4 { return Err(WireError::Length); }
            let x = get_be32(buf, start);
            assert(buf@.subrange(start as int, buf@.len() as int).subrange(0, 4) =~= b.subrange(0, 4));
            Ok((FieldValue::U32(x), 4))
        },
        FieldType::U64 => {
            if avail < 8 { return Err(WireError::Length); }
            let hi = get_be32(buf, start);
            let lo = get_be32(buf, start + 4);
            assert(buf@.subrange(start as int, buf@.len() as int).subrange(0, 4) =~= b.subrange(0, 4));
            assert(buf@.subrange(start + 4, buf@.len() as int).subrange(0, 4) =~= b.subrange(4, 8).subrange(0, 4));
            Ok((FieldValue::U64(((hi as u64) << 32u64) | (lo as u64)), 8))
        },
        FieldType::Usize => {
            if avail < 4 { return Err(WireError::Length); }
            let x = get_be32(buf, start);
            assert(buf@.subrange(start as int, buf@.len() as int).subrange(0, 4) =~= b.subrange(0, 4));
            Ok((FieldValue::Usize(x as usize), 4))
        },
        FieldType::Bool => {
            if avail < 1 { return Err(WireError::Length); }
            let x = buf[start];
            if x == 0 {
                Ok((FieldValue::Bool(false), 1))
            } else if x == 1 {
                Ok((FieldValue::Bool(true), 1))
            } else {
                Err(WireError::FormatEncoding)
            }
        },
        FieldType::ByteArray(n) => {
            if avail < n { return Err(WireError::Length); }
            let d = copy_range(buf, start, start + n);
            assert(d@ =~= b.subrange(0, n as int));
            Ok((FieldValue::ByteArray(d), n))
        },
        FieldType::Bytes => {
            let (s, e) = match read_prefixed_region(buf, start, end) {
                Ok(p) => p,
                Err(err) => { return Err(err); },
            };
            let d = copy_range(buf, s, e);
            assert(d@ =~= b.subrange(s - start, e - start));
            Ok((FieldValue::Bytes(d), e - start))
        },
        FieldType::External => Err(WireError::Unsupported),
        FieldType::Text => {
            let (s, e) = match read_prefixed_region(buf, start, end) {
                Ok(p) => p,
                Err(err) => { return Err(err); },
            };
            assert(buf@.subrange(s as int, e as int) =~= b.subrange(s - start, e - start));
            if !utf8_valid(buf, s, e) {
                return Err(WireError::CharacterEncoding);
            }
            let d = copy_range(buf, s, e);
            Ok((FieldValue::Text(d), e - start))
        },
    }
}

} // verus!
