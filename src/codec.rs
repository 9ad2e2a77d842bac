//! Running a record plan: the exact encoded length, the writer and the reader.

use vstd::prelude::*;
use crate::wire::{
    be32, decode_value, lemma_be32_round_trip, lemma_encode_value_len, lemma_value_round_trip,
    decode_value_at, read_prefixed_region, value_encoded_len,
    value_fits, push_be32, read_be32, value_has_type, encode_value_into, lemma_be32_len, encode_value, fits, has_type, legal, prefixed_region, value_len, FieldType,
    FieldValue, WireError, WireValue,
};

verus! {

/// The operation that reads or writes one field: its type, whether it sits in its own
/// length-prefixed region, and its name in a named record.
#[derive(Clone, Debug)]
pub struct FieldOp {
    pub name: Option<Vec<u8>>,
    pub ty: FieldType,
    pub length_prefixed: bool,
}

/// A record value: its field values in declaration order.
#[derive(Clone, PartialEq, Eq, Debug)]
pub struct RecordValue {
    pub fields: Vec<FieldValue>,
}

pub open spec fn values_view(v: Seq<FieldValue>) -> Seq<WireValue> {
    v.map_values(|x: FieldValue| x@)
}

impl View for RecordValue {
    type V = Seq<WireValue>;

    open spec fn view(&self) -> Seq<WireValue> {
        values_view(self.fields@)
    }
}

/// The number of bytes written for field value `v` under `op`.
pub open spec fn field_len(op: FieldOp, v: WireValue) -> nat {
    if op.length_prefixed { 4 + value_len(v) } else { value_len(v) }
}

/// The bytes written for field value `v` under `op`.
pub open spec fn encode_field(op: FieldOp, v: WireValue) -> Seq<u8> {
    if op.length_prefixed { be32(value_len(v) as u32) + encode_value(v) } else { encode_value(v) }
}

/// Whether field value `v` can be written under `op`.
pub open spec fn field_fits(op: FieldOp, v: WireValue) -> bool {
    fits(v) && (op.length_prefixed ==> value_len(v) <= u32::MAX)
}

/// The sum of the field lengths of `vals`, in order.
pub open spec fn fields_len(ops: Seq<FieldOp>, vals: Seq<WireValue>) -> nat
    decreases vals.len(),
{
    if vals.len() == 0 {
        0
    } else {
        fields_len(ops, vals.drop_last()) + field_len(ops[vals.len() - 1], vals.last())
    }
}

/// The concatenated field encodings of `vals`, in order.
pub open spec fn encode_fields(ops: Seq<FieldOp>, vals: Seq<WireValue>) -> Seq<u8>
    decreases vals.len(),
{
    if vals.len() == 0 {
        Seq::empty()
    } else {
        encode_fields(ops, vals.drop_last()) + encode_field(ops[vals.len() - 1], vals.last())
    }
}

/// Whether `vals` holds one value of the right type for each field.
pub open spec fn well_typed(ops: Seq<FieldOp>, vals: Seq<WireValue>) -> bool {
    ops.len() == vals.len() && forall|i: int| 0 <= i < ops.len() ==> has_type(#[trigger] ops[i].ty, vals[i])
}

/// Whether every value of `vals` is legal for its field.
pub open spec fn all_legal(ops: Seq<FieldOp>, vals: Seq<WireValue>) -> bool {
    ops.len() == vals.len() && forall|i: int| 0 <= i < ops.len() ==> legal(#[trigger] ops[i].ty, vals[i])
}

/// Whether every field value can be written.
pub open spec fn all_fit(ops: Seq<FieldOp>, vals: Seq<WireValue>) -> bool {
    forall|i: int| 0 <= i < vals.len() ==> field_fits(#[trigger] ops[i], vals[i])
}

/// The total number of bytes that encode a record.
pub open spec fn record_len(prefixed: bool, ops: Seq<FieldOp>, vals: Seq<WireValue>) -> nat {
    if prefixed { 4 + fields_len(ops, vals) } else { fields_len(ops, vals) }
}

/// The bytes that encode a record.
pub open spec fn encode_record(prefixed: bool, ops: Seq<FieldOp>, vals: Seq<WireValue>) -> Seq<u8> {
    if prefixed {
        be32(fields_len(ops, vals) as u32) + encode_fields(ops, vals)
    } else {
        encode_fields(ops, vals)
    }
}

/// What encoding a record yields: its length, or the failure.
pub open spec fn encoded_len_outcome(prefixed: bool, ops: Seq<FieldOp>, vals: Seq<WireValue>) -> Result<usize, WireError> {
    if record_len(prefixed, ops, vals) > usize::MAX {
        Err(WireError::Length)
    } else {
        Ok(record_len(prefixed, ops, vals) as usize)
    }
}

/// What writing a record yields: its bytes, or the failure.
pub open spec fn encode_outcome(prefixed: bool, ops: Seq<FieldOp>, vals: Seq<WireValue>) -> Result<Seq<u8>, WireError> {
    if record_len(prefixed, ops, vals) > usize::MAX {
        Err(WireError::Length)
    } else if !all_fit(ops, vals) || (prefixed && fields_len(ops, vals) > u32::MAX) {
        Err(WireError::Overflow)
    } else {
        Ok(encode_record(prefixed, ops, vals))
    }
}

/// Decoding one field under `op` from the front of `b`.
pub open spec fn decode_field(op: FieldOp, b: Seq<u8>) -> Result<(WireValue, int), WireError> {
    if op.length_prefixed {
        match prefixed_region(b) {
            Err(e) => Err(e),
            Ok((s, e)) => match decode_value(op.ty, b.subrange(s, e)) {
                Err(err) => Err(err),
                Ok((v, m)) => if m == e - s { Ok((v, e)) } else { Err(WireError::TrailingData) },
            },
        }
    } else {
        decode_value(op.ty, b)
    }
}

/// Decoding the fields of `ops`, in order, from the front of `b`.
pub open spec fn decode_fields(ops: Seq<FieldOp>, b: Seq<u8>) -> Result<(Seq<WireValue>, int), WireError>
    decreases ops.len(),
{
    if ops.len() == 0 {
        Ok((Seq::empty(), 0))
    } else {
        match decode_field(ops[0], b) {
            Err(e) => Err(e),
            Ok((v, n)) => if 0 <= n <= b.len() {
                chain(seq![v], n, decode_fields(ops.drop_first(), b.subrange(n, b.len() as int)))
            } else {
                Err(WireError::Length)
            },
        }
    }
}

/// Puts `acc`, which took `k` bytes, in front of a decoding result.
pub open spec fn chain(acc: Seq<WireValue>, k: int, r: Result<(Seq<WireValue>, int), WireError>) -> Result<(Seq<WireValue>, int), WireError> {
    match r {
        Ok((vs, m)) => Ok((acc + vs, k + m)),
        Err(e) => Err(e),
    }
}

/// Decoding a record from the front of `b`.
pub open spec fn decode_record(prefixed: bool, ops: Seq<FieldOp>, b: Seq<u8>) -> Result<(Seq<WireValue>, int), WireError> {
    if prefixed {
        match prefixed_region(b) {
            Err(e) => Err(e),
            Ok((s, e)) => match decode_fields(ops, b.subrange(s, e)) {
                Err(err) => Err(err),
                Ok((vs, m)) => if m == e - s { Ok((vs, e)) } else { Err(WireError::TrailingData) },
            },
        }
    } else {
        decode_fields(ops, b)
    }
}


/// A prefix of the fields never takes more bytes than all of them.
pub proof fn lemma_fields_len_prefix(ops: Seq<FieldOp>, vals: Seq<WireValue>, j: int)
    requires
        0 <= j <= vals.len(),
    ensures
        fields_len(ops, vals.take(j)) <= fields_len(ops, vals),
    decreases vals.len(),
{
    if j < vals.len() {
        lemma_fields_len_prefix(ops, vals.drop_last(), j);
        assert(vals.drop_last().take(j) =~= vals.take(j));
    } else {
        assert(vals.take(j) =~= vals);
    }
}

/// One field never takes more bytes than all of them.
pub proof fn lemma_field_len_le(ops: Seq<FieldOp>, vals: Seq<WireValue>, i: int)
    requires
        0 <= i < vals.len(),
    ensures
        field_len(ops[i], vals[i]) <= fields_len(ops, vals),
{
    lemma_fields_len_prefix(ops, vals, i + 1);
    assert(vals.take(i + 1).drop_last() =~= vals.take(i));
}

/// The field encodings take exactly `fields_len` bytes.
pub proof fn lemma_encode_fields_len(ops: Seq<FieldOp>, vals: Seq<WireValue>)
    ensures
        encode_fields(ops, vals).len() == fields_len(ops, vals),
    decreases vals.len(),
{
    if vals.len() > 0 {
        lemma_encode_fields_len(ops, vals.drop_last());
        lemma_encode_value_len(vals.last());
    }
}

/// The field encodings, read from the front: the first field, then the others.
pub proof fn lemma_encode_fields_front(ops: Seq<FieldOp>, vals: Seq<WireValue>)
    requires
        vals.len() >= 1,
        ops.len() >= vals.len(),
    ensures
        encode_fields(ops, vals) == encode_field(ops[0], vals[0]) + encode_fields(ops.drop_first(), vals.drop_first()),
        fields_len(ops, vals) == field_len(ops[0], vals[0]) + fields_len(ops.drop_first(), vals.drop_first()),
    decreases vals.len(),
{
    if vals.len() > 1 {
        let n = vals.len();
        lemma_encode_fields_front(ops, vals.drop_last());
        assert(vals.drop_last().drop_first() =~= vals.drop_first().drop_last());
        assert(ops.drop_first()[n - 2] == ops[n - 1]);
        assert(vals.drop_first().last() == vals.last());
        assert(vals.drop_last()[0] == vals[0]);
        assert(encode_fields(ops.drop_first(), vals.drop_first()) == encode_fields(ops.drop_first(), vals.drop_first().drop_last())
            + encode_field(ops[n - 1], vals.last()));
        assert(fields_len(ops.drop_first(), vals.drop_first()) == fields_len(ops.drop_first(), vals.drop_first().drop_last())
            + field_len(ops[n - 1], vals.last()));
        assert(encode_fields(ops, vals) =~= encode_field(ops[0], vals[0]) + encode_fields(ops.drop_first(), vals.drop_first()));
    } else {
        assert(encode_fields(ops, vals.drop_last()) == Seq::<u8>::empty());
        assert(encode_fields(ops.drop_first(), vals.drop_first()) == Seq::<u8>::empty());
        assert(fields_len(ops.drop_first(), vals.drop_first()) == 0);
        assert(fields_len(ops, vals.drop_last()) == 0);
        assert(vals.last() == vals[0]);
        assert(encode_fields(ops, vals) =~= encode_field(ops[0], vals[0]) + encode_fields(ops.drop_first(), vals.drop_first()));
    }
}

/// A legal field value that fits comes back from its own encoding.
pub proof fn lemma_field_round_trip(op: FieldOp, v: WireValue, rest: Seq<u8>)
    requires
        legal(op.ty, v),
        field_fits(op, v),
    ensures
        encode_field(op, v).len() == field_len(op, v),
        decode_field(op, encode_field(op, v) + rest) == Ok::<(WireValue, int), WireError>((v, field_len(op, v) as int)),
{
    lemma_value_round_trip(op.ty, v, rest);
    if op.length_prefixed {
        let enc = encode_value(v);
        let b = encode_field(op, v) + rest;
        assert(b =~= be32(value_len(v) as u32) + (enc + rest));
        lemma_be32_round_trip(value_len(v) as u32, enc + rest);
        assert(b.subrange(4, 4 + value_len(v) as int) =~= enc + Seq::<u8>::empty());
        lemma_value_round_trip(op.ty, v, Seq::<u8>::empty());
    }
}

/// Decoding the encoding of legal field values gives them back, whatever follows.
pub proof fn lemma_fields_round_trip(ops: Seq<FieldOp>, vals: Seq<WireValue>, rest: Seq<u8>)
    requires
        all_legal(ops, vals),
        all_fit(ops, vals),
    ensures
        decode_fields(ops, encode_fields(ops, vals) + rest)
            == Ok::<(Seq<WireValue>, int), WireError>((vals, fields_len(ops, vals) as int)),
    decreases ops.len(),
{
    lemma_encode_fields_len(ops, vals);
    if ops.len() > 0 {
        lemma_encode_fields_front(ops, vals);
        let tail_ops = ops.drop_first();
        let tail_vals = vals.drop_first();
        let tail = encode_fields(tail_ops, tail_vals);
        let b = encode_fields(ops, vals) + rest;
        assert(b =~= encode_field(ops[0], vals[0]) + (tail + rest));
        assert(legal(ops[0].ty, vals[0]));
        assert(field_fits(ops[0], vals[0]));
        lemma_field_round_trip(ops[0], vals[0], tail + rest);
        let n = field_len(ops[0], vals[0]) as int;
        assert(b.subrange(n, b.len() as int) =~= tail + rest);
        assert forall|i: int| 0 <= i < tail_ops.len() implies legal(#[trigger] tail_ops[i].ty, tail_vals[i]) by {
            assert(legal(ops[i + 1].ty, vals[i + 1]));
        }
        assert forall|i: int| 0 <= i < tail_vals.len() implies field_fits(#[trigger] tail_ops[i], tail_vals[i]) by {
            assert(field_fits(ops[i + 1], vals[i + 1]));
        }
        lemma_fields_round_trip(tail_ops, tail_vals, rest);
        assert(seq![vals[0]] + tail_vals =~= vals);
    } else {
        assert(vals =~= Seq::<WireValue>::empty());
    }
}

/// Decoding the encoding of a legal record gives it back, whatever follows.
pub proof fn lemma_record_round_trip(prefixed: bool, ops: Seq<FieldOp>, vals: Seq<WireValue>, rest: Seq<u8>)
    requires
        all_legal(ops, vals),
        encode_outcome(prefixed, ops, vals) is Ok,
    ensures
        encode_record(prefixed, ops, vals).len() == record_len(prefixed, ops, vals),
        decode_record(prefixed, ops, encode_record(prefixed, ops, vals) + rest)
            == Ok::<(Seq<WireValue>, int), WireError>((vals, record_len(prefixed, ops, vals) as int)),
{
    lemma_encode_fields_len(ops, vals);
    let body = encode_fields(ops, vals);
    if prefixed {
        let b = encode_record(prefixed, ops, vals) + rest;
        let l = fields_len(ops, vals);
        assert(b =~= be32(l as u32) + (body + rest));
        lemma_be32_round_trip(l as u32, body + rest);
        assert(b.subrange(4, 4 + l as int) =~= body + Seq::<u8>::empty());
        lemma_fields_round_trip(ops, vals, Seq::<u8>::empty());
    } else {
        lemma_fields_round_trip(ops, vals, rest);
    }
}


/// The error type that a record's decoder reports.
#[derive(Clone, Debug, PartialEq, Eq)]
pub enum ErrorType {
    /// The codec's own error.
    Standard,
    /// A caller-chosen error type, named by its type reference text.
    Custom(Vec<u8>),
}

impl View for ErrorType {
    type V = Option<Seq<u8>>;

    open spec fn view(&self) -> Option<Seq<u8>> {
        match self {
            ErrorType::Standard => None,
            ErrorType::Custom(t) => Some(t@),
        }
    }
}

/// A decoding failure: the primitive failure, converted to the record's error type.
#[derive(Clone, Debug, PartialEq, Eq)]
pub struct DecodeError {
    pub error_type: ErrorType,
    pub cause: WireError,
}

/// The decoder synthesized for a record.
#[derive(Clone, Debug)]
pub struct DecodePlan {
    pub ident: Vec<u8>,
    pub fields: Vec<FieldOp>,
    pub positional: bool,
    pub length_prefixed: bool,
    pub error_type: ErrorType,
}

/// The length function and writer synthesized for a record.
#[derive(Clone, Debug)]
pub struct EncodePlan {
    pub ident: Vec<u8>,
    pub fields: Vec<FieldOp>,
    pub length_prefixed: bool,
}

/// The sum of `s`.
pub open spec fn usize_sum(s: Seq<usize>) -> int
    decreases s.len(),
{
    if s.len() == 0 { 0 } else { usize_sum(s.drop_last()) + s.last() }
}

/// The error type of `ssh_encoding`, carried opaquely.
#[verifier::external_type_specification]
#[verifier::external_body]
pub struct ExSshError(ssh_encoding::Error);

/// Relies on `ssh_encoding::CheckedSum::checked_sum`: a `try_fold` of `usize::checked_add`
/// from 0, failing exactly when a partial sum overflows.
#[verifier::external_body]
fn checked_sum(lens: &Vec<usize>) -> (r: Result<usize, ssh_encoding::Error>)
    ensures
        r is Ok <==> usize_sum(lens@) <= usize::MAX,
        r matches Ok(t) ==> t == usize_sum(lens@),
{
    ssh_encoding::CheckedSum::checked_sum(lens.iter().copied())
}

/// Decodes one field under `op` from the front of `buf[start..end]`.
fn decode_field_at(op: &FieldOp, buf: &[u8], start: usize, end: usize) -> (r: Result<(FieldValue, usize), WireError>)
    requires
        start <= end <= buf@.len(),
    ensures
        match r {
            Ok((v, n)) => {
                &&& decode_field(*op, buf@.subrange(start as int, end as int))
                    == Ok::<(WireValue, int), WireError>((v@, n as int))
                &&& n <= end - start
            },
            Err(e) => decode_field(*op, buf@.subrange(start as int, end as int)) == Err::<(WireValue, int), WireError>(e),
        },
{
    if !op.length_prefixed {
        return decode_value_at(op.ty, buf, start, end);
    }
    let (s, e) = match read_prefixed_region(buf, start, end) {
        Ok(p) => p,
        Err(err) => { return Err(err); },
    };
    assert(buf@.subrange(s as int, e as int) =~= buf@.subrange(start as int, end as int).subrange(s - start, e - start));
    match decode_value_at(op.ty, buf, s, e) {
        Err(err) => Err(err),
        Ok((v, m)) => if m == e - s { Ok((v, e - start)) } else { Err(WireError::TrailingData) },
    }
}

/// Decodes the fields of `ops`, in order, from the front of `buf[start..end]`.
fn decode_fields_at(ops: &Vec<FieldOp>, buf: &[u8], start: usize, end: usize) -> (r: Result<(Vec<FieldValue>, usize), WireError>)
    requires
        start <= end <= buf@.len(),
    ensures
        match r {
            Ok((vs, n)) => {
                &&& decode_fields(ops@, buf@.subrange(start as int, end as int))
                    == Ok::<(Seq<WireValue>, int), WireError>((values_view(vs@), n as int))
                &&& n <= end - start
            },
            Err(e) => decode_fields(ops@, buf@.subrange(start as int, end as int)) == Err::<(Seq<WireValue>, int), WireError>(e),
        },
{
    let ghost whole = buf@.subrange(start as int, end as int);
    let mut acc: Vec<FieldValue> = Vec::new();
    let mut pos: usize = start;
    let mut i: usize = 0;
    assert(ops@.subrange(0, ops@.len() as int) =~= ops@);
    assert(values_view(acc@) =~= Seq::<WireValue>::empty());
    while i < ops.len()
        invariant
            i <= ops@.len(),
            start <= pos <= end <= buf@.len(),
            whole == buf@.subrange(start as int, end as int),
            decode_fields(ops@, whole) == chain(values_view(acc@), pos - start,
                decode_fields(ops@.subrange(i as int, ops@.len() as int), buf@.subrange(pos as int, end as int))),
        decreases ops@.len() - i,
    {
        let ghost rest_ops = ops@.subrange(i as int, ops@.len() as int);
        let ghost here = buf@.subrange(pos as int, end as int);
        assert(rest_ops[0] == ops@[i as int]);
        assert(rest_ops.drop_first() =~= ops@.subrange(i + 1, ops@.len() as int));
        match decode_field_at(&ops[i], buf, pos, end) {
            Err(e) => {
                assert(decode_fields(rest_ops, here) == Err::<(Seq<WireValue>, int), WireError>(e));
                assert(decode_fields(ops@, whole) == Err::<(Seq<WireValue>, int), WireError>(e));
                return Err(e);
            },
            Ok((v, n)) => {
                assert(here.subrange(n as int, here.len() as int) =~= buf@.subrange(pos + n, end as int));
                let ghost old_acc = values_view(acc@);
                let ghost vv = v@;
                acc.push(v);
                assert(values_view(acc@) =~= old_acc + seq![vv]);
                pos = pos + n;
                i = i + 1;
                proof {
                    let r2 = decode_fields(ops@.subrange(i as int, ops@.len() as int), buf@.subrange(pos as int, end as int));
                    match r2 {
                        Ok((vs, m)) => { assert(old_acc + (seq![vv] + vs) =~= values_view(acc@) + vs); },
                        Err(_) => {},
                    }
                }
            },
        }
    }
    assert(ops@.subrange(i as int, ops@.len() as int) =~= Seq::<FieldOp>::empty());
    assert(values_view(acc@) + Seq::<WireValue>::empty() =~= values_view(acc@));
    assert(decode_fields(Seq::<FieldOp>::empty(), buf@.subrange(pos as int, end as int))
        == Ok::<(Seq<WireValue>, int), WireError>((Seq::<WireValue>::empty(), 0)));
    Ok((acc, pos - start))
}

impl DecodePlan {
    /// The field operations, as the spec functions read them.
    pub open spec fn ops(&self) -> Seq<FieldOp> {
        self.fields@
    }

    /// Decodes one record from the front of `buf`: the value and the bytes consumed.
    /// A failure is reported in the plan's error type.
    pub fn decode(&self, buf: &[u8]) -> (r: Result<(RecordValue, usize), DecodeError>)
        ensures
            match r {
                Ok((v, n)) => decode_record(self.length_prefixed, self.ops(), buf@)
                    == Ok::<(Seq<WireValue>, int), WireError>((v@, n as int)),
                Err(e) => {
                    &&& decode_record(self.length_prefixed, self.ops(), buf@)
                        == Err::<(Seq<WireValue>, int), WireError>(e.cause)
                    &&& e.error_type@ == self.error_type@
                },
            },
    {
        match self.decode_body(buf) {
            Ok(p) => Ok(p),
            Err(cause) => Err(DecodeError { error_type: self.error_type.clone_type(), cause }),
        }
    }

    fn decode_body(&self, buf: &[u8]) -> (r: Result<(RecordValue, usize), WireError>)
        ensures
            match r {
                Ok((v, n)) => decode_record(self.length_prefixed, self.ops(), buf@)
                    == Ok::<(Seq<WireValue>, int), WireError>((v@, n as int)),
                Err(e) => decode_record(self.length_prefixed, self.ops(), buf@) == Err::<(Seq<WireValue>, int), WireError>(e),
            },
    {
        assert(buf@.subrange(0, buf@.len() as int) =~= buf@);
        if !self.length_prefixed {
            let (fields, n) = decode_fields_at(&self.fields, buf, 0, buf.len())?;
            return Ok((RecordValue { fields }, n));
        }
        let (s, e) = read_prefixed_region(buf, 0, buf.len())?;
        assert(buf@.subrange(s as int, e as int) =~= buf@.subrange(0, buf@.len() as int).subrange(s as int, e as int));
        let (fields, m) = decode_fields_at(&self.fields, buf, s, e)?;
        if m == e - s {
            Ok((RecordValue { fields }, e))
        } else {
            Err(WireError::TrailingData)
        }
    }
}

impl ErrorType {
    /// A copy of this error type.
    pub fn clone_type(&self) -> (r: ErrorType)
        ensures
            r@ == self@,
    {
        match self {
            ErrorType::Standard => ErrorType::Standard,
            ErrorType::Custom(t) => ErrorType::Custom(t.clone()),
        }
    }
}


impl EncodePlan {
    /// The field operations, as the spec functions read them.
    pub open spec fn ops(&self) -> Seq<FieldOp> {
        self.fields@
    }

    /// Whether `v` holds one value of the right type for each field.
    pub open spec fn accepts(&self, v: Seq<WireValue>) -> bool {
        well_typed(self.ops(), v)
    }

    /// Whether `v` holds one value of the right type for each field, which `encoded_len`
    /// and `encode` ask of their argument.
    pub fn accepts_value(&self, v: &RecordValue) -> (r: bool)
        ensures
            r == self.accepts(v@),
    {
        if v.fields.len() != self.fields.len() {
            return false;
        }
        let mut i: usize = 0;
        while i < self.fields.len()
            invariant
                v.fields@.len() == self.fields@.len(),
                i <= self.fields@.len(),
                forall|j: int| 0 <= j < i ==> has_type(#[trigger] self.ops()[j].ty, v@[j]),
            decreases self.fields@.len() - i,
        {
            if !value_has_type(self.fields[i].ty, &v.fields[i]) {
                return false;
            }
            i = i + 1;
        }
        true
    }

    /// The exact number of bytes that `encode` writes for `v`: the checked sum of the
    /// field lengths, in order, plus four for an outer prefix.
    pub fn encoded_len(&self, v: &RecordValue) -> (r: Result<usize, WireError>)
        requires
            self.accepts(v@),
        ensures
            r == encoded_len_outcome(self.length_prefixed, self.ops(), v@),
    {
        let ghost ops = self.ops();
        let ghost vals = v@;
        let mut lens: Vec<usize> = Vec::new();
        if self.length_prefixed {
            lens.push(4);
        }
        let ghost base: int = if self.length_prefixed { 4 } else { 0 };
        assert(usize_sum(lens@) == base) by {
            if self.length_prefixed {
                assert(lens@.drop_last() =~= Seq::<usize>::empty());
                assert(usize_sum(lens@.drop_last()) == 0);
            } else {
                assert(lens@ =~= Seq::<usize>::empty());
            }
        }
        let mut i: usize = 0;
        assert(vals.take(0) =~= Seq::<WireValue>::empty());
        while i < self.fields.len()
            invariant
                ops == self.ops(),
                vals == v@,
                self.accepts(vals),
                i <= ops.len(),
                base == (if self.length_prefixed { 4int } else { 0int }),
                usize_sum(lens@) == base + fields_len(ops, vals.take(i as int)),
            decreases ops.len() - i,
        {
            assert(vals.take(i + 1).drop_last() =~= vals.take(i as int));
            assert(v.fields@[i as int]@ == vals[i as int]);
            let n = match value_encoded_len(&v.fields[i]) {
                Some(n) => n,
                None => {
                    proof { lemma_field_len_le(ops, vals, i as int); }
                    return Err(WireError::Length);
                },
            };
            let f = if self.fields[i].length_prefixed {
                match n.checked_add(4) {
                    Some(f) => f,
                    None => {
                        proof { lemma_field_len_le(ops, vals, i as int); }
                        return Err(WireError::Length);
                    },
                }
            } else {
                n
            };
            let ghost before = lens@;
            lens.push(f);
            assert(lens@.drop_last() =~= before);
            i = i + 1;
        }
        assert(vals.take(i as int) =~= vals);
        match checked_sum(&lens) {
            Ok(t) => Ok(t),
            Err(_) => Err(WireError::Length),
        }
    }
    /// Writes `v`: an outer prefix holding the body length where the record is
    /// length-prefixed, then each field in order, each in its own prefixed region where
    /// the field asks for one. Nothing is written when the record cannot be encoded.
    pub fn encode(&self, v: &RecordValue, out: &mut Vec<u8>) -> (r: Result<(), WireError>)
        requires
            self.accepts(v@),
        ensures
            match r {
                Ok(_) => {
                    &&& encode_outcome(self.length_prefixed, self.ops(), v@) is Ok
                    &&& final(out)@ == old(out)@ + encode_record(self.length_prefixed, self.ops(), v@)
                    &&& final(out)@.len() == old(out)@.len() + record_len(self.length_prefixed, self.ops(), v@)
                },
                Err(e) => {
                    &&& encode_outcome(self.length_prefixed, self.ops(), v@) == Err::<Seq<u8>, WireError>(e)
                    &&& final(out)@ == old(out)@
                },
            },
    {
        let ghost ops = self.ops();
        let ghost vals = v@;
        let total = self.encoded_len(v)?;
        let mut i: usize = 0;
        while i < self.fields.len()
            invariant
                ops == self.ops(),
                vals == v@,
                self.accepts(vals),
                i <= ops.len(),
                record_len(self.length_prefixed, ops, vals) == total,
                forall|j: int| 0 <= j < i ==> field_fits(#[trigger] ops[j], vals[j]),
            decreases ops.len() - i,
        {
            assert(v.fields@[i as int]@ == vals[i as int]);
            proof { lemma_field_len_le(ops, vals, i as int); }
            if !value_fits(&v.fields[i]) {
                return Err(WireError::Overflow);
            }
            if self.fields[i].length_prefixed {
                match value_encoded_len(&v.fields[i]) {
                    Some(n) => {
                        if n > 0xFFFF_FFFFusize {
                            return Err(WireError::Overflow);
                        }
                    },
                    None => { return Err(WireError::Length); },
                }
            }
            i = i + 1;
        }
        let ghost start = out@;
        let ghost header: Seq<u8> = if self.length_prefixed { be32(fields_len(ops, vals) as u32) } else { Seq::empty() };
        if self.length_prefixed {
            let body = total - 4;
            if body > 0xFFFF_FFFFusize {
                return Err(WireError::Overflow);
            }
            push_be32(out, body as u32);
        }
        assert(out@ =~= start + header);
        let mut i: usize = 0;
        assert(vals.take(0) =~= Seq::<WireValue>::empty());
        while i < self.fields.len()
            invariant
                ops == self.ops(),
                vals == v@,
                self.accepts(vals),
                i <= ops.len(),
                record_len(self.length_prefixed, ops, vals) == total,
                all_fit(ops, vals),
                out@ == start + header + encode_fields(ops, vals.take(i as int)),
            decreases ops.len() - i,
        {
            assert(vals.take(i + 1).drop_last() =~= vals.take(i as int));
            assert(v.fields@[i as int]@ == vals[i as int]);
            assert(field_fits(ops[i as int], vals[i as int]));
            proof { lemma_field_len_le(ops, vals, i as int); }
            let ghost before = out@;
            if self.fields[i].length_prefixed {
                match value_encoded_len(&v.fields[i]) {
                    Some(n) => { push_be32(out, n as u32); },
                    None => { return Err(WireError::Length); },
                }
            }
            encode_value_into(&v.fields[i], out);
            assert(out@ =~= before + encode_field(ops[i as int], vals[i as int]));
            i = i + 1;
        }
        assert(vals.take(i as int) =~= vals);
        proof {
            lemma_encode_fields_len(ops, vals);
            lemma_be32_len(fields_len(ops, vals) as u32);
        }
        assert(out@ =~= start + encode_record(self.length_prefixed, ops, vals));
        Ok(())
    }

    /// The encoding of `v` as a new byte vector.
    pub fn encode_vec(&self, v: &RecordValue) -> (r: Result<Vec<u8>, WireError>)
        requires
            self.accepts(v@),
        ensures
            match r {
                Ok(b) => encode_outcome(self.length_prefixed, self.ops(), v@) == Ok::<Seq<u8>, WireError>(b@),
                Err(e) => encode_outcome(self.length_prefixed, self.ops(), v@) == Err::<Seq<u8>, WireError>(e),
            },
    {
        let mut out: Vec<u8> = Vec::new();
        self.encode(v, &mut out)?;
        assert(out@ =~= Seq::<u8>::empty() + encode_record(self.length_prefixed, self.ops(), v@));
        Ok(out)
    }
}


/// Whether two operation lists read and write the same types with the same prefixes.
pub open spec fn same_shape(a: Seq<FieldOp>, b: Seq<FieldOp>) -> bool {
    &&& a.len() == b.len()
    &&& forall|i: int| 0 <= i < a.len() ==> (#[trigger] a[i]).ty == b[i].ty && a[i].length_prefixed == b[i].length_prefixed
}

/// Decoding depends on the fields' types and prefixes only.
pub proof fn lemma_decode_same_shape(prefixed: bool, a: Seq<FieldOp>, b: Seq<FieldOp>, bytes: Seq<u8>)
    requires
        same_shape(a, b),
    ensures
        decode_record(prefixed, a, bytes) == decode_record(prefixed, b, bytes),
{
    lemma_decode_fields_same_shape(a, b, bytes);
    if prefixed {
        match prefixed_region(bytes) {
            Ok((s, e)) => { lemma_decode_fields_same_shape(a, b, bytes.subrange(s, e)); },
            Err(_) => {},
        }
    }
}

proof fn lemma_decode_fields_same_shape(a: Seq<FieldOp>, b: Seq<FieldOp>, bytes: Seq<u8>)
    requires
        same_shape(a, b),
    ensures
        decode_fields(a, bytes) == decode_fields(b, bytes),
    decreases a.len(),
{
    if a.len() > 0 {
        assert(a[0].ty == b[0].ty && a[0].length_prefixed == b[0].length_prefixed);
        assert(decode_field(a[0], bytes) == decode_field(b[0], bytes));
        assert forall|i: int| 0 <= i < a.drop_first().len() implies
            (#[trigger] a.drop_first()[i]).ty == b.drop_first()[i].ty
            && a.drop_first()[i].length_prefixed == b.drop_first()[i].length_prefixed by {
            assert(a[i + 1].ty == b[i + 1].ty);
        }
        match decode_field(a[0], bytes) {
            Ok((v, n)) => {
                if 0 <= n <= bytes.len() {
                    lemma_decode_fields_same_shape(a.drop_first(), b.drop_first(), bytes.subrange(n, bytes.len() as int));
                }
            },
            Err(_) => {},
        }
    }
}

/// In a length-prefixed record that can be written, the first four bytes hold,
/// big-endian, the number of bytes that follow them.
pub proof fn law_record_prefix(ops: Seq<FieldOp>, vals: Seq<WireValue>)
    requires
        encode_outcome(true, ops, vals) is Ok,
    ensures
        encode_record(true, ops, vals).len() >= 4,
        read_be32(encode_record(true, ops, vals)) == encode_record(true, ops, vals).len() - 4,
{
    lemma_encode_fields_len(ops, vals);
    lemma_be32_round_trip(fields_len(ops, vals) as u32, encode_fields(ops, vals));
}

/// In a length-prefixed field that can be written, the first four bytes hold,
/// big-endian, the number of bytes that follow them.
pub proof fn law_field_prefix(op: FieldOp, v: WireValue)
    requires
        op.length_prefixed,
        field_fits(op, v),
    ensures
        encode_field(op, v).len() >= 4,
        read_be32(encode_field(op, v)) == encode_field(op, v).len() - 4,
{
    lemma_encode_value_len(v);
    lemma_be32_round_trip(value_len(v) as u32, encode_value(v));
}

/// The bytes of fields `j..k`, in order.
pub open spec fn encode_span(ops: Seq<FieldOp>, vals: Seq<WireValue>, j: int, k: int) -> Seq<u8>
    decreases k - j,
{
    if k <= j { Seq::empty() } else { encode_span(ops, vals, j, k - 1) + encode_field(ops[k - 1], vals[k - 1]) }
}

/// The first `k` fields are written as the first `j` then fields `j..k`.
pub proof fn lemma_encode_split(ops: Seq<FieldOp>, vals: Seq<WireValue>, j: int, k: int)
    requires
        0 <= j <= k <= vals.len(),
    ensures
        encode_fields(ops, vals.take(k)) == encode_fields(ops, vals.take(j)) + encode_span(ops, vals, j, k),
    decreases k - j,
{
    if k > j {
        lemma_encode_split(ops, vals, j, k - 1);
        assert(vals.take(k).drop_last() =~= vals.take(k - 1));
        assert(encode_fields(ops, vals.take(k)) =~= encode_fields(ops, vals.take(j)) + encode_span(ops, vals, j, k));
    } else {
        assert(encode_fields(ops, vals.take(j)) + Seq::<u8>::empty() =~= encode_fields(ops, vals.take(j)));
    }
}

/// Fields `j..k` are written alike where the operations and values agree on them.
pub proof fn lemma_encode_span_agree(
    a: Seq<FieldOp>, u: Seq<WireValue>, b: Seq<FieldOp>, w: Seq<WireValue>, j: int, k: int,
)
    requires
        0 <= j <= k,
        k <= a.len(), k <= u.len(), k <= b.len(), k <= w.len(),
        forall|i: int| j <= i < k ==> a[i] == b[i] && u[i] == w[i],
    ensures
        encode_span(a, u, j, k) == encode_span(b, w, j, k),
    decreases k - j,
{
    if k > j {
        lemma_encode_span_agree(a, u, b, w, j, k - 1);
    }
}

/// `s` with its entries at `i` and `j` exchanged.
pub open spec fn swap<A>(s: Seq<A>, i: int, j: int) -> Seq<A> {
    s.update(i, s[j]).update(j, s[i])
}

/// Field order is observable: exchanging two fields `i < j` of a record, in the schema and
/// in the value alike, changes the bytes written, unless the bytes from field `i` to field
/// `j` read the same in either order.
pub proof fn law_field_order(prefixed: bool, ops: Seq<FieldOp>, vals: Seq<WireValue>, i: int, j: int)
    requires
        ops.len() == vals.len(),
        0 <= i < j < vals.len(),
        encode_field(ops[i], vals[i]) + encode_span(ops, vals, i + 1, j) + encode_field(ops[j], vals[j])
            != encode_field(ops[j], vals[j]) + encode_span(ops, vals, i + 1, j) + encode_field(ops[i], vals[i]),
    ensures
        encode_record(prefixed, swap(ops, i, j), swap(vals, i, j)) != encode_record(prefixed, ops, vals),
{
    let n = vals.len() as int;
    let ops2 = swap(ops, i, j);
    let vals2 = swap(vals, i, j);
    let x = encode_field(ops[i], vals[i]);
    let y = encode_field(ops[j], vals[j]);
    let mid = encode_span(ops, vals, i + 1, j);
    assert(vals.take(n) =~= vals);
    assert(vals2.take(n) =~= vals2);
    assert(vals.take(0) =~= Seq::<WireValue>::empty());
    assert(vals2.take(0) =~= Seq::<WireValue>::empty());
    lemma_encode_split(ops, vals, 0, i);
    lemma_encode_split(ops2, vals2, 0, i);
    lemma_encode_split(ops, vals, i, i + 1);
    lemma_encode_split(ops2, vals2, i, i + 1);
    lemma_encode_split(ops, vals, i + 1, j);
    lemma_encode_split(ops2, vals2, i + 1, j);
    lemma_encode_split(ops, vals, j, j + 1);
    lemma_encode_split(ops2, vals2, j, j + 1);
    lemma_encode_split(ops, vals, j + 1, n);
    lemma_encode_split(ops2, vals2, j + 1, n);
    lemma_encode_span_agree(ops, vals, ops2, vals2, 0, i);
    lemma_encode_span_agree(ops, vals, ops2, vals2, i + 1, j);
    lemma_encode_span_agree(ops, vals, ops2, vals2, j + 1, n);
    assert(ops2[i] == ops[j] && vals2[i] == vals[j]);
    assert(ops2[j] == ops[i] && vals2[j] == vals[i]);
    assert(encode_span(ops, vals, i, i) == Seq::<u8>::empty());
    assert(encode_span(ops2, vals2, i, i) == Seq::<u8>::empty());
    assert(encode_span(ops, vals, j, j) == Seq::<u8>::empty());
    assert(encode_span(ops2, vals2, j, j) == Seq::<u8>::empty());
    assert(encode_span(ops, vals, i, i + 1) =~= x);
    assert(encode_span(ops2, vals2, i, i + 1) =~= y);
    assert(encode_span(ops, vals, j, j + 1) =~= y);
    assert(encode_span(ops2, vals2, j, j + 1) =~= x);
    let front = encode_fields(ops, vals.take(i));
    let back = encode_span(ops, vals, j + 1, n);
    assert(encode_fields(ops2, vals2.take(i)) =~= front);
    let e1 = encode_fields(ops, vals);
    let e2 = encode_fields(ops2, vals2);
    assert(e1 =~= front + (x + mid + y) + back);
    assert(e2 =~= front + (y + mid + x) + back);
    if e1 == e2 {
        let l = (x + mid + y).len();
        assert((y + mid + x).len() == l);
        assert(e1.subrange(front.len() as int, front.len() + l as int) =~= x + mid + y);
        assert(e2.subrange(front.len() as int, front.len() + l as int) =~= y + mid + x);
    }
    assert(e1 != e2);
    if prefixed {
        if encode_record(prefixed, ops2, vals2) == encode_record(prefixed, ops, vals) {
            let r = encode_record(prefixed, ops, vals);
            assert(r.subrange(4, r.len() as int) =~= e1);
            assert(r.subrange(4, r.len() as int) =~= e2);
        }
    }
}

/// Where field `k` stands in the field bytes: after the bytes of the fields before it, and
/// for a length-prefixed field, as a big-endian count of exactly its own bytes followed by them.
pub proof fn law_field_segment(ops: Seq<FieldOp>, vals: Seq<WireValue>, k: int)
    requires
        0 <= k < vals.len(),
        ops.len() == vals.len(),
    ensures
        ({
            let off = fields_len(ops, vals.take(k)) as int;
            let seg = encode_fields(ops, vals).subrange(off, off + field_len(ops[k], vals[k]));
            &&& seg == encode_field(ops[k], vals[k])
            &&& ops[k].length_prefixed ==> seg == be32(value_len(vals[k]) as u32) + encode_value(vals[k])
        }),
{
    let n = vals.len() as int;
    assert(vals.take(n) =~= vals);
    lemma_encode_split(ops, vals, k, k + 1);
    lemma_encode_split(ops, vals, k + 1, n);
    assert(encode_span(ops, vals, k, k) == Seq::<u8>::empty());
    assert(encode_span(ops, vals, k, k + 1) =~= encode_field(ops[k], vals[k]));
    lemma_encode_fields_len(ops, vals.take(k));
    lemma_encode_value_len(vals[k]);
    let front = encode_fields(ops, vals.take(k));
    let x = encode_field(ops[k], vals[k]);
    let e = encode_fields(ops, vals);
    assert(e =~= front + x + encode_span(ops, vals, k + 1, n));
    assert(e.subrange(front.len() as int, front.len() + x.len() as int) =~= x);
}

/// Decoding a length-prefixed record reads the four-byte count `n` first, then decodes the
/// fields from exactly the `n` bytes after it; fewer than `n` bytes, or fields that do not
/// fill those bytes exactly, are an error.
pub proof fn law_decode_record_prefix(ops: Seq<FieldOp>, n: u32, rest: Seq<u8>)
    ensures
        rest.len() < n ==> decode_record(true, ops, be32(n) + rest)
            == Err::<(Seq<WireValue>, int), WireError>(WireError::Length),
        rest.len() >= n ==> decode_record(true, ops, be32(n) + rest) == match decode_fields(ops, rest.take(n as int)) {
            Ok((vs, m)) => if m == n {
                Ok::<(Seq<WireValue>, int), WireError>((vs, 4 + n))
            } else {
                Err(WireError::TrailingData)
            },
            Err(e) => Err(e),
        },
{
    let b = be32(n) + rest;
    lemma_be32_round_trip(n, rest);
    if rest.len() >= n {
        assert(b.subrange(4, 4 + n as int) =~= rest.take(n as int));
    }
}

/// Decoding a length-prefixed field reads the four-byte count `m` first, then decodes the
/// value from exactly the `m` bytes after it; fewer than `m` bytes, or a value that does
/// not fill those bytes exactly, are an error.
pub proof fn law_decode_field_prefix(op: FieldOp, m: u32, rest: Seq<u8>)
    requires
        op.length_prefixed,
    ensures
        rest.len() < m ==> decode_field(op, be32(m) + rest) == Err::<(WireValue, int), WireError>(WireError::Length),
        rest.len() >= m ==> decode_field(op, be32(m) + rest) == match decode_value(op.ty, rest.take(m as int)) {
            Ok((v, k)) => if k == m {
                Ok::<(WireValue, int), WireError>((v, 4 + m))
            } else {
                Err(WireError::TrailingData)
            },
            Err(e) => Err(e),
        },
{
    let b = be32(m) + rest;
    lemma_be32_round_trip(m, rest);
    if rest.len() >= m {
        assert(b.subrange(4, 4 + m as int) =~= rest.take(m as int));
    }
}

/// What `encode` writes has exactly the length that `encoded_len` reports.
pub proof fn law_length_exact(prefixed: bool, ops: Seq<FieldOp>, vals: Seq<WireValue>)
    requires
        encode_outcome(prefixed, ops, vals) is Ok,
    ensures
        encoded_len_outcome(prefixed, ops, vals)
            == Ok::<usize, WireError>(encode_record(prefixed, ops, vals).len() as usize),
{
    lemma_encode_fields_len(ops, vals);
    lemma_be32_len(fields_len(ops, vals) as u32);
}

} // verus!
