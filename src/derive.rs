//! The generator entry points: from a record's schema to its decoder and encoder plans.

use vstd::prelude::*;
use crate::attributes::{
    lemma_unknown_attribute_fails, ssh_word, unknown_name, Attribute, AttributeError,
    ContainerAttributes, Fault, FieldAttributes, Settings,
};
use crate::codec::{
    all_legal, decode_record, lemma_decode_same_shape, same_shape, encode_outcome, encode_record, lemma_record_round_trip, record_len, DecodePlan,
    EncodePlan, FieldOp,
};
use crate::wire::{FieldType, WireError, WireValue};

verus! {

/// The kind of type definition that a schema describes.
#[derive(Clone, Copy, Debug, PartialEq, Eq, Structural)]
pub enum DataKind {
    Struct,
    Enum,
    Union,
}

/// One field of a record schema: its name (absent in a positional record), its type and
/// its attributes.
#[derive(Clone, Debug)]
pub struct FieldSchema {
    pub name: Option<Vec<u8>>,
    pub ty: FieldType,
    pub attrs: Vec<Attribute>,
}

/// The schema of one type definition: its name, kind, attributes and fields in
/// declaration order.
#[derive(Clone, Debug)]
pub struct DeriveInput {
    pub ident: Vec<u8>,
    pub data: DataKind,
    pub attrs: Vec<Attribute>,
    pub fields: Vec<FieldSchema>,
}

/// Why no codec can be generated for a schema.
#[derive(Clone, Debug, PartialEq, Eq)]
pub enum GenerationError {
    /// Only records can have a codec.
    UnsupportedKind(DataKind),
    /// A record without fields.
    NoFields,
    /// A record modifier that is not accepted.
    Attribute(AttributeError),
    /// A modifier of the field with the given index that is not accepted.
    FieldAttribute(usize, AttributeError),
}

/// The mathematical model of a generation error.
pub enum GenerationFault {
    UnsupportedKind(DataKind),
    NoFields,
    Attribute(Fault),
    FieldAttribute(int, Fault),
}

impl View for GenerationError {
    type V = GenerationFault;

    open spec fn view(&self) -> GenerationFault {
        match self {
            GenerationError::UnsupportedKind(k) => GenerationFault::UnsupportedKind(*k),
            GenerationError::NoFields => GenerationFault::NoFields,
            GenerationError::Attribute(e) => GenerationFault::Attribute(e@),
            GenerationError::FieldAttribute(i, e) => GenerationFault::FieldAttribute(*i as int, e@),
        }
    }
}

pub open spec fn name_view(n: Option<Vec<u8>>) -> Option<Seq<u8>> {
    match n {
        Some(v) => Some(v@),
        None => None,
    }
}

/// The field-level prefix flags of the first `k` fields, or the first modifier error and
/// the index of its field.
pub open spec fn fields_settings(fields: Seq<FieldSchema>, k: int) -> Result<Seq<bool>, (int, Fault)>
    decreases k,
{
    if k <= 0 {
        Ok(Seq::empty())
    } else {
        match fields_settings(fields, k - 1) {
            Err(e) => Err(e),
            Ok(s) => match FieldAttributes::settings(fields[k - 1].attrs@) {
                Err(e) => Err((k - 1, e)),
                Ok(c) => Ok(s.push(c.1)),
            },
        }
    }
}

/// What generation makes of a schema: the record settings and the field prefix flags,
/// or why it fails. Kind first, then fields, then record modifiers, then field modifiers.
pub open spec fn derive_settings(input: DeriveInput) -> Result<(Settings, Seq<bool>), GenerationFault> {
    if input.data != DataKind::Struct {
        Err(GenerationFault::UnsupportedKind(input.data))
    } else if input.fields@.len() == 0 {
        Err(GenerationFault::NoFields)
    } else {
        match ContainerAttributes::settings(input.attrs@) {
            Err(e) => Err(GenerationFault::Attribute(e)),
            Ok(c) => match fields_settings(input.fields@, input.fields@.len() as int) {
                Err(e) => Err(GenerationFault::FieldAttribute(e.0, e.1)),
                Ok(p) => Ok((c, p)),
            },
        }
    }
}

/// Whether `ops` holds, for each field in declaration order, its name, its type and its
/// prefix flag.
pub open spec fn ops_follow(ops: Seq<FieldOp>, fields: Seq<FieldSchema>, prefixed: Seq<bool>) -> bool {
    &&& ops.len() == fields.len()
    &&& prefixed.len() == fields.len()
    &&& forall|i: int| 0 <= i < ops.len() ==> {
        &&& (#[trigger] ops[i]).ty == fields[i].ty
        &&& ops[i].length_prefixed == prefixed[i]
        &&& name_view(ops[i].name) == name_view(fields[i].name)
    }
}

/// Whether some field of `fields` has no name.
pub open spec fn is_positional(fields: Seq<FieldSchema>) -> bool {
    exists|i: int| 0 <= i < fields.len() && (#[trigger] fields[i]).name is None
}

/// Whether `p` is the decoder plan of `input`.
pub open spec fn decodes(p: DecodePlan, input: DeriveInput) -> bool {
    match derive_settings(input) {
        Ok((c, pre)) => {
            &&& p.ident@ == input.ident@
            &&& p.error_type@ == c.0
            &&& p.length_prefixed == c.1
            &&& p.positional == is_positional(input.fields@)
            &&& ops_follow(p.fields@, input.fields@, pre)
        },
        Err(_) => false,
    }
}

/// Whether `p` is the encoder plan of `input`.
pub open spec fn encodes(p: EncodePlan, input: DeriveInput) -> bool {
    match derive_settings(input) {
        Ok((c, pre)) => {
            &&& p.ident@ == input.ident@
            &&& p.length_prefixed == c.1
            &&& ops_follow(p.fields@, input.fields@, pre)
        },
        Err(_) => false,
    }
}

fn clone_bytes(v: &Vec<u8>) -> (r: Vec<u8>)
    ensures
        r@ == v@,
{
    v.clone()
}

fn clone_name(n: &Option<Vec<u8>>) -> (r: Option<Vec<u8>>)
    ensures
        name_view(r) == name_view(*n),
{
    match n {
        Some(v) => Some(clone_bytes(v)),
        None => None,
    }
}

/// The field operations of `fields` in declaration order, and whether some field has no name.
fn derive_for_fields(fields: &Vec<FieldSchema>) -> (r: Result<(Vec<FieldOp>, bool), (usize, AttributeError)>)
    ensures
        match fields_settings(fields@, fields@.len() as int) {
            Ok(pre) => r matches Ok((ops, positional)) && ops_follow(ops@, fields@, pre)
                && positional == is_positional(fields@),
            Err(e) => r matches Err((i, f)) && i == e.0 && f@ == e.1,
        },
{
    let mut ops: Vec<FieldOp> = Vec::new();
    let mut positional = false;
    let ghost mut pre: Seq<bool> = Seq::empty();
    let mut k: usize = 0;
    while k < fields.len()
        invariant
            k <= fields@.len(),
            fields_settings(fields@, k as int) == Ok::<Seq<bool>, (int, Fault)>(pre),
            ops_follow(ops@, fields@.take(k as int), pre),
            positional == is_positional(fields@.take(k as int)),
        decreases fields@.len() - k,
    {
        let field = &fields[k];
        let attrs = match FieldAttributes::try_from(&field.attrs) {
            Ok(a) => a,
            Err(f) => {
                proof { lemma_fields_error_stays(fields@, k + 1, fields@.len() as int); }
                return Err((k, f));
            },
        };
        let ghost old_take = fields@.take(k as int);
        let ghost old_pos = positional;
        if field.name.is_none() {
            positional = true;
        }
        ops.push(FieldOp { name: clone_name(&field.name), ty: field.ty, length_prefixed: attrs.length_prefixed });
        proof {
            pre = pre.push(attrs.length_prefixed);
            let t = fields@.take(k + 1);
            assert(t =~= old_take.push(fields@[k as int]));
            assert(ops_follow(ops@, t, pre)) by {
                assert forall|i: int| 0 <= i < ops@.len() implies {
                    &&& (#[trigger] ops@[i]).ty == t[i].ty
                    &&& ops@[i].length_prefixed == pre[i]
                    &&& name_view(ops@[i].name) == name_view(t[i].name)
                } by {
                    if i < k {
                        assert(old_take[i] == t[i]);
                    }
                }
            }
            if old_pos {
                let j = choose|j: int| 0 <= j < old_take.len() && (#[trigger] old_take[j]).name is None;
                assert(t[j] == old_take[j]);
            }
            if positional && !old_pos {
                assert(t[k as int].name is None);
            }
            if !positional {
                assert forall|j: int| 0 <= j < t.len() implies !((#[trigger] t[j]).name is None) by {
                    if j < k {
                        assert(old_take[j] == t[j]);
                    }
                }
            }
        }
        k = k + 1;
    }
    assert(fields@.take(k as int) =~= fields@);
    Ok((ops, positional))
}

/// Once a field fails, every longer run of fields fails the same way.
pub proof fn lemma_fields_error_stays(fields: Seq<FieldSchema>, k: int, n: int)
    requires
        0 < k <= n,
        fields_settings(fields, k) is Err,
    ensures
        fields_settings(fields, n) == fields_settings(fields, k),
    decreases n - k,
{
    if n > k {
        lemma_fields_error_stays(fields, k, n - 1);
    }
}

/// Generates the decoder plan of a record: each field decoded in declaration order,
/// from its own prefixed region where the field asks for one, the whole inside an
/// outer prefixed region where the record asks for one.
pub fn try_derive_decode(input: &DeriveInput) -> (r: Result<DecodePlan, GenerationError>)
    ensures
        match derive_settings(*input) {
            Ok(_) => r matches Ok(p) && decodes(p, *input),
            Err(e) => r matches Err(g) && g@ == e,
        },
{
    match input.data {
        DataKind::Struct => {},
        _ => { return Err(GenerationError::UnsupportedKind(input.data)); },
    }
    if input.fields.len() == 0 {
        return Err(GenerationError::NoFields);
    }
    let container = match ContainerAttributes::try_from(&input.attrs) {
        Ok(c) => c,
        Err(e) => { return Err(GenerationError::Attribute(e)); },
    };
    let (fields, positional) = match derive_for_fields(&input.fields) {
        Ok(p) => p,
        Err((i, e)) => { return Err(GenerationError::FieldAttribute(i, e)); },
    };
    Ok(DecodePlan {
        ident: clone_bytes(&input.ident),
        fields,
        positional,
        length_prefixed: container.length_prefixed,
        error_type: container.decode_error_type,
    })
}

/// Generates the encoder plan of a record: the same fields in the same order, with the
/// same field and record prefixes as its decoder.
pub fn try_derive_encode(input: &DeriveInput) -> (r: Result<EncodePlan, GenerationError>)
    ensures
        match derive_settings(*input) {
            Ok(_) => r matches Ok(p) && encodes(p, *input),
            Err(e) => r matches Err(g) && g@ == e,
        },
{
    match input.data {
        DataKind::Struct => {},
        _ => { return Err(GenerationError::UnsupportedKind(input.data)); },
    }
    if input.fields.len() == 0 {
        return Err(GenerationError::NoFields);
    }
    let container = match ContainerAttributes::try_from(&input.attrs) {
        Ok(c) => c,
        Err(e) => { return Err(GenerationError::Attribute(e)); },
    };
    let (fields, _) = match derive_for_fields(&input.fields) {
        Ok(p) => p,
        Err((i, e)) => { return Err(GenerationError::FieldAttribute(i, e)); },
    };
    Ok(EncodePlan { ident: clone_bytes(&input.ident), fields, length_prefixed: container.length_prefixed })
}


/// For every record schema from which both procedures generate, decoding what the
/// encoder wrote for a legal value gives that value back, consuming exactly the bytes
/// written, whatever follows them.
pub proof fn law_round_trip(input: DeriveInput, dp: DecodePlan, ep: EncodePlan, vals: Seq<WireValue>, rest: Seq<u8>)
    requires
        decodes(dp, input),
        encodes(ep, input),
        all_legal(ep.ops(), vals),
        encode_outcome(ep.length_prefixed, ep.ops(), vals) is Ok,
    ensures
        decode_record(dp.length_prefixed, dp.ops(), encode_record(ep.length_prefixed, ep.ops(), vals) + rest)
            == Ok::<(Seq<WireValue>, int), WireError>((vals, record_len(ep.length_prefixed, ep.ops(), vals) as int)),
{
    assert(same_shape(dp.ops(), ep.ops())) by {
        assert forall|i: int| 0 <= i < dp.ops().len() implies
            (#[trigger] dp.ops()[i]).ty == ep.ops()[i].ty && dp.ops()[i].length_prefixed == ep.ops()[i].length_prefixed by {
            assert(dp.fields@[i].ty == input.fields@[i].ty);
            assert(ep.fields@[i].ty == input.fields@[i].ty);
        }
    }
    lemma_record_round_trip(ep.length_prefixed, ep.ops(), vals, rest);
    lemma_decode_same_shape(
        dp.length_prefixed, dp.ops(), ep.ops(), encode_record(ep.length_prefixed, ep.ops(), vals) + rest);
}

/// A record with an `ssh` attribute whose list holds, at any place, a name that records
/// do not accept gets no codec.
pub proof fn law_unknown_record_modifier(input: DeriveInput, a: int, j: int)
    requires
        0 <= a < input.attrs@.len(),
        input.attrs@[a].path@ == ssh_word(),
        input.attrs@[a].tokens is Some,
        0 <= j < input.attrs@[a].tokens->Some_0@.len(),
        unknown_name(input.attrs@[a].tokens->Some_0@[j], true),
    ensures
        derive_settings(input) is Err,
{
    lemma_unknown_attribute_fails(input.attrs@, a, j, true);
}

/// A record with a field whose `ssh` attribute holds, at any place, a name that fields do
/// not accept (`decode_error` among them) gets no codec.
pub proof fn law_unknown_field_modifier(input: DeriveInput, f: int, a: int, j: int)
    requires
        0 <= f < input.fields@.len(),
        0 <= a < input.fields@[f].attrs@.len(),
        input.fields@[f].attrs@[a].path@ == ssh_word(),
        input.fields@[f].attrs@[a].tokens is Some,
        0 <= j < input.fields@[f].attrs@[a].tokens->Some_0@.len(),
        unknown_name(input.fields@[f].attrs@[a].tokens->Some_0@[j], false),
    ensures
        derive_settings(input) is Err,
{
    lemma_unknown_attribute_fails(input.fields@[f].attrs@, a, j, false);
    assert(fields_settings(input.fields@, f + 1) is Err);
    lemma_fields_error_stays(input.fields@, f + 1, input.fields@.len() as int);
}

/// A record without fields gets neither a decoder nor an encoder.
pub proof fn law_no_fields(input: DeriveInput)
    requires
        input.data == DataKind::Struct,
        input.fields@.len() == 0,
    ensures
        derive_settings(input) == Err::<(Settings, Seq<bool>), GenerationFault>(GenerationFault::NoFields),
{
}

} // verus!
