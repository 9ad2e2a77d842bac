//! Interpreting the `ssh(...)` modifiers of a record and of its fields.

use vstd::prelude::*;
use crate::codec::ErrorType;

verus! {

/// One token of a modifier list.
#[derive(Clone, Debug, PartialEq, Eq)]
pub enum Token {
    Ident(Vec<u8>),
    Comma,
    /// A parenthesized group, holding its contents as source text.
    Paren(Vec<u8>),
    /// Any other punctuation, literal or group.
    Other,
}

/// An attribute as written on a record or a field: its path, and the tokens inside its
/// parentheses (`None` where the attribute has no parenthesized list).
#[derive(Clone, Debug, PartialEq, Eq)]
pub struct Attribute {
    pub path: Vec<u8>,
    pub tokens: Option<Vec<Token>>,
}

/// The kinds of modifier error.
#[derive(Clone, Copy, Debug, PartialEq, Eq, Structural)]
pub enum AttributeErrorKind {
    /// A modifier name that is not recognized here.
    Unknown,
    /// `decode_error` without a parenthesized type.
    ExpectedParens,
    /// A modifier not followed by `,` or the end of the list.
    ExpectedComma,
    /// Something other than a modifier name where one was expected.
    ExpectedIdent,
    /// A second `decode_error` on one record.
    DuplicateDecodeError,
    /// An `ssh` attribute without a parenthesized list.
    ExpectedList,
}

/// A modifier error, with the offending name where there is one, the index of the
/// attribute in its list and of the offending token in that attribute's list.
#[derive(Clone, Debug, PartialEq, Eq)]
pub struct AttributeError {
    pub kind: AttributeErrorKind,
    pub name: Vec<u8>,
    pub attribute: usize,
    pub token: usize,
}

/// The model of a modifier error: kind, name, attribute index, token index.
pub type Fault = (AttributeErrorKind, Seq<u8>, int, int);

impl View for AttributeError {
    type V = Fault;

    open spec fn view(&self) -> Fault {
        (self.kind, self.name@, self.attribute as int, self.token as int)
    }
}

/// Record-level modifiers.
#[derive(Clone, Debug)]
pub struct ContainerAttributes {
    pub decode_error_type: ErrorType,
    pub length_prefixed: bool,
}

/// Field-level modifiers.
#[derive(Clone, Copy, Debug, PartialEq, Eq)]
pub struct FieldAttributes {
    pub length_prefixed: bool,
}

/// Modifier settings: the decode error type, if overridden, and the prefix flag.
pub type Settings = (Option<Seq<u8>>, bool);

pub open spec fn ssh_word() -> Seq<u8> {
    seq![115u8, 115u8, 104u8]
}

pub open spec fn decode_error_word() -> Seq<u8> {
    seq![100u8, 101u8, 99u8, 111u8, 100u8, 101u8, 95u8, 101u8, 114u8, 114u8, 111u8, 114u8]
}

pub open spec fn length_prefixed_word() -> Seq<u8> {
    seq![108u8, 101u8, 110u8, 103u8, 116u8, 104u8, 95u8, 112u8, 114u8, 101u8, 102u8, 105u8, 120u8, 101u8, 100u8]
}

/// Reading the modifier that starts at `toks[i]`: the settings after it and where it ends.
/// `decode_error` is recognized only on a record; `a` is the attribute's index.
pub open spec fn modifier_step(toks: Seq<Token>, i: int, cfg: Settings, on_record: bool, a: int)
    -> Result<(Settings, int), Fault>
    recommends
        0 <= i < toks.len(),
{
    match toks[i] {
        Token::Ident(w) => if on_record && w@ == decode_error_word() {
            if cfg.0 is Some {
                Err((AttributeErrorKind::DuplicateDecodeError, w@, a, i))
            } else if i + 1 < toks.len() && toks[i + 1] is Paren {
                Ok(((Some(toks[i + 1]->Paren_0@), cfg.1), i + 2))
            } else {
                Err((AttributeErrorKind::ExpectedParens, w@, a, i))
            }
        } else if w@ == length_prefixed_word() {
            Ok(((cfg.0, true), i + 1))
        } else {
            Err((AttributeErrorKind::Unknown, w@, a, i))
        },
        _ => Err((AttributeErrorKind::ExpectedIdent, Seq::empty(), a, i)),
    }
}

/// Reading the comma-separated modifiers of `toks` from `toks[i]` on, starting from `cfg`.
pub open spec fn parse_modifiers(toks: Seq<Token>, i: int, cfg: Settings, on_record: bool, a: int)
    -> Result<Settings, Fault>
    decreases toks.len() - i,
{
    if i < 0 || i >= toks.len() {
        Ok(cfg)
    } else {
        match modifier_step(toks, i, cfg, on_record, a) {
            Err(e) => Err(e),
            Ok((c, j)) => if j >= toks.len() {
                Ok(c)
            } else if toks[j] is Comma {
                parse_modifiers(toks, j + 1, c, on_record, a)
            } else {
                Err((AttributeErrorKind::ExpectedComma, Seq::empty(), a, j))
            },
        }
    }
}

/// The settings that the first `k` attributes give: those with the path `ssh` are read in
/// order, the others are skipped. An `ssh` attribute must carry a parenthesized list.
pub open spec fn attributes_settings(attrs: Seq<Attribute>, k: int, on_record: bool)
    -> Result<Settings, Fault>
    decreases k,
{
    if k <= 0 {
        Ok((None, false))
    } else {
        match attributes_settings(attrs, k - 1, on_record) {
            Err(e) => Err(e),
            Ok(c) => if attrs[k - 1].path@ == ssh_word() {
                match attrs[k - 1].tokens {
                    Some(t) => parse_modifiers(t@, 0, c, on_record, k - 1),
                    None => Err((AttributeErrorKind::ExpectedList, ssh_word(), k - 1, 0)),
                }
            } else {
                Ok(c)
            },
        }
    }
}

/// Once an attribute fails, the settings of every longer run of attributes fail the same way.
pub proof fn lemma_settings_error_stays(attrs: Seq<Attribute>, k: int, n: int, on_record: bool)
    requires
        0 < k <= n,
        attributes_settings(attrs, k, on_record) is Err,
    ensures
        attributes_settings(attrs, n, on_record) == attributes_settings(attrs, k, on_record),
    decreases n - k,
{
    if n > k {
        lemma_settings_error_stays(attrs, k, n - 1, on_record);
    }
}

/// Whether `t` is a modifier name that `ssh` attributes accept here.
pub open spec fn recognized(t: Token, on_record: bool) -> bool {
    match t {
        Token::Ident(w) => w@ == length_prefixed_word() || (on_record && w@ == decode_error_word()),
        _ => false,
    }
}

/// Whether `t` is an identifier that is no modifier name accepted here.
pub open spec fn unknown_name(t: Token, on_record: bool) -> bool {
    t is Ident && !recognized(t, on_record)
}

/// A modifier list that holds an unknown name anywhere from `toks[i]` on fails, whatever
/// else it holds: every identifier of a list that parses is a modifier name.
pub proof fn lemma_unknown_name_fails(toks: Seq<Token>, i: int, cfg: Settings, on_record: bool, a: int, j: int)
    requires
        0 <= i <= j < toks.len(),
        unknown_name(toks[j], on_record),
    ensures
        parse_modifiers(toks, i, cfg, on_record, a) is Err,
    decreases toks.len() - i,
{
    match modifier_step(toks, i, cfg, on_record, a) {
        Err(_) => {},
        Ok((c, next)) => {
            if next < toks.len() && toks[next] is Comma {
                lemma_unknown_name_fails(toks, next + 1, c, on_record, a, j);
            }
        },
    }
}

/// The attributes fail when one of their `ssh` lists holds, anywhere, a name that is no
/// modifier accepted here.
pub proof fn lemma_unknown_attribute_fails(attrs: Seq<Attribute>, a: int, j: int, on_record: bool)
    requires
        0 <= a < attrs.len(),
        attrs[a].path@ == ssh_word(),
        attrs[a].tokens is Some,
        0 <= j < attrs[a].tokens->Some_0@.len(),
        unknown_name(attrs[a].tokens->Some_0@[j], on_record),
    ensures
        attributes_settings(attrs, attrs.len() as int, on_record) is Err,
{
    match attributes_settings(attrs, a, on_record) {
        Err(_) => {},
        Ok(c) => { lemma_unknown_name_fails(attrs[a].tokens->Some_0@, 0, c, on_record, a, j); },
    }
    assert(attributes_settings(attrs, a + 1, on_record) is Err);
    lemma_settings_error_stays(attrs, a + 1, attrs.len() as int, on_record);
}

/// Whether `a` and `b` hold the same bytes.
pub fn bytes_eq(a: &Vec<u8>, b: &Vec<u8>) -> (r: bool)
    ensures
        r == (a@ == b@),
{
    if a.len() != b.len() {
        return false;
    }
    let mut i: usize = 0;
    while i < a.len()
        invariant
            a@.len() == b@.len(),
            i <= a@.len(),
            a@.subrange(0, i as int) == b@.subrange(0, i as int),
        decreases a@.len() - i,
    {
        if a[i] != b[i] {
            assert(a@[i as int] != b@[i as int]);
            return false;
        }
        assert(a@.subrange(0, i + 1) =~= a@.subrange(0, i as int).push(a@[i as int]));
        assert(b@.subrange(0, i + 1) =~= b@.subrange(0, i as int).push(b@[i as int]));
        i = i + 1;
    }
    assert(a@ =~= a@.subrange(0, i as int));
    assert(b@ =~= b@.subrange(0, i as int));
    true
}

fn ssh_bytes() -> (r: Vec<u8>)
    ensures
        r@ == ssh_word(),
{
    let r = vec![115u8, 115u8, 104u8];
    assert(r@ =~= ssh_word());
    r
}

fn decode_error_bytes() -> (r: Vec<u8>)
    ensures
        r@ == decode_error_word(),
{
    let r = vec![100u8, 101u8, 99u8, 111u8, 100u8, 101u8, 95u8, 101u8, 114u8, 114u8, 111u8, 114u8];
    assert(r@ =~= decode_error_word());
    r
}

fn length_prefixed_bytes() -> (r: Vec<u8>)
    ensures
        r@ == length_prefixed_word(),
{
    let r = vec![108u8, 101u8, 110u8, 103u8, 116u8, 104u8, 95u8, 112u8, 114u8, 101u8, 102u8, 105u8, 120u8, 101u8, 100u8];
    assert(r@ =~= length_prefixed_word());
    r
}

fn fault(kind: AttributeErrorKind, name: Vec<u8>, attribute: usize, token: usize) -> (r: AttributeError)
    ensures
        r@ == (kind, name@, attribute as int, token as int),
{
    AttributeError { kind, name, attribute, token }
}

/// Reads the modifier list `toks` of attribute `attr` on top of `error_type` and `prefixed`.
fn read_modifiers(toks: &Vec<Token>, error_type: &mut ErrorType, prefixed: &mut bool, on_record: bool, attr: usize)
    -> (r: Result<(), AttributeError>)
    ensures
        match parse_modifiers(toks@, 0, (old(error_type)@, *old(prefixed)), on_record, attr as int) {
            Ok(c) => r is Ok && final(error_type)@ == c.0 && *final(prefixed) == c.1,
            Err(e) => r matches Err(f) && f@ == e,
        },
{
    let ghost start: Settings = (error_type@, *prefixed);
    let decode_error = decode_error_bytes();
    let length_prefixed = length_prefixed_bytes();
    let mut i: usize = 0;
    while i < toks.len()
        invariant
            i <= toks@.len(),
            decode_error@ == decode_error_word(),
            length_prefixed@ == length_prefixed_word(),
            start == (old(error_type)@, *old(prefixed)),
            parse_modifiers(toks@, 0, start, on_record, attr as int)
                == parse_modifiers(toks@, i as int, (error_type@, *prefixed), on_record, attr as int),
        decreases toks@.len() - i,
    {
        let ghost cur: Settings = (error_type@, *prefixed);
        let next: usize = match &toks[i] {
            Token::Ident(w) => {
                if on_record && bytes_eq(w, &decode_error) {
                    if let ErrorType::Custom(_) = error_type {
                        return Err(fault(AttributeErrorKind::DuplicateDecodeError, w.clone(), attr, i));
                    }
                    if i + 1 < toks.len() {
                        match &toks[i + 1] {
                            Token::Paren(t) => {
                                *error_type = ErrorType::Custom(t.clone());
                                i + 2
                            },
                            _ => { return Err(fault(AttributeErrorKind::ExpectedParens, w.clone(), attr, i)); },
                        }
                    } else {
                        return Err(fault(AttributeErrorKind::ExpectedParens, w.clone(), attr, i));
                    }
                } else if bytes_eq(w, &length_prefixed) {
                    *prefixed = true;
                    i + 1
                } else {
                    return Err(fault(AttributeErrorKind::Unknown, w.clone(), attr, i));
                }
            },
            _ => { return Err(fault(AttributeErrorKind::ExpectedIdent, Vec::new(), attr, i)); },
        };
        assert(modifier_step(toks@, i as int, cur, on_record, attr as int)
            == Ok::<(Settings, int), Fault>(((error_type@, *prefixed), next as int)));
        if next >= toks.len() {
            return Ok(());
        }
        match &toks[next] {
            Token::Comma => {},
            _ => { return Err(fault(AttributeErrorKind::ExpectedComma, Vec::new(), attr, next)); },
        }
        i = next + 1;
    }
    Ok(())
}

/// Reads every `ssh` attribute of `attrs`, in order, skipping the others.
fn read_attributes(attrs: &Vec<Attribute>, on_record: bool) -> (r: Result<(ErrorType, bool), AttributeError>)
    ensures
        match attributes_settings(attrs@, attrs@.len() as int, on_record) {
            Ok(c) => r matches Ok((t, p)) && t@ == c.0 && p == c.1,
            Err(e) => r matches Err(f) && f@ == e,
        },
{
    let ssh = ssh_bytes();
    let mut error_type = ErrorType::Standard;
    let mut prefixed = false;
    let mut k: usize = 0;
    while k < attrs.len()
        invariant
            k <= attrs@.len(),
            ssh@ == ssh_word(),
            attributes_settings(attrs@, k as int, on_record)
                == Ok::<Settings, Fault>((error_type@, prefixed)),
        decreases attrs@.len() - k,
    {
        if bytes_eq(&attrs[k].path, &ssh) {
            let toks = match &attrs[k].tokens {
                Some(t) => t,
                None => {
                    proof { lemma_settings_error_stays(attrs@, k + 1, attrs@.len() as int, on_record); }
                    return Err(fault(AttributeErrorKind::ExpectedList, ssh_bytes(), k, 0));
                },
            };
            match read_modifiers(toks, &mut error_type, &mut prefixed, on_record, k) {
                Ok(()) => {},
                Err(f) => {
                    proof { lemma_settings_error_stays(attrs@, k + 1, attrs@.len() as int, on_record); }
                    return Err(f);
                },
            }
        }
        k = k + 1;
    }
    Ok((error_type, prefixed))
}

impl ContainerAttributes {
    /// The record-level settings: every `ssh` attribute's modifiers, in order.
    pub open spec fn settings(attrs: Seq<Attribute>) -> Result<Settings, Fault> {
        attributes_settings(attrs, attrs.len() as int, true)
    }

    /// Interprets a record's attributes. An unrecognized modifier is an error naming it.
    pub fn try_from(attrs: &Vec<Attribute>) -> (r: Result<ContainerAttributes, AttributeError>)
        ensures
            match Self::settings(attrs@) {
                Ok(c) => r matches Ok(a) && a.decode_error_type@ == c.0 && a.length_prefixed == c.1,
                Err(e) => r matches Err(f) && f@ == e,
            },
    {
        let (decode_error_type, length_prefixed) = read_attributes(attrs, true)?;
        Ok(ContainerAttributes { decode_error_type, length_prefixed })
    }
}

impl FieldAttributes {
    /// The field-level settings: every `ssh` attribute's modifiers, in order.
    pub open spec fn settings(attrs: Seq<Attribute>) -> Result<Settings, Fault> {
        attributes_settings(attrs, attrs.len() as int, false)
    }

    /// Interprets a field's attributes. An unrecognized modifier is an error naming it.
    pub fn try_from(attrs: &Vec<Attribute>) -> (r: Result<FieldAttributes, AttributeError>)
        ensures
            match Self::settings(attrs@) {
                Ok(c) => r matches Ok(a) && a.length_prefixed == c.1,
                Err(e) => r matches Err(f) && f@ == e,
            },
    {
        let (_, length_prefixed) = read_attributes(attrs, false)?;
        Ok(FieldAttributes { length_prefixed })
    }
}

} // verus!
