//! The DICOM-JSON attribute codec: renders a data set as the JSON
//! attribute object of the DICOM standard's JSON model, and rebuilds
//! data sets from such objects.
//!
//! Every element becomes an entry keyed by its eight-digit hexadecimal
//! tag, holding the two-letter `vr` code and a `Value`.  `Value` is an
//! array for every representation but the bulk binary ones, which carry
//! one base64 string instead.

use crate::ascii::hex4_chars;
use crate::ascii::hex_char_val;
use crate::dataset::DataElement;
use crate::dataset::DataSet;
use crate::dataset::SpecDataSet;
use crate::dataset::SpecElement;
use crate::dataset::SpecValue;
use crate::dataset::Tag;
use crate::dataset::VR;
use crate::dataset::ElementValue;
use crate::dataset::is_binary_vr;
use crate::dataset::is_real_vr;
use crate::dataset::is_signed_int_vr;
use crate::dataset::is_text_vr;
use crate::dataset::is_unsigned_int_vr;
use crate::dataset::tag_key;
use crate::dataset::tag_key_chars;
use crate::dataset::view_dataset;
use crate::dataset::view_datasets;
use crate::dataset::view_element;
use crate::dataset::view_elements;
use crate::dataset::view_value;
use crate::dataset::vr_code_chars;
use crate::dataset::vr_of_pair;
use vstd::prelude::*;
use vstd::string::StrSliceExecFns;
use vstd::string::StringExecFns;

verus! {

/// A JSON value, as this library models it.  Numbers that are neither
/// signed nor unsigned integers travel as their literal text.
pub enum JsonValue {
    Null,
    Bool(bool),
    Int(i64),
    UInt(u64),
    Num(String),
    Str(String),
    Arr(Vec<JsonValue>),
    Obj(Vec<(String, JsonValue)>),
}

/// The mathematical shape of a JSON value.
#[verifier::ext_equal]
pub enum SpecJson {
    Null,
    Bool(bool),
    Int(i64),
    UInt(u64),
    Num(Seq<char>),
    Str(Seq<char>),
    Arr(Seq<SpecJson>),
    Obj(Seq<(Seq<char>, SpecJson)>),
}

pub open spec fn view_json(v: JsonValue) -> SpecJson
    decreases v,
{
    match v {
        JsonValue::Null => SpecJson::Null,
        JsonValue::Bool(b) => SpecJson::Bool(b),
        JsonValue::Int(i) => SpecJson::Int(i),
        JsonValue::UInt(u) => SpecJson::UInt(u),
        JsonValue::Num(s) => SpecJson::Num(s@),
        JsonValue::Str(s) => SpecJson::Str(s@),
        JsonValue::Arr(items) => SpecJson::Arr(view_jsons(items@)),
        JsonValue::Obj(entries) => SpecJson::Obj(view_json_entries(entries@)),
    }
}

pub open spec fn view_jsons(s: Seq<JsonValue>) -> Seq<SpecJson>
    decreases s,
{
    if s.len() == 0 {
        Seq::empty()
    } else {
        seq![view_json(s.first())] + view_jsons(s.drop_first())
    }
}

pub open spec fn view_json_entries(s: Seq<(String, JsonValue)>) -> Seq<(Seq<char>, SpecJson)>
    decreases s,
{
    if s.len() == 0 {
        Seq::empty()
    } else {
        seq![(s.first().0@, view_json(s.first().1))] + view_json_entries(s.drop_first())
    }
}

/// `view_jsons` acts pointwise.
pub proof fn lemma_view_jsons(s: Seq<JsonValue>)
    ensures
        view_jsons(s).len() == s.len(),
        forall|i: int| 0 <= i < s.len() ==> #[trigger] view_jsons(s)[i] == view_json(s[i]),
    decreases s.len(),
{
    if s.len() > 0 {
        lemma_view_jsons(s.drop_first());
        assert forall|i: int| 0 <= i < s.len() implies #[trigger] view_jsons(s)[i] == view_json(
            s[i],
        ) by {
            if i > 0 {
                assert(s.drop_first()[i - 1] == s[i]);
            }
        }
    }
}

/// `view_json_entries` acts pointwise.
pub proof fn lemma_view_json_entries(s: Seq<(String, JsonValue)>)
    ensures
        view_json_entries(s).len() == s.len(),
        forall|i: int|
            0 <= i < s.len() ==> #[trigger] view_json_entries(s)[i] == (
            s[i].0@,
            view_json(s[i].1),
            ),
    decreases s.len(),
{
    if s.len() > 0 {
        lemma_view_json_entries(s.drop_first());
        assert forall|i: int| 0 <= i < s.len() implies #[trigger] view_json_entries(s)[i] == (
            s[i].0@,
            view_json(s[i].1),
        ) by {
            if i > 0 {
                assert(s.drop_first()[i - 1] == s[i]);
            }
        }
    }
}

/// What can go wrong while converting between data sets and DICOM JSON.
#[derive(Clone, Copy, PartialEq, Eq, Structural, Debug)]
pub enum CodecError {
    /// An element's value does not have the shape its representation
    /// calls for; carries the offending tag.
    UnsupportedValue(Tag),
    /// An attribute key is not eight hexadecimal digits.
    BadTagKey,
    /// An attribute carries no readable `vr` field.
    MissingVr,
    /// An attribute's `vr` field names no known representation.
    UnknownVr,
    /// An attribute's `Value` does not fit its representation; carries
    /// the offending tag.
    BadValue(Tag),
    /// An object's attribute keys are not strictly increasing.
    TagOrder,
    /// A data set position holds something other than a JSON object.
    NotAnObject,
}

/// What `base64::encode` returns for a byte sequence.
pub uninterp spec fn base64_of(b: Seq<u8>) -> Seq<char>;

/// What `base64::decode` makes of a character sequence: the bytes, when
/// the characters form well-padded standard base64; nothing otherwise.
pub uninterp spec fn base64_parse(s: Seq<char>) -> Option<Seq<u8>>;

/// Relies on `base64::encode`: standard alphabet with padding, four
/// characters for every three bytes, and `base64::decode` inverts it.
#[verifier::external_body]
fn base64_encode(b: &[u8]) -> (r: String)
    requires
        ((b@.len() + 2) / 3) * 4 <= usize::MAX,
    ensures
        r@ == base64_of(b@),
        r@.len() == ((b@.len() + 2) / 3) * 4,
        base64_parse(r@) == Some(b@),
{
    base64::encode(b)
}

/// Relies on `base64::decode`: accepts a standard base64 string and
/// returns its bytes, refusing anything malformed.
#[verifier::external_body]
fn base64_decode(s: &str) -> (r: Option<Vec<u8>>)
    ensures
        match r {
            Some(v) => base64_parse(s@) == Some(v@),
            None => base64_parse(s@) is None,
        },
{
    base64::decode(s).ok()
}

/// The JSON `Value` of one element, given its representation: an array
/// of strings for text, an array holding one number for numeric kinds,
/// one `{"Alphabetic": ...}` object for person names, one base64 string
/// for bulk binary data, and an array of nested objects for sequences.
/// The offending tag comes back when the value has the wrong shape.
pub open spec fn json_of_value(tag: Tag, vr: VR, value: SpecValue) -> Result<SpecJson, Tag>
    decreases value,
{
    if vr == VR::PN {
        match value {
            SpecValue::Text(xs) => {
                if xs.len() == 1 {
                    Ok(
                        SpecJson::Arr(
                            seq![SpecJson::Obj(seq![("Alphabetic"@, SpecJson::Str(xs[0]))])],
                        ),
                    )
                } else {
                    Err(tag)
                }
            },
            _ => Err(tag),
        }
    } else if is_text_vr(vr) {
        match value {
            SpecValue::Text(xs) => Ok(
                SpecJson::Arr(xs.map(|i: int, s: Seq<char>| SpecJson::Str(s))),
            ),
            _ => Err(tag),
        }
    } else if is_real_vr(vr) {
        match value {
            SpecValue::Real(s) => Ok(SpecJson::Arr(seq![SpecJson::Num(s)])),
            _ => Err(tag),
        }
    } else if is_binary_vr(vr) {
        match value {
            SpecValue::Bytes(b) => {
                if ((b.len() + 2) / 3) * 4 <= usize::MAX {
                    Ok(SpecJson::Str(base64_of(b)))
                } else {
                    Err(tag)
                }
            },
            _ => Err(tag),
        }
    } else if is_signed_int_vr(vr) {
        match value {
            SpecValue::Int(i) => Ok(SpecJson::Arr(seq![SpecJson::Int(i)])),
            _ => Err(tag),
        }
    } else if is_unsigned_int_vr(vr) {
        match value {
            SpecValue::UInt(u) => Ok(SpecJson::Arr(seq![SpecJson::UInt(u)])),
            _ => Err(tag),
        }
    } else {
        // all that remains is SQ: an array of nested objects
        match value {
            SpecValue::Items(dss) => match json_of_datasets(dss) {
                Ok(objs) => Ok(SpecJson::Arr(objs)),
                Err(t) => Err(t),
            },
            _ => Err(tag),
        }
    }
}

/// One element's attribute entry: its hexadecimal key, and an object
/// holding the `vr` code and the `Value`.
pub open spec fn json_of_element(e: SpecElement) -> Result<(Seq<char>, SpecJson), Tag>
    decreases e,
{
    match json_of_value(e.tag, e.vr, e.value) {
        Ok(v) => Ok(
            (
                tag_key_chars(e.tag),
                SpecJson::Obj(
                    seq![
                        ("vr"@, SpecJson::Str(vr_code_chars(e.vr))),
                        ("Value"@, v),
                    ],
                ),
            ),
        ),
        Err(t) => Err(t),
    }
}

pub open spec fn json_of_elements(s: Seq<SpecElement>) -> Result<
    Seq<(Seq<char>, SpecJson)>,
    Tag,
>
    decreases s,
{
    if s.len() == 0 {
        Ok(Seq::empty())
    } else {
        match json_of_element(s.first()) {
            Ok(entry) => match json_of_elements(s.drop_first()) {
                Ok(rest) => Ok(seq![entry] + rest),
                Err(t) => Err(t),
            },
            Err(t) => Err(t),
        }
    }
}

/// The DICOM JSON object of a whole data set.
pub open spec fn json_of_dataset(ds: SpecDataSet) -> Result<SpecJson, Tag>
    decreases ds,
{
    match json_of_elements(ds.elements) {
        Ok(entries) => Ok(SpecJson::Obj(entries)),
        Err(t) => Err(t),
    }
}

pub open spec fn json_of_datasets(ss: Seq<SpecDataSet>) -> Result<Seq<SpecJson>, Tag>
    decreases ss,
{
    if ss.len() == 0 {
        Ok(Seq::empty())
    } else {
        match json_of_dataset(ss.first()) {
            Ok(obj) => match json_of_datasets(ss.drop_first()) {
                Ok(rest) => Ok(seq![obj] + rest),
                Err(t) => Err(t),
            },
            Err(t) => Err(t),
        }
    }
}

fn vr_is_text(vr: VR) -> (r: bool)
    ensures
        r == is_text_vr(vr),
{
    match vr {
        VR::AE | VR::AS | VR::AT | VR::CS | VR::DA | VR::DS | VR::DT | VR::IS | VR::LO | VR::LT
            | VR::SH | VR::ST | VR::SV | VR::TM | VR::UC | VR::UI | VR::UR | VR::UT | VR::UV => true,
        _ => false,
    }
}

fn vr_is_binary(vr: VR) -> (r: bool)
    ensures
        r == is_binary_vr(vr),
{
    match vr {
        VR::OB | VR::OD | VR::OF | VR::OL | VR::OV | VR::OW | VR::UN => true,
        _ => false,
    }
}

/// The JSON `Value` of one element, or the offending tag's error.
fn encode_value(tag: Tag, vr: VR, value: &ElementValue) -> (r: Result<JsonValue, CodecError>)
    ensures
        match r {
            Ok(j) => json_of_value(tag, vr, view_value(*value)) == Ok::<SpecJson, Tag>(
                view_json(j),
            ),
            Err(ce) => ce matches CodecError::UnsupportedValue(t) && json_of_value(
                tag,
                vr,
                view_value(*value),
            ) == Err::<SpecJson, Tag>(t),
        },
    decreases *value,
{
    if vr == VR::PN {
        match value {
            ElementValue::Text(xs) => {
                if xs.len() == 1 {
                    let mut entries: Vec<(String, JsonValue)> = Vec::new();
                    entries.push((String::from_str("Alphabetic"), JsonValue::Str(xs[0].clone())));
                    let ghost ev = entries@;
                    let mut person: Vec<JsonValue> = Vec::new();
                    person.push(JsonValue::Obj(entries));
                    let ghost pv = person@;
                    let out = JsonValue::Arr(person);
                    proof {
                        let xv = xs.deep_view();
                        lemma_view_json_entries(ev);
                        lemma_view_jsons(pv);
                        assert(view_json_entries(ev) =~= seq![
                            ("Alphabetic"@, SpecJson::Str(xv[0])),
                        ]);
                        assert(view_jsons(pv) =~= seq![
                            SpecJson::Obj(seq![("Alphabetic"@, SpecJson::Str(xv[0]))]),
                        ]);
                        assert(view_json(out) == SpecJson::Arr(view_jsons(pv)));
                    }
                    Ok(out)
                } else {
                    proof {
                        assert(view_value(*value)->Text_0.len() != 1);
                    }
                    Err(CodecError::UnsupportedValue(tag))
                }
            },
            _ => Err(CodecError::UnsupportedValue(tag)),
        }
    } else if vr_is_text(vr) {
        match value {
            ElementValue::Text(xs) => {
                let mut out: Vec<JsonValue> = Vec::new();
                let mut i: usize = 0;
                while i < xs.len()
                    invariant
                        i <= xs@.len(),
                        out@.len() == i,
                        forall|j: int|
                            0 <= j < i ==> #[trigger] view_jsons(out@)[j] == SpecJson::Str(
                                xs@[j]@,
                            ),
                        view_jsons(out@).len() == i,
                    decreases xs@.len() - i,
                {
                    let ghost out_pre = out@;
                    out.push(JsonValue::Str(xs[i].clone()));
                    proof {
                        lemma_view_jsons(out_pre);
                        lemma_view_jsons(out@);
                        assert forall|j: int| 0 <= j < i + 1 implies #[trigger] view_jsons(
                            out@,
                        )[j] == SpecJson::Str(xs@[j]@) by {
                            if j < i {
                                assert(out@[j] == out_pre[j]);
                                assert(view_jsons(out_pre)[j] == view_json(out_pre[j]));
                            }
                        }
                    }
                    i = i + 1;
                }
                let outv = JsonValue::Arr(out);
                proof {
                    lemma_view_jsons(out@);
                    let xv = xs.deep_view();
                    assert(view_jsons(out@) =~= xv.map(|k: int, s: Seq<char>| SpecJson::Str(s)));
                }
                Ok(outv)
            },
            _ => Err(CodecError::UnsupportedValue(tag)),
        }
    } else if vr == VR::FL || vr == VR::FD {
        match value {
            ElementValue::Real(s) => {
                let mut items: Vec<JsonValue> = Vec::new();
                items.push(JsonValue::Num(s.clone()));
                let ghost iv = items@;
                let out = JsonValue::Arr(items);
                proof {
                    lemma_view_jsons(iv);
                    assert(view_jsons(iv) =~= seq![SpecJson::Num(s@)]);
                }
                Ok(out)
            },
            _ => Err(CodecError::UnsupportedValue(tag)),
        }
    } else if vr_is_binary(vr) {
        match value {
            ElementValue::Bytes(b) => {
                let n: usize = b.len();
                let mut chunks: usize = n / 3;
                if n % 3 > 0 {
                    chunks = chunks + 1;
                }
                proof {
                    assert(chunks == (n + 2) / 3);
                }
                if chunks <= usize::MAX / 4 {
                    proof {
                        assert(chunks * 4 <= usize::MAX);
                    }
                    Ok(JsonValue::Str(base64_encode(b.as_slice())))
                } else {
                    proof {
                        assert(chunks * 4 > usize::MAX);
                    }
                    Err(CodecError::UnsupportedValue(tag))
                }
            },
            _ => Err(CodecError::UnsupportedValue(tag)),
        }
    } else if vr == VR::SL || vr == VR::SS {
        match value {
            ElementValue::Int(i) => {
                let mut items: Vec<JsonValue> = Vec::new();
                items.push(JsonValue::Int(*i));
                let ghost iv = items@;
                let out = JsonValue::Arr(items);
                proof {
                    lemma_view_jsons(iv);
                    assert(view_jsons(iv) =~= seq![SpecJson::Int(*i)]);
                }
                Ok(out)
            },
            _ => Err(CodecError::UnsupportedValue(tag)),
        }
    } else if vr == VR::UL || vr == VR::US {
        match value {
            ElementValue::UInt(u) => {
                let mut items: Vec<JsonValue> = Vec::new();
                items.push(JsonValue::UInt(*u));
                let ghost iv = items@;
                let out = JsonValue::Arr(items);
                proof {
                    lemma_view_jsons(iv);
                    assert(view_jsons(iv) =~= seq![SpecJson::UInt(*u)]);
                }
                Ok(out)
            },
            _ => Err(CodecError::UnsupportedValue(tag)),
        }
    } else {
        match value {
            ElementValue::Items(items) => {
                match encode_datasets(items) {
                    Ok(objs) => {
                        let out = JsonValue::Arr(objs);
                        Ok(out)
                    },
                    Err(ce) => Err(ce),
                }
            },
            _ => Err(CodecError::UnsupportedValue(tag)),
        }
    }
}

/// The DICOM JSON objects of a list of data sets, or the first error.
fn encode_datasets(items: &Vec<DataSet>) -> (r: Result<Vec<JsonValue>, CodecError>)
    ensures
        match r {
            Ok(objs) => json_of_datasets(view_datasets(items@)) == Ok::<Seq<SpecJson>, Tag>(
                view_jsons(objs@),
            ),
            Err(ce) => ce matches CodecError::UnsupportedValue(t) && json_of_datasets(
                view_datasets(items@),
            ) == Err::<Seq<SpecJson>, Tag>(t),
        },
    decreases *items,
{
    let ghost sv = view_datasets(items@);
    let mut out: Vec<JsonValue> = Vec::new();
    let mut i: usize = 0;
    proof {
        crate::dataset::lemma_view_datasets(items@);
        assert(sv.skip(0) =~= sv);
    }
    while i < items.len()
        invariant
            sv == view_datasets(items@),
            sv.len() == items@.len(),
            forall|k: int| 0 <= k < sv.len() ==> #[trigger] sv[k] == view_dataset(items@[k]),
            i <= items@.len(),
            view_jsons(out@).len() == i,
            json_of_datasets(sv) == match json_of_datasets(sv.skip(i as int)) {
                Ok(rest) => Ok::<Seq<SpecJson>, Tag>(view_jsons(out@) + rest),
                Err(t) => Err::<Seq<SpecJson>, Tag>(t),
            },
        decreases items@.len() - i,
    {
        let ghost out_pre = out@;
        let ghost tail = sv.skip(i as int);
        proof {
            assert(tail.len() > 0);
            assert(tail.first() == sv[i as int]);
            assert(tail.drop_first() =~= sv.skip(i + 1));
        }
        match encode_dicom_to_json(&items[i]) {
            Ok(obj) => {
                out.push(obj);
                proof {
                    lemma_view_jsons(out_pre);
                    lemma_view_jsons(out@);
                    assert(view_jsons(out@) =~= view_jsons(out_pre).push(
                        view_json(out@[out@.len() - 1]),
                    ));
                    assert(json_of_datasets(sv) == match json_of_datasets(sv.skip(i + 1)) {
                        Ok(rest) => Ok::<Seq<SpecJson>, Tag>(view_jsons(out@) + rest),
                        Err(t) => Err::<Seq<SpecJson>, Tag>(t),
                    }) by {
                        match json_of_datasets(sv.skip(i + 1)) {
                            Ok(rest) => {
                                assert(view_jsons(out_pre) + (seq![view_json(out@[out@.len() - 1])]
                                    + rest) =~= view_jsons(out@) + rest);
                            },
                            Err(t) => {},
                        }
                    }
                }
                i = i + 1;
            },
            Err(ce) => {
                proof {
                    assert(json_of_dataset(tail.first()) is Err);
                }
                return Err(ce);
            },
        }
    }
    proof {
        assert(sv.skip(sv.len() as int) =~= Seq::<SpecDataSet>::empty());
        assert(view_jsons(out@) + Seq::<SpecJson>::empty() =~= view_jsons(out@));
    }
    Ok(out)
}

/// Renders a data set as its DICOM JSON attribute object: one entry per
/// element, keyed by the zero-padded uppercase hexadecimal tag, holding
/// the `vr` code and the `Value` in the shape the standard assigns to
/// that representation.  Fails with the offending tag when an element's
/// value does not fit its representation.
pub fn encode_dicom_to_json(dicom: &DataSet) -> (r: Result<JsonValue, CodecError>)
    ensures
        match r {
            Ok(j) => json_of_dataset(view_dataset(*dicom)) == Ok::<SpecJson, Tag>(view_json(j)),
            Err(ce) => ce matches CodecError::UnsupportedValue(t) && json_of_dataset(
                view_dataset(*dicom),
            ) == Err::<SpecJson, Tag>(t),
        },
    decreases *dicom,
{
    let ghost sv = view_elements(dicom.elements@);
    let mut out: Vec<(String, JsonValue)> = Vec::new();
    let mut i: usize = 0;
    proof {
        crate::dataset::lemma_view_elements(dicom.elements@);
        assert(sv.skip(0) =~= sv);
    }
    while i < dicom.elements.len()
        invariant
            sv == view_elements(dicom.elements@),
            sv.len() == dicom.elements@.len(),
            forall|k: int|
                0 <= k < sv.len() ==> #[trigger] sv[k] == view_element(dicom.elements@[k]),
            i <= dicom.elements@.len(),
            view_json_entries(out@).len() == i,
            json_of_elements(sv) == match json_of_elements(sv.skip(i as int)) {
                Ok(rest) => Ok::<Seq<(Seq<char>, SpecJson)>, Tag>(view_json_entries(out@) + rest),
                Err(t) => Err::<Seq<(Seq<char>, SpecJson)>, Tag>(t),
            },
        decreases dicom.elements@.len() - i,
    {
        let ghost out_pre = out@;
        let ghost tail = sv.skip(i as int);
        proof {
            assert(tail.len() > 0);
            assert(tail.first() == sv[i as int]);
            assert(tail.drop_first() =~= sv.skip(i + 1));
        }
        let e = &dicom.elements[i];
        proof {
            assert(decreases_to!(*dicom => dicom.elements));
        }
        match encode_value(e.tag, e.vr, &e.value) {
            Ok(v) => {
                let ghost vv = view_json(v);
                let key = tag_key(e.tag);
                let code = e.vr.code();
                let mut attr: Vec<(String, JsonValue)> = Vec::new();
                attr.push((String::from_str("vr"), JsonValue::Str(String::from_str(code))));
                attr.push((String::from_str("Value"), v));
                let ghost av = attr@;
                out.push((key, JsonValue::Obj(attr)));
                proof {
                    lemma_view_json_entries(av);
                    lemma_view_json_entries(out_pre);
                    lemma_view_json_entries(out@);
                    let se = tail.first();
                    assert(json_of_value(se.tag, se.vr, se.value) == Ok::<SpecJson, Tag>(vv));
                    assert(view_json_entries(av) =~= seq![
                        ("vr"@, SpecJson::Str(vr_code_chars(se.vr))),
                        ("Value"@, vv),
                    ]);
                    assert(view_json(out@[out@.len() - 1].1) == SpecJson::Obj(
                        view_json_entries(av),
                    ));
                    assert(json_of_element(se) == Ok::<(Seq<char>, SpecJson), Tag>(
                        (out@[out@.len() - 1].0@, view_json(out@[out@.len() - 1].1)),
                    ));
                    assert(view_json_entries(out@) =~= view_json_entries(out_pre).push(
                        (out@[out@.len() - 1].0@, view_json(out@[out@.len() - 1].1)),
                    ));
                    assert(json_of_elements(sv) == match json_of_elements(sv.skip(i + 1)) {
                        Ok(rest) => Ok::<Seq<(Seq<char>, SpecJson)>, Tag>(
                            view_json_entries(out@) + rest,
                        ),
                        Err(t) => Err::<Seq<(Seq<char>, SpecJson)>, Tag>(t),
                    }) by {
                        match json_of_elements(sv.skip(i + 1)) {
                            Ok(rest) => {
                                assert(view_json_entries(out_pre) + (seq![
                                    (out@[out@.len() - 1].0@, view_json(out@[out@.len() - 1].1)),
                                ] + rest) =~= view_json_entries(out@) + rest);
                            },
                            Err(t) => {},
                        }
                    }
                }
                i = i + 1;
            },
            Err(ce) => {
                proof {
                    assert(json_of_element(tail.first()) is Err);
                }
                return Err(ce);
            },
        }
    }
    proof {
        assert(sv.skip(sv.len() as int) =~= Seq::<SpecElement>::empty());
        assert(view_json_entries(out@) + Seq::<(Seq<char>, SpecJson)>::empty() =~= view_json_entries(
            out@,
        ));
    }
    Ok(JsonValue::Obj(out))
}

/// Every encoded element whose representation is not bulk binary carries
/// its `Value` as a JSON array, never a bare scalar, whatever its
/// multiplicity.  Together with `lemma_json_of_elements_ok`, which
/// places each element's encoding at its entry of the encoded object,
/// this covers every entry of every encoded data set.
pub proof fn lemma_value_array_invariant(tag: Tag, vr: VR, value: SpecValue)
    requires
        !is_binary_vr(vr),
    ensures
        json_of_value(tag, vr, value) matches Ok(v) ==> v is Arr,
{
}

/// Every encoded element of a bulk binary representation carries its
/// `Value` as one base64 JSON string, never an array.  Together with
/// `lemma_json_of_elements_ok`, this covers every entry of every
/// encoded data set.
pub proof fn lemma_binary_value_invariant(tag: Tag, vr: VR, value: SpecValue)
    requires
        is_binary_vr(vr),
    ensures
        json_of_value(tag, vr, value) matches Ok(v) ==> v is Str,
{
}

/// Every entry of a successfully encoded data set carries its element's
/// `Value` in the shape the representation demands: an array for
/// everything but the bulk binary representations, one base64 string
/// for those.
pub proof fn lemma_encoded_entry_shapes(ds: SpecDataSet)
    ensures
        json_of_dataset(ds) matches Ok(obj) ==> obj matches SpecJson::Obj(entries)
            && entries.len() == ds.elements.len() && forall|i: int|
            0 <= i < ds.elements.len() ==> {
                let e = #[trigger] ds.elements[i];
                let v = json_of_value(e.tag, e.vr, e.value)->Ok_0;
                &&& json_of_value(e.tag, e.vr, e.value) is Ok
                &&& entries[i] == (
                    tag_key_chars(e.tag),
                    SpecJson::Obj(
                        seq![
                            ("vr"@, SpecJson::Str(vr_code_chars(e.vr))),
                            ("Value"@, v),
                        ],
                    ),
                )
                &&& !is_binary_vr(e.vr) ==> v is Arr
                &&& is_binary_vr(e.vr) ==> v is Str
            },
{
    if json_of_dataset(ds) is Ok {
        lemma_json_of_elements_ok(ds.elements);
        assert forall|i: int| 0 <= i < ds.elements.len() implies {
            let e = #[trigger] ds.elements[i];
            let v = json_of_value(e.tag, e.vr, e.value)->Ok_0;
            &&& json_of_value(e.tag, e.vr, e.value) is Ok
            &&& json_of_dataset(ds)->Ok_0->Obj_0[i] == (
                tag_key_chars(e.tag),
                SpecJson::Obj(
                    seq![
                        ("vr"@, SpecJson::Str(vr_code_chars(e.vr))),
                        ("Value"@, v),
                    ],
                ),
            )
            &&& !is_binary_vr(e.vr) ==> v is Arr
            &&& is_binary_vr(e.vr) ==> v is Str
        } by {
            let e = ds.elements[i];
            if is_binary_vr(e.vr) {
                lemma_binary_value_invariant(e.tag, e.vr, e.value);
            } else {
                lemma_value_array_invariant(e.tag, e.vr, e.value);
            }
        }
    }
}

/// A successfully encoded data set has one entry per element, each the
/// encoding of the element at its position.
pub proof fn lemma_json_of_elements_ok(s: Seq<SpecElement>)
    ensures
        json_of_elements(s) matches Ok(entries) ==> entries.len() == s.len() && forall|i: int|
            0 <= i < s.len() ==> json_of_element(#[trigger] s[i]) == Ok::<
                (Seq<char>, SpecJson),
                Tag,
            >(entries[i]),
    decreases s.len(),
{
    if s.len() > 0 {
        lemma_json_of_elements_ok(s.drop_first());
        if json_of_elements(s) is Ok {
            let entries = json_of_elements(s)->Ok_0;
            let rest = json_of_elements(s.drop_first())->Ok_0;
            assert forall|i: int| 0 <= i < s.len() implies json_of_element(#[trigger] s[i]) == Ok::<
                (Seq<char>, SpecJson),
                Tag,
            >(entries[i]) by {
                if i > 0 {
                    assert(s.drop_first()[i - 1] == s[i]);
                    assert(entries[i] == rest[i - 1]);
                }
            }
        }
    }
}

/// First value stored under key `k`, scanning entries front to back.
pub open spec fn obj_get(entries: Seq<(Seq<char>, SpecJson)>, k: Seq<char>) -> Option<SpecJson>
    decreases entries.len(),
{
    if entries.len() == 0 {
        None
    } else if entries[0].0 == k {
        Some(entries[0].1)
    } else {
        obj_get(entries.drop_first(), k)
    }
}

/// Whatever `obj_get` finds sits strictly inside the entry list.
proof fn lemma_obj_get_height(entries: Seq<(Seq<char>, SpecJson)>, k: Seq<char>)
    ensures
        obj_get(entries, k) matches Some(x) ==> decreases_to!(entries => x),
    decreases entries.len(),
{
    if entries.len() > 0 {
        if entries[0].0 == k {
            assert(decreases_to!(entries => entries[0]));
            assert(decreases_to!(entries[0] => entries[0].1));
        } else {
            lemma_obj_get_height(entries.drop_first(), k);
            assert(decreases_to!(entries => entries.subrange(1, entries.len() as int)));
            assert(entries.drop_first() == entries.subrange(1, entries.len() as int));
        }
    }
}

pub open spec fn hex4_val(s: Seq<char>) -> nat
    recommends
        s.len() == 4,
{
    hex_char_val(s[0]) * 0x1000 + hex_char_val(s[1]) * 0x100 + hex_char_val(s[2]) * 16
        + hex_char_val(s[3])
}

pub open spec fn key_is_hex8(k: Seq<char>) -> bool {
    k.len() == 8 && forall|i: int| 0 <= i < 8 ==> hex_char_val(#[trigger] k[i]) < 16
}

/// The tag an eight-digit hexadecimal attribute key names, if any.
pub open spec fn tag_of_key(k: Seq<char>) -> Option<Tag> {
    if key_is_hex8(k) {
        Some(
            Tag {
                group: hex4_val(k.take(4)) as u16,
                element: hex4_val(k.skip(4)) as u16,
            },
        )
    } else {
        None
    }
}

/// Rebuilding one element value from its JSON `Value`, present case:
/// the inverse of `json_of_value`, refusing shapes that representation
/// never writes.
pub open spec fn value_of_json(tag: Tag, vr: VR, j: SpecJson) -> Result<SpecValue, CodecError>
    decreases j,
{
    if vr == VR::PN {
        match j {
            SpecJson::Arr(items) => {
                if items.len() == 1 {
                    match items[0] {
                        SpecJson::Obj(entries) => match obj_get(entries, "Alphabetic"@) {
                            Some(SpecJson::Str(s)) => Ok(SpecValue::Text(seq![s])),
                            _ => Err(CodecError::BadValue(tag)),
                        },
                        _ => Err(CodecError::BadValue(tag)),
                    }
                } else {
                    Err(CodecError::BadValue(tag))
                }
            },
            _ => Err(CodecError::BadValue(tag)),
        }
    } else if is_text_vr(vr) {
        match j {
            SpecJson::Arr(items) => {
                if forall|i: int| 0 <= i < items.len() ==> #[trigger] items[i] is Str {
                    Ok(SpecValue::Text(items.map(|i: int, x: SpecJson| x->Str_0)))
                } else {
                    Err(CodecError::BadValue(tag))
                }
            },
            _ => Err(CodecError::BadValue(tag)),
        }
    } else if is_real_vr(vr) {
        match j {
            SpecJson::Arr(items) => {
                if items.len() == 1 && items[0] is Num {
                    Ok(SpecValue::Real(items[0]->Num_0))
                } else {
                    Err(CodecError::BadValue(tag))
                }
            },
            _ => Err(CodecError::BadValue(tag)),
        }
    } else if is_binary_vr(vr) {
        match j {
            SpecJson::Str(s) => match base64_parse(s) {
                Some(b) => Ok(SpecValue::Bytes(b)),
                None => Err(CodecError::BadValue(tag)),
            },
            _ => Err(CodecError::BadValue(tag)),
        }
    } else if is_signed_int_vr(vr) {
        match j {
            SpecJson::Arr(items) => {
                if items.len() == 1 && items[0] is Int {
                    Ok(SpecValue::Int(items[0]->Int_0))
                } else if items.len() == 1 && items[0] is UInt && items[0]->UInt_0 <= i64::MAX {
                    Ok(SpecValue::Int(items[0]->UInt_0 as i64))
                } else {
                    Err(CodecError::BadValue(tag))
                }
            },
            _ => Err(CodecError::BadValue(tag)),
        }
    } else if is_unsigned_int_vr(vr) {
        match j {
            SpecJson::Arr(items) => {
                if items.len() == 1 && items[0] is UInt {
                    Ok(SpecValue::UInt(items[0]->UInt_0))
                } else if items.len() == 1 && items[0] is Int && items[0]->Int_0 >= 0 {
                    Ok(SpecValue::UInt(items[0]->Int_0 as u64))
                } else {
                    Err(CodecError::BadValue(tag))
                }
            },
            _ => Err(CodecError::BadValue(tag)),
        }
    } else {
        // all that remains is SQ: an array of nested objects
        match j {
            SpecJson::Arr(items) => match datasets_of_json(items) {
                Ok(dss) => Ok(SpecValue::Items(dss)),
                Err(e) => Err(e),
            },
            _ => Err(CodecError::BadValue(tag)),
        }
    }
}

/// Rebuilding one element from its attribute object: the `vr` field
/// names the representation; a missing `Value` stands for no values,
/// which only text and sequence representations can carry.
pub open spec fn attr_of_entries(tag: Tag, entries: Seq<(Seq<char>, SpecJson)>) -> Result<
    SpecElement,
    CodecError,
>
    decreases entries,
        via attr_of_entries_decreases
{
    match obj_get(entries, "vr"@) {
        Some(SpecJson::Str(code)) => {
            if code.len() == 2 && vr_of_pair(code[0], code[1]) is Some {
                let vr = vr_of_pair(code[0], code[1])->Some_0;
                match obj_get(entries, "Value"@) {
                    Some(j) => match value_of_json(tag, vr, j) {
                        Ok(v) => Ok(SpecElement { tag, vr, value: v }),
                        Err(e) => Err(e),
                    },
                    None => {
                        if is_text_vr(vr) {
                            Ok(SpecElement { tag, vr, value: SpecValue::Text(Seq::empty()) })
                        } else if vr == VR::SQ {
                            Ok(SpecElement { tag, vr, value: SpecValue::Items(Seq::empty()) })
                        } else {
                            Err(CodecError::BadValue(tag))
                        }
                    },
                }
            } else {
                Err(CodecError::UnknownVr)
            }
        },
        Some(_) => Err(CodecError::UnknownVr),
        None => Err(CodecError::MissingVr),
    }
}

#[via_fn]
proof fn attr_of_entries_decreases(tag: Tag, entries: Seq<(Seq<char>, SpecJson)>) {
    lemma_obj_get_height(entries, "Value"@);
}

/// Rebuilding one element from its key and attribute object.
pub open spec fn element_of_entry(k: Seq<char>, av: SpecJson) -> Result<SpecElement, CodecError>
    decreases av,
{
    match tag_of_key(k) {
        Some(tag) => match av {
            SpecJson::Obj(entries) => attr_of_entries(tag, entries),
            _ => Err(CodecError::MissingVr),
        },
        None => Err(CodecError::BadTagKey),
    }
}

pub open spec fn elements_of_entries(entries: Seq<(Seq<char>, SpecJson)>) -> Result<
    Seq<SpecElement>,
    CodecError,
>
    decreases entries,
{
    if entries.len() == 0 {
        Ok(Seq::empty())
    } else {
        match element_of_entry(entries.first().0, entries.first().1) {
            Ok(e) => match elements_of_entries(entries.drop_first()) {
                Ok(rest) => Ok(seq![e] + rest),
                Err(err) => Err(err),
            },
            Err(err) => Err(err),
        }
    }
}

/// Rebuilding a whole data set from one DICOM JSON object.  Objects
/// whose attribute keys are not in strictly increasing tag order are
/// refused: the result would break the data set's ordering invariant.
pub open spec fn dataset_of_json(j: SpecJson) -> Result<SpecDataSet, CodecError>
    decreases j,
{
    match j {
        SpecJson::Obj(entries) => match elements_of_entries(entries) {
            Ok(es) => {
                if crate::filter::spec_tags_sorted(es) {
                    Ok(SpecDataSet { elements: es })
                } else {
                    Err(CodecError::TagOrder)
                }
            },
            Err(err) => Err(err),
        },
        _ => Err(CodecError::NotAnObject),
    }
}

pub open spec fn datasets_of_json(list: Seq<SpecJson>) -> Result<Seq<SpecDataSet>, CodecError>
    decreases list,
{
    if list.len() == 0 {
        Ok(Seq::empty())
    } else {
        match dataset_of_json(list.first()) {
            Ok(ds) => match datasets_of_json(list.drop_first()) {
                Ok(rest) => Ok(seq![ds] + rest),
                Err(err) => Err(err),
            },
            Err(err) => Err(err),
        }
    }
}

/// Strictly increasing adjacent tags make the whole list sorted.
proof fn lemma_tag_chain(s: Seq<SpecElement>, i: int, j: int)
    requires
        forall|k: int|
            0 <= k < s.len() - 1 ==> crate::dataset::tag_lt(
                #[trigger] s[k].tag,
                s[k + 1].tag,
            ),
        0 <= i < j < s.len(),
    ensures
        crate::dataset::tag_lt(s[i].tag, s[j].tag),
    decreases j - i,
{
    if j > i + 1 {
        lemma_tag_chain(s, i, j - 1);
        assert(crate::dataset::tag_lt(s[j - 1].tag, s[j].tag));
    }
}

/// The tag an attribute key names, if the key is eight hexadecimal
/// digits.
pub fn parse_tag_key(k: &str) -> (r: Option<Tag>)
    ensures
        r == tag_of_key(k@),
{
    if k.unicode_len() != 8 {
        proof {
            assert(!key_is_hex8(k@));
        }
        return None;
    }
    let mut vals: Vec<u8> = Vec::new();
    let mut i: usize = 0;
    while i < 8
        invariant
            k@.len() == 8,
            i <= 8,
            vals@.len() == i,
            forall|m: int| 0 <= m < i ==> #[trigger] vals@[m] as nat == hex_char_val(k@[m]),
            forall|m: int| 0 <= m < i ==> hex_char_val(#[trigger] k@[m]) < 16,
        decreases 8 - i,
    {
        let c = k.get_char(i);
        let v = crate::ascii::hex_char_value(c);
        if v >= 16 {
            proof {
                assert(hex_char_val(k@[i as int]) >= 16);
                assert(!key_is_hex8(k@));
            }
            return None;
        }
        vals.push(v);
        i = i + 1;
    }
    let group: u16 = (vals[0] as u16) * 0x1000 + (vals[1] as u16) * 0x100 + (vals[2] as u16) * 16
        + (vals[3] as u16);
    let element: u16 = (vals[4] as u16) * 0x1000 + (vals[5] as u16) * 0x100 + (vals[6] as u16)
        * 16 + (vals[7] as u16);
    proof {
        assert(key_is_hex8(k@));
        assert(k@.take(4)[0] == k@[0] && k@.take(4)[1] == k@[1] && k@.take(4)[2] == k@[2]
            && k@.take(4)[3] == k@[3]);
        assert(k@.skip(4)[0] == k@[4] && k@.skip(4)[1] == k@[5] && k@.skip(4)[2] == k@[6]
            && k@.skip(4)[3] == k@[7]);
        assert(group as nat == hex4_val(k@.take(4)));
        assert(element as nat == hex4_val(k@.skip(4)));
    }
    Some(Tag { group, element })
}

/// Index of the first entry stored under `key`, mirroring `obj_get`.
fn obj_find_idx(entries: &Vec<(String, JsonValue)>, key: &str) -> (r: Option<usize>)
    ensures
        match r {
            Some(i) => i < entries@.len() && entries@[i as int].0@ == key@ && obj_get(
                view_json_entries(entries@),
                key@,
            ) == Some(view_json(entries@[i as int].1)),
            None => obj_get(view_json_entries(entries@), key@) is None,
        },
{
    let ghost ve = view_json_entries(entries@);
    let mut i: usize = 0;
    proof {
        lemma_view_json_entries(entries@);
        assert(ve.skip(0) =~= ve);
    }
    while i < entries.len()
        invariant
            ve == view_json_entries(entries@),
            ve.len() == entries@.len(),
            forall|m: int|
                0 <= m < ve.len() ==> #[trigger] ve[m] == (
                entries@[m].0@,
                view_json(entries@[m].1),
                ),
            i <= entries@.len(),
            obj_get(ve, key@) == obj_get(ve.skip(i as int), key@),
        decreases entries@.len() - i,
    {
        proof {
            assert(ve.skip(i as int).len() > 0);
            assert(ve.skip(i as int)[0] == ve[i as int]);
            assert(ve.skip(i as int).drop_first() =~= ve.skip(i + 1));
        }
        if crate::ascii::str_eq(entries[i].0.as_str(), key) {
            return Some(i);
        }
        i = i + 1;
    }
    proof {
        assert(ve.skip(ve.len() as int) =~= Seq::<(Seq<char>, SpecJson)>::empty());
    }
    None
}

/// Rebuilds one element value from a present JSON `Value`.
fn decode_value(tag: Tag, vr: VR, j: &JsonValue) -> (r: Result<ElementValue, CodecError>)
    ensures
        match r {
            Ok(v) => value_of_json(tag, vr, view_json(*j)) == Ok::<SpecValue, CodecError>(
                view_value(v),
            ),
            Err(e) => value_of_json(tag, vr, view_json(*j)) == Err::<SpecValue, CodecError>(e),
        },
    decreases *j,
{
    if vr == VR::PN {
        match j {
            JsonValue::Arr(items) => {
                proof {
                    lemma_view_jsons(items@);
                }
                if items.len() == 1 {
                    match &items[0] {
                        JsonValue::Obj(e2) => {
                            match obj_find_idx(e2, "Alphabetic") {
                                Some(ai) => match &e2[ai].1 {
                                    JsonValue::Str(s) => {
                                        let mut xs: Vec<String> = Vec::new();
                                        xs.push(s.clone());
                                        proof {
                                            assert(xs.deep_view() =~= seq![s@]);
                                        }
                                        Ok(ElementValue::Text(xs))
                                    },
                                    _ => Err(CodecError::BadValue(tag)),
                                },
                                None => Err(CodecError::BadValue(tag)),
                            }
                        },
                        _ => Err(CodecError::BadValue(tag)),
                    }
                } else {
                    Err(CodecError::BadValue(tag))
                }
            },
            _ => Err(CodecError::BadValue(tag)),
        }
    } else if vr_is_text(vr) {
        match j {
            JsonValue::Arr(items) => {
                let ghost iv = view_jsons(items@);
                proof {
                    lemma_view_jsons(items@);
                }
                let mut xs: Vec<String> = Vec::new();
                let mut i: usize = 0;
                proof {
                    assert(view_json(*j) == SpecJson::Arr(iv));
                }
                while i < items.len()
                    invariant
                        vr != VR::PN,
                        is_text_vr(vr),
                        view_json(*j) == SpecJson::Arr(iv),
                        iv == view_jsons(items@),
                        iv.len() == items@.len(),
                        forall|m: int| 0 <= m < iv.len() ==> #[trigger] iv[m] == view_json(
                            items@[m],
                        ),
                        i <= items@.len(),
                        xs@.len() == i,
                        forall|m: int|
                            0 <= m < i ==> #[trigger] iv[m] is Str && xs@[m]@ == iv[m]->Str_0,
                    decreases items@.len() - i,
                {
                    match &items[i] {
                        JsonValue::Str(s) => {
                            xs.push(s.clone());
                        },
                        _ => {
                            proof {
                                assert(!(iv[i as int] is Str));
                                assert(view_json(*j) == SpecJson::Arr(iv));
                                assert(!(forall|m: int|
                                    0 <= m < iv.len() ==> #[trigger] iv[m] is Str));
                            }
                            return Err(CodecError::BadValue(tag));
                        },
                    }
                    i = i + 1;
                }
                proof {
                    assert(xs.deep_view() =~= iv.map(|m: int, x: SpecJson| x->Str_0));
                }
                Ok(ElementValue::Text(xs))
            },
            _ => Err(CodecError::BadValue(tag)),
        }
    } else if vr == VR::FL || vr == VR::FD {
        match j {
            JsonValue::Arr(items) => {
                proof {
                    lemma_view_jsons(items@);
                }
                if items.len() == 1 {
                    match &items[0] {
                        JsonValue::Num(s) => Ok(ElementValue::Real(s.clone())),
                        _ => Err(CodecError::BadValue(tag)),
                    }
                } else {
                    Err(CodecError::BadValue(tag))
                }
            },
            _ => Err(CodecError::BadValue(tag)),
        }
    } else if vr_is_binary(vr) {
        match j {
            JsonValue::Str(s) => match base64_decode(s.as_str()) {
                Some(b) => Ok(ElementValue::Bytes(b)),
                None => Err(CodecError::BadValue(tag)),
            },
            _ => Err(CodecError::BadValue(tag)),
        }
    } else if vr == VR::SL || vr == VR::SS {
        match j {
            JsonValue::Arr(items) => {
                proof {
                    lemma_view_jsons(items@);
                }
                if items.len() == 1 {
                    match &items[0] {
                        JsonValue::Int(i) => Ok(ElementValue::Int(*i)),
                        JsonValue::UInt(u) => {
                            if *u <= i64::MAX as u64 {
                                Ok(ElementValue::Int(*u as i64))
                            } else {
                                Err(CodecError::BadValue(tag))
                            }
                        },
                        _ => Err(CodecError::BadValue(tag)),
                    }
                } else {
                    Err(CodecError::BadValue(tag))
                }
            },
            _ => Err(CodecError::BadValue(tag)),
        }
    } else if vr == VR::UL || vr == VR::US {
        match j {
            JsonValue::Arr(items) => {
                proof {
                    lemma_view_jsons(items@);
                }
                if items.len() == 1 {
                    match &items[0] {
                        JsonValue::UInt(u) => Ok(ElementValue::UInt(*u)),
                        JsonValue::Int(i) => {
                            if *i >= 0 {
                                Ok(ElementValue::UInt(*i as u64))
                            } else {
                                Err(CodecError::BadValue(tag))
                            }
                        },
                        _ => Err(CodecError::BadValue(tag)),
                    }
                } else {
                    Err(CodecError::BadValue(tag))
                }
            },
            _ => Err(CodecError::BadValue(tag)),
        }
    } else {
        match j {
            JsonValue::Arr(items) => match decode_sq_items(items) {
                Ok(dss) => Ok(ElementValue::Items(dss)),
                Err(e) => Err(e),
            },
            _ => Err(CodecError::BadValue(tag)),
        }
    }
}

/// Rebuilds the nested data sets of a sequence value.
fn decode_sq_items(items: &Vec<JsonValue>) -> (r: Result<Vec<DataSet>, CodecError>)
    ensures
        match r {
            Ok(dss) => datasets_of_json(view_jsons(items@)) == Ok::<Seq<SpecDataSet>, CodecError>(
                view_datasets(dss@),
            ) && forall|i: int| 0 <= i < dss@.len() ==> (#[trigger] dss@[i]).wf(),
            Err(e) => datasets_of_json(view_jsons(items@)) == Err::<Seq<SpecDataSet>, CodecError>(
                e,
            ),
        },
    decreases *items,
{
    let ghost iv = view_jsons(items@);
    let mut out: Vec<DataSet> = Vec::new();
    let mut i: usize = 0;
    proof {
        lemma_view_jsons(items@);
        assert(iv.skip(0) =~= iv);
    }
    while i < items.len()
        invariant
            iv == view_jsons(items@),
            iv.len() == items@.len(),
            forall|m: int| 0 <= m < iv.len() ==> #[trigger] iv[m] == view_json(items@[m]),
            i <= items@.len(),
            view_datasets(out@).len() == i,
            forall|m: int| 0 <= m < out@.len() ==> (#[trigger] out@[m]).wf(),
            datasets_of_json(iv) == match datasets_of_json(iv.skip(i as int)) {
                Ok(rest) => Ok::<Seq<SpecDataSet>, CodecError>(view_datasets(out@) + rest),
                Err(e) => Err::<Seq<SpecDataSet>, CodecError>(e),
            },
        decreases items@.len() - i,
    {
        let ghost out_pre = out@;
        let ghost tail = iv.skip(i as int);
        proof {
            assert(tail.len() > 0);
            assert(tail.first() == iv[i as int]);
            assert(tail.drop_first() =~= iv.skip(i + 1));
        }
        match decode_dataset(&items[i]) {
            Ok(ds) => {
                out.push(ds);
                proof {
                    crate::dataset::lemma_view_datasets(out_pre);
                    crate::dataset::lemma_view_datasets(out@);
                    assert(view_datasets(out@) =~= view_datasets(out_pre).push(
                        view_dataset(out@[out@.len() - 1]),
                    ));
                    assert(datasets_of_json(iv) == match datasets_of_json(iv.skip(i + 1)) {
                        Ok(rest) => Ok::<Seq<SpecDataSet>, CodecError>(view_datasets(out@) + rest),
                        Err(e) => Err::<Seq<SpecDataSet>, CodecError>(e),
                    }) by {
                        match datasets_of_json(iv.skip(i + 1)) {
                            Ok(rest) => {
                                assert(view_datasets(out_pre) + (seq![
                                    view_dataset(out@[out@.len() - 1]),
                                ] + rest) =~= view_datasets(out@) + rest);
                            },
                            Err(e) => {},
                        }
                    }
                }
                i = i + 1;
            },
            Err(e) => {
                return Err(e);
            },
        }
    }
    proof {
        assert(iv.skip(iv.len() as int) =~= Seq::<SpecJson>::empty());
        assert(view_datasets(out@) + Seq::<SpecDataSet>::empty() =~= view_datasets(out@));
    }
    Ok(out)
}

/// Rebuilds one element value given its looked-up `Value` entry.
fn decode_value_entry(tag: Tag, vr: VR, entry: &(String, JsonValue)) -> (r: Result<
    ElementValue,
    CodecError,
>)
    ensures
        match r {
            Ok(v) => value_of_json(tag, vr, view_json(entry.1)) == Ok::<SpecValue, CodecError>(
                view_value(v),
            ),
            Err(e) => value_of_json(tag, vr, view_json(entry.1)) == Err::<SpecValue, CodecError>(
                e,
            ),
        },
    decreases *entry,
{
    decode_value(tag, vr, &entry.1)
}

/// Rebuilds one element from its attribute object's entries.
fn decode_attr_entries(tag: Tag, attrs: &Vec<(String, JsonValue)>) -> (r: Result<
    DataElement,
    CodecError,
>)
    ensures
        match r {
            Ok(de) => attr_of_entries(tag, view_json_entries(attrs@)) == Ok::<
                SpecElement,
                CodecError,
            >(view_element(de)),
            Err(e) => attr_of_entries(tag, view_json_entries(attrs@)) == Err::<
                SpecElement,
                CodecError,
            >(e),
        },
    decreases *attrs,
{
    match obj_find_idx(attrs, "vr") {
        None => {
            proof {
                reveal_strlit("vr");
            }
            Err(CodecError::MissingVr)
        },
        Some(vi) => {
            proof {
                reveal_strlit("vr");
            }
            match &attrs[vi].1 {
                JsonValue::Str(code) => {
                    let cs = code.as_str();
                    if cs.unicode_len() != 2 {
                        return Err(CodecError::UnknownVr);
                    }
                    let c0 = cs.get_char(0);
                    let c1 = cs.get_char(1);
                    match crate::dataset::vr_from_pair(c0, c1) {
                        None => Err(CodecError::UnknownVr),
                        Some(vr) => {
                            match obj_find_idx(attrs, "Value") {
                                Some(i) => {
                                    proof {
                                        reveal_strlit("Value");
                                    }
                                    match decode_value_entry(tag, vr, &attrs[i]) {
                                        Ok(v) => Ok(DataElement { tag, vr, value: v }),
                                        Err(e) => Err(e),
                                    }
                                },
                                None => {
                                    proof {
                                        reveal_strlit("Value");
                                    }
                                    if vr_is_text(vr) {
                                        let out = DataElement {
                                            tag,
                                            vr,
                                            value: ElementValue::Text(Vec::new()),
                                        };
                                        proof {
                                            assert(out.value->Text_0.deep_view()
                                                =~= Seq::<Seq<char>>::empty());
                                        }
                                        Ok(out)
                                    } else if vr == VR::SQ {
                                        let out = DataElement {
                                            tag,
                                            vr,
                                            value: ElementValue::Items(Vec::new()),
                                        };
                                        proof {
                                            assert(view_datasets(out.value->Items_0@)
                                                =~= Seq::<SpecDataSet>::empty());
                                        }
                                        Ok(out)
                                    } else {
                                        Err(CodecError::BadValue(tag))
                                    }
                                },
                            }
                        },
                    }
                },
                _ => Err(CodecError::UnknownVr),
            }
        },
    }
}

/// Rebuilds one element from its attribute object.
fn decode_attr(tag: Tag, av: &JsonValue) -> (r: Result<DataElement, CodecError>)
    ensures
        match r {
            Ok(de) => (match view_json(*av) {
                SpecJson::Obj(entries) => attr_of_entries(tag, entries),
                _ => Err(CodecError::MissingVr),
            }) == Ok::<SpecElement, CodecError>(view_element(de)),
            Err(e) => (match view_json(*av) {
                SpecJson::Obj(entries) => attr_of_entries(tag, entries),
                _ => Err(CodecError::MissingVr),
            }) == Err::<SpecElement, CodecError>(e),
        },
    decreases *av,
{
    match av {
        JsonValue::Obj(attrs) => decode_attr_entries(tag, attrs),
        _ => Err(CodecError::MissingVr),
    }
}

/// Rebuilds one element from one attribute entry.
fn decode_entry(entry: &(String, JsonValue)) -> (r: Result<DataElement, CodecError>)
    ensures
        match r {
            Ok(de) => element_of_entry(entry.0@, view_json(entry.1)) == Ok::<
                SpecElement,
                CodecError,
            >(view_element(de)),
            Err(e) => element_of_entry(entry.0@, view_json(entry.1)) == Err::<
                SpecElement,
                CodecError,
            >(e),
        },
    decreases *entry,
{
    match parse_tag_key(entry.0.as_str()) {
        Some(tag) => decode_attr(tag, &entry.1),
        None => Err(CodecError::BadTagKey),
    }
}

/// Rebuilds the element list of one object, in entry order.
fn decode_entries(entries: &Vec<(String, JsonValue)>) -> (r: Result<Vec<DataElement>, CodecError>)
    ensures
        match r {
            Ok(es) => elements_of_entries(view_json_entries(entries@)) == Ok::<
                Seq<SpecElement>,
                CodecError,
            >(view_elements(es@)),
            Err(e) => elements_of_entries(view_json_entries(entries@)) == Err::<
                Seq<SpecElement>,
                CodecError,
            >(e),
        },
    decreases *entries,
{
    let ghost ev = view_json_entries(entries@);
    let mut out: Vec<DataElement> = Vec::new();
    let mut i: usize = 0;
    proof {
        lemma_view_json_entries(entries@);
        assert(ev.skip(0) =~= ev);
    }
    while i < entries.len()
        invariant
            ev == view_json_entries(entries@),
            ev.len() == entries@.len(),
            forall|m: int|
                0 <= m < ev.len() ==> #[trigger] ev[m] == (
                entries@[m].0@,
                view_json(entries@[m].1),
                ),
            i <= entries@.len(),
            view_elements(out@).len() == i,
            elements_of_entries(ev) == match elements_of_entries(ev.skip(i as int)) {
                Ok(rest) => Ok::<Seq<SpecElement>, CodecError>(view_elements(out@) + rest),
                Err(e) => Err::<Seq<SpecElement>, CodecError>(e),
            },
        decreases entries@.len() - i,
    {
        let ghost out_pre = out@;
        let ghost tail = ev.skip(i as int);
        proof {
            assert(tail.len() > 0);
            assert(tail.first() == ev[i as int]);
            assert(tail.drop_first() =~= ev.skip(i + 1));
        }
        match decode_entry(&entries[i]) {
            Ok(de) => {
                out.push(de);
                proof {
                    crate::dataset::lemma_view_elements(out_pre);
                    crate::dataset::lemma_view_elements(out@);
                    assert(view_elements(out@) =~= view_elements(out_pre).push(
                        view_element(out@[out@.len() - 1]),
                    ));
                    assert(elements_of_entries(ev) == match elements_of_entries(ev.skip(i + 1)) {
                        Ok(rest) => Ok::<Seq<SpecElement>, CodecError>(
                            view_elements(out@) + rest,
                        ),
                        Err(e) => Err::<Seq<SpecElement>, CodecError>(e),
                    }) by {
                        match elements_of_entries(ev.skip(i + 1)) {
                            Ok(rest) => {
                                assert(view_elements(out_pre) + (seq![
                                    view_element(out@[out@.len() - 1]),
                                ] + rest) =~= view_elements(out@) + rest);
                            },
                            Err(e) => {},
                        }
                    }
                }
                i = i + 1;
            },
            Err(e) => {
                return Err(e);
            },
        }
    }
    proof {
        assert(ev.skip(ev.len() as int) =~= Seq::<(Seq<char>, SpecJson)>::empty());
        assert(view_elements(out@) + Seq::<SpecElement>::empty() =~= view_elements(out@));
    }
    Ok(out)
}

/// Rebuilds a data set from one DICOM JSON object, refusing anything
/// that is not an object with well-formed, strictly increasing
/// attribute keys.
pub fn decode_dataset(j: &JsonValue) -> (r: Result<DataSet, CodecError>)
    ensures
        match r {
            Ok(ds) => dataset_of_json(view_json(*j)) == Ok::<SpecDataSet, CodecError>(
                view_dataset(ds),
            ) && ds.wf(),
            Err(e) => dataset_of_json(view_json(*j)) == Err::<SpecDataSet, CodecError>(e),
        },
    decreases *j,
{
    match j {
        JsonValue::Obj(entries) => {
            match decode_entries(entries) {
                Ok(es) => {
                    let ghost esv = view_elements(es@);
                    proof {
                        crate::dataset::lemma_view_elements(es@);
                    }
                    // the ordering check: adjacent tags must strictly increase
                    let n: usize = es.len();
                    let mut i: usize = 0;
                    let mut ordered = true;
                    while n > 0 && i < n - 1
                        invariant
                            n == es@.len(),
                            i <= n,
                            esv == view_elements(es@),
                            esv.len() == n,
                            forall|m: int|
                                0 <= m < n ==> #[trigger] esv[m] == view_element(es@[m]),
                            ordered ==> forall|m: int|
                                0 <= m < i && m + 1 < n ==> crate::dataset::tag_lt(
                                    #[trigger] esv[m].tag,
                                    esv[m + 1].tag,
                                ),
                            !ordered ==> !crate::filter::spec_tags_sorted(esv),
                        decreases n - i,
                    {
                        if !crate::dataset::tag_before(es[i].tag, es[i + 1].tag) {
                            proof {
                                assert(esv[i as int].tag == es@[i as int].tag);
                                assert(esv[i + 1].tag == es@[i + 1].tag);
                                assert(!crate::filter::spec_tags_sorted(esv));
                            }
                            ordered = false;
                        }
                        i = i + 1;
                    }
                    if ordered {
                        proof {
                            if esv.len() > 1 {
                                assert forall|a: int, b: int|
                                    0 <= a < b < esv.len() implies crate::dataset::tag_lt(
                                    #[trigger] esv[a].tag,
                                    #[trigger] esv[b].tag,
                                ) by {
                                    lemma_tag_chain(esv, a, b);
                                }
                            }
                            assert(crate::filter::spec_tags_sorted(esv));
                            assert forall|a: int, b: int|
                                0 <= a < b < es@.len() implies crate::dataset::tag_lt(
                                #[trigger] es@[a].tag,
                                #[trigger] es@[b].tag,
                            ) by {
                                assert(esv[a].tag == es@[a].tag && esv[b].tag == es@[b].tag);
                            }
                        }
                        Ok(DataSet { elements: es })
                    } else {
                        Err(CodecError::TagOrder)
                    }
                },
                Err(e) => Err(e),
            }
        },
        _ => Err(CodecError::NotAnObject),
    }
}

/// Rebuilds one data set per JSON object in the input list: the decode
/// direction of the codec, as QIDO and STOW responses are consumed.
pub fn json2dicom(parsed: &Vec<JsonValue>) -> (r: Result<Vec<DataSet>, CodecError>)
    ensures
        match r {
            Ok(dss) => datasets_of_json(view_jsons(parsed@)) == Ok::<
                Seq<SpecDataSet>,
                CodecError,
            >(view_datasets(dss@)) && forall|i: int|
                0 <= i < dss@.len() ==> (#[trigger] dss@[i]).wf(),
            Err(e) => datasets_of_json(view_jsons(parsed@)) == Err::<Seq<SpecDataSet>, CodecError>(
                e,
            ),
        },
{
    decode_sq_items(parsed)
}

/// The one fact the round trip needs of every byte value in a data
/// set: decoding its base64 form gives the bytes back, which is what
/// the base64 wrapper's contract grants at each encoding call.
pub open spec fn bytes_reparse_value(v: SpecValue) -> bool
    decreases v,
{
    match v {
        SpecValue::Bytes(b) => base64_parse(base64_of(b)) == Some(b),
        SpecValue::Items(dss) => bytes_reparse_datasets(dss),
        _ => true,
    }
}

pub open spec fn bytes_reparse_elements(s: Seq<SpecElement>) -> bool
    decreases s,
{
    s.len() == 0 || (bytes_reparse_value(s.first().value) && bytes_reparse_elements(
        s.drop_first(),
    ))
}

/// What the decoder needs of an encodable data set to rebuild it:
/// strictly increasing tags, at every nesting level, and byte values
/// whose base64 form parses back.
pub open spec fn bytes_reparse_dataset(ds: SpecDataSet) -> bool
    decreases ds,
{
    crate::filter::spec_tags_sorted(ds.elements) && bytes_reparse_elements(ds.elements)
}

pub open spec fn bytes_reparse_datasets(ss: Seq<SpecDataSet>) -> bool
    decreases ss,
{
    ss.len() == 0 || (bytes_reparse_dataset(ss.first()) && bytes_reparse_datasets(ss.drop_first()))
}

proof fn lemma_vr_code_roundtrip(vr: VR)
    ensures
        vr_code_chars(vr).len() == 2,
        vr_of_pair(vr_code_chars(vr)[0], vr_code_chars(vr)[1]) == Some(vr),
{
    reveal_strlit("AE");
    reveal_strlit("AS");
    reveal_strlit("AT");
    reveal_strlit("CS");
    reveal_strlit("DA");
    reveal_strlit("DS");
    reveal_strlit("DT");
    reveal_strlit("FL");
    reveal_strlit("FD");
    reveal_strlit("IS");
    reveal_strlit("LO");
    reveal_strlit("LT");
    reveal_strlit("OB");
    reveal_strlit("OD");
    reveal_strlit("OF");
    reveal_strlit("OL");
    reveal_strlit("OV");
    reveal_strlit("OW");
    reveal_strlit("PN");
    reveal_strlit("SH");
    reveal_strlit("SL");
    reveal_strlit("SQ");
    reveal_strlit("SS");
    reveal_strlit("ST");
    reveal_strlit("SV");
    reveal_strlit("TM");
    reveal_strlit("UC");
    reveal_strlit("UI");
    reveal_strlit("UL");
    reveal_strlit("UN");
    reveal_strlit("UR");
    reveal_strlit("US");
    reveal_strlit("UT");
    reveal_strlit("UV");
}

proof fn lemma_hex4_roundtrip(v: u16)
    ensures
        hex4_chars(v as nat).len() == 4,
        forall|i: int| 0 <= i < 4 ==> hex_char_val(#[trigger] hex4_chars(v as nat)[i]) < 16,
        hex4_val(hex4_chars(v as nat)) == v as nat,
{
    let n = v as nat;
    assert(hex_char_val(crate::ascii::hex_digit_char(n / 0x1000 % 16)) == n / 0x1000 % 16);
    assert(hex_char_val(crate::ascii::hex_digit_char(n / 0x100 % 16)) == n / 0x100 % 16);
    assert(hex_char_val(crate::ascii::hex_digit_char(n / 16 % 16)) == n / 16 % 16);
    assert(hex_char_val(crate::ascii::hex_digit_char(n % 16)) == n % 16);
    let x = v as int;
    vstd::arithmetic::div_mod::lemma_fundamental_div_mod(x, 0x1000);
    let q3 = x / 0x1000;
    let r3 = x % 0x1000;
    vstd::arithmetic::div_mod::lemma_fundamental_div_mod(r3, 0x100);
    let q2 = r3 / 0x100;
    let r2 = r3 % 0x100;
    vstd::arithmetic::div_mod::lemma_fundamental_div_mod(r2, 16);
    let q1 = r2 / 16;
    let r0 = r2 % 16;
    assert(q3 < 16 && 0 <= q3);
    assert(x == q3 * 0x1000 + r3 && 0 <= r3 < 0x1000);
    assert(x == (q3 * 16 + q2) * 0x100 + r2) by (nonlinear_arith)
        requires
            x == q3 * 0x1000 + r3,
            r3 == q2 * 0x100 + r2,
    ;
    vstd::arithmetic::div_mod::lemma_fundamental_div_mod_converse(x, 0x100, q3 * 16 + q2, r2);
    assert(x / 0x100 == q3 * 16 + q2);
    vstd::arithmetic::div_mod::lemma_fundamental_div_mod_converse(q3 * 16 + q2, 16, q3, q2);
    assert(x / 0x100 % 16 == q2);
    assert(x == (q3 * 0x100 + q2 * 16 + q1) * 16 + r0) by (nonlinear_arith)
        requires
            x == q3 * 0x1000 + r3,
            r3 == q2 * 0x100 + r2,
            r2 == q1 * 16 + r0,
    ;
    vstd::arithmetic::div_mod::lemma_fundamental_div_mod_converse(
        x,
        16,
        q3 * 0x100 + q2 * 16 + q1,
        r0,
    );
    assert(x / 16 == q3 * 0x100 + q2 * 16 + q1);
    vstd::arithmetic::div_mod::lemma_fundamental_div_mod_converse(
        q3 * 0x100 + q2 * 16 + q1,
        16,
        q3 * 16 + q2,
        q1,
    );
    assert(x / 16 % 16 == q1);
    assert(x % 16 == r0);
    assert(x / 0x1000 % 16 == q3);
    assert(hex4_val(hex4_chars(v as nat)) == q3 * 0x1000 + q2 * 0x100 + q1 * 16 + r0);
    assert(q3 * 0x1000 + q2 * 0x100 + q1 * 16 + r0 == x) by (nonlinear_arith)
        requires
            x == q3 * 0x1000 + r3,
            r3 == q2 * 0x100 + r2,
            r2 == q1 * 16 + r0,
    ;
}

proof fn lemma_tag_key_roundtrip(t: Tag)
    ensures
        tag_of_key(tag_key_chars(t)) == Some(t),
{
    let k = tag_key_chars(t);
    lemma_hex4_roundtrip(t.group);
    lemma_hex4_roundtrip(t.element);
    assert(k.take(4) =~= hex4_chars(t.group as nat));
    assert(k.skip(4) =~= hex4_chars(t.element as nat));
    assert(key_is_hex8(k)) by {
        assert(forall|i: int|
            0 <= i < 4 ==> #[trigger] k[i] == hex4_chars(t.group as nat)[i]);
        assert(forall|i: int|
            4 <= i < 8 ==> #[trigger] k[i] == hex4_chars(t.element as nat)[i - 4]);
    }
}

proof fn lemma_rt_value(tag: Tag, vr: VR, v: SpecValue)
    requires
        bytes_reparse_value(v),
        json_of_value(tag, vr, v) is Ok,
    ensures
        value_of_json(tag, vr, json_of_value(tag, vr, v)->Ok_0) == Ok::<SpecValue, CodecError>(v),
    decreases v,
{
    let j = json_of_value(tag, vr, v)->Ok_0;
    if vr == VR::PN {
        let xs = v->Text_0;
        let entries = seq![("Alphabetic"@, SpecJson::Str(xs[0]))];
        assert(obj_get(entries, "Alphabetic"@) == Some(SpecJson::Str(xs[0])));
        assert(seq![xs[0]] =~= xs);
    } else if is_text_vr(vr) {
        let xs = v->Text_0;
        let items = xs.map(|i: int, s: Seq<char>| SpecJson::Str(s));
        assert(forall|i: int| 0 <= i < items.len() ==> #[trigger] items[i] is Str);
        assert(items.map(|i: int, x: SpecJson| x->Str_0) =~= xs);
    } else if is_real_vr(vr) {
    } else if is_binary_vr(vr) {
    } else if is_signed_int_vr(vr) {
    } else if is_unsigned_int_vr(vr) {
    } else {
        let dss = v->Items_0;
        lemma_rt_datasets(dss);
    }
}

proof fn lemma_rt_element(e: SpecElement)
    requires
        bytes_reparse_value(e.value),
        json_of_element(e) is Ok,
    ensures
        element_of_entry(json_of_element(e)->Ok_0.0, json_of_element(e)->Ok_0.1) == Ok::<
            SpecElement,
            CodecError,
        >(e),
    decreases e,
{
    reveal_strlit("vr");
    reveal_strlit("Value");
    let v = json_of_value(e.tag, e.vr, e.value)->Ok_0;
    let entries = seq![
        ("vr"@, SpecJson::Str(vr_code_chars(e.vr))),
        ("Value"@, v),
    ];
    lemma_tag_key_roundtrip(e.tag);
    lemma_vr_code_roundtrip(e.vr);
    assert("vr"@.len() == 2 && "Value"@.len() == 5);
    assert("vr"@ != "Value"@);
    assert(obj_get(entries, "vr"@) == Some(SpecJson::Str(vr_code_chars(e.vr))));
    assert(entries.drop_first() =~= seq![("Value"@, v)]);
    assert(obj_get(seq![("Value"@, v)], "Value"@) == Some(v));
    assert(obj_get(entries, "Value"@) == Some(v));
    lemma_rt_value(e.tag, e.vr, e.value);
    assert(SpecElement { tag: e.tag, vr: e.vr, value: e.value } == e);
}

proof fn lemma_rt_elements(s: Seq<SpecElement>)
    requires
        bytes_reparse_elements(s),
        json_of_elements(s) is Ok,
    ensures
        elements_of_entries(json_of_elements(s)->Ok_0) == Ok::<Seq<SpecElement>, CodecError>(s),
    decreases s,
{
    if s.len() == 0 {
        assert(json_of_elements(s)->Ok_0 =~= Seq::<(Seq<char>, SpecJson)>::empty());
        assert(elements_of_entries(Seq::<(Seq<char>, SpecJson)>::empty()) == Ok::<
            Seq<SpecElement>,
            CodecError,
        >(Seq::empty()));
        assert(s =~= Seq::<SpecElement>::empty());
    } else {
        let entry = json_of_element(s.first())->Ok_0;
        let rest = json_of_elements(s.drop_first())->Ok_0;
        let entries = json_of_elements(s)->Ok_0;
        assert(entries == seq![entry] + rest);
        assert(entries.first() == entry);
        assert(entries.drop_first() =~= rest);
        lemma_rt_element(s.first());
        lemma_rt_elements(s.drop_first());
        assert(element_of_entry(entries.first().0, entries.first().1) == Ok::<
            SpecElement,
            CodecError,
        >(s.first()));
        assert(elements_of_entries(entries.drop_first()) == Ok::<Seq<SpecElement>, CodecError>(
            s.drop_first(),
        ));
        assert(seq![s.first()] + s.drop_first() =~= s);
        assert(elements_of_entries(entries) == Ok::<Seq<SpecElement>, CodecError>(s));
    }
}

proof fn lemma_rt_datasets(ss: Seq<SpecDataSet>)
    requires
        bytes_reparse_datasets(ss),
        json_of_datasets(ss) is Ok,
    ensures
        datasets_of_json(json_of_datasets(ss)->Ok_0) == Ok::<Seq<SpecDataSet>, CodecError>(ss),
    decreases ss,
{
    if ss.len() == 0 {
        assert(json_of_datasets(ss)->Ok_0 =~= Seq::<SpecJson>::empty());
        assert(datasets_of_json(Seq::<SpecJson>::empty()) == Ok::<Seq<SpecDataSet>, CodecError>(
            Seq::empty(),
        ));
        assert(ss =~= Seq::<SpecDataSet>::empty());
    } else {
        let obj = json_of_dataset(ss.first())->Ok_0;
        let rest = json_of_datasets(ss.drop_first())->Ok_0;
        let list = json_of_datasets(ss)->Ok_0;
        assert(list == seq![obj] + rest);
        assert(list.first() == obj);
        assert(list.drop_first() =~= rest);
        lemma_json_round_trip(ss.first());
        lemma_rt_datasets(ss.drop_first());
        assert(dataset_of_json(list.first()) == Ok::<SpecDataSet, CodecError>(ss.first()));
        assert(datasets_of_json(list.drop_first()) == Ok::<Seq<SpecDataSet>, CodecError>(
            ss.drop_first(),
        ));
        assert(seq![ss.first()] + ss.drop_first() =~= ss);
        assert(datasets_of_json(list) == Ok::<Seq<SpecDataSet>, CodecError>(ss));
    }
}

/// Round trip of the attribute codec: decoding what the encoder wrote
/// rebuilds the very data set, whenever encoding succeeded, tags are
/// strictly increasing at every level, and each byte value's base64
/// form parses back — the last being exactly what the base64 relying
/// contract grants at every encoding call.
pub proof fn lemma_json_round_trip(ds: SpecDataSet)
    requires
        bytes_reparse_dataset(ds),
        json_of_dataset(ds) is Ok,
    ensures
        dataset_of_json(json_of_dataset(ds)->Ok_0) == Ok::<SpecDataSet, CodecError>(ds),
    decreases ds,
{
    let entries = json_of_elements(ds.elements)->Ok_0;
    lemma_rt_elements(ds.elements);
    assert(SpecDataSet { elements: ds.elements } == ds);
}

} // verus!