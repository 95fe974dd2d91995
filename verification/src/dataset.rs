//! The library's model of a DICOM data set: an ordered mapping from
//! attribute tags to elements, each element carrying a value
//! representation and a value of the plain shape that representation
//! calls for.  Binary parsing and writing of the DICOM file format stay
//! with the external toolkit; this type holds what the codecs read.

use crate::ascii::hex4_chars;
use crate::ascii::hex_digit_str;
use vstd::prelude::*;
use vstd::string::StringExecFns;

verus! {

broadcast use vstd::std_specs::vec::group_vec_axioms;

/// A DICOM attribute tag: a (group, element) pair of 16-bit words.
#[derive(Clone, Copy, PartialEq, Eq, Structural, Debug)]
pub struct Tag {
    pub group: u16,
    pub element: u16,
}

/// Numeric tag order: group first, then element.
pub open spec fn tag_lt(a: Tag, b: Tag) -> bool {
    a.group < b.group || (a.group == b.group && a.element < b.element)
}

pub fn tag_before(a: Tag, b: Tag) -> (r: bool)
    ensures
        r == tag_lt(a, b),
{
    a.group < b.group || (a.group == b.group && a.element < b.element)
}

/// The value representations of the DICOM standard.
#[derive(Clone, Copy, PartialEq, Eq, Structural, Debug)]
#[allow(missing_docs)]
pub enum VR {
    AE,
    AS,
    AT,
    CS,
    DA,
    DS,
    DT,
    FL,
    FD,
    IS,
    LO,
    LT,
    OB,
    OD,
    OF,
    OL,
    OV,
    OW,
    PN,
    SH,
    SL,
    SQ,
    SS,
    ST,
    SV,
    TM,
    UC,
    UI,
    UL,
    UN,
    UR,
    US,
    UT,
    UV,
}

/// Text-like representations, whose JSON form is an array of strings.
pub open spec fn is_text_vr(vr: VR) -> bool {
    match vr {
        VR::AE | VR::AS | VR::AT | VR::CS | VR::DA | VR::DS | VR::DT | VR::IS | VR::LO | VR::LT
            | VR::SH | VR::ST | VR::SV | VR::TM | VR::UC | VR::UI | VR::UR | VR::UT | VR::UV => true,
        _ => false,
    }
}

/// Bulk binary representations, whose JSON form is one base64 string.
pub open spec fn is_binary_vr(vr: VR) -> bool {
    match vr {
        VR::OB | VR::OD | VR::OF | VR::OL | VR::OV | VR::OW | VR::UN => true,
        _ => false,
    }
}

/// Floating-point representations, carried here as decimal text.
pub open spec fn is_real_vr(vr: VR) -> bool {
    vr == VR::FL || vr == VR::FD
}

pub open spec fn is_signed_int_vr(vr: VR) -> bool {
    vr == VR::SL || vr == VR::SS
}

pub open spec fn is_unsigned_int_vr(vr: VR) -> bool {
    vr == VR::UL || vr == VR::US
}

pub open spec fn vr_code_chars(vr: VR) -> Seq<char> {
    match vr {
        VR::AE => "AE"@,
        VR::AS => "AS"@,
        VR::AT => "AT"@,
        VR::CS => "CS"@,
        VR::DA => "DA"@,
        VR::DS => "DS"@,
        VR::DT => "DT"@,
        VR::FL => "FL"@,
        VR::FD => "FD"@,
        VR::IS => "IS"@,
        VR::LO => "LO"@,
        VR::LT => "LT"@,
        VR::OB => "OB"@,
        VR::OD => "OD"@,
        VR::OF => "OF"@,
        VR::OL => "OL"@,
        VR::OV => "OV"@,
        VR::OW => "OW"@,
        VR::PN => "PN"@,
        VR::SH => "SH"@,
        VR::SL => "SL"@,
        VR::SQ => "SQ"@,
        VR::SS => "SS"@,
        VR::ST => "ST"@,
        VR::SV => "SV"@,
        VR::TM => "TM"@,
        VR::UC => "UC"@,
        VR::UI => "UI"@,
        VR::UL => "UL"@,
        VR::UN => "UN"@,
        VR::UR => "UR"@,
        VR::US => "US"@,
        VR::UT => "UT"@,
        VR::UV => "UV"@,
    }
}

impl VR {
    /// The two-letter code of this representation.
    pub fn code(&self) -> (r: &'static str)
        ensures
            r@ == vr_code_chars(*self),
    {
        match self {
            VR::AE => "AE",
            VR::AS => "AS",
            VR::AT => "AT",
            VR::CS => "CS",
            VR::DA => "DA",
            VR::DS => "DS",
            VR::DT => "DT",
            VR::FL => "FL",
            VR::FD => "FD",
            VR::IS => "IS",
            VR::LO => "LO",
            VR::LT => "LT",
            VR::OB => "OB",
            VR::OD => "OD",
            VR::OF => "OF",
            VR::OL => "OL",
            VR::OV => "OV",
            VR::OW => "OW",
            VR::PN => "PN",
            VR::SH => "SH",
            VR::SL => "SL",
            VR::SQ => "SQ",
            VR::SS => "SS",
            VR::ST => "ST",
            VR::SV => "SV",
            VR::TM => "TM",
            VR::UC => "UC",
            VR::UI => "UI",
            VR::UL => "UL",
            VR::UN => "UN",
            VR::UR => "UR",
            VR::US => "US",
            VR::UT => "UT",
            VR::UV => "UV",
        }
    }
}

/// Which representation a two-character code pair names, if any.
pub open spec fn vr_of_pair(a: char, b: char) -> Option<VR> {
    if a == 'A' && b == 'E' {
        Some(VR::AE)
    } else if a == 'A' && b == 'S' {
        Some(VR::AS)
    } else if a == 'A' && b == 'T' {
        Some(VR::AT)
    } else if a == 'C' && b == 'S' {
        Some(VR::CS)
    } else if a == 'D' && b == 'A' {
        Some(VR::DA)
    } else if a == 'D' && b == 'S' {
        Some(VR::DS)
    } else if a == 'D' && b == 'T' {
        Some(VR::DT)
    } else if a == 'F' && b == 'L' {
        Some(VR::FL)
    } else if a == 'F' && b == 'D' {
        Some(VR::FD)
    } else if a == 'I' && b == 'S' {
        Some(VR::IS)
    } else if a == 'L' && b == 'O' {
        Some(VR::LO)
    } else if a == 'L' && b == 'T' {
        Some(VR::LT)
    } else if a == 'O' && b == 'B' {
        Some(VR::OB)
    } else if a == 'O' && b == 'D' {
        Some(VR::OD)
    } else if a == 'O' && b == 'F' {
        Some(VR::OF)
    } else if a == 'O' && b == 'L' {
        Some(VR::OL)
    } else if a == 'O' && b == 'V' {
        Some(VR::OV)
    } else if a == 'O' && b == 'W' {
        Some(VR::OW)
    } else if a == 'P' && b == 'N' {
        Some(VR::PN)
    } else if a == 'S' && b == 'H' {
        Some(VR::SH)
    } else if a == 'S' && b == 'L' {
        Some(VR::SL)
    } else if a == 'S' && b == 'Q' {
        Some(VR::SQ)
    } else if a == 'S' && b == 'S' {
        Some(VR::SS)
    } else if a == 'S' && b == 'T' {
        Some(VR::ST)
    } else if a == 'S' && b == 'V' {
        Some(VR::SV)
    } else if a == 'T' && b == 'M' {
        Some(VR::TM)
    } else if a == 'U' && b == 'C' {
        Some(VR::UC)
    } else if a == 'U' && b == 'I' {
        Some(VR::UI)
    } else if a == 'U' && b == 'L' {
        Some(VR::UL)
    } else if a == 'U' && b == 'N' {
        Some(VR::UN)
    } else if a == 'U' && b == 'R' {
        Some(VR::UR)
    } else if a == 'U' && b == 'S' {
        Some(VR::US)
    } else if a == 'U' && b == 'T' {
        Some(VR::UT)
    } else if a == 'U' && b == 'V' {
        Some(VR::UV)
    } else {
        None
    }
}

pub fn vr_from_pair(a: char, b: char) -> (r: Option<VR>)
    ensures
        r == vr_of_pair(a, b),
{
    if a == 'A' && b == 'E' {
        Some(VR::AE)
    } else if a == 'A' && b == 'S' {
        Some(VR::AS)
    } else if a == 'A' && b == 'T' {
        Some(VR::AT)
    } else if a == 'C' && b == 'S' {
        Some(VR::CS)
    } else if a == 'D' && b == 'A' {
        Some(VR::DA)
    } else if a == 'D' && b == 'S' {
        Some(VR::DS)
    } else if a == 'D' && b == 'T' {
        Some(VR::DT)
    } else if a == 'F' && b == 'L' {
        Some(VR::FL)
    } else if a == 'F' && b == 'D' {
        Some(VR::FD)
    } else if a == 'I' && b == 'S' {
        Some(VR::IS)
    } else if a == 'L' && b == 'O' {
        Some(VR::LO)
    } else if a == 'L' && b == 'T' {
        Some(VR::LT)
    } else if a == 'O' && b == 'B' {
        Some(VR::OB)
    } else if a == 'O' && b == 'D' {
        Some(VR::OD)
    } else if a == 'O' && b == 'F' {
        Some(VR::OF)
    } else if a == 'O' && b == 'L' {
        Some(VR::OL)
    } else if a == 'O' && b == 'V' {
        Some(VR::OV)
    } else if a == 'O' && b == 'W' {
        Some(VR::OW)
    } else if a == 'P' && b == 'N' {
        Some(VR::PN)
    } else if a == 'S' && b == 'H' {
        Some(VR::SH)
    } else if a == 'S' && b == 'L' {
        Some(VR::SL)
    } else if a == 'S' && b == 'Q' {
        Some(VR::SQ)
    } else if a == 'S' && b == 'S' {
        Some(VR::SS)
    } else if a == 'S' && b == 'T' {
        Some(VR::ST)
    } else if a == 'S' && b == 'V' {
        Some(VR::SV)
    } else if a == 'T' && b == 'M' {
        Some(VR::TM)
    } else if a == 'U' && b == 'C' {
        Some(VR::UC)
    } else if a == 'U' && b == 'I' {
        Some(VR::UI)
    } else if a == 'U' && b == 'L' {
        Some(VR::UL)
    } else if a == 'U' && b == 'N' {
        Some(VR::UN)
    } else if a == 'U' && b == 'R' {
        Some(VR::UR)
    } else if a == 'U' && b == 'S' {
        Some(VR::US)
    } else if a == 'U' && b == 'T' {
        Some(VR::UT)
    } else if a == 'U' && b == 'V' {
        Some(VR::UV)
    } else {
        None
    }
}

/// An element's value, in the plain shape its representation calls for.
/// Floating-point values travel as their decimal text; sequences nest
/// whole data sets.
pub enum ElementValue {
    Text(Vec<String>),
    Real(String),
    Bytes(Vec<u8>),
    Int(i64),
    UInt(u64),
    Items(Vec<DataSet>),
}

/// One attribute: its tag, representation, and value.
pub struct DataElement {
    pub tag: Tag,
    pub vr: VR,
    pub value: ElementValue,
}

/// An ordered collection of attributes, kept sorted by tag with no
/// duplicates.
pub struct DataSet {
    pub elements: Vec<DataElement>,
}

pub open spec fn tags_sorted(s: Seq<DataElement>) -> bool {
    forall|i: int, j: int| 0 <= i < j < s.len() ==> tag_lt(#[trigger] s[i].tag, #[trigger] s[j].tag)
}

pub open spec fn has_tag(s: Seq<DataElement>, t: Tag) -> bool {
    exists|i: int| 0 <= i < s.len() && #[trigger] s[i].tag == t
}

/// Where a new element lands among existing ones: before the first tag
/// not below it, replacing that one if the tags are equal.
pub open spec fn insert_elem(s: Seq<DataElement>, e: DataElement) -> Seq<DataElement>
    decreases s.len(),
{
    if s.len() == 0 {
        seq![e]
    } else if tag_lt(e.tag, s[0].tag) {
        seq![e] + s
    } else if e.tag == s[0].tag {
        seq![e] + s.drop_first()
    } else {
        seq![s[0]] + insert_elem(s.drop_first(), e)
    }
}

pub proof fn lemma_insert_elem_sorted(s: Seq<DataElement>, e: DataElement)
    requires
        tags_sorted(s),
    ensures
        tags_sorted(insert_elem(s, e)),
        forall|t: Tag|
            #![trigger has_tag(insert_elem(s, e), t)]
            has_tag(insert_elem(s, e), t) <==> t == e.tag || has_tag(s, t),
    decreases s.len(),
{
    let r = insert_elem(s, e);
    if s.len() == 0 {
        assert forall|t: Tag| has_tag(r, t) implies t == e.tag || has_tag(s, t) by {}
        assert(r[0].tag == e.tag);
    } else if tag_lt(e.tag, s[0].tag) {
        assert forall|i: int, j: int| 0 <= i < j < r.len() implies tag_lt(r[i].tag, r[j].tag) by {
            if i > 0 {
                assert(r[i] == s[i - 1] && r[j] == s[j - 1]);
            } else {
                assert(r[j] == s[j - 1]);
            }
        }
        assert forall|t: Tag| has_tag(r, t) implies t == e.tag || has_tag(s, t) by {
            let i = choose|i: int| 0 <= i < r.len() && r[i].tag == t;
            if i > 0 {
                assert(s[i - 1].tag == t);
            }
        }
        assert forall|t: Tag| t == e.tag || has_tag(s, t) implies has_tag(r, t) by {
            if t == e.tag {
                assert(r[0].tag == t);
            } else {
                let i = choose|i: int| 0 <= i < s.len() && s[i].tag == t;
                assert(r[i + 1].tag == t);
            }
        }
    } else if e.tag == s[0].tag {
        assert forall|i: int, j: int| 0 <= i < j < r.len() implies tag_lt(r[i].tag, r[j].tag) by {
            if i > 0 {
                assert(r[i] == s[i] && r[j] == s[j]);
            } else {
                assert(r[j] == s[j]);
            }
        }
        assert forall|t: Tag| has_tag(r, t) implies t == e.tag || has_tag(s, t) by {
            let i = choose|i: int| 0 <= i < r.len() && r[i].tag == t;
            if i > 0 {
                assert(s[i].tag == t);
            }
        }
        assert forall|t: Tag| t == e.tag || has_tag(s, t) implies has_tag(r, t) by {
            if t == e.tag {
                assert(r[0].tag == t);
            } else {
                let i = choose|i: int| 0 <= i < s.len() && s[i].tag == t;
                assert(i > 0);
                assert(r[i].tag == t);
            }
        }
    } else {
        let rest = s.drop_first();
        assert(tags_sorted(rest)) by {
            assert(forall|i: int, j: int|
                0 <= i < j < rest.len() ==> rest[i] == s[i + 1] && rest[j] == s[j + 1]);
        }
        lemma_insert_elem_sorted(rest, e);
        let ri = insert_elem(rest, e);
        assert(r == seq![s[0]] + ri);
        // every tag in the recursive result sits above s[0]'s tag
        assert forall|k: int| 0 <= k < ri.len() implies tag_lt(s[0].tag, ri[k].tag) by {
            assert(has_tag(ri, ri[k].tag));
            if ri[k].tag == e.tag {
                assert(tag_lt(s[0].tag, e.tag));
            } else {
                let m = choose|m: int| 0 <= m < rest.len() && rest[m].tag == ri[k].tag;
                assert(rest[m] == s[m + 1]);
            }
        }
        assert forall|i: int, j: int| 0 <= i < j < r.len() implies tag_lt(r[i].tag, r[j].tag) by {
            if i > 0 {
                assert(r[i] == ri[i - 1] && r[j] == ri[j - 1]);
            } else {
                assert(r[j] == ri[j - 1]);
            }
        }
        assert forall|t: Tag| has_tag(r, t) implies t == e.tag || has_tag(s, t) by {
            let i = choose|i: int| 0 <= i < r.len() && r[i].tag == t;
            if i == 0 {
                assert(s[0].tag == t);
            } else {
                assert(r[i] == ri[i - 1]);
                assert(has_tag(ri, t));
                if t != e.tag {
                    let m = choose|m: int| 0 <= m < rest.len() && rest[m].tag == t;
                    assert(rest[m] == s[m + 1]);
                    assert(s[m + 1].tag == t);
                }
            }
        }
        assert forall|t: Tag| t == e.tag || has_tag(s, t) implies has_tag(r, t) by {
            if t == s[0].tag && t != e.tag {
                assert(r[0].tag == t);
            } else {
                if t != e.tag {
                    let i0 = choose|i0: int| 0 <= i0 < s.len() && s[i0].tag == t;
                    assert(i0 > 0);
                    assert(rest[i0 - 1] == s[i0]);
                    assert(has_tag(rest, t));
                }
                assert(has_tag(ri, t));
                let m = choose|m: int| 0 <= m < ri.len() && ri[m].tag == t;
                assert(r[m + 1] == ri[m]);
                assert(r[m + 1].tag == t);
            }
        }
    }
}

impl DataSet {
    /// Tags strictly increase along the element list.
    pub open spec fn wf(self) -> bool {
        tags_sorted(self.elements@)
    }

    pub fn new() -> (r: DataSet)
        ensures
            r.elements@ =~= Seq::<DataElement>::empty(),
            r.wf(),
    {
        DataSet { elements: Vec::new() }
    }

    pub fn len(&self) -> (r: usize)
        ensures
            r == self.elements@.len(),
    {
        self.elements.len()
    }

    /// Adds `e` at its tag's place, replacing any element already there.
    pub fn insert(&mut self, e: DataElement)
        ensures
            final(self).elements@ == insert_elem(old(self).elements@, e),
            old(self).wf() ==> final(self).wf(),
    {
        let ghost s0 = self.elements@;
        let n: usize = self.elements.len();
        let mut i: usize = 0;
        while i < n && tag_before(self.elements[i].tag, e.tag)
            invariant
                self.elements@ == s0,
                n == s0.len(),
                i <= n,
                forall|j: int| 0 <= j < i ==> tag_lt(#[trigger] s0[j].tag, e.tag),
            decreases n - i,
        {
            i = i + 1;
        }
        if i < n && self.elements[i].tag == e.tag {
            self.elements.remove(i);
            self.elements.insert(i, e);
            proof {
                lemma_insert_at(s0, e, i as int);
                assert(final(self).elements@ =~= insert_elem(s0, e));
            }
        } else {
            self.elements.insert(i, e);
            proof {
                lemma_insert_at(s0, e, i as int);
                assert(final(self).elements@ =~= insert_elem(s0, e));
            }
        }
        proof {
            if old(self).wf() {
                lemma_insert_elem_sorted(s0, e);
            }
        }
    }

    /// Looks an element up by tag.
    pub fn element_by_tag(&self, t: Tag) -> (r: Option<&DataElement>)
        ensures
            match r {
                Some(e) => has_tag(self.elements@, t) && exists|i: int|
                    0 <= i < self.elements@.len() && self.elements@[i] == *e && e.tag == t,
                None => !has_tag(self.elements@, t),
            },
    {
        let n: usize = self.elements.len();
        let mut i: usize = 0;
        while i < n
            invariant
                n == self.elements@.len(),
                i <= n,
                forall|j: int| 0 <= j < i ==> #[trigger] self.elements@[j].tag != t,
            decreases n - i,
        {
            if self.elements[i].tag == t {
                return Some(&self.elements[i]);
            }
            i = i + 1;
        }
        None
    }
}

proof fn lemma_insert_at(s: Seq<DataElement>, e: DataElement, i: int)
    requires
        0 <= i <= s.len(),
        forall|j: int| 0 <= j < i ==> tag_lt(#[trigger] s[j].tag, e.tag),
        i < s.len() ==> !tag_lt(s[i].tag, e.tag),
    ensures
        i < s.len() && s[i].tag == e.tag ==> insert_elem(s, e) == s.take(i) + seq![e] + s.skip(
            i + 1,
        ),
        i < s.len() && s[i].tag != e.tag ==> insert_elem(s, e) == s.take(i) + seq![e] + s.skip(i),
        i == s.len() ==> insert_elem(s, e) == s.take(i) + seq![e],
    decreases i,
{
    if i == 0 {
        if s.len() == 0 {
            assert(insert_elem(s, e) =~= s.take(0) + seq![e]);
        } else if s[0].tag == e.tag {
            assert(seq![e] + s.drop_first() =~= s.take(0) + seq![e] + s.skip(1));
        } else {
            assert(tag_lt(e.tag, s[0].tag));
            assert(seq![e] + s =~= s.take(0) + seq![e] + s.skip(0));
        }
    } else {
        let rest = s.drop_first();
        assert(forall|j: int| 0 <= j < i - 1 ==> #[trigger] rest[j].tag == s[j + 1].tag);
        lemma_insert_at(rest, e, i - 1);
        assert(insert_elem(s, e) == seq![s[0]] + insert_elem(rest, e));
        if i < s.len() && s[i].tag == e.tag {
            assert(rest[i - 1].tag == e.tag);
            assert(seq![s[0]] + (rest.take(i - 1) + seq![e] + rest.skip(i)) =~= s.take(i) + seq![e]
                + s.skip(i + 1));
        } else if i < s.len() {
            assert(rest[i - 1].tag != e.tag);
            assert(seq![s[0]] + (rest.take(i - 1) + seq![e] + rest.skip(i - 1)) =~= s.take(i)
                + seq![e] + s.skip(i));
        } else {
            assert(seq![s[0]] + (rest.take(i - 1) + seq![e]) =~= s.take(i) + seq![e]);
        }
    }
}

/// The mathematical shape of an element's value: every string a
/// character sequence, every byte buffer a byte sequence.
#[verifier::ext_equal]
pub enum SpecValue {
    Text(Seq<Seq<char>>),
    Real(Seq<char>),
    Bytes(Seq<u8>),
    Int(i64),
    UInt(u64),
    Items(Seq<SpecDataSet>),
}

/// The mathematical shape of one attribute.
#[verifier::ext_equal]
pub struct SpecElement {
    pub tag: Tag,
    pub vr: VR,
    pub value: SpecValue,
}

/// The mathematical shape of a data set.
#[verifier::ext_equal]
pub struct SpecDataSet {
    pub elements: Seq<SpecElement>,
}

pub open spec fn view_value(v: ElementValue) -> SpecValue
    decreases v,
{
    match v {
        ElementValue::Text(xs) => SpecValue::Text(xs.deep_view()),
        ElementValue::Real(s) => SpecValue::Real(s@),
        ElementValue::Bytes(b) => SpecValue::Bytes(b@),
        ElementValue::Int(i) => SpecValue::Int(i),
        ElementValue::UInt(u) => SpecValue::UInt(u),
        ElementValue::Items(items) => SpecValue::Items(view_datasets(items@)),
    }
}

pub open spec fn view_element(e: DataElement) -> SpecElement
    decreases e,
{
    SpecElement { tag: e.tag, vr: e.vr, value: view_value(e.value) }
}

pub open spec fn view_elements(s: Seq<DataElement>) -> Seq<SpecElement>
    decreases s,
{
    if s.len() == 0 {
        Seq::empty()
    } else {
        seq![view_element(s.first())] + view_elements(s.drop_first())
    }
}

pub open spec fn view_dataset(ds: DataSet) -> SpecDataSet
    decreases ds,
{
    SpecDataSet { elements: view_elements(ds.elements@) }
}

pub open spec fn view_datasets(s: Seq<DataSet>) -> Seq<SpecDataSet>
    decreases s,
{
    if s.len() == 0 {
        Seq::empty()
    } else {
        seq![view_dataset(s.first())] + view_datasets(s.drop_first())
    }
}

/// `view_elements` acts pointwise.
pub proof fn lemma_view_elements(s: Seq<DataElement>)
    ensures
        view_elements(s).len() == s.len(),
        forall|i: int| 0 <= i < s.len() ==> #[trigger] view_elements(s)[i] == view_element(s[i]),
    decreases s.len(),
{
    if s.len() > 0 {
        lemma_view_elements(s.drop_first());
        assert forall|i: int| 0 <= i < s.len() implies view_elements(s)[i] == view_element(
            s[i],
        ) by {
            if i > 0 {
                assert(s.drop_first()[i - 1] == s[i]);
            }
        }
    }
}

/// `view_datasets` acts pointwise.
pub proof fn lemma_view_datasets(s: Seq<DataSet>)
    ensures
        view_datasets(s).len() == s.len(),
        forall|i: int| 0 <= i < s.len() ==> #[trigger] view_datasets(s)[i] == view_dataset(s[i]),
    decreases s.len(),
{
    if s.len() > 0 {
        lemma_view_datasets(s.drop_first());
        assert forall|i: int| 0 <= i < s.len() implies view_datasets(s)[i] == view_dataset(
            s[i],
        ) by {
            if i > 0 {
                assert(s.drop_first()[i - 1] == s[i]);
            }
        }
    }
}

/// A verified deep copy of a value.
pub fn clone_value(v: &ElementValue) -> (r: ElementValue)
    ensures
        view_value(r) == view_value(*v),
    decreases v,
{
    match v {
        ElementValue::Text(xs) => {
            let mut out: Vec<String> = Vec::new();
            let mut i: usize = 0;
            while i < xs.len()
                invariant
                    i <= xs@.len(),
                    out@.len() == i,
                    forall|j: int| 0 <= j < i ==> #[trigger] out@[j]@ == xs@[j]@,
                decreases xs@.len() - i,
            {
                out.push(xs[i].clone());
                i = i + 1;
            }
            proof {
                assert(out.deep_view() =~= xs.deep_view());
            }
            ElementValue::Text(out)
        },
        ElementValue::Real(s) => ElementValue::Real(s.clone()),
        ElementValue::Bytes(b) => ElementValue::Bytes(vstd::slice::slice_to_vec(b.as_slice())),
        ElementValue::Int(i) => ElementValue::Int(*i),
        ElementValue::UInt(u) => ElementValue::UInt(*u),
        ElementValue::Items(items) => ElementValue::Items(clone_datasets(items)),
    }
}

/// A verified deep copy of a list of data sets.
pub fn clone_datasets(items: &Vec<DataSet>) -> (r: Vec<DataSet>)
    ensures
        view_datasets(r@) == view_datasets(items@),
        r@.len() == items@.len(),
    decreases *items,
{
    let mut out: Vec<DataSet> = Vec::new();
    let mut i: usize = 0;
    while i < items.len()
        invariant
            i <= items@.len(),
            out@.len() == i,
            forall|j: int|
                0 <= j < i ==> view_dataset(#[trigger] out@[j]) == view_dataset(items@[j]),
        decreases items@.len() - i,
    {
        out.push(clone_dataset(&items[i]));
        i = i + 1;
    }
    proof {
        lemma_view_datasets(out@);
        lemma_view_datasets(items@);
        assert(view_datasets(out@) =~= view_datasets(items@));
    }
    out
}

/// A verified deep copy of an element.
pub fn clone_element(e: &DataElement) -> (r: DataElement)
    ensures
        view_element(r) == view_element(*e),
        r.tag == e.tag,
        r.vr == e.vr,
    decreases e,
{
    DataElement { tag: e.tag, vr: e.vr, value: clone_value(&e.value) }
}

/// A verified deep copy of a data set.
pub fn clone_dataset(ds: &DataSet) -> (r: DataSet)
    ensures
        view_dataset(r) == view_dataset(*ds),
        r.elements@.len() == ds.elements@.len(),
        forall|i: int|
            0 <= i < ds.elements@.len() ==> #[trigger] r.elements@[i].tag == ds.elements@[i].tag,
    decreases ds,
{
    DataSet { elements: clone_elements(&ds.elements) }
}

/// A verified deep copy of an element list.
pub fn clone_elements(elems: &Vec<DataElement>) -> (r: Vec<DataElement>)
    ensures
        view_elements(r@) == view_elements(elems@),
        r@.len() == elems@.len(),
        forall|i: int| 0 <= i < elems@.len() ==> #[trigger] r@[i].tag == elems@[i].tag,
    decreases *elems,
{
    let mut out: Vec<DataElement> = Vec::new();
    let mut i: usize = 0;
    while i < elems.len()
        invariant
            i <= elems@.len(),
            out@.len() == i,
            forall|j: int|
                0 <= j < i ==> view_element(#[trigger] out@[j]) == view_element(elems@[j])
                    && out@[j].tag == elems@[j].tag,
        decreases elems@.len() - i,
    {
        out.push(clone_element(&elems[i]));
        i = i + 1;
    }
    proof {
        lemma_view_elements(out@);
        lemma_view_elements(elems@);
        assert(view_elements(out@) =~= view_elements(elems@));
    }
    out
}

/// The zero-padded, uppercase, eight-digit hexadecimal key of a tag, as
/// DICOM JSON writes it.
pub open spec fn tag_key_chars(t: Tag) -> Seq<char> {
    hex4_chars(t.group as nat) + hex4_chars(t.element as nat)
}

fn push_hex4(out: &mut String, v: u16)
    ensures
        final(out)@ == old(out)@ + hex4_chars(v as nat),
{
    out.append(hex_digit_str((v / 0x1000 % 16) as u8));
    out.append(hex_digit_str((v / 0x100 % 16) as u8));
    out.append(hex_digit_str((v / 16 % 16) as u8));
    out.append(hex_digit_str((v % 16) as u8));
    proof {
        assert(final(out)@ =~= old(out)@ + hex4_chars(v as nat));
    }
}

/// Renders a tag as its eight-digit hexadecimal attribute key.
pub fn tag_key(t: Tag) -> (r: String)
    ensures
        r@ == tag_key_chars(t),
{
    let mut out = String::new();
    push_hex4(&mut out, t.group);
    push_hex4(&mut out, t.element);
    proof {
        assert(out@ =~= tag_key_chars(t));
    }
    out
}

} // verus!
