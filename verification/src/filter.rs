//! The attribute-level filter: reduces a data set to the elements whose
//! tags a caller permits.  The three fixed tag sets carry the study,
//! series and instance response levels of the QIDO tables.

use crate::dataset::DataElement;
use crate::dataset::DataSet;
use crate::dataset::SpecElement;
use crate::dataset::Tag;
use crate::dataset::clone_element;
use crate::dataset::lemma_view_elements;
use crate::dataset::tag_lt;
use crate::dataset::view_element;
use crate::dataset::view_elements;
use vstd::prelude::*;

verus! {

/// The study-level response tags.
pub open spec fn spec_study_tags() -> Seq<Tag> {
    seq![
        Tag { group: 0x0008, element: 0x0020 },
        Tag { group: 0x0008, element: 0x0030 },
        Tag { group: 0x0008, element: 0x0050 },
        Tag { group: 0x0008, element: 0x0061 },
        Tag { group: 0x0008, element: 0x0090 },
        Tag { group: 0x0010, element: 0x0010 },
        Tag { group: 0x0010, element: 0x0020 },
        Tag { group: 0x0020, element: 0x000D },
        Tag { group: 0x0020, element: 0x0010 },
    ]
}

/// The series-level response tags.
pub open spec fn spec_series_tags() -> Seq<Tag> {
    seq![
        Tag { group: 0x0008, element: 0x0060 },
        Tag { group: 0x0020, element: 0x000E },
        Tag { group: 0x0020, element: 0x0011 },
        Tag { group: 0x0040, element: 0x0244 },
        Tag { group: 0x0040, element: 0x0245 },
        Tag { group: 0x0040, element: 0x0275 },
    ]
}

/// The instance-level response tags.
pub open spec fn spec_instance_tags() -> Seq<Tag> {
    seq![
        Tag { group: 0x0008, element: 0x0016 },
        Tag { group: 0x0008, element: 0x0018 },
        Tag { group: 0x0020, element: 0x0013 },
    ]
}

/// The study-level response tags, as a list.
pub fn study_tags() -> (r: Vec<Tag>)
    ensures
        r@ == spec_study_tags(),
{
    let mut r: Vec<Tag> = Vec::new();
    r.push(Tag { group: 0x0008, element: 0x0020 });
    r.push(Tag { group: 0x0008, element: 0x0030 });
    r.push(Tag { group: 0x0008, element: 0x0050 });
    r.push(Tag { group: 0x0008, element: 0x0061 });
    r.push(Tag { group: 0x0008, element: 0x0090 });
    r.push(Tag { group: 0x0010, element: 0x0010 });
    r.push(Tag { group: 0x0010, element: 0x0020 });
    r.push(Tag { group: 0x0020, element: 0x000D });
    r.push(Tag { group: 0x0020, element: 0x0010 });
    proof {
        assert(r@ =~= spec_study_tags());
    }
    r
}

/// The series-level response tags, as a list.
pub fn series_tags() -> (r: Vec<Tag>)
    ensures
        r@ == spec_series_tags(),
{
    let mut r: Vec<Tag> = Vec::new();
    r.push(Tag { group: 0x0008, element: 0x0060 });
    r.push(Tag { group: 0x0020, element: 0x000E });
    r.push(Tag { group: 0x0020, element: 0x0011 });
    r.push(Tag { group: 0x0040, element: 0x0244 });
    r.push(Tag { group: 0x0040, element: 0x0245 });
    r.push(Tag { group: 0x0040, element: 0x0275 });
    proof {
        assert(r@ =~= spec_series_tags());
    }
    r
}

/// The instance-level response tags, as a list.
pub fn instance_tags() -> (r: Vec<Tag>)
    ensures
        r@ == spec_instance_tags(),
{
    let mut r: Vec<Tag> = Vec::new();
    r.push(Tag { group: 0x0008, element: 0x0016 });
    r.push(Tag { group: 0x0008, element: 0x0018 });
    r.push(Tag { group: 0x0020, element: 0x0013 });
    proof {
        assert(r@ =~= spec_instance_tags());
    }
    r
}

/// What the filter keeps: exactly the elements whose tag is permitted,
/// in their original order.
pub open spec fn spec_filter(elems: Seq<SpecElement>, allowed: Seq<Tag>) -> Seq<SpecElement> {
    elems.filter(|e: SpecElement| allowed.contains(e.tag))
}

/// Whether some element of `s` carries tag `t`.
pub open spec fn spec_has_tag(s: Seq<SpecElement>, t: Tag) -> bool {
    exists|i: int| 0 <= i < s.len() && #[trigger] s[i].tag == t
}

pub open spec fn spec_tags_sorted(s: Seq<SpecElement>) -> bool {
    forall|i: int, j: int| 0 <= i < j < s.len() ==> tag_lt(#[trigger] s[i].tag, #[trigger] s[j].tag)
}

pub fn tag_in_list(allowed: &Vec<Tag>, t: Tag) -> (r: bool)
    ensures
        r == allowed@.contains(t),
{
    let mut i: usize = 0;
    while i < allowed.len()
        invariant
            i <= allowed@.len(),
            forall|j: int| 0 <= j < i ==> allowed@[j] != t,
        decreases allowed@.len() - i,
    {
        if allowed[i] == t {
            return true;
        }
        i = i + 1;
    }
    proof {
        assert(forall|j: int| 0 <= j < allowed@.len() ==> allowed@[j] != t);
    }
    false
}

proof fn lemma_filter_singleton(e: SpecElement, pred: spec_fn(SpecElement) -> bool)
    ensures
        seq![e].filter(pred) == if pred(e) {
            seq![e]
        } else {
            Seq::<SpecElement>::empty()
        },
{
    reveal(Seq::filter);
    assert(seq![e].drop_last() =~= Seq::<SpecElement>::empty());
    assert(Seq::<SpecElement>::empty().filter(pred) =~= Seq::<SpecElement>::empty());
}

/// Retains exactly the elements of `ds` whose tag is in `allowed`;
/// nothing else changes, and tag order is kept.
pub fn filter_dataset(ds: &DataSet, allowed: &Vec<Tag>) -> (r: DataSet)
    ensures
        view_elements(r.elements@) == spec_filter(view_elements(ds.elements@), allowed@),
        ds.wf() ==> r.wf(),
{
    let ghost pred = |e: SpecElement| allowed@.contains(e.tag);
    let mut out: Vec<DataElement> = Vec::new();
    let n: usize = ds.elements.len();
    let mut i: usize = 0;
    proof {
        lemma_view_elements(ds.elements@);
        assert(view_elements(ds.elements@).take(0) =~= Seq::<SpecElement>::empty());
        assert(Seq::<SpecElement>::empty().filter(pred) =~= Seq::<SpecElement>::empty()) by {
            reveal(Seq::filter);
        }
        assert(view_elements(out@) =~= Seq::<SpecElement>::empty());
    }
    while i < n
        invariant
            n == ds.elements@.len(),
            i <= n,
            pred == (|e: SpecElement| allowed@.contains(e.tag)),
            view_elements(out@) == view_elements(ds.elements@).take(i as int).filter(pred),
            forall|k: int| 0 <= k < out@.len() ==> #[trigger] allowed@.contains(out@[k].tag),
            forall|k: int|
                0 <= k < out@.len() ==> exists|j: int|
                    0 <= j < i && #[trigger] out@[k].tag == ds.elements@[j].tag,
        decreases n - i,
    {
        let ghost sv = view_elements(ds.elements@);
        let ghost out_pre = out@;
        proof {
            lemma_view_elements(ds.elements@);
            assert(sv.take(i + 1) =~= sv.take(i as int) + seq![sv[i as int]]);
        }
        let keep = tag_in_list(allowed, ds.elements[i].tag);
        proof {
            assert(sv[i as int] == view_element(ds.elements@[i as int]));
            assert(sv[i as int].tag == ds.elements@[i as int].tag);
            Seq::filter_distributes_over_add(sv.take(i as int), seq![sv[i as int]], pred);
            lemma_filter_singleton(sv[i as int], pred);
        }
        if keep {
            out.push(clone_element(&ds.elements[i]));
            proof {
                lemma_view_elements(out_pre);
                lemma_view_elements(out@);
                assert(out@ =~= out_pre.push(out@[out@.len() - 1]));
                assert(view_elements(out@) =~= view_elements(out_pre).push(
                    view_element(out@[out@.len() - 1]),
                ));
                assert(view_elements(out@) =~= sv.take(i + 1).filter(pred));
            }
        } else {
            proof {
                assert(view_elements(out@) =~= sv.take(i + 1).filter(pred));
            }
        }
        i = i + 1;
    }
    proof {
        assert(view_elements(ds.elements@).take(n as int) =~= view_elements(ds.elements@));
        if ds.wf() {
            lemma_view_elements(ds.elements@);
            lemma_view_elements(out@);
            lemma_filter_sorted(view_elements(ds.elements@), allowed@);
            assert forall|a: int, b: int| 0 <= a < b < out@.len() implies tag_lt(
                #[trigger] out@[a].tag,
                #[trigger] out@[b].tag,
            ) by {
                let fv = view_elements(out@);
                assert(fv[a].tag == out@[a].tag && fv[b].tag == out@[b].tag);
            }
        }
    }
    DataSet { elements: out }
}

/// Everything the filter keeps satisfied the test, and was in the input.
pub proof fn lemma_filter_subset(s: Seq<SpecElement>, pred: spec_fn(SpecElement) -> bool)
    ensures
        forall|x: SpecElement| #[trigger] s.filter(pred).contains(x) ==> s.contains(x) && pred(x),
    decreases s.len(),
{
    reveal(Seq::filter);
    if s.len() > 0 {
        lemma_filter_subset(s.drop_last(), pred);
        assert forall|x: SpecElement| #[trigger] s.filter(pred).contains(x) implies s.contains(x)
            && pred(x) by {
            let f = s.filter(pred);
            let k = choose|k: int| 0 <= k < f.len() && f[k] == x;
            let fd = s.drop_last().filter(pred);
            if pred(s.last()) && k == f.len() - 1 {
                assert(x == s.last());
                assert(s[s.len() - 1] == x);
            } else {
                assert(fd[k] == x);
                assert(fd.contains(x));
                assert(s.drop_last().contains(x));
                let m = choose|m: int| 0 <= m < s.drop_last().len() && s.drop_last()[m] == x;
                assert(s[m] == x);
            }
        }
    }
}

/// Filtering keeps the tag order strictly increasing.
pub proof fn lemma_filter_sorted(s: Seq<SpecElement>, allowed: Seq<Tag>)
    requires
        spec_tags_sorted(s),
    ensures
        spec_tags_sorted(spec_filter(s, allowed)),
    decreases s.len(),
{
    reveal(Seq::filter);
    let pred = |e: SpecElement| allowed.contains(e.tag);
    if s.len() > 0 {
        assert(spec_tags_sorted(s.drop_last())) by {
            assert(forall|i: int|
                0 <= i < s.drop_last().len() ==> s.drop_last()[i] == #[trigger] s[i]);
        }
        lemma_filter_sorted(s.drop_last(), allowed);
        let fd = s.drop_last().filter(pred);
        if pred(s.last()) {
            lemma_filter_subset(s.drop_last(), pred);
            assert forall|i: int, j: int|
                0 <= i < j < fd.push(s.last()).len() implies tag_lt(
                #[trigger] fd.push(s.last())[i].tag,
                #[trigger] fd.push(s.last())[j].tag,
            ) by {
                if j < fd.len() {
                    assert(fd.push(s.last())[i] == fd[i] && fd.push(s.last())[j] == fd[j]);
                } else {
                    assert(fd.push(s.last())[j] == s.last());
                    assert(fd.push(s.last())[i] == fd[i]);
                    assert(fd.contains(fd[i]));
                    assert(s.drop_last().contains(fd[i]));
                    let m = choose|m: int|
                        0 <= m < s.drop_last().len() && s.drop_last()[m] == fd[i];
                    assert(s[m] == fd[i]);
                    assert(tag_lt(s[m].tag, s[s.len() - 1].tag));
                }
            }
        }
    }
}

/// Filtering a second time with the same tag set changes nothing.
pub proof fn lemma_filter_idempotent(s: Seq<SpecElement>, allowed: Seq<Tag>)
    ensures
        spec_filter(spec_filter(s, allowed), allowed) == spec_filter(s, allowed),
{
    let pred = |e: SpecElement| allowed.contains(e.tag);
    lemma_filter_all(s.filter(pred), pred);
    assert forall|i: int| 0 <= i < s.filter(pred).len() implies pred(
        #[trigger] s.filter(pred)[i],
    ) by {
        broadcast use vstd::seq_lib::group_filter_ensures;

    }
    lemma_filter_all(s.filter(pred), pred);
}

/// Filtering a list every element of which passes the test is a no-op.
proof fn lemma_filter_all(s: Seq<SpecElement>, pred: spec_fn(SpecElement) -> bool)
    requires
        forall|i: int| 0 <= i < s.len() ==> pred(#[trigger] s[i]),
    ensures
        s.filter(pred) == s,
    decreases s.len(),
{
    reveal(Seq::filter);
    if s.len() > 0 {
        assert(forall|i: int| 0 <= i < s.drop_last().len() ==> s.drop_last()[i] == #[trigger] s[i]);
        lemma_filter_all(s.drop_last(), pred);
        assert(s.filter(pred) =~= s);
    } else {
        assert(s.filter(pred) =~= s);
    }
}

/// A widened tag set never loses an attribute: every tag the filter keeps
/// under `t1` it also keeps under any superset `t2`.
pub proof fn lemma_filter_monotone(s: Seq<SpecElement>, t1: Seq<Tag>, t2: Seq<Tag>)
    requires
        forall|t: Tag| t1.contains(t) ==> t2.contains(t),
    ensures
        forall|t: Tag| spec_has_tag(spec_filter(s, t1), t) ==> spec_has_tag(spec_filter(s, t2), t),
{
    let p1 = |e: SpecElement| t1.contains(e.tag);
    let p2 = |e: SpecElement| t2.contains(e.tag);
    lemma_filter_subset(s, p1);
    assert forall|t: Tag| spec_has_tag(spec_filter(s, t1), t) implies spec_has_tag(
        spec_filter(s, t2),
        t,
    ) by {
        let f1 = s.filter(p1);
        let i = choose|i: int| 0 <= i < f1.len() && f1[i].tag == t;
        let e = f1[i];
        assert(f1.contains(e));
        assert(s.contains(e) && p1(e));
        let j = choose|j: int| 0 <= j < s.len() && s[j] == e;
        assert(p2(s[j]));
        Seq::lemma_filter_contains(s, p2, j);
        let f2 = s.filter(p2);
        let k = choose|k: int| 0 <= k < f2.len() && f2[k] == e;
        assert(f2[k].tag == t);
    }
}

} // verus!
