//! The server-side dispatcher: a route table binding the DICOMweb URL
//! shapes to the five operations, and the response assembly for each —
//! per-level attribute filtering, DICOM-JSON encoding, and multipart
//! framing.  The store of data sets behind the routes is an injected
//! capability; transport wiring lives outside this crate.

use crate::ascii::ascii_seq;
use crate::dataset::DataSet;
use crate::dataset::SpecDataSet;
use crate::dataset::Tag;
use crate::dataset::view_dataset;
use crate::dataset::view_datasets;
use crate::filter::filter_dataset;
use crate::filter::spec_filter;
use crate::filter::spec_instance_tags;
use crate::filter::spec_series_tags;
use crate::filter::spec_study_tags;
use crate::filter::instance_tags;
use crate::filter::series_tags;
use crate::filter::study_tags;
use crate::json::JsonValue;
use crate::json::SpecJson;
use crate::json::encode_dicom_to_json;
use crate::json::json_of_dataset;
use crate::json::lemma_view_jsons;
use crate::json::view_json;
use crate::json::view_jsons;
use crate::multipart::mp_decode;
use crate::multipart::mp_encode;
use crate::multipart::multipart_encode_binary;
use crate::multipart::parse_multipart_body;
use vstd::prelude::*;
use vstd::string::StrSliceExecFns;
use vstd::string::StringExecFns;

verus! {

/// The capability a deployment implements: the archive behind the
/// server.  Search results are whole data sets; a retrieve hands back
/// the instance already written to its binary DICOM form by the
/// toolkit that owns it.
pub trait DICOMServer {
    fn get_qido_prefix(&self) -> &str;

    fn get_wado_prefix(&self) -> &str;

    fn get_stow_prefix(&self) -> &str;

    fn search_studies(&self) -> Vec<DataSet>;

    fn search_series(&self, study_instance_uid: &str) -> Vec<DataSet>;

    fn search_instances(&self, study_instance_uid: &str, series_instance_uid: &str) -> Vec<
        DataSet,
    >;

    fn retrieve_instance(
        &self,
        study_instance_uid: &str,
        series_instance_uid: &str,
        sop_instance_uid: &str,
    ) -> Option<Vec<u8>>;
}

/// One of the five operations, with the identifiers its URL carried.
pub enum Route {
    SearchStudies,
    SearchSeries { study: String },
    SearchInstances { study: String, series: String },
    RetrieveInstance { study: String, series: String, sop: String },
    StoreInstances,
}

/// The mathematical shape of a route.
#[verifier::ext_equal]
pub enum SpecRoute {
    SearchStudies,
    SearchSeries { study: Seq<char> },
    SearchInstances { study: Seq<char>, series: Seq<char> },
    RetrieveInstance { study: Seq<char>, series: Seq<char>, sop: Seq<char> },
    StoreInstances,
}

pub open spec fn view_route(r: Route) -> SpecRoute {
    match r {
        Route::SearchStudies => SpecRoute::SearchStudies,
        Route::SearchSeries { study } => SpecRoute::SearchSeries { study: study@ },
        Route::SearchInstances { study, series } => SpecRoute::SearchInstances {
            study: study@,
            series: series@,
        },
        Route::RetrieveInstance { study, series, sop } => SpecRoute::RetrieveInstance {
            study: study@,
            series: series@,
            sop: sop@,
        },
        Route::StoreInstances => SpecRoute::StoreInstances,
    }
}

/// Length of the first `/`-free run of `s`.
pub open spec fn seg_len(s: Seq<char>) -> nat
    decreases s.len(),
{
    if s.len() == 0 {
        0
    } else if s[0] == '/' {
        0
    } else {
        (1 + seg_len(s.drop_first())) as nat
    }
}

proof fn lemma_seg_len_le(s: Seq<char>)
    ensures
        seg_len(s) <= s.len(),
    decreases s.len(),
{
    if s.len() > 0 && s[0] != '/' {
        lemma_seg_len_le(s.drop_first());
    }
}

proof fn lemma_seg_len_scan(s: Seq<char>, k: int)
    requires
        0 <= k <= s.len(),
        forall|j: int| 0 <= j < k ==> s[j] != '/',
    ensures
        k == s.len() ==> seg_len(s) == k,
        k < s.len() && s[k] == '/' ==> seg_len(s) == k,
    decreases k,
{
    if k > 0 {
        lemma_seg_len_scan(s.drop_first(), k - 1);
    }
}

/// The path split on `/`: the segments, empty ones kept.
pub open spec fn spec_split(s: Seq<char>) -> Seq<Seq<char>>
    decreases s.len(),
        via spec_split_decreases
{
    let l = seg_len(s) as int;
    if l == s.len() {
        seq![s]
    } else {
        seq![s.take(l)] + spec_split(s.skip(l + 1))
    }
}

#[via_fn]
proof fn spec_split_decreases(s: Seq<char>) {
    lemma_seg_len_le(s);
}

/// Splits a path on `/`, keeping empty segments.
pub fn split_path(s: &str) -> (r: Vec<String>)
    ensures
        r.deep_view() == spec_split(s@),
{
    let n = s.unicode_len();
    let mut out: Vec<String> = Vec::new();
    let mut start: usize = 0;
    let mut i: usize = 0;
    proof {
        assert(s@.skip(0) =~= s@);
    }
    while i < n
        invariant
            n == s@.len(),
            start <= i <= n,
            forall|j: int| start <= j < i ==> s@[j] != '/',
            spec_split(s@) == out.deep_view() + spec_split(s@.skip(start as int)),
            out.deep_view().len() == out@.len(),
        decreases n - i,
    {
        let c = s.get_char(i);
        if c == '/' {
            let ghost pre = out.deep_view();
            let piece = s.substring_char(start, i);
            out.push(piece.to_owned());
            proof {
                let rest = s@.skip(start as int);
                assert(forall|j: int|
                    0 <= j < i - start ==> #[trigger] rest[j] == s@[j + start] && rest[j] != '/');
                assert(rest[i - start] == '/');
                lemma_seg_len_scan(rest, i - start);
                assert(seg_len(rest) == i - start < rest.len());
                assert(rest.take(i - start) =~= s@.subrange(start as int, i as int));
                assert(rest.skip(i - start + 1) =~= s@.skip(i + 1));
                assert(out.deep_view() =~= pre + seq![s@.subrange(start as int, i as int)]);
                assert(spec_split(s@) == out.deep_view() + spec_split(s@.skip(i + 1)));
            }
            start = i + 1;
        }
        i = i + 1;
    }
    let piece = s.substring_char(start, n);
    out.push(piece.to_owned());
    proof {
        let rest = s@.skip(start as int);
        assert(forall|j: int|
            0 <= j < n - start ==> #[trigger] rest[j] == s@[j + start] && rest[j] != '/');
        lemma_seg_len_scan(rest, n - start);
        assert(seg_len(rest) == rest.len());
        assert(rest =~= s@.subrange(start as int, n as int));
        assert(spec_split(rest) == seq![rest]);
        assert(out.deep_view() =~= spec_split(s@));
    }
    out
}

/// The pattern segments a prefix contributes: none when it is empty,
/// its own segments otherwise.
pub open spec fn prefix_segs(p: Seq<char>) -> Seq<Seq<char>> {
    if p.len() == 0 {
        Seq::empty()
    } else {
        spec_split(p)
    }
}

/// The route table: which operation a method and path name, given the
/// configured QIDO, WADO and STOW prefixes.  Captured identifiers are
/// single non-empty path segments.
pub open spec fn spec_match_route(
    method: Seq<char>,
    path: Seq<char>,
    qido: Seq<char>,
    wado: Seq<char>,
    stow: Seq<char>,
) -> Option<SpecRoute> {
    let segs = spec_split(path);
    let q = seq![Seq::<char>::empty()] + prefix_segs(qido);
    let w = seq![Seq::<char>::empty()] + prefix_segs(wado);
    let st = seq![Seq::<char>::empty()] + prefix_segs(stow);
    let ql = q.len() as int;
    let wl = w.len() as int;
    if method == "GET"@ {
        if segs == q + seq!["studies"@] {
            Some(SpecRoute::SearchStudies)
        } else if segs.len() == q.len() + 3 && segs.take(ql) == q && segs[ql] == "studies"@
            && segs[ql + 1].len() > 0 && segs[ql + 2] == "series"@ {
            Some(SpecRoute::SearchSeries { study: segs[ql + 1] })
        } else if segs.len() == q.len() + 5 && segs.take(ql) == q && segs[ql] == "studies"@
            && segs[ql + 1].len() > 0 && segs[ql + 2] == "series"@ && segs[ql + 3].len() > 0
            && segs[ql + 4] == "instances"@ {
            Some(SpecRoute::SearchInstances { study: segs[ql + 1], series: segs[ql + 3] })
        } else if segs.len() == w.len() + 6 && segs.take(wl) == w && segs[wl] == "studies"@
            && segs[wl + 1].len() > 0 && segs[wl + 2] == "series"@ && segs[wl + 3].len() > 0
            && segs[wl + 4] == "instances"@ && segs[wl + 5].len() > 0 {
            Some(
                SpecRoute::RetrieveInstance {
                    study: segs[wl + 1],
                    series: segs[wl + 3],
                    sop: segs[wl + 5],
                },
            )
        } else {
            None
        }
    } else if method == "POST"@ && segs == st + seq!["studies"@] {
        Some(SpecRoute::StoreInstances)
    } else {
        None
    }
}

fn eq_seg(a: &String, lit: &str) -> (r: bool)
    ensures
        r == (a@ == lit@),
{
    crate::ascii::str_eq(a.as_str(), lit)
}

fn seg_nonempty(a: &String) -> (r: bool)
    ensures
        r == (a@.len() > 0),
{
    !a.as_str().is_empty()
}

/// Builds the pattern head: the empty leading segment, then the prefix
/// segments when the prefix is not empty.
fn pattern_head(prefix: &str) -> (r: Vec<String>)
    ensures
        r.deep_view() == seq![Seq::<char>::empty()] + prefix_segs(prefix@),
{
    let mut out: Vec<String> = Vec::new();
    out.push(String::new());
    if prefix.unicode_len() > 0 {
        let mut segs = split_path(prefix);
        let ghost pre = out.deep_view();
        let ghost segsv = segs.deep_view();
        let mut k: usize = 0;
        while k < segs.len()
            invariant
                segsv == segs.deep_view(),
                segsv.len() == segs@.len(),
                forall|i: int| 0 <= i < segs@.len() ==> #[trigger] segsv[i] == segs@[i]@,
                k <= segs@.len(),
                out.deep_view() =~= pre + segsv.take(k as int),
            decreases segs@.len() - k,
        {
            let piece = segs[k].clone();
            proof {
                assert(piece@ == segsv[k as int]);
            }
            out.push(piece);
            proof {
                assert(segsv.take(k + 1) =~= segsv.take(k as int).push(segsv[k as int]));
                assert(out.deep_view() =~= (pre + segsv.take(k as int)).push(segsv[k as int]));
                assert(out.deep_view() =~= pre + segsv.take(k + 1));
            }
            k = k + 1;
        }
        proof {
            assert(segsv.take(segsv.len() as int) =~= segsv);
            assert(out.deep_view() =~= seq![Seq::<char>::empty()] + prefix_segs(prefix@));
        }
    } else {
        proof {
            assert(out.deep_view() =~= seq![Seq::<char>::empty()] + prefix_segs(prefix@));
        }
    }
    out
}

/// Whether the split path opens with the pattern head.
fn head_matches(segs: &Vec<String>, head: &Vec<String>) -> (r: bool)
    ensures
        r == (head.deep_view().len() <= segs.deep_view().len() && segs.deep_view().take(
            head.deep_view().len() as int,
        ) == head.deep_view()),
{
    let ghost sv = segs.deep_view();
    let ghost hv = head.deep_view();
    proof {
        assert(sv.len() == segs@.len() && hv.len() == head@.len());
        assert(forall|i: int| 0 <= i < segs@.len() ==> #[trigger] sv[i] == segs@[i]@);
        assert(forall|i: int| 0 <= i < head@.len() ==> #[trigger] hv[i] == head@[i]@);
    }
    if head.len() > segs.len() {
        return false;
    }
    let mut k: usize = 0;
    while k < head.len()
        invariant
            sv == segs.deep_view(),
            hv == head.deep_view(),
            sv.len() == segs@.len(),
            hv.len() == head@.len(),
            forall|i: int| 0 <= i < segs@.len() ==> #[trigger] sv[i] == segs@[i]@,
            forall|i: int| 0 <= i < head@.len() ==> #[trigger] hv[i] == head@[i]@,
            hv.len() <= sv.len(),
            k <= head@.len(),
            forall|i: int| 0 <= i < k ==> sv[i] == hv[i],
        decreases head@.len() - k,
    {
        if !crate::ascii::str_eq(segs[k].as_str(), head[k].as_str()) {
            proof {
                assert(sv[k as int] != hv[k as int]);
                assert(sv.take(hv.len() as int)[k as int] != hv[k as int]);
            }
            return false;
        }
        k = k + 1;
    }
    proof {
        assert(sv.take(hv.len() as int) =~= hv);
    }
    true
}

/// Matches a request line against the five-entry route table.
pub fn match_route(method: &str, path: &str, qido: &str, wado: &str, stow: &str) -> (r: Option<
    Route,
>)
    ensures
        match r {
            Some(route) => spec_match_route(method@, path@, qido@, wado@, stow@) == Some(
                view_route(route),
            ),
            None => spec_match_route(method@, path@, qido@, wado@, stow@) is None,
        },
{
    let is_get = crate::ascii::str_eq(method, "GET");
    let is_post = crate::ascii::str_eq(method, "POST");
    if !is_get && !is_post {
        return None;
    }
    let segs = split_path(path);
    let ghost sv = segs.deep_view();
    proof {
        assert(sv.len() == segs@.len());
        assert(forall|i: int| 0 <= i < segs@.len() ==> #[trigger] sv[i] == segs@[i]@);
    }
    if is_get {
        let q = pattern_head(qido);
        let ghost qv = q.deep_view();
        let w = pattern_head(wado);
        let ghost wv = w.deep_view();
        let q_ok = head_matches(&segs, &q);
        let w_ok = head_matches(&segs, &w);
        let ghost studies_case = sv == qv + seq!["studies"@];
        proof {
            if q_ok && sv.len() == qv.len() + 1 && sv[qv.len() as int] == "studies"@ {
                assert(sv =~= qv + seq!["studies"@]);
            }
            if studies_case {
                assert(sv.take(qv.len() as int) =~= qv);
                assert(sv[qv.len() as int] == "studies"@);
            }
        }
        if q_ok && q.len() < segs.len() {
            let rest = segs.len() - q.len();
            if rest == 1 && eq_seg(&segs[q.len()], "studies") {
                return Some(Route::SearchStudies);
            }
            if rest == 3 && eq_seg(&segs[q.len()], "studies") && seg_nonempty(&segs[q.len() + 1])
                && eq_seg(&segs[q.len() + 2], "series") {
                let study = segs[q.len() + 1].clone();
                proof {
                    assert(!studies_case);
                }
                return Some(Route::SearchSeries { study });
            }
            if rest == 5 && eq_seg(&segs[q.len()], "studies") && seg_nonempty(&segs[q.len() + 1])
                && eq_seg(&segs[q.len() + 2], "series") && seg_nonempty(&segs[q.len() + 3])
                && eq_seg(&segs[q.len() + 4], "instances") {
                let study = segs[q.len() + 1].clone();
                let series = segs[q.len() + 3].clone();
                proof {
                    assert(!studies_case);
                }
                return Some(Route::SearchInstances { study, series });
            }
        }
        if w_ok && w.len() < segs.len() {
            let rest = segs.len() - w.len();
            if rest == 6 && eq_seg(&segs[w.len()], "studies") && seg_nonempty(&segs[w.len() + 1])
                && eq_seg(&segs[w.len() + 2], "series") && seg_nonempty(&segs[w.len() + 3])
                && eq_seg(&segs[w.len() + 4], "instances") && seg_nonempty(&segs[w.len() + 5]) {
                let study = segs[w.len() + 1].clone();
                let series = segs[w.len() + 3].clone();
                let sop = segs[w.len() + 5].clone();
                proof {
                    assert(!studies_case);
                    assert(!(sv.len() == qv.len() + 3 && sv.take(qv.len() as int) == qv
                        && sv[qv.len() as int] == "studies"@ && sv[qv.len() as int + 1].len() > 0
                        && sv[qv.len() as int + 2] == "series"@));
                    assert(!(sv.len() == qv.len() + 5 && sv.take(qv.len() as int) == qv
                        && sv[qv.len() as int] == "studies"@ && sv[qv.len() as int + 1].len() > 0
                        && sv[qv.len() as int + 2] == "series"@ && sv[qv.len() as int + 3].len() > 0
                        && sv[qv.len() as int + 4] == "instances"@));
                }
                return Some(Route::RetrieveInstance { study, series, sop });
            }
        }
        proof {
            assert(spec_match_route(method@, path@, qido@, wado@, stow@) is None) by {
                if sv == qv + seq!["studies"@] {
                    assert(qv.len() <= sv.len() && sv.take(qv.len() as int) =~= qv);
                    assert(sv[qv.len() as int] == "studies"@);
                }
                if sv.len() == qv.len() + 3 && sv.take(qv.len() as int) == qv {
                }
                if sv.len() == wv.len() + 6 && sv.take(wv.len() as int) == wv {
                }
            }
        }
        return None;
    }
    // POST: the store route
    let st = pattern_head(stow);
    let ghost stv = st.deep_view();
    let st_ok = head_matches(&segs, &st);
    if st_ok && st.len() < segs.len() && segs.len() - st.len() == 1 {
        if eq_seg(&segs[st.len()], "studies") {
            proof {
                assert(sv =~= stv + seq!["studies"@]);
            }
            return Some(Route::StoreInstances);
        }
    }
    proof {
        assert(spec_match_route(method@, path@, qido@, wado@, stow@) is None) by {
            if sv == stv + seq!["studies"@] {
                assert(sv.take(stv.len() as int) =~= stv);
                assert(sv[stv.len() as int] == "studies"@);
            }
        }
    }
    None
}

/// A response body: nothing, raw bytes, or a list of DICOM JSON
/// objects for the transport to serialize.
pub enum ResponseBody {
    Empty,
    Bytes(Vec<u8>),
    Json(Vec<JsonValue>),
}

/// What the dispatcher hands the transport: status, content type, body.
pub struct HttpResponse {
    pub status: u16,
    pub content_type: Option<String>,
    pub body: ResponseBody,
}

/// The tags a series-level search response may carry.
pub fn series_level_tags() -> (r: Vec<Tag>)
    ensures
        r@ == spec_study_tags() + spec_series_tags(),
{
    let mut t = study_tags();
    let mut s = series_tags();
    t.append(&mut s);
    t
}

/// The tags an instance-level search response may carry.
pub fn instance_level_tags() -> (r: Vec<Tag>)
    ensures
        r@ == spec_study_tags() + spec_series_tags() + spec_instance_tags(),
{
    let mut t = series_level_tags();
    let mut s = instance_tags();
    t.append(&mut s);
    t
}

/// One data set reduced to the permitted tags and rendered as JSON.
pub open spec fn filtered_json(ds: SpecDataSet, allowed: Seq<Tag>) -> Result<SpecJson, Tag> {
    json_of_dataset(SpecDataSet { elements: spec_filter(ds.elements, allowed) })
}

/// All results filtered and rendered, or the first offending tag.
pub open spec fn search_results(dss: Seq<SpecDataSet>, allowed: Seq<Tag>) -> Result<
    Seq<SpecJson>,
    Tag,
>
    decreases dss.len(),
{
    if dss.len() == 0 {
        Ok(Seq::empty())
    } else {
        match filtered_json(dss.first(), allowed) {
            Ok(obj) => match search_results(dss.drop_first(), allowed) {
                Ok(rest) => Ok(seq![obj] + rest),
                Err(t) => Err(t),
            },
            Err(t) => Err(t),
        }
    }
}

/// Assembles a QIDO search response: each store result is reduced to
/// the permitted tags, encoded to its DICOM JSON object, and the list
/// is returned as an `application/dicom+json` body with status 200 —
/// an empty list is a success, not an error.  A result whose value
/// shapes defy encoding yields status 500 with an empty body.
pub fn search_response(datasets: &Vec<DataSet>, allowed: &Vec<Tag>) -> (r: HttpResponse)
    ensures
        match search_results(view_datasets(datasets@), allowed@) {
            Ok(objs) => r.status == 200 && (r.content_type matches Some(ct) && ct@
                == "application/dicom+json"@) && (r.body matches ResponseBody::Json(list)
                && view_jsons(list@) == objs),
            Err(_) => r.status == 500 && r.body is Empty && r.content_type is None,
        },
{
    let ghost dv = view_datasets(datasets@);
    let mut out: Vec<JsonValue> = Vec::new();
    let mut i: usize = 0;
    proof {
        crate::dataset::lemma_view_datasets(datasets@);
        assert(dv.skip(0) =~= dv);
    }
    while i < datasets.len()
        invariant
            dv == view_datasets(datasets@),
            dv.len() == datasets@.len(),
            forall|m: int| 0 <= m < dv.len() ==> #[trigger] dv[m] == view_dataset(datasets@[m]),
            i <= datasets@.len(),
            view_jsons(out@).len() == i,
            search_results(dv, allowed@) == match search_results(dv.skip(i as int), allowed@) {
                Ok(rest) => Ok::<Seq<SpecJson>, Tag>(view_jsons(out@) + rest),
                Err(t) => Err::<Seq<SpecJson>, Tag>(t),
            },
        decreases datasets@.len() - i,
    {
        let ghost out_pre = out@;
        let ghost tail = dv.skip(i as int);
        proof {
            assert(tail.len() > 0);
            assert(tail.first() == dv[i as int]);
            assert(tail.drop_first() =~= dv.skip(i + 1));
        }
        let filtered = filter_dataset(&datasets[i], allowed);
        proof {
            assert(view_dataset(filtered) =~~= SpecDataSet {
                elements: spec_filter(tail.first().elements, allowed@),
            });
        }
        match encode_dicom_to_json(&filtered) {
            Ok(obj) => {
                out.push(obj);
                proof {
                    lemma_view_jsons(out_pre);
                    lemma_view_jsons(out@);
                    assert(view_jsons(out@) =~= view_jsons(out_pre).push(
                        view_json(out@[out@.len() - 1]),
                    ));
                    assert(search_results(dv, allowed@) == match search_results(
                        dv.skip(i + 1),
                        allowed@,
                    ) {
                        Ok(rest) => Ok::<Seq<SpecJson>, Tag>(view_jsons(out@) + rest),
                        Err(t) => Err::<Seq<SpecJson>, Tag>(t),
                    }) by {
                        match search_results(dv.skip(i + 1), allowed@) {
                            Ok(rest) => {
                                assert(view_jsons(out_pre) + (seq![view_json(out@[out@.len() - 1])]
                                    + rest) =~= view_jsons(out@) + rest);
                            },
                            Err(t) => {},
                        }
                    }
                }
                i = i + 1;
            },
            Err(_) => {
                proof {
                    assert(filtered_json(tail.first(), allowed@) is Err);
                }
                return HttpResponse { status: 500, content_type: None, body: ResponseBody::Empty };
            },
        }
    }
    proof {
        assert(dv.skip(dv.len() as int) =~= Seq::<SpecDataSet>::empty());
        assert(view_jsons(out@) + Seq::<SpecJson>::empty() =~= view_jsons(out@));
    }
    HttpResponse {
        status: 200,
        content_type: Some(String::from_str("application/dicom+json")),
        body: ResponseBody::Json(out),
    }
}

/// Assembles a WADO retrieve response: a found instance comes back as
/// a one-part multipart body under status 200; an unknown SOP instance
/// UID yields status 404 with an empty body.
pub fn retrieve_instance_response(found: Option<Vec<u8>>, boundary: &str) -> (r: HttpResponse)
    requires
        boundary.is_ascii(),
    ensures
        match found {
            Some(b) => r.status == 200 && (r.body matches ResponseBody::Bytes(body) && body@
                == mp_encode(b@, ascii_seq(boundary@))) && (r.content_type matches Some(ct) && ct@
                == crate::client::multipart_content_type_prefix() + boundary@),
            None => r.status == 404 && r.body is Empty && r.content_type is None,
        },
{
    match found {
        Some(b) => {
            let body = multipart_encode_binary(b, boundary);
            let mut ct = String::from_str(
                "multipart/related; type=\"application/dicom\"; boundary=",
            );
            ct.append(boundary);
            HttpResponse { status: 200, content_type: Some(ct), body: ResponseBody::Bytes(body) }
        },
        None => HttpResponse { status: 404, content_type: None, body: ResponseBody::Empty },
    }
}

/// Handles a STOW store body: the multipart payload is decoded against
/// the declared boundary; a well-formed body is acknowledged with
/// status 200, a malformed one refused with status 400.
pub fn store_response(body: &[u8], boundary: &str) -> (r: HttpResponse)
    requires
        boundary.is_ascii(),
    ensures
        mp_decode(body@, ascii_seq(boundary@)) is Ok <==> r.status == 200,
        mp_decode(body@, ascii_seq(boundary@)) is Err ==> r.status == 400,
        r.body is Empty,
        r.content_type is None,
{
    match parse_multipart_body(body, boundary) {
        Ok(_) => HttpResponse { status: 200, content_type: None, body: ResponseBody::Empty },
        Err(_) => HttpResponse { status: 400, content_type: None, body: ResponseBody::Empty },
    }
}

/// Routes one request against the given QIDO, WADO and STOW prefixes
/// and assembles its response.  An unmatched request line yields 404
/// with an empty body; a matched one goes to its assembler, whose
/// contract fixes the response for each value the store hands back:
/// `search_response`, `retrieve_instance_response`, `store_response`.
pub fn handle_request<T: DICOMServer>(
    server: &T,
    qido: &str,
    wado: &str,
    stow: &str,
    method: &str,
    path: &str,
    body: &[u8],
) -> (r: HttpResponse)
    ensures
        r.status == 200 || r.status == 400 || r.status == 404 || r.status == 500,
        r.status == 404 ==> r.body is Empty,
        r.status == 400 ==> r.body is Empty,
        r.status == 500 ==> r.body is Empty,
        spec_match_route(method@, path@, qido@, wado@, stow@) is None ==> r.status == 404
            && r.body is Empty,
        spec_match_route(method@, path@, qido@, wado@, stow@) matches Some(route) ==> match route {
            SpecRoute::SearchStudies => r.status == 200 || r.status == 500,
            SpecRoute::SearchSeries { .. } => r.status == 200 || r.status == 500,
            SpecRoute::SearchInstances { .. } => r.status == 200 || r.status == 500,
            SpecRoute::RetrieveInstance { .. } => r.status == 200 || r.status == 404,
            SpecRoute::StoreInstances => r.body is Empty && (r.status == 200 <==> mp_decode(
                body@,
                ascii_seq(crate::client::default_stow_boundary()),
            ) is Ok) && (r.status == 200 || r.status == 400),
        },
{
    let route = match_route(method, path, qido, wado, stow);
    let boundary = "ab69a3d5-542c-49e1-884b-8e135e104893";
    proof {
        reveal_strlit("ab69a3d5-542c-49e1-884b-8e135e104893");
    }
    match route {
        None => HttpResponse { status: 404, content_type: None, body: ResponseBody::Empty },
        Some(Route::SearchStudies) => {
            let results = server.search_studies();
            let allowed = study_tags();
            search_response(&results, &allowed)
        },
        Some(Route::SearchSeries { study }) => {
            let results = server.search_series(study.as_str());
            let allowed = series_level_tags();
            search_response(&results, &allowed)
        },
        Some(Route::SearchInstances { study, series }) => {
            let results = server.search_instances(study.as_str(), series.as_str());
            let allowed = instance_level_tags();
            search_response(&results, &allowed)
        },
        Some(Route::RetrieveInstance { study, series, sop }) => {
            let found = server.retrieve_instance(study.as_str(), series.as_str(), sop.as_str());
            retrieve_instance_response(found, boundary)
        },
        Some(Route::StoreInstances) => store_response(body, boundary),
    }
}

} // verus!
