use dicomweb::dataset::DataElement;
use dicomweb::dataset::DataSet;
use dicomweb::dataset::ElementValue;
use dicomweb::dataset::Tag;
use dicomweb::dataset::VR;
use dicomweb::json::JsonValue;
use dicomweb::server::DICOMServer;
use dicomweb::server::HttpResponse;
use dicomweb::server::ResponseBody;
use dicomweb::server::Route;
use dicomweb::server::handle_request;
use dicomweb::server::match_route;

fn text(t: Tag, vr: VR, v: &str) -> DataElement {
    DataElement { tag: t, vr, value: ElementValue::Text(vec![v.to_string()]) }
}

/// One series-level data set, carrying a study-, a series- and an
/// instance-level tag, as an archive that has not yet reduced its
/// answers would.
fn series_dataset(series_uid: &str) -> DataSet {
    let mut ds = DataSet::new();
    ds.insert(text(Tag { group: 0x0020, element: 0x000D }, VR::UI, "1.2.3"));
    ds.insert(text(Tag { group: 0x0020, element: 0x000E }, VR::UI, series_uid));
    ds.insert(text(Tag { group: 0x0008, element: 0x0018 }, VR::UI, "9.9.9"));
    ds
}

/// A store holding three instances spread across two series of one
/// study; series search answers with one data set per distinct series.
struct TwoSeriesStore;

impl DICOMServer for TwoSeriesStore {
    fn get_qido_prefix(&self) -> &str {
        ""
    }
    fn get_wado_prefix(&self) -> &str {
        ""
    }
    fn get_stow_prefix(&self) -> &str {
        ""
    }
    fn search_studies(&self) -> Vec<DataSet> {
        vec![series_dataset("4.4")]
    }
    fn search_series(&self, study_instance_uid: &str) -> Vec<DataSet> {
        if study_instance_uid == "1.2.3" {
            // three instances, but only two distinct series
            vec![series_dataset("4.4"), series_dataset("4.5")]
        } else {
            vec![]
        }
    }
    fn search_instances(&self, _study: &str, _series: &str) -> Vec<DataSet> {
        vec![]
    }
    fn retrieve_instance(&self, _study: &str, _series: &str, sop: &str) -> Option<Vec<u8>> {
        if sop == "9.9.9" {
            Some(vec![0x44, 0x49, 0x43, 0x4D])
        } else {
            None
        }
    }
}

fn json_body(r: &HttpResponse) -> &Vec<JsonValue> {
    match &r.body {
        ResponseBody::Json(list) => list,
        _ => panic!("expected a JSON body"),
    }
}

#[test]
fn search_series_filters_to_study_and_series_tags() {
    let store = TwoSeriesStore;
    let r = handle_request(&store, "", "", "", "GET", "/studies/1.2.3/series", b"");
    assert_eq!(r.status, 200);
    assert_eq!(r.content_type.as_deref(), Some("application/dicom+json"));
    let list = json_body(&r);
    assert_eq!(list.len(), 2);
    for obj in list {
        let entries = match obj {
            JsonValue::Obj(entries) => entries,
            _ => panic!("expected an object"),
        };
        let keys: Vec<&str> = entries.iter().map(|e| e.0.as_str()).collect();
        assert!(keys.contains(&"0020000D"));
        assert!(keys.contains(&"0020000E"));
        // the instance-level tag must be filtered out
        assert!(!keys.contains(&"00080018"));
    }
}

#[test]
fn retrieve_unknown_instance_is_not_found() {
    let store = TwoSeriesStore;
    let r = handle_request(&store, "", "", "", "GET", "/studies/1.2.3/series/4.4/instances/0.0", b"");
    assert_eq!(r.status, 404);
    assert!(matches!(r.body, ResponseBody::Empty));
}

#[test]
fn retrieve_known_instance_frames_multipart() {
    let store = TwoSeriesStore;
    let r = handle_request(&store, "", "", "", "GET", "/studies/1.2.3/series/4.4/instances/9.9.9", b"");
    assert_eq!(r.status, 200);
    let ct = r.content_type.clone().unwrap();
    assert!(ct.starts_with("multipart/related; type=\"application/dicom\"; boundary="));
    let boundary = ct.rsplit_once("boundary=").unwrap().1.to_string();
    let body = match &r.body {
        ResponseBody::Bytes(b) => b.clone(),
        _ => panic!("expected a binary body"),
    };
    let parts = dicomweb::multipart::parse_multipart_body(&body, &boundary).unwrap();
    assert_eq!(parts, vec![vec![0x44, 0x49, 0x43, 0x4D]]);
}

#[test]
fn unmatched_paths_yield_empty_not_found() {
    let store = TwoSeriesStore;
    let r = handle_request(&store, "", "", "", "GET", "/patients", b"");
    assert_eq!(r.status, 404);
    assert!(matches!(r.body, ResponseBody::Empty));
    let r = handle_request(&store, "", "", "", "PUT", "/studies", b"");
    assert_eq!(r.status, 404);
}

#[test]
fn store_accepts_well_formed_multipart() {
    let store = TwoSeriesStore;
    let boundary = "ab69a3d5-542c-49e1-884b-8e135e104893";
    let body = dicomweb::multipart::multipart_encode_binary(vec![1, 2, 3], boundary);
    let r = handle_request(&store, "", "", "", "POST", "/studies", &body);
    assert_eq!(r.status, 200);
    let truncated =
        b"--ab69a3d5-542c-49e1-884b-8e135e104893\r\nContent-Length: 99\r\n\r\nzz";
    let r = handle_request(&store, "", "", "", "POST", "/studies", truncated);
    assert_eq!(r.status, 400);
    // a body that never carries the boundary is refused outright
    let r = handle_request(&store, "", "", "", "POST", "/studies", b"not multipart at all");
    assert_eq!(r.status, 400);
    assert!(matches!(r.body, ResponseBody::Empty));
}

#[test]
fn route_table_respects_prefixes() {
    match match_route("GET", "/dicom-web/studies", "dicom-web", "", "") {
        Some(Route::SearchStudies) => {},
        _ => panic!("prefixed study search must match"),
    }
    match match_route("GET", "/studies/1.2/series", "", "", "") {
        Some(Route::SearchSeries { study }) => assert_eq!(study, "1.2"),
        _ => panic!("series search must match"),
    }
    match match_route("GET", "/studies/1.2/series/3.4/instances", "", "", "") {
        Some(Route::SearchInstances { study, series }) => {
            assert_eq!(study, "1.2");
            assert_eq!(series, "3.4");
        },
        _ => panic!("instance search must match"),
    }
    match match_route("GET", "/wado/studies/1.2/series/3.4/instances/5.6", "", "wado", "") {
        Some(Route::RetrieveInstance { study, series, sop }) => {
            assert_eq!(study, "1.2");
            assert_eq!(series, "3.4");
            assert_eq!(sop, "5.6");
        },
        _ => panic!("retrieve must match"),
    }
    match match_route("POST", "/studies", "", "", "") {
        Some(Route::StoreInstances) => {},
        _ => panic!("store must match"),
    }
    assert!(match_route("GET", "/studies/1.2", "", "", "").is_none());
    assert!(match_route("GET", "/other/studies", "dicom-web", "", "").is_none());
}
