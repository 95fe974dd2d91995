use dicomweb::dataset::DataElement;
use dicomweb::dataset::DataSet;
use dicomweb::dataset::ElementValue;
use dicomweb::dataset::Tag;
use dicomweb::dataset::VR;
use dicomweb::filter::filter_dataset;
use dicomweb::filter::instance_tags;
use dicomweb::filter::series_tags;
use dicomweb::filter::study_tags;

fn text(t: Tag, vr: VR, v: &str) -> DataElement {
    DataElement { tag: t, vr, value: ElementValue::Text(vec![v.to_string()]) }
}

fn sample_dataset() -> DataSet {
    let mut ds = DataSet::new();
    // patient name: a study-level tag
    ds.insert(text(Tag { group: 0x0010, element: 0x0010 }, VR::PN, "Doe^John"));
    // modality: a series-level tag
    ds.insert(text(Tag { group: 0x0008, element: 0x0060 }, VR::CS, "CT"));
    // SOP instance UID: an instance-level tag
    ds.insert(text(Tag { group: 0x0008, element: 0x0018 }, VR::UI, "1.2.3.4"));
    // a private tag no level admits
    ds.insert(text(Tag { group: 0x0009, element: 0x0001 }, VR::LO, "private"));
    ds
}

fn tags_of(ds: &DataSet) -> Vec<Tag> {
    ds.elements.iter().map(|e| e.tag).collect()
}

#[test]
fn filter_keeps_only_permitted_tags() {
    let ds = sample_dataset();
    let allowed = study_tags();
    let f = filter_dataset(&ds, &allowed);
    assert_eq!(tags_of(&f), vec![Tag { group: 0x0010, element: 0x0010 }]);
}

#[test]
fn filter_is_idempotent() {
    let ds = sample_dataset();
    let allowed = series_tags();
    let once = filter_dataset(&ds, &allowed);
    let twice = filter_dataset(&once, &allowed);
    assert_eq!(tags_of(&once), tags_of(&twice));
    assert_eq!(once.elements.len(), twice.elements.len());
    for (a, b) in once.elements.iter().zip(twice.elements.iter()) {
        assert_eq!(a.tag, b.tag);
        assert_eq!(a.vr, b.vr);
        match (&a.value, &b.value) {
            (ElementValue::Text(x), ElementValue::Text(y)) => assert_eq!(x, y),
            _ => panic!("unexpected value shapes"),
        }
    }
}

#[test]
fn widening_the_tag_set_keeps_every_tag() {
    let ds = sample_dataset();
    let narrow = study_tags();
    let mut wide = study_tags();
    wide.extend(series_tags());
    wide.extend(instance_tags());
    let narrow_tags = tags_of(&filter_dataset(&ds, &narrow));
    let wide_tags = tags_of(&filter_dataset(&ds, &wide));
    for t in narrow_tags {
        assert!(wide_tags.contains(&t));
    }
}

#[test]
fn filter_preserves_tag_order() {
    let ds = sample_dataset();
    let mut wide = study_tags();
    wide.extend(series_tags());
    wide.extend(instance_tags());
    let f = filter_dataset(&ds, &wide);
    let tags = tags_of(&f);
    assert_eq!(
        tags,
        vec![
            Tag { group: 0x0008, element: 0x0018 },
            Tag { group: 0x0008, element: 0x0060 },
            Tag { group: 0x0010, element: 0x0010 },
        ]
    );
}

#[test]
fn insert_replaces_and_sorts() {
    let mut ds = DataSet::new();
    ds.insert(text(Tag { group: 0x0010, element: 0x0010 }, VR::PN, "One"));
    ds.insert(text(Tag { group: 0x0008, element: 0x0060 }, VR::CS, "CT"));
    ds.insert(text(Tag { group: 0x0010, element: 0x0010 }, VR::PN, "Two"));
    assert_eq!(ds.elements.len(), 2);
    assert_eq!(ds.elements[0].tag, Tag { group: 0x0008, element: 0x0060 });
    assert_eq!(ds.elements[1].tag, Tag { group: 0x0010, element: 0x0010 });
    match &ds.elements[1].value {
        ElementValue::Text(xs) => assert_eq!(xs, &vec!["Two".to_string()]),
        _ => panic!("unexpected value shape"),
    }
}
