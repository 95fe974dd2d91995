use dicomweb::dataset::DataElement;
use dicomweb::dataset::DataSet;
use dicomweb::dataset::ElementValue;
use dicomweb::dataset::Tag;
use dicomweb::dataset::VR;
use dicomweb::json::CodecError;
use dicomweb::json::JsonValue;
use dicomweb::json::encode_dicom_to_json;
use dicomweb::json::json2dicom;

fn decode_error(objs: Vec<JsonValue>) -> CodecError {
    match json2dicom(&objs) {
        Err(e) => e,
        Ok(_) => panic!("decoding must be refused"),
    }
}

fn patient_name_dataset(name: &str) -> DataSet {
    let mut ds = DataSet::new();
    ds.insert(DataElement {
        tag: Tag { group: 0x0010, element: 0x0010 },
        vr: VR::PN,
        value: ElementValue::Text(vec![name.to_string()]),
    });
    ds
}

#[test]
fn encode_patient_name_scenario() {
    let ds = patient_name_dataset("Doe^John");
    let obj = encode_dicom_to_json(&ds).unwrap();
    let entries = match obj {
        JsonValue::Obj(entries) => entries,
        _ => panic!("expected an object"),
    };
    assert_eq!(entries.len(), 1);
    assert_eq!(entries[0].0, "00100010");
    let attr = match &entries[0].1 {
        JsonValue::Obj(attr) => attr,
        _ => panic!("expected an attribute object"),
    };
    assert_eq!(attr.len(), 2);
    assert_eq!(attr[0].0, "vr");
    assert!(matches!(&attr[0].1, JsonValue::Str(s) if s == "PN"));
    assert_eq!(attr[1].0, "Value");
    let items = match &attr[1].1 {
        JsonValue::Arr(items) => items,
        _ => panic!("expected an array Value"),
    };
    assert_eq!(items.len(), 1);
    let person = match &items[0] {
        JsonValue::Obj(person) => person,
        _ => panic!("expected an Alphabetic object"),
    };
    assert_eq!(person.len(), 1);
    assert_eq!(person[0].0, "Alphabetic");
    assert!(matches!(&person[0].1, JsonValue::Str(s) if s == "Doe^John"));
}

fn value_of(obj: &JsonValue) -> &JsonValue {
    let entries = match obj {
        JsonValue::Obj(entries) => entries,
        _ => panic!("expected an object"),
    };
    let attr = match &entries[0].1 {
        JsonValue::Obj(attr) => attr,
        _ => panic!("expected an attribute object"),
    };
    assert_eq!(attr[1].0, "Value");
    &attr[1].1
}

#[test]
fn text_values_stay_arrays_even_when_empty_or_single() {
    let mut ds = DataSet::new();
    ds.insert(DataElement {
        tag: Tag { group: 0x0008, element: 0x0050 },
        vr: VR::SH,
        value: ElementValue::Text(vec![]),
    });
    let obj = encode_dicom_to_json(&ds).unwrap();
    match value_of(&obj) {
        JsonValue::Arr(items) => assert_eq!(items.len(), 0),
        _ => panic!("zero-valued element must still encode as an array"),
    }

    let mut ds = DataSet::new();
    ds.insert(DataElement {
        tag: Tag { group: 0x0008, element: 0x0050 },
        vr: VR::SH,
        value: ElementValue::Text(vec!["A123".to_string()]),
    });
    let obj = encode_dicom_to_json(&ds).unwrap();
    match value_of(&obj) {
        JsonValue::Arr(items) => {
            assert_eq!(items.len(), 1);
            assert!(matches!(&items[0], JsonValue::Str(s) if s == "A123"));
        },
        _ => panic!("single-valued element must still encode as an array"),
    }
}

#[test]
fn binary_value_is_one_base64_string() {
    let mut ds = DataSet::new();
    ds.insert(DataElement {
        tag: Tag { group: 0x7FE0, element: 0x0010 },
        vr: VR::OB,
        value: ElementValue::Bytes(vec![1, 2, 3]),
    });
    let obj = encode_dicom_to_json(&ds).unwrap();
    match value_of(&obj) {
        JsonValue::Str(s) => assert_eq!(s, "AQID"),
        _ => panic!("a binary element must encode as one base64 string, not an array"),
    }
}

#[test]
fn integer_values_encode_as_one_element_arrays() {
    let mut ds = DataSet::new();
    ds.insert(DataElement {
        tag: Tag { group: 0x0028, element: 0x0010 },
        vr: VR::US,
        value: ElementValue::UInt(512),
    });
    ds.insert(DataElement {
        tag: Tag { group: 0x0028, element: 0x1041 },
        vr: VR::SS,
        value: ElementValue::Int(-3),
    });
    let obj = encode_dicom_to_json(&ds).unwrap();
    let entries = match obj {
        JsonValue::Obj(entries) => entries,
        _ => panic!("expected an object"),
    };
    assert_eq!(entries.len(), 2);
    assert_eq!(entries[0].0, "00280010");
    assert_eq!(entries[1].0, "00281041");
}

#[test]
fn mismatched_value_shape_names_the_tag() {
    let mut ds = DataSet::new();
    ds.insert(DataElement {
        tag: Tag { group: 0x0028, element: 0x0010 },
        vr: VR::US,
        value: ElementValue::Text(vec!["512".to_string()]),
    });
    match encode_dicom_to_json(&ds) {
        Err(err) => assert_eq!(
            err,
            CodecError::UnsupportedValue(Tag { group: 0x0028, element: 0x0010 }),
        ),
        Ok(_) => panic!("a text value under an integer representation must be refused"),
    }
}

#[test]
fn sequence_encodes_nested_objects() {
    let mut inner = DataSet::new();
    inner.insert(DataElement {
        tag: Tag { group: 0x0008, element: 0x0100 },
        vr: VR::SH,
        value: ElementValue::Text(vec!["CODE".to_string()]),
    });
    let mut ds = DataSet::new();
    ds.insert(DataElement {
        tag: Tag { group: 0x0008, element: 0x1032 },
        vr: VR::SQ,
        value: ElementValue::Items(vec![inner]),
    });
    let obj = encode_dicom_to_json(&ds).unwrap();
    match value_of(&obj) {
        JsonValue::Arr(items) => {
            assert_eq!(items.len(), 1);
            assert!(matches!(&items[0], JsonValue::Obj(_)));
        },
        _ => panic!("a sequence must encode as an array of objects"),
    }
}

#[test]
fn decode_rebuilds_what_encode_wrote() {
    let mut ds = DataSet::new();
    ds.insert(DataElement {
        tag: Tag { group: 0x0010, element: 0x0010 },
        vr: VR::PN,
        value: ElementValue::Text(vec!["Doe^John".to_string()]),
    });
    ds.insert(DataElement {
        tag: Tag { group: 0x0020, element: 0x000D },
        vr: VR::UI,
        value: ElementValue::Text(vec!["1.2.3".to_string()]),
    });
    ds.insert(DataElement {
        tag: Tag { group: 0x7FE0, element: 0x0010 },
        vr: VR::OB,
        value: ElementValue::Bytes(vec![9, 8, 7, 6]),
    });
    let obj = encode_dicom_to_json(&ds).unwrap();
    let rebuilt = json2dicom(&vec![obj]).unwrap();
    assert_eq!(rebuilt.len(), 1);
    let r = &rebuilt[0];
    assert_eq!(r.elements.len(), 3);
    assert_eq!(r.elements[0].tag, Tag { group: 0x0010, element: 0x0010 });
    assert_eq!(r.elements[0].vr, VR::PN);
    match &r.elements[0].value {
        ElementValue::Text(xs) => assert_eq!(xs, &vec!["Doe^John".to_string()]),
        _ => panic!("person name must decode to text"),
    }
    assert_eq!(r.elements[1].vr, VR::UI);
    match &r.elements[1].value {
        ElementValue::Text(xs) => assert_eq!(xs, &vec!["1.2.3".to_string()]),
        _ => panic!("identifier must decode to text"),
    }
    assert_eq!(r.elements[2].vr, VR::OB);
    match &r.elements[2].value {
        ElementValue::Bytes(b) => assert_eq!(b, &vec![9, 8, 7, 6]),
        _ => panic!("binary data must decode to bytes"),
    }
}

#[test]
fn decode_rejects_missing_vr() {
    let attr = JsonValue::Obj(vec![("Value".to_string(), JsonValue::Arr(vec![]))]);
    let obj = JsonValue::Obj(vec![("00100010".to_string(), attr)]);
    assert_eq!(decode_error(vec![obj]), CodecError::MissingVr);
}

#[test]
fn decode_rejects_unknown_vr() {
    let attr = JsonValue::Obj(vec![("vr".to_string(), JsonValue::Str("ZZ".to_string()))]);
    let obj = JsonValue::Obj(vec![("00100010".to_string(), attr)]);
    assert_eq!(decode_error(vec![obj]), CodecError::UnknownVr);
}

#[test]
fn decode_rejects_bad_tag_key() {
    let attr = JsonValue::Obj(vec![("vr".to_string(), JsonValue::Str("SH".to_string()))]);
    let obj = JsonValue::Obj(vec![("patient".to_string(), attr)]);
    assert_eq!(decode_error(vec![obj]), CodecError::BadTagKey);
}

#[test]
fn decode_rejects_non_array_value_for_text() {
    let attr = JsonValue::Obj(vec![
        ("vr".to_string(), JsonValue::Str("SH".to_string())),
        ("Value".to_string(), JsonValue::Str("bare".to_string())),
    ]);
    let obj = JsonValue::Obj(vec![("00080050".to_string(), attr)]);
    assert_eq!(decode_error(vec![obj]), CodecError::BadValue(Tag { group: 0x0008, element: 0x0050 }));
}

#[test]
fn decode_rejects_out_of_order_keys() {
    let attr = |vr: &str| {
        JsonValue::Obj(vec![
            ("vr".to_string(), JsonValue::Str(vr.to_string())),
            ("Value".to_string(), JsonValue::Arr(vec![])),
        ])
    };
    let obj = JsonValue::Obj(vec![
        ("00200010".to_string(), attr("SH")),
        ("00100010".to_string(), attr("SH")),
    ]);
    assert_eq!(decode_error(vec![obj]), CodecError::TagOrder);
}

#[test]
fn decode_rejects_non_objects() {
    assert_eq!(
        decode_error(vec![JsonValue::Str("not an object".to_string())]),
        CodecError::NotAnObject,
    );
}

#[test]
fn decode_accepts_missing_value_for_text_and_sequence() {
    let attr = |vr: &str| {
        JsonValue::Obj(vec![("vr".to_string(), JsonValue::Str(vr.to_string()))])
    };
    let obj = JsonValue::Obj(vec![
        ("00080050".to_string(), attr("SH")),
        ("00081032".to_string(), attr("SQ")),
    ]);
    let dss = json2dicom(&vec![obj]).unwrap();
    assert_eq!(dss[0].elements.len(), 2);
    assert!(matches!(&dss[0].elements[0].value, ElementValue::Text(xs) if xs.is_empty()));
    assert!(matches!(&dss[0].elements[1].value, ElementValue::Items(items) if items.is_empty()));
}
