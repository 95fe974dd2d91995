use dicomweb::dataset::Tag;

#[test]
fn it_works() {
    assert_eq!(2 + 2, 4);
}

#[test]
fn lib_it_works() {
    assert_eq!(2 + 2, 4);
}

#[test]
fn tag_key_is_zero_padded_uppercase_hex() {
    let key = dicomweb::dataset::tag_key(Tag { group: 0x0020, element: 0x000D });
    assert_eq!(key, "0020000D");
    let key = dicomweb::dataset::tag_key(Tag { group: 0x0008, element: 0x0018 });
    assert_eq!(key, "00080018");
}
