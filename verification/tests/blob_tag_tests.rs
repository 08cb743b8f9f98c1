use gitrs::object::blob::Blob;
use gitrs::object::tag::Tag;

#[test]
fn blob_can_roundtrip_tags() {
    let serialized = "blob";
    let deserialized = Blob { content: serialized.as_bytes().to_vec() };
    let blob = Blob::deserialize(serialized.as_bytes().to_vec()).unwrap();
    assert_eq!(blob, deserialized);
    assert_eq!(String::from_utf8(blob.serialize()).unwrap(), serialized)
}

#[test]
fn tag_can_roundtrip_tags() {
    let serialized = "tag";
    let deserialized = Tag { content: serialized.as_bytes().to_vec() };
    let tag = Tag::deserialize(serialized.as_bytes().to_vec()).unwrap();
    assert_eq!(tag, deserialized);
    assert_eq!(String::from_utf8(tag.serialize()).unwrap(), serialized)
}

#[test]
fn blobs_keep_arbitrary_bytes() {
    let raw: Vec<u8> = vec![0, 159, 146, 150, 255];
    let blob = Blob::deserialize(raw.clone()).unwrap();
    assert_eq!(blob.serialize(), raw);
}
