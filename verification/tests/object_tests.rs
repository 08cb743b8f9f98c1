use gitrs::object::blob::Blob;
use gitrs::object::Object;
use gitrs::Error;

#[test]
fn serializes() {
    let blob = Object::Blob(Blob { content: "some blob".as_bytes().to_vec() });
    let serialized = String::from_utf8(blob.serialize()).unwrap();
    let expected = "blob 9\u{0}some blob";
    assert_eq!(serialized, expected)
}

#[test]
fn deserializes() {
    let serialized = "blob 9\u{0}some blob";
    let expected = Object::Blob(Blob { content: "some blob".as_bytes().to_vec() });
    let blob = Object::deserialize(serialized.as_bytes()).unwrap();
    assert_eq!(blob, expected)
}

#[test]
fn rejects_when_size_is_incorrect() {
    let serialized = "blob 8\u{0}some blob";
    let result = Object::deserialize(serialized.as_bytes());
    assert_eq!(result, Err(Error::SizeMismatch));
}

#[test]
fn rejects_unknown_kinds() {
    let result = Object::deserialize("sock 3\u{0}abc".as_bytes());
    assert_eq!(result, Err(Error::UnknownKind));
}

#[test]
fn rejects_missing_space() {
    let result = Object::deserialize("blob9".as_bytes());
    assert_eq!(result, Err(Error::MalformedFraming));
}

#[test]
fn rejects_bad_sizes() {
    assert_eq!(Object::deserialize("blob x\u{0}a".as_bytes()), Err(Error::MalformedSize));
    assert_eq!(
        Object::deserialize("blob 09\u{0}some blob".as_bytes()),
        Err(Error::MalformedSize)
    );
    assert_eq!(Object::deserialize("blob \u{0}a".as_bytes()), Err(Error::MalformedSize));
}

#[test]
fn builds_each_kind_by_name() {
    let blob = Object::new("blob".to_string(), b"abc".to_vec()).unwrap();
    assert_eq!(blob, Object::Blob(Blob { content: b"abc".to_vec() }));
    let tag = Object::new("tag".to_string(), b"xyz".to_vec()).unwrap();
    assert!(matches!(tag, Object::Tag(_)));
    let tree = Object::new("tree".to_string(), vec![]).unwrap();
    assert!(matches!(tree, Object::Tree(_)));
    let other = Object::new("branch".to_string(), vec![]);
    assert_eq!(other, Err(Error::UnknownKind));
}

#[test]
fn envelope_round_trips_through_bytes() {
    let samples: Vec<&[u8]> = vec![
        b"blob 0\x00",
        b"blob 3\x00a\x00b",
        b"tag 4\x00text",
        b"commit 68\x00tree 2b5bfdf7798569e0b59b16eb9602d5fa572d6038\nauthor a\ncommitter c\n\n",
    ];
    for sample in samples {
        let obj = Object::deserialize(sample).unwrap();
        assert_eq!(obj.serialize(), sample.to_vec());
    }
}
