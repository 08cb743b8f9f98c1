use gitrs::object::tree::{Leaf, Tree};
use gitrs::Error;

const ASCII_SPACE: u8 = 0x20;
const ASCII_NULL: u8 = 0x00;

#[test]
fn decodes_hash() {
    let raw = vec![
        0, 219, 250, 237, 236, 71, 165, 169, 35, 228, 150, 70, 108, 63, 223, 76, 200, 117, 247,
        74,
    ];
    let parsed = "00dbfaedec47a5a923e496466c3fdf4cc875f74a";
    assert_eq!(Leaf::decode_hash(&raw), parsed)
}

#[test]
fn encodes_hash() {
    let raw = "00dbfaedec47a5a923e496466c3fdf4cc875f74a";
    let parsed = vec![
        0, 219, 250, 237, 236, 71, 165, 169, 35, 228, 150, 70, 108, 63, 223, 76, 200, 117, 247,
        74,
    ];
    assert_eq!(Leaf::encode_hash(&raw).unwrap(), parsed)
}

#[test]
fn rejects_non_hex_hashes() {
    assert_eq!(Leaf::encode_hash("zz"), Err(Error::MalformedHash));
    assert_eq!(Leaf::encode_hash("abc"), Err(Error::MalformedHash));
}

#[test]
fn round_trips_leaf() {
    let mode: Vec<u8> = vec![49, 48, 48, 54, 52, 52];
    let path: Vec<u8> = vec![46, 103, 105, 116, 105, 103, 110, 111, 114, 101];
    let hash: Vec<u8> = vec![
        234, 140, 75, 247, 243, 95, 111, 119, 247, 93, 146, 173, 140, 232, 52, 159, 110, 129,
        221, 186,
    ];
    let serialized: &[u8] = &[
        mode.as_slice(),
        &[ASCII_SPACE],
        path.as_slice(),
        &[ASCII_NULL],
        hash.as_slice(),
    ]
    .concat();

    let deserialized = Leaf {
        mode: "100644".to_string(),
        path: ".gitignore".to_string(),
        hash: "ea8c4bf7f35f6f77f75d92ad8ce8349f6e81ddba".to_string(),
    };
    let (leaf, next) = Leaf::deserialize(&serialized, 0).unwrap();
    assert_eq!(next, serialized.len());
    assert_eq!(leaf, deserialized);
    assert_eq!(leaf.serialize(), serialized)
}

#[test]
fn round_trips_empty_tree() {
    let empty = Tree { leaves: vec![] };
    let tree = Tree::deserialize(vec![]).unwrap();
    assert_eq!(tree, empty);
    assert_eq!(tree.serialize(), Vec::<u8>::new());
}

#[test]
fn round_trips_two_leaves_in_order() {
    let first = Leaf {
        mode: "100644".to_string(),
        path: "a.txt".to_string(),
        hash: "ea8c4bf7f35f6f77f75d92ad8ce8349f6e81ddba".to_string(),
    };
    let second = Leaf {
        mode: "40000".to_string(),
        path: "dir".to_string(),
        hash: "00dbfaedec47a5a923e496466c3fdf4cc875f74a".to_string(),
    };
    let bytes = [first.serialize(), second.serialize()].concat();
    let tree = Tree::deserialize(bytes.clone()).unwrap();
    assert_eq!(tree.leaves.len(), 2);
    assert_eq!(tree.leaves[0], first);
    assert_eq!(tree.leaves[1], second);
    assert_eq!(tree.serialize(), bytes);
}

#[test]
fn rejects_overlong_modes() {
    let result = Tree::deserialize(b"1006440 x\x00aaaaaaaaaaaaaaaaaaaa".to_vec());
    assert_eq!(result, Err(Error::MalformedTree));
}

#[test]
fn rejects_truncated_leaves() {
    let result = Tree::deserialize(b"100644 x\x00abc".to_vec());
    assert_eq!(result, Err(Error::MalformedFraming));
}
