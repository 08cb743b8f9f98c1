use gitrs::object::util::{take_exact, take_string, take_until};
use gitrs::Error;

#[test]
fn takes_and_parses_string() {
    let data: Vec<u8> = vec![0, 1, 2, 3];
    let (result, _) = take_string(&data, 0, 2).unwrap();
    let expected = String::from_utf8(vec![0, 1]).unwrap();
    assert_eq!(result, expected)
}

#[test]
fn leaves_remainder() {
    let data: Vec<u8> = vec![0, 1, 2, 3];
    let (_, next) = take_string(&data, 0, 2).unwrap();
    let remainder: Vec<u8> = data[next..].to_vec();
    let expected: Vec<u8> = vec![3];
    assert_eq!(remainder, expected)
}

#[test]
fn takes_everything_without_delimiter() {
    let data: Vec<u8> = vec![104, 105];
    let (result, next) = take_string(&data, 0, 0).unwrap();
    assert_eq!(result, "hi");
    assert_eq!(next, 2);
}

#[test]
fn take_string_rejects_bytes_that_are_not_text() {
    let data: Vec<u8> = vec![0xff, 0xfe, 2, 3];
    assert_eq!(take_string(&data, 0, 2), Err(Error::MalformedFraming));
}

#[test]
fn take_until_stops_before_delimiter() {
    let data: Vec<u8> = vec![116, 114, 101, 101, 0x20, 99];
    let (field, next) = take_until(&data, 0, 0x20).unwrap();
    assert_eq!(field, b"tree".to_vec());
    assert_eq!(next, 5);
    assert_eq!(take_until(&data, 0, 0x07), Err(Error::MalformedFraming));
}

#[test]
fn take_exact_checks_length() {
    let data: Vec<u8> = vec![1, 2, 3, 4];
    let (field, next) = take_exact(&data, 1, 2).unwrap();
    assert_eq!(field, vec![2, 3]);
    assert_eq!(next, 3);
    assert_eq!(take_exact(&data, 1, 4), Err(Error::MalformedFraming));
}
