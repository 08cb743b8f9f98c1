use gitrs::reference::Reference;
use gitrs::Error;

#[test]
fn round_trips_commits() {
    let data = "a94a8fe5ccb19ba61c4c0873d391e987982fbbd3\n";
    let expected = Reference::Commit("a94a8fe5ccb19ba61c4c0873d391e987982fbbd3".to_string());
    let deserialized = Reference::from_file(data).unwrap();
    assert_eq!(deserialized, expected);
    assert_eq!(deserialized.serialize(), data)
}

#[test]
fn round_trips_refs() {
    let data = "ref: refs/heads/master\n";
    let expected = Reference::Ref("refs/heads/master".to_string());
    let deserialized = Reference::from_file(data).unwrap();
    assert_eq!(deserialized, expected);
    assert_eq!(deserialized.serialize(), data)
}

#[test]
fn sorts_names() {
    assert_eq!(Reference::from_name("HEAD").unwrap(), Reference::Head);
    assert_eq!(
        Reference::from_name("refs/heads/master").unwrap(),
        Reference::Ref("refs/heads/master".to_string())
    );
    assert_eq!(
        Reference::from_name("a94a8fe5ccb19ba61c4c0873d391e987982fbbd3").unwrap(),
        Reference::Commit("a94a8fe5ccb19ba61c4c0873d391e987982fbbd3".to_string())
    );
}

#[test]
fn rejects_malformed_ref_files() {
    assert_eq!(Reference::from_file("ref refs/heads/master\n"), Err(Error::MalformedRef));
    assert_eq!(Reference::from_file("ref: \n"), Err(Error::MalformedRef));
    assert_eq!(Reference::from_file(""), Err(Error::MalformedRef));
    assert_eq!(Reference::from_file("\n"), Err(Error::MalformedRef));
    assert_eq!(Reference::from_file("A94A\n"), Err(Error::MalformedRef));
    assert_eq!(Reference::from_file("ref: a\nb\n"), Err(Error::MalformedRef));
}

#[test]
fn accepts_a_single_character_path() {
    assert_eq!(
        Reference::from_file("ref: x\n").unwrap(),
        Reference::Ref("x".to_string())
    );
}

#[test]
fn tolerates_a_missing_final_newline_on_read() {
    assert_eq!(
        Reference::from_file("ref: refs/heads/master").unwrap(),
        Reference::Ref("refs/heads/master".to_string())
    );
    assert_eq!(
        Reference::from_file("a94a8fe5ccb19ba61c4c0873d391e987982fbbd3").unwrap(),
        Reference::Commit("a94a8fe5ccb19ba61c4c0873d391e987982fbbd3".to_string())
    );
}
