use follow_graph::identity::Identity;
use follow_graph::identity::ParseError;
use follow_graph::user::CreateUserError;
use follow_graph::user::Profile;
use follow_graph::user::User;

fn sample_profile() -> Profile {
    Profile {
        name: Some("alice".to_string()),
        display_name: Some("Alice".to_string()),
        about: None,
    }
}

#[test]
fn from_hex_parses_all_words() {
    let text = "00000000000000010000000000000002000000000000000300000000000000ff";
    let id = Identity::from_hex(text).unwrap();
    assert_eq!(id, Identity::from_words(1, 2, 3, 0xff));
}

#[test]
fn from_hex_accepts_upper_and_lower_case() {
    let lower = "00000000000000000000000000000000000000000000000000000000000000ab";
    let upper = "00000000000000000000000000000000000000000000000000000000000000AB";
    assert_eq!(
        Identity::from_hex(lower).unwrap(),
        Identity::from_hex(upper).unwrap()
    );
}

#[test]
fn from_hex_rejects_wrong_length() {
    assert_eq!(Identity::from_hex("abc"), Err(ParseError::WrongLength));
    assert_eq!(Identity::from_hex(""), Err(ParseError::WrongLength));
    let too_long = "0".repeat(65);
    assert_eq!(Identity::from_hex(&too_long), Err(ParseError::WrongLength));
}

#[test]
fn from_hex_rejects_bad_character() {
    let bad = "000000000000000000000000000000000000000000000000000000000000000g";
    assert_eq!(Identity::from_hex(bad), Err(ParseError::BadCharacter));
}

#[test]
fn to_hex_writes_lowercase_big_endian() {
    let id = Identity::from_words(0xdeadbeef00000001, 0, 0x10, 0xff);
    assert_eq!(
        id.to_hex(),
        "deadbeef000000010000000000000000000000000000001000000000000000ff"
    );
}

#[test]
fn hex_round_trip() {
    let id = Identity::from_words(0x0123456789abcdef, u64::MAX, 0, 42);
    let text = id.to_hex();
    assert_eq!(text.len(), 64);
    assert_eq!(Identity::from_hex(&text), Ok(id));
}

#[test]
fn user_new_with_record() {
    let key = Identity::from_words(0, 0, 0, 7);
    let user = User::new(key, Some((sample_profile(), 1700000000))).unwrap();
    assert_eq!(user.public_key(), key);
    assert_eq!(user.metadata().name, Some("alice".to_string()));
    assert_eq!(user.last_updated(), 1700000000);
}

#[test]
fn user_new_without_record() {
    let key = Identity::from_words(0, 0, 0, 7);
    match User::new(key, None) {
        Err(CreateUserError::MetadataNotFound) => {}
        other => panic!("expected MetadataNotFound, got {:?}", other),
    }
}
