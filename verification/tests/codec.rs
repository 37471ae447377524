//! The document codec and the validated scalar types, exercised on
//! concrete values.

use template_api::document::{Document, Value};
use template_api::entity::Entity;
use template_api::object_id::ObjectId;
use template_api::scalars::{DateTime, Date, Email, Handle, Phone, MILLIS_PER_DAY};
use template_api::user::User;
use template_api::DecodeError;

fn sample_user() -> User {
    User {
        handle: Handle::parse("ada".to_owned()).unwrap(),
        name: "Ada Lovelace".to_owned(),
        email: Email::parse("a@example.com".to_owned()).unwrap(),
        phone: Phone::parse("+15550100100".to_owned()).unwrap(),
    }
}

#[test]
fn handle_validation() {
    assert!(Handle::parse("ada".to_owned()).is_some());
    assert!(Handle::parse("a-1_b".to_owned()).is_some());
    assert!(Handle::parse("".to_owned()).is_none());
    assert!(Handle::parse("1ada".to_owned()).is_none());
    assert!(Handle::parse("Ada".to_owned()).is_none());
    assert!(Handle::parse("ada!".to_owned()).is_none());
    assert!(Handle::parse("a".repeat(33)).is_none());
    assert!(Handle::parse("a".repeat(32)).is_some());
}

#[test]
fn email_validation() {
    assert!(Email::parse("a@example.com".to_owned()).is_some());
    assert!(Email::parse("first.last@sub.example.co".to_owned()).is_some());
    assert!(Email::parse("a@b.c".to_owned()).is_some());
    assert!(Email::parse("".to_owned()).is_none());
    assert!(Email::parse("aexample.com".to_owned()).is_none());
    assert!(Email::parse("@example.com".to_owned()).is_none());
    assert!(Email::parse("a@@example.com".to_owned()).is_none());
    assert!(Email::parse("a@example".to_owned()).is_none());
    assert!(Email::parse("a@.com".to_owned()).is_none());
    assert!(Email::parse("a@example.com.".to_owned()).is_none());
    assert!(Email::parse("a b@example.com".to_owned()).is_none());
}

#[test]
fn phone_validation() {
    assert!(Phone::parse("+15550100100".to_owned()).is_some());
    assert!(Phone::parse("+1234567".to_owned()).is_some());
    assert!(Phone::parse("+123456789012345".to_owned()).is_some());
    assert!(Phone::parse("15550100100".to_owned()).is_none());
    assert!(Phone::parse("+0555010010".to_owned()).is_none());
    assert!(Phone::parse("+123456".to_owned()).is_none());
    assert!(Phone::parse("+1234567890123456".to_owned()).is_none());
    assert!(Phone::parse("+1555a100100".to_owned()).is_none());
}

#[test]
fn user_document_round_trip() {
    let user = sample_user();
    let doc = user.to_document();
    assert_eq!(doc.len(), 4);
    let back = User::from_document(&doc).unwrap();
    assert_eq!(back.handle.as_str(), "ada");
    assert_eq!(back.name, "Ada Lovelace");
    assert_eq!(back.email.as_str(), "a@example.com");
    assert_eq!(back.phone.as_str(), "+15550100100");
    // Codec idempotence on its own output: re-encoding what the document
    // decoded to yields the document again.
    let again = back.to_document();
    assert!(doc.same_as(&again));
}

#[test]
fn user_decode_missing_field() {
    let mut doc = Document::new();
    doc.insert("name".to_owned(), Value::Str("Ada".to_owned()));
    match User::from_document(&doc) {
        Err(DecodeError::MissingField(k)) => assert_eq!(k, "handle"),
        other => panic!("expected a missing-field error, got {:?}", other),
    }
}

#[test]
fn user_decode_wrong_type() {
    let user = sample_user();
    let mut doc = user.to_document();
    doc.insert("name".to_owned(), Value::Int64(7));
    match User::from_document(&doc) {
        Err(DecodeError::WrongType(k)) => assert_eq!(k, "name"),
        other => panic!("expected a wrong-type error, got {:?}", other),
    }
}

#[test]
fn user_decode_invalid_value() {
    let user = sample_user();
    let mut doc = user.to_document();
    doc.insert("email".to_owned(), Value::Str("not-an-email".to_owned()));
    match User::from_document(&doc) {
        Err(DecodeError::InvalidValue(k)) => assert_eq!(k, "email"),
        other => panic!("expected an invalid-value error, got {:?}", other),
    }
}

#[test]
fn document_insert_replaces_in_place() {
    let mut doc = Document::new();
    doc.insert("a".to_owned(), Value::Int32(1));
    doc.insert("b".to_owned(), Value::Int32(2));
    doc.insert("a".to_owned(), Value::Int32(3));
    assert_eq!(doc.len(), 2);
    match doc.get("a") {
        Some(Value::Int32(n)) => assert_eq!(*n, 3),
        other => panic!("expected the replaced value, got {:?}", other),
    }
    let (first_key, _) = doc.entry_at(0);
    assert_eq!(first_key.as_str(), "a");
}

#[test]
fn object_id_hex_round_trip() {
    // Relies on the hex form being two lowercase digits per byte.
    let bytes: Vec<u8> = vec![0, 1, 2, 3, 4, 5, 6, 7, 8, 9, 10, 255];
    let oid = ObjectId::from_bytes(bytes.clone());
    let hex = oid.to_hex();
    assert_eq!(hex, "000102030405060708090aff");
    let back = ObjectId::parse_str(&hex).unwrap();
    assert_eq!(back.bytes_ref(), &bytes);
    assert!(back.same_as(&oid));
}

#[test]
fn object_id_parse_rejects_bad_input() {
    assert!(ObjectId::parse_str("").is_none());
    assert!(ObjectId::parse_str("zz0102030405060708090aff").is_none());
    assert!(ObjectId::parse_str("000102030405060708090af").is_none());
    assert!(ObjectId::parse_str("000102030405060708090aff0").is_none());
    // Uppercase digits are accepted and mean the same bytes.
    let upper = ObjectId::parse_str("000102030405060708090AFF").unwrap();
    let lower = ObjectId::parse_str("000102030405060708090aff").unwrap();
    assert!(upper.same_as(&lower));
}

#[test]
fn instants_and_dates() {
    let a = DateTime::from_millis(1_000);
    let b = DateTime::from_millis(2_000);
    assert!(a.le(&b));
    assert!(!b.le(&a));
    assert_eq!(a.later(b).timestamp_millis(), 2_000);
    assert_eq!(b.later(a).timestamp_millis(), 2_000);
    let d = Date::from_days(19_000);
    assert_eq!(d.days_from_epoch(), 19_000);
}

#[test]
fn date_round_trip_is_lossy_by_design() {
    // A date is stored as the midnight-UTC instant opening the day. The
    // day itself round-trips exactly ...
    let d = Date::from_days(19_000);
    let stored = d.to_instant();
    assert_eq!(stored.timestamp_millis(), 19_000 * MILLIS_PER_DAY);
    assert_eq!(stored.to_date().days_from_epoch(), 19_000);
    // ... but any time of day an instant carried is truncated away and
    // never recovered.
    let later_that_day = DateTime::from_millis(19_000 * MILLIS_PER_DAY + 12 * 3_600_000);
    assert_eq!(later_that_day.to_date().days_from_epoch(), 19_000);
    assert_eq!(
        later_that_day.to_date().to_instant().timestamp_millis(),
        stored.timestamp_millis()
    );
    // Days before the epoch truncate toward earlier days.
    let before = DateTime::from_millis(-1);
    assert_eq!(before.to_date().days_from_epoch(), -1);
    let exactly = DateTime::from_millis(-MILLIS_PER_DAY);
    assert_eq!(exactly.to_date().days_from_epoch(), -1);
    let under = DateTime::from_millis(-MILLIS_PER_DAY - 1);
    assert_eq!(under.to_date().days_from_epoch(), -2);
}
