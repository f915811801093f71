use pdfparse::error::ErrorKind;
use pdfparse::object::{Object, ObjectId, StreamPayload, StringFormat};
use pdfparse::objects::{direct_object, indirect_object};
use pdfparse::reader::Reader;

struct StubReader;

impl Reader for StubReader {
    fn get_object(&self, id: ObjectId) -> Option<Object> {
        if id == (ObjectId { number: 2, generation: 0 }) {
            Some(Object::Integer(5))
        } else {
            None
        }
    }
}

struct EmptyReader;

impl Reader for EmptyReader {
    fn get_object(&self, _id: ObjectId) -> Option<Object> {
        None
    }
}

#[test]
fn scalar_objects_parse() {
    assert_eq!(direct_object(b"null ", 0), Ok((Object::Null, 5)));
    assert_eq!(direct_object(b"true", 0), Ok((Object::Boolean(true), 4)));
    assert_eq!(direct_object(b"false ", 0), Ok((Object::Boolean(false), 6)));
    assert_eq!(direct_object(b"-42 ", 0), Ok((Object::Integer(-42), 4)));
    assert_eq!(direct_object(b"/Name ", 0), Ok((Object::Name(b"Name".to_vec()), 6)));
    assert_eq!(
        direct_object(b"(hi)", 0),
        Ok((Object::String(b"hi".to_vec(), StringFormat::Literal), 4))
    );
    assert_eq!(
        direct_object(b"<4869>", 0),
        Ok((Object::String(b"Hi".to_vec(), StringFormat::Hexadecimal), 6))
    );
}

#[test]
fn reference_wins_over_integer() {
    assert_eq!(
        direct_object(b"1 0 R", 0),
        Ok((Object::Reference(ObjectId { number: 1, generation: 0 }), 5))
    );
    assert_eq!(direct_object(b"1 0 obj", 0), Ok((Object::Integer(1), 2)));
}

#[test]
fn real_wins_over_integer() {
    assert_eq!(direct_object(b"12.5 ", 0), Ok((Object::Real(b"12.5".to_vec()), 5)));
    assert_eq!(direct_object(b"12 ", 0), Ok((Object::Integer(12), 3)));
}

#[test]
fn arrays_nest_and_keep_order() {
    let r = direct_object(b"[1 2 [3] /X]", 0);
    let expected = Object::Array(vec![
        Object::Integer(1),
        Object::Integer(2),
        Object::Array(vec![Object::Integer(3)]),
        Object::Name(b"X".to_vec()),
    ]);
    assert_eq!(r, Ok((expected, 12)));
}

#[test]
fn dictionary_later_key_wins() {
    let (obj, _) = direct_object(b"<</A 1 /B 2 /A 3>>", 0).unwrap();
    match obj {
        Object::Dictionary(d) => {
            assert_eq!(d.get(b"A"), Some(&Object::Integer(3)));
            assert_eq!(d.get(b"B"), Some(&Object::Integer(2)));
            assert_eq!(d.get(b"C"), None);
        }
        other => panic!("expected a dictionary, got {:?}", other),
    }
}

#[test]
fn empty_input_is_a_mismatch() {
    let e = direct_object(b"", 0).unwrap_err();
    assert_eq!(e.kind, ErrorKind::Mismatch);
    assert!(!e.fatal);
}

#[test]
fn stream_with_direct_length() {
    let input = b"1 0 obj <</Length 5>> stream\n12345\nendstream endobj";
    let ((id, obj), _) = indirect_object(input, 0, &EmptyReader).unwrap();
    assert_eq!(id, ObjectId { number: 1, generation: 0 });
    match obj {
        Object::Stream(st) => {
            assert_eq!(st.payload, StreamPayload::Full(b"12345".to_vec()));
            assert_eq!(st.dict.get(b"Length"), Some(&Object::Integer(5)));
        }
        other => panic!("expected a stream, got {:?}", other),
    }
}

#[test]
fn stream_with_resolved_reference_length() {
    let input = b"1 0 obj <</Length 2 0 R>> stream\n12345\nendstream endobj";
    let ((_, obj), _) = indirect_object(input, 0, &StubReader).unwrap();
    match obj {
        Object::Stream(st) => {
            assert_eq!(st.payload, StreamPayload::Full(b"12345".to_vec()));
        }
        other => panic!("expected a stream, got {:?}", other),
    }
}

#[test]
fn stream_with_unresolved_length_is_deferred() {
    let input = b"1 0 obj <</Length 2 0 R>> stream\nXYZ";
    let ((_, obj), _) = indirect_object(input, 0, &EmptyReader).unwrap();
    match obj {
        Object::Stream(st) => {
            assert_eq!(st.payload, StreamPayload::Deferred(input.len() - 3));
        }
        other => panic!("expected a stream, got {:?}", other),
    }
}

#[test]
fn missing_endstream_is_fatal() {
    let input = b"1 0 obj <</Length 5>> stream\n12345\nendstrea";
    let e = indirect_object(input, 0, &EmptyReader).unwrap_err();
    assert!(e.fatal);
    assert_eq!(e.kind, ErrorKind::Mismatch);
}

#[test]
fn overlong_length_is_incomplete() {
    let input = b"1 0 obj <</Length 99>> stream\n123\nendstream";
    let e = indirect_object(input, 0, &EmptyReader).unwrap_err();
    assert!(e.fatal);
    assert_eq!(e.kind, ErrorKind::Incomplete);
}

#[test]
fn endobj_is_optional() {
    let with = indirect_object(b"1 0 obj 7 endobj", 0, &EmptyReader).unwrap();
    let without = indirect_object(b"1 0 obj 7 ", 0, &EmptyReader).unwrap();
    assert_eq!(with.0, without.0);
}

#[test]
fn dictionary_values_allow_references() {
    let (obj, _) = direct_object(b"<</K 1 0 R /N 1>>", 0).unwrap();
    match obj {
        Object::Dictionary(d) => {
            assert_eq!(
                d.get(b"K"),
                Some(&Object::Reference(ObjectId { number: 1, generation: 0 }))
            );
            assert_eq!(d.get(b"N"), Some(&Object::Integer(1)));
        }
        other => panic!("expected a dictionary, got {:?}", other),
    }
}

#[test]
fn empty_containers_parse() {
    assert_eq!(direct_object(b"[]", 0), Ok((Object::Array(vec![]), 2)));
    assert_eq!(direct_object(b"/", 0), Ok((Object::Name(vec![]), 1)));
    let (obj, p) = direct_object(b"<<>>", 0).unwrap();
    assert_eq!(p, 4);
    match obj {
        Object::Dictionary(d) => assert_eq!(d.get(b"Any"), None),
        other => panic!("expected a dictionary, got {:?}", other),
    }
}

#[test]
fn comments_are_gaps_between_tokens() {
    let input = b"42 % the answer\r\n ";
    assert_eq!(direct_object(input, 0), Ok((Object::Integer(42), input.len())));
}
