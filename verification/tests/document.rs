use pdfparse::doc::{header, trailer, xref_and_trailer, xref_start};
use pdfparse::object::{Dictionary, Object, ObjectId, Stream, StreamPayload};
use pdfparse::reader::{Reader, XrefStreamDecoder};
use pdfparse::xref::{Xref, XrefEntry};

struct EmptyReader;

impl Reader for EmptyReader {
    fn get_object(&self, _id: ObjectId) -> Option<Object> {
        None
    }
}

struct MarkingDecoder;

impl XrefStreamDecoder for MarkingDecoder {
    fn decode_xref_stream(&self, stream: Stream) -> (Xref, Dictionary) {
        let mut x = Xref::new(7);
        if let StreamPayload::Full(_) = stream.payload {
            x.insert(42, XrefEntry::Normal { offset: 1, generation: 0 });
        }
        (x, stream.dict)
    }
}

#[test]
fn header_yields_the_version() {
    let input = b"%PDF-1.7\n%\xc2\xa5binary\n1 0 obj";
    let (v, p) = header(input, 0).unwrap();
    assert_eq!(v, "1.7".to_string());
    assert_eq!(&input[p..], b"1 0 obj");
}

#[test]
fn header_requires_the_marker() {
    assert!(header(b"PDF-1.7\n", 0).is_err());
}

#[test]
fn xref_start_reads_the_offset() {
    let input = b"startxref\n1234\n%%EOF";
    assert_eq!(xref_start(input, 0), Ok((1234, input.len())));
    assert!(xref_start(b"startxref\n12", 0).is_err());
}

#[test]
fn classic_xref_drops_free_entries() {
    let input =
        b"xref\n0 2\n0000000000 65535 f\r\n0000000009 00000 n\r\ntrailer\n<</Size 2>>";
    let ((x, t), _) = xref_and_trailer(input, 0, &EmptyReader, &MarkingDecoder).unwrap();
    assert_eq!(x.get(0), None);
    assert_eq!(x.get(1), Some(XrefEntry::Normal { offset: 9, generation: 0 }));
    assert_eq!(x.get(2), None);
    assert_eq!(x.entries.len(), 1);
    assert_eq!(x.size, 2);
    assert_eq!(t.get(b"Size"), Some(&Object::Integer(2)));
}

#[test]
fn classic_xref_spans_sections() {
    let input = b"xref\n0 1\n0000000000 65535 f\r\n3 1\n0000000077 00001 n\r\ntrailer\n<</Size 4>>";
    let ((x, _), _) = xref_and_trailer(input, 0, &EmptyReader, &MarkingDecoder).unwrap();
    assert_eq!(x.get(3), Some(XrefEntry::Normal { offset: 77, generation: 1 }));
    assert_eq!(x.entries.len(), 1);
    assert_eq!(x.size, 4);
}

#[test]
fn missing_size_is_fatal() {
    let input = b"xref\n0 1\n0000000009 00000 n\r\ntrailer\n<</Root 1 0 R>>";
    let e = xref_and_trailer(input, 0, &EmptyReader, &MarkingDecoder).unwrap_err();
    assert!(e.fatal);
}

#[test]
fn xref_stream_path_uses_the_decoder() {
    let input = b"9 0 obj <</Length 3>> stream\nabc\nendstream endobj";
    let ((x, _), _) = xref_and_trailer(input, 0, &EmptyReader, &MarkingDecoder).unwrap();
    assert_eq!(x.size, 7);
    assert_eq!(x.get(42), Some(XrefEntry::Normal { offset: 1, generation: 0 }));
}

#[test]
fn non_stream_fallback_is_an_error() {
    let input = b"9 0 obj 5 endobj";
    assert!(xref_and_trailer(input, 0, &EmptyReader, &MarkingDecoder).is_err());
}

#[test]
fn trailer_needs_its_keyword() {
    assert!(trailer(b"trailer <</Size 1>>", 0).is_ok());
    assert!(trailer(b"railer <</Size 1>>", 0).is_err());
}

#[test]
fn negative_size_is_rejected() {
    let input = b"xref\n0 1\n0000000009 00000 n\r\ntrailer\n<</Size -2>>";
    let e = xref_and_trailer(input, 0, &EmptyReader, &MarkingDecoder).unwrap_err();
    assert!(e.fatal);
}
