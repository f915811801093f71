use pdfparse::content::{content, operator};
use pdfparse::object::{Object, StringFormat};

const PAGE: &[u8] = b"
2 J
BT
/F1 12 Tf
0 Tc
0 Tw
72.5 712 TD
[(Unencoded streams can be read easily) 65 (,) ] TJ
0 -14 TD
[(b) 20 (ut generally tak) 10 (e more space than \\311)] TJ
T* (encoded streams.) Tj
\t\t";

#[test]
/// Run `cargo test -- --nocapture` to see output
fn parse_content() {
    let parsed = content(PAGE, 0);
    println!("{:?}", parsed);
    assert_eq!(parsed.is_ok(), true);
}

#[test]
fn operations_keep_source_order() {
    let (c, p) = content(PAGE, 0).unwrap();
    assert_eq!(p, PAGE.len());
    let ops = &c.operations;
    assert_eq!(ops.len(), 11);
    assert_eq!(ops[0].operator, "J".to_string());
    assert_eq!(ops[0].operands, vec![Object::Integer(2)]);
    assert_eq!(ops[1].operator, "BT".to_string());
    assert_eq!(ops[1].operands, vec![]);
    assert_eq!(ops[5].operator, "TD".to_string());
    assert_eq!(ops[5].operands, vec![Object::Real(b"72.5".to_vec()), Object::Integer(712)]);
    assert_eq!(ops[9].operator, "T*".to_string());
    assert_eq!(ops[10].operator, "Tj".to_string());
    assert_eq!(
        ops[10].operands,
        vec![Object::String(b"encoded streams.".to_vec(), StringFormat::Literal)]
    );
}

#[test]
fn operators_take_letters_and_marks() {
    assert_eq!(operator(b"T* ", 0).map(|(s, p)| (s, p)), Some(("T*".to_string(), 2)));
    assert_eq!(operator(b"'", 0), Some(("'".to_string(), 1)));
    assert_eq!(operator(b"12", 0), None);
}

#[test]
fn parsing_twice_gives_identical_results() {
    let a = content(PAGE, 0);
    let b = content(PAGE, 0);
    assert_eq!(a, b);
    let x = pdfparse::objects::direct_object(b"[1 (two) /three]", 0);
    let y = pdfparse::objects::direct_object(b"[1 (two) /three]", 0);
    assert_eq!(x, y);
}
