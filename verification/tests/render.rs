use bencoding::cursor::ByteCursor;
use bencoding::render::{get_spaces, print_list, render_document};
use bencoding::Bencoding;

#[test]
fn spaces_are_spaces() {
    assert_eq!(get_spaces(0), "");
    assert_eq!(get_spaces(4), "    ");
}

#[test]
fn render_string() {
    let v = Bencoding::String(b"spam".to_vec());
    assert_eq!(render_document(&v).unwrap(), "String (4): 'spam'");
}

#[test]
fn render_non_ascii_string() {
    let v = Bencoding::String("h\u{e9}llo".as_bytes().to_vec());
    assert_eq!(render_document(&v).unwrap(), "String (6): 'h\u{e9}llo'");
}

#[test]
fn render_invalid_utf8_string_redacted() {
    let v = Bencoding::String(vec![0xff, 0xfe]);
    assert_eq!(render_document(&v).unwrap(), "String (2): [redacted]");
}

#[test]
fn render_integers() {
    assert_eq!(render_document(&Bencoding::Integer(3)).unwrap(), "Integer 3");
    assert_eq!(render_document(&Bencoding::Integer(-3)).unwrap(), "Integer -3");
    assert_eq!(render_document(&Bencoding::Integer(0)).unwrap(), "Integer 0");
    assert_eq!(
        render_document(&Bencoding::Integer(i64::MIN)).unwrap(),
        "Integer -9223372036854775808"
    );
}

#[test]
fn render_list_tree() {
    let v = Bencoding::List(vec![
        Bencoding::String(b"a".to_vec()),
        Bencoding::Integer(7),
    ]);
    assert_eq!(
        render_document(&v).unwrap(),
        "List (2):\n  String (1): 'a'\n  Integer 7"
    );
}

#[test]
fn render_dictionary_tree() {
    let mut cursor = ByteCursor::new("d4:spaml1:a1:bee".as_bytes().to_vec());
    let v = Bencoding::import(&mut cursor).unwrap();
    assert_eq!(
        render_document(&v).unwrap(),
        "Dictionary (1):\n  Key 'spam': List (2):\n    String (1): 'a'\n    String (1): 'b'"
    );
}

#[test]
fn render_refuses_non_utf8_key() {
    let v = Bencoding::Dictionary(vec![(vec![0xff], Bencoding::Integer(1))]);
    assert!(render_document(&v).is_none());
}

#[test]
fn print_list_uses_given_indent() {
    let v = Bencoding::List(vec![Bencoding::Integer(1)]);
    assert_eq!(print_list(2, &v), "List (1):\n    Integer 1");
}
