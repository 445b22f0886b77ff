use steamy_vdf::parser::Token;
use steamy_vdf::reader::{Event, Item};
use steamy_vdf::{Error, Reader};

fn value(text: &str) -> Item {
    Item::Value(text.to_string())
}

#[test]
fn entry_pairs_key_and_value() {
    let mut reader = Reader::from(&b"key value\n"[..]);
    assert_eq!(reader.event().unwrap(), Event::Entry(value("key"), value("value")));
    assert_eq!(reader.event().unwrap(), Event::End);
}

#[test]
fn group_events() {
    let mut reader = Reader::from(&b"\"outer\" { \"inner\" \"v\" }\n"[..]);
    assert_eq!(reader.event().unwrap(), Event::GroupStart("outer".to_string()));
    assert_eq!(reader.event().unwrap(), Event::Entry(value("inner"), value("v")));
    assert_eq!(reader.event().unwrap(), Event::GroupEnd);
    assert_eq!(reader.event().unwrap(), Event::End);
}

#[test]
fn statement_key_is_tagged() {
    let mut reader = Reader::from(&b"#cmd value\n\"#cmd\" value\ncmd value\n"[..]);
    let expected = Event::Entry(Item::Statement("cmd".to_string()), value("value"));
    assert_eq!(reader.event().unwrap(), expected);
    assert_eq!(reader.event().unwrap(), expected);
    let plain = reader.event().unwrap();
    assert_eq!(plain, Event::Entry(value("cmd"), value("value")));
    assert_ne!(plain, expected);
}

#[test]
fn statement_value_is_tagged() {
    let mut reader = Reader::from(&b"key #value\n"[..]);
    assert_eq!(
        reader.event().unwrap(),
        Event::Entry(value("key"), Item::Statement("value".to_string()))
    );
}

#[test]
fn comments_are_left_out() {
    let mut reader = Reader::from(&b"// one\nkey // two\n // three\n value\n// four\n"[..]);
    assert_eq!(reader.event().unwrap(), Event::Entry(value("key"), value("value")));
    assert_eq!(reader.event().unwrap(), Event::End);
}

#[test]
fn token_keeps_comments() {
    let mut reader = Reader::from(&b"// one\nkey\n"[..]);
    assert_eq!(reader.token().unwrap(), Token::Comment(" one".into()));
    assert_eq!(reader.token().unwrap(), Token::Item("key".into()));
    assert!(matches!(reader.token(), Err(Error::Eof)));
}

#[test]
fn non_comment_token_skips_comments() {
    let mut reader = Reader::from(&b"// one\n// two\n{ x\n"[..]);
    assert_eq!(reader.non_comment_token().unwrap(), Token::GroupStart);
    assert_eq!(reader.non_comment_token().unwrap(), Token::Item("x".into()));
    assert!(matches!(reader.non_comment_token(), Err(Error::Eof)));
}

#[test]
fn token_failure_reads_nothing() {
    let mut reader = Reader::from(&b"\xff\xfe\n"[..]);
    assert!(matches!(reader.token(), Err(Error::Parse)));
    assert!(matches!(reader.token(), Err(Error::Parse)));
}

#[test]
fn empty_document_ends_at_once() {
    assert_eq!(Reader::from(&b""[..]).event().unwrap(), Event::End);
    assert_eq!(Reader::from(&b" \n\t\r\n"[..]).event().unwrap(), Event::End);
    assert_eq!(Reader::from(&b"// only a comment\n"[..]).event().unwrap(), Event::End);
}

#[test]
fn key_without_value_ends_the_document() {
    let mut reader = Reader::from(&b"key \n"[..]);
    assert_eq!(reader.event().unwrap(), Event::End);
}

#[test]
fn group_start_without_name_is_refused() {
    assert!(matches!(Reader::from(&b"{ a b }\n"[..]).event(), Err(Error::Parse)));
}

#[test]
fn key_before_group_end_is_refused() {
    assert!(matches!(Reader::from(&b"key }\n"[..]).event(), Err(Error::Parse)));
}

#[test]
fn invalid_text_is_refused() {
    assert!(matches!(Reader::from(&b"\xff\xfe value\n"[..]).event(), Err(Error::Parse)));
    assert!(matches!(Reader::from(&b"key \"\xff\"\n"[..]).event(), Err(Error::Parse)));
}

#[test]
fn unterminated_quote_is_a_failure() {
    assert!(matches!(Reader::from(&b"\"abc"[..]).event(), Err(Error::Eof)));
    assert!(matches!(Reader::from(&b"key \"abc"[..]).event(), Err(Error::Eof)));
    assert!(matches!(Reader::from(&b""[..]).event(), Ok(Event::End)));
}

#[test]
fn buffer_that_ends_inside_a_token_is_a_failure() {
    assert!(matches!(Reader::from(&b"key value"[..]).event(), Err(Error::Eof)));
    assert!(matches!(Reader::from(&b"key"[..]).event(), Err(Error::Eof)));
    let mut reader = Reader::from(&b"key value\n// comment"[..]);
    assert_eq!(reader.event().unwrap(), Event::Entry(value("key"), value("value")));
    assert!(matches!(reader.event(), Err(Error::Eof)));
}

#[test]
fn next_yields_events_until_the_end() {
    let mut reader = Reader::from(&b"a { b c }\nd e\n"[..]);
    assert_eq!(reader.next(), Some(Event::GroupStart("a".to_string())));
    assert_eq!(reader.next(), Some(Event::Entry(value("b"), value("c"))));
    assert_eq!(reader.next(), Some(Event::GroupEnd));
    assert_eq!(reader.next(), Some(Event::Entry(value("d"), value("e"))));
    assert_eq!(reader.next(), None);
    assert_eq!(reader.next(), None);
}

#[test]
fn next_stops_for_good_at_a_failure() {
    let mut reader = Reader::from(&b"a b\nc }\nd e\n"[..]);
    assert_eq!(reader.next(), Some(Event::Entry(value("a"), value("b"))));
    assert_eq!(reader.next(), None);
    assert_eq!(reader.next(), None);
    assert_eq!(reader.next(), None);
}

#[test]
fn item_gives_its_text() {
    let statement = Item::Statement("include".to_string());
    let plain = value("include");
    assert_eq!(&*statement, "include");
    assert_eq!(&*plain, "include");
    assert_eq!(statement.len(), 7);
    let text: String = statement.into();
    assert_eq!(text, "include");
    let text: String = plain.into();
    assert_eq!(text, "include");
}
