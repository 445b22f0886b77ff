use steamy_vdf::parser;
use steamy_vdf::parser::{Failure, Token};

#[test]
fn next() {
    assert_eq!(parser::next(b"test\n"), Ok((&b""[..], Token::Item("test".into()))));
    assert_eq!(parser::next(b"\"test\"\n"), Ok((&b""[..], Token::Item("test".into()))));
    assert_eq!(parser::next(b"\"\"\n"), Ok((&b""[..], Token::Item("".into()))));
    assert_eq!(parser::next(b"#test\n"), Ok((&b""[..], Token::Statement("test".into()))));
    assert_eq!(parser::next(b"\"#test\"\n"), Ok((&b""[..], Token::Statement("test".into()))));
    assert_eq!(parser::next(b"{\n"), Ok((&b""[..], Token::GroupStart)));
    assert_eq!(parser::next(b"}\n"), Ok((&b""[..], Token::GroupEnd)));
    assert_eq!(parser::next(b"//test\n"), Ok((&b""[..], Token::Comment("test".into()))));
}

#[test]
fn bare() {
    assert_eq!(parser::bare(b"test\n"), Ok((&b"\n"[..], Token::Item("test".into()))));
    assert_eq!(parser::bare(b"#test\n"), Ok((&b"\n"[..], Token::Statement("test".into()))));

    assert_eq!(parser::bare(b"lol wut\n"), Ok((&b" wut\n"[..], Token::Item("lol".into()))));
    assert_eq!(parser::bare(b"#lol wut\n"), Ok((&b" wut\n"[..], Token::Statement("lol".into()))));

    assert_eq!(parser::bare(b"lol{\n"), Ok((&b"{\n"[..], Token::Item("lol".into()))));
    assert_eq!(parser::bare(b"#lol{\n"), Ok((&b"{\n"[..], Token::Statement("lol".into()))));

    assert_eq!(parser::bare(b"lol}\n"), Ok((&b"}\n"[..], Token::Item("lol".into()))));
    assert_eq!(parser::bare(b"#lol}\n"), Ok((&b"}\n"[..], Token::Statement("lol".into()))));
}

#[test]
fn enclosed() {
    assert_eq!(parser::enclosed(b"\"test\""), Ok((&b""[..], Token::Item("test".into()))));
    assert_eq!(parser::enclosed(b"\"#test\""), Ok((&b""[..], Token::Statement("test".into()))));

    assert_eq!(parser::enclosed(b"\"te\\\"st\""), Ok((&b""[..], Token::Item("te\"st".into()))));
    assert_eq!(parser::enclosed(b"\"te\\st\""), Ok((&b""[..], Token::Item("te\\st".into()))));
    assert_eq!(
        parser::enclosed(b"\"#te\\\"st\""),
        Ok((&b""[..], Token::Statement("te\"st".into())))
    );
}

#[test]
fn open() {
    assert_eq!(parser::open(b"{"), Ok((&b""[..], Token::GroupStart)));
}

#[test]
fn close() {
    assert_eq!(parser::close(b"}"), Ok((&b""[..], Token::GroupEnd)));
}

#[test]
fn escapes_are_resolved() {
    assert_eq!(parser::string(b"a\\nb").unwrap(), "a\nb");
    assert_eq!(parser::string(b"a\\tb").unwrap(), "a\tb");
    assert_eq!(parser::string(b"a\\rb").unwrap(), "a\rb");
    assert_eq!(parser::string(b"a\\\\b").unwrap(), "a\\b");
    assert_eq!(parser::string(b"a\\\"b").unwrap(), "a\"b");
}

#[test]
fn unknown_escape_is_kept() {
    assert_eq!(parser::string(b"models\\props").unwrap(), "models\\props");
    assert_eq!(parser::string(b"\\x41").unwrap(), "\\x41");
}

#[test]
fn backslash_at_the_end_is_dropped() {
    assert_eq!(parser::string(b"abc\\").unwrap(), "abc");
}

#[test]
fn text_without_escape_is_borrowed() {
    let text = parser::string(b"plain").unwrap();
    assert!(matches!(text, std::borrow::Cow::Borrowed("plain")));
    let text = parser::string(b"pl\\nain").unwrap();
    assert!(matches!(text, std::borrow::Cow::Owned(_)));
    assert_eq!(text, "pl\nain");
}

#[test]
fn invalid_utf8_is_malformed() {
    assert_eq!(parser::string(b"\xff\xfe"), Err(Failure::Malformed));
    assert_eq!(parser::string(b"a\\n\xff"), Err(Failure::Malformed));
    assert_eq!(parser::next(b"\xff\xfe\n"), Err(Failure::Malformed));
    assert_eq!(parser::next(b"\"\xff\"\n"), Err(Failure::Malformed));
}

#[test]
fn utf8_text_is_decoded() {
    assert_eq!(
        parser::next("\"gr\u{fc}\u{df}e \u{4e16}\u{754c}\"\n".as_bytes()),
        Ok((&b""[..], Token::Item("gr\u{fc}\u{df}e \u{4e16}\u{754c}".into())))
    );
}

#[test]
fn whitespace_is_space_tab_and_line_ends() {
    assert_eq!(parser::whitespace(b" \t\r\n x "), (&b"x "[..], &b" \t\r\n "[..]));
    assert_eq!(parser::whitespace(b"   "), (&b""[..], &b"   "[..]));
    assert_eq!(parser::whitespace(b""), (&b""[..], &b""[..]));
    assert_eq!(parser::whitespace(b"\x0cx"), (&b"\x0cx"[..], &b""[..]));
}

#[test]
fn whitespace_around_a_token_is_skipped() {
    assert_eq!(parser::next(b" \t\r\n key \t\r\n rest"), Ok((&b"rest"[..], Token::Item("key".into()))));
}

#[test]
fn end_of_buffer_is_incomplete() {
    assert_eq!(parser::next(b""), Err(Failure::Incomplete));
    assert_eq!(parser::next(b"  \n\t "), Err(Failure::Incomplete));
    assert_eq!(parser::next(b"test"), Err(Failure::Incomplete));
    assert_eq!(parser::next(b"#test"), Err(Failure::Incomplete));
    assert_eq!(parser::next(b"#"), Err(Failure::Incomplete));
    assert_eq!(parser::next(b"/"), Err(Failure::Incomplete));
    assert_eq!(parser::next(b"//"), Err(Failure::Incomplete));
    assert_eq!(parser::next(b"// no line end"), Err(Failure::Incomplete));
}

#[test]
fn unterminated_quote_is_incomplete() {
    assert_eq!(parser::next(b"\"abc"), Err(Failure::Incomplete));
    assert_eq!(parser::next(b"\"abc\\\""), Err(Failure::Incomplete));
    assert_eq!(parser::next(b"\"abc\\"), Err(Failure::Incomplete));
    assert_eq!(parser::next(b"\""), Err(Failure::Incomplete));
    assert_eq!(parser::next(b"\"#"), Err(Failure::Incomplete));
    assert_eq!(parser::enclosed_content(b"abc"), Err(Failure::Incomplete));
}

#[test]
fn quoted_content_ends_at_the_first_free_quote() {
    assert_eq!(parser::enclosed_content(b"ab\"cd\""), Ok((&b"\"cd\""[..], &b"ab"[..])));
    assert_eq!(parser::enclosed_content(b"a\\\"b\" x"), Ok((&b"\" x"[..], &b"a\\\"b"[..])));
    assert_eq!(parser::enclosed_content(b"a\\\\\" x"), Ok((&b"\" x"[..], &b"a\\\\"[..])));
    assert_eq!(parser::enclosed_content(b"\""), Ok((&b"\""[..], &b""[..])));
}

#[test]
fn quoted_token_keeps_delimiters() {
    assert_eq!(
        parser::next(b"\"a b\t{c}\n//d\" x"),
        Ok((&b"x"[..], Token::Item("a b\t{c}\n//d".into())))
    );
}

#[test]
fn quoted_hash_alone_is_an_empty_statement() {
    assert_eq!(parser::next(b"\"#\" x"), Ok((&b"x"[..], Token::Statement("".into()))));
}

#[test]
fn comment_runs_to_the_line_end() {
    assert_eq!(
        parser::comment(b"// a \"b\" {c}\nnext"),
        Ok((&b"\nnext"[..], Token::Comment(" a \"b\" {c}".into())))
    );
    assert_eq!(parser::next(b"//a\n  next\n"), Ok((&b"next\n"[..], Token::Comment("a".into()))));
}

#[test]
fn comment_without_text_is_a_bare_item() {
    assert_eq!(parser::comment(b"//\n"), Err(Failure::Malformed));
    assert_eq!(parser::next(b"//\nx"), Ok((&b"x"[..], Token::Item("//".into()))));
}

#[test]
fn single_slash_starts_a_bare_item() {
    assert_eq!(parser::comment(b"/a\n"), Err(Failure::Malformed));
    assert_eq!(parser::next(b"/a\n"), Ok((&b""[..], Token::Item("/a".into()))));
}

#[test]
fn hash_before_a_delimiter_is_an_item() {
    assert_eq!(parser::bare_statement(b"# x"), Err(Failure::Malformed));
    assert_eq!(parser::bare(b"# x"), Ok((&b" x"[..], Token::Item("#".into()))));
}

#[test]
fn braces_are_tokens_of_their_own() {
    assert_eq!(parser::next(b"{}"), Ok((&b"}"[..], Token::GroupStart)));
    assert_eq!(parser::next(b"}{"), Ok((&b"{"[..], Token::GroupEnd)));
    assert_eq!(parser::open(b"}"), Err(Failure::Malformed));
    assert_eq!(parser::close(b"{"), Err(Failure::Malformed));
    assert_eq!(parser::open(b""), Err(Failure::Incomplete));
    assert_eq!(parser::close(b""), Err(Failure::Incomplete));
}

#[test]
fn bare_token_starts_with_no_delimiter() {
    assert_eq!(parser::bare_item(b"\"x\" "), Err(Failure::Malformed));
    assert_eq!(parser::bare_item(b" x "), Err(Failure::Malformed));
    assert_eq!(parser::bare(b"{"), Err(Failure::Malformed));
}

#[test]
fn empty_item_is_two_quotes() {
    assert_eq!(parser::empty_item(b"\"\" x"), Ok((&b" x"[..], Token::Item("".into()))));
    assert_eq!(parser::empty_item(b"\"a\""), Err(Failure::Malformed));
    assert_eq!(parser::empty_item(b"\""), Err(Failure::Incomplete));
    assert_eq!(parser::enclosed_item(b"\"\" x"), Ok((&b" x"[..], Token::Item("".into()))));
}

#[test]
fn bare_token_resolves_escapes() {
    assert_eq!(parser::next(b"a\\tb\n"), Ok((&b""[..], Token::Item("a\tb".into()))));
}

#[test]
fn statement_differs_from_item() {
    let statement = parser::next(b"#cmd value\n").unwrap().1;
    let quoted = parser::next(b"\"#cmd\" value\n").unwrap().1;
    let item = parser::next(b"cmd value\n").unwrap().1;
    assert_eq!(statement, Token::Statement("cmd".into()));
    assert_eq!(quoted, Token::Statement("cmd".into()));
    assert_eq!(item, Token::Item("cmd".into()));
    assert_ne!(statement, item);
}

fn escape(text: &str) -> Vec<u8> {
    let mut bytes = vec![b'"'];
    for &byte in text.as_bytes() {
        match byte {
            b'\\' => bytes.extend_from_slice(b"\\\\"),
            b'\n' => bytes.extend_from_slice(b"\\n"),
            b'\t' => bytes.extend_from_slice(b"\\t"),
            b'\r' => bytes.extend_from_slice(b"\\r"),
            b'"' => bytes.extend_from_slice(b"\\\""),
            other => bytes.push(other),
        }
    }
    bytes.push(b'"');
    bytes
}

#[test]
fn quoted_text_comes_back_unchanged() {
    for text in ["", "a", "hello world", "a{b}c", "x//y", "tab\there", "gr\u{fc}n \u{4e16}", "a#b"] {
        let mut bytes = vec![b'"'];
        bytes.extend_from_slice(text.as_bytes());
        bytes.push(b'"');
        assert_eq!(parser::next(&bytes), Ok((&b""[..], Token::Item(text.into()))));
    }
}

#[test]
fn escaped_text_comes_back_unchanged() {
    for text in [
        "",
        "plain",
        "back\\slash",
        "line\nfeed",
        "tab\tand\rreturn",
        "quo\"te",
        "\\",
        "\"",
        "\\n",
        "a\\\"b\\\\",
        "models\\props_forest/cliff_wall_06",
        "gr\u{fc}n\n\u{4e16}\\",
    ] {
        let bytes = escape(text);
        assert_eq!(parser::next(&bytes), Ok((&b""[..], Token::Item(text.into()))));
    }
}
