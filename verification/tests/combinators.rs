//! The tokenizer held against the same grammar written with the streaming
//! combinators of nom.

use std::borrow::Cow;

use nom::branch::alt;
use nom::bytes::streaming::{escaped, is_not, tag, take, take_while};
use nom::error::ErrorKind;
use nom::sequence::delimited;
use nom::{IResult, Needed};
use steamy_vdf::parser;
use steamy_vdf::parser::{Failure, Token};

fn text_rule(raw: &[u8]) -> Result<Cow<'_, str>, nom::Err<nom::error::Error<&[u8]>>> {
    parser::string(raw)
        .map_err(|_| nom::Err::Error(nom::error::Error::new(raw, ErrorKind::Verify)))
}

fn spaces_rule(input: &[u8]) -> IResult<&[u8], &[u8]> {
    match take_while(|b: u8| b == b' ' || b == b'\t' || b == b'\n' || b == b'\r')(input) {
        Ok(found) => Ok(found),
        Err(nom::Err::Incomplete(Needed::Size(size))) if size.get() == 1 => Ok((&[][..], input)),
        Err(e) => Err(e),
    }
}

fn comment_rule(input: &[u8]) -> IResult<&[u8], Token<'_>> {
    let (input, _) = tag(&b"//"[..])(input)?;
    let (input, raw) = is_not("\n")(input)?;
    Ok((input, Token::Comment(text_rule(raw)?)))
}

fn open_rule(input: &[u8]) -> IResult<&[u8], Token<'_>> {
    let (input, _) = tag(&b"{"[..])(input)?;
    Ok((input, Token::GroupStart))
}

fn close_rule(input: &[u8]) -> IResult<&[u8], Token<'_>> {
    let (input, _) = tag(&b"}"[..])(input)?;
    Ok((input, Token::GroupEnd))
}

fn bare_statement_rule(input: &[u8]) -> IResult<&[u8], Token<'_>> {
    let (input, _) = tag(&b"#"[..])(input)?;
    let (input, raw) = is_not(" \t\n\r{}\"")(input)?;
    Ok((input, Token::Statement(text_rule(raw)?)))
}

fn bare_item_rule(input: &[u8]) -> IResult<&[u8], Token<'_>> {
    let (input, raw) = is_not(" \t\n\r{}\"")(input)?;
    Ok((input, Token::Item(text_rule(raw)?)))
}

fn bare_rule(input: &[u8]) -> IResult<&[u8], Token<'_>> {
    alt((bare_statement_rule, bare_item_rule))(input)
}

fn content_rule(input: &[u8]) -> IResult<&[u8], &[u8]> {
    escaped(is_not("\"\\"), '\\', take(1usize))(input)
}

fn hash_and_content_rule(input: &[u8]) -> IResult<&[u8], &[u8]> {
    let (input, _) = tag(&b"#"[..])(input)?;
    content_rule(input)
}

fn enclosed_statement_rule(input: &[u8]) -> IResult<&[u8], Token<'_>> {
    let (input, raw) =
        delimited(tag(&b"\""[..]), hash_and_content_rule, tag(&b"\""[..]))(input)?;
    Ok((input, Token::Statement(text_rule(raw)?)))
}

fn enclosed_item_rule(input: &[u8]) -> IResult<&[u8], Token<'_>> {
    let (input, raw) = delimited(tag(&b"\""[..]), content_rule, tag(&b"\""[..]))(input)?;
    Ok((input, Token::Item(text_rule(raw)?)))
}

fn empty_item_rule(input: &[u8]) -> IResult<&[u8], Token<'_>> {
    let (input, _) = tag("\"\"")(input)?;
    Ok((input, Token::Item("".into())))
}

fn enclosed_rule(input: &[u8]) -> IResult<&[u8], Token<'_>> {
    alt((enclosed_statement_rule, enclosed_item_rule, empty_item_rule))(input)
}

fn next_rule(input: &[u8]) -> IResult<&[u8], Token<'_>> {
    let (input, _) = spaces_rule(input)?;
    let (input, token) =
        alt((comment_rule, open_rule, close_rule, bare_rule, enclosed_rule))(input)?;
    let (input, _) = spaces_rule(input)?;
    Ok((input, token))
}

fn expected<'a>(result: IResult<&'a [u8], Token<'a>>) -> Result<(&'a [u8], Token<'a>), Failure> {
    match result {
        Ok(found) => Ok(found),
        Err(nom::Err::Incomplete(_)) => Err(Failure::Incomplete),
        Err(_) => Err(Failure::Malformed),
    }
}

fn agree(input: &[u8]) {
    assert_eq!(parser::next(input), expected(next_rule(input)), "next on {:?}", input);
    assert_eq!(parser::comment(input), expected(comment_rule(input)), "comment on {:?}", input);
    assert_eq!(parser::open(input), expected(open_rule(input)), "open on {:?}", input);
    assert_eq!(parser::close(input), expected(close_rule(input)), "close on {:?}", input);
    assert_eq!(parser::bare(input), expected(bare_rule(input)), "bare on {:?}", input);
    assert_eq!(
        parser::bare_statement(input),
        expected(bare_statement_rule(input)),
        "bare statement on {:?}",
        input
    );
    assert_eq!(
        parser::bare_item(input),
        expected(bare_item_rule(input)),
        "bare item on {:?}",
        input
    );
    assert_eq!(parser::enclosed(input), expected(enclosed_rule(input)), "enclosed on {:?}", input);
    assert_eq!(
        parser::enclosed_statement(input),
        expected(enclosed_statement_rule(input)),
        "enclosed statement on {:?}",
        input
    );
    assert_eq!(
        parser::enclosed_item(input),
        expected(enclosed_item_rule(input)),
        "enclosed item on {:?}",
        input
    );
    assert_eq!(
        parser::empty_item(input),
        expected(empty_item_rule(input)),
        "empty item on {:?}",
        input
    );
    let content_here = match content_rule(input) {
        Ok(parts) => Ok(parts),
        Err(nom::Err::Incomplete(_)) => Err(Failure::Incomplete),
        Err(_) => Err(Failure::Malformed),
    };
    assert_eq!(parser::enclosed_content(input), content_here, "content on {:?}", input);
    assert_eq!(parser::whitespace(input), spaces_rule(input).unwrap(), "whitespace on {:?}", input);
}

#[test]
fn chosen_inputs_agree_with_the_combinators() {
    let inputs: Vec<&[u8]> = vec![
        b"",
        b" ",
        b"\n",
        b"test\n",
        b"test",
        b"\"test\"\n",
        b"\"test\"",
        b"\"\"",
        b"\"\"\n",
        b"\"",
        b"\"#",
        b"\"#\"",
        b"\"#\" x",
        b"#",
        b"# ",
        b"#{",
        b"#test\n",
        b"\"#test\"\n",
        b"{\n",
        b"}\n",
        b"{",
        b"}",
        b"{}",
        b"/",
        b"//",
        b"//\n",
        b"//test",
        b"//test\n",
        b"/test\n",
        b"/ /\n",
        b"a//b\n",
        b"\\",
        b"\\ ",
        b"a\\",
        b"a\\ ",
        b"a\\n\\t\\r\\\\\\\"b ",
        b"\"a\\",
        b"\"a\\\"",
        b"\"a\\\"\"",
        b"\"a\\\\\"",
        b"\"a\\\\\" ",
        b"\"a\\x\" ",
        b"\"te\\\"st\"",
        b"\"te\\st\"",
        b"\"#te\\\"st\"",
        b"\xff ",
        b"\xff",
        b"\"\xff\"",
        b"\"#\xff\"",
        b"//\xff\n",
        b"// a \xff\n",
        b"#\xff ",
        b"\xc3\xa9t\xc3\xa9 ",
        b"\"\xc3\xa9\" ",
        b"\xc3 ",
        b"\x0c",
        b"\x0cx ",
        b" \x0c ",
        b"\x0b ",
        b"  key  value  ",
        b"key{",
        b"key}",
        b"key\"",
        b"\"key\"{",
        b"\"a\"\"b\"",
        b"\t\r\n \"a b\"\t\r\n x",
    ];
    for input in inputs {
        agree(input);
    }
}

#[test]
fn every_short_input_agrees_with_the_combinators() {
    let alphabet: &[u8] = b" \n{}\"#/\\ant\xc3\xa9\xff";
    let mut input: Vec<u8> = Vec::new();
    agree(&input);
    for length in 1..=4usize {
        let mut digits = vec![0usize; length];
        loop {
            input.clear();
            for &d in &digits {
                input.push(alphabet[d]);
            }
            agree(&input);
            let mut place = 0;
            while place < length {
                digits[place] += 1;
                if digits[place] < alphabet.len() {
                    break;
                }
                digits[place] = 0;
                place += 1;
            }
            if place == length {
                break;
            }
        }
    }
}

#[test]
fn long_inputs_agree_with_the_combinators() {
    let alphabet: &[u8] = b"  \n\t\r{}\"\"#/\\\\antrk\xc3\xa9\xff";
    let mut state: u64 = 0x2545_f491_4f6c_dd1d;
    for _ in 0..20_000 {
        let mut input: Vec<u8> = Vec::new();
        state ^= state << 13;
        state ^= state >> 7;
        state ^= state << 17;
        let length = 5 + (state % 20) as usize;
        for _ in 0..length {
            state ^= state << 13;
            state ^= state >> 7;
            state ^= state << 17;
            input.push(alphabet[(state % alphabet.len() as u64) as usize]);
        }
        agree(&input);
    }
}
