use steamy_vdf::{parse, Entry, Error, Table};

const WALL: &[u8] = b"\"VertexlitGeneric\"\n\
{\n\
\t\"$baseTexture\" \"models\\props_forest/cliff_wall_06\"\n\
\t\"$surfaceprop\" \"rock\"\n\
\t// detail\n\
\t\"$detail\" \"detail/rock_detail_01\"\n\
\t\"$seamless_detail\" \"1\"\n\
}\n";

fn leaf(text: &str) -> Entry {
    Entry::Leaf(text.to_string())
}

fn text_at<'a>(root: &'a Entry, path: &str) -> Option<&'a str> {
    root.lookup(path).and_then(|entry| entry.as_str())
}

#[test]
fn loader() {
    let wall = parse(WALL).unwrap();

    assert_eq!(None, wall.lookup("VertexlitGeneric.$detailtexturetransform"));
    assert_eq!(
        "models\\props_forest/cliff_wall_06",
        wall.lookup("VertexlitGeneric.$baseTexture").unwrap().as_str().unwrap()
    );
    assert_eq!("1", wall.lookup("VertexlitGeneric.$seamless_detail").unwrap().as_str().unwrap());
}

#[test]
fn pairs_become_leaves_of_the_root() {
    let root = parse(b"one 1\n\"two\" \"2\"\nthree \"3 3\"\n").unwrap();
    let table = root.as_table().unwrap();
    assert_eq!(table.len(), 3);
    assert!(!table.is_indexed());
    assert_eq!(text_at(&root, "one"), Some("1"));
    assert_eq!(text_at(&root, "two"), Some("2"));
    assert_eq!(text_at(&root, "three"), Some("3 3"));
    assert!(root.lookup("four").is_none());
}

#[test]
fn repeated_key_becomes_indexed() {
    let root = parse(b"k a\nk b\nk c\nother x\n").unwrap();
    let values = root.lookup("k").unwrap().as_table().unwrap();
    assert!(values.is_indexed());
    assert_eq!(values.len(), 3);
    assert_eq!(values.get("0").unwrap().as_str(), Some("a"));
    assert_eq!(values.get("1").unwrap().as_str(), Some("b"));
    assert_eq!(values.get("2").unwrap().as_str(), Some("c"));
    assert!(values.get("3").is_none());
    assert_eq!(text_at(&root, "k.0"), Some("a"));
    assert_eq!(text_at(&root, "k.1"), Some("b"));
    assert_eq!(text_at(&root, "k.2"), Some("c"));
    assert_eq!(text_at(&root, "other"), Some("x"));
    assert_eq!(root.as_table().unwrap().len(), 2);
}

#[test]
fn insert_merges_repeated_keys() {
    let mut table = Table::new();
    table.insert("k".to_string(), leaf("a"));
    assert_eq!(table.get("k").unwrap().as_str(), Some("a"));
    table.insert("k".to_string(), leaf("b"));
    table.insert("k".to_string(), leaf("c"));
    assert_eq!(table.len(), 1);
    let values = table.get("k").unwrap().as_table().unwrap();
    assert!(values.is_indexed());
    assert_eq!(values.len(), 3);
    assert_eq!(values.get("0").unwrap().as_str(), Some("a"));
    assert_eq!(values.get("1").unwrap().as_str(), Some("b"));
    assert_eq!(values.get("2").unwrap().as_str(), Some("c"));
}

#[test]
fn index_keys_are_plain_numerals() {
    let mut table = Table::new();
    for i in 0..12 {
        table.insert("k".to_string(), leaf(&format!("v{}", i)));
    }
    let root = Entry::Table(table);
    assert_eq!(text_at(&root, "k.0"), Some("v0"));
    assert_eq!(text_at(&root, "k.9"), Some("v9"));
    assert_eq!(text_at(&root, "k.10"), Some("v10"));
    assert_eq!(text_at(&root, "k.11"), Some("v11"));
    assert!(root.lookup("k.12").is_none());
    assert!(root.lookup("k.01").is_none());
    assert!(root.lookup("k.+1").is_none());
    assert!(root.lookup("k.").is_none());
}

#[test]
fn repeated_group_becomes_indexed() {
    let root = parse(b"g { a 1 }\ng { a 2 }\ng 3\n").unwrap();
    assert!(root.lookup("g").unwrap().as_table().unwrap().is_indexed());
    assert_eq!(text_at(&root, "g.0.a"), Some("1"));
    assert_eq!(text_at(&root, "g.1.a"), Some("2"));
    assert_eq!(text_at(&root, "g.2"), Some("3"));
}

#[test]
fn group_with_numeral_keys_is_not_indexed() {
    let root = parse(b"g { 0 a 1 b }\ng c\n").unwrap();
    assert!(root.lookup("g").unwrap().as_table().unwrap().is_indexed());
    assert!(!root.lookup("g.0").unwrap().as_table().unwrap().is_indexed());
    assert_eq!(text_at(&root, "g.0.0"), Some("a"));
    assert_eq!(text_at(&root, "g.0.1"), Some("b"));
    assert_eq!(text_at(&root, "g.1"), Some("c"));
}

#[test]
fn nesting() {
    let root = parse(b"\"outer\" { \"inner\" \"v\" }\n").unwrap();
    let outer = root.lookup("outer").unwrap();
    assert!(outer.as_str().is_none());
    assert!(!outer.as_table().unwrap().is_indexed());
    assert_eq!(outer.as_table().unwrap().len(), 1);
    assert_eq!(outer.get("inner").unwrap().as_str(), Some("v"));
    assert_eq!(text_at(&root, "outer.inner"), Some("v"));
}

#[test]
fn unbalanced_closer_is_a_parse_failure() {
    assert!(matches!(parse(b"}\n"), Err(Error::Parse)));
    assert!(matches!(parse(b"a b\n}\nc d\n"), Err(Error::Parse)));
    assert!(matches!(parse(b"g { a b }\n}\n"), Err(Error::Parse)));
}

#[test]
fn unterminated_quote_is_not_a_clean_end() {
    assert!(matches!(parse(b"\"abc"), Err(Error::Eof)));
    assert!(matches!(parse(b"key \"abc"), Err(Error::Eof)));
    assert!(parse(b"").unwrap().as_table().unwrap().len() == 0);
}

#[test]
fn open_groups_are_closed_at_the_end() {
    let root = parse(b"a { b { c d\n").unwrap();
    assert_eq!(text_at(&root, "a.b.c"), Some("d"));
    let root = parse(b"a { b c\nkey \n").unwrap();
    assert_eq!(text_at(&root, "a.b"), Some("c"));
    assert!(root.lookup("a.key").is_none());
}

#[test]
fn grammar_failures() {
    assert!(matches!(parse(b"{ a b }\n"), Err(Error::Parse)));
    assert!(matches!(parse(b"g { key }\n"), Err(Error::Parse)));
    assert!(matches!(parse(b"key \"\xff\"\n"), Err(Error::Parse)));
}

#[test]
fn lookup_absence_differs_from_coercion_failure() {
    let root = parse(b"a { x 1 }\nflag maybe\nyes true\nno false\n").unwrap();
    assert!(root.lookup("a.b.c").is_none());
    assert!(root.lookup("a.b").is_none());
    assert!(root.lookup("a.x.y").is_none());
    let flag = root.lookup("flag").unwrap();
    assert_eq!(flag.to_bool(), None);
    assert_eq!(flag.as_str(), Some("maybe"));
    assert_eq!(root.lookup("yes").unwrap().to_bool(), Some(true));
    assert_eq!(root.lookup("no").unwrap().to_bool(), Some(false));
    assert_eq!(root.lookup("a").unwrap().to_bool(), None);
}

#[test]
fn lookup_takes_each_segment_as_a_key() {
    let root = parse(b"\"\" { \"\" deep }\n\"a b\" { \"c\" d }\n").unwrap();
    assert_eq!(text_at(&root, "."), Some("deep"));
    assert_eq!(text_at(&root, "a b.c"), Some("d"));
    assert!(root.lookup("").unwrap().as_table().is_some());
    assert!(root.lookup("a b.").is_none());
    assert!(root.lookup("a b..c").is_none());
}

#[test]
fn lookup_with_text_beyond_ascii() {
    let root = parse("\"gr\u{fc}n\" { \"\u{4e16}\u{754c}\" \"\u{e9}\" }\n".as_bytes()).unwrap();
    assert_eq!(text_at(&root, "gr\u{fc}n.\u{4e16}\u{754c}"), Some("\u{e9}"));
    assert!(root.lookup("gr\u{fc}n.\u{4e16}").is_none());
}

#[test]
fn numbers_are_read_from_leaves() {
    let root = parse(
        b"n 42\nneg -7\nplus +5\nbig 18446744073709551615\nover 18446744073709551616\n\
        bad 4x\nempty \"\"\nspace \" 1\"\n",
    )
    .unwrap();
    assert_eq!(root.lookup("n").unwrap().to_u64(), Some(42));
    assert_eq!(root.lookup("n").unwrap().to_i64(), Some(42));
    assert_eq!(root.lookup("neg").unwrap().to_i64(), Some(-7));
    assert_eq!(root.lookup("neg").unwrap().to_u64(), None);
    assert_eq!(root.lookup("plus").unwrap().to_u64(), Some(5));
    assert_eq!(root.lookup("plus").unwrap().to_i64(), Some(5));
    assert_eq!(root.lookup("big").unwrap().to_u64(), Some(u64::MAX));
    assert_eq!(root.lookup("big").unwrap().to_i64(), None);
    assert_eq!(root.lookup("over").unwrap().to_u64(), None);
    assert_eq!(root.lookup("bad").unwrap().to_u64(), None);
    assert_eq!(root.lookup("empty").unwrap().to_u64(), None);
    assert_eq!(root.lookup("space").unwrap().to_u64(), None);
}

#[test]
fn error_messages() {
    assert_eq!(Error::Parse.message(), "Parsing error.");
    assert_eq!(Error::Eof.message(), "EOF reached.");
    let io = std::io::Error::new(std::io::ErrorKind::NotFound, "gone");
    let expected = io.to_string();
    assert_eq!(Error::from(io).message(), expected);
}

#[test]
fn escaped_pairs_come_back_from_the_tree() {
    let root = parse(b"\"a\\\"b\" \"x\\ny\"\n\"c\\\\d\" \"\\t\"\n").unwrap();
    let table = root.as_table().unwrap();
    assert_eq!(table.len(), 2);
    assert_eq!(table.get("a\"b").unwrap().as_str(), Some("x\ny"));
    assert_eq!(table.get("c\\d").unwrap().as_str(), Some("\t"));
}

#[test]
fn order_of_pairs_does_not_matter() {
    let one = parse(b"a 1\nb 2\nc 3\n").unwrap();
    let other = parse(b"c 3\na 1\nb 2\n").unwrap();
    for key in ["a", "b", "c", "d"] {
        assert_eq!(
            one.lookup(key).and_then(|entry| entry.as_str()),
            other.lookup(key).and_then(|entry| entry.as_str())
        );
    }
    assert_eq!(one.as_table().unwrap().len(), other.as_table().unwrap().len());
}

#[test]
fn equal_documents_have_equal_trees() {
    assert_eq!(parse(b"a 1\ng { b 2 }\n").unwrap(), parse(b"\"a\" \"1\" g{b \"2\"}\n").unwrap());
    assert_ne!(parse(b"a 1\n").unwrap(), parse(b"a 2\n").unwrap());
    assert_ne!(parse(b"a 1\na 2\n").unwrap(), parse(b"a { 0 1 1 2 }\n").unwrap());
}
