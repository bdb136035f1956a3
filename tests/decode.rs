use rison::{from_reader, from_slice, from_str, ByteStream, Category, Code, Deserializer, Error, Event, Reference, Token};

fn s(text: &str) -> Token {
    Token::Str(text.to_string())
}

fn single(input: &str) -> Token {
    let mut tokens = from_str(input).unwrap();
    assert_eq!(tokens.len(), 1);
    tokens.remove(0)
}

fn number_text(input: &str) -> String {
    match single(input) {
        Token::Number(t) => String::from_utf8(t).unwrap(),
        other => panic!("not a number: {:?}", other),
    }
}

struct Bytes {
    data: Vec<u8>,
    at: usize,
}

impl Bytes {
    fn new(data: &[u8]) -> Self {
        Bytes { data: data.to_vec(), at: 0 }
    }
}

impl ByteStream for Bytes {
    fn next_byte(&mut self) -> Result<Option<u8>, std::io::Error> {
        if self.at < self.data.len() {
            self.at += 1;
            Ok(Some(self.data[self.at - 1]))
        } else {
            Ok(None)
        }
    }
}

struct Failing {
    before: Vec<u8>,
    at: usize,
}

impl ByteStream for Failing {
    fn next_byte(&mut self) -> Result<Option<u8>, std::io::Error> {
        if self.at < self.before.len() {
            self.at += 1;
            Ok(Some(self.before[self.at - 1]))
        } else {
            Err(std::io::Error::new(std::io::ErrorKind::Other, "broken"))
        }
    }
}

fn err_of(input: &[u8]) -> Error {
    match from_slice(input) {
        Ok(t) => panic!("decoded {:?}", t),
        Err(e) => e,
    }
}

#[test]
fn deserialize_true() {
    assert_eq!(single("!t"), Token::Bool(true));
}

#[test]
fn deserialize_false() {
    assert_eq!(single("!f"), Token::Bool(false));
}

#[test]
fn deserialize_integer() {
    let v: u32 = number_text("12").parse().unwrap();
    assert_eq!(v, 12);
}

#[test]
fn fail_deserialize_nonintegral_as_integer() {
    let v = number_text("12.4").parse::<u32>();
    assert!(matches!(v, Err(_)));
}

#[test]
fn deserialize_integral_float() {
    let v: f64 = number_text("12").parse().unwrap();
    assert_eq!(v, 12.0);
}

#[test]
fn deserialize_float() {
    let v: f64 = number_text("12.4").parse().unwrap();
    assert_eq!(v, 12.4);
}

#[test]
fn deserialize_float_exp() {
    let v: f64 = number_text("12.4e4").parse().unwrap();
    assert_eq!(v, 12.4e4);
}

#[test]
fn deserialize_float_neg_exp() {
    let v: f64 = number_text("12.4e-4").parse().unwrap();
    assert_eq!(v, 12.4e-4);
}

#[test]
fn fail_deserialize_bool_trailing() {
    let v = from_str("!ff");
    assert!(matches!(v, Err(_)));
    let e = v.unwrap_err();
    assert!(matches!(e.code(), Code::TrailingChars));
    assert_eq!(e.position(), Some(2));
}

#[test]
fn deserialize_quoted_empty_string() {
    assert_eq!(single("''"), s(""));
}

#[test]
fn deserialize_quoted_string() {
    assert_eq!(single("'hello, rison'"), s("hello, rison"));
}

#[test]
fn deserialize_quoted_string_with_escapes() {
    assert_eq!(single("'hello, !'rison!'!!'"), s("hello, 'rison'!"));
}

#[test]
fn deserialize_ident_string() {
    assert_eq!(single("hellorison"), s("hellorison"));
}

#[test]
fn deserialize_none() {
    let mut de = Deserializer::from_str("!n");
    assert!(matches!(de.parse_option(), Ok(None)));
    assert!(de.end().is_ok());
}

#[test]
fn deserialize_some_ident_string() {
    let mut de = Deserializer::from_str("hellorison");
    match de.parse_option() {
        Ok(Some(Event::Str(r))) => assert_eq!(r.as_str(), "hellorison"),
        _ => panic!("expected a present string"),
    }
    assert!(de.end().is_ok());
}

#[test]
fn deserialize_empty_struct() {
    assert_eq!(from_str("()").unwrap(), vec![Token::MapStart, Token::End]);
}

#[test]
fn deserialize_struct() {
    let v = from_str("(a:hello,b:world)").unwrap();
    assert_eq!(v, vec![Token::MapStart, s("a"), s("hello"), s("b"), s("world"), Token::End]);
}

#[test]
fn deserialize_struct_with_optional_present() {
    let v = from_str("(a:hello,b:world)").unwrap();
    assert_eq!(v, vec![Token::MapStart, s("a"), s("hello"), s("b"), s("world"), Token::End]);
}

#[test]
fn deserialize_struct_with_optional_missing() {
    let v = from_str("(a:hello)").unwrap();
    assert_eq!(v, vec![Token::MapStart, s("a"), s("hello"), Token::End]);
}

#[test]
fn deserialize_map() {
    let v = from_str("(a:hello,b:world)").unwrap();
    let mut pairs = Vec::new();
    let mut i = 1;
    while v[i] != Token::End {
        pairs.push((v[i].clone(), v[i + 1].clone()));
        i += 2;
    }
    assert_eq!(pairs, vec![(s("a"), s("hello")), (s("b"), s("world"))]);
}

#[test]
fn deserialize_tuple() {
    let v = from_str("!(hello,world)").unwrap();
    assert_eq!(v, vec![Token::SeqStart, s("hello"), s("world"), Token::End]);
}

#[test]
fn deserialize_value_string() {
    assert_eq!(from_str("helloworld").unwrap(), vec![s("helloworld")]);
}

fn nested_expected() -> Vec<Token> {
    vec![
        Token::MapStart,
        s("hello"),
        Token::SeqStart,
        s("a"),
        s("b"),
        s("c"),
        Token::End,
        s("world"),
        s("it works"),
        Token::End,
    ]
}

#[test]
fn deserialize_value_map() {
    let v = from_str("(hello:!(a,b,c),world:'it works')").unwrap();
    assert_eq!(v, nested_expected());
}

#[test]
fn deserialize_value_map_from_io() {
    let v = from_reader(Bytes::new(b"(hello:!(a,b,c),world:'it works')")).unwrap();
    assert_eq!(v, nested_expected());
}

#[test]
fn null_marker() {
    assert_eq!(single("!n"), Token::Unit);
}

#[test]
fn empty_sequence_and_nesting() {
    assert_eq!(from_str("!()").unwrap(), vec![Token::SeqStart, Token::End]);
    assert_eq!(
        from_str("!(!(),(),!n,-1)").unwrap(),
        vec![
            Token::SeqStart,
            Token::SeqStart,
            Token::End,
            Token::MapStart,
            Token::End,
            Token::Unit,
            Token::Number(b"-1".to_vec()),
            Token::End,
        ]
    );
}

#[test]
fn numbers_as_written() {
    assert_eq!(number_text("-0.5e-3"), "-0.5e-3");
    assert_eq!(number_text("1."), "1.");
    assert_eq!(single("7"), Token::Number(b"7".to_vec()));
}

#[test]
fn identifier_runs_to_end_and_stops_at_terminators() {
    assert_eq!(single("a-b.c_d"), s("a-b.c_d"));
    let e = from_str("ab*").unwrap_err();
    assert!(matches!(e.code(), Code::TrailingChars));
    assert_eq!(e.position(), Some(2));
}

#[test]
fn error_eof_value() {
    let e = err_of(b"");
    assert!(matches!(e.code(), Code::EofValue));
    assert_eq!(e.position(), Some(0));
    assert_eq!(e.classify(), Category::Eof);
}

#[test]
fn error_eof_list() {
    let e = err_of(b"!(a");
    assert!(matches!(e.code(), Code::EofList));
    assert_eq!(e.position(), Some(3));
    assert_eq!(e.classify(), Category::Eof);
}

#[test]
fn error_eof_object() {
    let e = err_of(b"(a:b");
    assert!(matches!(e.code(), Code::EofObject));
    assert_eq!(e.position(), Some(4));
}

#[test]
fn error_eof_string() {
    let e = err_of(b"'abc");
    assert!(matches!(e.code(), Code::EofString));
    assert_eq!(e.position(), Some(4));
    let e = err_of(b"'ab!");
    assert!(matches!(e.code(), Code::EofString));
    assert_eq!(e.position(), Some(4));
}

#[test]
fn error_eof_marker() {
    let e = err_of(b"!");
    assert!(matches!(e.code(), Code::EofMarker));
    assert_eq!(e.position(), Some(1));
}

#[test]
fn error_expected_colon() {
    let e = err_of(b"(a)");
    assert!(matches!(e.code(), Code::ExpectedColon));
    assert_eq!(e.position(), Some(2));
    assert_eq!(e.classify(), Category::Syntax);
}

#[test]
fn error_expected_list_sep() {
    let e = err_of(b"!(a b)");
    assert!(matches!(e.code(), Code::ExpectedListSepOrEnd));
    assert_eq!(e.position(), Some(3));
    let e = err_of(b"!(,a)");
    assert!(matches!(e.code(), Code::ExpectedListSepOrEnd));
    assert_eq!(e.position(), Some(2));
}

#[test]
fn error_expected_object_sep() {
    let e = err_of(b"(a:b c:d)");
    assert!(matches!(e.code(), Code::ExpectedObjectSepOrEnd));
    assert_eq!(e.position(), Some(4));
}

#[test]
fn error_invalid_marker() {
    let e = err_of(b"!x");
    assert!(matches!(e.code(), Code::InvalidMarker));
    assert_eq!(e.position(), Some(1));
}

#[test]
fn error_invalid_escape() {
    let e = err_of(b"'a!b'");
    assert!(matches!(e.code(), Code::InvalidEscape));
    assert_eq!(e.position(), Some(4));
}

#[test]
fn error_invalid_number() {
    for bad in [&b"1-2"[..], b"-", b"1e", b"1.2.3", b"1e-"] {
        let e = err_of(bad);
        assert!(matches!(e.code(), Code::InvalidNumber));
        assert_eq!(e.position(), Some(bad.len()));
    }
}

#[test]
fn error_invalid_unicode() {
    let e = err_of(&[b'\'', b'a', 0xff, b'\'']);
    assert!(matches!(e.code(), Code::InvalidUnicode));
    assert_eq!(e.position(), Some(2));
    let e = err_of(&[b'x', 0xc3]);
    assert!(matches!(e.code(), Code::InvalidUnicode));
    assert_eq!(e.position(), Some(1));
}

#[test]
fn non_ascii_text_decodes() {
    assert_eq!(single("'h\u{e9}llo'"), s("h\u{e9}llo"));
    assert_eq!(single("\u{e9}t\u{e9}"), s("\u{e9}t\u{e9}"));
}

#[test]
fn error_io_and_data() {
    let e = from_reader(Failing { before: b"(a:".to_vec(), at: 0 }).unwrap_err();
    assert!(matches!(e.code(), Code::Io(_)));
    assert_eq!(e.classify(), Category::Io);
    assert_eq!(e.position(), Some(3));
    let d = Error::custom("unknown field".to_string());
    assert_eq!(d.classify(), Category::Data);
    assert_eq!(d.position(), None);
}

#[test]
fn stream_and_slice_agree() {
    let inputs: [&[u8]; 12] = [
        b"!t",
        b"!ff",
        b"''",
        b"'hello, !'rison!'!!'",
        b"(a:hello,b:world)",
        b"!(hello,world)",
        b"12.4e-4",
        b"(hello:!(a,b,c),world:'it works')",
        b"!(a b)",
        b"'abc",
        b"",
        &[b'\'', 0xff, b'\''],
    ];
    for input in inputs {
        let a = from_slice(input);
        let b = from_reader(Bytes::new(input));
        match (a, b) {
            (Ok(x), Ok(y)) => assert_eq!(x, y),
            (Err(x), Err(y)) => {
                assert_eq!(format!("{:?}", x), format!("{:?}", y));
            }
            (x, y) => panic!("sources disagree: {:?} / {:?}", x, y),
        }
    }
}

#[test]
fn decoding_twice_agrees() {
    let input = "(hello:!(a,b,c),world:'it works',n:-3.5e2)";
    assert_eq!(from_str(input).unwrap(), from_str(input).unwrap());
    assert_eq!(from_str(input).unwrap(), from_slice(input.as_bytes()).unwrap());
}

#[test]
fn borrowed_unless_escaped() {
    let mut de = Deserializer::from_str("'plain'");
    assert!(matches!(de.parse_any(), Ok(Event::Str(Reference::Borrowed("plain")))));
    let mut de = Deserializer::from_str("'it!'s'");
    match de.parse_any() {
        Ok(Event::Str(Reference::Copied(t))) => assert_eq!(t, "it's"),
        _ => panic!("expected a copied string"),
    }
    let mut de = Deserializer::from_slice(b"word");
    assert!(matches!(de.parse_any(), Ok(Event::Str(Reference::Borrowed("word")))));
    let mut de = Deserializer::from_reader(Bytes::new(b"'plain'"));
    assert!(matches!(de.parse_any(), Ok(Event::Str(Reference::Copied(_)))));
}

#[test]
fn accessors_walk_a_container() {
    let mut de = Deserializer::from_str("(a:1,b:!t)");
    assert!(matches!(de.parse_any(), Ok(Event::MapStart)));
    let mut map = rison::MapAccess::new();
    let mut keys = Vec::new();
    while map.has_next_key(&mut de).unwrap() {
        match de.parse_any() {
            Ok(Event::Str(k)) => keys.push(k.as_str().to_string()),
            _ => panic!("expected a key"),
        }
        map.next_value(&mut de).unwrap();
        assert!(de.parse_any().is_ok());
    }
    de.parse_close(true).unwrap();
    de.end().unwrap();
    assert_eq!(keys, vec!["a".to_string(), "b".to_string()]);

    let mut de = Deserializer::from_str("!(x,y,z)");
    assert!(matches!(de.parse_any(), Ok(Event::SeqStart)));
    let mut seq = rison::SeqAccess::new();
    let mut n = 0;
    while seq.has_next(&mut de).unwrap() {
        assert!(de.parse_any().is_ok());
        n += 1;
    }
    de.parse_close(false).unwrap();
    assert_eq!(n, 3);
    assert_eq!(de.position(), 8);
}

#[test]
fn option_with_other_markers_is_present() {
    let mut de = Deserializer::from_str("!t");
    assert!(matches!(de.parse_option(), Ok(Some(Event::Bool(true)))));
}

#[test]
fn byte_steps() {
    let mut de = Deserializer::from_slice(b"ab");
    assert_eq!(de.peek().unwrap(), Some(b'a'));
    assert_eq!(de.peek().unwrap(), Some(b'a'));
    assert_eq!(de.position(), 0);
    de.eat_char();
    assert_eq!(de.position(), 1);
    assert_eq!(de.next_char().unwrap(), Some(b'b'));
    assert_eq!(de.next_char().unwrap(), None);
    assert_eq!(de.position(), 2);
    assert!(de.end().is_ok());

    let mut de = Deserializer::from_reader(Bytes::new(b"x"));
    assert_eq!(de.peek().unwrap(), Some(b'x'));
    assert_eq!(de.position(), 0);
    assert_eq!(de.next_char().unwrap(), Some(b'x'));
    assert_eq!(de.position(), 1);
    assert_eq!(de.peek().unwrap(), None);
}

#[test]
fn failed_steps_consume_nothing() {
    let mut de = Deserializer::from_str("!x");
    assert!(matches!(de.parse_any(), Err(e) if matches!(e.code(), Code::InvalidMarker)));
    assert_eq!(de.position(), 1);
    assert_eq!(de.peek().unwrap(), Some(b'x'));

    let mut de = Deserializer::from_str("(a)");
    assert!(matches!(de.parse_any(), Ok(Event::MapStart)));
    let mut map = rison::MapAccess::new();
    assert!(map.has_next_key(&mut de).unwrap());
    assert!(de.parse_any().is_ok());
    assert!(map.next_value(&mut de).is_err());
    assert_eq!(de.position(), 2);

    let mut de = Deserializer::from_str("!(a b)");
    assert!(matches!(de.parse_any(), Ok(Event::SeqStart)));
    let mut seq = rison::SeqAccess::new();
    assert!(seq.has_next(&mut de).unwrap());
    assert!(de.parse_any().is_ok());
    assert!(seq.has_next(&mut de).is_err());
    assert_eq!(de.position(), 3);

    let mut de = Deserializer::from_str("!t ");
    assert!(de.parse_any().is_ok());
    assert!(de.end().is_err());
    assert_eq!(de.position(), 2);
}
