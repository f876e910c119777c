use parser::node::{Node, NumberNodeValue, Position, Span};
use parser::parser::Parser;
use parser::tokenizer::{TokenKind, Tokenizer};
use parser::ParseError;

fn parse(src: &str) -> Result<Node, ParseError> {
    Parser::new_without_comments().parse(&src.to_string())
}

fn parse_with_comments(src: &str) -> Result<Node, ParseError> {
    Parser::new_with_comments().parse(&src.to_string())
}

fn items(node: &Node) -> &Vec<Node> {
    match node {
        Node::Array(a) => &a.value,
        _ => panic!("not an array: {:?}", node),
    }
}

fn members(node: &Node) -> &Vec<(String, Node)> {
    match node {
        Node::Object(o) => &o.value,
        _ => panic!("not an object: {:?}", node),
    }
}

fn int_value(node: &Node) -> i64 {
    match node {
        Node::Number(n) => match n.value {
            NumberNodeValue::Int(i) => i,
            _ => panic!("not an integer: {:?}", node),
        },
        _ => panic!("not a number: {:?}", node),
    }
}

fn span_of(node: &Node) -> Span {
    match node {
        Node::Null(n) => n.span,
        Node::Boolean(n) => n.span,
        Node::Number(n) => n.span,
        Node::String(n) => n.span,
        Node::Array(n) => n.span,
        Node::Object(n) => n.span,
    }
}

fn raw_of(node: &Node) -> &String {
    match node {
        Node::Null(n) => &n.raw,
        Node::Boolean(n) => &n.raw,
        Node::Number(n) => &n.raw,
        Node::String(n) => &n.raw,
        Node::Array(n) => &n.raw,
        Node::Object(n) => &n.raw,
    }
}

#[test]
fn it_parses_null() {
    // A bare `null` is no document; inside an array it is read as a Null node.
    let ast = parse("[null]").expect("could not parse null");
    assert_eq!(items(&ast).len(), 1);
    match &items(&ast)[0] {
        Node::Null(n) => {
            assert_eq!(n.raw, "null".to_string());
            assert_eq!(n.span, Span::new(Position::new(1, 1, 1), Position::new(5, 1, 5)));
        }
        other => panic!("expected null, got {:?}", other),
    }
}

#[test]
fn null_literal_token_has_exact_text_and_span() {
    let tokens = Tokenizer::new(false).tokenize(&"null".to_string()).unwrap();
    assert_eq!(tokens.len(), 2);
    assert_eq!(*tokens[0].kind(), TokenKind::NullLiteral);
    assert_eq!(tokens[0].raw(), &"null".to_string());
    assert_eq!(tokens[0].span().start(), Position::new(0, 1, 0));
    assert_eq!(tokens[0].span().end(), Position::new(4, 1, 4));
    assert_eq!(*tokens[1].kind(), TokenKind::Eoi);
    assert_eq!(tokens[1].raw(), &String::new());
    assert_eq!(*tokens[1].span(), Span::collapsed(Position::new(4, 1, 4)));
}

#[test]
fn comments_and_blanks_are_transparent_when_allowed() {
    let a = parse_with_comments("{\"k\": 1 /* c */ }").unwrap();
    let b = parse_with_comments("{\"k\":1}").unwrap();
    let (ma, mb) = (members(&a), members(&b));
    assert_eq!(ma.len(), 1);
    assert_eq!(mb.len(), 1);
    assert_eq!(ma[0].0, "k".to_string());
    assert_eq!(mb[0].0, "k".to_string());
    assert_eq!(int_value(&ma[0].1), 1);
    assert_eq!(int_value(&mb[0].1), 1);
    assert_eq!(raw_of(&ma[0].1), raw_of(&mb[0].1));
    let c = parse_with_comments("// head\n[1, // one\n 2]").unwrap();
    assert_eq!(items(&c).len(), 2);
    assert_eq!(int_value(&items(&c)[1]), 2);
}

#[test]
fn comments_are_refused_when_disallowed() {
    for src in ["[1, // one\n 2]", "{\"a\": /* c */ 1}", "/* c */ []", "[] // end", "{\"a\": [1, /* x */]}"] {
        assert_eq!(parse(src), Err(ParseError::CommentsNotSupported), "{}", src);
    }
    // comment markers inside a string are text
    let n = parse("[\"a // b /* c\"]").unwrap();
    match &items(&n)[0] {
        Node::String(s) => assert_eq!(s.value, "a // b /* c".to_string()),
        other => panic!("expected a string, got {:?}", other),
    }
}

fn assert_spanned(src: &str, node: &Node) {
    let span = span_of(node);
    assert_eq!(raw_of(node).as_str(), &src[span.start().cursor()..span.end().cursor()]);
    match node {
        Node::Array(a) => a.value.iter().for_each(|n| assert_spanned(src, n)),
        Node::Object(o) => o.value.iter().for_each(|(_, n)| assert_spanned(src, n)),
        _ => {}
    }
}

#[test]
fn raw_text_is_the_spanned_source() {
    let src = "{ \"list\": [1, 2.5, 'x', true, null, {}],\n  \"é\": \"ü\" }";
    let root = parse(src).unwrap();
    assert_spanned(src, &root);
    assert_eq!(raw_of(&root).as_str(), src);
    let m = members(&root);
    assert_eq!(m[1].0, "é".to_string());
    assert_eq!(span_of(&m[1].1).start(), Position::new(49, 2, 8));
}

#[test]
fn trailing_comma_is_tolerated() {
    for src in ["[1,2,3,]", "[1,2,3]"] {
        let n = parse(src).unwrap();
        let values: Vec<i64> = items(&n).iter().map(int_value).collect();
        assert_eq!(values, vec![1, 2, 3]);
    }
    let o = parse("{\"a\": 1,}").unwrap();
    assert_eq!(members(&o).len(), 1);
}

#[test]
fn duplicate_key_keeps_the_last_value() {
    let n = parse("{\"a\":1,\"a\":2}").unwrap();
    let m = members(&n);
    assert_eq!(m.len(), 1);
    assert_eq!(m[0].0, "a".to_string());
    assert_eq!(int_value(&m[0].1), 2);
    let n = parse("{\"a\":1,'b':2,\"a\":3}").unwrap();
    let m = members(&n);
    assert_eq!(m.len(), 2);
    assert_eq!((m[0].0.as_str(), int_value(&m[0].1)), ("a", 3));
    assert_eq!((m[1].0.as_str(), int_value(&m[1].1)), ("b", 2));
}

#[test]
fn bare_scalar_root_is_refused() {
    for src in ["null", "1", "\"s\"", "true", "", "  "] {
        assert_eq!(parse(src), Err(ParseError::ExpectedArrayOrObjectRoot), "{:?}", src);
    }
}

#[test]
fn lines_are_counted_across_the_source() {
    let n = parse("{\n  \"k\"\n  : 1\n}").unwrap();
    let value = &members(&n)[0].1;
    assert_eq!(span_of(value).start(), Position::new(12, 3, 4));
    assert_eq!(span_of(value).end(), Position::new(13, 3, 5));
    let c = parse_with_comments("[/* a\nbc */ 7]").unwrap();
    assert_eq!(span_of(&items(&c)[0]).start(), Position::new(12, 2, 6));
    let crlf = parse("[\n\r1]").unwrap();
    assert_eq!(span_of(&items(&crlf)[0]).start(), Position::new(3, 2, 0));
}

#[test]
fn missing_colon_is_an_unexpected_token() {
    assert_eq!(
        parse("{\"k\" 1}"),
        Err(ParseError::UnexpectedToken { found: TokenKind::NumberLiteral, expected: TokenKind::Colon })
    );
    assert_eq!(
        parse("[1"),
        Err(ParseError::UnexpectedToken { found: TokenKind::Eoi, expected: TokenKind::Comma })
    );
    assert_eq!(
        parse("[1,"),
        Err(ParseError::UnexpectedToken { found: TokenKind::Eoi, expected: TokenKind::ClosedSquareBracket })
    );
    assert_eq!(
        parse("[1 2]"),
        Err(ParseError::UnexpectedToken { found: TokenKind::NumberLiteral, expected: TokenKind::Comma })
    );
    assert_eq!(
        parse("{1: 2}"),
        Err(ParseError::UnexpectedToken { found: TokenKind::NumberLiteral, expected: TokenKind::StringLiteral })
    );
}

#[test]
fn unrecognized_input_reports_the_rest() {
    assert_eq!(parse("[1, $x]"), Err(ParseError::UnrecognizedToken { rest: "$x]".to_string() }));
    assert_eq!(parse("[nullx]"), Err(ParseError::UnrecognizedToken { rest: "nullx]".to_string() }));
    assert_eq!(parse("[\"open]"), Err(ParseError::UnrecognizedToken { rest: "\"open]".to_string() }));
    assert_eq!(parse("[/* open]"), Err(ParseError::UnrecognizedToken { rest: "/* open]".to_string() }));
    assert_eq!(parse("[1]\r\n"), Err(ParseError::UnrecognizedToken { rest: "\r\n".to_string() }));
}

#[test]
fn separator_in_value_position_is_an_internal_error() {
    assert_eq!(parse("[,]"), Err(ParseError::InternalInconsistency));
    assert_eq!(parse("{\"a\": }"), Err(ParseError::InternalInconsistency));
}

#[test]
fn numbers_decode_by_form() {
    let n = parse("[0, 42, 9223372036854775807, 1.50]").unwrap();
    let v = items(&n);
    assert_eq!(int_value(&v[0]), 0);
    assert_eq!(int_value(&v[1]), 42);
    assert_eq!(int_value(&v[2]), i64::MAX);
    match &v[3] {
        Node::Number(num) => {
            assert_eq!(num.value, NumberNodeValue::Float("1.50".to_string()));
            match &num.value {
                NumberNodeValue::Float(text) => assert_eq!(text.parse::<f64>().unwrap(), 1.5),
                _ => unreachable!(),
            }
        }
        other => panic!("expected a number, got {:?}", other),
    }
    assert_eq!(
        parse("[9223372036854775808]"),
        Err(ParseError::NumberOverflow { raw: "9223372036854775808".to_string() })
    );
    // a point without digits after it leaves an integer and a stray point
    assert_eq!(parse("[1.]"), Err(ParseError::UnrecognizedToken { rest: ".]".to_string() }));
}

#[test]
fn strings_booleans_and_empty_containers() {
    let n = parse("['a b', \"\", true, false, [], {}]").unwrap();
    let v = items(&n);
    match (&v[0], &v[1]) {
        (Node::String(a), Node::String(b)) => {
            assert_eq!((a.value.as_str(), a.raw.as_str()), ("a b", "'a b'"));
            assert_eq!((b.value.as_str(), b.raw.as_str()), ("", "\"\""));
        }
        _ => panic!("expected strings"),
    }
    match (&v[2], &v[3]) {
        (Node::Boolean(t), Node::Boolean(f)) => assert!(t.value && !f.value),
        _ => panic!("expected booleans"),
    }
    assert!(v[4].is_array() && items(&v[4]).is_empty());
    assert!(v[5].is_object() && members(&v[5]).is_empty());
    assert!(v[2].is_boolean() && v[0].is_string() && !v[0].is_null());
    assert!(n.is_array() && !n.is_object() && !n.is_number());
}

#[test]
fn parser_is_reusable() {
    let mut p = Parser::new_without_comments();
    assert!(p.parse(&"[1]".to_string()).is_ok());
    assert_eq!(p.parse(&"x".to_string()), Err(ParseError::UnrecognizedToken { rest: "x".to_string() }));
    let n = p.parse(&"[2]".to_string()).unwrap();
    assert_eq!(int_value(&items(&n)[0]), 2);
}

#[test]
fn keywords_end_at_a_unicode_word_boundary() {
    // a no-break space, an em dash or an emoji is no word character: the keyword ends
    assert_eq!(parse("[null\u{a0}]"), Err(ParseError::UnrecognizedToken { rest: "\u{a0}]".to_string() }));
    assert_eq!(parse("[true\u{2014}]"), Err(ParseError::UnrecognizedToken { rest: "\u{2014}]".to_string() }));
    assert_eq!(parse("[false\u{1f600}]"), Err(ParseError::UnrecognizedToken { rest: "\u{1f600}]".to_string() }));
    // a letter, a combining mark, a digit or an underscore continues the word
    assert_eq!(parse("[null\u{e9}]"), Err(ParseError::UnrecognizedToken { rest: "null\u{e9}]".to_string() }));
    assert_eq!(parse("[true\u{301}]"), Err(ParseError::UnrecognizedToken { rest: "true\u{301}]".to_string() }));
    assert_eq!(parse("[null_]"), Err(ParseError::UnrecognizedToken { rest: "null_]".to_string() }));
    assert_eq!(parse("[false1]"), Err(ParseError::UnrecognizedToken { rest: "false1]".to_string() }));
    let n = parse("[null,true]").unwrap();
    assert!(items(&n)[0].is_null() && items(&n)[1].is_boolean());
}

#[test]
fn text_is_cut_at_character_boundaries() {
    assert_eq!(parser::text::text_between("h\u{e9}llo", 0, 3), "h\u{e9}".to_string());
    assert_eq!(parser::text::text_between("h\u{e9}llo", 3, 6), "llo".to_string());
}
