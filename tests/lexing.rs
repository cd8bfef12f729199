use servo_css::lexer::{lex_css_from_bytes, Token};
use servo_css::lexer_util::{CharOrEof, InputState, LexError, U8Methods};
use servo_css::values::AttrMatch;

fn lex(text: &str) -> Result<Vec<Token>, LexError> {
    lex_css_from_bytes(vec![text.as_bytes().to_vec()])
}

fn describe(ts: &[Token]) -> Vec<String> {
    ts.iter().map(|t| format!("{:?}", t)).collect()
}

#[test]
fn class_selector_tokens() {
    let ts = lex(".foo { color: #ff0000 }").unwrap();
    assert_eq!(ts.len(), 6);
    assert!(matches!(&ts[0], Token::Element(n) if n == "*"));
    assert!(matches!(&ts[1], Token::Attr(AttrMatch::Includes(a, v)) if a == "class" && v == "foo"));
    assert!(matches!(&ts[2], Token::StartDescription));
    assert!(matches!(&ts[3], Token::Description(n, v) if n == "color" && v == "#ff0000"));
    assert!(matches!(&ts[4], Token::EndDescription));
    assert!(matches!(&ts[5], Token::Eof));
}

#[test]
fn attribute_and_combinator_tokens() {
    let ts = lex("div[lang|=en] > p[x] , a[y~=z] + b[k=v] { top: 1px; left: 2px; }").unwrap();
    let d = describe(&ts);
    assert_eq!(
        d,
        vec![
            "Element(\"div\")",
            "Attr(StartsWith(\"lang\", \"en\"))",
            "Child",
            "Element(\"p\")",
            "Attr(Exists(\"x\"))",
            "Comma",
            "Element(\"a\")",
            "Attr(Includes(\"y\", \"z\"))",
            "Sibling",
            "Element(\"b\")",
            "Attr(Exact(\"k\", \"v\"))",
            "StartDescription",
            "Description(\"top\", \"1px\")",
            "Description(\"left\", \"2px\")",
            "EndDescription",
            "Eof",
        ]
    );
}

#[test]
fn descendant_and_id_tokens() {
    let ts = lex("ul li#main { color: red }").unwrap();
    let d = describe(&ts);
    assert_eq!(d[0], "Element(\"ul\")");
    assert_eq!(d[1], "Descendant");
    assert_eq!(d[2], "Element(\"li\")");
    assert_eq!(d[3], "Attr(Includes(\"id\", \"main\"))");
}

#[test]
fn tokens_end_with_one_eof_and_blocks_balance() {
    let ts = lex("a { color: red } b c { width: 10px; height: 50% }").unwrap();
    let eofs = ts.iter().filter(|t| matches!(t, Token::Eof)).count();
    assert_eq!(eofs, 1);
    assert!(matches!(ts.last(), Some(Token::Eof)));
    let opens = ts.iter().filter(|t| matches!(t, Token::StartDescription)).count();
    let closes = ts.iter().filter(|t| matches!(t, Token::EndDescription)).count();
    assert_eq!(opens, 2);
    assert_eq!(opens, closes);
}

#[test]
fn chunking_does_not_change_tokens() {
    let text = "div.a > span[x=y] { color: blue; width: 50% }";
    let whole = describe(&lex(text).unwrap());
    let bytes = text.as_bytes();
    for cut in 0..bytes.len() {
        let parts = vec![bytes[..cut].to_vec(), Vec::new(), bytes[cut..].to_vec()];
        let split = describe(&lex_css_from_bytes(parts).unwrap());
        assert_eq!(whole, split);
    }
    let singles: Vec<Vec<u8>> = bytes.iter().map(|b| vec![*b]).collect();
    assert_eq!(whole, describe(&lex_css_from_bytes(singles).unwrap()));
}

#[test]
fn eof_inside_block_is_an_error() {
    assert!(lex("div { color: red").is_err());
    assert!(lex("div {").is_err());
    assert!(lex("div { color").is_err());
}

#[test]
fn malformed_inputs_are_errors() {
    assert_eq!(lex("div[x!y] { }").unwrap_err(), LexError::UnexpectedByte(b'!'));
    assert_eq!(lex("{ color: red }").unwrap_err(), LexError::ExpectedIdent);
    assert_eq!(lex("div { : red }").unwrap_err(), LexError::EmptyDeclaration);
    assert_eq!(lex("div { color: ; }").unwrap_err(), LexError::EmptyDeclaration);
    assert_eq!(lex("div { color: red").unwrap_err(), LexError::UnexpectedEof);
}

#[test]
fn invalid_utf8_in_declaration_is_an_error() {
    let r = lex_css_from_bytes(vec![b"a { color: \xff\xfe }".to_vec()]);
    assert_eq!(r.unwrap_err(), LexError::InvalidUtf8);
}

#[test]
fn empty_input_is_just_eof() {
    let ts = lex("").unwrap();
    assert_eq!(ts.len(), 1);
    assert!(matches!(ts[0], Token::Eof));
}

#[test]
fn trailing_semicolon_before_close_is_optional() {
    let a = describe(&lex("p { color: red; }").unwrap());
    let b = describe(&lex("p { color: red }").unwrap());
    assert_eq!(a, b);
}

#[test]
fn input_state_get_unget_and_eof() {
    let mut st = InputState::new(vec![b"ab".to_vec(), Vec::new(), b"c".to_vec()]);
    assert_eq!(st.get(), CharOrEof::CoeChar(b'a'));
    st.unget(b'a');
    assert_eq!(st.get(), CharOrEof::CoeChar(b'a'));
    assert_eq!(st.get(), CharOrEof::CoeChar(b'b'));
    assert_eq!(st.get(), CharOrEof::CoeChar(b'c'));
    assert_eq!(st.get(), CharOrEof::CoeEof);
    assert_eq!(st.get(), CharOrEof::CoeEof);
}

#[test]
fn input_state_ident_and_whitespace() {
    let mut st = InputState::new(vec![b"  \tabc1".to_vec()]);
    st.eat_whitespace();
    assert_eq!(st.parse_ident(), Ok("abc".to_string()));
    assert_eq!(st.get(), CharOrEof::CoeChar(b'1'));
    let mut st2 = InputState::new(vec![b"abc".to_vec()]);
    assert_eq!(st2.parse_ident(), Ok("abc".to_string()));
    assert_eq!(st2.get(), CharOrEof::CoeEof);
    let mut st5 = InputState::new(vec![b"9".to_vec()]);
    assert_eq!(st5.parse_ident(), Err(LexError::ExpectedIdent));
    let mut st6 = InputState::new(vec![Vec::new()]);
    assert_eq!(st6.parse_ident(), Err(LexError::ExpectedIdent));
    let mut st3 = InputState::new(vec![b"x]".to_vec()]);
    assert_eq!(st3.expect(b'y'), Err(LexError::UnexpectedByte(b'x')));
    assert_eq!(st3.expect(b']'), Ok(()));
    assert_eq!(st3.expect(b']'), Err(LexError::UnexpectedEof));
    let mut st4 = InputState::new(vec![b"div ".to_vec()]);
    assert_eq!(st4.expect_ident(&"div".to_string()), Ok(()));
}

#[test]
fn char_or_eof_equality_and_byte_classes() {
    assert!(CharOrEof::CoeChar(1) == CharOrEof::CoeChar(1));
    assert!(CharOrEof::CoeChar(1) != CharOrEof::CoeChar(2));
    assert!(CharOrEof::CoeEof != CharOrEof::CoeChar(2));
    assert!(CharOrEof::CoeEof == CharOrEof::CoeEof);
    assert!(b' '.is_whitespace() && b'\n'.is_whitespace() && b'\t'.is_whitespace());
    assert!(!b'a'.is_whitespace());
    assert!(b'a'.is_alpha() && b'Z'.is_alpha());
    assert!(!b'1'.is_alpha() && !b'-'.is_alpha());
}

#[test]
fn selector_may_end_the_input() {
    let d = describe(&lex("div.a").unwrap());
    assert_eq!(d, vec!["Element(\"div\")", "Attr(Includes(\"class\", \"a\"))", "Eof"]);
    assert!(lex("a[x").is_err());
    assert!(lex("a[x=y").is_err());
}
