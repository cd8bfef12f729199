use servo_css::apply::{apply_style, image_sources, resolve_dimension};
use servo_css::declaration::{parse_color, parse_declaration, parse_length};
use servo_css::element::{Attr, ElementData, ElementKind, HTMLImageData};
use servo_css::node::{Document, NodeKind};
use servo_css::rules::{parse_stylesheet, stylesheet_from_bytes, CssError, ParseError};
use servo_css::lexer::{lex_css_from_bytes, Token};
use servo_css::values::{
    AbsoluteSize, Color, DisplayType, FontSize, Length, PositionType, Rule, Selector,
    SpecifiedStyle, StyleDeclaration,
};

fn s(x: &str) -> String {
    x.to_string()
}

fn div(doc: &mut Document) -> usize {
    doc.new_node(NodeKind::Element(ElementData::new(s("div"), ElementKind::HTMLDivElement)))
}

fn sheet(text: &str) -> Vec<Rule> {
    stylesheet_from_bytes(vec![text.as_bytes().to_vec()]).unwrap()
}

fn any_with(decls: Vec<StyleDeclaration>) -> Rule {
    Rule { selectors: vec![Selector::Element(s("*"), vec![])], declarations: decls }
}

const RED: Color = Color { red: 255, green: 0, blue: 0 };
const BLUE: Color = Color { red: 0, green: 0, blue: 255 };

#[test]
fn later_rule_wins() {
    let rules = sheet("div { color: red } div { color: blue }");
    assert_eq!(rules.len(), 2);
    let mut doc = Document::new();
    let d = div(&mut doc);
    apply_style(&mut doc, &rules);
    assert_eq!(doc.styles[d].text_color, Some(BLUE));
}

#[test]
fn non_matching_rule_leaves_style_initial() {
    let rules = sheet("p { color: red }");
    let mut doc = Document::new();
    let d = div(&mut doc);
    apply_style(&mut doc, &rules);
    assert_eq!(doc.styles[d], SpecifiedStyle::new());
    assert_eq!(doc.appearances[d].height, Length::Auto);
}

#[test]
fn percentage_height_inheritance() {
    let mut doc = Document::new();
    let parent = div(&mut doc);
    let child = div(&mut doc);
    let child2 = div(&mut doc);
    let g1 = div(&mut doc);
    let g2 = div(&mut doc);
    doc.add_child(parent, child);
    doc.add_child(parent, child2);
    doc.add_child(child, g1);
    doc.add_child(child, g2);
    doc.styles[parent].height = Some(Length::Px(100_000));
    doc.styles[child].height = Some(Length::Auto);
    doc.styles[child2].height = Some(Length::Percent(50_000));
    doc.styles[g1].height = Some(Length::Percent(50_000));
    doc.styles[g2].height = Some(Length::Px(10_000));
    apply_style(&mut doc, &Vec::new());
    assert_eq!(doc.appearances[parent].height, Length::Px(100_000));
    assert_eq!(doc.appearances[child].height, Length::Auto);
    assert_eq!(doc.appearances[child2].height, Length::Px(50_000));
    assert_eq!(doc.appearances[g1].height, Length::Auto);
    assert_eq!(doc.appearances[g2].height, Length::Px(10_000));
}

#[test]
fn percentage_width_from_stylesheet() {
    let rules = sheet("div { width: 200px } div > div { width: 25% }");
    let mut doc = Document::new();
    let outer = div(&mut doc);
    let inner = div(&mut doc);
    doc.add_child(outer, inner);
    apply_style(&mut doc, &rules);
    assert_eq!(doc.appearances[outer].width, Length::Px(200_000));
    assert_eq!(doc.appearances[inner].width, Length::Px(50_000));
}

#[test]
fn applying_twice_changes_nothing() {
    let rules = sheet("div { height: 50%; color: red } div > div { height: 20px; display: block }");
    let mut doc = Document::new();
    let a = div(&mut doc);
    let b = div(&mut doc);
    let c = div(&mut doc);
    doc.add_child(a, b);
    doc.add_child(b, c);
    doc.styles[a].height = Some(Length::Px(40_000));
    apply_style(&mut doc, &rules);
    let styles = doc.styles.clone();
    let looks = doc.appearances.clone();
    apply_style(&mut doc, &rules);
    assert_eq!(doc.styles, styles);
    assert_eq!(doc.appearances, looks);
    assert_eq!(doc.styles[c].display_type, Some(DisplayType::DisplayBlock));
}

#[test]
fn unit_conversions() {
    assert_eq!(resolve_dimension(Some(Length::Pt(3_000)), None), Length::Px(4_000));
    assert_eq!(resolve_dimension(Some(Length::Mm(10_000)), None), Length::Px(37_795));
    assert_eq!(resolve_dimension(None, Some(Length::Px(5))), Length::Auto);
    assert_eq!(resolve_dimension(Some(Length::Percent(50_000)), None), Length::Auto);
    assert_eq!(
        resolve_dimension(Some(Length::Percent(50_000)), Some(Length::Percent(10))),
        Length::Auto
    );
    assert_eq!(
        resolve_dimension(Some(Length::Percent(u64::MAX)), Some(Length::Px(u64::MAX))),
        Length::Px(u64::MAX)
    );
}

#[test]
fn length_values() {
    assert_eq!(parse_length(&s("12px")), Some(Length::Px(12_000)));
    assert_eq!(parse_length(&s("1.5pt")), Some(Length::Pt(1_500)));
    assert_eq!(parse_length(&s("0.1234mm")), Some(Length::Mm(123)));
    assert_eq!(parse_length(&s("50%")), Some(Length::Percent(50_000)));
    assert_eq!(parse_length(&s("auto")), Some(Length::Auto));
    assert_eq!(parse_length(&s("12")), None);
    assert_eq!(parse_length(&s("px")), None);
    assert_eq!(parse_length(&s("1.px")), None);
    assert_eq!(parse_length(&s("1a2px")), None);
    assert_eq!(parse_length(&s("1234567890123456px")), None);
    assert_eq!(parse_length(&s("123456789012345px")), Some(Length::Px(123_456_789_012_345_000)));
}

#[test]
fn color_values() {
    assert_eq!(parse_color(&s("red")), Some(RED));
    assert_eq!(parse_color(&s("#ff0000")), Some(RED));
    assert_eq!(parse_color(&s("#00f")), Some(BLUE));
    assert_eq!(parse_color(&s("#A0b1C2")), Some(Color { red: 0xa0, green: 0xb1, blue: 0xc2 }));
    assert_eq!(parse_color(&s("Red")), None);
    assert_eq!(parse_color(&s("#ggg")), None);
    assert_eq!(parse_color(&s("#ff00")), None);
}

#[test]
fn declaration_values() {
    assert_eq!(
        parse_declaration(&s("background-color"), &s("navy")),
        Some(StyleDeclaration::BackgroundColor(Color { red: 0, green: 0, blue: 128 }))
    );
    assert_eq!(
        parse_declaration(&s("display"), &s("none")),
        Some(StyleDeclaration::Display(DisplayType::DisplayNone))
    );
    assert_eq!(
        parse_declaration(&s("position"), &s("absolute")),
        Some(StyleDeclaration::Position(PositionType::PosAbsolute))
    );
    assert_eq!(
        parse_declaration(&s("font-size"), &s("xx-large")),
        Some(StyleDeclaration::FontSize(FontSize::AbsoluteSize(AbsoluteSize::XXLarge)))
    );
    assert_eq!(
        parse_declaration(&s("font-size"), &s("12pt")),
        Some(StyleDeclaration::FontSize(FontSize::LengthSize(Length::Pt(12_000))))
    );
    assert_eq!(
        parse_declaration(&s("border-width"), &s("2px")),
        Some(StyleDeclaration::BorderWidth(Length::Px(2_000)))
    );
    assert_eq!(parse_declaration(&s("bogus"), &s("2px")), None);
    assert_eq!(parse_declaration(&s("display"), &s("flex")), None);
}

#[test]
fn malformed_declarations_are_dropped() {
    let rules = sheet("a , b > c { color: nope; top: 3px; wibble: 1px }");
    assert_eq!(rules.len(), 1);
    assert_eq!(rules[0].selectors.len(), 2);
    assert_eq!(rules[0].declarations, vec![StyleDeclaration::Top(Length::Px(3_000))]);
}

#[test]
fn selectors_group_to_the_left() {
    let rules = sheet("a b > c + d { color: red }");
    let text = format!("{:?}", rules[0].selectors[0]);
    assert_eq!(
        text,
        "Sibling(Child(Descendant(Element(\"a\", []), Element(\"b\", [])), Element(\"c\", [])), Element(\"d\", []))"
    );
}

#[test]
fn token_order_errors() {
    let tokens = vec![Token::EndDescription, Token::Eof];
    assert_eq!(parse_stylesheet(&tokens).unwrap_err(), ParseError::UnexpectedToken(0));
    let tokens = vec![
        Token::Element(s("a")),
        Token::StartDescription,
        Token::EndDescription,
        Token::Element(s("b")),
        Token::Eof,
    ];
    assert_eq!(parse_stylesheet(&tokens).unwrap_err(), ParseError::UnexpectedToken(3));
    let tokens = lex_css_from_bytes(vec![b"a { color: red }".to_vec()]).unwrap();
    assert_eq!(parse_stylesheet(&tokens).unwrap().len(), 1);
    assert!(matches!(
        stylesheet_from_bytes(vec![b"a { color: red".to_vec()]),
        Err(CssError::Lex(_))
    ));
}

#[test]
fn class_rule_applies_by_attribute() {
    let rules = sheet(".foo { color: #ff0000 }");
    let mut doc = Document::new();
    let mut e = ElementData::new(s("span"), ElementKind::HTMLSpanElement);
    e.attrs.push(Attr(s("class"), s("bar foo")));
    let n = doc.new_node(NodeKind::Element(e));
    let other = div(&mut doc);
    apply_style(&mut doc, &rules);
    assert_eq!(doc.styles[n].text_color, Some(RED));
    assert_eq!(doc.styles[other].text_color, None);
}

#[test]
fn update_style_overwrites_one_property() {
    let mut st = SpecifiedStyle::new();
    st.update_style(StyleDeclaration::Left(Length::Px(1)));
    st.update_style(StyleDeclaration::Left(Length::Px(2)));
    assert_eq!(st.left, Some(Length::Px(2)));
    assert_eq!(st.right, None);
    let rules = vec![any_with(vec![StyleDeclaration::Right(Length::Mm(1))])];
    let mut doc = Document::new();
    let d = div(&mut doc);
    doc.match_css_style(d, &rules);
    assert_eq!(doc.styles[d].right, Some(Length::Mm(1)));
}

#[test]
fn image_data_starts_empty() {
    let img = HTMLImageData();
    assert!(img.image.is_none());
    let kind = ElementKind::HTMLImageElement(img);
    assert!(matches!(kind, ElementKind::HTMLImageElement(_)));
}

#[test]
fn image_sources_in_document_order() {
    let mut doc = Document::new();
    let mut img = ElementData::new(s("img"), ElementKind::HTMLImageElement(HTMLImageData()));
    img.attrs.push(Attr(s("src"), s("a.png")));
    let plain = div(&mut doc);
    let i1 = doc.new_node(NodeKind::Element(img));
    let bare = ElementData::new(s("img"), ElementKind::HTMLImageElement(HTMLImageData()));
    doc.new_node(NodeKind::Element(bare));
    let mut not_img = ElementData::new(s("div"), ElementKind::HTMLDivElement);
    not_img.attrs.push(Attr(s("src"), s("b.png")));
    doc.new_node(NodeKind::Element(not_img));
    doc.add_child(plain, i1);
    let found = image_sources(&doc);
    assert_eq!(found.len(), 1);
    assert_eq!(found[0].node, i1);
    assert_eq!(found[0].src, s("a.png"));
}
