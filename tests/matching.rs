use servo_css::element::{Attr, ElementData, ElementKind};
use servo_css::node::{Document, NodeKind};
use servo_css::values::{AttrMatch, Selector};

fn s(x: &str) -> String {
    x.to_string()
}

fn new_node_from_attr(doc: &mut Document, name: &str, val: &str) -> usize {
    let mut elmt = ElementData::new(s("div"), ElementKind::HTMLDivElement);
    elmt.attrs.push(Attr(s(name), s(val)));
    doc.new_node(NodeKind::Element(elmt))
}

fn el(tag: &str, attrs: Vec<AttrMatch>) -> Selector {
    Selector::Element(s(tag), attrs)
}

fn boxed(sel: Selector) -> Box<Selector> {
    Box::new(sel)
}

#[test]
fn test_match_pipe1() {
    let mut doc = Document::new();
    let node = new_node_from_attr(&mut doc, "lang", "en-us");
    let sel = el("*", vec![AttrMatch::StartsWith(s("lang"), s("en"))]);
    assert!(doc.matches_selector(node, &sel));
}

#[test]
fn test_match_pipe2() {
    let mut doc = Document::new();
    let node = new_node_from_attr(&mut doc, "lang", "en");
    let sel = el("*", vec![AttrMatch::StartsWith(s("lang"), s("en"))]);
    assert!(doc.matches_selector(node, &sel));
}

#[test]
fn test_not_match_pipe() {
    let mut doc = Document::new();
    let node = new_node_from_attr(&mut doc, "lang", "english");
    let sel = el("*", vec![AttrMatch::StartsWith(s("lang"), s("en"))]);
    assert!(!doc.matches_selector(node, &sel));
}

#[test]
fn test_match_includes() {
    let mut doc = Document::new();
    let node = new_node_from_attr(&mut doc, "mad", "hatter cobler cooper");
    let sel = el("div", vec![AttrMatch::Includes(s("mad"), s("hatter"))]);
    assert!(doc.matches_selector(node, &sel));
}

#[test]
fn test_match_exists() {
    let mut doc = Document::new();
    let node = new_node_from_attr(&mut doc, "mad", "hatter cobler cooper");
    let sel1 = el("div", vec![AttrMatch::Exists(s("mad"))]);
    let sel2 = el("div", vec![AttrMatch::Exists(s("hatter"))]);
    assert!(doc.matches_selector(node, &sel1));
    assert!(!doc.matches_selector(node, &sel2));
}

#[test]
fn test_match_exact() {
    let mut doc = Document::new();
    let node1 = new_node_from_attr(&mut doc, "mad", "hatter cobler cooper");
    let node2 = new_node_from_attr(&mut doc, "mad", "hatter");
    let sel = el("div", vec![AttrMatch::Exact(s("mad"), s("hatter"))]);
    assert!(!doc.matches_selector(node1, &sel));
    assert!(doc.matches_selector(node2, &sel));
}

fn blue_root() -> Selector {
    el("*", vec![AttrMatch::Exact(s("class"), s("blue"))])
}

#[test]
fn match_tree() {
    let mut doc = Document::new();
    let root = new_node_from_attr(&mut doc, "class", "blue");
    let child1 = new_node_from_attr(&mut doc, "id", "green");
    let child2 = new_node_from_attr(&mut doc, "flag", "black");
    let gchild = new_node_from_attr(&mut doc, "flag", "grey");
    let ggchild = new_node_from_attr(&mut doc, "flag", "white");
    let gggchild = new_node_from_attr(&mut doc, "flag", "purple");

    doc.add_child(root, child1);
    doc.add_child(root, child2);
    doc.add_child(child2, gchild);
    doc.add_child(gchild, ggchild);
    doc.add_child(ggchild, gggchild);

    let sel1 = Selector::Descendant(boxed(blue_root()), boxed(el("*", vec![])));
    assert!(!doc.matches_selector(root, &sel1));
    assert!(doc.matches_selector(child1, &sel1));
    assert!(doc.matches_selector(child2, &sel1));
    assert!(doc.matches_selector(gchild, &sel1));
    assert!(doc.matches_selector(ggchild, &sel1));
    assert!(doc.matches_selector(gggchild, &sel1));

    let sel2 = Selector::Descendant(
        boxed(Selector::Child(boxed(blue_root()), boxed(el("*", vec![])))),
        boxed(el("div", vec![AttrMatch::Exists(s("flag"))])),
    );
    assert!(!doc.matches_selector(root, &sel2));
    assert!(!doc.matches_selector(child1, &sel2));
    assert!(!doc.matches_selector(child2, &sel2));
    assert!(doc.matches_selector(gchild, &sel2));
    assert!(doc.matches_selector(ggchild, &sel2));
    assert!(doc.matches_selector(gggchild, &sel2));

    let sel3 = Selector::Sibling(boxed(el("*", vec![])), boxed(el("*", vec![])));
    assert!(!doc.matches_selector(root, &sel3));
    assert!(doc.matches_selector(child1, &sel3));
    assert!(doc.matches_selector(child2, &sel3));
    assert!(!doc.matches_selector(gchild, &sel3));
    assert!(!doc.matches_selector(ggchild, &sel3));
    assert!(!doc.matches_selector(gggchild, &sel3));

    let sel4 = Selector::Descendant(
        boxed(Selector::Child(
            boxed(el("*", vec![AttrMatch::Exists(s("class"))])),
            boxed(el("*", vec![])),
        )),
        boxed(el("*", vec![])),
    );
    assert!(!doc.matches_selector(root, &sel4));
    assert!(!doc.matches_selector(child1, &sel4));
    assert!(!doc.matches_selector(child2, &sel4));
    assert!(doc.matches_selector(gchild, &sel4));
    assert!(doc.matches_selector(ggchild, &sel4));
    assert!(doc.matches_selector(gggchild, &sel4));
}

#[test]
fn descendant_scenario_root_child_grandchild() {
    let mut doc = Document::new();
    let root = new_node_from_attr(&mut doc, "class", "blue");
    let child1 = new_node_from_attr(&mut doc, "flag", "a");
    let gchild = new_node_from_attr(&mut doc, "flag", "b");
    doc.add_child(root, child1);
    doc.add_child(child1, gchild);
    let desc = Selector::Descendant(boxed(blue_root()), boxed(el("*", vec![])));
    assert!(!doc.matches_selector(root, &desc));
    assert!(doc.matches_selector(child1, &desc));
    assert!(doc.matches_selector(gchild, &desc));
    let child = Selector::Child(boxed(blue_root()), boxed(el("*", vec![])));
    assert!(!doc.matches_selector(root, &child));
    assert!(doc.matches_selector(child1, &child));
    assert!(!doc.matches_selector(gchild, &child));
}

#[test]
fn universal_selector_matches_every_element() {
    let mut doc = Document::new();
    let a = doc.new_node(NodeKind::Element(ElementData::new(s("p"), ElementKind::HTMLParagraphElement)));
    let b = new_node_from_attr(&mut doc, "x", "y");
    let t = doc.new_node(NodeKind::Text(s("hello")));
    doc.add_child(a, b);
    let sel = el("*", vec![]);
    assert!(doc.matches_selector(a, &sel));
    assert!(doc.matches_selector(b, &sel));
    assert!(!doc.matches_selector(t, &sel));
}

#[test]
fn includes_rejects_empty_word_and_partial_word() {
    let mut doc = Document::new();
    let node = new_node_from_attr(&mut doc, "class", "foo bar");
    assert!(!doc.matches_selector(node, &el("*", vec![AttrMatch::Includes(s("class"), s(""))])));
    assert!(!doc.matches_selector(node, &el("*", vec![AttrMatch::Includes(s("class"), s("fo"))])));
    assert!(doc.matches_selector(node, &el("*", vec![AttrMatch::Includes(s("class"), s("bar"))])));
    assert!(!doc.matches_selector(node, &el("*", vec![AttrMatch::Includes(s("class"), s("foo bar"))])));
}

#[test]
fn lang_tag_rejects_spaces() {
    let mut doc = Document::new();
    let node = new_node_from_attr(&mut doc, "lang", "en us");
    assert!(!doc.matches_selector(node, &el("*", vec![AttrMatch::StartsWith(s("lang"), s("en"))])));
}

#[test]
fn matching_is_repeatable() {
    let mut doc = Document::new();
    let root = new_node_from_attr(&mut doc, "class", "blue");
    let child = new_node_from_attr(&mut doc, "id", "x");
    doc.add_child(root, child);
    let sel = Selector::Child(boxed(blue_root()), boxed(el("div", vec![])));
    let first = doc.matches_selector(child, &sel);
    let second = doc.matches_selector(child, &sel);
    assert!(first);
    assert_eq!(first, second);
}

#[test]
fn get_and_set_attr() {
    let mut e = ElementData::new(s("div"), ElementKind::HTMLDivElement);
    e.attrs.push(Attr(s("a"), s("1")));
    e.attrs.push(Attr(s("a"), s("2")));
    assert_eq!(e.get_attr(&s("a")), Some(s("1")));
    assert_eq!(e.get_attr(&s("b")), None);
    e.set_attr(&s("a"), s("3"));
    assert_eq!(e.get_attr(&s("a")), Some(s("3")));
    assert_eq!(e.attrs[1].value, s("2"));
    e.set_attr(&s("b"), s("4"));
    assert_eq!(e.attrs.len(), 2);
}

#[test]
fn matching_ignores_element_kind_and_style() {
    let mut d1 = Document::new();
    let mut d2 = Document::new();
    let mut e1 = ElementData::new(s("div"), ElementKind::HTMLDivElement);
    e1.attrs.push(Attr(s("class"), s("x y")));
    let mut e2 = ElementData::new(s("div"), ElementKind::UnknownElement);
    e2.attrs.push(Attr(s("class"), s("x y")));
    let r1 = d1.new_node(NodeKind::Element(e1));
    let r2 = d2.new_node(NodeKind::Element(e2));
    let c1 = new_node_from_attr(&mut d1, "a", "b");
    let c2 = new_node_from_attr(&mut d2, "a", "b");
    d1.add_child(r1, c1);
    d2.add_child(r2, c2);
    d2.styles[c2].top = Some(servo_css::values::Length::Px(5));
    let sel = Selector::Descendant(
        boxed(el("div", vec![AttrMatch::Includes(s("class"), s("y"))])),
        boxed(el("*", vec![AttrMatch::Exact(s("a"), s("b"))])),
    );
    assert!(d1.matches_selector(c1, &sel));
    assert_eq!(d1.matches_selector(c1, &sel), d2.matches_selector(c2, &sel));
    assert_eq!(d1.matches_selector(r1, &sel), d2.matches_selector(r2, &sel));
}

#[test]
fn includes_splits_at_any_whitespace() {
    let mut doc = Document::new();
    let tab = new_node_from_attr(&mut doc, "c", "a\tb");
    let nl = new_node_from_attr(&mut doc, "c", "x\ny z");
    assert!(doc.matches_selector(tab, &el("*", vec![AttrMatch::Includes(s("c"), s("a"))])));
    assert!(doc.matches_selector(tab, &el("*", vec![AttrMatch::Includes(s("c"), s("b"))])));
    assert!(doc.matches_selector(nl, &el("*", vec![AttrMatch::Includes(s("c"), s("y"))])));
    assert!(!doc.matches_selector(tab, &el("*", vec![AttrMatch::Includes(s("c"), s("a\tb"))])));
}

#[test]
fn matching_ignores_children_and_unrelated_nodes() {
    let mut d1 = Document::new();
    let mut d2 = Document::new();
    let r1 = new_node_from_attr(&mut d1, "class", "blue");
    let r2 = new_node_from_attr(&mut d2, "class", "blue");
    let c1 = new_node_from_attr(&mut d1, "k", "v");
    let c2 = new_node_from_attr(&mut d2, "k", "v");
    d1.add_child(r1, c1);
    d2.add_child(r2, c2);
    let extra = new_node_from_attr(&mut d2, "other", "x");
    d2.add_child(c2, extra);
    d2.new_node(NodeKind::Text(s("unrelated")));
    let sel = Selector::Child(boxed(blue_root()), boxed(el("*", vec![AttrMatch::Exists(s("k"))])));
    assert!(d1.matches_selector(c1, &sel));
    assert_eq!(d1.matches_selector(c1, &sel), d2.matches_selector(c2, &sel));
}
