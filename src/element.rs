//! Element data attached to document nodes: tag name, kind and attributes.

use vstd::prelude::*;

verus! {

/// One attribute of an element.
#[derive(Clone, Debug)]
pub struct Attr {
    pub name: String,
    pub value: String,
}

/// Makes an attribute from its name and value.
#[allow(non_snake_case)]
pub fn Attr(name: String, value: String) -> (r: Attr)
    ensures
        r.name == name,
        r.value == value,
{
    Attr { name, value }
}

/// Data of an image element: the source it was resolved to, once known.
#[derive(Clone, Debug)]
pub struct HTMLImageData {
    pub image: Option<String>,
}

/// Image data with no source resolved yet.
#[allow(non_snake_case)]
pub fn HTMLImageData() -> (r: HTMLImageData)
    ensures
        r.image is None,
{
    HTMLImageData { image: None }
}

#[derive(Clone, Copy, Debug, PartialEq, Eq)]
pub enum HeadingLevel {
    Heading1,
    Heading2,
    Heading3,
    Heading4,
    Heading5,
    Heading6,
}

#[derive(Clone, Debug)]
pub enum ElementKind {
    HTMLAnchorElement,
    HTMLAsideElement,
    HTMLBRElement,
    HTMLBodyElement,
    HTMLBoldElement,
    HTMLDivElement,
    HTMLFontElement,
    HTMLFormElement,
    HTMLHRElement,
    HTMLHeadElement,
    HTMLHeadingElement(HeadingLevel),
    HTMLHtmlElement,
    HTMLImageElement(HTMLImageData),
    HTMLInputElement,
    HTMLItalicElement,
    HTMLLinkElement,
    HTMLListItemElement,
    HTMLMetaElement,
    HTMLOListElement,
    HTMLOptionElement,
    HTMLParagraphElement,
    HTMLScriptElement,
    HTMLSectionElement,
    HTMLSelectElement,
    HTMLSmallElement,
    HTMLSpanElement,
    HTMLStyleElement,
    HTMLTableBodyElement,
    HTMLTableCellElement,
    HTMLTableElement,
    HTMLTableRowElement,
    HTMLTitleElement,
    HTMLUListElement,
    UnknownElement,
}

/// An element: its tag name, its kind and its attributes in document order.
#[derive(Clone, Debug)]
pub struct ElementData {
    pub tag_name: String,
    pub kind: ElementKind,
    pub attrs: Vec<Attr>,
}

/// Position of the first attribute named `name`, or the length when there is none.
pub open spec fn attr_index(attrs: Seq<Attr>, name: Seq<char>) -> nat
    decreases attrs.len(),
{
    if attrs.len() == 0 {
        0
    } else if attrs[0].name@ == name {
        0
    } else {
        1 + attr_index(attrs.skip(1), name)
    }
}

/// Value of the first attribute named `name`.
pub open spec fn find_attr(attrs: Seq<Attr>, name: Seq<char>) -> Option<Seq<char>> {
    let i = attr_index(attrs, name);
    if i < attrs.len() {
        Some(attrs[i as int].value@)
    } else {
        None
    }
}

/// `attr_index` finds the first attribute with that name.
pub proof fn lemma_attr_index(attrs: Seq<Attr>, name: Seq<char>)
    ensures
        attr_index(attrs, name) <= attrs.len(),
        attr_index(attrs, name) < attrs.len() ==> attrs[attr_index(attrs, name) as int].name@
            == name,
        forall|j: int| 0 <= j < attr_index(attrs, name) ==> (#[trigger] attrs[j]).name@ != name,
    decreases attrs.len(),
{
    if attrs.len() > 0 && attrs[0].name@ != name {
        lemma_attr_index(attrs.skip(1), name);
        assert forall|j: int| 0 <= j < attr_index(attrs, name) implies (
        #[trigger] attrs[j]).name@ != name by {
            if j > 0 {
                assert(attrs[j] == attrs.skip(1)[j - 1]);
            }
        }
    }
}

/// `attr_index` is the first position that holds the name.
proof fn lemma_attr_index_of(attrs: Seq<Attr>, name: Seq<char>, i: int)
    requires
        0 <= i <= attrs.len(),
        forall|j: int| 0 <= j < i ==> (#[trigger] attrs[j]).name@ != name,
        i < attrs.len() ==> attrs[i].name@ == name,
    ensures
        attr_index(attrs, name) == i,
    decreases i,
{
    if i > 0 {
        assert(attrs[0].name@ != name);
        assert forall|j: int| 0 <= j < i - 1 implies (#[trigger] attrs.skip(1)[j]).name@ != name by {
            assert(attrs.skip(1)[j] == attrs[j + 1]);
        }
        lemma_attr_index_of(attrs.skip(1), name, i - 1);
    }
}

impl ElementData {
    /// An element with no attributes.
    pub fn new(tag_name: String, kind: ElementKind) -> (r: ElementData)
        ensures
            r.tag_name == tag_name,
            r.kind == kind,
            r.attrs@.len() == 0,
    {
        ElementData { tag_name, kind, attrs: Vec::new() }
    }

    /// Position of the first attribute named `name`, or the number of attributes.
    fn position(&self, name: &String) -> (r: usize)
        ensures
            r == attr_index(self.attrs@, name@),
    {
        let mut i: usize = 0;
        while i < self.attrs.len()
            invariant
                i <= self.attrs@.len(),
                forall|j: int| 0 <= j < i ==> (#[trigger] self.attrs@[j]).name@ != name@,
            decreases self.attrs@.len() - i,
        {
            if self.attrs[i].name == *name {
                proof {
                    lemma_attr_index_of(self.attrs@, name@, i as int);
                }
                return i;
            }
            i = i + 1;
        }
        proof {
            lemma_attr_index_of(self.attrs@, name@, i as int);
        }
        i
    }

    /// Value of the first attribute named `name`, if any.
    pub fn get_attr(&self, name: &String) -> (r: Option<String>)
        ensures
            r is Some <==> find_attr(self.attrs@, name@) is Some,
            r is Some ==> r->0@ == find_attr(self.attrs@, name@)->0,
    {
        let i = self.position(name);
        if i < self.attrs.len() {
            Some(self.attrs[i].value.clone())
        } else {
            None
        }
    }

    /// Replace the value of the first attribute named `name`; without one, nothing changes.
    pub fn set_attr(&mut self, name: &String, value: String)
        ensures
            final(self).tag_name == old(self).tag_name,
            final(self).kind == old(self).kind,
            ({
                let i = attr_index(old(self).attrs@, name@);
                if i < old(self).attrs@.len() {
                    final(self).attrs@ == old(self).attrs@.update(
                        i as int,
                        Attr { name: old(self).attrs@[i as int].name, value },
                    )
                } else {
                    final(self).attrs@ == old(self).attrs@
                }
            }),
    {
        let i = self.position(name);
        if i < self.attrs.len() {
            let n = self.attrs[i].name.clone();
            self.attrs.set(i, Attr { name: n, value });
        }
    }
}

} // verus!
