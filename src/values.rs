//! CSS values: attribute constraints, selectors, typed declarations and the specified style.
//!
//! Lengths are fixed-point: each variant carries thousandths of its unit
//! (`Px(1500)` is one and a half pixels, `Percent(50000)` is fifty per cent).

use vstd::prelude::*;

verus! {

/// A constraint on one attribute of an element.
#[derive(Clone, Debug)]
pub enum AttrMatch {
    /// The attribute is present.
    Exists(String),
    /// The attribute equals the value.
    Exact(String, String),
    /// The value is one of the space-separated words of the attribute.
    Includes(String, String),
    /// The attribute has no space and is the value, or starts with the value and `-`.
    StartsWith(String, String),
}

/// A selector over document nodes.
#[derive(Debug)]
pub enum Selector {
    /// A tag name (`*` for any) and constraints that must all hold.
    Element(String, Vec<AttrMatch>),
    /// The node matches the second selector and its parent the first.
    Child(Box<Selector>, Box<Selector>),
    /// The node matches the second selector and some ancestor the first.
    Descendant(Box<Selector>, Box<Selector>),
    /// The node matches the second selector and some other node with the same parent the first.
    Sibling(Box<Selector>, Box<Selector>),
}

/// A length, in thousandths of its unit.
#[derive(Clone, Copy, Debug, PartialEq, Eq, Structural)]
pub enum Length {
    Auto,
    Px(u64),
    Pt(u64),
    Mm(u64),
    Percent(u64),
}

#[derive(Clone, Copy, Debug, PartialEq, Eq, Structural)]
pub struct Color {
    pub red: u8,
    pub green: u8,
    pub blue: u8,
}

#[derive(Clone, Copy, Debug, PartialEq, Eq, Structural)]
pub enum DisplayType {
    DisplayInline,
    DisplayBlock,
    DisplayNone,
}

#[derive(Clone, Copy, Debug, PartialEq, Eq, Structural)]
pub enum AbsoluteSize {
    XXSmall,
    XSmall,
    Small,
    Medium,
    Large,
    XLarge,
    XXLarge,
}

#[derive(Clone, Copy, Debug, PartialEq, Eq, Structural)]
pub enum FontSize {
    AbsoluteSize(AbsoluteSize),
    Smaller,
    Larger,
    LengthSize(Length),
}

#[derive(Clone, Copy, Debug, PartialEq, Eq, Structural)]
pub enum PositionType {
    PosStatic,
    PosRelative,
    PosAbsolute,
}

/// One typed property declaration.
#[derive(Clone, Copy, Debug, PartialEq, Eq, Structural)]
pub enum StyleDeclaration {
    BackgroundColor(Color),
    Color(Color),
    Display(DisplayType),
    FontSize(FontSize),
    Height(Length),
    Width(Length),
    BorderColor(Color),
    BorderWidth(Length),
    Position(PositionType),
    Top(Length),
    Right(Length),
    Bottom(Length),
    Left(Length),
}

/// Property values given to a node by the cascade; `None` is the initial value.
#[derive(Clone, Copy, Debug, PartialEq, Eq, Structural)]
pub struct SpecifiedStyle {
    pub background_color: Option<Color>,
    pub text_color: Option<Color>,
    pub display_type: Option<DisplayType>,
    pub font_size: Option<FontSize>,
    pub height: Option<Length>,
    pub width: Option<Length>,
    pub border_color: Option<Color>,
    pub border_width: Option<Length>,
    pub position: Option<PositionType>,
    pub top: Option<Length>,
    pub right: Option<Length>,
    pub bottom: Option<Length>,
    pub left: Option<Length>,
}

impl SpecifiedStyle {
    /// A style with every property at its initial value.
    pub fn new() -> (r: SpecifiedStyle)
        ensures
            r == SpecifiedStyle::initial(),
    {
        SpecifiedStyle {
            background_color: None,
            text_color: None,
            display_type: None,
            font_size: None,
            height: None,
            width: None,
            border_color: None,
            border_width: None,
            position: None,
            top: None,
            right: None,
            bottom: None,
            left: None,
        }
    }

    pub open spec fn initial() -> SpecifiedStyle {
        SpecifiedStyle {
            background_color: None,
            text_color: None,
            display_type: None,
            font_size: None,
            height: None,
            width: None,
            border_color: None,
            border_width: None,
            position: None,
            top: None,
            right: None,
            bottom: None,
            left: None,
        }
    }
}

/// The style after one declaration overwrites its property.
pub open spec fn with_decl(s: SpecifiedStyle, d: StyleDeclaration) -> SpecifiedStyle {
    match d {
        StyleDeclaration::BackgroundColor(c) => SpecifiedStyle { background_color: Some(c), ..s },
        StyleDeclaration::Color(c) => SpecifiedStyle { text_color: Some(c), ..s },
        StyleDeclaration::Display(v) => SpecifiedStyle { display_type: Some(v), ..s },
        StyleDeclaration::FontSize(v) => SpecifiedStyle { font_size: Some(v), ..s },
        StyleDeclaration::Height(v) => SpecifiedStyle { height: Some(v), ..s },
        StyleDeclaration::Width(v) => SpecifiedStyle { width: Some(v), ..s },
        StyleDeclaration::BorderColor(c) => SpecifiedStyle { border_color: Some(c), ..s },
        StyleDeclaration::BorderWidth(v) => SpecifiedStyle { border_width: Some(v), ..s },
        StyleDeclaration::Position(v) => SpecifiedStyle { position: Some(v), ..s },
        StyleDeclaration::Top(v) => SpecifiedStyle { top: Some(v), ..s },
        StyleDeclaration::Right(v) => SpecifiedStyle { right: Some(v), ..s },
        StyleDeclaration::Bottom(v) => SpecifiedStyle { bottom: Some(v), ..s },
        StyleDeclaration::Left(v) => SpecifiedStyle { left: Some(v), ..s },
    }
}

/// The style after the declarations overwrite their properties in order.
pub open spec fn with_decls(s: SpecifiedStyle, ds: Seq<StyleDeclaration>) -> SpecifiedStyle
    decreases ds.len(),
{
    if ds.len() == 0 {
        s
    } else {
        with_decl(with_decls(s, ds.drop_last()), ds.last())
    }
}

/// Each property of `top` that is set, else that of `base`.
pub open spec fn overlay(base: SpecifiedStyle, top: SpecifiedStyle) -> SpecifiedStyle {
    SpecifiedStyle {
        background_color: if top.background_color is Some {
            top.background_color
        } else {
            base.background_color
        },
        text_color: if top.text_color is Some {
            top.text_color
        } else {
            base.text_color
        },
        display_type: if top.display_type is Some {
            top.display_type
        } else {
            base.display_type
        },
        font_size: if top.font_size is Some {
            top.font_size
        } else {
            base.font_size
        },
        height: if top.height is Some {
            top.height
        } else {
            base.height
        },
        width: if top.width is Some {
            top.width
        } else {
            base.width
        },
        border_color: if top.border_color is Some {
            top.border_color
        } else {
            base.border_color
        },
        border_width: if top.border_width is Some {
            top.border_width
        } else {
            base.border_width
        },
        position: if top.position is Some {
            top.position
        } else {
            base.position
        },
        top: if top.top is Some {
            top.top
        } else {
            base.top
        },
        right: if top.right is Some {
            top.right
        } else {
            base.right
        },
        bottom: if top.bottom is Some {
            top.bottom
        } else {
            base.bottom
        },
        left: if top.left is Some {
            top.left
        } else {
            base.left
        },
    }
}

/// Applying declarations is overlaying what they set on a blank style.
pub proof fn lemma_with_decls_overlay(s: SpecifiedStyle, ds: Seq<StyleDeclaration>)
    ensures
        with_decls(s, ds) == overlay(s, with_decls(SpecifiedStyle::initial(), ds)),
    decreases ds.len(),
{
    if ds.len() > 0 {
        lemma_with_decls_overlay(s, ds.drop_last());
        lemma_with_decl_overlay(s, with_decls(SpecifiedStyle::initial(), ds.drop_last()), ds.last());
    }
}

proof fn lemma_with_decl_overlay(s: SpecifiedStyle, t: SpecifiedStyle, d: StyleDeclaration)
    ensures
        with_decl(overlay(s, t), d) == overlay(s, with_decl(t, d)),
{
    match d {
        StyleDeclaration::BackgroundColor(_) => {},
        StyleDeclaration::Color(_) => {},
        StyleDeclaration::Display(_) => {},
        StyleDeclaration::FontSize(_) => {},
        StyleDeclaration::Height(_) => {},
        StyleDeclaration::Width(_) => {},
        StyleDeclaration::BorderColor(_) => {},
        StyleDeclaration::BorderWidth(_) => {},
        StyleDeclaration::Position(_) => {},
        StyleDeclaration::Top(_) => {},
        StyleDeclaration::Right(_) => {},
        StyleDeclaration::Bottom(_) => {},
        StyleDeclaration::Left(_) => {},
    }
}

/// A rule: selectors, any of which selects the node, and the declarations it then applies.
#[derive(Debug)]
pub struct Rule {
    pub selectors: Vec<Selector>,
    pub declarations: Vec<StyleDeclaration>,
}

/// Rules in source order; later rules win.
pub type Stylesheet = Vec<Rule>;

} // verus!
