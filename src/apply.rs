//! The style pass: cascade every node in document order, then resolve its height and width
//! against its parent's resolved dimensions.

use vstd::prelude::*;
use crate::matching::cascade;
use crate::element::{find_attr, ElementKind};
use crate::node::{Appearance, Document, NodeKind};
use crate::values::{
    lemma_with_decls_overlay, overlay, with_decls, Length, Rule, SpecifiedStyle,
};

verus! {

/// `x`, or the largest `u64` when `x` does not fit.
pub open spec fn saturate(x: int) -> u64 {
    if x > u64::MAX {
        u64::MAX
    } else {
        x as u64
    }
}

/// The resolved dimension of a node from its own specified dimension and its parent's
/// resolved one (`None` without a parent). Points are 4/3 pixel, millimetres 3.7795 pixels;
/// a percentage takes that part of a parent in pixels, and is automatic otherwise.
pub open spec fn resolve_length(own: Option<Length>, parent: Option<Length>) -> Length {
    match own {
        None => Length::Auto,
        Some(Length::Auto) => Length::Auto,
        Some(Length::Px(x)) => Length::Px(x),
        Some(Length::Pt(x)) => Length::Px(saturate(x * 4 / 3)),
        Some(Length::Mm(x)) => Length::Px(saturate(x * 37795 / 10000)),
        Some(Length::Percent(p)) => match parent {
            Some(Length::Px(f)) => Length::Px(saturate(p * f / 100000)),
            _ => Length::Auto,
        },
    }
}

fn saturate_u128(x: u128) -> (r: u64)
    ensures
        r == saturate(x as int),
{
    if x > 0xffff_ffff_ffff_ffffu128 {
        0xffff_ffff_ffff_ffffu64
    } else {
        x as u64
    }
}

/// Resolve one dimension against the parent's resolved one.
pub fn resolve_dimension(own: Option<Length>, parent: Option<Length>) -> (r: Length)
    ensures
        r == resolve_length(own, parent),
{
    match own {
        None => Length::Auto,
        Some(Length::Auto) => Length::Auto,
        Some(Length::Px(x)) => Length::Px(x),
        Some(Length::Pt(x)) => Length::Px(saturate_u128(x as u128 * 4 / 3)),
        Some(Length::Mm(x)) => Length::Px(saturate_u128(x as u128 * 37795 / 10000)),
        Some(Length::Percent(p)) => match parent {
            Some(Length::Px(f)) => {
                assert((p as int) * (f as int) <= (u64::MAX as int) * (u64::MAX as int)) by (
                nonlinear_arith);
                Length::Px(saturate_u128(p as u128 * f as u128 / 100000))
            },
            _ => Length::Auto,
        },
    }
}

/// The resolved dimensions of the parent of node `i`, if it has one.
pub open spec fn parent_appearance(doc: &Document, i: int) -> Option<Appearance> {
    match doc.parents@[i] {
        Some(p) => Some(doc.appearances@[p as int]),
        None => None,
    }
}

/// Node `i`'s appearance is resolved from its style and its parent's appearance.
pub open spec fn resolved_at(doc: &Document, i: int) -> bool {
    let pa = parent_appearance(doc, i);
    doc.appearances@[i] == Appearance {
        height: resolve_length(
            doc.styles@[i].height,
            match pa {
                Some(a) => Some(a.height),
                None => None,
            },
        ),
        width: resolve_length(
            doc.styles@[i].width,
            match pa {
                Some(a) => Some(a.width),
                None => None,
            },
        ),
    }
}

/// `after` is `before` once the stylesheet has been cascaded onto every node and every
/// node's dimensions resolved.
pub open spec fn styled(before: &Document, after: &Document, rules: Seq<Rule>) -> bool {
    &&& after.wf()
    &&& after.kinds@ == before.kinds@
    &&& after.parents@ == before.parents@
    &&& forall|i: int|
        0 <= i < after.styles@.len() ==> #[trigger] after.styles@[i] == cascade(
            before.styles@[i],
            before.kinds@,
            before.parents@,
            i,
            rules,
        )
    &&& forall|i: int| 0 <= i < after.styles@.len() ==> #[trigger] resolved_at(after, i)
}

/// Cascade `styles` onto every node of the document, parents before children, and resolve
/// each node's height and width against its parent's.
pub fn apply_style(doc: &mut Document, styles: &Vec<Rule>)
    requires
        old(doc).wf(),
    ensures
        styled(old(doc), final(doc), styles@),
{
    let ghost start = *doc;
    let n = doc.kinds.len();
    let mut i: usize = 0;
    while i < n
        invariant
            doc.wf(),
            n == doc.kinds@.len(),
            i <= n,
            doc.kinds@ == start.kinds@,
            doc.parents@ == start.parents@,
            doc.styles@.len() == start.styles@.len(),
            forall|j: int|
                i <= j < n ==> #[trigger] doc.styles@[j] == start.styles@[j],
            forall|j: int|
                0 <= j < i ==> #[trigger] doc.styles@[j] == cascade(
                    start.styles@[j],
                    start.kinds@,
                    start.parents@,
                    j,
                    styles@,
                ),
            forall|j: int| 0 <= j < i ==> #[trigger] resolved_at(doc, j),
        decreases n - i,
    {
        let ghost mid = *doc;
        doc.match_css_style(i, styles);
        let style = doc.styles[i];
        let (ph, pw) = match doc.parents[i] {
            Some(p) => {
                let a = doc.appearances[p];
                (Some(a.height), Some(a.width))
            },
            None => (None, None),
        };
        let a = Appearance {
            height: resolve_dimension(style.height, ph),
            width: resolve_dimension(style.width, pw),
        };
        doc.appearances.set(i, a);
        proof {
            assert forall|j: int| 0 <= j < i + 1 implies #[trigger] resolved_at(doc, j) by {
                if j < i {
                    assert(resolved_at(&mid, j));
                    assert(mid.styles@[j] == doc.styles@[j]);
                    assert(mid.appearances@[j] == doc.appearances@[j]);
                    if let Some(p) = doc.parents@[j] {
                        assert((p as int) < j);
                        assert(mid.appearances@[p as int] == doc.appearances@[p as int]);
                    }
                }
            }
            assert forall|j: int| 0 <= j < i + 1 implies #[trigger] doc.styles@[j] == cascade(
                start.styles@[j],
                start.kinds@,
                start.parents@,
                j,
                styles@,
            ) by {
                if j < i {
                    assert(mid.styles@[j] == doc.styles@[j]);
                }
            }
        }
        i = i + 1;
    }
}

/// Overlaying is associative.
proof fn lemma_overlay_assoc(a: SpecifiedStyle, b: SpecifiedStyle, c: SpecifiedStyle)
    ensures
        overlay(overlay(a, b), c) == overlay(a, overlay(b, c)),
{
}

/// The cascade overlays on the starting style what it gives a blank style.
proof fn lemma_cascade_overlay(
    s: SpecifiedStyle,
    kinds: Seq<NodeKind>,
    parents: Seq<Option<usize>>,
    n: int,
    rules: Seq<Rule>,
)
    ensures
        cascade(s, kinds, parents, n, rules) == overlay(
            s,
            cascade(SpecifiedStyle::initial(), kinds, parents, n, rules),
        ),
    decreases rules.len(),
{
    if rules.len() > 0 {
        let rs = rules.drop_last();
        lemma_cascade_overlay(s, kinds, parents, n, rs);
        let c = cascade(SpecifiedStyle::initial(), kinds, parents, n, rs);
        let ds = rules.last().declarations@;
        lemma_with_decls_overlay(overlay(s, c), ds);
        lemma_with_decls_overlay(c, ds);
        lemma_overlay_assoc(s, c, with_decls(SpecifiedStyle::initial(), ds));
    }
}

/// Cascading a stylesheet onto a node a second time changes nothing.
pub proof fn lemma_cascade_idempotent(
    s: SpecifiedStyle,
    kinds: Seq<NodeKind>,
    parents: Seq<Option<usize>>,
    n: int,
    rules: Seq<Rule>,
)
    ensures
        cascade(cascade(s, kinds, parents, n, rules), kinds, parents, n, rules) == cascade(
            s,
            kinds,
            parents,
            n,
            rules,
        ),
{
    lemma_cascade_overlay(s, kinds, parents, n, rules);
    lemma_cascade_overlay(cascade(s, kinds, parents, n, rules), kinds, parents, n, rules);
}

/// Applying a stylesheet to a document that it was just applied to gives the same styles and
/// the same resolved dimensions.
pub proof fn lemma_apply_style_twice(d0: &Document, d1: &Document, d2: &Document, rules: Seq<Rule>)
    requires
        styled(d0, d1, rules),
        styled(d1, d2, rules),
    ensures
        d2.styles@ == d1.styles@,
        d2.appearances@ == d1.appearances@,
{
    assert forall|i: int| 0 <= i < d2.styles@.len() implies #[trigger] d2.styles@[i]
        == d1.styles@[i] by {
        assert(d1.styles@[i] == cascade(d0.styles@[i], d0.kinds@, d0.parents@, i, rules));
        lemma_cascade_idempotent(d0.styles@[i], d0.kinds@, d0.parents@, i, rules);
    }
    assert(d2.styles@ =~= d1.styles@);
    lemma_same_appearances(d1, d2, d2.appearances@.len() as int);
    assert(d2.appearances@ =~= d1.appearances@);
}

/// Two documents with the same structure and styles, both resolved, have the same appearances.
proof fn lemma_same_appearances(d1: &Document, d2: &Document, k: int)
    requires
        d1.wf(),
        d2.wf(),
        d1.parents@ == d2.parents@,
        d1.styles@ == d2.styles@,
        0 <= k <= d2.appearances@.len(),
        forall|i: int| 0 <= i < d1.styles@.len() ==> #[trigger] resolved_at(d1, i),
        forall|i: int| 0 <= i < d2.styles@.len() ==> #[trigger] resolved_at(d2, i),
    ensures
        forall|i: int| 0 <= i < k ==> #[trigger] d2.appearances@[i] == d1.appearances@[i],
    decreases k,
{
    if k > 0 {
        lemma_same_appearances(d1, d2, k - 1);
        let i = k - 1;
        assert(resolved_at(d1, i) && resolved_at(d2, i));
        if let Some(p) = d1.parents@[i] {
            assert((p as int) < i);
        }
    }
}

/// Percentage heights: once styled, a node whose height is a percentage is that part of its
/// parent's resolved height in pixels, and automatic when the parent's is automatic.
pub proof fn lemma_percentage_height(before: &Document, after: &Document, rules: Seq<Rule>, i: int)
    requires
        styled(before, after, rules),
        0 <= i < after.styles@.len(),
        after.styles@[i].height matches Some(Length::Percent(_)),
        after.parents@[i] is Some,
    ensures
        ({
            let p = after.parents@[i]->0 as int;
            let pct = after.styles@[i].height->0->Percent_0;
            &&& (after.appearances@[p].height matches Length::Px(f) ==> after.appearances@[i].height
                == Length::Px(saturate(pct * f / 100000)))
            &&& (after.appearances@[p].height == Length::Auto ==> after.appearances@[i].height
                == Length::Auto)
        }),
{
    assert(resolved_at(after, i));
}

/// An image element's node and the source its `src` attribute names.
pub struct ImageSource {
    pub node: usize,
    pub src: String,
}

/// The `src` of node `i` when it is an image element that has one.
pub open spec fn image_src(kinds: Seq<NodeKind>, i: int) -> Option<Seq<char>> {
    match kinds[i] {
        NodeKind::Element(e) => if e.kind is HTMLImageElement {
            find_attr(e.attrs@, "src"@)
        } else {
            None
        },
        NodeKind::Text(_) => None,
    }
}

/// The image sources of the first `n` nodes, in document order.
pub open spec fn image_sources_upto(kinds: Seq<NodeKind>, n: int) -> Seq<(usize, Seq<char>)>
    decreases n,
{
    if n <= 0 {
        Seq::empty()
    } else {
        let prev = image_sources_upto(kinds, n - 1);
        match image_src(kinds, n - 1) {
            Some(v) => prev.push(((n - 1) as usize, v)),
            None => prev,
        }
    }
}

pub open spec fn source_views(r: Seq<ImageSource>) -> Seq<(usize, Seq<char>)> {
    r.map_values(|i: ImageSource| (i.node, i.src@))
}

/// Every image element with a `src` attribute, in document order, with that attribute's
/// value: what is to be resolved against the document's address and handed to the image cache.
pub fn image_sources(doc: &Document) -> (r: Vec<ImageSource>)
    ensures
        source_views(r@) == image_sources_upto(doc.kinds@, doc.kinds@.len() as int),
{
    let src_name = String::from_str("src");
    let mut r: Vec<ImageSource> = Vec::new();
    let mut i: usize = 0;
    while i < doc.kinds.len()
        invariant
            i <= doc.kinds@.len(),
            src_name@ == "src"@,
            source_views(r@) == image_sources_upto(doc.kinds@, i as int),
        decreases doc.kinds@.len() - i,
    {
        let ghost before = source_views(r@);
        match &doc.kinds[i] {
            NodeKind::Element(e) => match &e.kind {
                ElementKind::HTMLImageElement(_) => match e.get_attr(&src_name) {
                    Some(v) => {
                        let ghost sv = v@;
                        r.push(ImageSource { node: i, src: v });
                        assert(source_views(r@) =~= before.push((i, sv)));
                    },
                    None => {},
                },
                _ => {},
            },
            NodeKind::Text(_) => {},
        }
        i = i + 1;
    }
    r
}

} // verus!
