//! Selector matching against document nodes, and the cascade of a stylesheet onto a node.

use vstd::prelude::*;
use crate::element::{find_attr, ElementData};
use crate::node::{
    are_siblings, in_scope, is_ancestor, lemma_ancestor_parent, lemma_ancestor_trans,
    lemma_scope_of_ancestor, lemma_scope_of_parent, lemma_scope_of_sibling, parents_first,
    Document, NodeKind,
};
use crate::values::{
    with_decl, with_decls, AttrMatch, Rule, Selector, SpecifiedStyle, StyleDeclaration,
};

verus! {

/// The tag name `*`.
pub open spec fn is_star(s: Seq<char>) -> bool {
    s.len() == 1 && s[0] == '*'
}

/// Space, tab or newline.
pub open spec fn ws_char(c: char) -> bool {
    c == ' ' || c == '\t' || c == '\n'
}

/// `s` holds a whitespace character.
pub open spec fn has_ws(s: Seq<char>) -> bool {
    exists|i: int| 0 <= i < s.len() && ws_char(#[trigger] s[i])
}

/// `w` is one of the whitespace-separated words of `v`.
pub open spec fn contains_word(v: Seq<char>, w: Seq<char>) -> bool {
    &&& !has_ws(w)
    &&& exists|i: int|
        0 <= i && i + w.len() <= v.len() && #[trigger] v.subrange(i, i + w.len()) == w && (i == 0
            || ws_char(v[i - 1])) && (i + w.len() == v.len() || ws_char(v[i + w.len()]))
}

/// `v` has no space, and is `w` or starts with `w` followed by `-`.
pub open spec fn lang_tag_match(v: Seq<char>, w: Seq<char>) -> bool {
    &&& !v.contains(' ')
    &&& (v == w || (v.len() > w.len() && v.subrange(0, w.len() as int) == w && v[w.len() as int]
        == '-'))
}

/// A constraint holds of an element's attributes.
pub open spec fn attr_holds(attr: AttrMatch, e: ElementData) -> bool {
    match attr {
        AttrMatch::Exists(name) => find_attr(e.attrs@, name@) is Some,
        AttrMatch::Exact(name, val) => find_attr(e.attrs@, name@) == Some(val@),
        AttrMatch::Includes(name, val) => val@.len() > 0 && find_attr(e.attrs@, name@) is Some
            && contains_word(find_attr(e.attrs@, name@)->0, val@),
        AttrMatch::StartsWith(name, val) => find_attr(e.attrs@, name@) is Some && lang_tag_match(
            find_attr(e.attrs@, name@)->0,
            val@,
        ),
    }
}

/// Node `n` is an element with tag `tag` (any tag for `*`) that meets every constraint.
pub open spec fn element_matches(
    kinds: Seq<NodeKind>,
    n: int,
    tag: Seq<char>,
    attrs: Seq<AttrMatch>,
) -> bool {
    &&& 0 <= n < kinds.len()
    &&& kinds[n] is Element
    &&& (is_star(tag) || tag == kinds[n]->Element_0.tag_name@)
    &&& forall|i: int| 0 <= i < attrs.len() ==> attr_holds(#[trigger] attrs[i], kinds[n]->Element_0)
}

/// Node `n` of the document is selected by `sel`.
pub open spec fn matches(kinds: Seq<NodeKind>, parents: Seq<Option<usize>>, n: int, sel: Selector) -> bool
    decreases sel,
{
    match sel {
        Selector::Element(tag, attrs) => element_matches(kinds, n, tag@, attrs@),
        Selector::Child(a, b) => {
            &&& matches(kinds, parents, n, *b)
            &&& 0 <= n < parents.len()
            &&& parents[n] is Some
            &&& matches(kinds, parents, parents[n]->0 as int, *a)
        },
        Selector::Descendant(a, b) => {
            &&& matches(kinds, parents, n, *b)
            &&& exists|m: int| #[trigger] is_ancestor(parents, m, n) && matches(kinds, parents, m, *a)
        },
        Selector::Sibling(a, b) => {
            &&& matches(kinds, parents, n, *b)
            &&& exists|m: int| #[trigger] are_siblings(parents, m, n) && matches(kinds, parents, m, *a)
        },
    }
}

/// The universal selector without constraints selects every element node.
pub proof fn lemma_universal_matches(
    kinds: Seq<NodeKind>,
    parents: Seq<Option<usize>>,
    n: int,
    tag: String,
    attrs: Vec<AttrMatch>,
)
    requires
        0 <= n < kinds.len(),
        kinds[n] is Element,
        is_star(tag@),
        attrs@.len() == 0,
    ensures
        matches(kinds, parents, n, Selector::Element(tag, attrs)),
{
}

/// Node `y` is in both documents, with the same parent, and is an element in both or in
/// neither; an element with the same tag name and attributes.
pub open spec fn same_at(
    k1: Seq<NodeKind>,
    p1: Seq<Option<usize>>,
    k2: Seq<NodeKind>,
    p2: Seq<Option<usize>>,
    y: int,
) -> bool {
    &&& 0 <= y < k1.len()
    &&& 0 <= y < k2.len()
    &&& y < p1.len()
    &&& y < p2.len()
    &&& p1[y] == p2[y]
    &&& (k1[y] is Element <==> k2[y] is Element)
    &&& (k1[y] is Element ==> k1[y]->Element_0.tag_name@ == k2[y]->Element_0.tag_name@
        && k1[y]->Element_0.attrs@ == k2[y]->Element_0.attrs@)
}

/// The two documents agree on every node that matching at `n` can look at in either.
pub open spec fn agree_around(
    k1: Seq<NodeKind>,
    p1: Seq<Option<usize>>,
    k2: Seq<NodeKind>,
    p2: Seq<Option<usize>>,
    n: int,
) -> bool {
    forall|y: int|
        (in_scope(p1, n, y) || in_scope(p2, n, y)) ==> #[trigger] same_at(k1, p1, k2, p2, y)
}

/// Where two parent lists agree on `n` and its ancestors in the first, those are its
/// ancestors in the second too.
proof fn lemma_ancestor_transfer(pa: Seq<Option<usize>>, pb: Seq<Option<usize>>, n: int, x: int)
    requires
        0 <= n < pa.len(),
        n < pb.len(),
        pa[n] == pb[n],
        forall|y: int|
            #[trigger] is_ancestor(pa, y, n) ==> 0 <= y < pa.len() && y < pb.len() && pa[y] == pb[y],
        is_ancestor(pa, x, n),
    ensures
        is_ancestor(pb, x, n),
    decreases n,
{
    let q = pa[n]->0 as int;
    assert(pa[n] == pb[n]);
    if x != q {
        assert(is_ancestor(pa, q, n));
        assert forall|y: int| #[trigger] is_ancestor(pa, y, q) implies 0 <= y < pa.len() && y
            < pb.len() && pa[y] == pb[y] by {
            lemma_ancestor_trans(pa, y, q, n);
        }
        lemma_ancestor_transfer(pa, pb, q, x);
    }
}

/// Agreement around `n` carries over to a node whose scope lies within that of `n` in both
/// documents.
proof fn lemma_agree_within(
    k1: Seq<NodeKind>,
    p1: Seq<Option<usize>>,
    k2: Seq<NodeKind>,
    p2: Seq<Option<usize>>,
    n: int,
    m: int,
)
    requires
        agree_around(k1, p1, k2, p2, n),
        forall|y: int| in_scope(p1, m, y) ==> in_scope(p1, n, y),
        forall|y: int| in_scope(p2, m, y) ==> in_scope(p2, n, y),
    ensures
        agree_around(k1, p1, k2, p2, m),
{
    assert forall|y: int| (in_scope(p1, m, y) || in_scope(p2, m, y)) implies #[trigger] same_at(
        k1,
        p1,
        k2,
        p2,
        y,
    ) by {
        if in_scope(p1, m, y) {
            assert(in_scope(p1, n, y));
        } else {
            assert(in_scope(p2, n, y));
        }
    }
}

/// Matching depends only on what it can look at: where two documents agree on whether each
/// node reachable from `n` through parent and sibling links is an element, on its tag name,
/// its attributes and its parent, a selector gives the same answer at `n` in both. Children,
/// styles, element kinds and every other node may differ.
pub proof fn lemma_matches_structural(
    k1: Seq<NodeKind>,
    p1: Seq<Option<usize>>,
    k2: Seq<NodeKind>,
    p2: Seq<Option<usize>>,
    n: int,
    sel: Selector,
)
    requires
        k1.len() == p1.len(),
        k2.len() == p2.len(),
        parents_first(p1),
        parents_first(p2),
        agree_around(k1, p1, k2, p2, n),
    ensures
        matches(k1, p1, n, sel) == matches(k2, p2, n, sel),
    decreases sel,
{
    assert(in_scope(p1, n, n));
    assert(same_at(k1, p1, k2, p2, n));
    assert forall|y: int| #[trigger] is_ancestor(p1, y, n) implies 0 <= y < p1.len() && y
        < p2.len() && p1[y] == p2[y] by {
        assert(in_scope(p1, n, y));
        assert(same_at(k1, p1, k2, p2, y));
    }
    assert forall|y: int| #[trigger] is_ancestor(p2, y, n) implies 0 <= y < p2.len() && y
        < p1.len() && p2[y] == p1[y] by {
        assert(in_scope(p2, n, y));
        assert(same_at(k1, p1, k2, p2, y));
    }
    match sel {
        Selector::Element(tag, attrs) => {
            if k1[n] is Element {
                let e1 = k1[n]->Element_0;
                let e2 = k2[n]->Element_0;
                assert(forall|i: int|
                    0 <= i < attrs@.len() ==> attr_holds(#[trigger] attrs@[i], e1) == attr_holds(
                        attrs@[i],
                        e2,
                    ));
            }
        },
        Selector::Child(a, b) => {
            lemma_matches_structural(k1, p1, k2, p2, n, *b);
            if p1[n] is Some {
                let q = p1[n]->0 as int;
                assert forall|y: int| in_scope(p1, q, y) implies in_scope(p1, n, y) by {
                    lemma_scope_of_parent(p1, n, y);
                }
                assert forall|y: int| in_scope(p2, q, y) implies in_scope(p2, n, y) by {
                    lemma_scope_of_parent(p2, n, y);
                }
                lemma_agree_within(k1, p1, k2, p2, n, q);
                lemma_matches_structural(k1, p1, k2, p2, q, *a);
            }
        },
        Selector::Descendant(a, b) => {
            lemma_matches_structural(k1, p1, k2, p2, n, *b);
            assert forall|m: int| #[trigger] is_ancestor(p1, m, n) implies is_ancestor(p2, m, n)
                && matches(k1, p1, m, *a) == matches(k2, p2, m, *a) by {
                lemma_ancestor_transfer(p1, p2, n, m);
                assert forall|y: int| in_scope(p1, m, y) implies in_scope(p1, n, y) by {
                    lemma_scope_of_ancestor(p1, m, n, y);
                }
                assert forall|y: int| in_scope(p2, m, y) implies in_scope(p2, n, y) by {
                    lemma_scope_of_ancestor(p2, m, n, y);
                }
                lemma_agree_within(k1, p1, k2, p2, n, m);
                lemma_matches_structural(k1, p1, k2, p2, m, *a);
            }
            assert forall|m: int| #[trigger] is_ancestor(p2, m, n) implies is_ancestor(p1, m, n) by {
                lemma_ancestor_transfer(p2, p1, n, m);
            }
        },
        Selector::Sibling(a, b) => {
            lemma_matches_structural(k1, p1, k2, p2, n, *b);
            assert forall|m: int| #[trigger] are_siblings(p1, m, n) implies are_siblings(p2, m, n)
                && matches(k1, p1, m, *a) == matches(k2, p2, m, *a) by {
                assert(in_scope(p1, n, m));
                assert(same_at(k1, p1, k2, p2, m));
                assert forall|y: int| in_scope(p1, m, y) implies in_scope(p1, n, y) by {
                    lemma_scope_of_sibling(p1, m, n, y);
                }
                assert forall|y: int| in_scope(p2, m, y) implies in_scope(p2, n, y) by {
                    lemma_scope_of_sibling(p2, m, n, y);
                }
                lemma_agree_within(k1, p1, k2, p2, n, m);
                lemma_matches_structural(k1, p1, k2, p2, m, *a);
            }
            assert forall|m: int| #[trigger] are_siblings(p2, m, n) implies are_siblings(p1, m, n) by {
                assert(in_scope(p2, n, m));
                assert(same_at(k1, p1, k2, p2, m));
            }
        },
    }
}

/// The `len` characters of `v` from `start` are those of `w`.
fn equal_at(v: &String, start: usize, w: &String) -> (r: bool)
    requires
        start + w@.len() <= v@.len(),
    ensures
        r == (v@.subrange(start as int, start + w@.len()) == w@),
{
    let vs = v.as_str();
    let ws = w.as_str();
    let n = ws.unicode_len();
    let _vl = vs.unicode_len();
    let mut k: usize = 0;
    while k < n
        invariant
            vs@ == v@,
            ws@ == w@,
            n == w@.len(),
            start + n <= v@.len(),
            v@.len() <= usize::MAX,
            k <= n,
            forall|j: int| 0 <= j < k ==> v@[start + j] == w@[j],
        decreases n - k,
    {
        if vs.get_char(start + k) != ws.get_char(k) {
            assert(v@.subrange(start as int, start + w@.len())[k as int] != w@[k as int]);
            return false;
        }
        k = k + 1;
    }
    assert(v@.subrange(start as int, start + w@.len()) =~= w@);
    true
}

/// Whether `s` holds a space.
fn has_space(s: &String) -> (r: bool)
    ensures
        r == s@.contains(' '),
{
    let ss = s.as_str();
    let n = ss.unicode_len();
    let mut k: usize = 0;
    while k < n
        invariant
            ss@ == s@,
            n == s@.len(),
            k <= n,
            forall|j: int| 0 <= j < k ==> s@[j] != ' ',
        decreases n - k,
    {
        if ss.get_char(k) == ' ' {
            assert(s@[k as int] == ' ');
            return true;
        }
        k = k + 1;
    }
    false
}

/// Whether `s` holds a whitespace character.
fn has_whitespace(s: &String) -> (r: bool)
    ensures
        r == has_ws(s@),
{
    let ss = s.as_str();
    let n = ss.unicode_len();
    let mut k: usize = 0;
    while k < n
        invariant
            ss@ == s@,
            n == s@.len(),
            k <= n,
            forall|j: int| 0 <= j < k ==> !ws_char(#[trigger] s@[j]),
        decreases n - k,
    {
        let c = ss.get_char(k);
        if c == ' ' || c == '\t' || c == '\n' {
            assert(ws_char(s@[k as int]));
            return true;
        }
        k = k + 1;
    }
    false
}

fn is_ws_char(c: char) -> (r: bool)
    ensures
        r == ws_char(c),
{
    c == ' ' || c == '\t' || c == '\n'
}

/// Whether `w` is one of the whitespace-separated words of `v`.
fn includes_word(v: &String, w: &String) -> (r: bool)
    requires
        w@.len() > 0,
    ensures
        r == contains_word(v@, w@),
{
    if has_whitespace(w) {
        return false;
    }
    let vs = v.as_str();
    let vl = vs.unicode_len();
    let wl = w.as_str().unicode_len();
    if wl > vl {
        return false;
    }
    let mut i: usize = 0;
    while i <= vl - wl
        invariant
            vs@ == v@,
            vl == v@.len(),
            wl == w@.len(),
            wl > 0,
            wl <= vl,
            i <= vl - wl + 1,
            !has_ws(w@),
            forall|j: int|
                0 <= j < i ==> !(#[trigger] v@.subrange(j, j + w@.len()) == w@ && (j == 0
                    || ws_char(v@[j - 1])) && (j + w@.len() == v@.len() || ws_char(
                    v@[j + w@.len()],
                ))),
        decreases vl - wl + 1 - i,
    {
        let before = i == 0 || is_ws_char(vs.get_char(i - 1));
        let after = i + wl == vl || is_ws_char(vs.get_char(i + wl));
        if before && after && equal_at(v, i, w) {
            return true;
        }
        i = i + 1;
    }
    false
}

/// Whether `v` has no space and is `w`, or starts with `w` and `-`.
fn starts_with_lang(v: &String, w: &String) -> (r: bool)
    ensures
        r == lang_tag_match(v@, w@),
{
    if has_space(v) {
        return false;
    }
    if *v == *w {
        return true;
    }
    let vl = v.as_str().unicode_len();
    let wl = w.as_str().unicode_len();
    if vl <= wl {
        return false;
    }
    equal_at(v, 0, w) && v.as_str().get_char(wl) == '-'
}

/// Whether a constraint holds of the element's attributes.
pub fn attrs_match(attr: &AttrMatch, elmt: &ElementData) -> (r: bool)
    ensures
        r == attr_holds(*attr, *elmt),
{
    match attr {
        AttrMatch::Exists(name) => elmt.get_attr(name).is_some(),
        AttrMatch::Exact(name, val) => match elmt.get_attr(name) {
            Some(value) => value == *val,
            None => false,
        },
        AttrMatch::Includes(name, val) => {
            if val.as_str().unicode_len() == 0 {
                return false;
            }
            match elmt.get_attr(name) {
                Some(value) => includes_word(&value, val),
                None => false,
            }
        },
        AttrMatch::StartsWith(name, val) => match elmt.get_attr(name) {
            Some(value) => starts_with_lang(&value, val),
            None => false,
        },
    }
}

impl Document {
    /// Whether node `n` is an element with this tag (or `*`) whose attributes meet every constraint.
    pub fn matches_element(&self, n: usize, tag: &String, attrs: &Vec<AttrMatch>) -> (r: bool)
        requires
            self.wf(),
            n < self.kinds@.len(),
        ensures
            r == element_matches(self.kinds@, n as int, tag@, attrs@),
    {
        match &self.kinds[n] {
            NodeKind::Element(elmt) => {
                let star = tag.as_str().unicode_len() == 1 && tag.as_str().get_char(0) == '*';
                if !(star || *tag == elmt.tag_name) {
                    return false;
                }
                let mut i: usize = 0;
                while i < attrs.len()
                    invariant
                        n < self.kinds@.len(),
                        i <= attrs@.len(),
                        self.kinds@[n as int] == NodeKind::Element(*elmt),
                        forall|j: int| 0 <= j < i ==> attr_holds(#[trigger] attrs@[j], *elmt),
                    decreases attrs@.len() - i,
                {
                    if !attrs_match(&attrs[i], elmt) {
                        assert(!attr_holds(attrs@[i as int], self.kinds@[n as int]->Element_0));
                        return false;
                    }
                    i = i + 1;
                }
                true
            },
            NodeKind::Text(_) => false,
        }
    }

    /// Whether node `n` is selected by `sel`.
    #[verifier::loop_isolation(false)]
    pub fn matches_selector(&self, n: usize, sel: &Selector) -> (r: bool)
        requires
            self.wf(),
            n < self.kinds@.len(),
        ensures
            r == matches(self.kinds@, self.parents@, n as int, *sel),
        decreases sel,
    {
        match sel {
            Selector::Element(tag, attrs) => self.matches_element(n, tag, attrs),
            Selector::Child(a, b) => {
                match self.parents[n] {
                    Some(p) => self.matches_selector(n, b) && self.matches_selector(p, a),
                    None => false,
                }
            },
            Selector::Descendant(a, b) => {
                if !self.matches_selector(n, b) {
                    return false;
                }
                let mut cur = match self.parents[n] {
                    Some(p) => p,
                    None => {
                        return false;
                    },
                };
                loop
                    invariant
                        self.wf(),
                        n < self.kinds@.len(),
                        cur < n,
                        is_ancestor(self.parents@, cur as int, n as int),
                        forall|m: int|
                            is_ancestor(self.parents@, m, n as int) && #[trigger] matches(self.kinds@, self.parents@, m, **a) ==> m == cur || is_ancestor(self.parents@, m, cur as int),
                    decreases cur,
                {
                    if self.matches_selector(cur, a) {
                        assert(is_ancestor(self.parents@, cur as int, n as int) && matches(
                            self.kinds@,
                            self.parents@,
                            cur as int,
                            **a,
                        ));
                        return true;
                    }
                    match self.parents[cur] {
                        Some(p) => {
                            proof {
                                lemma_ancestor_parent(self.parents@, cur as int, n as int);
                            }
                            cur = p;
                        },
                        None => {
                            proof {
                                assert forall|m: int|
                                    !(#[trigger] is_ancestor(self.parents@, m, n as int) && matches(
                                        self.kinds@,
                                        self.parents@,
                                        m,
                                        **a,
                                    )) by {
                                    if is_ancestor(self.parents@, m, n as int) && matches(
                                        self.kinds@,
                                        self.parents@,
                                        m,
                                        **a,
                                    ) {
                                        assert(m == cur || is_ancestor(self.parents@, m, cur as int));
                                        assert(!is_ancestor(self.parents@, m, cur as int));
                                    }
                                }
                            }
                            return false;
                        },
                    }
                }
            },
            Selector::Sibling(a, b) => {
                if !self.matches_selector(n, b) {
                    return false;
                }
                let parent = self.parents[n];
                let p = match parent {
                    Some(p) => p,
                    None => {
                        return false;
                    },
                };
                let mut m: usize = 0;
                while m < self.parents.len()
                    invariant
                        self.wf(),
                        n < self.kinds@.len(),
                        self.parents@[n as int] == Some(p),
                        m <= self.parents@.len(),
                        forall|k: int|
                            0 <= k < m && are_siblings(self.parents@, k, n as int) ==> !matches(self.kinds@, self.parents@, k, **a),
                    decreases self.parents@.len() - m,
                {
                    let same = match self.parents[m] {
                        Some(q) => q == p,
                        None => false,
                    };
                    if m != n && same && self.matches_selector(m, a) {
                        assert(are_siblings(self.parents@, m as int, n as int));
                        return true;
                    }
                    m = m + 1;
                }
                false
            },
        }
    }
}

/// Some selector of the rule selects node `n`.
pub open spec fn rule_applies(kinds: Seq<NodeKind>, parents: Seq<Option<usize>>, n: int, rule: Rule) -> bool {
    exists|i: int| 0 <= i < rule.selectors@.len() && #[trigger] matches(kinds, parents, n, rule.selectors@[i])
}

/// The style of node `n` after each rule that selects it applies its declarations, in order.
pub open spec fn cascade(
    s: SpecifiedStyle,
    kinds: Seq<NodeKind>,
    parents: Seq<Option<usize>>,
    n: int,
    rules: Seq<Rule>,
) -> SpecifiedStyle
    decreases rules.len(),
{
    if rules.len() == 0 {
        s
    } else {
        let t = cascade(s, kinds, parents, n, rules.drop_last());
        if rule_applies(kinds, parents, n, rules.last()) {
            with_decls(t, rules.last().declarations@)
        } else {
            t
        }
    }
}

impl SpecifiedStyle {
    /// Overwrite the property that the declaration sets.
    pub fn update_style(&mut self, decl: StyleDeclaration)
        ensures
            *final(self) == with_decl(*old(self), decl),
    {
        match decl {
            StyleDeclaration::BackgroundColor(col) => self.background_color = Some(col),
            StyleDeclaration::Display(dis) => self.display_type = Some(dis),
            StyleDeclaration::FontSize(size) => self.font_size = Some(size),
            StyleDeclaration::Height(size) => self.height = Some(size),
            StyleDeclaration::Color(col) => self.text_color = Some(col),
            StyleDeclaration::Width(size) => self.width = Some(size),
            StyleDeclaration::BorderColor(col) => self.border_color = Some(col),
            StyleDeclaration::BorderWidth(size) => self.border_width = Some(size),
            StyleDeclaration::Position(pos) => self.position = Some(pos),
            StyleDeclaration::Top(pos) => self.top = Some(pos),
            StyleDeclaration::Right(pos) => self.right = Some(pos),
            StyleDeclaration::Bottom(pos) => self.bottom = Some(pos),
            StyleDeclaration::Left(pos) => self.left = Some(pos),
        }
    }
}

impl Document {
    /// Apply to node `n` the declarations of every rule that selects it, in rule order.
    pub fn match_css_style(&mut self, n: usize, styles: &Vec<Rule>)
        requires
            old(self).wf(),
            n < old(self).kinds@.len(),
        ensures
            final(self).wf(),
            final(self).kinds@ == old(self).kinds@,
            final(self).parents@ == old(self).parents@,
            final(self).appearances@ == old(self).appearances@,
            final(self).styles@ == old(self).styles@.update(
                n as int,
                cascade(
                    old(self).styles@[n as int],
                    old(self).kinds@,
                    old(self).parents@,
                    n as int,
                    styles@,
                ),
            ),
    {
        let ghost start = *self;
        let mut style = self.styles[n];
        let mut r: usize = 0;
        while r < styles.len()
            invariant
                self.wf(),
                n < self.kinds@.len(),
                self.kinds@ == start.kinds@,
                self.parents@ == start.parents@,
                self.styles@ == start.styles@,
                self.appearances@ == start.appearances@,
                r <= styles@.len(),
                style == cascade(
                    start.styles@[n as int],
                    start.kinds@,
                    start.parents@,
                    n as int,
                    styles@.take(r as int),
                ),
            decreases styles@.len() - r,
        {
            let rule = &styles[r];
            let mut applies = false;
            let mut i: usize = 0;
            while i < rule.selectors.len() && !applies
                invariant
                    self.wf(),
                    n < self.kinds@.len(),
                    self.kinds@ == start.kinds@,
                    self.parents@ == start.parents@,
                    i <= rule.selectors@.len(),
                    applies == exists|j: int|
                        0 <= j < i && #[trigger] matches(start.kinds@, start.parents@, n as int, rule.selectors@[j]),
                decreases rule.selectors@.len() - i,
            {
                if self.matches_selector(n, &rule.selectors[i]) {
                    applies = true;
                }
                i = i + 1;
            }
            assert(applies == rule_applies(start.kinds@, start.parents@, n as int, styles@[r as int]));
            assert(styles@.take(r + 1).last() == styles@[r as int]);
            let ghost before = style;
            if applies {
                let mut k: usize = 0;
                while k < rule.declarations.len()
                    invariant
                        k <= rule.declarations@.len(),
                        style == with_decls(before, rule.declarations@.take(k as int)),
                    decreases rule.declarations@.len() - k,
                {
                    style.update_style(rule.declarations[k]);
                    assert(rule.declarations@.take(k + 1).drop_last() =~= rule.declarations@.take(
                        k as int,
                    ));
                    k = k + 1;
                }
                assert(rule.declarations@.take(k as int) =~= rule.declarations@);
            }
            assert(styles@.take(r + 1).drop_last() =~= styles@.take(r as int));
            r = r + 1;
        }
        assert(styles@.take(r as int) =~= styles@);
        self.styles.set(n, style);
    }
}

} // verus!
