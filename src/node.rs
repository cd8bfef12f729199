//! The document: a flat arena of nodes addressed by index, each parent before its children.

use vstd::prelude::*;
use crate::element::ElementData;
use crate::values::{Length, SpecifiedStyle};

verus! {

#[derive(Clone, Debug)]
pub enum NodeKind {
    Element(ElementData),
    Text(String),
}

/// Dimensions of a node once resolved against its parent.
#[derive(Clone, Copy, Debug, PartialEq, Eq, Structural)]
pub struct Appearance {
    pub height: Length,
    pub width: Length,
}

/// Nodes by index: what each is, its parent, its specified style and its resolved appearance.
pub struct Document {
    pub kinds: Vec<NodeKind>,
    pub parents: Vec<Option<usize>>,
    pub styles: Vec<SpecifiedStyle>,
    pub appearances: Vec<Appearance>,
}

/// Every parent stands before its child.
pub open spec fn parents_first(parents: Seq<Option<usize>>) -> bool {
    forall|i: int|
        0 <= i < parents.len() && (#[trigger] parents[i]) is Some ==> (parents[i]->0 as int) < i
}

/// Nodes that are siblings: distinct, with the same parent.
pub open spec fn are_siblings(parents: Seq<Option<usize>>, a: int, b: int) -> bool {
    &&& 0 <= a < parents.len()
    &&& 0 <= b < parents.len()
    &&& a != b
    &&& parents[a] is Some
    &&& parents[a] == parents[b]
}

/// `a` is a strict ancestor of `n`.
pub open spec fn is_ancestor(parents: Seq<Option<usize>>, a: int, n: int) -> bool
    decreases n,
{
    if 0 <= n < parents.len() {
        match parents[n] {
            Some(p) => (p as int) < n && (a == p as int || is_ancestor(parents, a, p as int)),
            None => false,
        }
    } else {
        false
    }
}

/// An ancestor of an ancestor is an ancestor.
pub proof fn lemma_ancestor_parent(parents: Seq<Option<usize>>, c: int, n: int)
    requires
        is_ancestor(parents, c, n),
        0 <= c < parents.len(),
        parents[c] is Some,
        (parents[c]->0 as int) < c,
    ensures
        is_ancestor(parents, parents[c]->0 as int, n),
    decreases n,
{
    let p = parents[n]->0 as int;
    assert(is_ancestor(parents, parents[c]->0 as int, c));
    if c != p {
        lemma_ancestor_parent(parents, c, p);
    }
}

/// Ancestry is transitive.
pub proof fn lemma_ancestor_trans(parents: Seq<Option<usize>>, x: int, m: int, n: int)
    requires
        is_ancestor(parents, x, m),
        is_ancestor(parents, m, n),
    ensures
        is_ancestor(parents, x, n),
    decreases n,
{
    let p = parents[n]->0 as int;
    if m != p {
        lemma_ancestor_trans(parents, x, m, p);
    }
}

/// Siblings have the same ancestors.
pub proof fn lemma_sibling_ancestors(parents: Seq<Option<usize>>, m: int, n: int, x: int)
    requires
        parents_first(parents),
        are_siblings(parents, m, n),
    ensures
        is_ancestor(parents, x, m) == is_ancestor(parents, x, n),
{
    assert(parents[m] is Some);
    assert((parents[m]->0 as int) < m);
    assert((parents[n]->0 as int) < n);
}

/// The nodes that matching at `n` can look at: `n`, its ancestors, and the siblings of `n`
/// and of its ancestors.
pub open spec fn in_scope(parents: Seq<Option<usize>>, n: int, m: int) -> bool {
    ||| m == n
    ||| is_ancestor(parents, m, n)
    ||| exists|a: int| (a == n || is_ancestor(parents, a, n)) && #[trigger] are_siblings(parents, m, a)
}

/// What matching can look at from an ancestor is within what it can look at from `n`.
pub proof fn lemma_scope_of_ancestor(parents: Seq<Option<usize>>, m: int, n: int, x: int)
    requires
        is_ancestor(parents, m, n),
        in_scope(parents, m, x),
    ensures
        in_scope(parents, n, x),
{
    if x == m {
    } else if is_ancestor(parents, x, m) {
        lemma_ancestor_trans(parents, x, m, n);
    } else {
        let a = choose|a: int| (a == m || is_ancestor(parents, a, m)) && #[trigger] are_siblings(parents, x, a);
        if a != m {
            lemma_ancestor_trans(parents, a, m, n);
        }
        assert(is_ancestor(parents, a, n) && are_siblings(parents, x, a));
    }
}

/// What matching can look at from a sibling is within what it can look at from `n`.
pub proof fn lemma_scope_of_sibling(parents: Seq<Option<usize>>, m: int, n: int, x: int)
    requires
        parents_first(parents),
        are_siblings(parents, m, n),
        in_scope(parents, m, x),
    ensures
        in_scope(parents, n, x),
{
    lemma_sibling_ancestors(parents, m, n, x);
    if x == m {
        assert(are_siblings(parents, x, n));
    } else if is_ancestor(parents, x, m) {
    } else {
        let a = choose|a: int| (a == m || is_ancestor(parents, a, m)) && #[trigger] are_siblings(parents, x, a);
        if a == m {
            if x != n {
                assert(are_siblings(parents, x, n));
            }
        } else {
            lemma_sibling_ancestors(parents, m, n, a);
            assert(is_ancestor(parents, a, n) && are_siblings(parents, x, a));
        }
    }
}

/// What matching can look at from the parent is within what it can look at from `n`.
pub proof fn lemma_scope_of_parent(parents: Seq<Option<usize>>, n: int, x: int)
    requires
        parents_first(parents),
        0 <= n < parents.len(),
        parents[n] is Some,
        in_scope(parents, parents[n]->0 as int, x),
    ensures
        in_scope(parents, n, x),
{
    assert(is_ancestor(parents, parents[n]->0 as int, n));
    lemma_scope_of_ancestor(parents, parents[n]->0 as int, n, x);
}

impl Document {
    pub open spec fn wf(&self) -> bool {
        &&& parents_first(self.parents@)
        &&& self.kinds@.len() == self.parents@.len()
        &&& self.styles@.len() == self.parents@.len()
        &&& self.appearances@.len() == self.parents@.len()
    }

    /// An empty document.
    pub fn new() -> (r: Document)
        ensures
            r.wf(),
            r.parents@.len() == 0,
    {
        Document {
            kinds: Vec::new(),
            parents: Vec::new(),
            styles: Vec::new(),
            appearances: Vec::new(),
        }
    }

    /// Add a node without a parent; its style is initial and its dimensions automatic.
    pub fn new_node(&mut self, kind: NodeKind) -> (r: usize)
        requires
            old(self).wf(),
            old(self).parents@.len() < usize::MAX,
        ensures
            final(self).wf(),
            r == old(self).parents@.len(),
            final(self).kinds@ == old(self).kinds@.push(kind),
            final(self).parents@ == old(self).parents@.push(None),
            final(self).styles@ == old(self).styles@.push(SpecifiedStyle::initial()),
            final(self).appearances@ == old(self).appearances@.push(
                Appearance { height: Length::Auto, width: Length::Auto },
            ),
    {
        let r = self.parents.len();
        self.kinds.push(kind);
        self.parents.push(None);
        self.styles.push(SpecifiedStyle::new());
        self.appearances.push(Appearance { height: Length::Auto, width: Length::Auto });
        r
    }

    /// Make `child`, a node without a parent added after `parent`, a child of `parent`.
    pub fn add_child(&mut self, parent: usize, child: usize)
        requires
            old(self).wf(),
            parent < child < old(self).parents@.len(),
            old(self).parents@[child as int] is None,
        ensures
            final(self).wf(),
            final(self).kinds@ == old(self).kinds@,
            final(self).parents@ == old(self).parents@.update(child as int, Some(parent)),
            final(self).styles@ == old(self).styles@,
            final(self).appearances@ == old(self).appearances@,
    {
        self.parents.set(child, Some(parent));
    }
}

} // verus!
