//! The rule builder: turns the lexer's tokens into a stylesheet.
//!
//! ```text
//! stylesheet    := rule* Eof
//! rule          := selector-list StartDescription Description* EndDescription
//! selector-list := selector (Comma selector)*
//! selector      := simple (combinator simple)*      (left-associative)
//! simple        := Element Attr*
//! ```

use vstd::prelude::*;
use crate::declaration::{decl_of, parse_declaration};
use crate::lexer::{lex_chunks, lex_css_from_bytes, token_views, AttrView, Token, TokenView};
use crate::lexer_util::{chunk_views, LexError};
use crate::values::{AttrMatch, Rule, Selector, StyleDeclaration};

verus! {

/// What a selector says, as character sequences.
pub enum SelView {
    Element(Seq<char>, Seq<AttrView>),
    Child(Box<SelView>, Box<SelView>),
    Descendant(Box<SelView>, Box<SelView>),
    Sibling(Box<SelView>, Box<SelView>),
}

pub open spec fn sel_view(s: Selector) -> SelView
    decreases s,
{
    match s {
        Selector::Element(t, a) => SelView::Element(t@, a@.map_values(|x: AttrMatch| x@)),
        Selector::Child(a, b) => SelView::Child(Box::new(sel_view(*a)), Box::new(sel_view(*b))),
        Selector::Descendant(a, b) => SelView::Descendant(
            Box::new(sel_view(*a)),
            Box::new(sel_view(*b)),
        ),
        Selector::Sibling(a, b) => SelView::Sibling(Box::new(sel_view(*a)), Box::new(sel_view(*b))),
    }
}

/// What a rule says.
pub struct RuleView {
    pub selectors: Seq<SelView>,
    pub declarations: Seq<StyleDeclaration>,
}

pub open spec fn rule_view(r: Rule) -> RuleView {
    RuleView {
        selectors: r.selectors@.map_values(|s: Selector| sel_view(s)),
        declarations: r.declarations@,
    }
}

/// Number of attribute tokens from position `i`.
pub open spec fn attr_run(ts: Seq<TokenView>, i: int) -> nat
    decreases ts.len() - i,
{
    if 0 <= i < ts.len() && ts[i] is Attr {
        1 + attr_run(ts, i + 1)
    } else {
        0
    }
}

/// The `n` attribute constraints from position `i`.
pub open spec fn attr_views(ts: Seq<TokenView>, i: int, n: nat) -> Seq<AttrView> {
    Seq::new(n, |k: int| ts[i + k]->Attr_0)
}

/// A simple selector at `i` and the position after it.
pub open spec fn simple_at(ts: Seq<TokenView>, i: int) -> Option<(SelView, int)> {
    if 0 <= i < ts.len() && ts[i] is Element {
        let n = attr_run(ts, i + 1);
        Some((SelView::Element(ts[i]->Element_0, attr_views(ts, i + 1, n)), i + 1 + n))
    } else {
        None
    }
}

pub open spec fn is_combinator(t: TokenView) -> bool {
    t is Descendant || t is Child || t is Sibling
}

pub open spec fn combine(t: TokenView, a: SelView, b: SelView) -> SelView {
    match t {
        TokenView::Child => SelView::Child(Box::new(a), Box::new(b)),
        TokenView::Sibling => SelView::Sibling(Box::new(a), Box::new(b)),
        _ => SelView::Descendant(Box::new(a), Box::new(b)),
    }
}

/// The selector `acc` extended by the combinators and simple selectors from `i`.
pub open spec fn selector_rest(ts: Seq<TokenView>, i: int, acc: SelView) -> Option<(SelView, int)>
    decreases ts.len() - i,
{
    if 0 <= i < ts.len() && is_combinator(ts[i]) {
        match simple_at(ts, i + 1) {
            Some((s, j)) => if i < j <= ts.len() {
                selector_rest(ts, j, combine(ts[i], acc, s))
            } else {
                None
            },
            None => None,
        }
    } else {
        Some((acc, i))
    }
}

/// A selector at `i` and the position after it.
pub open spec fn selector_at(ts: Seq<TokenView>, i: int) -> Option<(SelView, int)> {
    match simple_at(ts, i) {
        Some((s, j)) => selector_rest(ts, j, s),
        None => None,
    }
}

/// The selectors `acc` followed by the comma-separated selectors from `i`.
pub open spec fn selector_list(ts: Seq<TokenView>, i: int, acc: Seq<SelView>) -> Option<
    (Seq<SelView>, int),
>
    decreases ts.len() - i,
{
    match selector_at(ts, i) {
        Some((s, j)) => if 0 <= j < ts.len() && ts[j] is Comma && j >= i {
            selector_list(ts, j + 1, acc.push(s))
        } else {
            Some((acc.push(s), j))
        },
        None => None,
    }
}

/// Number of declaration tokens from position `i`.
pub open spec fn decl_run(ts: Seq<TokenView>, i: int) -> nat
    decreases ts.len() - i,
{
    if 0 <= i < ts.len() && ts[i] is Description {
        1 + decl_run(ts, i + 1)
    } else {
        0
    }
}

/// The typed declarations of the `n` declaration tokens from `i`; unusable ones are dropped.
pub open spec fn typed_decls(ts: Seq<TokenView>, i: int, n: nat) -> Seq<StyleDeclaration>
    decreases n,
{
    if n == 0 {
        Seq::empty()
    } else {
        let prev = typed_decls(ts, i, (n - 1) as nat);
        let t = ts[i + n - 1];
        match decl_of(t->Description_0, t->Description_1) {
            Some(d) => prev.push(d),
            None => prev,
        }
    }
}

/// A rule at `i` and the position after it.
pub open spec fn rule_at(ts: Seq<TokenView>, i: int) -> Option<(RuleView, int)> {
    match selector_list(ts, i, Seq::empty()) {
        Some((sels, j)) => if 0 <= j < ts.len() && ts[j] is StartDescription {
            let n = decl_run(ts, j + 1);
            let e = j + 1 + n;
            if e < ts.len() && ts[e] is EndDescription {
                Some((RuleView { selectors: sels, declarations: typed_decls(ts, j + 1, n) }, e + 1))
            } else {
                None
            }
        } else {
            None
        },
        None => None,
    }
}

/// The rules `acc` followed by those from `i` up to `Eof` or the end; `None` when the tokens
/// do not follow the grammar.
pub open spec fn sheet_from(ts: Seq<TokenView>, i: int, acc: Seq<RuleView>) -> Option<
    Seq<RuleView>,
>
    decreases ts.len() - i,
{
    if i < 0 || i >= ts.len() || ts[i] is Eof {
        Some(acc)
    } else {
        match rule_at(ts, i) {
            Some((r, j)) => if i < j <= ts.len() {
                sheet_from(ts, j, acc.push(r))
            } else {
                None
            },
            None => None,
        }
    }
}

/// Why a token sequence is not a stylesheet.
#[derive(Clone, Copy, Debug, PartialEq, Eq)]
pub enum ParseError {
    /// A token where the grammar allows none of its kind, at this position.
    UnexpectedToken(usize),
}

fn copy_attr(a: &AttrMatch) -> (r: AttrMatch)
    ensures
        r@ == a@,
{
    match a {
        AttrMatch::Exists(n) => AttrMatch::Exists(n.clone()),
        AttrMatch::Exact(n, v) => AttrMatch::Exact(n.clone(), v.clone()),
        AttrMatch::Includes(n, v) => AttrMatch::Includes(n.clone(), v.clone()),
        AttrMatch::StartsWith(n, v) => AttrMatch::StartsWith(n.clone(), v.clone()),
    }
}

/// The views of a sequence of rules.
pub open spec fn rule_views(rs: Seq<Rule>) -> Seq<RuleView> {
    rs.map_values(|r: Rule| rule_view(r))
}

/// The views of a sequence of selectors.
pub open spec fn sel_views(ss: Seq<Selector>) -> Seq<SelView> {
    ss.map_values(|s: Selector| sel_view(s))
}

/// A simple selector at `i`: an element token and the attribute tokens after it.
fn parse_simple(ts: &Vec<Token>, i: usize) -> (r: Option<(Selector, usize)>)
    ensures
        match (r, simple_at(token_views(ts@), i as int)) {
            (Some((sel, j)), Some((sv, k))) => sel_view(sel) == sv && j == k && j <= ts@.len(),
            (None, None) => true,
            _ => false,
        },
{
    let ghost tv = token_views(ts@);
    if i >= ts.len() {
        return None;
    }
    let tag = match &ts[i] {
        Token::Element(name) => name.clone(),
        _ => {
            return None;
        },
    };
    let mut attrs: Vec<AttrMatch> = Vec::new();
    let mut k: usize = i + 1;
    loop
        invariant
            tv == token_views(ts@),
            i < k <= ts@.len(),
            attrs@.len() == k - i - 1,
            attr_run(tv, i + 1) == (k - i - 1) + attr_run(tv, k as int),
            forall|q: int| 0 <= q < attrs@.len() ==> (#[trigger] attrs@[q])@ == tv[i + 1 + q]->Attr_0,
        ensures
            i < k <= ts@.len(),
            attrs@.len() == k - i - 1,
            attr_run(tv, i + 1) == (k - i - 1) + attr_run(tv, k as int),
            forall|q: int| 0 <= q < attrs@.len() ==> (#[trigger] attrs@[q])@ == tv[i + 1 + q]->Attr_0,
            attr_run(tv, k as int) == 0,
        decreases ts@.len() - k,
    {
        if k >= ts.len() {
            break;
        }
        assert(tv[k as int] == ts@[k as int]@);
        match &ts[k] {
            Token::Attr(a) => {
                let c = copy_attr(a);
                attrs.push(c);
            },
            _ => {
                break;
            },
        }
        k = k + 1;
    }
    let ghost n = attr_run(tv, i + 1);
    assert(attr_run(tv, k as int) == 0);
    assert(attrs@.map_values(|x: AttrMatch| x@) =~= attr_views(tv, i + 1, n));
    Some((Selector::Element(tag, attrs), k))
}

/// A selector at `i`: simple selectors joined by combinators, grouped to the left.
fn parse_selector(ts: &Vec<Token>, i: usize) -> (r: Option<(Selector, usize)>)
    ensures
        match (r, selector_at(token_views(ts@), i as int)) {
            (Some((sel, j)), Some((sv, k))) => sel_view(sel) == sv && j == k && i < j <= ts@.len(),
            (None, None) => true,
            _ => false,
        },
{
    let ghost tv = token_views(ts@);
    let (mut acc, mut pos) = match parse_simple(ts, i) {
        Some(p) => p,
        None => {
            return None;
        },
    };
    loop
        invariant
            tv == token_views(ts@),
            i < pos <= ts@.len(),
            selector_at(tv, i as int) == selector_rest(tv, pos as int, sel_view(acc)),
        decreases ts@.len() - pos,
    {
        if pos >= ts.len() {
            return Some((acc, pos));
        }
        let kind: u8 = match &ts[pos] {
            Token::Descendant => 0,
            Token::Child => 1,
            Token::Sibling => 2,
            _ => {
                return Some((acc, pos));
            },
        };
        let (s, j) = match parse_simple(ts, pos + 1) {
            Some(p) => p,
            None => {
                return None;
            },
        };
        acc = if kind == 1 {
            Selector::Child(Box::new(acc), Box::new(s))
        } else if kind == 2 {
            Selector::Sibling(Box::new(acc), Box::new(s))
        } else {
            Selector::Descendant(Box::new(acc), Box::new(s))
        };
        pos = j;
    }
}

/// Selectors at `i` separated by commas.
fn parse_selector_list(ts: &Vec<Token>, i: usize) -> (r: Option<(Vec<Selector>, usize)>)
    ensures
        match (r, selector_list(token_views(ts@), i as int, Seq::empty())) {
            (Some((sels, j)), Some((svs, k))) => sel_views(sels@) == svs && j == k && j
                <= ts@.len(),
            (None, None) => true,
            _ => false,
        },
{
    let ghost tv = token_views(ts@);
    if i >= ts.len() {
        return None;
    }
    let mut acc: Vec<Selector> = Vec::new();
    let mut pos = i;
    assert(sel_views(acc@) =~= Seq::<SelView>::empty());
    loop
        invariant
            tv == token_views(ts@),
            pos <= ts@.len(),
            selector_list(tv, i as int, Seq::empty()) == selector_list(
                tv,
                pos as int,
                sel_views(acc@),
            ),
        decreases ts@.len() - pos,
    {
        let (s, j) = match parse_selector(ts, pos) {
            Some(p) => p,
            None => {
                return None;
            },
        };
        let ghost before = sel_views(acc@);
        let ghost sv = sel_view(s);
        acc.push(s);
        assert(sel_views(acc@) =~= before.push(sv));
        let comma = j < ts.len() && match &ts[j] {
            Token::Comma => true,
            _ => false,
        };
        if j < ts.len() {
            assert(tv[j as int] == ts@[j as int]@);
        }
        if !comma {
            return Some((acc, j));
        }
        pos = j + 1;
    }
}

/// A rule at `i`: selectors, then a block of declarations.
fn parse_rule(ts: &Vec<Token>, i: usize) -> (r: Option<(Rule, usize)>)
    ensures
        match (r, rule_at(token_views(ts@), i as int)) {
            (Some((rule, j)), Some((rv, k))) => rule_view(rule) == rv && j == k && j <= ts@.len(),
            (None, None) => true,
            _ => false,
        },
{
    let ghost tv = token_views(ts@);
    let (selectors, j) = match parse_selector_list(ts, i) {
        Some(p) => p,
        None => {
            return None;
        },
    };
    if j >= ts.len() {
        return None;
    }
    assert(tv[j as int] == ts@[j as int]@);
    match &ts[j] {
        Token::StartDescription => {},
        _ => {
            return None;
        },
    }
    let ghost svs = sel_views(selectors@);
    let mut declarations: Vec<StyleDeclaration> = Vec::new();
    let mut k: usize = j + 1;
    loop
        invariant
            tv == token_views(ts@),
            selector_list(tv, i as int, Seq::empty()) == Some((svs, j as int)),
            svs == sel_views(selectors@),
            tv[j as int] is StartDescription,
            j < k <= ts@.len(),
            decl_run(tv, j + 1) == (k - j - 1) + decl_run(tv, k as int),
            declarations@ == typed_decls(tv, j + 1, (k - j - 1) as nat),
        decreases ts@.len() - k,
    {
        if k >= ts.len() {
            return None;
        }
        assert(tv[k as int] == ts@[k as int]@);
        match &ts[k] {
            Token::Description(name, value) => {
                let ghost n = (k - j) as nat;
                assert(tv[j + 1 + n - 1] == ts@[k as int]@);
                match parse_declaration(name, value) {
                    Some(d) => declarations.push(d),
                    None => {},
                }
            },
            Token::EndDescription => {
                assert(decl_run(tv, k as int) == 0);
                let rule = Rule { selectors, declarations };
                return Some((rule, k + 1));
            },
            _ => {
                assert(decl_run(tv, k as int) == 0);
                return None;
            },
        }
        k = k + 1;
    }
}

/// Build a stylesheet from the lexer's tokens.
pub fn parse_stylesheet(ts: &Vec<Token>) -> (r: Result<Vec<Rule>, ParseError>)
    ensures
        r is Ok <==> sheet_from(token_views(ts@), 0, Seq::empty()) is Some,
        r is Ok ==> rule_views(r->Ok_0@) == sheet_from(token_views(ts@), 0, Seq::empty())->0,
{
    let ghost tv = token_views(ts@);
    let mut rules: Vec<Rule> = Vec::new();
    let mut pos: usize = 0;
    assert(rule_views(rules@) =~= Seq::<RuleView>::empty());
    loop
        invariant
            tv == token_views(ts@),
            pos <= ts@.len(),
            sheet_from(tv, 0, Seq::empty()) == sheet_from(tv, pos as int, rule_views(rules@)),
        decreases ts@.len() - pos,
    {
        if pos >= ts.len() {
            return Ok(rules);
        }
        if let Token::Eof = &ts[pos] {
            return Ok(rules);
        }
        assert(tv[pos as int] == ts@[pos as int]@);
        let (rule, j) = match parse_rule(ts, pos) {
            Some(p) => p,
            None => {
                return Err(ParseError::UnexpectedToken(pos));
            },
        };
        if j <= pos {
            return Err(ParseError::UnexpectedToken(pos));
        }
        let ghost before = rule_views(rules@);
        let ghost rv = rule_view(rule);
        rules.push(rule);
        assert(rule_views(rules@) =~= before.push(rv));
        pos = j;
    }
}

/// Why a stylesheet could not be read.
#[derive(Clone, Copy, Debug, PartialEq, Eq)]
pub enum CssError {
    Lex(LexError),
    Parse(ParseError),
}

/// Lex and build the stylesheet whose bytes arrive in `chunks`.
pub fn stylesheet_from_bytes(chunks: Vec<Vec<u8>>) -> (r: Result<Vec<Rule>, CssError>)
    ensures
        match lex_chunks(chunk_views(chunks@)) {
            None => r matches Err(CssError::Lex(_)),
            Some(ts) => match sheet_from(ts, 0, Seq::empty()) {
                Some(rs) => r is Ok && rule_views(r->Ok_0@) == rs,
                None => r matches Err(CssError::Parse(_)),
            },
        },
{
    let tokens = match lex_css_from_bytes(chunks) {
        Ok(t) => t,
        Err(e) => {
            return Err(CssError::Lex(e));
        },
    };
    match parse_stylesheet(&tokens) {
        Ok(rules) => Ok(rules),
        Err(e) => Err(CssError::Parse(e)),
    }
}

} // verus!
