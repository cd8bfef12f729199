//! The CSS lexer: a state machine over a byte source that emits selector, combinator and
//! declaration tokens.

use vstd::prelude::*;
use vstd::utf8::{decode_utf8, valid_utf8};
use crate::lexer_util::{
    alpha_byte, chunk_views, decode_bytes, flatten, ident_len, ident_ok, lemma_ascii_valid,
    lemma_ident_len, lemma_ws_len, ws_byte, ws_len, CharOrEof, InputState, LexError, U8Methods,
};
use crate::values::AttrMatch;

verus! {

#[derive(Clone, Copy, Debug, PartialEq, Eq, Structural)]
pub enum ParserState {
    CssElement,
    CssRelation,
    CssDescription,
    CssAttribute,
}

#[derive(Debug)]
pub enum Token {
    StartDescription,
    EndDescription,
    Descendant,
    Child,
    Sibling,
    Comma,
    Element(String),
    Attr(AttrMatch),
    Description(String, String),
    Eof,
}

/// What an attribute constraint says, as character sequences.
pub enum AttrView {
    Exists(Seq<char>),
    Exact(Seq<char>, Seq<char>),
    Includes(Seq<char>, Seq<char>),
    StartsWith(Seq<char>, Seq<char>),
}

/// What a token says, as character sequences.
pub enum TokenView {
    StartDescription,
    EndDescription,
    Descendant,
    Child,
    Sibling,
    Comma,
    Element(Seq<char>),
    Attr(AttrView),
    Description(Seq<char>, Seq<char>),
    Eof,
}

impl View for AttrMatch {
    type V = AttrView;

    open spec fn view(&self) -> AttrView {
        match self {
            AttrMatch::Exists(n) => AttrView::Exists(n@),
            AttrMatch::Exact(n, v) => AttrView::Exact(n@, v@),
            AttrMatch::Includes(n, v) => AttrView::Includes(n@, v@),
            AttrMatch::StartsWith(n, v) => AttrView::StartsWith(n@, v@),
        }
    }
}

impl View for Token {
    type V = TokenView;

    open spec fn view(&self) -> TokenView {
        match self {
            Token::StartDescription => TokenView::StartDescription,
            Token::EndDescription => TokenView::EndDescription,
            Token::Descendant => TokenView::Descendant,
            Token::Child => TokenView::Child,
            Token::Sibling => TokenView::Sibling,
            Token::Comma => TokenView::Comma,
            Token::Element(s) => TokenView::Element(s@),
            Token::Attr(a) => TokenView::Attr(a@),
            Token::Description(n, v) => TokenView::Description(n@, v@),
            Token::Eof => TokenView::Eof,
        }
    }
}

pub open spec fn star_name() -> Seq<char> {
    seq!['*']
}

pub open spec fn class_name() -> Seq<char> {
    seq!['c', 'l', 'a', 's', 's']
}

pub open spec fn id_name() -> Seq<char> {
    seq!['i', 'd']
}

/// `s` without its whitespace bytes.
pub open spec fn strip_ws(s: Seq<u8>) -> Seq<u8>
    decreases s.len(),
{
    if s.len() == 0 {
        s
    } else if ws_byte(s.last()) {
        strip_ws(s.drop_last())
    } else {
        strip_ws(s.drop_last()).push(s.last())
    }
}

/// Index of the first `:` in `s`, or its length.
pub open spec fn find_colon(s: Seq<u8>) -> nat
    decreases s.len(),
{
    if s.len() == 0 || s[0] == 0x3au8 {
        0
    } else {
        1 + find_colon(s.skip(1))
    }
}

/// Index of the first `;` or `}` in `s`, or its length.
pub open spec fn find_value_end(s: Seq<u8>) -> nat
    decreases s.len(),
{
    if s.len() == 0 || s[0] == 0x3bu8 || s[0] == 0x7du8 {
        0
    } else {
        1 + find_value_end(s.skip(1))
    }
}

/// The identifier at the front of `s`, decoded.
pub open spec fn ident_at(s: Seq<u8>) -> Seq<char> {
    decode_utf8(s.take(ident_len(s) as int))
}

/// One step of the lexer: the token, the next state and how many bytes it consumed;
/// `None` when the input is malformed.
pub type Step = Option<(TokenView, ParserState, nat)>;

/// In the relation state, with `s` non-empty.
pub open spec fn relation_step(s: Seq<u8>) -> Step {
    let c = s[0];
    let rest = 1 + ws_len(s.skip(1));
    if c == 0x7bu8 {
        Some((TokenView::StartDescription, ParserState::CssDescription, rest))
    } else if c == 0x3eu8 {
        Some((TokenView::Child, ParserState::CssElement, rest))
    } else if c == 0x2bu8 {
        Some((TokenView::Sibling, ParserState::CssElement, rest))
    } else if c == 0x2cu8 {
        Some((TokenView::Comma, ParserState::CssElement, rest))
    } else {
        Some((TokenView::Descendant, ParserState::CssElement, ws_len(s)))
    }
}

/// In the element state, with `s` non-empty.
pub open spec fn element_step(s: Seq<u8>) -> Step {
    let c = s[0];
    if c == 0x2eu8 || c == 0x23u8 {
        Some((TokenView::Element(star_name()), ParserState::CssAttribute, 0))
    } else if c == 0x2au8 {
        Some((TokenView::Element(star_name()), ParserState::CssAttribute, 1))
    } else if ident_ok(s) {
        Some((TokenView::Element(ident_at(s)), ParserState::CssAttribute, ident_len(s)))
    } else {
        None
    }
}

/// The value of a bracketed constraint and the closing bracket, at the front of `u`.
pub open spec fn bracket_value_ok(u: Seq<u8>) -> bool {
    ident_ok(u) && ident_len(u) < u.len() && u[ident_len(u) as int] == 0x5du8
}

/// After `[` and the attribute name, with `t` what follows the name.
pub open spec fn bracket_step(name: Seq<char>, t: Seq<u8>, used: nat) -> Step {
    let c = t[0];
    if t.len() == 0 {
        None
    } else if c == 0x5du8 {
        Some((TokenView::Attr(AttrView::Exists(name)), ParserState::CssAttribute, used + 1))
    } else if c == 0x3du8 {
        let u = t.skip(1);
        if bracket_value_ok(u) {
            Some((
                TokenView::Attr(AttrView::Exact(name, ident_at(u))),
                ParserState::CssAttribute,
                used + 2 + ident_len(u),
            ))
        } else {
            None
        }
    } else if (c == 0x7eu8 || c == 0x7cu8) && t.len() > 1 && t[1] == 0x3du8 {
        let u = t.skip(2);
        if bracket_value_ok(u) {
            Some((
                TokenView::Attr(
                    if c == 0x7eu8 {
                        AttrView::Includes(name, ident_at(u))
                    } else {
                        AttrView::StartsWith(name, ident_at(u))
                    },
                ),
                ParserState::CssAttribute,
                used + 3 + ident_len(u),
            ))
        } else {
            None
        }
    } else {
        None
    }
}

/// In the attribute state, with `s` non-empty.
pub open spec fn attribute_step(s: Seq<u8>) -> Step {
    let c = s[0];
    let s1 = s.skip(1);
    if ws_byte(c) {
        let a = 1 + ws_len(s1);
        let t = s.skip(a as int);
        if t.len() == 0 {
            None
        } else {
            match relation_step(t) {
                Some((tok, st, k)) => Some((tok, st, a + k)),
                None => None,
            }
        }
    } else if c == 0x2eu8 || c == 0x23u8 {
        if ident_ok(s1) {
            Some((
                TokenView::Attr(
                    AttrView::Includes(
                        if c == 0x2eu8 {
                            class_name()
                        } else {
                            id_name()
                        },
                        ident_at(s1),
                    ),
                ),
                ParserState::CssAttribute,
                1 + ident_len(s1),
            ))
        } else {
            None
        }
    } else if c == 0x5bu8 {
        if ident_ok(s1) {
            bracket_step(ident_at(s1), s1.skip(ident_len(s1) as int), 1 + ident_len(s1))
        } else {
            None
        }
    } else {
        None
    }
}

/// In the description state, with `s` non-empty.
pub open spec fn description_step(s: Seq<u8>) -> Step {
    let a = ws_len(s);
    let w = s.skip(a as int);
    if w.len() == 0 {
        None
    } else if w[0] == 0x7du8 {
        Some((TokenView::EndDescription, ParserState::CssElement, a + 1 + ws_len(w.skip(1))))
    } else {
        let k = find_colon(w);
        let name = strip_ws(w.take(k as int));
        let v0 = w.skip(k + 1int);
        let b = ws_len(v0);
        let v = v0.skip(b as int);
        let j = find_value_end(v);
        let val = strip_ws(v.take(j as int));
        if k == w.len() || name.len() == 0 || j == v.len() || val.len() == 0 || !valid_utf8(name)
            || !valid_utf8(val) {
            None
        } else {
            Some((
                TokenView::Description(decode_utf8(name), decode_utf8(val)),
                ParserState::CssDescription,
                a + k + 1 + b + if v[j as int] == 0x7du8 {
                    j
                } else {
                    j + 1
                },
            ))
        }
    }
}

/// One step of the lexer in state `st` on the remaining input `s`.
pub open spec fn lex_step(st: ParserState, s: Seq<u8>) -> Step {
    if s.len() == 0 {
        if st == ParserState::CssDescription {
            None
        } else {
            Some((TokenView::Eof, st, 0))
        }
    } else {
        match st {
            ParserState::CssDescription => description_step(s),
            ParserState::CssAttribute => attribute_step(s),
            ParserState::CssElement => element_step(s),
            ParserState::CssRelation => relation_step(s),
        }
    }
}

pub open spec fn rank(st: ParserState) -> nat {
    match st {
        ParserState::CssRelation => 2,
        ParserState::CssElement => 1,
        _ => 0,
    }
}

/// A step makes progress: it consumes input, or moves to a state of lower rank.
pub open spec fn progresses(st: ParserState, s: Seq<u8>, st2: ParserState, k: nat) -> bool {
    k <= s.len() && (k > 0 || rank(st2) < rank(st))
}

/// The tokens of the input `s` lexed from state `st`, ending with `Eof`; `None` on a lex error.
pub open spec fn lex_from(st: ParserState, s: Seq<u8>) -> Option<Seq<TokenView>>
    decreases s.len(), rank(st),
{
    match lex_step(st, s) {
        None => None,
        Some((tok, st2, k)) => {
            if tok is Eof {
                Some(seq![TokenView::Eof])
            } else if progresses(st, s, st2, k) {
                match lex_from(st2, s.skip(k as int)) {
                    Some(rest) => Some(seq![tok] + rest),
                    None => None,
                }
            } else {
                None
            }
        },
    }
}

/// Facts on `find_colon`.
proof fn lemma_find_colon(s: Seq<u8>)
    ensures
        find_colon(s) <= s.len(),
        forall|q: int| 0 <= q < find_colon(s) ==> #[trigger] s[q] != 0x3au8,
        find_colon(s) < s.len() ==> s[find_colon(s) as int] == 0x3au8,
    decreases s.len(),
{
    if s.len() > 0 && s[0] != 0x3au8 {
        lemma_find_colon(s.skip(1));
        assert forall|q: int| 0 <= q < find_colon(s) implies #[trigger] s[q] != 0x3au8 by {
            if q > 0 {
                assert(s[q] == s.skip(1)[q - 1]);
            }
        }
    }
}

/// Facts on `find_value_end`.
proof fn lemma_find_value_end(s: Seq<u8>)
    ensures
        find_value_end(s) <= s.len(),
        forall|q: int|
            0 <= q < find_value_end(s) ==> #[trigger] s[q] != 0x3bu8 && s[q] != 0x7du8,
        find_value_end(s) < s.len() ==> s[find_value_end(s) as int] == 0x3bu8 || s[find_value_end(
            s,
        ) as int] == 0x7du8,
    decreases s.len(),
{
    if s.len() > 0 && s[0] != 0x3bu8 && s[0] != 0x7du8 {
        lemma_find_value_end(s.skip(1));
        assert forall|q: int| 0 <= q < find_value_end(s) implies #[trigger] s[q] != 0x3bu8 && s[q]
            != 0x7du8 by {
            if q > 0 {
                assert(s[q] == s.skip(1)[q - 1]);
            }
        }
    }
}

proof fn lemma_find_colon_of(s: Seq<u8>, i: int)
    requires
        0 <= i <= s.len(),
        forall|q: int| 0 <= q < i ==> #[trigger] s[q] != 0x3au8,
        i < s.len() ==> s[i] == 0x3au8,
    ensures
        find_colon(s) == i,
    decreases i,
{
    if i > 0 {
        assert(s[0] != 0x3au8);
        assert forall|q: int| 0 <= q < i - 1 implies #[trigger] s.skip(1)[q] != 0x3au8 by {
            assert(s.skip(1)[q] == s[q + 1]);
        }
        lemma_find_colon_of(s.skip(1), i - 1);
    }
}

proof fn lemma_find_value_end_of(s: Seq<u8>, i: int)
    requires
        0 <= i <= s.len(),
        forall|q: int| 0 <= q < i ==> #[trigger] s[q] != 0x3bu8 && s[q] != 0x7du8,
        i < s.len() ==> s[i] == 0x3bu8 || s[i] == 0x7du8,
    ensures
        find_value_end(s) == i,
    decreases i,
{
    if i > 0 {
        assert(s[0] != 0x3bu8 && s[0] != 0x7du8);
        assert forall|q: int| 0 <= q < i - 1 implies #[trigger] s.skip(1)[q] != 0x3bu8 && s.skip(
            1,
        )[q] != 0x7du8 by {
            assert(s.skip(1)[q] == s[q + 1]);
        }
        lemma_find_value_end_of(s.skip(1), i - 1);
    }
}

/// Whitespace at the front of `s` is counted by `ws_len` of what follows the first byte.
proof fn lemma_ws_len_cons(s: Seq<u8>)
    requires
        s.len() > 0,
        ws_byte(s[0]),
    ensures
        ws_len(s) == 1 + ws_len(s.skip(1)),
{
}

/// One more byte of a prefix, with its whitespace left out.
proof fn lemma_strip_ws_step(w: Seq<u8>, i: int)
    requires
        0 <= i < w.len(),
    ensures
        strip_ws(w.take(i + 1)) == if ws_byte(w[i]) {
            strip_ws(w.take(i))
        } else {
            strip_ws(w.take(i)).push(w[i])
        },
{
    assert(w.take(i + 1).drop_last() =~= w.take(i));
    assert(w.take(i + 1).last() == w[i]);
}

/// Every step that is not the end consumes input or lowers the state's rank.
pub proof fn lemma_step_progress(st: ParserState, s: Seq<u8>)
    ensures
        lex_step(st, s) matches Some((tok, st2, k)) ==> (tok is Eof && k == 0) || progresses(
            st,
            s,
            st2,
            k,
        ),
{
    if s.len() > 0 {
        lemma_ws_len(s);
        lemma_ws_len(s.skip(1));
        lemma_ident_len(s);
        lemma_ident_len(s.skip(1));
        match st {
            ParserState::CssDescription => {
                let a = ws_len(s);
                let w = s.skip(a as int);
                if w.len() > 0 {
                    lemma_ws_len(w.skip(1));
                    lemma_find_colon(w);
                    let k = find_colon(w);
                    if k < w.len() {
                        let v0 = w.skip(k + 1int);
                        lemma_ws_len(v0);
                        let v = v0.skip(ws_len(v0) as int);
                        lemma_find_value_end(v);
                    }
                }
            },
            ParserState::CssAttribute => {
                let s1 = s.skip(1);
                let a = 1 + ws_len(s1);
                let t = s.skip(a as int);
                if t.len() > 0 {
                    lemma_ws_len(t);
                    lemma_ws_len(t.skip(1));
                }
                if ident_ok(s1) {
                    let t2 = s1.skip(ident_len(s1) as int);
                    if t2.len() > 1 {
                        lemma_ident_len(t2.skip(1));
                    }
                    if t2.len() > 2 {
                        lemma_ident_len(t2.skip(2));
                    }
                }
            },
            _ => {},
        }
    }
}

/// Which tokens open and close a declaration block.
pub open spec fn opens(t: TokenView) -> nat {
    if t is StartDescription {
        1
    } else {
        0
    }
}

pub open spec fn closes(t: TokenView) -> nat {
    if t is EndDescription {
        1
    } else {
        0
    }
}

/// Number of block openings among the tokens.
pub open spec fn count_opens(ts: Seq<TokenView>) -> nat
    decreases ts.len(),
{
    if ts.len() == 0 {
        0
    } else {
        opens(ts[0]) + count_opens(ts.skip(1))
    }
}

/// Number of block closings among the tokens.
pub open spec fn count_closes(ts: Seq<TokenView>) -> nat
    decreases ts.len(),
{
    if ts.len() == 0 {
        0
    } else {
        closes(ts[0]) + count_closes(ts.skip(1))
    }
}

/// Only the first and last steps of the block change whether the lexer is inside one.
proof fn lemma_step_blocks(st: ParserState, s: Seq<u8>)
    ensures
        lex_step(st, s) matches Some((tok, st2, k)) ==> {
            &&& (tok is StartDescription ==> st != ParserState::CssDescription && st2
                == ParserState::CssDescription)
            &&& (tok is EndDescription ==> st == ParserState::CssDescription && st2
                != ParserState::CssDescription)
            &&& (!(tok is StartDescription) && !(tok is EndDescription) ==> (st2
                == ParserState::CssDescription <==> st == ParserState::CssDescription))
            &&& (tok is Eof ==> st != ParserState::CssDescription)
        },
{
}

/// A successful lex ends with one `Eof`, its only one, and closes every block it opens
/// (counting one already open when it starts inside a block).
pub proof fn lemma_lex_balanced(st: ParserState, s: Seq<u8>)
    ensures
        lex_from(st, s) matches Some(ts) ==> {
            &&& ts.len() > 0
            &&& ts.last() is Eof
            &&& forall|i: int| 0 <= i < ts.len() - 1 ==> !(#[trigger] ts[i] is Eof)
            &&& count_closes(ts) == count_opens(ts) + if st == ParserState::CssDescription {
                1nat
            } else {
                0nat
            }
        },
    decreases s.len(), rank(st),
{
    lemma_step_blocks(st, s);
    match lex_step(st, s) {
        None => {},
        Some((tok, st2, k)) => {
            if tok is Eof {
                let ts = seq![TokenView::Eof];
                assert(ts.skip(1) =~= Seq::<TokenView>::empty());
                assert(count_closes(ts.skip(1)) == 0);
                assert(count_opens(ts.skip(1)) == 0);
            } else if progresses(st, s, st2, k) {
                lemma_lex_balanced(st2, s.skip(k as int));
                if let Some(rest) = lex_from(st2, s.skip(k as int)) {
                    let ts = seq![tok] + rest;
                    assert(ts.skip(1) =~= rest);
                    assert(ts[0] == tok);
                    assert(count_closes(ts) == closes(tok) + count_closes(rest));
                    assert(count_opens(ts) == opens(tok) + count_opens(rest));
                    assert forall|i: int| 0 <= i < ts.len() - 1 implies !(#[trigger] ts[i] is Eof) by {
                        if i > 0 {
                            assert(ts[i] == rest[i - 1]);
                        }
                    }
                }
            }
        },
    }
}

/// The universal tag name.
fn star_string() -> (r: String)
    ensures
        r@ == star_name(),
{
    let r = String::from_str("*");
    proof {
        reveal_strlit("*");
    }
    assert(r@ =~= star_name());
    r
}

/// The attribute that `.name` constrains.
fn class_string() -> (r: String)
    ensures
        r@ == class_name(),
{
    let r = String::from_str("class");
    proof {
        reveal_strlit("class");
    }
    assert(r@ =~= class_name());
    r
}

/// The attribute that `#name` constrains.
fn id_string() -> (r: String)
    ensures
        r@ == id_name(),
{
    let r = String::from_str("id");
    proof {
        reveal_strlit("id");
    }
    assert(r@ =~= id_name());
    r
}

/// What a step of the lexer owes: the step on `s` gives this token and state, and the
/// input left is what follows the bytes it consumed.
pub open spec fn step_done(step: Step, tok: TokenView, st: ParserState, s: Seq<u8>, rest: Seq<u8>) -> bool {
    step matches Some((t, st2, k)) && t == tok && st2 == st && rest == s.skip(k as int)
}

/// A lexer: its byte source and its state.
pub struct CssLexer {
    pub input_state: InputState,
    pub parser_state: ParserState,
}

impl CssLexer {
    pub open spec fn wf(&self) -> bool {
        self.input_state.wf()
    }

    /// The next token, or the reason the input is malformed.
    pub fn parse_css(&mut self) -> (r: Result<Token, LexError>)
        requires
            old(self).wf(),
        ensures
            final(self).wf(),
            r is Ok <==> lex_step(old(self).parser_state, old(self).input_state@) is Some,
            r is Ok ==> step_done(
                lex_step(old(self).parser_state, old(self).input_state@),
                r->Ok_0@,
                final(self).parser_state,
                old(self).input_state@,
                final(self).input_state@,
            ),
    {
        let ghost s = self.input_state@;
        let ch = match self.input_state.get() {
            CharOrEof::CoeChar(c) => c,
            CharOrEof::CoeEof => {
                if self.parser_state == ParserState::CssDescription {
                    return Err(LexError::UnexpectedEof);
                }
                assert(s =~= s.skip(0));
                return Ok(Token::Eof);
            },
        };
        assert(s =~= seq![ch] + self.input_state@);
        match self.parser_state {
            ParserState::CssDescription => self.parse_css_description(ch),
            ParserState::CssAttribute => self.parse_css_attribute(ch),
            ParserState::CssElement => self.parse_css_element(ch),
            ParserState::CssRelation => Ok(self.parse_css_relation(ch)),
        }
    }

    /// In the relation state, after reading `c`: a combinator, a comma or a block opening.
    pub fn parse_css_relation(&mut self, c: u8) -> (r: Token)
        requires
            old(self).wf(),
            old(self).input_state.no_pushback(),
        ensures
            final(self).wf(),
            step_done(
                relation_step(seq![c] + old(self).input_state@),
                r@,
                final(self).parser_state,
                seq![c] + old(self).input_state@,
                final(self).input_state@,
            ),
    {
        let ghost s = seq![c] + self.input_state@;
        assert(s.skip(1) =~= self.input_state@);
        self.parser_state = ParserState::CssElement;
        let token = if c == 0x7bu8 {
            self.parser_state = ParserState::CssDescription;
            Token::StartDescription
        } else if c == 0x3eu8 {
            Token::Child
        } else if c == 0x2bu8 {
            Token::Sibling
        } else if c == 0x2cu8 {
            Token::Comma
        } else {
            self.input_state.unget(c);
            Token::Descendant
        };
        let ghost before = self.input_state@;
        self.input_state.eat_whitespace();
        proof {
            lemma_ws_len(before);
            if !(c == 0x7bu8 || c == 0x3eu8 || c == 0x2bu8 || c == 0x2cu8) {
                assert(before =~= s);
            } else {
                assert(s.skip((1 + ws_len(s.skip(1))) as int) =~= before.skip(ws_len(before) as int));
            }
        }
        token
    }

    /// In the element state, after reading `c`: a tag name, or `*` for one that is implied.
    pub fn parse_css_element(&mut self, c: u8) -> (r: Result<Token, LexError>)
        requires
            old(self).wf(),
            old(self).input_state.no_pushback(),
        ensures
            final(self).wf(),
            r is Ok <==> element_step(seq![c] + old(self).input_state@) is Some,
            r is Ok ==> step_done(
                element_step(seq![c] + old(self).input_state@),
                r->Ok_0@,
                final(self).parser_state,
                seq![c] + old(self).input_state@,
                final(self).input_state@,
            ),
    {
        let ghost s = seq![c] + self.input_state@;
        if c == 0x2eu8 || c == 0x23u8 {
            self.parser_state = ParserState::CssAttribute;
            self.input_state.unget(c);
            assert(s.skip(0) =~= self.input_state@);
            return Ok(Token::Element(star_string()));
        } else if c == 0x2au8 {
            self.parser_state = ParserState::CssAttribute;
            assert(s.skip(1) =~= self.input_state@);
            return Ok(Token::Element(star_string()));
        }
        self.input_state.unget(c);
        assert(self.input_state@ =~= s);
        let element = self.parse_ident_here()?;
        self.parser_state = ParserState::CssAttribute;
        Ok(Token::Element(element))
    }

    /// An identifier from the byte source, the lexer's state left as it is.
    fn parse_ident_here(&mut self) -> (r: Result<String, LexError>)
        requires
            old(self).wf(),
        ensures
            final(self).wf(),
            final(self).parser_state == old(self).parser_state,
            r is Ok <==> ident_ok(old(self).input_state@),
            r is Ok ==> r->Ok_0@ == ident_at(old(self).input_state@) && final(self).input_state@
                == old(self).input_state@.skip(ident_len(old(self).input_state@) as int),
    {
        self.input_state.parse_ident()
    }

    /// In the attribute state, after reading `c`: a class, id or bracketed constraint, or,
    /// at whitespace, the relation to the next element.
    #[verifier::rlimit(40)]
    pub fn parse_css_attribute(&mut self, c: u8) -> (r: Result<Token, LexError>)
        requires
            old(self).wf(),
            old(self).input_state.no_pushback(),
        ensures
            final(self).wf(),
            r is Ok <==> attribute_step(seq![c] + old(self).input_state@) is Some,
            r is Ok ==> step_done(
                attribute_step(seq![c] + old(self).input_state@),
                r->Ok_0@,
                final(self).parser_state,
                seq![c] + old(self).input_state@,
                final(self).input_state@,
            ),
    {
        let ghost s = seq![c] + self.input_state@;
        let ghost s1 = self.input_state@;
        assert(s.skip(1) =~= s1);
        assert(s[0] == c);
        if c.is_whitespace() {
            self.parser_state = ParserState::CssRelation;
            self.input_state.eat_whitespace();
            let ghost t = self.input_state@;
            proof {
                lemma_ws_len(s1);
            }
            assert(s.skip((1 + ws_len(s1)) as int) =~= t);
            let ch = match self.input_state.get() {
                CharOrEof::CoeChar(ch) => ch,
                CharOrEof::CoeEof => {
                    return Err(LexError::UnexpectedEof);
                },
            };
            assert(t =~= seq![ch] + self.input_state@);
            let tok = self.parse_css_relation(ch);
            proof {
                let (_, _, k) = relation_step(t)->0;
                lemma_ws_len(t);
                lemma_ws_len(t.skip(1));
                assert(s.skip((1 + ws_len(s1) + k) as int) =~= t.skip(k as int));
            }
            return Ok(tok);
        }
        if c == 0x2eu8 || c == 0x23u8 {
            let name = self.parse_ident_here()?;
            let attr = if c == 0x2eu8 {
                class_string()
            } else {
                id_string()
            };
            proof {
                lemma_ident_len(s1);
                assert(s.skip((1 + ident_len(s1)) as int) =~= s1.skip(ident_len(s1) as int));
            }
            self.parser_state = ParserState::CssAttribute;
            return Ok(Token::Attr(AttrMatch::Includes(attr, name)));
        }
        if c == 0x5bu8 {
            let attr_name = self.parse_ident_here()?;
            self.parser_state = ParserState::CssAttribute;
            let ghost n = ident_len(s1);
            let ghost t = self.input_state@;
            proof {
                lemma_ident_len(s1);
            }
            assert(t =~= s.skip((1 + n) as int));
            let ch = match self.input_state.get() {
                CharOrEof::CoeChar(ch) => ch,
                CharOrEof::CoeEof => {
                    return Err(LexError::UnexpectedEof);
                },
            };
            assert(t[0] == ch);
            let ghost u1 = self.input_state@;
            assert(u1 =~= t.skip(1));
            if ch == 0x5du8 {
                assert(s.skip((1 + n + 1) as int) =~= u1);
                return Ok(Token::Attr(AttrMatch::Exists(attr_name)));
            } else if ch == 0x3du8 {
                let attr_val = self.parse_ident_here()?;
                proof {
                    lemma_ident_len(u1);
                }
                self.input_state.expect(0x5du8)?;
                assert(s.skip((1 + n + 2 + ident_len(u1)) as int) =~= self.input_state@);
                return Ok(Token::Attr(AttrMatch::Exact(attr_name, attr_val)));
            } else if ch == 0x7eu8 || ch == 0x7cu8 {
                self.input_state.expect(0x3du8)?;
                let ghost u = self.input_state@;
                assert(u =~= t.skip(2));
                let attr_val = self.parse_ident_here()?;
                proof {
                    lemma_ident_len(u);
                }
                self.input_state.expect(0x5du8)?;
                assert(s.skip((1 + n + 3 + ident_len(u)) as int) =~= self.input_state@);
                if ch == 0x7eu8 {
                    return Ok(Token::Attr(AttrMatch::Includes(attr_name, attr_val)));
                } else {
                    return Ok(Token::Attr(AttrMatch::StartsWith(attr_name, attr_val)));
                }
            }
            return Err(LexError::UnexpectedByte(ch));
        }
        Err(LexError::UnexpectedByte(c))
    }

    /// Read a declaration's name, starting at `first`: the bytes up to the first `:`, without
    /// whitespace; the `:` is consumed.
    fn read_name(&mut self, first: u8) -> (r: Result<Vec<u8>, LexError>)
        requires
            old(self).wf(),
            old(self).input_state.no_pushback(),
        ensures
            final(self).wf(),
            final(self).parser_state == old(self).parser_state,
            r is Ok <==> find_colon(seq![first] + old(self).input_state@) < 1
                + old(self).input_state@.len(),
            r is Ok ==> r->Ok_0@ == strip_ws(
                (seq![first] + old(self).input_state@).take(
                    find_colon(seq![first] + old(self).input_state@) as int,
                ),
            ) && final(self).input_state@ == (seq![first] + old(self).input_state@).skip(
                find_colon(seq![first] + old(self).input_state@) + 1int,
            ),
    {
        let ghost w = seq![first] + self.input_state@;
        assert(w.skip(1) =~= self.input_state@);
        let mut ch = first;
        let mut desc_name: Vec<u8> = Vec::new();
        let ghost mut i: int = 0;
        loop
            invariant
                self.wf(),
                w == seq![first] + old(self).input_state@,
                self.parser_state == old(self).parser_state,
                self.input_state.no_pushback(),
                0 <= i < w.len(),
                ch == w[i],
                self.input_state@ == w.skip(i + 1),
                desc_name@ == strip_ws(w.take(i)),
                forall|q: int| 0 <= q < i ==> #[trigger] w[q] != 0x3au8,
            ensures
                self.wf(),
                self.parser_state == old(self).parser_state,
                0 <= i < w.len(),
                w[i] == 0x3au8,
                self.input_state@ == w.skip(i + 1),
                desc_name@ == strip_ws(w.take(i)),
                forall|q: int| 0 <= q < i ==> #[trigger] w[q] != 0x3au8,
            decreases w.len() - i,
        {
            if ch == 0x3au8 {
                break;
            }
            proof {
                lemma_strip_ws_step(w, i);
            }
            if !ch.is_whitespace() {
                desc_name.push(ch);
            }
            ch = match self.input_state.get() {
                CharOrEof::CoeChar(x) => x,
                CharOrEof::CoeEof => {
                    proof {
                        assert(w[i] != 0x3au8);
                        assert(w.skip(i + 1).len() == 0);
                        assert(w.len() == i + 1);
                        lemma_find_colon_of(w, w.len() as int);
                    }
                    return Err(LexError::UnexpectedEof);
                },
            };
            proof {
                i = i + 1;
            }
            assert(self.input_state@ =~= w.skip(i + 1));
        }
        proof {
            lemma_find_colon_of(w, i);
        }
        Ok(desc_name)
    }

    /// Read a declaration's value: the bytes up to the first `;` or `}`, without whitespace.
    /// That byte is consumed; the flag says whether it was `}`.
    fn read_value(&mut self) -> (r: Result<(Vec<u8>, bool), LexError>)
        requires
            old(self).wf(),
        ensures
            final(self).wf(),
            final(self).parser_state == old(self).parser_state,
            r is Ok <==> find_value_end(old(self).input_state@) < old(self).input_state@.len(),
            r is Ok ==> {
                let v = old(self).input_state@;
                let j = find_value_end(v);
                &&& r->Ok_0.0@ == strip_ws(v.take(j as int))
                &&& r->Ok_0.1 == (v[j as int] == 0x7du8)
                &&& final(self).input_state.no_pushback()
                &&& final(self).input_state@ == v.skip(j + 1int)
            },
    {
        let ghost v = self.input_state@;
        let mut desc_val: Vec<u8> = Vec::new();
        let ghost mut j: int = 0;
        let mut closing = false;
        loop
            invariant_except_break
                self.input_state@ == v.skip(j),
                !closing,
            invariant
                self.wf(),
                v == old(self).input_state@,
                self.parser_state == old(self).parser_state,
                0 <= j <= v.len(),
                desc_val@ == strip_ws(v.take(j)),
                forall|q: int| 0 <= q < j ==> #[trigger] v[q] != 0x3bu8 && v[q] != 0x7du8,
            ensures
                j < v.len(),
                v[j] == 0x3bu8 || v[j] == 0x7du8,
                closing == (v[j] == 0x7du8),
                self.input_state.no_pushback(),
                self.input_state@ == v.skip(j + 1),
            decreases v.len() - j,
        {
            let x = match self.input_state.get() {
                CharOrEof::CoeChar(x) => x,
                CharOrEof::CoeEof => {
                    proof {
                        assert(v.skip(j).len() == 0);
                        assert(j == v.len());
                        lemma_find_value_end_of(v, v.len() as int);
                    }
                    return Err(LexError::UnexpectedEof);
                },
            };
            assert(v[j] == x);
            if x == 0x7du8 {
                closing = true;
                assert(self.input_state@ =~= v.skip(j + 1));
                break;
            }
            if x == 0x3bu8 {
                assert(self.input_state@ =~= v.skip(j + 1));
                break;
            }
            proof {
                lemma_strip_ws_step(v, j);
            }
            if !x.is_whitespace() {
                desc_val.push(x);
            }
            proof {
                j = j + 1;
            }
            assert(self.input_state@ =~= v.skip(j));
        }
        proof {
            lemma_find_value_end_of(v, j);
        }
        Ok((desc_val, closing))
    }

    /// In a declaration block, after reading `c`: one declaration, or the end of the block.
    #[verifier::rlimit(100)]
    pub fn parse_css_description(&mut self, c: u8) -> (r: Result<Token, LexError>)
        requires
            old(self).wf(),
            old(self).input_state.no_pushback(),
        ensures
            final(self).wf(),
            r is Ok <==> description_step(seq![c] + old(self).input_state@) is Some,
            r is Ok ==> step_done(
                description_step(seq![c] + old(self).input_state@),
                r->Ok_0@,
                final(self).parser_state,
                seq![c] + old(self).input_state@,
                final(self).input_state@,
            ),
    {
        let ghost s = seq![c] + self.input_state@;
        assert(s.skip(1) =~= self.input_state@);
        assert(s[0] == c);
        proof {
            lemma_ws_len(s);
        }
        let ghost a = ws_len(s);
        let ghost w = s.skip(a as int);
        let mut ch = c;
        if ch.is_whitespace() {
            proof {
                lemma_ws_len_cons(s);
            }
            self.input_state.eat_whitespace();
            assert(self.input_state@ =~= w);
            ch = match self.input_state.get() {
                CharOrEof::CoeChar(x) => x,
                CharOrEof::CoeEof => {
                    assert(w.len() == 0);
                    return Err(LexError::UnexpectedEof);
                },
            };
        } else {
            assert(w =~= s);
        }
        assert(w[0] == ch);
        assert(self.input_state@ =~= w.skip(1));
        if ch == 0x7du8 {
            self.parser_state = ParserState::CssElement;
            self.input_state.eat_whitespace();
            proof {
                lemma_ws_len(w.skip(1));
            }
            assert(s.skip((a + 1 + ws_len(w.skip(1))) as int) =~= self.input_state@);
            return Ok(Token::EndDescription);
        }
        assert(seq![ch] + self.input_state@ =~= w);
        proof {
            lemma_find_colon(w);
        }
        let desc_name = self.read_name(ch)?;
        let ghost k = find_colon(w);
        if desc_name.len() == 0 {
            return Err(LexError::EmptyDeclaration);
        }
        let ghost v0 = self.input_state@;
        self.input_state.eat_whitespace();
        proof {
            lemma_ws_len(v0);
        }
        let ghost b = ws_len(v0);
        let ghost v = self.input_state@;
        proof {
            lemma_find_value_end(v);
        }
        let (desc_val, closing) = self.read_value()?;
        let ghost j = find_value_end(v);
        if desc_val.len() == 0 {
            return Err(LexError::EmptyDeclaration);
        }
        if closing {
            self.input_state.unget(0x7du8);
            assert(self.input_state@ =~= v.skip(j as int));
        }
        let name = match decode_bytes(desc_name) {
            Some(n) => n,
            None => {
                return Err(LexError::InvalidUtf8);
            },
        };
        let value = match decode_bytes(desc_val) {
            Some(v) => v,
            None => {
                return Err(LexError::InvalidUtf8);
            },
        };
        proof {
            assert(v0 =~= s.skip((a + k + 1) as int));
            assert(v =~= s.skip((a + k + 1 + b) as int));
            let used = a + k + 1 + b + if v[j as int] == 0x7du8 {
                j
            } else {
                j + 1
            };
            assert(s.skip(used as int) =~= self.input_state@);
        }
        self.parser_state = ParserState::CssDescription;
        Ok(Token::Description(name, value))
    }
}

/// A lexer in state `state` over the bytes of `chunks`.
pub fn parser(chunks: Vec<Vec<u8>>, state: ParserState) -> (r: CssLexer)
    ensures
        r.wf(),
        r.parser_state == state,
        r.input_state.no_pushback(),
        r.input_state@ == flatten(chunk_views(chunks@)),
{
    CssLexer { input_state: InputState::new(chunks), parser_state: state }
}

/// The views of a sequence of tokens.
pub open spec fn token_views(ts: Seq<Token>) -> Seq<TokenView> {
    ts.map_values(|t: Token| t@)
}

/// The tokens of a stylesheet whose bytes arrive in `chunks`, ending with `Eof`.
pub open spec fn lex_chunks(chunks: Seq<Seq<u8>>) -> Option<Seq<TokenView>> {
    lex_from(ParserState::CssElement, flatten(chunks))
}

/// Lex a stylesheet whose bytes arrive in `chunks`: its tokens up to and including `Eof`.
pub fn lex_css_from_bytes(chunks: Vec<Vec<u8>>) -> (r: Result<Vec<Token>, LexError>)
    ensures
        r is Ok <==> lex_chunks(chunk_views(chunks@)) is Some,
        r is Ok ==> token_views(r->Ok_0@) == lex_chunks(chunk_views(chunks@))->0,
{
    let ghost cv = chunk_views(chunks@);
    let mut lexer = parser(chunks, ParserState::CssElement);
    let ghost total = lexer.input_state@;
    let mut tokens: Vec<Token> = Vec::new();
    loop
        invariant
            lexer.wf(),
            cv == chunk_views(chunks@),
            total == flatten(cv),
            lex_from(ParserState::CssElement, total) == match lex_from(
                lexer.parser_state,
                lexer.input_state@,
            ) {
                Some(rest) => Some(token_views(tokens@) + rest),
                None => None,
            },
        decreases lexer.input_state@.len(), rank(lexer.parser_state),
    {
        let ghost st = lexer.parser_state;
        let ghost s = lexer.input_state@;
        proof {
            lemma_step_progress(st, s);
        }
        let token = match lexer.parse_css() {
            Ok(t) => t,
            Err(e) => {
                assert(lex_from(st, s) is None);
                return Err(e);
            },
        };
        let done = match token {
            Token::Eof => true,
            _ => false,
        };
        let ghost old_views = token_views(tokens@);
        tokens.push(token);
        assert(token_views(tokens@) =~= old_views + seq![token@]);
        if done {
            assert(lex_from(st, s) == Some(seq![TokenView::Eof]));
            assert(token_views(tokens@) =~= old_views + seq![TokenView::Eof]);
            return Ok(tokens);
        }
        proof {
            match lex_from(lexer.parser_state, lexer.input_state@) {
                Some(rest) => {
                    assert(old_views + (seq![token@] + rest) =~= token_views(tokens@) + rest);
                },
                None => {},
            }
        }
    }
}

/// Lexing does not depend on how the bytes are cut into chunks: any cut gives the tokens of
/// the whole input as one chunk.
pub proof fn lemma_chunking_invariant(chunks: Seq<Seq<u8>>)
    ensures
        lex_chunks(chunks) == lex_chunks(seq![flatten(chunks)]),
{
    let one = seq![flatten(chunks)];
    assert(one.skip(1) =~= Seq::<Seq<u8>>::empty());
    assert(flatten(one.skip(1)) =~= Seq::<u8>::empty());
    assert(flatten(one) =~= flatten(chunks));
}

/// The tokens of any byte stream that lexes without error end with its only `Eof`, and
/// hold as many block openings as closings.
pub proof fn lemma_lexed_stream_balanced(chunks: Seq<Seq<u8>>)
    ensures
        lex_chunks(chunks) matches Some(ts) ==> {
            &&& ts.len() > 0
            &&& ts.last() is Eof
            &&& forall|i: int| 0 <= i < ts.len() - 1 ==> !(#[trigger] ts[i] is Eof)
            &&& count_closes(ts) == count_opens(ts)
        },
{
    lemma_lex_balanced(ParserState::CssElement, flatten(chunks));
}

} // verus!
