//! A chunked byte source presented as a stream of characters with one byte of pushback.

use vstd::prelude::*;
use vstd::utf8::{decode_utf8, valid_utf8};

verus! {

/// One step of input: a byte, or the end of the stream.
#[derive(Clone, Copy, Debug, PartialEq, Eq, Structural)]
pub enum CharOrEof {
    CoeChar(u8),
    CoeEof,
}

impl CharOrEof {
    /// Both are the same byte, or both the end.
    pub fn eq(&self, other: &CharOrEof) -> (r: bool)
        ensures
            r == (*self == *other),
    {
        match (self, other) {
            (CharOrEof::CoeChar(a), CharOrEof::CoeChar(b)) => *a == *b,
            (CharOrEof::CoeEof, CharOrEof::CoeEof) => true,
            _ => false,
        }
    }

    pub fn ne(&self, other: &CharOrEof) -> (r: bool)
        ensures
            r == (*self != *other),
    {
        !self.eq(other)
    }
}

/// Space, tab or newline.
pub open spec fn ws_byte(c: u8) -> bool {
    c == 0x20u8 || c == 0x0au8 || c == 0x09u8
}

/// An ASCII letter.
pub open spec fn alpha_byte(c: u8) -> bool {
    (0x41u8 <= c && c <= 0x5au8) || (0x61u8 <= c && c <= 0x7au8)
}

/// Byte classification used by the lexers.
pub trait U8Methods {
    spec fn byte_value(&self) -> u8;

    fn is_whitespace(&self) -> (r: bool)
        ensures
            r == ws_byte(self.byte_value()),
    ;

    fn is_alpha(&self) -> (r: bool)
        ensures
            r == alpha_byte(self.byte_value()),
    ;
}

impl U8Methods for u8 {
    open spec fn byte_value(&self) -> u8 {
        *self
    }

    fn is_whitespace(&self) -> (r: bool) {
        *self == 0x20u8 || *self == 0x0au8 || *self == 0x09u8
    }

    fn is_alpha(&self) -> (r: bool) {
        (0x41u8 <= *self && *self <= 0x5au8) || (0x61u8 <= *self && *self <= 0x7au8)
    }
}

/// The bytes of a sequence of chunks, one after another.
pub open spec fn flatten(chunks: Seq<Seq<u8>>) -> Seq<u8>
    decreases chunks.len(),
{
    if chunks.len() == 0 {
        Seq::empty()
    } else {
        chunks[0] + flatten(chunks.skip(1))
    }
}

/// The views of a sequence of byte vectors.
pub open spec fn chunk_views(chunks: Seq<Vec<u8>>) -> Seq<Seq<u8>> {
    chunks.map_values(|c: Vec<u8>| c@)
}

/// Length of the longest prefix of `s` made of ASCII letters.
pub open spec fn ident_len(s: Seq<u8>) -> nat
    decreases s.len(),
{
    if s.len() > 0 && alpha_byte(s[0]) {
        1 + ident_len(s.skip(1))
    } else {
        0
    }
}

/// Length of the longest prefix of `s` made of whitespace.
pub open spec fn ws_len(s: Seq<u8>) -> nat
    decreases s.len(),
{
    if s.len() > 0 && ws_byte(s[0]) {
        1 + ws_len(s.skip(1))
    } else {
        0
    }
}

/// Facts on `ident_len`: every byte it covers is a letter, and the next one is not.
pub proof fn lemma_ident_len(s: Seq<u8>)
    ensures
        ident_len(s) <= s.len(),
        forall|i: int| 0 <= i < ident_len(s) ==> alpha_byte(#[trigger] s[i]),
        ident_len(s) < s.len() ==> !alpha_byte(s[ident_len(s) as int]),
    decreases s.len(),
{
    if s.len() > 0 && alpha_byte(s[0]) {
        lemma_ident_len(s.skip(1));
        assert forall|i: int| 0 <= i < ident_len(s) implies alpha_byte(#[trigger] s[i]) by {
            if i > 0 {
                assert(s[i] == s.skip(1)[i - 1]);
            }
        }
    }
}

/// Facts on `ws_len`: every byte it covers is whitespace, and the next one is not.
pub proof fn lemma_ws_len(s: Seq<u8>)
    ensures
        ws_len(s) <= s.len(),
        forall|i: int| 0 <= i < ws_len(s) ==> ws_byte(#[trigger] s[i]),
        ws_len(s) < s.len() ==> !ws_byte(s[ws_len(s) as int]),
    decreases s.len(),
{
    if s.len() > 0 && ws_byte(s[0]) {
        lemma_ws_len(s.skip(1));
        assert forall|i: int| 0 <= i < ws_len(s) implies ws_byte(#[trigger] s[i]) by {
            if i > 0 {
                assert(s[i] == s.skip(1)[i - 1]);
            }
        }
    }
}

/// Bytes below 0x80 are valid UTF-8.
pub proof fn lemma_ascii_valid(s: Seq<u8>)
    requires
        forall|i: int| 0 <= i < s.len() ==> #[trigger] s[i] < 0x80u8,
    ensures
        valid_utf8(s),
    decreases s.len(),
{
    if s.len() > 0 {
        let t = s.subrange(1, s.len() as int);
        assert forall|i: int| 0 <= i < t.len() implies #[trigger] t[i] < 0x80u8 by {
            assert(t[i] == s[i + 1]);
        }
        lemma_ascii_valid(t);
    }
}

/// Relies on std's `String::from_utf8`: it succeeds exactly on valid UTF-8, and the
/// string then holds the characters that the bytes encode.
#[verifier::external_body]
pub(crate) fn decode_bytes(b: Vec<u8>) -> (r: Option<String>)
    ensures
        r is Some <==> valid_utf8(b@),
        r is Some ==> r->0@ == decode_utf8(b@),
{
    String::from_utf8(b).ok()
}

/// An identifier can be read at the front of `s`: a non-empty run of letters.
pub open spec fn ident_ok(s: Seq<u8>) -> bool {
    0 < ident_len(s)
}

/// Why lexing failed.
#[derive(Clone, Copy, Debug, PartialEq, Eq)]
pub enum LexError {
    /// The input ended where more was required.
    UnexpectedEof,
    /// A byte that the grammar does not allow at this place.
    UnexpectedByte(u8),
    /// An identifier was required and none was found.
    ExpectedIdent,
    /// A declaration without a name or without a value.
    EmptyDeclaration,
    /// A declaration's name or value is not valid UTF-8.
    InvalidUtf8,
}

/// A byte source over chunks handed over in order, with a one-byte pushback slot.
pub struct InputState {
    lookahead: Option<u8>,
    chunks: Vec<Vec<u8>>,
    chunk: usize,
    pos: usize,
}

impl View for InputState {
    /// The bytes still to be read, the pushed-back byte first.
    type V = Seq<u8>;

    closed spec fn view(&self) -> Seq<u8> {
        let rest = if self.chunk < self.chunks@.len() {
            self.chunks@[self.chunk as int]@.skip(self.pos as int) + flatten(
                chunk_views(self.chunks@.skip(self.chunk + 1)),
            )
        } else {
            Seq::empty()
        };
        match self.lookahead {
            Some(c) => seq![c] + rest,
            None => rest,
        }
    }
}

proof fn lemma_flatten_skip(chunks: Seq<Vec<u8>>, i: int)
    requires
        0 <= i < chunks.len(),
    ensures
        flatten(chunk_views(chunks.skip(i))) == chunks[i]@ + flatten(
            chunk_views(chunks.skip(i + 1)),
        ),
{
    let v = chunk_views(chunks.skip(i));
    assert(v.len() > 0);
    assert(v[0] == chunks[i]@);
    assert(v.skip(1) =~= chunk_views(chunks.skip(i + 1)));
}

impl InputState {
    /// No byte is waiting in the pushback slot.
    pub closed spec fn no_pushback(&self) -> bool {
        self.lookahead is None
    }

    pub closed spec fn wf(&self) -> bool {
        &&& self.chunk <= self.chunks@.len()
        &&& self.chunk < self.chunks@.len() ==> self.pos <= self.chunks@[self.chunk as int]@.len()
    }

    /// A source that yields the bytes of `chunks` in order, then the end of the stream.
    pub fn new(chunks: Vec<Vec<u8>>) -> (r: InputState)
        ensures
            r.wf(),
            r@ == flatten(chunk_views(chunks@)),
            r.no_pushback(),
    {
        let r = InputState { lookahead: None, chunks, chunk: 0, pos: 0 };
        proof {
            if r.chunks@.len() > 0 {
                lemma_flatten_skip(r.chunks@, 0);
                assert(r.chunks@.skip(0) =~= r.chunks@);
                assert(r.chunks@[0]@.skip(0) =~= r.chunks@[0]@);
            } else {
                assert(chunk_views(r.chunks@) =~= Seq::<Seq<u8>>::empty());
            }
        }
        r
    }

    /// Next byte, or the end of the stream once every byte has been read.
    pub fn get(&mut self) -> (r: CharOrEof)
        requires
            old(self).wf(),
        ensures
            final(self).wf(),
            final(self).no_pushback(),
            old(self)@.len() == 0 ==> r == CharOrEof::CoeEof && final(self)@ == old(self)@,
            old(self)@.len() > 0 ==> r == CharOrEof::CoeChar(old(self)@[0]) && final(self)@
                == old(self)@.skip(1),
    {
        if let Some(c) = self.lookahead {
            self.lookahead = None;
            proof {
                assert(old(self)@ =~= seq![c] + final(self)@);
                assert(old(self)@.skip(1) =~= final(self)@);
            }
            return CharOrEof::CoeChar(c);
        }
        while self.chunk < self.chunks.len() && self.pos >= self.chunks[self.chunk].len()
            invariant
                self.wf(),
                self.no_pushback(),
                self@ == old(self)@,
            decreases self.chunks@.len() - self.chunk,
        {
            proof {
                let ch = self.chunk as int;
                lemma_flatten_skip(self.chunks@, ch);
                assert(self.chunks@[ch]@.skip(self.pos as int) =~= Seq::<u8>::empty());
                if ch + 1 < self.chunks@.len() {
                    lemma_flatten_skip(self.chunks@, ch + 1);
                    assert(self.chunks@[ch + 1]@.skip(0) =~= self.chunks@[ch + 1]@);
                } else {
                    assert(chunk_views(self.chunks@.skip(ch + 1)) =~= Seq::<Seq<u8>>::empty());
                }
            }
            self.chunk = self.chunk + 1;
            self.pos = 0;
        }
        if self.chunk >= self.chunks.len() {
            return CharOrEof::CoeEof;
        }
        let c = self.chunks[self.chunk][self.pos];
        proof {
            let ghost before = self@;
            assert(before[0] == c);
        }
        let ghost before = self@;
        self.pos = self.pos + 1;
        proof {
            let ch = self.chunk as int;
            assert(self.chunks@[ch]@.skip(self.pos as int) =~= self.chunks@[ch]@.skip(
                self.pos - 1,
            ).skip(1));
            assert(self@ =~= before.skip(1));
        }
        CharOrEof::CoeChar(c)
    }

    /// Push back one byte; the next `get` returns it.
    pub fn unget(&mut self, ch: u8)
        requires
            old(self).wf(),
            old(self).no_pushback(),
        ensures
            final(self).wf(),
            final(self)@ == seq![ch] + old(self)@,
            !final(self).no_pushback(),
    {
        self.lookahead = Some(ch);
    }

    /// Consume one byte, which must be `ch`.
    pub fn expect(&mut self, ch: u8) -> (r: Result<(), LexError>)
        requires
            old(self).wf(),
        ensures
            final(self).wf(),
            final(self).no_pushback(),
            r is Ok <==> old(self)@.len() > 0 && old(self)@[0] == ch,
            old(self)@.len() == 0 ==> r == Err::<(), LexError>(LexError::UnexpectedEof),
            old(self)@.len() > 0 && old(self)@[0] != ch ==> r == Err::<(), LexError>(
                LexError::UnexpectedByte(old(self)@[0]),
            ),
            r is Ok ==> final(self)@ == old(self)@.skip(1),
    {
        match self.get() {
            CharOrEof::CoeChar(c) => {
                if c != ch {
                    Err(LexError::UnexpectedByte(c))
                } else {
                    Ok(())
                }
            },
            CharOrEof::CoeEof => Err(LexError::UnexpectedEof),
        }
    }

    /// Consume a maximal run of ASCII letters, which must be non-empty. A byte read after the
    /// run is pushed back.
    pub fn parse_ident(&mut self) -> (r: Result<String, LexError>)
        requires
            old(self).wf(),
        ensures
            final(self).wf(),
            r is Ok <==> ident_ok(old(self)@),
            !(r is Ok) ==> r == Err::<String, LexError>(LexError::ExpectedIdent),
            r is Ok ==> r->Ok_0@ == decode_utf8(old(self)@.take(ident_len(old(self)@) as int))
                && final(self)@ == old(self)@.skip(ident_len(old(self)@) as int),
    {
        let ghost s = self@;
        proof {
            lemma_ident_len(s);
        }
        let mut result: Vec<u8> = Vec::new();
        loop
            invariant_except_break
                self.no_pushback() || result@.len() == 0,
            invariant
                self.wf(),
                s == old(self)@,
                result@.len() <= ident_len(s),
                result@ == s.take(result@.len() as int),
                self@ == s.skip(result@.len() as int),
                forall|i: int| 0 <= i < ident_len(s) ==> alpha_byte(#[trigger] s[i]),
                ident_len(s) <= s.len(),
                ident_len(s) < s.len() ==> !alpha_byte(s[ident_len(s) as int]),
            ensures
                result@.len() == ident_len(s),
                0 < ident_len(s),
            decreases s.len() - result@.len(),
        {
            let ghost k = result@.len() as int;
            match self.get() {
                CharOrEof::CoeChar(c) => {
                    if c.is_alpha() {
                        proof {
                            if k == ident_len(s) as int {
                                assert(s[k] == c);
                            }
                        }
                        result.push(c);
                        assert(result@ =~= s.take(k + 1));
                        assert(self@ =~= s.skip(k + 1));
                    } else if result.len() == 0 {
                        proof {
                            if k < ident_len(s) as int {
                                assert(s[k] == c);
                            }
                        }
                        return Err(LexError::ExpectedIdent);
                    } else {
                        proof {
                            if k < ident_len(s) as int {
                                assert(s[k] == c);
                            }
                        }
                        self.unget(c);
                        assert(self@ =~= s.skip(k));
                        break;
                    }
                },
                CharOrEof::CoeEof => {
                    if result.len() == 0 {
                        return Err(LexError::ExpectedIdent);
                    }
                    break;
                },
            }
        }
        proof {
            assert forall|i: int| 0 <= i < result@.len() implies #[trigger] result@[i] < 0x80u8 by {
                assert(result@[i] == s[i]);
            }
            lemma_ascii_valid(result@);
        }
        match decode_bytes(result) {
            Some(t) => Ok(t),
            None => Err(LexError::ExpectedIdent),
        }
    }

    /// Consume an identifier, which must equal `expected`.
    pub fn expect_ident(&mut self, expected: &String) -> (r: Result<(), LexError>)
        requires
            old(self).wf(),
        ensures
            final(self).wf(),
            r is Ok <==> ident_ok(old(self)@) && decode_utf8(
                old(self)@.take(ident_len(old(self)@) as int),
            ) == expected@,
            r is Ok ==> final(self)@ == old(self)@.skip(ident_len(old(self)@) as int),
    {
        let actual = self.parse_ident()?;
        if actual == *expected {
            Ok(())
        } else {
            Err(LexError::ExpectedIdent)
        }
    }

    /// Consume a maximal run of whitespace.
    pub fn eat_whitespace(&mut self)
        requires
            old(self).wf(),
        ensures
            final(self).wf(),
            final(self)@ == old(self)@.skip(ws_len(old(self)@) as int),
    {
        let ghost s = self@;
        proof {
            lemma_ws_len(s);
        }
        let ghost mut k: int = 0;
        loop
            invariant
                self.wf(),
                s == old(self)@,
                0 <= k <= ws_len(s),
                self@ == s.skip(k),
                forall|i: int| 0 <= i < ws_len(s) ==> ws_byte(#[trigger] s[i]),
                ws_len(s) <= s.len(),
                ws_len(s) < s.len() ==> !ws_byte(s[ws_len(s) as int]),
            decreases s.len() - k,
        {
            match self.get() {
                CharOrEof::CoeChar(c) => {
                    let w = c.is_whitespace();
                    assert(w == ws_byte(c));
                    if !w {
                        proof {
                            if k < ws_len(s) as int {
                                assert(s[k] == c);
                            }
                        }
                        self.unget(c);
                        assert(self@ =~= s.skip(k));
                        return;
                    }
                    proof {
                        if k == ws_len(s) as int {
                            assert(s[k] == c);
                        }
                    }
                    proof {
                        k = k + 1;
                    }
                    assert(self@ =~= s.skip(k));
                },
                CharOrEof::CoeEof => {
                    return;
                },
            }
        }
    }
}

} // verus!
