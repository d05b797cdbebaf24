//! UTF-8 decoding over a growable byte buffer.
use vstd::prelude::*;
use vstd::string::StringSliceAdditionalSpecFns;
use vstd::utf8::*;

use crate::error::{Error, Located};

verus! {

pub const START_LINE: usize = 1;

pub const NEWLINE: u8 = 0x0A;

/// Width in bytes of the sequence that a lead byte opens; 0 where the byte
/// cannot open a sequence (continuation bytes, 0xC0, 0xC1 and 0xF5 up).
pub open spec fn lead_width(b: u8) -> int {
    if b <= 0x7f {
        1
    } else if b < 0xc2 {
        0
    } else if b <= 0xdf {
        2
    } else if b <= 0xef {
        3
    } else if b <= 0xf4 {
        4
    } else {
        0
    }
}

/// Outcome of decoding the character that starts at some position.
#[derive(Debug, Clone, Copy, PartialEq, Eq, Structural)]
pub enum Decoded {
    /// A valid character of the given width in bytes.
    Char(usize),
    /// The lead byte asks for more bytes than the buffer holds.
    Incomplete,
    /// The bytes are not valid UTF-8.
    Invalid,
}

/// What decoding at `pos` yields, in terms of vstd's UTF-8 definitions.
pub open spec fn decode_spec(src: Seq<u8>, pos: int) -> Decoded {
    let w = lead_width(src[pos]);
    if w == 0 {
        Decoded::Invalid
    } else if pos + w > src.len() {
        Decoded::Incomplete
    } else if valid_first_scalar(src.subrange(pos, pos + w)) {
        Decoded::Char(w as usize)
    } else {
        Decoded::Invalid
    }
}

/// Number of newline bytes among the first `n` bytes of `s`. A newline byte
/// never occurs inside a multi-byte sequence, so this counts characters too.
pub open spec fn newlines_before(s: Seq<u8>, n: int) -> int
    decreases n,
{
    if n <= 0 {
        0
    } else {
        newlines_before(s, n - 1) + if s[n - 1] == NEWLINE {
            1int
        } else {
            0int
        }
    }
}

/// The 1-based line on which the byte at `pos` stands.
pub open spec fn line_of(s: Seq<u8>, pos: int) -> int {
    START_LINE + newlines_before(s, pos)
}

pub proof fn lemma_newlines_bounded(s: Seq<u8>, n: int)
    requires
        0 <= n <= s.len(),
    ensures
        0 <= newlines_before(s, n) <= n,
    decreases n,
{
    if n > 0 {
        lemma_newlines_bounded(s, n - 1);
    }
}

pub proof fn lemma_newlines_monotonic(s: Seq<u8>, a: int, b: int)
    requires
        0 <= a <= b <= s.len(),
    ensures
        newlines_before(s, a) <= newlines_before(s, b),
        newlines_before(s, b) - newlines_before(s, a) <= b - a,
    decreases b,
{
    if b > a {
        lemma_newlines_monotonic(s, a, b - 1);
    }
}

/// Counting stays the same where only bytes past the counted prefix change.
pub proof fn lemma_newlines_prefix(s: Seq<u8>, t: Seq<u8>, n: int)
    requires
        0 <= n <= s.len(),
        n <= t.len(),
        s.subrange(0, n) == t.subrange(0, n),
    ensures
        newlines_before(s, n) == newlines_before(t, n),
    decreases n,
{
    if n > 0 {
        assert(s.subrange(0, n - 1) == t.subrange(0, n - 1)) by {
            assert(s.subrange(0, n - 1) =~= s.subrange(0, n).subrange(0, n - 1));
            assert(t.subrange(0, n - 1) =~= t.subrange(0, n).subrange(0, n - 1));
        }
        assert(s[n - 1] == s.subrange(0, n)[n - 1]);
        assert(t[n - 1] == t.subrange(0, n)[n - 1]);
        lemma_newlines_prefix(s, t, n - 1);
    }
}

pub fn utf8_char_width(b: u8) -> (r: usize)
    ensures
        r == lead_width(b),
{
    if b <= 0x7f {
        1
    } else if b < 0xc2 {
        0
    } else if b <= 0xdf {
        2
    } else if b <= 0xef {
        3
    } else if b <= 0xf4 {
        4
    } else {
        0
    }
}

fn is_continuation(b: u8) -> (r: bool)
    ensures
        r == is_continuation_byte(b),
{
    0x80 <= b && b <= 0xbf
}

/// Decodes the character that starts at `pos`.
pub fn decode_at(src: &Vec<u8>, pos: usize) -> (r: Decoded)
    requires
        pos < src@.len(),
    ensures
        r == decode_spec(src@, pos as int),
{
    let b0 = src[pos];
    let w = utf8_char_width(b0);
    if w == 0 {
        return Decoded::Invalid;
    }
    if w > src.len() - pos {
        return Decoded::Incomplete;
    }
    let ghost sub = src@.subrange(pos as int, pos + w);
    assert(sub[0] == b0);
    if w == 1 {
        return Decoded::Char(1);
    }
    let b1 = src[pos + 1];
    assert(sub[1] == b1);
    if !is_continuation(b1) {
        return Decoded::Invalid;
    }
    if w == 2 {
        let cp: u32 = (((b0 & 0x1f) as u32) << 6u32) | ((b1 & 0x3f) as u32);
        assert(cp == decode_first_codepoint(sub));
        assert(cp <= 0x7ff) by (bit_vector)
            requires
                cp == (((b0 & 0x1f) as u32) << 6u32) | ((b1 & 0x3f) as u32),
        ;
        if cp >= 0x80 {
            return Decoded::Char(2);
        } else {
            return Decoded::Invalid;
        }
    }
    let b2 = src[pos + 2];
    assert(sub[2] == b2);
    if !is_continuation(b2) {
        return Decoded::Invalid;
    }
    if w == 3 {
        let cp: u32 = (((b0 & 0x0f) as u32) << 12u32) | (((b1 & 0x3f) as u32) << 6u32) | ((b2
            & 0x3f) as u32);
        assert(cp == decode_first_codepoint(sub));
        if cp >= 0x800 && !(0xd800 <= cp && cp <= 0xdfff) {
            return Decoded::Char(3);
        } else {
            return Decoded::Invalid;
        }
    }
    let b3 = src[pos + 3];
    assert(sub[3] == b3);
    if !is_continuation(b3) {
        return Decoded::Invalid;
    }
    let cp: u32 = (((b0 & 0x07) as u32) << 18u32) | (((b1 & 0x3f) as u32) << 12u32) | (((b2
        & 0x3f) as u32) << 6u32) | ((b3 & 0x3f) as u32);
    assert(cp == decode_first_codepoint(sub));
    if 0x10000 <= cp && cp <= 0x10ffff && !(0xd800 <= cp && cp <= 0xdfff) {
        Decoded::Char(4)
    } else {
        Decoded::Invalid
    }
}

} // verus!

verus! {

/// A cursor over UTF-8 bytes that may still grow: bytes are fed in as they
/// arrive, and characters are decoded one at a time while the line number
/// is kept up to date.
pub struct Utf8Decoder {
    pub(crate) src: Vec<u8>,
    pub(crate) pos: usize,
    pub(crate) line: usize,
}

/// Appends every byte of `more` to `v`.
pub fn append_bytes(v: &mut Vec<u8>, more: &[u8])
    ensures
        final(v)@ == old(v)@ + more@,
{
    let mut i: usize = 0;
    while i < more.len()
        invariant
            i <= more@.len(),
            v@ == old(v)@ + more@.subrange(0, i as int),
        decreases more@.len() - i,
    {
        v.push(more[i]);
        i = i + 1;
        assert(v@ =~= old(v)@ + more@.subrange(0, i as int));
    }
    assert(more@.subrange(0, i as int) =~= more@);
}

impl Utf8Decoder {
    pub closed spec fn wf(&self) -> bool {
        &&& self.pos <= self.src@.len() < usize::MAX
        &&& self.line == line_of(self.src@, self.pos as int)
    }

    pub closed spec fn bytes(&self) -> Seq<u8> {
        self.src@
    }

    pub closed spec fn position(&self) -> int {
        self.pos as int
    }

    /// A decoder over the bytes of `s`, at its first byte.
    pub fn from(s: &str) -> (r: Self)
        requires
            s.spec_bytes().len() < usize::MAX,
        ensures
            r.wf(),
            r.bytes() == s.spec_bytes(),
            r.position() == 0,
    {
        let mut src: Vec<u8> = Vec::new();
        append_bytes(&mut src, s.as_bytes());
        assert(src@ =~= s.spec_bytes());
        Utf8Decoder { src, pos: 0, line: START_LINE }
    }

    /// Appends bytes that have arrived; what was decoded so far is untouched.
    pub fn feed(&mut self, more: &[u8])
        requires
            old(self).wf(),
            old(self).bytes().len() + more@.len() < usize::MAX,
        ensures
            final(self).wf(),
            final(self).bytes() == old(self).bytes() + more@,
            final(self).position() == old(self).position(),
    {
        let ghost old_src = self.src@;
        append_bytes(&mut self.src, more);
        proof {
            assert(old_src.subrange(0, self.pos as int) =~= self.src@.subrange(0, self.pos as int));
            lemma_newlines_prefix(old_src, self.src@, self.pos as int);
        }
    }

    /// Decodes the next character without consuming it; `None` at the end of
    /// the bytes.
    pub fn peek(&self) -> (r: Option<Decoded>)
        requires
            self.wf(),
        ensures
            self.position() == self.bytes().len() ==> r is None,
            self.position() < self.bytes().len() ==> r == Some(
                decode_spec(self.bytes(), self.position()),
            ),
    {
        if self.pos >= self.src.len() {
            None
        } else {
            Some(decode_at(&self.src, self.pos))
        }
    }

    /// Decodes and consumes the next character, returning its bytes. A
    /// character cut off by the end of the bytes, or an invalid one, is an
    /// error at the current line and consumes nothing.
    pub fn next(&mut self) -> (r: Option<Result<Vec<u8>, Located<Error>>>)
        requires
            old(self).wf(),
        ensures
            final(self).wf(),
            final(self).bytes() == old(self).bytes(),
            old(self).position() == old(self).bytes().len() ==> (r is None) && final(self).position()
                == old(self).position(),
            old(self).position() < old(self).bytes().len() ==> match decode_spec(
                old(self).bytes(),
                old(self).position(),
            ) {
                Decoded::Char(w) => (r is Some) && (r->Some_0 is Ok) && r->Some_0->Ok_0@ == old(
                    self).bytes().subrange(old(self).position(), old(self).position() + w) && final(
                    self).position() == old(self).position() + w,
                Decoded::Incomplete => r == Some(
                    Err::<Vec<u8>, Located<Error>>(
                        Located {
                            line: line_of(old(self).bytes(), old(self).position()) as usize,
                            err: Error::IncompleteUtf8Char,
                        },
                    ),
                ) && final(self).position() == old(self).position(),
                Decoded::Invalid => r == Some(
                    Err::<Vec<u8>, Located<Error>>(
                        Located {
                            line: line_of(old(self).bytes(), old(self).position()) as usize,
                            err: Error::InvalidUtf8,
                        },
                    ),
                ) && final(self).position() == old(self).position(),
            },
    {
        if self.pos >= self.src.len() {
            return None;
        }
        match decode_at(&self.src, self.pos) {
            Decoded::Char(w) => {
                let mut out: Vec<u8> = Vec::new();
                let start = self.pos;
                let mut i: usize = 0;
                while i < w
                    invariant
                        self.wf(),
                        start == self.pos,
                        start + w <= self.src@.len(),
                        i <= w,
                        out@ == self.src@.subrange(start as int, start + i),
                    decreases w - i,
                {
                    out.push(self.src[start + i]);
                    i = i + 1;
                    assert(out@ =~= self.src@.subrange(start as int, start + i));
                }
                let ghost src = self.src@;
                let mut nl: usize = 0;
                let mut j: usize = 0;
                while j < w
                    invariant
                        src == self.src@,
                        start == self.pos,
                        start + w <= src.len(),
                        j <= w,
                        nl <= j,
                        src.len() < usize::MAX,
                        nl == newlines_before(src, start + j) - newlines_before(src, start as int),
                    decreases w - j,
                {
                    if self.src[start + j] == NEWLINE {
                        nl = nl + 1;
                    }
                    j = j + 1;
                }
                proof {
                    lemma_newlines_monotonic(src, start as int, start + w);
                    lemma_newlines_bounded(src, start + w);
                }
                self.pos = start + w;
                self.line = self.line + nl;
                Some(Ok(out))
            },
            Decoded::Incomplete => Some(Err(Located::new(self.line, Error::IncompleteUtf8Char))),
            Decoded::Invalid => Some(Err(Located::new(self.line, Error::InvalidUtf8))),
        }
    }

    pub fn pos(&self) -> (r: usize)
        ensures
            r == self.position(),
    {
        self.pos
    }

    pub fn line(&self) -> (r: usize)
        requires
            self.wf(),
        ensures
            r == line_of(self.bytes(), self.position()),
    {
        self.line
    }

    /// Whether every byte fed so far has been consumed.
    pub fn eof(&self) -> (r: bool)
        ensures
            r == (self.position() >= self.bytes().len()),
    {
        self.pos >= self.src.len()
    }
}

impl Utf8Decoder {
    /// The line on which the byte at `q` stands, for `q` at or past the
    /// current position.
    pub fn line_at(&self, q: usize) -> (r: usize)
        requires
            self.wf(),
            self.position() <= q <= self.bytes().len(),
        ensures
            r == line_of(self.bytes(), q as int),
    {
        let mut nl: usize = 0;
        let mut j: usize = self.pos;
        while j < q
            invariant
                self.wf(),
                self.pos <= j <= q <= self.src@.len(),
                nl == newlines_before(self.src@, j as int) - newlines_before(
                    self.src@,
                    self.pos as int,
                ),
            decreases q - j,
        {
            proof {
                lemma_newlines_monotonic(self.src@, self.pos as int, j as int);
                lemma_newlines_bounded(self.src@, self.pos as int);
            }
            if self.src[j] == NEWLINE {
                nl = nl + 1;
            }
            j = j + 1;
        }
        proof {
            lemma_newlines_monotonic(self.src@, self.pos as int, q as int);
            lemma_newlines_bounded(self.src@, q as int);
        }
        self.line + nl
    }

    /// Moves the position forward to `q`, keeping the line number right.
    pub fn advance_to(&mut self, q: usize)
        requires
            old(self).wf(),
            old(self).position() <= q <= old(self).bytes().len(),
        ensures
            final(self).wf(),
            final(self).bytes() == old(self).bytes(),
            final(self).position() == q,
    {
        let l = self.line_at(q);
        self.pos = q;
        self.line = l;
    }
}

/// Relies on `String::from_utf8_lossy`: bytes that are valid UTF-8 come out
/// decoded as they are.
#[verifier::external_body]
pub(crate) fn string_from_utf8(b: &[u8]) -> (r: String)
    requires
        valid_utf8(b@),
    ensures
        r@ == decode_utf8(b@),
{
    String::from_utf8_lossy(b).into_owned()
}

/// The bytes of one decoded character are valid UTF-8 by themselves.
pub proof fn lemma_char_valid(src: Seq<u8>, i: int)
    requires
        0 <= i < src.len(),
        decode_spec(src, i) is Char,
    ensures
        valid_utf8(src.subrange(i, i + (decode_spec(src, i)->Char_0) as int)),
{
    let w = (decode_spec(src, i)->Char_0) as int;
    let sub = src.subrange(i, i + w);
    assert(sub[0] == src[i]);
    assert(length_of_first_scalar(sub) == w);
    assert(pop_first_scalar(sub) =~= Seq::<u8>::empty());
    reveal_with_fuel(valid_utf8, 2);
}

/// ASCII bytes are valid UTF-8.
pub proof fn lemma_ascii_valid(b: Seq<u8>)
    requires
        forall|j: int| 0 <= j < b.len() ==> #[trigger] b[j] < 0x80,
    ensures
        valid_utf8(b),
    decreases b.len(),
{
    if b.len() > 0 {
        let rest = b.subrange(1, b.len() as int);
        assert forall|j: int| 0 <= j < rest.len() implies #[trigger] rest[j] < 0x80 by {
            assert(rest[j] == b[j + 1]);
        }
        lemma_ascii_valid(rest);
        assert(pop_first_scalar(b) =~= rest);
    }
}

impl Utf8Decoder {
    pub proof fn lemma_bounds(&self)
        requires
            self.wf(),
        ensures
            0 <= self.position() <= self.bytes().len() < usize::MAX,
    {
    }

    /// The bytes fed so far.
    pub fn bytes_ref(&self) -> (r: &Vec<u8>)
        ensures
            r@ == self.bytes(),
    {
        &self.src
    }

    /// A decoder over no bytes yet.
    pub fn empty() -> (r: Self)
        ensures
            r.wf(),
            r.bytes() == Seq::<u8>::empty(),
            r.position() == 0,
    {
        Utf8Decoder { src: Vec::new(), pos: 0, line: START_LINE }
    }
}

} // verus!
