//! Looking ahead in the lexer's input without consuming it.
use vstd::prelude::*;

use crate::encoding::{decode_at, decode_spec, line_of, newlines_before, Decoded};
use crate::error::{Error, Located};
use crate::parser::{LexState, Lexer};
use crate::scan::copy_range;

verus! {

/// A stretch of input looked at without being consumed: its bytes, where it
/// starts, and how many newlines it holds.
#[derive(Debug, Clone, PartialEq, Eq)]
pub struct Peek {
    pub slice: Vec<u8>,
    pub from: usize,
    pub lines: usize,
}

/// End of the first `n` characters from `i`, or of the bytes if they end
/// first.
pub open spec fn chars_end(src: Seq<u8>, i: int, n: nat) -> Result<int, Error>
    decreases n,
{
    if n == 0 || i >= src.len() {
        Ok(i)
    } else {
        match decode_spec(src, i) {
            Decoded::Char(w) => chars_end(src, i + w, (n - 1) as nat),
            Decoded::Incomplete => Err(Error::IncompleteUtf8Char),
            Decoded::Invalid => Err(Error::InvalidUtf8),
        }
    }
}

/// Whether the bytes from `a` to `j` end with `pat`.
pub open spec fn ends_with(src: Seq<u8>, a: int, j: int, pat: Seq<u8>) -> bool {
    j - a >= pat.len() && src.subrange(j - pat.len(), j) == pat
}

pub open spec fn any_ends(src: Seq<u8>, a: int, j: int, pats: Seq<&[u8]>) -> bool {
    exists|k: int| 0 <= k < pats.len() && ends_with(src, a, j, #[trigger] pats[k]@)
}

/// Length of the first of `pats`, from the `k`-th on, that the bytes from
/// `a` to `j` end with.
pub open spec fn first_end(src: Seq<u8>, a: int, j: int, pats: Seq<&[u8]>, k: int) -> Option<int>
    decreases pats.len() - k,
{
    if k >= pats.len() || k < 0 {
        None
    } else if ends_with(src, a, j, pats[k]@) {
        Some(pats[k]@.len() as int)
    } else {
        first_end(src, a, j, pats, k + 1)
    }
}

/// Where a look-ahead from `a` stops: after the first character at which the
/// text seen ends with one of `opts` (and with none of `skip`), with or
/// without the match; at the end of the bytes where nothing matched and no
/// match is required.
pub open spec fn until_match(
    src: Seq<u8>,
    a: int,
    i: int,
    opts: Seq<&[u8]>,
    skip: Seq<&[u8]>,
    include_match: bool,
    must_match: bool,
) -> Result<int, Error>
    decreases src.len() - i,
{
    if i >= src.len() {
        if must_match {
            Err(Error::MissingTerminator)
        } else {
            Ok(src.len() as int)
        }
    } else {
        match decode_spec(src, i) {
            Decoded::Char(w) => {
                let j = i + w;
                if w <= 0 {
                    Err(Error::InvalidUtf8)
                } else if any_ends(src, a, j, skip) {
                    until_match(src, a, j, opts, skip, include_match, must_match)
                } else {
                    match first_end(src, a, j, opts, 0) {
                        Some(l) => Ok(
                            if include_match {
                                j
                            } else {
                                j - l
                            },
                        ),
                        None => until_match(src, a, j, opts, skip, include_match, must_match),
                    }
                }
            },
            Decoded::Incomplete => Err(Error::IncompleteUtf8Char),
            Decoded::Invalid => Err(Error::InvalidUtf8),
        }
    }
}

/// Where a look-ahead from `a` stops when it passes over text that keeps
/// ending with one of `opts`: before the first character after which it no
/// longer does. Running into the end of the bytes is an error.
pub open spec fn until_no_match(src: Seq<u8>, a: int, i: int, opts: Seq<&[u8]>) -> Result<
    int,
    Error,
>
    decreases src.len() - i,
{
    if i >= src.len() {
        Err(Error::MissingTerminator)
    } else {
        match decode_spec(src, i) {
            Decoded::Char(w) => if w > 0 && any_ends(src, a, i + w, opts) {
                until_no_match(src, a, i + w, opts)
            } else {
                Ok(i)
            },
            Decoded::Incomplete => Err(Error::IncompleteUtf8Char),
            Decoded::Invalid => Err(Error::InvalidUtf8),
        }
    }
}

/// Whether a peek result is the stretch from the lexer's position to `e`.
pub open spec fn peek_is(p: Peek, s: LexState, e: int) -> bool {
    &&& p.slice@ == s.src.subrange(s.pos, e)
    &&& p.from == s.pos
    &&& p.lines == newlines_before(s.src, e) - newlines_before(s.src, s.pos)
}

fn ends_with_exec(src: &Vec<u8>, a: usize, j: usize, pat: &[u8]) -> (r: bool)
    requires
        a <= j <= src@.len(),
    ensures
        r == ends_with(src@, a as int, j as int, pat@),
{
    let n = pat.len();
    if j - a < n {
        return false;
    }
    let start = j - n;
    let mut k: usize = 0;
    while k < n
        invariant
            start + n == j <= src@.len(),
            k <= n == pat@.len(),
            forall|m: int| 0 <= m < k ==> src@[start + m] == pat@[m],
        decreases n - k,
    {
        if src[start + k] != pat[k] {
            assert(src@.subrange(start as int, j as int)[k as int] != pat@[k as int]);
            return false;
        }
        k = k + 1;
    }
    assert(src@.subrange(start as int, j as int) =~= pat@);
    true
}

fn any_ends_exec(src: &Vec<u8>, a: usize, j: usize, pats: &[&[u8]]) -> (r: bool)
    requires
        a <= j <= src@.len(),
    ensures
        r == any_ends(src@, a as int, j as int, pats@),
{
    let mut k: usize = 0;
    while k < pats.len()
        invariant
            a <= j <= src@.len(),
            k <= pats@.len(),
            forall|m: int| 0 <= m < k ==> !ends_with(src@, a as int, j as int, #[trigger] pats@[m]@),
        decreases pats@.len() - k,
    {
        if ends_with_exec(src, a, j, pats[k]) {
            return true;
        }
        k = k + 1;
    }
    false
}

fn first_end_exec(src: &Vec<u8>, a: usize, j: usize, pats: &[&[u8]]) -> (r: Option<usize>)
    requires
        a <= j <= src@.len(),
    ensures
        match first_end(src@, a as int, j as int, pats@, 0) {
            Some(l) => r == Some(l as usize) && 0 <= l <= j - a,
            None => r is None,
        },
{
    let mut k: usize = 0;
    while k < pats.len()
        invariant
            a <= j <= src@.len(),
            k <= pats@.len(),
            first_end(src@, a as int, j as int, pats@, 0) == first_end(
                src@,
                a as int,
                j as int,
                pats@,
                k as int,
            ),
        decreases pats@.len() - k,
    {
        if ends_with_exec(src, a, j, pats[k]) {
            return Some(pats[k].len());
        }
        k = k + 1;
    }
    None
}

fn count_newlines(src: &Vec<u8>, a: usize, e: usize) -> (r: usize)
    requires
        a <= e <= src@.len(),
    ensures
        r == newlines_before(src@, e as int) - newlines_before(src@, a as int),
{
    let mut nl: usize = 0;
    let mut j = a;
    while j < e
        invariant
            a <= j <= e <= src@.len(),
            nl == newlines_before(src@, j as int) - newlines_before(src@, a as int),
            nl <= j - a,
        decreases e - j,
    {
        if src[j] == 0x0a {
            nl = nl + 1;
        }
        j = j + 1;
    }
    nl
}

impl Lexer {
    /// Looks at up to `len` characters from the current position.
    pub fn peek_to_len(&self, len: usize) -> (r: Result<Peek, Located<Error>>)
        requires
            self.wf(),
        ensures
            match chars_end(self@.src, self@.pos, len as nat) {
                Ok(e) => r is Ok && peek_is(r->Ok_0, self@, e),
                Err(err) => r == Err::<Peek, Located<Error>>(
                    Located { line: line_of(self@.src, self@.pos) as usize, err },
                ),
            },
    {
        proof {
            self.lemma_wf();
        }
        let src = self.bytes_ref();
        let start = self.position();
        let mut pos = start;
        let mut chars: usize = 0;
        while pos < src.len() && chars < len
            invariant
                self.wf(),
                src@ == self@.src,
                start == self@.pos,
                start <= pos <= src@.len() < usize::MAX,
                chars <= len,
                chars_end(src@, start as int, len as nat) == chars_end(
                    src@,
                    pos as int,
                    (len - chars) as nat,
                ),
            decreases src@.len() - pos,
        {
            match decode_at(src, pos) {
                Decoded::Char(w) => {
                    pos = pos + w;
                    chars = chars + 1;
                },
                Decoded::Incomplete => {
                    return Err(Located { line: self.line(), err: Error::IncompleteUtf8Char });
                },
                Decoded::Invalid => {
                    return Err(Located { line: self.line(), err: Error::InvalidUtf8 });
                },
            }
        }
        let slice = copy_range(src, start, pos);
        let lines = count_newlines(src, start, pos);
        Ok(Peek { slice, from: start, lines })
    }

    /// Looks ahead until the text seen ends with one of `opts`, passing over
    /// places where it ends with one of `skip`.
    pub fn peek_until_match(
        &self,
        opts: &[&[u8]],
        skip: &[&[u8]],
        include_match: bool,
        must_match: bool,
    ) -> (r: Result<Peek, Located<Error>>)
        requires
            self.wf(),
        ensures
            match until_match(
                self@.src,
                self@.pos,
                self@.pos,
                opts@,
                skip@,
                include_match,
                must_match,
            ) {
                Ok(e) => r is Ok && peek_is(r->Ok_0, self@, e),
                Err(err) => r == Err::<Peek, Located<Error>>(
                    Located { line: line_of(self@.src, self@.pos) as usize, err },
                ),
            },
    {
        proof {
            self.lemma_wf();
        }
        let src = self.bytes_ref();
        let start = self.position();
        let mut pos = start;
        while pos < src.len()
            invariant
                self.wf(),
                src@ == self@.src,
                start == self@.pos,
                start <= pos <= src@.len() < usize::MAX,
                until_match(src@, start as int, start as int, opts@, skip@, include_match, must_match)
                    == until_match(
                    src@,
                    start as int,
                    pos as int,
                    opts@,
                    skip@,
                    include_match,
                    must_match,
                ),
            decreases src@.len() - pos,
        {
            match decode_at(src, pos) {
                Decoded::Char(w) => {
                    let j = pos + w;
                    if !any_ends_exec(src, start, j, skip) {
                        match first_end_exec(src, start, j, opts) {
                            Some(l) => {
                                let e = if include_match {
                                    j
                                } else {
                                    j - l
                                };
                                let slice = copy_range(src, start, e);
                                let lines = count_newlines(src, start, e);
                                return Ok(Peek { slice, from: start, lines });
                            },
                            None => {},
                        }
                    }
                    pos = j;
                },
                Decoded::Incomplete => {
                    return Err(Located { line: self.line(), err: Error::IncompleteUtf8Char });
                },
                Decoded::Invalid => {
                    return Err(Located { line: self.line(), err: Error::InvalidUtf8 });
                },
            }
        }
        if must_match {
            return Err(Located { line: self.line(), err: Error::MissingTerminator });
        }
        let slice = copy_range(src, start, pos);
        let lines = count_newlines(src, start, pos);
        Ok(Peek { slice, from: start, lines })
    }

    /// Looks ahead over text that keeps ending with one of `opts`, such as a
    /// run of `#`.
    pub fn peek_until_not_match(&self, opts: &[&[u8]]) -> (r: Result<Peek, Located<Error>>)
        requires
            self.wf(),
        ensures
            match until_no_match(self@.src, self@.pos, self@.pos, opts@) {
                Ok(e) => r is Ok && peek_is(r->Ok_0, self@, e),
                Err(err) => r == Err::<Peek, Located<Error>>(
                    Located { line: line_of(self@.src, self@.pos) as usize, err },
                ),
            },
    {
        proof {
            self.lemma_wf();
        }
        let src = self.bytes_ref();
        let start = self.position();
        let mut pos = start;
        while pos < src.len()
            invariant
                self.wf(),
                src@ == self@.src,
                start == self@.pos,
                start <= pos <= src@.len() < usize::MAX,
                until_no_match(src@, start as int, start as int, opts@) == until_no_match(
                    src@,
                    start as int,
                    pos as int,
                    opts@,
                ),
            decreases src@.len() - pos,
        {
            match decode_at(src, pos) {
                Decoded::Char(w) => {
                    if !any_ends_exec(src, start, pos + w, opts) {
                        let slice = copy_range(src, start, pos);
                        let lines = count_newlines(src, start, pos);
                        return Ok(Peek { slice, from: start, lines });
                    }
                    pos = pos + w;
                },
                Decoded::Incomplete => {
                    return Err(Located { line: self.line(), err: Error::IncompleteUtf8Char });
                },
                Decoded::Invalid => {
                    return Err(Located { line: self.line(), err: Error::InvalidUtf8 });
                },
            }
        }
        Err(Located { line: self.line(), err: Error::MissingTerminator })
    }

    /// Consumes what was peeked from the current position.
    pub fn advance(&mut self, peek: Peek)
        requires
            old(self).wf(),
            peek.from == old(self)@.pos,
            old(self)@.pos + peek.slice@.len() <= old(self)@.src.len(),
        ensures
            final(self).wf(),
            final(self)@ == (LexState { pos: old(self)@.pos + peek.slice@.len(), ..old(self)@ }),
    {
        proof {
            self.lemma_wf();
        }
        let to = peek.from + peek.slice.len();
        self.advance_to(to);
    }
}

} // verus!
