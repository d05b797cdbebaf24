//! Scanning the bodies of strings and comments, one character at a time.
use vstd::prelude::*;

use vstd::utf8::valid_utf8;

use crate::encoding::{decode_at, decode_spec, lemma_ascii_valid, lemma_char_valid, Decoded};
use crate::error::Error;

verus! {

/// The longest run of `#` that may fence a literal string.
pub const MAX_FENCE: usize = 20;

/// What is being scanned, from just past its opening delimiter.
#[derive(Debug, Clone, Copy, PartialEq, Eq, Structural)]
pub enum BodyKind {
    /// A quoted string, up to an unescaped `"`.
    Quoted,
    /// A literal string, up to `"` followed by this many `#`.
    Literal(usize),
    /// The rest of a line, newline included.
    Line,
    /// A block comment, up to `*/`.
    Block,
}

/// How a scan ends: the position past the body with the body's bytes (escapes
/// resolved), a want of more input, or an error at a byte position.
pub enum ScanV {
    Done(int, Seq<u8>),
    Incomplete,
    Fail(Error, int),
}

/// One step of a scan: either some bytes of the body and where to go on, or
/// the end of the scan.
pub enum StepV {
    More(int, Seq<u8>),
    Stop(ScanV),
}

pub open spec fn escape_of(c: u8) -> Option<u8> {
    if c == 0x22 {
        Some(0x22u8)
    } else if c == 0x27 {
        Some(0x27u8)
    } else if c == 0x6e {
        Some(0x0au8)
    } else if c == 0x72 {
        Some(0x0du8)
    } else if c == 0x74 {
        Some(0x09u8)
    } else if c == 0x5c {
        Some(0x5cu8)
    } else if c == 0x30 {
        Some(0x00u8)
    } else {
        None
    }
}

pub open spec fn all_hash(src: Seq<u8>, a: int, b: int) -> bool {
    forall|k: int| a <= k < b ==> #[trigger] src[k] == 0x23
}

/// One character of body text, kept as it is.
pub open spec fn char_step(src: Seq<u8>, i: int, complete: bool) -> StepV {
    match decode_spec(src, i) {
        Decoded::Char(w) => StepV::More(i + w, src.subrange(i, i + w)),
        Decoded::Incomplete => if complete {
            StepV::Stop(ScanV::Fail(Error::InvalidUtf8, i))
        } else {
            StepV::Stop(ScanV::Incomplete)
        },
        Decoded::Invalid => StepV::Stop(ScanV::Fail(Error::InvalidUtf8, i)),
    }
}

pub open spec fn scan_step(src: Seq<u8>, i: int, kind: BodyKind, complete: bool) -> StepV {
    let len = src.len();
    if i >= len {
        if kind == BodyKind::Line && complete {
            StepV::Stop(ScanV::Done(i, Seq::empty()))
        } else if complete {
            StepV::Stop(ScanV::Fail(Error::MissingTerminator, i))
        } else {
            StepV::Stop(ScanV::Incomplete)
        }
    } else {
        match kind {
            BodyKind::Quoted => if src[i] == 0x22 {
                StepV::Stop(ScanV::Done(i + 1, Seq::empty()))
            } else if src[i] == 0x5c {
                if i + 1 >= len {
                    if complete {
                        StepV::Stop(ScanV::Fail(Error::MissingTerminator, i + 1))
                    } else {
                        StepV::Stop(ScanV::Incomplete)
                    }
                } else {
                    match escape_of(src[i + 1]) {
                        Some(b) => StepV::More(i + 2, seq![b]),
                        None => StepV::Stop(ScanV::Fail(Error::InvalidEscapeSequence, i)),
                    }
                }
            } else {
                char_step(src, i, complete)
            },
            BodyKind::Literal(n) => if src[i] == 0x22 && i + 1 + n <= len && all_hash(
                src,
                i + 1,
                i + 1 + n,
            ) {
                StepV::Stop(ScanV::Done(i + 1 + n, Seq::empty()))
            } else if src[i] == 0x22 && i + 1 + n > len && all_hash(src, i + 1, len as int)
                && !complete {
                StepV::Stop(ScanV::Incomplete)
            } else {
                char_step(src, i, complete)
            },
            BodyKind::Line => if src[i] == 0x0a {
                StepV::Stop(ScanV::Done(i + 1, seq![0x0au8]))
            } else {
                char_step(src, i, complete)
            },
            BodyKind::Block => if src[i] == 0x2a && i + 1 < len && src[i + 1] == 0x2f {
                StepV::Stop(ScanV::Done(i + 2, Seq::empty()))
            } else if src[i] == 0x2a && i + 1 >= len && !complete {
                StepV::Stop(ScanV::Incomplete)
            } else {
                char_step(src, i, complete)
            },
        }
    }
}

pub open spec fn prepend(chunk: Seq<u8>, r: ScanV) -> ScanV {
    match r {
        ScanV::Done(e, body) => ScanV::Done(e, chunk + body),
        other => other,
    }
}

/// The whole scan of a body that starts at `i`.
pub open spec fn body_scan(src: Seq<u8>, i: int, kind: BodyKind, complete: bool) -> ScanV
    decreases src.len() - i,
{
    match scan_step(src, i, kind, complete) {
        StepV::More(j, chunk) => if i < j <= src.len() {
            prepend(chunk, body_scan(src, j, kind, complete))
        } else {
            // Never taken (`lemma_more_advances`); keeps termination plain.
            ScanV::Fail(Error::UnexpectedChar, i)
        },
        StepV::Stop(r) => r,
    }
}

/// The executable form of a finished scan.
pub enum Scan {
    Done(usize, Vec<u8>),
    Incomplete,
    Fail(Error, usize),
}

impl View for Scan {
    type V = ScanV;

    open spec fn view(&self) -> ScanV {
        match self {
            Scan::Done(e, b) => ScanV::Done(*e as int, b@),
            Scan::Incomplete => ScanV::Incomplete,
            Scan::Fail(err, q) => ScanV::Fail(*err, *q as int),
        }
    }
}

/// The executable form of one scan step.
pub enum Step {
    More(usize, Vec<u8>),
    Stop(Scan),
}

impl View for Step {
    type V = StepV;

    open spec fn view(&self) -> StepV {
        match self {
            Step::More(j, b) => StepV::More(*j as int, b@),
            Step::Stop(s) => StepV::Stop(s@),
        }
    }
}

pub fn copy_range(src: &Vec<u8>, a: usize, b: usize) -> (r: Vec<u8>)
    requires
        a <= b <= src@.len(),
    ensures
        r@ == src@.subrange(a as int, b as int),
{
    let mut out: Vec<u8> = Vec::new();
    let mut k = a;
    while k < b
        invariant
            a <= k <= b <= src@.len(),
            out@ == src@.subrange(a as int, k as int),
        decreases b - k,
    {
        out.push(src[k]);
        k = k + 1;
        assert(out@ =~= src@.subrange(a as int, k as int));
    }
    out
}

fn char_step_exec(src: &Vec<u8>, i: usize, complete: bool) -> (r: Step)
    requires
        i < src@.len() < usize::MAX,
    ensures
        r@ == char_step(src@, i as int, complete),
{
    match decode_at(src, i) {
        Decoded::Char(w) => Step::More(i + w, copy_range(src, i, i + w)),
        Decoded::Incomplete => if complete {
            Step::Stop(Scan::Fail(Error::InvalidUtf8, i))
        } else {
            Step::Stop(Scan::Incomplete)
        },
        Decoded::Invalid => Step::Stop(Scan::Fail(Error::InvalidUtf8, i)),
    }
}

fn escape_exec(c: u8) -> (r: Option<u8>)
    ensures
        r == escape_of(c),
{
    if c == 0x22 {
        Some(0x22)
    } else if c == 0x27 {
        Some(0x27)
    } else if c == 0x6e {
        Some(0x0a)
    } else if c == 0x72 {
        Some(0x0d)
    } else if c == 0x74 {
        Some(0x09)
    } else if c == 0x5c {
        Some(0x5c)
    } else if c == 0x30 {
        Some(0x00)
    } else {
        None
    }
}

fn all_hash_exec(src: &Vec<u8>, a: usize, b: usize) -> (r: bool)
    requires
        a <= b <= src@.len(),
    ensures
        r == all_hash(src@, a as int, b as int),
{
    let mut k = a;
    while k < b
        invariant
            a <= k <= b <= src@.len(),
            all_hash(src@, a as int, k as int),
        decreases b - k,
    {
        if src[k] != 0x23 {
            return false;
        }
        k = k + 1;
    }
    true
}

fn scan_step_exec(src: &Vec<u8>, i: usize, kind: BodyKind, complete: bool) -> (r: Step)
    requires
        src@.len() < usize::MAX,
        kind matches BodyKind::Literal(n) ==> n <= MAX_FENCE,
    ensures
        r@ == scan_step(src@, i as int, kind, complete),
{
    let len = src.len();
    if i >= len {
        if kind == BodyKind::Line && complete {
            return Step::Stop(Scan::Done(i, Vec::new()));
        } else if complete {
            return Step::Stop(Scan::Fail(Error::MissingTerminator, i));
        } else {
            return Step::Stop(Scan::Incomplete);
        }
    }
    let c = src[i];
    match kind {
        BodyKind::Quoted => {
            if c == 0x22 {
                Step::Stop(Scan::Done(i + 1, Vec::new()))
            } else if c == 0x5c {
                if i + 1 >= len {
                    if complete {
                        Step::Stop(Scan::Fail(Error::MissingTerminator, i + 1))
                    } else {
                        Step::Stop(Scan::Incomplete)
                    }
                } else {
                    match escape_exec(src[i + 1]) {
                        Some(b) => {
                            let mut v: Vec<u8> = Vec::new();
                            v.push(b);
                            assert(v@ =~= seq![b]);
                            Step::More(i + 2, v)
                        },
                        None => Step::Stop(Scan::Fail(Error::InvalidEscapeSequence, i)),
                    }
                }
            } else {
                char_step_exec(src, i, complete)
            }
        },
        BodyKind::Literal(n) => {
            if c == 0x22 && n < len - i && all_hash_exec(src, i + 1, i + 1 + n) {
                Step::Stop(Scan::Done(i + 1 + n, Vec::new()))
            } else if c == 0x22 && n >= len - i && all_hash_exec(src, i + 1, len) && !complete {
                Step::Stop(Scan::Incomplete)
            } else {
                char_step_exec(src, i, complete)
            }
        },
        BodyKind::Line => {
            if c == 0x0a {
                let mut v: Vec<u8> = Vec::new();
                v.push(0x0a);
                assert(v@ =~= seq![0x0au8]);
                Step::Stop(Scan::Done(i + 1, v))
            } else {
                char_step_exec(src, i, complete)
            }
        },
        BodyKind::Block => {
            if c == 0x2a && i + 1 < len && src[i + 1] == 0x2f {
                Step::Stop(Scan::Done(i + 2, Vec::new()))
            } else if c == 0x2a && i + 1 >= len && !complete {
                Step::Stop(Scan::Incomplete)
            } else {
                char_step_exec(src, i, complete)
            }
        },
    }
}

/// Scans a body from `start`, as `body_scan` says.
pub fn scan_body(src: &Vec<u8>, start: usize, kind: BodyKind, complete: bool) -> (r: Scan)
    requires
        src@.len() < usize::MAX,
        kind matches BodyKind::Literal(n) ==> n <= MAX_FENCE,
    ensures
        r@ == body_scan(src@, start as int, kind, complete),
{
    let mut acc: Vec<u8> = Vec::new();
    let mut i = start;
    loop
        invariant
            src@.len() < usize::MAX,
            kind matches BodyKind::Literal(n) ==> n <= MAX_FENCE,
            start <= i,
            i <= src@.len() || i == start,
            body_scan(src@, start as int, kind, complete) == prepend(
                acc@,
                body_scan(src@, i as int, kind, complete),
            ),
        decreases src@.len() - i,
    {
        let st = scan_step_exec(src, i, kind, complete);
        match st {
            Step::More(j, chunk) => {
                proof {
                    lemma_more_advances(src@, i as int, kind, complete);
                    let rest = body_scan(src@, j as int, kind, complete);
                    assert(body_scan(src@, i as int, kind, complete) == prepend(chunk@, rest));
                    match rest {
                        ScanV::Done(e, b) => {
                            assert(acc@ + (chunk@ + b) =~= (acc@ + chunk@) + b);
                        },
                        _ => {},
                    }
                }
                let mut chunk = chunk;
                acc.append(&mut chunk);
                i = j;
            },
            Step::Stop(r) => {
                proof {
                    assert(body_scan(src@, i as int, kind, complete) == r@);
                }
                return match r {
                    Scan::Done(e, b) => {
                        let mut b = b;
                        let mut out = acc;
                        out.append(&mut b);
                        Scan::Done(e, out)
                    },
                    Scan::Incomplete => Scan::Incomplete,
                    Scan::Fail(err, q) => Scan::Fail(err, q),
                };
            },
        }
    }
}

/// A finished scan ends within the bytes, at or past where it started.
pub proof fn lemma_body_scan_bounds(src: Seq<u8>, i: int, kind: BodyKind, complete: bool)
    requires
        0 <= i <= src.len(),
    ensures
        body_scan(src, i, kind, complete) matches ScanV::Done(e, _) ==> i <= e <= src.len(),
        body_scan(src, i, kind, complete) matches ScanV::Fail(_, q) ==> i <= q <= src.len(),
    decreases src.len() - i,
{
    match scan_step(src, i, kind, complete) {
        StepV::More(j, chunk) => {
            if i < j <= src.len() {
                lemma_body_scan_bounds(src, j, kind, complete);
            }
        },
        StepV::Stop(r) => {},
    }
}

/// What a step adds to a body is valid UTF-8 by itself.
proof fn lemma_step_chunk_valid(src: Seq<u8>, i: int, kind: BodyKind, complete: bool)
    requires
        0 <= i,
    ensures
        scan_step(src, i, kind, complete) matches StepV::More(_, chunk) ==> valid_utf8(chunk),
        scan_step(src, i, kind, complete) matches StepV::Stop(ScanV::Done(_, body)) ==> valid_utf8(
            body,
        ),
{
    if i < src.len() {
        if decode_spec(src, i) is Char {
            lemma_char_valid(src, i);
        }
        if i + 1 < src.len() {
            if let Some(b) = escape_of(src[i + 1]) {
                lemma_ascii_valid(seq![b]);
            }
        }
        lemma_ascii_valid(seq![0x0au8]);
    }
    lemma_ascii_valid(Seq::<u8>::empty());
}

/// The body of a finished scan is valid UTF-8.
pub proof fn lemma_body_scan_valid(src: Seq<u8>, i: int, kind: BodyKind, complete: bool)
    requires
        0 <= i,
    ensures
        body_scan(src, i, kind, complete) matches ScanV::Done(_, body) ==> valid_utf8(body),
    decreases src.len() - i,
{
    lemma_step_chunk_valid(src, i, kind, complete);
    match scan_step(src, i, kind, complete) {
        StepV::More(j, chunk) => {
            if i < j <= src.len() {
                lemma_body_scan_valid(src, j, kind, complete);
                match body_scan(src, j, kind, complete) {
                    ScanV::Done(_, rest) => {
                        vstd::utf8::valid_utf8_concat(chunk, rest);
                    },
                    _ => {},
                }
            }
        },
        StepV::Stop(_) => {},
    }
}

/// A step that goes on always moves forward and stays within the bytes.
pub proof fn lemma_more_advances(src: Seq<u8>, i: int, kind: BodyKind, complete: bool)
    ensures
        scan_step(src, i, kind, complete) matches StepV::More(j, _) ==> i < j <= src.len(),
{
}

} // verus!
