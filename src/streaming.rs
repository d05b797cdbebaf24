//! Feeding the lexer in pieces: a step that has decided, without asking for
//! more bytes, decides the same way whatever bytes are appended later.
use vstd::prelude::*;

use crate::encoding::{decode_spec, lead_width, Decoded};
use crate::parser::{
    is_id_char, is_num_char, lemma_hash_end, lemma_run_end, literal_token, number_token, run_end,
    hash_end, step,
    step_at, string_token, token_at, word_token, comment_end, LexState, Outcome,
};
use crate::scan::{all_hash, body_scan, char_step, lemma_body_scan_bounds, scan_step, BodyKind, ScanV, StepV};

verus! {

/// The state `s` with `more` appended to its bytes.
pub open spec fn extended(s: LexState, more: Seq<u8>) -> LexState {
    LexState { src: s.src + more, ..s }
}

proof fn lemma_decode_ext(src: Seq<u8>, more: Seq<u8>, i: int)
    requires
        0 <= i < src.len(),
        !(decode_spec(src, i) is Incomplete),
    ensures
        decode_spec(src + more, i) == decode_spec(src, i),
{
    let t = src + more;
    assert(t[i] == src[i]);
    let w = lead_width(src[i]);
    if w != 0 {
        assert(t.subrange(i, i + w) =~= src.subrange(i, i + w));
    }
}

proof fn lemma_char_step_ext(src: Seq<u8>, more: Seq<u8>, i: int)
    requires
        0 <= i < src.len(),
        !(char_step(src, i, false) matches StepV::Stop(ScanV::Incomplete)),
    ensures
        char_step(src + more, i, false) == char_step(src, i, false),
{
    lemma_decode_ext(src, more, i);
    if let Decoded::Char(w) = decode_spec(src, i) {
        assert((src + more).subrange(i, i + w) =~= src.subrange(i, i + w));
    }
}

proof fn lemma_scan_step_ext(src: Seq<u8>, more: Seq<u8>, i: int, kind: BodyKind)
    requires
        0 <= i,
        !(scan_step(src, i, kind, false) matches StepV::Stop(ScanV::Incomplete)),
    ensures
        scan_step(src + more, i, kind, false) == scan_step(src, i, kind, false),
{
    let t = src + more;
    let len = src.len();
    if i < len {
        assert(t[i] == src[i]);
        if i + 1 < len {
            assert(t[i + 1] == src[i + 1]);
        }
        match kind {
            BodyKind::Literal(n) => {
                if src[i] == 0x22 && i + 1 + n <= len {
                    assert(all_hash(t, i + 1, i + 1 + n) == all_hash(src, i + 1, i + 1 + n)) by {
                        assert forall|k: int| i + 1 <= k < i + 1 + n implies t[k] == src[k] by {}
                    }
                }
                if src[i] == 0x22 && i + 1 + n > len {
                    let k = choose|k: int| i + 1 <= k < len && #[trigger] src[k] != 0x23;
                    assert(t[k] == src[k]);
                    assert(!all_hash(t, i + 1, i + 1 + n) || i + 1 + n > t.len());
                    assert(!all_hash(t, i + 1, t.len() as int));
                }
                if !(src[i] == 0x22 && i + 1 + n <= len && all_hash(src, i + 1, i + 1 + n)) {
                    lemma_char_step_ext(src, more, i);
                }
            },
            _ => {
                lemma_char_step_ext(src, more, i);
            },
        }
    }
}

proof fn lemma_body_scan_ext(src: Seq<u8>, more: Seq<u8>, i: int, kind: BodyKind)
    requires
        0 <= i,
        !(body_scan(src, i, kind, false) is Incomplete),
    ensures
        body_scan(src + more, i, kind, false) == body_scan(src, i, kind, false),
    decreases src.len() - i,
{
    lemma_scan_step_ext(src, more, i, kind);
    match scan_step(src, i, kind, false) {
        StepV::More(j, chunk) => {
            if i < j <= src.len() {
                lemma_body_scan_ext(src, more, j, kind);
            }
        },
        StepV::Stop(_) => {},
    }
}

proof fn lemma_run_end_ext(src: Seq<u8>, more: Seq<u8>, i: int, num: bool)
    requires
        0 <= i <= src.len(),
        run_end(src, i, num) < src.len(),
    ensures
        run_end(src + more, i, num) == run_end(src, i, num),
    decreases src.len() - i,
{
    assert((src + more)[i] == src[i]);
    if i < src.len() && (if num {
        is_num_char(src[i])
    } else {
        is_id_char(src[i])
    }) {
        lemma_run_end_ext(src, more, i + 1, num);
    }
}

proof fn lemma_hash_end_ext(src: Seq<u8>, more: Seq<u8>, i: int)
    requires
        0 <= i <= src.len(),
        hash_end(src, i) < src.len(),
    ensures
        hash_end(src + more, i) == hash_end(src, i),
    decreases src.len() - i,
{
    assert((src + more)[i] == src[i]);
    if i < src.len() && src[i] == 0x23 {
        lemma_hash_end_ext(src, more, i + 1);
    }
}

proof fn lemma_string_ext(s: LexState, more: Seq<u8>, start: int, kind: BodyKind, dedent: bool)
    requires
        !s.complete,
        0 <= start,
        !(string_token(s, start, kind, dedent).0 is Incomplete),
    ensures
        string_token(extended(s, more), start, kind, dedent) == (
            string_token(s, start, kind, dedent).0,
            extended(string_token(s, start, kind, dedent).1, more),
        ),
{
    lemma_body_scan_ext(s.src, more, start, kind);
}

proof fn lemma_literal_ext(s: LexState, more: Seq<u8>, fence: int, dedent: bool)
    requires
        !s.complete,
        0 <= fence < s.src.len(),
        !(literal_token(s, fence, dedent).0 is Incomplete),
    ensures
        literal_token(extended(s, more), fence, dedent) == (
            literal_token(s, fence, dedent).0,
            extended(literal_token(s, fence, dedent).1, more),
        ),
{
    lemma_hash_end(s.src, fence);
    lemma_hash_end_ext(s.src, more, fence);
    let h = hash_end(s.src, fence);
    assert((s.src + more)[h] == s.src[h]);
    if !(string_token(s, h + 1, BodyKind::Literal((h - fence) as usize), dedent).0 is Incomplete) {
        lemma_string_ext(s, more, h + 1, BodyKind::Literal((h - fence) as usize), dedent);
    }
}

proof fn lemma_word_ext(s: LexState, more: Seq<u8>, p: int)
    requires
        !s.complete,
        0 <= p < s.src.len(),
        !(word_token(s, p).0 is Incomplete),
    ensures
        word_token(extended(s, more), p) == (word_token(s, p).0, extended(word_token(s, p).1, more)),
{
    lemma_run_end(s.src, p, false);
    lemma_run_end_ext(s.src, more, p, false);
    let e = run_end(s.src, p, false);
    assert((s.src + more).subrange(p, e) =~= s.src.subrange(p, e));
    assert((s.src + more)[e] == s.src[e]);
}

proof fn lemma_number_ext(s: LexState, more: Seq<u8>, p: int)
    requires
        !s.complete,
        0 <= p < s.src.len(),
        !(number_token(s, p).0 is Incomplete),
    ensures
        number_token(extended(s, more), p) == (
            number_token(s, p).0,
            extended(number_token(s, p).1, more),
        ),
{
    lemma_run_end(s.src, p, true);
    lemma_run_end_ext(s.src, more, p, true);
    let e = run_end(s.src, p, true);
    assert((s.src + more).subrange(p, e) =~= s.src.subrange(p, e));
    assert((s.src + more)[e] == s.src[e]);
}

proof fn lemma_token_ext(s: LexState, more: Seq<u8>, p: int)
    requires
        !s.complete,
        0 <= p < s.src.len(),
        !(token_at(s, p).0 is Incomplete),
    ensures
        token_at(extended(s, more), p) == (token_at(s, p).0, extended(token_at(s, p).1, more)),
{
    let src = s.src;
    let t = src + more;
    assert(t[p] == src[p]);
    if p + 1 < src.len() {
        assert(t[p + 1] == src[p + 1]);
    } else {
        lemma_run_end(src, p, false);
    }
    if !(word_token(s, p).0 is Incomplete) {
        lemma_word_ext(s, more, p);
    }
    if !(number_token(s, p).0 is Incomplete) {
        lemma_number_ext(s, more, p);
    }
    if !(string_token(s, p + 1, BodyKind::Quoted, false).0 is Incomplete) {
        lemma_string_ext(s, more, p + 1, BodyKind::Quoted, false);
    }
    if !(string_token(s, p + 2, BodyKind::Quoted, true).0 is Incomplete) {
        lemma_string_ext(s, more, p + 2, BodyKind::Quoted, true);
    }
    if !(literal_token(s, p, false).0 is Incomplete) {
        lemma_literal_ext(s, more, p, false);
    }
    if p + 1 < src.len() && !(literal_token(s, p + 1, true).0 is Incomplete) {
        lemma_literal_ext(s, more, p + 1, true);
    }
    if !(decode_spec(src, p) is Incomplete) {
        lemma_decode_ext(src, more, p);
    }
}

proof fn lemma_step_at_ext(s: LexState, more: Seq<u8>, p: int, nl: int)
    requires
        !s.complete,
        0 <= p <= s.src.len(),
        !(step_at(s, p, nl).0 is Incomplete),
    ensures
        step_at(extended(s, more), p, nl) == (
            step_at(s, p, nl).0,
            extended(step_at(s, p, nl).1, more),
        ),
    decreases s.src.len() - p,
{
    let src = s.src;
    let t = src + more;
    let len = src.len();
    if p < len {
        assert(t[p] == src[p]);
        if p + 1 < len {
            assert(t[p + 1] == src[p + 1]);
        }
        if p + 2 < len {
            assert(t[p + 2] == src[p + 2]);
        }
        let c = src[p];
        if c == 0x20 || c == 0x09 || c == 0x0d {
            lemma_step_at_ext(s, more, p + 1, nl);
        } else if c == 0x0a {
            if !(s.started && nl >= 1) {
                lemma_step_at_ext(
                    s,
                    more,
                    p + 1,
                    if s.started {
                        nl + 1
                    } else {
                        0
                    },
                );
            }
        } else if c == 0x2f {
            if p + 1 < len && src[p + 1] == 0x2f && p + 2 < len {
                if src[p + 2] == 0x2f {
                    if !(body_scan(src, p + 3, BodyKind::Line, false) is Incomplete) {
                        lemma_body_scan_ext(src, more, p + 3, BodyKind::Line);
                    }
                } else {
                    if !(body_scan(src, p + 2, BodyKind::Line, false) is Incomplete) {
                        lemma_body_scan_ext(src, more, p + 2, BodyKind::Line);
                        lemma_body_scan_bounds(src, p + 2, BodyKind::Line, false);
                        if let ScanV::Done(e, body) = body_scan(src, p + 2, BodyKind::Line, false) {
                            let q = comment_end(e, body);
                            if p < q <= len {
                                lemma_step_at_ext(s, more, q, 0);
                            }
                        }
                    }
                }
            } else if p + 1 < len && src[p + 1] == 0x2a {
                if !(body_scan(src, p + 2, BodyKind::Block, false) is Incomplete) {
                    lemma_body_scan_ext(src, more, p + 2, BodyKind::Block);
                    lemma_body_scan_bounds(src, p + 2, BodyKind::Block, false);
                    if let ScanV::Done(e, body) = body_scan(src, p + 2, BodyKind::Block, false) {
                        if p < e <= len {
                            lemma_step_at_ext(s, more, e, 0);
                        }
                    }
                }
            }
        } else if c == 0x2c {
            if s.nesting.len() > 0 && s.expect != crate::parser::Expect::PropertyValue {
                lemma_step_at_ext(s, more, p + 1, 0);
            }
        } else {
            lemma_token_ext(s, more, p);
        }
    }
}

/// Once a step on input that may still grow has decided, without asking for
/// more bytes, appending bytes does not change what it yields: retrying from
/// the same position after more bytes arrive gives what a single pass over
/// all of them would.
pub proof fn lemma_step_stable_under_feeding(s: LexState, more: Seq<u8>)
    requires
        !s.complete,
        0 <= s.pos <= s.src.len(),
        !(step(s).0 is Incomplete),
    ensures
        step(extended(s, more)) == (step(s).0, extended(step(s).1, more)),
{
    lemma_step_at_ext(s, more, s.pos, s.newlines);
}

} // verus!
