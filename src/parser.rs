//! The lexer: a state machine that turns bytes into a flat stream of
//! structural tokens, one token per call, and that can be fed its input in
//! pieces.
//!
//! A document may be a single value or, at the top level, a run of
//! `name value` pairs forming an implicit object. Inside braces names and
//! values alternate; inside brackets only values stand, and commas between
//! items are optional. A step that runs out of bytes reports so without
//! consuming anything; only once the input is declared complete does a cut
//! off token become an error. Doc comments are passed on as tokens wherever
//! they stand; whether they attach to something is the builder's concern.
use vstd::prelude::*;

use vstd::string::StringSliceAdditionalSpecFns;

use crate::datetime::{date_from_bytes, date_of, datetime_from_bytes, rfc3339_of, Date, DateTime};
use vstd::utf8::decode_utf8;

use crate::encoding::{
    decode_at, decode_spec, lemma_ascii_valid, line_of, string_from_utf8, Decoded, Utf8Decoder,
};
use crate::error::{Error, Located};
use crate::number::{contains_byte, has_byte, number_of, Number};
use crate::scan::{
    body_scan, scan_step, StepV, copy_range, lemma_body_scan_bounds, lemma_body_scan_valid, scan_body, BodyKind, Scan,
    ScanV, MAX_FENCE,
};

verus! {

/// The two kinds of nested value.
#[derive(Debug, Clone, Copy, PartialEq, Eq, Structural)]
pub enum ComplexKind {
    Array,
    Object,
}

/// What the lexer expects next.
#[derive(Debug, Clone, Copy, PartialEq, Eq, Structural)]
pub enum Expect {
    /// A value: at the top level (where a bare word starts a property of
    /// the implicit root object) or inside an array.
    Value,
    /// A property name or the end of the enclosing object.
    PropertyName,
    /// The value of the property just named.
    PropertyValue,
}

/// A value that holds no other values.
#[derive(Debug, Clone, PartialEq)]
pub enum SimpleValue {
    Null,
    Bool(bool),
    Number(Number),
    Date(Date),
    DateTime(DateTime),
    String(String),
    DedentString(String),
    LiteralString(String),
    DedentLiteralString(String),
}

/// One unit of lexer output.
#[derive(Debug, Clone, PartialEq)]
pub enum Token {
    /// A fully blank line between two items.
    Linespace,
    /// The text of one `///` line after the slashes, its newline included.
    DocstringLine(String),
    ObjectStart,
    ObjectEnd,
    ArrayStart,
    ArrayEnd,
    PropertyId(String),
    Value(SimpleValue),
}

pub enum SimpleV {
    Null,
    Bool(bool),
    Number(Number),
    Date(Date),
    DateTime(DateTime),
    String(Seq<char>),
    DedentString(Seq<char>),
    LiteralString(Seq<char>),
    DedentLiteralString(Seq<char>),
}

pub enum Tok {
    Linespace,
    DocstringLine(Seq<char>),
    ObjectStart,
    ObjectEnd,
    ArrayStart,
    ArrayEnd,
    PropertyId(Seq<char>),
    Value(SimpleV),
}

impl View for SimpleValue {
    type V = SimpleV;

    open spec fn view(&self) -> SimpleV {
        match self {
            SimpleValue::Null => SimpleV::Null,
            SimpleValue::Bool(b) => SimpleV::Bool(*b),
            SimpleValue::Number(n) => SimpleV::Number(*n),
            SimpleValue::Date(d) => SimpleV::Date(*d),
            SimpleValue::DateTime(d) => SimpleV::DateTime(*d),
            SimpleValue::String(s) => SimpleV::String(s@),
            SimpleValue::DedentString(s) => SimpleV::DedentString(s@),
            SimpleValue::LiteralString(s) => SimpleV::LiteralString(s@),
            SimpleValue::DedentLiteralString(s) => SimpleV::DedentLiteralString(s@),
        }
    }
}

impl View for Token {
    type V = Tok;

    open spec fn view(&self) -> Tok {
        match self {
            Token::Linespace => Tok::Linespace,
            Token::DocstringLine(s) => Tok::DocstringLine(s@),
            Token::ObjectStart => Tok::ObjectStart,
            Token::ObjectEnd => Tok::ObjectEnd,
            Token::ArrayStart => Tok::ArrayStart,
            Token::ArrayEnd => Tok::ArrayEnd,
            Token::PropertyId(s) => Tok::PropertyId(s@),
            Token::Value(v) => Tok::Value(v@),
        }
    }
}

/// The lexer's state as a mathematical value.
pub struct LexState {
    /// Every byte fed so far.
    pub src: Seq<u8>,
    /// Where the next token attempt starts.
    pub pos: int,
    /// Whether the input is known to hold no more bytes.
    pub complete: bool,
    pub expect: Expect,
    /// The open arrays and objects, outermost first.
    pub nesting: Seq<ComplexKind>,
    /// Newlines passed over since the last token.
    pub newlines: int,
    /// Whether any token was produced yet.
    pub started: bool,
}

/// What one step of the lexer yields.
pub enum Outcome {
    Token(Tok),
    /// More bytes are needed; nothing was consumed.
    Incomplete,
    /// The input is complete and holds no further token.
    Done,
    /// An error, at the position of the offending byte.
    Fail(Error, int),
}

pub open spec fn is_blank(c: u8) -> bool {
    c == 0x20 || c == 0x09 || c == 0x0d
}

pub open spec fn is_space(c: u8) -> bool {
    is_blank(c) || c == 0x0a
}

pub open spec fn is_letter(c: u8) -> bool {
    (0x61 <= c <= 0x7a) || (0x41 <= c <= 0x5a)
}

pub open spec fn is_digit(c: u8) -> bool {
    0x30 <= c <= 0x39
}

pub open spec fn is_id_start(c: u8) -> bool {
    is_letter(c) || c == 0x5f
}

pub open spec fn is_id_char(c: u8) -> bool {
    is_id_start(c) || is_digit(c) || c == 0x2d
}

/// Characters that may make up a number, date or date-time.
pub open spec fn is_num_char(c: u8) -> bool {
    is_letter(c) || is_digit(c) || c == 0x2e || c == 0x3a || c == 0x2d || c == 0x2b
}

/// Characters that may directly follow a value.
pub open spec fn is_value_end(c: u8) -> bool {
    is_space(c) || c == 0x2c || c == 0x5d || c == 0x7d || c == 0x2f
}

/// End of the run of word (or, with `num`, number) characters from `i`.
pub open spec fn run_end(src: Seq<u8>, i: int, num: bool) -> int
    decreases src.len() - i,
{
    if i >= src.len() {
        src.len() as int
    } else if (if num {
        is_num_char(src[i])
    } else {
        is_id_char(src[i])
    }) {
        run_end(src, i + 1, num)
    } else {
        i
    }
}

/// End of the run of `#` from `i`.
pub open spec fn hash_end(src: Seq<u8>, i: int) -> int
    decreases src.len() - i,
{
    if i >= src.len() {
        src.len() as int
    } else if src[i] == 0x23 {
        hash_end(src, i + 1)
    } else {
        i
    }
}

pub open spec fn keyword_of(w: Seq<u8>) -> Option<SimpleV> {
    if w =~= seq![0x6eu8, 0x75, 0x6c, 0x6c] {
        Some(SimpleV::Null)
    } else if w =~= seq![0x74u8, 0x72, 0x75, 0x65] {
        Some(SimpleV::Bool(true))
    } else if w =~= seq![0x66u8, 0x61, 0x6c, 0x73, 0x65] {
        Some(SimpleV::Bool(false))
    } else {
        None
    }
}

/// A number, date or date-time by its text: a `:` makes a date-time, a `-`
/// past the first character a date, and anything else a number.
pub open spec fn literal_value(t: Seq<u8>) -> Result<SimpleV, Error> {
    if has_byte(t, 0x3a) {
        match rfc3339_of(t) {
            Some(dt) => Ok(SimpleV::DateTime(dt)),
            None => Err(Error::InvalidDateTime),
        }
    } else if t.len() > 1 && has_byte(t.subrange(1, t.len() as int), 0x2d) {
        match date_of(t) {
            Ok(d) => Ok(SimpleV::Date(d)),
            Err(e) => Err(e),
        }
    } else {
        match number_of(t) {
            Ok(n) => Ok(SimpleV::Number(n)),
            Err(e) => Err(e),
        }
    }
}

pub open spec fn string_value(literal: bool, dedent: bool, t: Seq<char>) -> SimpleV {
    if literal {
        if dedent {
            SimpleV::DedentLiteralString(t)
        } else {
            SimpleV::LiteralString(t)
        }
    } else {
        if dedent {
            SimpleV::DedentString(t)
        } else {
            SimpleV::String(t)
        }
    }
}

/// What is expected once a value is complete inside `nesting`.
pub open spec fn after_value(nesting: Seq<ComplexKind>) -> Expect {
    if nesting.len() > 0 && nesting.last() == ComplexKind::Object {
        Expect::PropertyName
    } else {
        Expect::Value
    }
}

/// Produces `t`, with the input consumed up to `e`.
pub open spec fn emit(s: LexState, t: Tok, e: int, expect: Expect, nesting: Seq<ComplexKind>) -> (
    Outcome,
    LexState,
) {
    (
        Outcome::Token(t),
        LexState { pos: e, expect, nesting, newlines: 0, started: true, ..s },
    )
}

pub open spec fn fail(s: LexState, err: Error, q: int) -> (Outcome, LexState) {
    (Outcome::Fail(err, q), s)
}

pub open spec fn value_token(s: LexState, e: int, v: SimpleV) -> (Outcome, LexState) {
    emit(s, Tok::Value(v), e, after_value(s.nesting), s.nesting)
}

pub open spec fn word_token(s: LexState, p: int) -> (Outcome, LexState) {
    let src = s.src;
    let e = run_end(src, p, false);
    let w = src.subrange(p, e);
    if e >= src.len() && !s.complete {
        (Outcome::Incomplete, s)
    } else if s.expect != Expect::PropertyName && keyword_of(w) is Some {
        if e < src.len() && !is_value_end(src[e]) {
            fail(s, Error::UnexpectedChar, e)
        } else {
            value_token(s, e, keyword_of(w)->Some_0)
        }
    } else if s.expect == Expect::PropertyName || (s.expect == Expect::Value && s.nesting.len()
        == 0) {
        if e < src.len() && !is_space(src[e]) {
            fail(s, Error::InvalidPropertyId, e)
        } else {
            emit(s, Tok::PropertyId(decode_utf8(w)), e, Expect::PropertyValue, s.nesting)
        }
    } else {
        fail(s, Error::InvalidIdentifier, p)
    }
}

pub open spec fn number_token(s: LexState, p: int) -> (Outcome, LexState) {
    let src = s.src;
    let e = run_end(src, p, true);
    if e >= src.len() && !s.complete {
        (Outcome::Incomplete, s)
    } else if e < src.len() && !is_value_end(src[e]) {
        fail(s, Error::UnexpectedChar, e)
    } else {
        match literal_value(src.subrange(p, e)) {
            Ok(v) => value_token(s, e, v),
            Err(err) => fail(s, err, p),
        }
    }
}

pub open spec fn string_token(s: LexState, start: int, kind: BodyKind, dedent: bool) -> (
    Outcome,
    LexState,
) {
    match body_scan(s.src, start, kind, s.complete) {
        ScanV::Done(e, body) => value_token(
            s,
            e,
            string_value(kind is Literal, dedent, decode_utf8(body)),
        ),
        ScanV::Incomplete => (Outcome::Incomplete, s),
        ScanV::Fail(err, q) => fail(s, err, q),
    }
}

pub open spec fn literal_token(s: LexState, fence: int, dedent: bool) -> (Outcome, LexState) {
    let src = s.src;
    let h = hash_end(src, fence);
    let n = h - fence;
    if h >= src.len() && !s.complete {
        (Outcome::Incomplete, s)
    } else if n > MAX_FENCE {
        fail(s, Error::StringLiteralDelimTooLong { len: n as usize, max_len: MAX_FENCE }, fence)
    } else if h >= src.len() {
        fail(s, Error::MissingTerminator, h)
    } else if src[h] != 0x22 {
        fail(s, Error::UnexpectedChar, h)
    } else {
        string_token(s, h + 1, BodyKind::Literal(n as usize), dedent)
    }
}

/// A character that starts nothing here: an encoding error where it is not
/// valid UTF-8, else `err`.
pub open spec fn other_char(s: LexState, p: int, err: Error) -> (Outcome, LexState) {
    match decode_spec(s.src, p) {
        Decoded::Invalid => fail(s, Error::InvalidUtf8, p),
        Decoded::Incomplete => if s.complete {
            fail(s, Error::InvalidUtf8, p)
        } else {
            (Outcome::Incomplete, s)
        },
        Decoded::Char(_) => fail(s, err, p),
    }
}

/// The token that starts at `p`, a byte that is neither blank, a newline, a
/// `/` nor a `,`.
pub open spec fn token_at(s: LexState, p: int) -> (Outcome, LexState) {
    let src = s.src;
    let c = src[p];
    let len = src.len();
    let nest = s.nesting;
    if s.expect == Expect::PropertyName {
        if c == 0x7d {
            if nest.len() > 0 && nest.last() == ComplexKind::Object {
                emit(s, Tok::ObjectEnd, p + 1, after_value(nest.drop_last()), nest.drop_last())
            } else {
                fail(s, Error::UnexpectedChar, p)
            }
        } else if is_id_start(c) {
            word_token(s, p)
        } else {
            other_char(s, p, Error::InvalidPropertyId)
        }
    } else {
        if c == 0x7b {
            emit(s, Tok::ObjectStart, p + 1, Expect::PropertyName, nest.push(ComplexKind::Object))
        } else if c == 0x5b {
            emit(s, Tok::ArrayStart, p + 1, Expect::Value, nest.push(ComplexKind::Array))
        } else if c == 0x5d && s.expect == Expect::Value && nest.len() > 0 && nest.last()
            == ComplexKind::Array {
            emit(s, Tok::ArrayEnd, p + 1, after_value(nest.drop_last()), nest.drop_last())
        } else if c == 0x22 {
            string_token(s, p + 1, BodyKind::Quoted, false)
        } else if c == 0x23 {
            literal_token(s, p, false)
        } else if c == 0x64 && p + 1 < len && src[p + 1] == 0x22 {
            string_token(s, p + 2, BodyKind::Quoted, true)
        } else if c == 0x64 && p + 1 < len && src[p + 1] == 0x23 {
            literal_token(s, p + 1, true)
        } else if is_id_start(c) {
            word_token(s, p)
        } else if is_digit(c) || c == 0x2d || c == 0x2b {
            number_token(s, p)
        } else {
            other_char(s, p, Error::UnexpectedChar)
        }
    }
}

/// Where a line comment's scan leaves off: before its newline, if it has one.
pub open spec fn comment_end(e: int, body: Seq<u8>) -> int {
    if body.len() > 0 && body.last() == 0x0a {
        e - 1
    } else {
        e
    }
}

/// One step of the lexer from byte `p`, with `nl` newlines passed over since
/// the last token: blanks, single newlines, comments and separating commas
/// are passed over; a blank line yields `Linespace`; a `///` line yields its
/// text.
pub open spec fn step_at(s: LexState, p: int, nl: int) -> (Outcome, LexState)
    decreases s.src.len() - p,
{
    let src = s.src;
    let len = src.len();
    if p >= len {
        if !s.complete {
            (Outcome::Incomplete, s)
        } else if s.nesting.len() > 0 || s.expect == Expect::PropertyValue {
            fail(s, Error::UnexpectedEof, p)
        } else {
            (Outcome::Done, s)
        }
    } else if p < 0 {
        // Never reached from a valid state; keeps the definition total.
        fail(s, Error::UnexpectedChar, p)
    } else {
        let c = src[p];
        if is_blank(c) {
            step_at(s, p + 1, nl)
        } else if c == 0x0a {
            if s.started && nl >= 1 {
                (Outcome::Token(Tok::Linespace), LexState { pos: p + 1, newlines: 0, ..s })
            } else {
                step_at(
                    s,
                    p + 1,
                    if s.started {
                        nl + 1
                    } else {
                        0
                    },
                )
            }
        } else if c == 0x2f {
            if p + 1 >= len {
                if s.complete {
                    fail(s, Error::UnexpectedChar, p)
                } else {
                    (Outcome::Incomplete, s)
                }
            } else if src[p + 1] == 0x2f {
                if p + 2 >= len && !s.complete {
                    (Outcome::Incomplete, s)
                } else if p + 2 < len && src[p + 2] == 0x2f {
                    match body_scan(src, p + 3, BodyKind::Line, s.complete) {
                        ScanV::Done(e, body) => emit(
                            s,
                            Tok::DocstringLine(decode_utf8(body)),
                            e,
                            s.expect,
                            s.nesting,
                        ),
                        ScanV::Incomplete => (Outcome::Incomplete, s),
                        ScanV::Fail(err, q) => fail(s, err, q),
                    }
                } else {
                    match body_scan(src, p + 2, BodyKind::Line, s.complete) {
                        ScanV::Done(e, body) => {
                            let q = comment_end(e, body);
                            // A finished scan always ends past `p` and within
                            // the bytes; the test makes termination plain.
                            if p < q <= len {
                                step_at(s, q, 0)
                            } else {
                                fail(s, Error::UnexpectedChar, p)
                            }
                        },
                        ScanV::Incomplete => (Outcome::Incomplete, s),
                        ScanV::Fail(err, q) => fail(s, err, q),
                    }
                }
            } else if src[p + 1] == 0x2a {
                match body_scan(src, p + 2, BodyKind::Block, s.complete) {
                    ScanV::Done(e, body) => if p < e <= len {
                        step_at(s, e, 0)
                    } else {
                        fail(s, Error::UnexpectedChar, p)
                    },
                    ScanV::Incomplete => (Outcome::Incomplete, s),
                    ScanV::Fail(err, q) => fail(s, err, q),
                }
            } else {
                fail(s, Error::UnexpectedChar, p)
            }
        } else if c == 0x2c {
            if s.nesting.len() > 0 && s.expect != Expect::PropertyValue {
                step_at(s, p + 1, 0)
            } else {
                fail(s, Error::UnexpectedChar, p)
            }
        } else {
            token_at(s, p)
        }
    }
}

/// One step of the lexer from its current state.
pub open spec fn step(s: LexState) -> (Outcome, LexState) {
    step_at(s, s.pos, s.newlines)
}

/// What a successful step of the lexer yields.
#[derive(Debug, Clone, PartialEq)]
pub enum Lexed {
    Token(Token),
    /// More bytes are needed; nothing was consumed, and the same step may be
    /// tried again once they are fed.
    Incomplete,
    /// The input is complete and holds no further token.
    Done,
}

/// Whether an executable result is the one that an outcome describes.
pub open spec fn reports(r: Result<Lexed, Located<Error>>, o: Outcome, src: Seq<u8>) -> bool {
    match o {
        Outcome::Token(t) => r is Ok && r->Ok_0 is Token && r->Ok_0->Token_0@ == t,
        Outcome::Incomplete => r == Ok::<Lexed, Located<Error>>(Lexed::Incomplete),
        Outcome::Done => r == Ok::<Lexed, Located<Error>>(Lexed::Done),
        Outcome::Fail(err, q) => r == Err::<Lexed, Located<Error>>(
            Located { line: line_of(src, q) as usize, err },
        ),
    }
}

/// The state of a lexer over `src` before its first step.
pub open spec fn initial(src: Seq<u8>, complete: bool) -> LexState {
    LexState {
        src,
        pos: 0,
        complete,
        expect: Expect::Value,
        nesting: Seq::empty(),
        newlines: 0,
        started: false,
    }
}

/// The lexer. Its state changes one token at a time; a step that runs out of
/// bytes changes nothing, so that it can be tried again once more are fed.
pub struct Lexer {
    dec: Utf8Decoder,
    complete: bool,
    expect: Expect,
    nesting: Vec<ComplexKind>,
    newlines: usize,
    started: bool,
}

impl View for Lexer {
    type V = LexState;

    closed spec fn view(&self) -> LexState {
        LexState {
            src: self.dec.bytes(),
            pos: self.dec.position(),
            complete: self.complete,
            expect: self.expect,
            nesting: self.nesting@,
            newlines: self.newlines as int,
            started: self.started,
        }
    }
}

fn is_blank_exec(c: u8) -> (r: bool)
    ensures
        r == is_blank(c),
{
    c == 0x20 || c == 0x09 || c == 0x0d
}

fn is_space_exec(c: u8) -> (r: bool)
    ensures
        r == is_space(c),
{
    c == 0x20 || c == 0x09 || c == 0x0d || c == 0x0a
}

fn is_id_start_exec(c: u8) -> (r: bool)
    ensures
        r == is_id_start(c),
{
    (0x61 <= c && c <= 0x7a) || (0x41 <= c && c <= 0x5a) || c == 0x5f
}

fn is_value_end_exec(c: u8) -> (r: bool)
    ensures
        r == is_value_end(c),
{
    is_space_exec(c) || c == 0x2c || c == 0x5d || c == 0x7d || c == 0x2f
}

fn in_run(c: u8, num: bool) -> (r: bool)
    ensures
        r == if num {
            is_num_char(c)
        } else {
            is_id_char(c)
        },
{
    let letter = (0x61 <= c && c <= 0x7a) || (0x41 <= c && c <= 0x5a);
    let digit = 0x30 <= c && c <= 0x39;
    if num {
        letter || digit || c == 0x2e || c == 0x3a || c == 0x2d || c == 0x2b
    } else {
        letter || c == 0x5f || digit || c == 0x2d
    }
}

fn run_end_exec(src: &Vec<u8>, i: usize, num: bool) -> (r: usize)
    requires
        i <= src@.len(),
    ensures
        r == run_end(src@, i as int, num),
        i <= r <= src@.len(),
{
    let mut k = i;
    while k < src.len()
        invariant
            i <= k <= src@.len(),
            run_end(src@, k as int, num) == run_end(src@, i as int, num),
        decreases src@.len() - k,
    {
        if !in_run(src[k], num) {
            return k;
        }
        k = k + 1;
    }
    k
}

fn hash_end_exec(src: &Vec<u8>, i: usize) -> (r: usize)
    requires
        i <= src@.len(),
    ensures
        r == hash_end(src@, i as int),
        i <= r <= src@.len(),
{
    let mut k = i;
    while k < src.len()
        invariant
            i <= k <= src@.len(),
            hash_end(src@, k as int) == hash_end(src@, i as int),
        decreases src@.len() - k,
    {
        if src[k] != 0x23 {
            return k;
        }
        k = k + 1;
    }
    k
}

fn keyword_exec(src: &Vec<u8>, p: usize, e: usize) -> (r: Option<SimpleValue>)
    requires
        p <= e <= src@.len(),
    ensures
        match r {
            Some(v) => keyword_of(src@.subrange(p as int, e as int)) == Some(v@),
            None => keyword_of(src@.subrange(p as int, e as int)) is None,
        },
{
    let ghost w = src@.subrange(p as int, e as int);
    let n = e - p;
    if n == 4 && src[p] == 0x6e && src[p + 1] == 0x75 && src[p + 2] == 0x6c && src[p + 3] == 0x6c {
        assert(w =~= seq![0x6eu8, 0x75, 0x6c, 0x6c]);
        return Some(SimpleValue::Null);
    }
    if n == 4 && src[p] == 0x74 && src[p + 1] == 0x72 && src[p + 2] == 0x75 && src[p + 3] == 0x65 {
        assert(w =~= seq![0x74u8, 0x72, 0x75, 0x65]);
        assert(!(w =~= seq![0x6eu8, 0x75, 0x6c, 0x6c])) by {
            assert(w[0] == 0x74);
        }
        return Some(SimpleValue::Bool(true));
    }
    if n == 5 && src[p] == 0x66 && src[p + 1] == 0x61 && src[p + 2] == 0x6c && src[p + 3] == 0x73
        && src[p + 4] == 0x65 {
        assert(w =~= seq![0x66u8, 0x61, 0x6c, 0x73, 0x65]);
        return Some(SimpleValue::Bool(false));
    }
    proof {
        if w =~= seq![0x6eu8, 0x75, 0x6c, 0x6c] {
            assert(w[0] == src@[p as int] && w[1] == src@[p + 1] && w[2] == src@[p + 2] && w[3]
                == src@[p + 3]);
        }
        if w =~= seq![0x74u8, 0x72, 0x75, 0x65] {
            assert(w[0] == src@[p as int] && w[1] == src@[p + 1] && w[2] == src@[p + 2] && w[3]
                == src@[p + 3]);
        }
        if w =~= seq![0x66u8, 0x61, 0x6c, 0x73, 0x65] {
            assert(w[0] == src@[p as int] && w[1] == src@[p + 1] && w[2] == src@[p + 2] && w[3]
                == src@[p + 3] && w[4] == src@[p + 4]);
        }
    }
    None
}

/// Whether `b` occurs in `s` at or past `from`.
fn contains_byte_from(s: &Vec<u8>, b: u8, from: usize) -> (r: bool)
    requires
        from <= s@.len(),
    ensures
        r == has_byte(s@.subrange(from as int, s@.len() as int), b),
{
    let ghost t = s@.subrange(from as int, s@.len() as int);
    let mut i = from;
    while i < s.len()
        invariant
            from <= i <= s@.len(),
            t == s@.subrange(from as int, s@.len() as int),
            forall|k: int| 0 <= k < i - from ==> t[k] != b,
        decreases s@.len() - i,
    {
        if s[i] == b {
            assert(t[i - from] == b);
            return true;
        }
        assert(t[i - from] == s@[i as int]);
        i = i + 1;
    }
    false
}

/// Reads a number, date or date-time from its text.
pub fn read_literal(t: &Vec<u8>) -> (r: Result<SimpleValue, Error>)
    ensures
        match r {
            Ok(v) => literal_value(t@) == Ok::<SimpleV, Error>(v@),
            Err(e) => literal_value(t@) == Err::<SimpleV, Error>(e),
        },
{
    if contains_byte(t.as_slice(), 0x3a) {
        match datetime_from_bytes(t.as_slice()) {
            Ok(dt) => Ok(SimpleValue::DateTime(dt)),
            Err(e) => Err(e),
        }
    } else if t.len() > 1 && contains_byte_from(t, 0x2d, 1) {
        match date_from_bytes(t.as_slice()) {
            Ok(d) => Ok(SimpleValue::Date(d)),
            Err(e) => Err(e),
        }
    } else {
        match Number::from_bytes(t.as_slice()) {
            Ok(n) => Ok(SimpleValue::Number(n)),
            Err(e) => Err(e),
        }
    }
}

fn string_value_exec(literal: bool, dedent: bool, t: String) -> (r: SimpleValue)
    ensures
        r@ == string_value(literal, dedent, t@),
{
    if literal {
        if dedent {
            SimpleValue::DedentLiteralString(t)
        } else {
            SimpleValue::LiteralString(t)
        }
    } else {
        if dedent {
            SimpleValue::DedentString(t)
        } else {
            SimpleValue::String(t)
        }
    }
}

impl Lexer {
    pub closed spec fn wf(&self) -> bool {
        self.dec.wf() && self.newlines <= 1
    }

    proof fn lemma_bounds(&self)
        requires
            self.wf(),
        ensures
            0 <= self@.pos <= self@.src.len() < usize::MAX,
            self@.newlines <= 1,
            self.dec.bytes() == self@.src,
            self.dec.position() == self@.pos,
    {
        self.dec.lemma_bounds();
    }

    fn fail_at(&self, err: Error, q: usize) -> (r: Result<Lexed, Located<Error>>)
        requires
            self.wf(),
            self@.pos <= q <= self@.src.len(),
        ensures
            r == Err::<Lexed, Located<Error>>(
                Located { line: line_of(self@.src, q as int) as usize, err },
            ),
    {
        Err(Located { line: self.dec.line_at(q), err })
    }

    fn emit_exec(&mut self, t: Token, e: usize, expect: Expect) -> (r: Result<
        Lexed,
        Located<Error>,
    >)
        requires
            old(self).wf(),
            old(self)@.pos <= e <= old(self)@.src.len(),
        ensures
            final(self).wf(),
            r == Ok::<Lexed, Located<Error>>(Lexed::Token(t)),
            final(self)@ == (LexState {
                pos: e as int,
                expect,
                newlines: 0,
                started: true,
                ..old(self)@
            }),
    {
        self.dec.advance_to(e);
        self.expect = expect;
        self.newlines = 0;
        self.started = true;
        Ok(Lexed::Token(t))
    }

    fn after_value_exec(&self) -> (r: Expect)
        ensures
            r == after_value(self.nesting@),
    {
        let n = self.nesting.len();
        if n > 0 && self.nesting[n - 1] == ComplexKind::Object {
            Expect::PropertyName
        } else {
            Expect::Value
        }
    }

    fn word_exec(&mut self, p: usize) -> (r: Result<Lexed, Located<Error>>)
        requires
            old(self).wf(),
            old(self)@.pos <= p < old(self)@.src.len(),
        ensures
            final(self).wf(),
            reports(r, word_token(old(self)@, p as int).0, old(self)@.src),
            final(self)@ == word_token(old(self)@, p as int).1,
    {
        proof {
            self.lemma_bounds();
        }
        let src = self.dec.bytes_ref();
        let len = src.len();
        let e = run_end_exec(src, p, false);
        if e >= len && !self.complete {
            return Ok(Lexed::Incomplete);
        }
        let kw = keyword_exec(src, p, e);
        let end_ok = e >= len || is_value_end_exec(src[e]);
        let space_ok = e >= len || is_space_exec(src[e]);
        if self.expect != Expect::PropertyName {
            if let Some(v) = kw {
                if !end_ok {
                    return self.fail_at(Error::UnexpectedChar, e);
                }
                let ex = self.after_value_exec();
                return self.emit_exec(Token::Value(v), e, ex);
            }
        }
        if self.expect == Expect::PropertyName || (self.expect == Expect::Value
            && self.nesting.len() == 0) {
            if !space_ok {
                return self.fail_at(Error::InvalidPropertyId, e);
            }
            let bytes = copy_range(src, p, e);
            proof {
                lemma_run_end_chars(src@, p as int, false);
                assert forall|j: int| 0 <= j < bytes@.len() implies #[trigger] bytes@[j] < 0x80 by {
                    assert(bytes@[j] == src@[p + j]);
                }
                lemma_ascii_valid(bytes@);
            }
            let t = string_from_utf8(bytes.as_slice());
            return self.emit_exec(Token::PropertyId(t), e, Expect::PropertyValue);
        }
        self.fail_at(Error::InvalidIdentifier, p)
    }

    fn number_exec(&mut self, p: usize) -> (r: Result<Lexed, Located<Error>>)
        requires
            old(self).wf(),
            old(self)@.pos <= p < old(self)@.src.len(),
        ensures
            final(self).wf(),
            reports(r, number_token(old(self)@, p as int).0, old(self)@.src),
            final(self)@ == number_token(old(self)@, p as int).1,
    {
        proof {
            self.lemma_bounds();
        }
        let src = self.dec.bytes_ref();
        let len = src.len();
        let e = run_end_exec(src, p, true);
        if e >= len && !self.complete {
            return Ok(Lexed::Incomplete);
        }
        if e < len && !is_value_end_exec(src[e]) {
            return self.fail_at(Error::UnexpectedChar, e);
        }
        let t = copy_range(src, p, e);
        match read_literal(&t) {
            Ok(v) => {
                let ex = self.after_value_exec();
                self.emit_exec(Token::Value(v), e, ex)
            },
            Err(err) => self.fail_at(err, p),
        }
    }

    fn string_exec(&mut self, start: usize, kind: BodyKind, dedent: bool) -> (r: Result<
        Lexed,
        Located<Error>,
    >)
        requires
            old(self).wf(),
            old(self)@.pos <= start <= old(self)@.src.len(),
            kind matches BodyKind::Literal(n) ==> n <= MAX_FENCE,
        ensures
            final(self).wf(),
            reports(r, string_token(old(self)@, start as int, kind, dedent).0, old(self)@.src),
            final(self)@ == string_token(old(self)@, start as int, kind, dedent).1,
    {
        proof {
            self.lemma_bounds();
            lemma_body_scan_bounds(self@.src, start as int, kind, self@.complete);
            lemma_body_scan_valid(self@.src, start as int, kind, self@.complete);
        }
        let src = self.dec.bytes_ref();
        match scan_body(src, start, kind, self.complete) {
            Scan::Done(e, body) => {
                let t = string_from_utf8(body.as_slice());
                let literal = match kind {
                    BodyKind::Literal(_) => true,
                    _ => false,
                };
                let v = string_value_exec(literal, dedent, t);
                let ex = self.after_value_exec();
                self.emit_exec(Token::Value(v), e, ex)
            },
            Scan::Incomplete => Ok(Lexed::Incomplete),
            Scan::Fail(err, q) => self.fail_at(err, q),
        }
    }

    fn literal_exec(&mut self, fence: usize, dedent: bool) -> (r: Result<Lexed, Located<Error>>)
        requires
            old(self).wf(),
            old(self)@.pos <= fence < old(self)@.src.len(),
        ensures
            final(self).wf(),
            reports(r, literal_token(old(self)@, fence as int, dedent).0, old(self)@.src),
            final(self)@ == literal_token(old(self)@, fence as int, dedent).1,
    {
        proof {
            self.lemma_bounds();
        }
        let src = self.dec.bytes_ref();
        let len = src.len();
        let h = hash_end_exec(src, fence);
        let n = h - fence;
        if h >= len && !self.complete {
            return Ok(Lexed::Incomplete);
        }
        if n > MAX_FENCE {
            return self.fail_at(Error::StringLiteralDelimTooLong { len: n, max_len: MAX_FENCE }, fence);
        }
        if h >= len {
            return self.fail_at(Error::MissingTerminator, h);
        }
        if src[h] != 0x22 {
            return self.fail_at(Error::UnexpectedChar, h);
        }
        self.string_exec(h + 1, BodyKind::Literal(n), dedent)
    }

    fn other_char_exec(&self, p: usize, err: Error) -> (r: Result<Lexed, Located<Error>>)
        requires
            self.wf(),
            self@.pos <= p < self@.src.len(),
        ensures
            reports(r, other_char(self@, p as int, err).0, self@.src),
            other_char(self@, p as int, err).1 == self@,
    {
        proof {
            self.lemma_bounds();
        }
        match decode_at(self.dec.bytes_ref(), p) {
            Decoded::Invalid => self.fail_at(Error::InvalidUtf8, p),
            Decoded::Incomplete => if self.complete {
                self.fail_at(Error::InvalidUtf8, p)
            } else {
                Ok(Lexed::Incomplete)
            },
            Decoded::Char(_) => self.fail_at(err, p),
        }
    }

    fn token_exec(&mut self, p: usize) -> (r: Result<Lexed, Located<Error>>)
        requires
            old(self).wf(),
            old(self)@.pos <= p < old(self)@.src.len(),
        ensures
            final(self).wf(),
            reports(r, token_at(old(self)@, p as int).0, old(self)@.src),
            final(self)@ == token_at(old(self)@, p as int).1,
    {
        proof {
            self.lemma_bounds();
        }
        let src = self.dec.bytes_ref();
        let len = src.len();
        let c = src[p];
        let next: u8 = if p + 1 < len {
            src[p + 1]
        } else {
            0
        };
        if self.expect == Expect::PropertyName {
            if c == 0x7d {
                let n = self.nesting.len();
                if n > 0 && self.nesting[n - 1] == ComplexKind::Object {
                    self.nesting.pop();
                    let ex = self.after_value_exec();
                    return self.emit_exec(Token::ObjectEnd, p + 1, ex);
                }
                return self.fail_at(Error::UnexpectedChar, p);
            } else if is_id_start_exec(c) {
                return self.word_exec(p);
            } else {
                return self.other_char_exec(p, Error::InvalidPropertyId);
            }
        }
        if c == 0x7b {
            self.nesting.push(ComplexKind::Object);
            self.emit_exec(Token::ObjectStart, p + 1, Expect::PropertyName)
        } else if c == 0x5b {
            self.nesting.push(ComplexKind::Array);
            self.emit_exec(Token::ArrayStart, p + 1, Expect::Value)
        } else if c == 0x5d && self.expect == Expect::Value && self.nesting.len() > 0
            && self.nesting[self.nesting.len() - 1] == ComplexKind::Array {
            self.nesting.pop();
            let ex = self.after_value_exec();
            self.emit_exec(Token::ArrayEnd, p + 1, ex)
        } else if c == 0x22 {
            self.string_exec(p + 1, BodyKind::Quoted, false)
        } else if c == 0x23 {
            self.literal_exec(p, false)
        } else if c == 0x64 && p + 1 < len && next == 0x22 {
            self.string_exec(p + 2, BodyKind::Quoted, true)
        } else if c == 0x64 && p + 1 < len && next == 0x23 {
            self.literal_exec(p + 1, true)
        } else if is_id_start_exec(c) {
            self.word_exec(p)
        } else if (0x30 <= c && c <= 0x39) || c == 0x2d || c == 0x2b {
            self.number_exec(p)
        } else {
            self.other_char_exec(p, Error::UnexpectedChar)
        }
    }
}

impl Lexer {
    /// A lexer over the whole of `s`: no more input will follow.
    pub fn from(s: &str) -> (r: Lexer)
        requires
            s.spec_bytes().len() < usize::MAX,
        ensures
            r.wf(),
            r@ == initial(s.spec_bytes(), true),
    {
        let dec = Utf8Decoder::from(s);
        Lexer {
            dec,
            complete: true,
            expect: Expect::Value,
            nesting: Vec::new(),
            newlines: 0,
            started: false,
        }
    }

    /// A lexer that is fed its input in pieces.
    pub fn new() -> (r: Lexer)
        ensures
            r.wf(),
            r@ == initial(Seq::empty(), false),
    {
        Lexer {
            dec: Utf8Decoder::empty(),
            complete: false,
            expect: Expect::Value,
            nesting: Vec::new(),
            newlines: 0,
            started: false,
        }
    }

    /// Appends bytes that have arrived.
    pub fn feed(&mut self, more: &[u8])
        requires
            old(self).wf(),
            old(self)@.src.len() + more@.len() < usize::MAX,
        ensures
            final(self).wf(),
            final(self)@ == (LexState { src: old(self)@.src + more@, ..old(self)@ }),
    {
        proof {
            self.lemma_bounds();
        }
        self.dec.feed(more);
    }

    /// Declares that no more bytes will arrive.
    pub fn finish(&mut self)
        requires
            old(self).wf(),
        ensures
            final(self).wf(),
            final(self)@ == (LexState { complete: true, ..old(self)@ }),
    {
        self.complete = true;
    }

    /// Whether the whole input has been fed.
    pub fn is_complete(&self) -> (r: bool)
        ensures
            r == self@.complete,
    {
        self.complete
    }

    /// The line on which the next token attempt starts.
    pub fn line(&self) -> (r: usize)
        requires
            self.wf(),
        ensures
            r == line_of(self@.src, self@.pos),
    {
        self.dec.line()
    }

    /// Produces the next token, or says that more input is needed or that the
    /// input is exhausted, exactly as `step` describes.
    pub fn next_step(&mut self) -> (r: Result<Lexed, Located<Error>>)
        requires
            old(self).wf(),
        ensures
            final(self).wf(),
            reports(r, step(old(self)@).0, old(self)@.src),
            final(self)@ == step(old(self)@).1,
    {
        proof {
            self.lemma_bounds();
        }
        let len = self.dec.bytes_ref().len();
        let mut p = self.dec.pos();
        let mut nl = self.newlines;
        loop
            invariant
                self.wf(),
                self@ == old(self)@,
                len == self@.src.len(),
                self@.pos <= p,
                p <= len,
                nl <= 1,
                step_at(self@, p as int, nl as int) == step(self@),
            decreases len - p,
        {
            proof {
                self.lemma_bounds();
            }
            if p >= len {
                if !self.complete {
                    return Ok(Lexed::Incomplete);
                } else if self.nesting.len() > 0 || self.expect == Expect::PropertyValue {
                    return self.fail_at(Error::UnexpectedEof, p);
                } else {
                    return Ok(Lexed::Done);
                }
            }
            let src = self.dec.bytes_ref();
            let c = src[p];
            if is_blank_exec(c) {
                p = p + 1;
            } else if c == 0x0a {
                if self.started && nl >= 1 {
                    self.dec.advance_to(p + 1);
                    self.newlines = 0;
                    return Ok(Lexed::Token(Token::Linespace));
                }
                nl = if self.started {
                    nl + 1
                } else {
                    0
                };
                p = p + 1;
            } else if c == 0x2f {
                if p + 1 >= len {
                    if self.complete {
                        return self.fail_at(Error::UnexpectedChar, p);
                    } else {
                        return Ok(Lexed::Incomplete);
                    }
                }
                let c1 = src[p + 1];
                if c1 == 0x2f {
                    if p + 2 >= len && !self.complete {
                        return Ok(Lexed::Incomplete);
                    }
                    let doc = p + 2 < len && src[p + 2] == 0x2f;
                    let start = if doc {
                        p + 3
                    } else {
                        p + 2
                    };
                    proof {
                        lemma_body_scan_bounds(self@.src, start as int, BodyKind::Line, self@.complete);
                        lemma_body_scan_valid(self@.src, start as int, BodyKind::Line, self@.complete);
                    }
                    match scan_body(src, start, BodyKind::Line, self.complete) {
                        Scan::Done(e, body) => {
                            if doc {
                                let t = string_from_utf8(body.as_slice());
                                let ex = self.expect;
                                return self.emit_exec(Token::DocstringLine(t), e, ex);
                            }
                            let n = body.len();
                            let q = if n > 0 && body[n - 1] == 0x0a {
                                e - 1
                            } else {
                                e
                            };
                            if !(p < q && q <= len) {
                                return self.fail_at(Error::UnexpectedChar, p);
                            }
                            p = q;
                            nl = 0;
                        },
                        Scan::Incomplete => {
                            return Ok(Lexed::Incomplete);
                        },
                        Scan::Fail(err, q) => {
                            return self.fail_at(err, q);
                        },
                    }
                } else if c1 == 0x2a {
                    proof {
                        lemma_body_scan_bounds(self@.src, p + 2, BodyKind::Block, self@.complete);
                    }
                    match scan_body(src, p + 2, BodyKind::Block, self.complete) {
                        Scan::Done(e, _) => {
                            if !(p < e && e <= len) {
                                return self.fail_at(Error::UnexpectedChar, p);
                            }
                            p = e;
                            nl = 0;
                        },
                        Scan::Incomplete => {
                            return Ok(Lexed::Incomplete);
                        },
                        Scan::Fail(err, q) => {
                            return self.fail_at(err, q);
                        },
                    }
                } else {
                    return self.fail_at(Error::UnexpectedChar, p);
                }
            } else if c == 0x2c {
                if self.nesting.len() > 0 && self.expect != Expect::PropertyValue {
                    p = p + 1;
                    nl = 0;
                } else {
                    return self.fail_at(Error::UnexpectedChar, p);
                }
            } else {
                return self.token_exec(p);
            }
        }
    }

    /// The next token of a complete input, `None` once it is exhausted. On a
    /// lexer still waiting for input, running out of bytes is reported as an
    /// unexpected end of input.
    pub fn next(&mut self) -> (r: Option<Result<Token, Located<Error>>>)
        requires
            old(self).wf(),
        ensures
            final(self).wf(),
            final(self)@ == step(old(self)@).1,
            match step(old(self)@).0 {
                Outcome::Token(t) => r is Some && r->Some_0 is Ok && r->Some_0->Ok_0@ == t,
                Outcome::Done => r is None,
                Outcome::Incomplete => r == Some(
                    Err::<Token, Located<Error>>(
                        Located {
                            line: line_of(old(self)@.src, old(self)@.pos) as usize,
                            err: Error::UnexpectedEof,
                        },
                    ),
                ),
                Outcome::Fail(err, q) => r == Some(
                    Err::<Token, Located<Error>>(
                        Located { line: line_of(old(self)@.src, q) as usize, err },
                    ),
                ),
            },
    {
        let line = self.line();
        match self.next_step() {
            Ok(Lexed::Token(t)) => Some(Ok(t)),
            Ok(Lexed::Incomplete) => Some(Err(Located { line, err: Error::UnexpectedEof })),
            Ok(Lexed::Done) => None,
            Err(e) => Some(Err(e)),
        }
    }
}

/// Every byte of a run is of the run's class, hence ASCII.
proof fn lemma_run_end_chars(src: Seq<u8>, i: int, num: bool)
    requires
        0 <= i <= src.len(),
    ensures
        forall|j: int|
            i <= j < run_end(src, i, num) ==> (if num {
                is_num_char(#[trigger] src[j])
            } else {
                is_id_char(src[j])
            }) && src[j] < 0x80,
    decreases src.len() - i,
{
    if i < src.len() {
        lemma_run_end_chars(src, i + 1, num);
    }
}

pub(crate) proof fn lemma_run_end(src: Seq<u8>, i: int, num: bool)
    requires
        0 <= i <= src.len(),
    ensures
        i <= run_end(src, i, num) <= src.len(),
        i < src.len() && (if num {
            is_num_char(src[i])
        } else {
            is_id_char(src[i])
        }) ==> run_end(src, i, num) > i,
    decreases src.len() - i,
{
    if i < src.len() {
        lemma_run_end(src, i + 1, num);
    }
}

pub(crate) proof fn lemma_hash_end(src: Seq<u8>, i: int)
    requires
        0 <= i <= src.len(),
    ensures
        i <= hash_end(src, i) <= src.len(),
    decreases src.len() - i,
{
    if i < src.len() {
        lemma_hash_end(src, i + 1);
    }
}

proof fn lemma_string_progress(s: LexState, start: int, kind: BodyKind, dedent: bool)
    requires
        0 <= start <= s.src.len(),
    ensures
        string_token(s, start, kind, dedent).1.src == s.src,
        !(string_token(s, start, kind, dedent).0 is Token) ==> string_token(s, start, kind, dedent).1
            == s,
        string_token(s, start, kind, dedent).0 is Token ==> start <= string_token(
            s,
            start,
            kind,
            dedent,
        ).1.pos <= s.src.len(),
{
    lemma_body_scan_bounds(s.src, start, kind, s.complete);
}

proof fn lemma_literal_progress(s: LexState, fence: int, dedent: bool)
    requires
        0 <= fence < s.src.len(),
    ensures
        literal_token(s, fence, dedent).1.src == s.src,
        !(literal_token(s, fence, dedent).0 is Token) ==> literal_token(s, fence, dedent).1 == s,
        literal_token(s, fence, dedent).0 is Token ==> fence < literal_token(
            s,
            fence,
            dedent,
        ).1.pos <= s.src.len(),
{
    lemma_hash_end(s.src, fence);
    let h = hash_end(s.src, fence);
    if h < s.src.len() {
        lemma_string_progress(s, h + 1, BodyKind::Literal((h - fence) as usize), dedent);
    }
}

proof fn lemma_token_progress(s: LexState, p: int)
    requires
        0 <= p < s.src.len(),
    ensures
        token_at(s, p).1.src == s.src,
        !(token_at(s, p).0 is Token) ==> token_at(s, p).1 == s,
        token_at(s, p).0 is Token ==> p < token_at(s, p).1.pos <= s.src.len(),
{
    lemma_run_end(s.src, p, false);
    lemma_run_end(s.src, p, true);
    lemma_string_progress(s, p + 1, BodyKind::Quoted, false);
    lemma_literal_progress(s, p, false);
    if p + 1 < s.src.len() {
        lemma_string_progress(s, p + 2, BodyKind::Quoted, true);
        lemma_literal_progress(s, p + 1, true);
    }
}

/// Every step keeps the bytes, a step that yields a token moves forward, and
/// a step that yields anything else changes nothing.
pub proof fn lemma_step_at_progress(s: LexState, p: int, nl: int)
    requires
        0 <= s.pos <= p <= s.src.len(),
    ensures
        step_at(s, p, nl).1.src == s.src,
        !(step_at(s, p, nl).0 is Token) ==> step_at(s, p, nl).1 == s,
        step_at(s, p, nl).0 is Token ==> s.pos < step_at(s, p, nl).1.pos <= s.src.len(),
    decreases s.src.len() - p,
{
    let src = s.src;
    let len = src.len();
    if p < len {
        let c = src[p];
        if is_blank(c) {
            lemma_step_at_progress(s, p + 1, nl);
        } else if c == 0x0a {
            if !(s.started && nl >= 1) {
                lemma_step_at_progress(
                    s,
                    p + 1,
                    if s.started {
                        nl + 1
                    } else {
                        0
                    },
                );
            }
        } else if c == 0x2f {
            if p + 1 < len && src[p + 1] == 0x2f {
                if p + 3 <= len {
                    lemma_body_scan_bounds(src, p + 3, BodyKind::Line, s.complete);
                }
                lemma_body_scan_bounds(src, p + 2, BodyKind::Line, s.complete);
                match body_scan(src, p + 2, BodyKind::Line, s.complete) {
                    ScanV::Done(e, body) => {
                        let q = comment_end(e, body);
                        if p < q <= len {
                            lemma_step_at_progress(s, q, 0);
                        }
                    },
                    _ => {},
                }
            } else if p + 1 < len && src[p + 1] == 0x2a {
                match body_scan(src, p + 2, BodyKind::Block, s.complete) {
                    ScanV::Done(e, body) => {
                        if p < e <= len {
                            lemma_step_at_progress(s, e, 0);
                        }
                    },
                    _ => {},
                }
            }
        } else if c == 0x2c {
            if s.nesting.len() > 0 && s.expect != Expect::PropertyValue {
                lemma_step_at_progress(s, p + 1, 0);
            }
        } else {
            lemma_token_progress(s, p);
        }
    }
}

impl Lexer {
    /// Where the next token attempt starts.
    pub fn position(&self) -> (r: usize)
        requires
            self.wf(),
        ensures
            r == self@.pos,
    {
        self.dec.pos()
    }

    /// The bytes fed so far.
    pub fn bytes_ref(&self) -> (r: &Vec<u8>)
        requires
            self.wf(),
        ensures
            r@ == self@.src,
    {
        self.dec.bytes_ref()
    }

    /// Moves the position forward to `q`; nothing else changes.
    pub fn advance_to(&mut self, q: usize)
        requires
            old(self).wf(),
            old(self)@.pos <= q <= old(self)@.src.len(),
        ensures
            final(self).wf(),
            final(self)@ == (LexState { pos: q as int, ..old(self)@ }),
    {
        self.dec.advance_to(q);
    }

    pub proof fn lemma_wf(&self)
        requires
            self.wf(),
        ensures
            0 <= self@.pos <= self@.src.len() < usize::MAX,
    {
        self.lemma_bounds();
    }
}

/// A step that runs out of bytes, or fails, leaves the lexer as it was, so
/// the same step can be tried again once more bytes are fed.
pub proof fn lemma_incomplete_keeps_state(s: LexState)
    requires
        0 <= s.pos <= s.src.len(),
    ensures
        step(s).0 is Incomplete ==> step(s).1 == s,
        step(s).0 is Fail ==> step(s).1 == s,
{
    lemma_step_at_progress(s, s.pos, s.newlines);
}

/// At the end of the bytes with an array or object still open, a complete
/// input is truncated, while an input that may still grow is incomplete.
pub proof fn lemma_truncation_versus_incomplete(s: LexState)
    requires
        s.pos == s.src.len(),
        s.nesting.len() > 0,
    ensures
        s.complete ==> step(s).0 == Outcome::Fail(Error::UnexpectedEof, s.pos),
        !s.complete ==> step(s).0 is Incomplete,
{
}

/// A run of spaces and tabs, or a single newline.
pub open spec fn is_padding(w: Seq<u8>) -> bool {
    (forall|i: int| 0 <= i < w.len() ==> (#[trigger] w[i] == 0x20 || w[i] == 0x09)) || w
        == seq![0x0au8]
}

proof fn lemma_keyword_chars(k: Seq<u8>)
    requires
        keyword_of(k) is Some,
    ensures
        k.len() >= 4,
        forall|j: int| 0 <= j < k.len() ==> is_id_char(#[trigger] k[j]),
        k[0] == 0x6e || k[0] == 0x74 || k[0] == 0x66,
{
    if k =~= seq![0x6eu8, 0x75, 0x6c, 0x6c] {
    } else if k =~= seq![0x74u8, 0x72, 0x75, 0x65] {
    } else {
        assert(k =~= seq![0x66u8, 0x61, 0x6c, 0x73, 0x65]);
    }
}

proof fn lemma_run_end_exact(src: Seq<u8>, i: int, e: int)
    requires
        0 <= i <= e <= src.len(),
        forall|j: int| i <= j < e ==> is_id_char(#[trigger] src[j]),
        e == src.len() || !is_id_char(src[e]),
    ensures
        run_end(src, i, false) == e,
    decreases e - i,
{
    if i < e {
        lemma_run_end_exact(src, i + 1, e);
    }
}

/// Before anything is produced, padding is passed over.
proof fn lemma_skip_padding(s: LexState, p: int, end: int)
    requires
        !s.started,
        0 <= p <= end <= s.src.len(),
        forall|j: int| p <= j < end ==> (#[trigger] s.src[j] == 0x20 || s.src[j] == 0x09 || s.src[j]
            == 0x0a),
    ensures
        step_at(s, p, 0) == step_at(s, end, 0),
    decreases end - p,
{
    if p < end {
        lemma_skip_padding(s, p + 1, end);
    }
}

/// The first token of `w1 + k + w2`, for a keyword `k` and padding `w1` and
/// `w2`, is the keyword's value.
proof fn lemma_padded_keyword(k: Seq<u8>, w1: Seq<u8>, w2: Seq<u8>)
    requires
        keyword_of(k) is Some,
        is_padding(w1),
        is_padding(w2),
    ensures
        step(initial(w1 + k + w2, true)).0 == Outcome::Token(Tok::Value(keyword_of(k)->Some_0)),
{
    let src = w1 + k + w2;
    let s = initial(src, true);
    let a = w1.len() as int;
    let e = a + k.len();
    lemma_keyword_chars(k);
    assert forall|j: int| 0 <= j < a implies (#[trigger] src[j] == 0x20 || src[j] == 0x09
        || src[j] == 0x0a) by {
        assert(src[j] == w1[j]);
        if w1 == seq![0x0au8] {
        } else {
            assert(w1[j] == 0x20 || w1[j] == 0x09);
        }
    }
    lemma_skip_padding(s, 0, a);
    assert forall|j: int| a <= j < e implies is_id_char(#[trigger] src[j]) by {
        assert(src[j] == k[j - a]);
    }
    assert(e < src.len() ==> src[e] == w2[0]);
    if e < src.len() {
        if w2 == seq![0x0au8] {
        } else {
            assert(w2[0] == 0x20 || w2[0] == 0x09);
        }
    }
    lemma_run_end_exact(src, a, e);
    assert(src.subrange(a, e) =~= k);
    assert(src[a] == k[0]);
}

/// A leading or trailing run of spaces and tabs, or a single newline, around
/// `null`, `true` or `false` does not change the token produced.
pub proof fn lemma_keyword_whitespace_invariance(k: Seq<u8>, w1: Seq<u8>, w2: Seq<u8>)
    requires
        keyword_of(k) is Some,
        is_padding(w1),
        is_padding(w2),
    ensures
        step(initial(w1 + k + w2, true)).0 == step(initial(k, true)).0,
        step(initial(k, true)).0 == Outcome::Token(Tok::Value(keyword_of(k)->Some_0)),
{
    lemma_padded_keyword(k, w1, w2);
    let none = Seq::<u8>::empty();
    assert(is_padding(none));
    assert(none + k + none =~= k);
    lemma_padded_keyword(k, none, none);
}

proof fn lemma_body_scan_complete(src: Seq<u8>, i: int, kind: BodyKind)
    requires
        0 <= i,
    ensures
        !(body_scan(src, i, kind, true) is Incomplete),
    decreases src.len() - i,
{
    match scan_step(src, i, kind, true) {
        StepV::More(j, _) => {
            if i < j <= src.len() {
                lemma_body_scan_complete(src, j, kind);
            }
        },
        StepV::Stop(_) => {},
    }
}

proof fn lemma_token_complete(s: LexState, p: int)
    requires
        s.complete,
        0 <= p < s.src.len(),
    ensures
        !(token_at(s, p).0 is Incomplete),
{
    lemma_body_scan_complete(s.src, p + 1, BodyKind::Quoted);
    lemma_body_scan_complete(s.src, p + 2, BodyKind::Quoted);
    lemma_hash_end(s.src, p);
    lemma_hash_end(s.src, p + 1);
    let h0 = hash_end(s.src, p);
    let h1 = hash_end(s.src, p + 1);
    lemma_body_scan_complete(s.src, h0 + 1, BodyKind::Literal((h0 - p) as usize));
    lemma_body_scan_complete(s.src, h1 + 1, BodyKind::Literal((h1 - (p + 1)) as usize));
}

/// On an input declared complete, no step asks for more bytes.
pub proof fn lemma_complete_input_never_incomplete(s: LexState, p: int, nl: int)
    requires
        s.complete,
        0 <= p <= s.src.len(),
    ensures
        !(step_at(s, p, nl).0 is Incomplete),
    decreases s.src.len() - p,
{
    let src = s.src;
    let len = src.len();
    if p < len {
        let c = src[p];
        if is_blank(c) {
            lemma_complete_input_never_incomplete(s, p + 1, nl);
        } else if c == 0x0a {
            if !(s.started && nl >= 1) {
                lemma_complete_input_never_incomplete(
                    s,
                    p + 1,
                    if s.started {
                        nl + 1
                    } else {
                        0
                    },
                );
            }
        } else if c == 0x2f {
            lemma_body_scan_complete(src, p + 3, BodyKind::Line);
            lemma_body_scan_complete(src, p + 2, BodyKind::Line);
            lemma_body_scan_complete(src, p + 2, BodyKind::Block);
            if let ScanV::Done(e, body) = body_scan(src, p + 2, BodyKind::Line, true) {
                let q = comment_end(e, body);
                if p < q <= len {
                    lemma_complete_input_never_incomplete(s, q, 0);
                }
            }
            if let ScanV::Done(e, body) = body_scan(src, p + 2, BodyKind::Block, true) {
                if p < e <= len {
                    lemma_complete_input_never_incomplete(s, e, 0);
                }
            }
        } else if c == 0x2c {
            if s.nesting.len() > 0 && s.expect != Expect::PropertyValue {
                lemma_complete_input_never_incomplete(s, p + 1, 0);
            }
        } else {
            lemma_token_complete(s, p);
        }
    }
}

} // verus!
