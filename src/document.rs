//! Whole-document parsing: the lexer's tokens fed to the builder.
use vstd::prelude::*;
use vstd::string::StringSliceAdditionalSpecFns;

use crate::encoding::line_of;
use crate::error::{Error, Located};
use crate::parser::{initial, lemma_step_at_progress, step, LexState, Lexed, Lexer, Outcome};
use crate::value::{apply, finish, start_state, BuildV, Builder, DocV, Document};

verus! {

/// The document that lexing from `ls` and building from `b` yields, or the
/// error with the line it is reported on. A builder error is reported on
/// the line where the token that caused it ends.
pub open spec fn run(ls: LexState, b: BuildV) -> Result<DocV, (Error, int)>
    decreases ls.src.len() - ls.pos,
{
    let (o, ls2) = step(ls);
    match o {
        Outcome::Token(t) => if ls.pos < ls2.pos <= ls.src.len() && ls2.src == ls.src {
            match apply(b, t) {
                Ok(b2) => run(ls2, b2),
                Err(e) => Err((e, line_of(ls2.src, ls2.pos))),
            }
        } else {
            // Never taken: a token always moves the lexer forward
            // (`lemma_step_at_progress`).
            Err((Error::UnexpectedChar, line_of(ls.src, ls.pos)))
        },
        Outcome::Done => match finish(b) {
            Ok(d) => Ok(d),
            Err(e) => Err((e, line_of(ls.src, ls.pos))),
        },
        Outcome::Incomplete => Err((Error::UnexpectedEof, line_of(ls.src, ls.pos))),
        Outcome::Fail(e, q) => Err((e, line_of(ls.src, q))),
    }
}

/// The document that a complete input holds.
pub open spec fn document_of(src: Seq<u8>) -> Result<DocV, (Error, int)> {
    run(initial(src, true), start_state())
}

/// Parses a whole document.
pub fn parse_document(s: &str) -> (r: Result<Document, Located<Error>>)
    requires
        s.spec_bytes().len() < usize::MAX,
    ensures
        match document_of(s.spec_bytes()) {
            Ok(d) => r is Ok && r->Ok_0@ == d,
            Err((e, line)) => r == Err::<Document, Located<Error>>(
                Located { line: line as usize, err: e },
            ),
        },
{
    let mut lexer = Lexer::from(s);
    let mut builder = Builder::new();
    loop
        invariant
            lexer.wf(),
            lexer@.src == s.spec_bytes(),
            run(lexer@, builder@) == document_of(s.spec_bytes()),
        decreases lexer@.src.len() - lexer@.pos,
    {
        proof {
            lexer.lemma_wf();
            lemma_step_at_progress(lexer@, lexer@.pos, lexer@.newlines);
        }
        let line = lexer.line();
        match lexer.next_step() {
            Ok(Lexed::Token(t)) => {
                match builder.apply(t) {
                    Ok(()) => {},
                    Err(e) => {
                        let l = lexer.line();
                        return Err(Located { line: l, err: e });
                    },
                }
            },
            Ok(Lexed::Done) => {
                return match builder.finish() {
                    Ok(d) => Ok(d),
                    Err(e) => Err(Located { line, err: e }),
                };
            },
            Ok(Lexed::Incomplete) => {
                return Err(Located { line, err: Error::UnexpectedEof });
            },
            Err(e) => {
                return Err(e);
            },
        }
    }
}

} // verus!
