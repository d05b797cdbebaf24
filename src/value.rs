//! Document trees, and the builder that assembles them from tokens.
//!
//! Doc comment lines gather until a property name or a value takes them:
//! lines above a property belong to that property, lines above the root
//! value belong to the document. Lines followed by anything else (the end
//! of an array or object, an array item, the end of input) are an error
//! rather than silently dropped. Blank-line tokens are layout only and are
//! passed over.
use vstd::prelude::*;

use crate::datetime::{Date, DateTime};
use crate::error::Error;
use crate::number::Number;
use crate::parser::{string_value, ComplexKind, SimpleV, SimpleValue, Tok, Token};

verus! {

/// A string together with whether it was written as a literal (`#"..."#`).
#[derive(Debug, Clone, PartialEq)]
pub enum MaybeLiteralString {
    NonLiteral(String),
    Literal(String),
}

/// A string together with whether it was marked for dedenting (`d"..."`).
/// The text of a dedent string is kept exactly as written: removing the
/// indentation common to its lines is left to whoever reads the value, so
/// that no reading of the original layout is lost.
#[derive(Debug, Clone, PartialEq)]
pub enum ValueString {
    Regular(MaybeLiteralString),
    Dedent(MaybeLiteralString),
}

#[derive(Debug, PartialEq)]
pub enum Value {
    Null,
    Bool(bool),
    Number(Number),
    String(ValueString),
    Date(Date),
    DateTime(DateTime),
    Array(Vec<Value>),
    Object(Vec<DocumentedProperty>),
}

/// A property of an object, with the doc comment written above it.
#[derive(Debug, PartialEq)]
pub struct DocumentedProperty {
    pub docstring: Option<String>,
    pub id: String,
    pub value: Value,
}

/// A whole document: its root value and the doc comment above it.
#[derive(Debug, PartialEq)]
pub struct Document {
    pub docstring: Option<String>,
    pub value: Value,
}

pub enum ValueV {
    Null,
    Bool(bool),
    Number(Number),
    String { dedent: bool, literal: bool, text: Seq<char> },
    Date(Date),
    DateTime(DateTime),
    Array(Seq<ValueV>),
    Object(Seq<PropV>),
}

pub struct PropV {
    pub doc: Option<Seq<char>>,
    pub id: Seq<char>,
    pub value: ValueV,
}

pub struct DocV {
    pub doc: Option<Seq<char>>,
    pub value: ValueV,
}

pub open spec fn opt_text(s: Option<String>) -> Option<Seq<char>> {
    match s {
        Some(t) => Some(t@),
        None => None,
    }
}

impl View for Value {
    type V = ValueV;

    open spec fn view(&self) -> ValueV
        decreases self,
    {
        match self {
            Value::Null => ValueV::Null,
            Value::Bool(b) => ValueV::Bool(*b),
            Value::Number(n) => ValueV::Number(*n),
            Value::String(s) => match s {
                ValueString::Regular(MaybeLiteralString::NonLiteral(t)) => ValueV::String {
                    dedent: false,
                    literal: false,
                    text: t@,
                },
                ValueString::Regular(MaybeLiteralString::Literal(t)) => ValueV::String {
                    dedent: false,
                    literal: true,
                    text: t@,
                },
                ValueString::Dedent(MaybeLiteralString::NonLiteral(t)) => ValueV::String {
                    dedent: true,
                    literal: false,
                    text: t@,
                },
                ValueString::Dedent(MaybeLiteralString::Literal(t)) => ValueV::String {
                    dedent: true,
                    literal: true,
                    text: t@,
                },
            },
            Value::Date(d) => ValueV::Date(*d),
            Value::DateTime(d) => ValueV::DateTime(*d),
            Value::Array(v) => ValueV::Array(
                Seq::new(
                    v@.len(),
                    |i: int|
                        if 0 <= i < v@.len() {
                            v@[i].view()
                        } else {
                            ValueV::Null
                        },
                ),
            ),
            Value::Object(ps) => ValueV::Object(
                Seq::new(
                    ps@.len(),
                    |i: int|
                        if 0 <= i < ps@.len() {
                            PropV {
                                doc: opt_text(ps@[i].docstring),
                                id: ps@[i].id@,
                                value: ps@[i].value.view(),
                            }
                        } else {
                            PropV { doc: None, id: Seq::empty(), value: ValueV::Null }
                        },
                ),
            ),
        }
    }
}

impl View for DocumentedProperty {
    type V = PropV;

    open spec fn view(&self) -> PropV {
        PropV { doc: opt_text(self.docstring), id: self.id@, value: self.value@ }
    }
}

impl View for Document {
    type V = DocV;

    open spec fn view(&self) -> DocV {
        DocV { doc: opt_text(self.docstring), value: self.value@ }
    }
}

pub open spec fn values_view(v: Seq<Value>) -> Seq<ValueV> {
    Seq::new(v.len(), |i: int| v[i]@)
}

pub open spec fn props_view(v: Seq<DocumentedProperty>) -> Seq<PropV> {
    Seq::new(v.len(), |i: int| v[i]@)
}

pub proof fn lemma_array_view(v: Vec<Value>)
    ensures
        Value::Array(v)@ == ValueV::Array(values_view(v@)),
{
    let a = Value::Array(v);
    reveal_with_fuel(<Value as View>::view, 2);
    assert(a@ is Array);
    let s = a@->Array_0;
    assert(s.len() == v@.len());
    assert forall|i: int| 0 <= i < s.len() implies s[i] == values_view(v@)[i] by {
        assert(s[i] == v@[i].view());
    }
    assert(s =~= values_view(v@));
}

pub proof fn lemma_object_view(v: Vec<DocumentedProperty>)
    ensures
        Value::Object(v)@ == ValueV::Object(props_view(v@)),
{
    let a = Value::Object(v);
    reveal_with_fuel(<Value as View>::view, 2);
    assert(a@ is Object);
    let s = a@->Object_0;
    assert(s.len() == v@.len());
    assert forall|i: int| 0 <= i < s.len() implies s[i] == props_view(v@)[i] by {
        assert(s[i] == PropV {
            doc: opt_text(v@[i].docstring),
            id: v@[i].id@,
            value: v@[i].value.view(),
        });
    }
    assert(s =~= props_view(v@));
}

/// The value that a simple token stands for.
pub open spec fn simple_value(v: SimpleV) -> ValueV {
    match v {
        SimpleV::Null => ValueV::Null,
        SimpleV::Bool(b) => ValueV::Bool(b),
        SimpleV::Number(n) => ValueV::Number(n),
        SimpleV::Date(d) => ValueV::Date(d),
        SimpleV::DateTime(d) => ValueV::DateTime(d),
        SimpleV::String(t) => ValueV::String { dedent: false, literal: false, text: t },
        SimpleV::DedentString(t) => ValueV::String { dedent: true, literal: false, text: t },
        SimpleV::LiteralString(t) => ValueV::String { dedent: false, literal: true, text: t },
        SimpleV::DedentLiteralString(t) => ValueV::String { dedent: true, literal: true, text: t },
    }
}

pub fn simple_to_value(v: SimpleValue) -> (r: Value)
    ensures
        r@ == simple_value(v@),
{
    match v {
        SimpleValue::Null => Value::Null,
        SimpleValue::Bool(b) => Value::Bool(b),
        SimpleValue::Number(n) => Value::Number(n),
        SimpleValue::Date(d) => Value::Date(d),
        SimpleValue::DateTime(d) => Value::DateTime(d),
        SimpleValue::String(t) => Value::String(ValueString::Regular(MaybeLiteralString::NonLiteral(t))),
        SimpleValue::DedentString(t) => Value::String(ValueString::Dedent(MaybeLiteralString::NonLiteral(t))),
        SimpleValue::LiteralString(t) => Value::String(ValueString::Regular(MaybeLiteralString::Literal(t))),
        SimpleValue::DedentLiteralString(t) => Value::String(ValueString::Dedent(MaybeLiteralString::Literal(t))),
    }
}

/// An array or object under construction.
pub struct FrameV {
    pub kind: ComplexKind,
    /// Whether this is the object that a document of bare top-level
    /// properties forms, which has no braces to close it.
    pub implicit: bool,
    pub items: Seq<ValueV>,
    pub props: Seq<PropV>,
    /// The name of the property whose value comes next.
    pub key: Option<Seq<char>>,
    /// The doc comment above that property.
    pub key_doc: Option<Seq<char>>,
}

/// The builder's state: open collections, innermost last; the root value
/// once complete; and doc comment lines not attached yet.
pub struct BuildV {
    pub stack: Seq<FrameV>,
    pub root: Option<ValueV>,
    pub root_doc: Option<Seq<char>>,
    pub doc: Option<Seq<char>>,
}

pub open spec fn empty_frame(kind: ComplexKind, implicit: bool) -> FrameV {
    FrameV { kind, implicit, items: Seq::empty(), props: Seq::empty(), key: None, key_doc: None }
}

pub open spec fn start_state() -> BuildV {
    BuildV { stack: Seq::empty(), root: None, root_doc: None, doc: None }
}

pub open spec fn add_doc(doc: Option<Seq<char>>, t: Seq<char>) -> Option<Seq<char>> {
    match doc {
        Some(d) => Some(d + t),
        None => Some(t),
    }
}

pub open spec fn has_key(props: Seq<PropV>, k: Seq<char>) -> bool {
    exists|i: int| 0 <= i < props.len() && #[trigger] props[i].id == k
}

pub open spec fn frame_value(f: FrameV) -> ValueV {
    if f.kind == ComplexKind::Array {
        ValueV::Array(f.items)
    } else {
        ValueV::Object(f.props)
    }
}

/// Puts a finished value where it belongs: as the root, as the next item of
/// the open array, or as the value of the property just named.
pub open spec fn place(b: BuildV, v: ValueV) -> Result<BuildV, Error> {
    if b.stack.len() == 0 {
        if b.root is Some {
            Err(Error::UnexpectedChar)
        } else {
            Ok(
                BuildV {
                    root: Some(v),
                    root_doc: if b.doc is Some {
                        b.doc
                    } else {
                        b.root_doc
                    },
                    doc: None,
                    ..b
                },
            )
        }
    } else {
        let n = b.stack.len() - 1;
        let top = b.stack[n];
        if b.doc is Some {
            Err(Error::DanglingDocstring)
        } else if top.kind == ComplexKind::Array {
            Ok(BuildV { stack: b.stack.update(n, FrameV { items: top.items.push(v), ..top }), ..b })
        } else {
            match top.key {
                Some(k) => Ok(
                    BuildV {
                        stack: b.stack.update(
                            n,
                            FrameV {
                                props: top.props.push(PropV { doc: top.key_doc, id: k, value: v }),
                                key: None,
                                key_doc: None,
                                ..top
                            },
                        ),
                        ..b
                    },
                ),
                None => Err(Error::UnexpectedChar),
            }
        }
    }
}

pub open spec fn open_frame(b: BuildV, kind: ComplexKind) -> Result<BuildV, Error> {
    let f = empty_frame(kind, false);
    if b.stack.len() == 0 {
        if b.root is Some {
            Err(Error::UnexpectedChar)
        } else {
            Ok(BuildV { stack: seq![f], root_doc: b.doc, doc: None, ..b })
        }
    } else {
        let top = b.stack.last();
        if b.doc is Some {
            Err(Error::DanglingDocstring)
        } else if top.kind == ComplexKind::Object && top.key is None {
            Err(Error::UnexpectedChar)
        } else {
            Ok(BuildV { stack: b.stack.push(f), ..b })
        }
    }
}

pub open spec fn close_frame(b: BuildV, kind: ComplexKind) -> Result<BuildV, Error> {
    if b.stack.len() == 0 {
        Err(Error::UnexpectedChar)
    } else {
        let top = b.stack.last();
        if b.doc is Some {
            Err(Error::DanglingDocstring)
        } else if top.kind != kind || top.implicit || top.key is Some {
            Err(Error::UnexpectedChar)
        } else {
            place(BuildV { stack: b.stack.drop_last(), ..b }, frame_value(top))
        }
    }
}

pub open spec fn name_property(b: BuildV, k: Seq<char>) -> Result<BuildV, Error> {
    if b.stack.len() == 0 {
        if b.root is Some {
            Err(Error::UnexpectedChar)
        } else {
            Ok(
                BuildV {
                    stack: seq![
                        FrameV {
                            key: Some(k),
                            key_doc: b.doc,
                            ..empty_frame(ComplexKind::Object, true)
                        },
                    ],
                    doc: None,
                    ..b
                },
            )
        }
    } else {
        let n = b.stack.len() - 1;
        let top = b.stack[n];
        if top.kind != ComplexKind::Object || top.key is Some {
            Err(Error::UnexpectedChar)
        } else if has_key(top.props, k) {
            Err(Error::DuplicatePropertyName)
        } else {
            Ok(
                BuildV {
                    stack: b.stack.update(n, FrameV { key: Some(k), key_doc: b.doc, ..top }),
                    doc: None,
                    ..b
                },
            )
        }
    }
}

/// How the builder takes in one token.
pub open spec fn apply(b: BuildV, t: Tok) -> Result<BuildV, Error> {
    match t {
        Tok::Linespace => Ok(b),
        Tok::DocstringLine(s) => Ok(BuildV { doc: add_doc(b.doc, s), ..b }),
        Tok::PropertyId(k) => name_property(b, k),
        Tok::Value(v) => place(b, simple_value(v)),
        Tok::ObjectStart => open_frame(b, ComplexKind::Object),
        Tok::ArrayStart => open_frame(b, ComplexKind::Array),
        Tok::ObjectEnd => close_frame(b, ComplexKind::Object),
        Tok::ArrayEnd => close_frame(b, ComplexKind::Array),
    }
}

/// The document once the tokens are exhausted.
pub open spec fn finish(b: BuildV) -> Result<DocV, Error> {
    if b.doc is Some {
        Err(Error::DanglingDocstring)
    } else if b.stack.len() == 1 && b.stack[0].implicit && b.stack[0].key is None {
        Ok(DocV { doc: None, value: ValueV::Object(b.stack[0].props) })
    } else if b.stack.len() > 0 {
        Err(Error::UnexpectedEof)
    } else {
        match b.root {
            Some(v) => Ok(DocV { doc: b.root_doc, value: v }),
            None => Err(Error::UnexpectedEof),
        }
    }
}

struct Frame {
    kind: ComplexKind,
    implicit: bool,
    items: Vec<Value>,
    props: Vec<DocumentedProperty>,
    key: Option<String>,
    key_doc: Option<String>,
}

impl View for Frame {
    type V = FrameV;

    closed spec fn view(&self) -> FrameV {
        FrameV {
            kind: self.kind,
            implicit: self.implicit,
            items: values_view(self.items@),
            props: props_view(self.props@),
            key: opt_text(self.key),
            key_doc: opt_text(self.key_doc),
        }
    }
}

spec fn frames_view(s: Seq<Frame>) -> Seq<FrameV> {
    Seq::new(s.len(), |i: int| s[i]@)
}

pub open spec fn opt_value(v: Option<Value>) -> Option<ValueV> {
    match v {
        Some(x) => Some(x@),
        None => None,
    }
}

/// Assembles a document from tokens, one token at a time.
pub struct Builder {
    stack: Vec<Frame>,
    root: Option<Value>,
    root_doc: Option<String>,
    doc: Option<String>,
}

impl View for Builder {
    type V = BuildV;

    closed spec fn view(&self) -> BuildV {
        BuildV {
            stack: frames_view(self.stack@),
            root: opt_value(self.root),
            root_doc: opt_text(self.root_doc),
            doc: opt_text(self.doc),
        }
    }
}

fn has_key_exec(props: &Vec<DocumentedProperty>, k: &String) -> (r: bool)
    ensures
        r == has_key(props_view(props@), k@),
{
    let ghost pv = props_view(props@);
    let mut i: usize = 0;
    while i < props.len()
        invariant
            i <= props@.len(),
            pv == props_view(props@),
            forall|j: int| 0 <= j < i ==> pv[j].id != k@,
        decreases props@.len() - i,
    {
        if props[i].id == *k {
            assert(pv[i as int].id == k@);
            return true;
        }
        i = i + 1;
    }
    false
}

impl Builder {
    pub fn new() -> (r: Builder)
        ensures
            r@ == start_state(),
    {
        let r = Builder { stack: Vec::new(), root: None, root_doc: None, doc: None };
        assert(frames_view(r.stack@) =~= Seq::<FrameV>::empty());
        r
    }

    fn pop_frame(&mut self) -> (f: Frame)
        requires
            old(self).stack@.len() > 0,
        ensures
            f@ == old(self)@.stack.last(),
            final(self)@ == (BuildV { stack: old(self)@.stack.drop_last(), ..old(self)@ }),
    {
        let f = self.stack.pop().unwrap();
        assert(frames_view(self.stack@) =~= frames_view(old(self).stack@).drop_last());
        f
    }

    fn push_frame(&mut self, f: Frame)
        ensures
            final(self)@ == (BuildV { stack: old(self)@.stack.push(f@), ..old(self)@ }),
    {
        self.stack.push(f);
        assert(frames_view(self.stack@) =~= frames_view(old(self).stack@).push(f@));
    }

    fn place_exec(&mut self, v: Value) -> (r: Result<(), Error>)
        ensures
            match place(old(self)@, v@) {
                Ok(b) => r is Ok && final(self)@ == b,
                Err(e) => r == Err::<(), Error>(e),
            },
    {
        if self.stack.len() == 0 {
            if self.root.is_some() {
                return Err(Error::UnexpectedChar);
            }
            let d = self.doc.take();
            if d.is_some() {
                self.root_doc = d;
            }
            self.root = Some(v);
            return Ok(());
        }
        if self.doc.is_some() {
            return Err(Error::DanglingDocstring);
        }
        let ghost b = self@;
        let top = self.pop_frame();
        let Frame { kind, implicit, items, props, key, key_doc } = top;
        if kind == ComplexKind::Array {
            let mut items = items;
            items.push(v);
            let f = Frame { kind, implicit, items, props, key, key_doc };
            assert(f@.items =~= b.stack.last().items.push(v@));
            self.push_frame(f);
            assert(self@.stack =~= b.stack.update(b.stack.len() - 1, f@));
            return Ok(());
        }
        match key {
            Some(k) => {
                let mut props = props;
                let p = DocumentedProperty { docstring: key_doc, id: k, value: v };
                props.push(p);
                let f = Frame { kind, implicit, items, props, key: None, key_doc: None };
                assert(f@.props =~= b.stack.last().props.push(p@));
                self.push_frame(f);
                assert(self@.stack =~= b.stack.update(b.stack.len() - 1, f@));
                Ok(())
            },
            None => Err(Error::UnexpectedChar),
        }
    }

    fn open_exec(&mut self, kind: ComplexKind) -> (r: Result<(), Error>)
        ensures
            match open_frame(old(self)@, kind) {
                Ok(b) => r is Ok && final(self)@ == b,
                Err(e) => r == Err::<(), Error>(e),
            },
    {
        let f = Frame {
            kind,
            implicit: false,
            items: Vec::new(),
            props: Vec::new(),
            key: None,
            key_doc: None,
        };
        assert(f@ == empty_frame(kind, false)) by {
            assert(f@.items =~= Seq::<ValueV>::empty());
            assert(f@.props =~= Seq::<PropV>::empty());
        }
        let n = self.stack.len();
        if n == 0 {
            if self.root.is_some() {
                return Err(Error::UnexpectedChar);
            }
            self.root_doc = self.doc.take();
            self.push_frame(f);
            assert(self@.stack =~= seq![f@]);
            return Ok(());
        }
        if self.doc.is_some() {
            return Err(Error::DanglingDocstring);
        }
        if self.stack[n - 1].kind == ComplexKind::Object && self.stack[n - 1].key.is_none() {
            return Err(Error::UnexpectedChar);
        }
        self.push_frame(f);
        Ok(())
    }

    fn close_exec(&mut self, kind: ComplexKind) -> (r: Result<(), Error>)
        ensures
            match close_frame(old(self)@, kind) {
                Ok(b) => r is Ok && final(self)@ == b,
                Err(e) => r == Err::<(), Error>(e),
            },
    {
        let n = self.stack.len();
        if n == 0 {
            return Err(Error::UnexpectedChar);
        }
        if self.doc.is_some() {
            return Err(Error::DanglingDocstring);
        }
        if self.stack[n - 1].kind != kind || self.stack[n - 1].implicit || self.stack[n
            - 1].key.is_some() {
            return Err(Error::UnexpectedChar);
        }
        let top = self.pop_frame();
        let Frame { kind: k, implicit, items, props, key, key_doc } = top;
        let v = if k == ComplexKind::Array {
            proof {
                lemma_array_view(items);
            }
            Value::Array(items)
        } else {
            proof {
                lemma_object_view(props);
            }
            Value::Object(props)
        };
        self.place_exec(v)
    }

    fn name_exec(&mut self, k: String) -> (r: Result<(), Error>)
        ensures
            match name_property(old(self)@, k@) {
                Ok(b) => r is Ok && final(self)@ == b,
                Err(e) => r == Err::<(), Error>(e),
            },
    {
        let n = self.stack.len();
        if n == 0 {
            if self.root.is_some() {
                return Err(Error::UnexpectedChar);
            }
            let d = self.doc.take();
            let f = Frame {
                kind: ComplexKind::Object,
                implicit: true,
                items: Vec::new(),
                props: Vec::new(),
                key: Some(k),
                key_doc: d,
            };
            assert(f@.items =~= Seq::<ValueV>::empty());
            assert(f@.props =~= Seq::<PropV>::empty());
            self.push_frame(f);
            assert(self@.stack =~= seq![f@]);
            return Ok(());
        }
        if self.stack[n - 1].kind != ComplexKind::Object || self.stack[n - 1].key.is_some() {
            return Err(Error::UnexpectedChar);
        }
        if has_key_exec(&self.stack[n - 1].props, &k) {
            return Err(Error::DuplicatePropertyName);
        }
        let ghost b = self@;
        let d = self.doc.take();
        let top = self.pop_frame();
        let Frame { kind, implicit, items, props, key, key_doc } = top;
        let f = Frame { kind, implicit, items, props, key: Some(k), key_doc: d };
        self.push_frame(f);
        assert(self@.stack =~= b.stack.update(b.stack.len() - 1, f@));
        Ok(())
    }

    /// Takes in one token.
    pub fn apply(&mut self, t: Token) -> (r: Result<(), Error>)
        ensures
            match apply(old(self)@, t@) {
                Ok(b) => r is Ok && final(self)@ == b,
                Err(e) => r == Err::<(), Error>(e),
            },
    {
        match t {
            Token::Linespace => Ok(()),
            Token::DocstringLine(s) => {
                let d = self.doc.take();
                match d {
                    Some(mut d) => {
                        d.append(s.as_str());
                        self.doc = Some(d);
                    },
                    None => {
                        self.doc = Some(s);
                    },
                }
                Ok(())
            },
            Token::PropertyId(k) => self.name_exec(k),
            Token::Value(v) => self.place_exec(simple_to_value(v)),
            Token::ObjectStart => self.open_exec(ComplexKind::Object),
            Token::ArrayStart => self.open_exec(ComplexKind::Array),
            Token::ObjectEnd => self.close_exec(ComplexKind::Object),
            Token::ArrayEnd => self.close_exec(ComplexKind::Array),
        }
    }

    /// The finished document, once every token has been taken in.
    pub fn finish(self) -> (r: Result<Document, Error>)
        ensures
            match finish(self@) {
                Ok(d) => r is Ok && r->Ok_0@ == d,
                Err(e) => r == Err::<Document, Error>(e),
            },
    {
        if self.doc.is_some() {
            return Err(Error::DanglingDocstring);
        }
        let Builder { stack, root, root_doc, doc } = self;
        let mut stack = stack;
        let n = stack.len();
        if n == 1 && stack[0].implicit && stack[0].key.is_none() {
            let top = stack.pop().unwrap();
            let Frame { kind, implicit, items, props, key, key_doc } = top;
            proof {
                lemma_object_view(props);
            }
            return Ok(Document { docstring: None, value: Value::Object(props) });
        }
        if n > 0 {
            return Err(Error::UnexpectedEof);
        }
        match root {
            Some(v) => Ok(Document { docstring: root_doc, value: v }),
            None => Err(Error::UnexpectedEof),
        }
    }
}

/// Naming a property a second time in the same object is an error, never an
/// overwrite.
pub proof fn lemma_duplicate_property_rejected(b: BuildV, k: Seq<char>)
    requires
        b.stack.len() > 0,
        b.stack.last().kind == ComplexKind::Object,
        b.stack.last().key is None,
        has_key(b.stack.last().props, k),
    ensures
        apply(b, Tok::PropertyId(k)) == Err::<BuildV, Error>(Error::DuplicatePropertyName),
{
}

pub open spec fn doc_tokens(d: Option<Seq<char>>) -> Seq<Tok> {
    match d {
        Some(t) => seq![Tok::DocstringLine(t)],
        None => Seq::empty(),
    }
}

/// The tokens that spell out a value, nested values included.
pub open spec fn value_tokens(v: ValueV) -> Seq<Tok>
    decreases v,
{
    match v {
        ValueV::Null => seq![Tok::Value(SimpleV::Null)],
        ValueV::Bool(b) => seq![Tok::Value(SimpleV::Bool(b))],
        ValueV::Number(n) => seq![Tok::Value(SimpleV::Number(n))],
        ValueV::String { dedent, literal, text } => seq![
            Tok::Value(string_value(literal, dedent, text)),
        ],
        ValueV::Date(d) => seq![Tok::Value(SimpleV::Date(d))],
        ValueV::DateTime(d) => seq![Tok::Value(SimpleV::DateTime(d))],
        ValueV::Array(items) => seq![Tok::ArrayStart] + items_tokens(items) + seq![Tok::ArrayEnd],
        ValueV::Object(props) => seq![Tok::ObjectStart] + props_tokens(props) + seq![
            Tok::ObjectEnd,
        ],
    }
}

/// The tokens of a run of array items, in order.
pub open spec fn items_tokens(items: Seq<ValueV>) -> Seq<Tok>
    decreases items,
{
    if items.len() == 0 {
        Seq::empty()
    } else {
        items_tokens(items.subrange(0, items.len() - 1)) + value_tokens(items[items.len() - 1])
    }
}

/// The tokens of a run of properties, each with its doc comment, in order.
pub open spec fn props_tokens(props: Seq<PropV>) -> Seq<Tok>
    decreases props,
{
    if props.len() == 0 {
        Seq::empty()
    } else {
        let p = props[props.len() - 1];
        props_tokens(props.subrange(0, props.len() - 1)) + doc_tokens(p.doc) + seq![
            Tok::PropertyId(p.id),
        ] + value_tokens(p.value)
    }
}

/// The tokens that spell out a document: its doc comment, then its value.
pub open spec fn document_tokens(d: DocV) -> Seq<Tok> {
    doc_tokens(d.doc) + value_tokens(d.value)
}

pub open spec fn toks_view(s: Seq<Token>) -> Seq<Tok> {
    Seq::new(s.len(), |i: int| s[i]@)
}

fn push_token(out: &mut Vec<Token>, t: Token)
    ensures
        toks_view(final(out)@) == toks_view(old(out)@) + seq![t@],
{
    out.push(t);
    assert(toks_view(out@) =~= toks_view(old(out)@) + seq![t@]);
}

fn push_doc(out: &mut Vec<Token>, d: &Option<String>)
    ensures
        toks_view(final(out)@) == toks_view(old(out)@) + doc_tokens(opt_text(*d)),
{
    match d {
        Some(t) => push_token(out, Token::DocstringLine(t.clone())),
        None => {
            assert(toks_view(out@) =~= toks_view(out@) + Seq::<Tok>::empty());
        },
    }
}

fn string_token_of(s: &ValueString) -> (r: Token)
    ensures
        seq![r@] == value_tokens(Value::String(*s)@),
{
    match s {
        ValueString::Regular(MaybeLiteralString::NonLiteral(t)) => Token::Value(
            SimpleValue::String(t.clone()),
        ),
        ValueString::Regular(MaybeLiteralString::Literal(t)) => Token::Value(
            SimpleValue::LiteralString(t.clone()),
        ),
        ValueString::Dedent(MaybeLiteralString::NonLiteral(t)) => Token::Value(
            SimpleValue::DedentString(t.clone()),
        ),
        ValueString::Dedent(MaybeLiteralString::Literal(t)) => Token::Value(
            SimpleValue::DedentLiteralString(t.clone()),
        ),
    }
}

proof fn lemma_items_tokens_step(items: Seq<ValueV>, n: int)
    requires
        0 <= n < items.len(),
    ensures
        items_tokens(items.subrange(0, n + 1)) == items_tokens(items.subrange(0, n)) + value_tokens(
            items[n],
        ),
{
    let t = items.subrange(0, n + 1);
    assert(t.subrange(0, n) =~= items.subrange(0, n));
    assert(t[n] == items[n]);
}

proof fn lemma_props_tokens_step(props: Seq<PropV>, n: int)
    requires
        0 <= n < props.len(),
    ensures
        props_tokens(props.subrange(0, n + 1)) == props_tokens(props.subrange(0, n)) + doc_tokens(
            props[n].doc,
        ) + seq![Tok::PropertyId(props[n].id)] + value_tokens(props[n].value),
{
    let t = props.subrange(0, n + 1);
    assert(t.subrange(0, n) =~= props.subrange(0, n));
    assert(t[n] == props[n]);
}

fn push_value_tokens(v: &Value, out: &mut Vec<Token>)
    ensures
        toks_view(final(out)@) == toks_view(old(out)@) + value_tokens(v@),
    decreases v@,
{
    match v {
        Value::Null => push_token(out, Token::Value(SimpleValue::Null)),
        Value::Bool(b) => push_token(out, Token::Value(SimpleValue::Bool(*b))),
        Value::Number(n) => push_token(out, Token::Value(SimpleValue::Number(*n))),
        Value::String(s) => {
            let t = string_token_of(s);
            push_token(out, t);
        },
        Value::Date(d) => push_token(out, Token::Value(SimpleValue::Date(*d))),
        Value::DateTime(d) => push_token(out, Token::Value(SimpleValue::DateTime(*d))),
        Value::Array(items) => {
            proof {
                lemma_array_view(*items);
            }
            let ghost view_items = values_view(items@);
            let ghost base = toks_view(out@);
            push_token(out, Token::ArrayStart);
            let mut i: usize = 0;
            assert(view_items.subrange(0, 0) =~= Seq::<ValueV>::empty());
            while i < items.len()
                invariant
                    i <= items@.len(),
                    v@ == ValueV::Array(view_items),
                    view_items == values_view(items@),
                    toks_view(out@) == base + seq![Tok::ArrayStart] + items_tokens(
                        view_items.subrange(0, i as int),
                    ),
                decreases items@.len() - i,
            {
                proof {
                    assert(decreases_to!(v@ => v@->Array_0));
                    assert(decreases_to!(v@->Array_0 => v@->Array_0[i as int]));
                }
                push_value_tokens(&items[i], out);
                proof {
                    lemma_items_tokens_step(view_items, i as int);
                    assert(toks_view(out@) =~= base + seq![Tok::ArrayStart] + items_tokens(
                        view_items.subrange(0, i + 1),
                    ));
                }
                i = i + 1;
            }
            push_token(out, Token::ArrayEnd);
            assert(view_items.subrange(0, view_items.len() as int) =~= view_items);
            assert(toks_view(out@) =~= toks_view(old(out)@) + value_tokens(v@));
        },
        Value::Object(props) => {
            proof {
                lemma_object_view(*props);
            }
            let ghost view_props = props_view(props@);
            let ghost base = toks_view(out@);
            push_token(out, Token::ObjectStart);
            let mut i: usize = 0;
            assert(view_props.subrange(0, 0) =~= Seq::<PropV>::empty());
            while i < props.len()
                invariant
                    i <= props@.len(),
                    v@ == ValueV::Object(view_props),
                    view_props == props_view(props@),
                    toks_view(out@) == base + seq![Tok::ObjectStart] + props_tokens(
                        view_props.subrange(0, i as int),
                    ),
                decreases props@.len() - i,
            {
                proof {
                    assert(decreases_to!(v@ => v@->Object_0));
                    assert(decreases_to!(v@->Object_0 => v@->Object_0[i as int]));
                    assert(decreases_to!(v@->Object_0[i as int] => v@->Object_0[i as int].value));
                }
                let p = &props[i];
                push_doc(out, &p.docstring);
                push_token(out, Token::PropertyId(p.id.clone()));
                push_value_tokens(&p.value, out);
                proof {
                    lemma_props_tokens_step(view_props, i as int);
                    assert(toks_view(out@) =~= base + seq![Tok::ObjectStart] + props_tokens(
                        view_props.subrange(0, i + 1),
                    ));
                }
                i = i + 1;
            }
            push_token(out, Token::ObjectEnd);
            assert(view_props.subrange(0, view_props.len() as int) =~= view_props);
            assert(toks_view(out@) =~= toks_view(old(out)@) + value_tokens(v@));
        },
    }
}

impl Document {
    /// The tokens that spell out this document, from which the builder
    /// assembles it again.
    pub fn tokens(&self) -> (r: Vec<Token>)
        ensures
            toks_view(r@) == document_tokens(self@),
    {
        let mut out: Vec<Token> = Vec::new();
        assert(toks_view(out@) =~= Seq::<Tok>::empty());
        push_doc(&mut out, &self.docstring);
        push_value_tokens(&self.value, &mut out);
        assert(toks_view(out@) =~= document_tokens(self@));
        out
    }
}

} // verus!
