//! Facts about documents and token streams: spelling a document out as
//! tokens and building from those tokens gives the same document back, and
//! a document that parses never names a property twice in one object.
use vstd::prelude::*;

use crate::document::{document_of, run};
use crate::error::Error;
use crate::parser::{initial, step, string_value, ComplexKind, LexState, Outcome, SimpleV, Tok};
use crate::value::{
    add_doc, apply, doc_tokens, document_tokens, empty_frame, finish, has_key, items_tokens,
    place, props_tokens, simple_value, start_state, value_tokens, BuildV, DocV, FrameV, PropV,
    ValueV,
};

verus! {

/// The builder's state after taking in every token of `ts`, or the first
/// error.
pub open spec fn apply_all(b: BuildV, ts: Seq<Tok>) -> Result<BuildV, Error>
    decreases ts.len(),
{
    if ts.len() == 0 {
        Ok(b)
    } else {
        match apply(b, ts[0]) {
            Ok(b2) => apply_all(b2, ts.subrange(1, ts.len() as int)),
            Err(e) => Err(e),
        }
    }
}

/// Whether every object in a value names each property once.
pub open spec fn unique_keys(v: ValueV) -> bool
    decreases v,
{
    match v {
        ValueV::Array(items) => items_unique(items),
        ValueV::Object(props) => props_unique(props),
        _ => true,
    }
}

pub open spec fn items_unique(items: Seq<ValueV>) -> bool
    decreases items,
{
    if items.len() == 0 {
        true
    } else {
        items_unique(items.subrange(0, items.len() - 1)) && unique_keys(items[items.len() - 1])
    }
}

pub open spec fn props_unique(props: Seq<PropV>) -> bool
    decreases props,
{
    if props.len() == 0 {
        true
    } else {
        let pre = props.subrange(0, props.len() - 1);
        let p = props[props.len() - 1];
        props_unique(pre) && !has_key(pre, p.id) && unique_keys(p.value)
    }
}

/// A state in which a complete value can be placed: nothing built yet, or an
/// open array, or an object whose next property is named.
pub open spec fn ready(b: BuildV) -> bool {
    ||| (b.stack.len() == 0 && b.root is None && b.root_doc is None)
    ||| (b.stack.len() > 0 && b.doc is None && (b.stack.last().kind == ComplexKind::Array
        || b.stack.last().key is Some))
}

/// The state `b` with the innermost frame replaced by `f`.
pub open spec fn with_top(b: BuildV, f: FrameV) -> BuildV {
    BuildV { stack: b.stack.update(b.stack.len() - 1, f), ..b }
}

proof fn lemma_apply_all_concat(b: BuildV, s1: Seq<Tok>, s2: Seq<Tok>)
    ensures
        apply_all(b, s1 + s2) == match apply_all(b, s1) {
            Ok(b1) => apply_all(b1, s2),
            Err(e) => Err(e),
        },
    decreases s1.len(),
{
    if s1.len() == 0 {
        assert(s1 + s2 =~= s2);
    } else {
        let t = s1 + s2;
        assert(t[0] == s1[0]);
        let r1 = s1.subrange(1, s1.len() as int);
        assert(t.subrange(1, t.len() as int) =~= r1 + s2);
        if let Ok(b2) = apply(b, s1[0]) {
            lemma_apply_all_concat(b2, r1, s2);
        }
    }
}

proof fn lemma_apply_one(b: BuildV, t: Tok)
    ensures
        apply_all(b, seq![t]) == apply(b, t),
{
    assert(seq![t].subrange(1, 1) =~= Seq::<Tok>::empty());
    if let Ok(b2) = apply(b, t) {
        assert(apply_all(b2, Seq::<Tok>::empty()) == Ok::<BuildV, Error>(b2));
    }
}

proof fn lemma_value_round_trip(b: BuildV, v: ValueV)
    requires
        ready(b),
        unique_keys(v),
    ensures
        apply_all(b, value_tokens(v)) == place(b, v),
    decreases v, 0int,
{
    match v {
        ValueV::Array(items) => {
            let f = empty_frame(ComplexKind::Array, false);
            let b1 = if b.stack.len() == 0 {
                BuildV { stack: seq![f], root_doc: b.doc, doc: None, ..b }
            } else {
                BuildV { stack: b.stack.push(f), ..b }
            };
            lemma_apply_one(b, Tok::ArrayStart);
            assert(apply(b, Tok::ArrayStart) == Ok::<BuildV, Error>(b1));
            lemma_items_round_trip(b1, items);
            let bi = with_top(b1, FrameV { items: f.items + items, ..f });
            lemma_apply_all_concat(b, seq![Tok::ArrayStart], items_tokens(items));
            lemma_apply_all_concat(
                b,
                seq![Tok::ArrayStart] + items_tokens(items),
                seq![Tok::ArrayEnd],
            );
            lemma_apply_one(bi, Tok::ArrayEnd);
            let popped = BuildV { stack: bi.stack.drop_last(), ..bi };
            assert(bi.stack.last() == FrameV { items: f.items + items, ..f });
            assert(f.items + items =~= items);
            assert(apply(bi, Tok::ArrayEnd) == place(popped, ValueV::Array(items)));
            if b.stack.len() == 0 {
                assert(popped.stack =~= Seq::<FrameV>::empty());
                assert(b.stack =~= Seq::<FrameV>::empty());
                assert(place(popped, ValueV::Array(items)) == place(b, ValueV::Array(items)));
            } else {
                assert(popped.stack =~= b.stack);
                assert(popped == b);
            }
            assert(apply_all(b, seq![Tok::ArrayStart]) == Ok::<BuildV, Error>(b1));
            assert(apply_all(b, seq![Tok::ArrayStart] + items_tokens(items)) == Ok::<BuildV, Error>(bi));
        },
        ValueV::Object(props) => {
            let f = empty_frame(ComplexKind::Object, false);
            let b1 = if b.stack.len() == 0 {
                BuildV { stack: seq![f], root_doc: b.doc, doc: None, ..b }
            } else {
                BuildV { stack: b.stack.push(f), ..b }
            };
            lemma_apply_one(b, Tok::ObjectStart);
            assert(apply(b, Tok::ObjectStart) == Ok::<BuildV, Error>(b1));
            lemma_props_round_trip(b1, props);
            let bp = with_top(b1, FrameV { props, ..f });
            lemma_apply_all_concat(b, seq![Tok::ObjectStart], props_tokens(props));
            lemma_apply_all_concat(
                b,
                seq![Tok::ObjectStart] + props_tokens(props),
                seq![Tok::ObjectEnd],
            );
            lemma_apply_one(bp, Tok::ObjectEnd);
            let popped = BuildV { stack: bp.stack.drop_last(), ..bp };
            if b.stack.len() == 0 {
                assert(popped.stack =~= Seq::<FrameV>::empty());
                assert(b.stack =~= Seq::<FrameV>::empty());
            } else {
                assert(popped.stack =~= b.stack);
            }
        },
        ValueV::String { dedent, literal, text } => {
            lemma_apply_one(b, Tok::Value(string_value(literal, dedent, text)));
        },
        ValueV::Null => {
            lemma_apply_one(b, Tok::Value(SimpleV::Null));
        },
        ValueV::Bool(x) => {
            lemma_apply_one(b, Tok::Value(SimpleV::Bool(x)));
        },
        ValueV::Number(n) => {
            lemma_apply_one(b, Tok::Value(SimpleV::Number(n)));
        },
        ValueV::Date(d) => {
            lemma_apply_one(b, Tok::Value(SimpleV::Date(d)));
        },
        ValueV::DateTime(d) => {
            lemma_apply_one(b, Tok::Value(SimpleV::DateTime(d)));
        },
    }
}

proof fn lemma_items_round_trip(b: BuildV, items: Seq<ValueV>)
    requires
        b.stack.len() > 0,
        b.doc is None,
        b.stack.last().kind == ComplexKind::Array,
        items_unique(items),
    ensures
        apply_all(b, items_tokens(items)) == Ok::<BuildV, Error>(
            with_top(b, FrameV { items: b.stack.last().items + items, ..b.stack.last() }),
        ),
    decreases items, 1int,
{
    let top = b.stack.last();
    if items.len() == 0 {
        assert(top.items + items =~= top.items);
        assert(b.stack.update(b.stack.len() - 1, top) =~= b.stack);
    } else {
        let n = items.len() - 1;
        let pre = items.subrange(0, n);
        lemma_items_round_trip(b, pre);
        let bp = with_top(b, FrameV { items: top.items + pre, ..top });
        assert(bp.stack.last() == FrameV { items: top.items + pre, ..top });
        lemma_value_round_trip(bp, items[n]);
        lemma_apply_all_concat(b, items_tokens(pre), value_tokens(items[n]));
        assert((top.items + pre).push(items[n]) =~= top.items + items);
        assert(bp.stack.update(bp.stack.len() - 1, FrameV { items: top.items + items, ..top })
            =~= b.stack.update(b.stack.len() - 1, FrameV { items: top.items + items, ..top }));
    }
}

proof fn lemma_props_round_trip(b: BuildV, props: Seq<PropV>)
    requires
        b.stack.len() > 0,
        b.doc is None,
        b.stack.last().kind == ComplexKind::Object,
        b.stack.last().key is None,
        b.stack.last().key_doc is None,
        b.stack.last().props.len() == 0,
        props_unique(props),
    ensures
        apply_all(b, props_tokens(props)) == Ok::<BuildV, Error>(
            with_top(b, FrameV { props, ..b.stack.last() }),
        ),
    decreases props, 1int,
{
    let top = b.stack.last();
    let last = b.stack.len() - 1;
    if props.len() == 0 {
        assert(top.props =~= props);
        assert(b.stack.update(last, top) =~= b.stack);
    } else {
        let n = props.len() - 1;
        let pre = props.subrange(0, n);
        let p = props[n];
        lemma_props_round_trip(b, pre);
        let bp = with_top(b, FrameV { props: pre, ..top });
        let bd = BuildV { doc: p.doc, ..bp };
        if let Some(t) = p.doc {
            lemma_apply_one(bp, Tok::DocstringLine(t));
            assert(add_doc(None, t) == Some(t));
        }
        assert(apply_all(bp, doc_tokens(p.doc)) == Ok::<BuildV, Error>(bd)) by {
            if p.doc is None {
                assert(doc_tokens(p.doc) =~= Seq::<Tok>::empty());
            }
        }
        let topn = FrameV { props: pre, key: Some(p.id), key_doc: p.doc, ..top };
        let bn = BuildV { stack: bp.stack.update(last, topn), doc: None, ..bp };
        lemma_apply_one(bd, Tok::PropertyId(p.id));
        assert(apply(bd, Tok::PropertyId(p.id)) == Ok::<BuildV, Error>(bn));
        assert(bn.stack.last() == topn);
        lemma_value_round_trip(bn, p.value);
        lemma_apply_all_concat(b, props_tokens(pre), doc_tokens(p.doc));
        lemma_apply_all_concat(b, props_tokens(pre) + doc_tokens(p.doc), seq![Tok::PropertyId(p.id)]);
        lemma_apply_all_concat(
            b,
            props_tokens(pre) + doc_tokens(p.doc) + seq![Tok::PropertyId(p.id)],
            value_tokens(p.value),
        );
        assert(pre.push(PropV { doc: p.doc, id: p.id, value: p.value }) =~= props);
        assert(bn.stack.update(last, FrameV { props, key: None, key_doc: None, ..topn })
            =~= b.stack.update(last, FrameV { props, ..top }));
    }
}

/// Spelling a document out as tokens and building from those tokens gives
/// the same document back, provided no object in it names a property twice.
pub proof fn lemma_document_round_trip(d: DocV)
    requires
        unique_keys(d.value),
    ensures
        apply_all(start_state(), document_tokens(d)) is Ok,
        finish(apply_all(start_state(), document_tokens(d))->Ok_0) == Ok::<DocV, Error>(d),
{
    let b0 = BuildV { doc: d.doc, ..start_state() };
    if let Some(t) = d.doc {
        lemma_apply_one(start_state(), Tok::DocstringLine(t));
    }
    assert(apply_all(start_state(), doc_tokens(d.doc)) == Ok::<BuildV, Error>(b0)) by {
        if d.doc is None {
            assert(doc_tokens(d.doc) =~= Seq::<Tok>::empty());
        }
    }
    lemma_value_round_trip(b0, d.value);
    lemma_apply_all_concat(start_state(), doc_tokens(d.doc), value_tokens(d.value));
}

} // verus!

verus! {

/// What the builder keeps true: every finished value and every open frame
/// names each property once, and a named property is not among the ones
/// already in its object.
pub open spec fn frame_ok(f: FrameV) -> bool {
    &&& items_unique(f.items)
    &&& props_unique(f.props)
    &&& (f.key matches Some(k) ==> !has_key(f.props, k))
}

pub open spec fn build_ok(b: BuildV) -> bool {
    &&& forall|i: int| 0 <= i < b.stack.len() ==> frame_ok(#[trigger] b.stack[i])
    &&& (b.root matches Some(v) ==> unique_keys(v))
}

proof fn lemma_items_push(items: Seq<ValueV>, v: ValueV)
    requires
        items_unique(items),
        unique_keys(v),
    ensures
        items_unique(items.push(v)),
{
    assert(items.push(v).subrange(0, items.len() as int) =~= items);
}

proof fn lemma_props_push(props: Seq<PropV>, p: PropV)
    requires
        props_unique(props),
        !has_key(props, p.id),
        unique_keys(p.value),
    ensures
        props_unique(props.push(p)),
{
    assert(props.push(p).subrange(0, props.len() as int) =~= props);
}

proof fn lemma_place_ok(b: BuildV, v: ValueV)
    requires
        build_ok(b),
        unique_keys(v),
    ensures
        place(b, v) matches Ok(b2) ==> build_ok(b2),
{
    if b.stack.len() > 0 && b.doc is None {
        let n = b.stack.len() - 1;
        let top = b.stack[n];
        assert(frame_ok(top));
        if top.kind == ComplexKind::Array {
            lemma_items_push(top.items, v);
            let f = FrameV { items: top.items.push(v), ..top };
            assert(frame_ok(f));
            let s2 = b.stack.update(n, f);
            assert forall|i: int| 0 <= i < s2.len() implies frame_ok(#[trigger] s2[i]) by {
                if i != n {
                    assert(s2[i] == b.stack[i]);
                }
            }
        } else if let Some(k) = top.key {
            let p = PropV { doc: top.key_doc, id: k, value: v };
            lemma_props_push(top.props, p);
            let f = FrameV { props: top.props.push(p), key: None, key_doc: None, ..top };
            assert(frame_ok(f));
            let s2 = b.stack.update(n, f);
            assert forall|i: int| 0 <= i < s2.len() implies frame_ok(#[trigger] s2[i]) by {
                if i != n {
                    assert(s2[i] == b.stack[i]);
                }
            }
        }
    }
}

proof fn lemma_empty_frame_ok(kind: ComplexKind, implicit: bool)
    ensures
        frame_ok(empty_frame(kind, implicit)),
{
}

proof fn lemma_apply_ok(b: BuildV, t: Tok)
    requires
        build_ok(b),
    ensures
        apply(b, t) matches Ok(b2) ==> build_ok(b2),
{
    match t {
        Tok::Value(sv) => {
            let v = simple_value(sv);
            assert(unique_keys(v));
            lemma_place_ok(b, v);
        },
        Tok::ObjectStart | Tok::ArrayStart => {
            let kind = if t is ObjectStart {
                ComplexKind::Object
            } else {
                ComplexKind::Array
            };
            lemma_empty_frame_ok(kind, false);
            let f = empty_frame(kind, false);
            if b.stack.len() > 0 {
                let s2 = b.stack.push(f);
                assert forall|i: int| 0 <= i < s2.len() implies frame_ok(#[trigger] s2[i]) by {
                    if i < b.stack.len() {
                        assert(s2[i] == b.stack[i]);
                    }
                }
            } else {
                assert(seq![f][0] == f);
            }
        },
        Tok::ObjectEnd | Tok::ArrayEnd => {
            if b.stack.len() > 0 {
                let top = b.stack.last();
                assert(frame_ok(top));
                let popped = BuildV { stack: b.stack.drop_last(), ..b };
                assert forall|i: int| 0 <= i < popped.stack.len() implies frame_ok(
                    #[trigger] popped.stack[i],
                ) by {
                    assert(popped.stack[i] == b.stack[i]);
                }
                let v = if top.kind == ComplexKind::Array {
                    ValueV::Array(top.items)
                } else {
                    ValueV::Object(top.props)
                };
                assert(unique_keys(v));
                lemma_place_ok(popped, v);
            }
        },
        Tok::PropertyId(k) => {
            if b.stack.len() == 0 {
                let f = FrameV { key: Some(k), key_doc: b.doc, ..empty_frame(ComplexKind::Object, true) };
                assert(!has_key(f.props, k));
                assert(frame_ok(f));
                assert(seq![f][0] == f);
            } else {
                let n = b.stack.len() - 1;
                let top = b.stack[n];
                assert(frame_ok(top));
                if !has_key(top.props, k) {
                    let f = FrameV { key: Some(k), key_doc: b.doc, ..top };
                    let s2 = b.stack.update(n, f);
                    assert forall|i: int| 0 <= i < s2.len() implies frame_ok(#[trigger] s2[i]) by {
                        if i != n {
                            assert(s2[i] == b.stack[i]);
                        }
                    }
                }
            }
        },
        _ => {},
    }
}

/// A document that parses names each property of each of its objects once:
/// a second use of a name is an error, never an overwrite.
pub proof fn lemma_parsed_documents_have_unique_keys(src: Seq<u8>)
    ensures
        document_of(src) matches Ok(d) ==> unique_keys(d.value),
{
    lemma_run_unique(initial(src, true), start_state());
}

proof fn lemma_run_unique(ls: LexState, b: BuildV)
    requires
        build_ok(b),
    ensures
        run(ls, b) matches Ok(d) ==> unique_keys(d.value),
    decreases ls.src.len() - ls.pos,
{
    let (o, ls2) = step(ls);
    match o {
        Outcome::Token(t) => {
            if ls.pos < ls2.pos <= ls.src.len() && ls2.src == ls.src {
                lemma_apply_ok(b, t);
                if let Ok(b2) = apply(b, t) {
                    lemma_run_unique(ls2, b2);
                }
            }
        },
        Outcome::Done => {
            if b.stack.len() == 1 {
                assert(frame_ok(b.stack[0]));
            }
        },
        _ => {},
    }
}

} // verus!
