//! The decoded value tree.

use vstd::prelude::*;

verus! {

/// A decoded value, as a mathematical tree. An object is a list of entries
/// whose keys are unique.
pub enum JsonView {
    Null,
    /// The text of a decimal literal.
    Number(Seq<char>),
    Str(Seq<char>),
    Array(Seq<JsonView>),
    Object(Seq<(Seq<char>, JsonView)>),
}

/// A decoded JSON value. A number keeps its decimal text, which the float
/// grammar accepts; an object keeps one entry per key.
#[derive(Debug, PartialEq)]
pub enum Value {
    Null,
    Number(String),
    String(String),
    Array(Vec<Value>),
    Object(Vec<(String, Value)>),
}

pub open spec fn json_of(v: Value) -> JsonView
    decreases v,
{
    match v {
        Value::Null => JsonView::Null,
        Value::Number(t) => JsonView::Number(t@),
        Value::String(t) => JsonView::Str(t@),
        Value::Array(items) => JsonView::Array(
            Seq::new(
                items.len() as nat,
                |i: int|
                    if 0 <= i < items.len() {
                        json_of(items[i])
                    } else {
                        JsonView::Null
                    },
            ),
        ),
        Value::Object(es) => JsonView::Object(
            Seq::new(
                es.len() as nat,
                |i: int|
                    if 0 <= i < es.len() {
                        (es[i].0@, json_of(es[i].1))
                    } else {
                        (seq![], JsonView::Null)
                    },
            ),
        ),
    }
}

impl View for Value {
    type V = JsonView;

    open spec fn view(&self) -> JsonView {
        json_of(*self)
    }
}

/// Some entry has key `k`.
pub open spec fn has_key(es: Seq<(Seq<char>, JsonView)>, k: Seq<char>) -> bool {
    exists|i: int| 0 <= i < es.len() && (#[trigger] es[i]).0 == k
}

pub open spec fn keys_unique(es: Seq<(Seq<char>, JsonView)>) -> bool {
    forall|i: int, j: int| 0 <= i < es.len() && 0 <= j < es.len() && i != j ==> (
    #[trigger] es[i]).0 != (#[trigger] es[j]).0
}

/// Sets key `k` to `v`: the entry with that key takes the new value, or a new
/// entry goes at the end. The last write wins.
pub open spec fn upsert(es: Seq<(Seq<char>, JsonView)>, k: Seq<char>, v: JsonView) -> Seq<
    (Seq<char>, JsonView),
> {
    if has_key(es, k) {
        es.update(choose|i: int| 0 <= i < es.len() && (#[trigger] es[i]).0 == k, (k, v))
    } else {
        es.push((k, v))
    }
}

/// Every object in the tree has unique keys.
pub open spec fn keys_unique_everywhere(v: JsonView) -> bool
    decreases v,
{
    match v {
        JsonView::Array(items) => forall|i: int|
            0 <= i < items.len() ==> keys_unique_everywhere(#[trigger] items[i]),
        JsonView::Object(es) => keys_unique(es) && forall|i: int|
            0 <= i < es.len() ==> keys_unique_everywhere((#[trigger] es[i]).1),
        _ => true,
    }
}

/// Setting a key keeps keys unique, and keeps every value free of repeated
/// keys when the new value is.
pub proof fn lemma_upsert_unique(es: Seq<(Seq<char>, JsonView)>, k: Seq<char>, v: JsonView)
    requires
        keys_unique(es),
    ensures
        keys_unique(upsert(es, k, v)),
        (forall|i: int| 0 <= i < es.len() ==> keys_unique_everywhere((#[trigger] es[i]).1))
            && keys_unique_everywhere(v) ==> forall|i: int|
            0 <= i < upsert(es, k, v).len() ==> keys_unique_everywhere(
                (#[trigger] upsert(es, k, v)[i]).1,
            ),
{
    let r = upsert(es, k, v);
    if has_key(es, k) {
        let c = choose|i: int| 0 <= i < es.len() && (#[trigger] es[i]).0 == k;
        assert forall|i: int, j: int| 0 <= i < r.len() && 0 <= j < r.len() && i != j implies (
        #[trigger] r[i]).0 != (#[trigger] r[j]).0 by {
            assert(r[i].0 == es[i].0);
            assert(r[j].0 == es[j].0);
        }
    } else {
        assert forall|i: int, j: int| 0 <= i < r.len() && 0 <= j < r.len() && i != j implies (
        #[trigger] r[i]).0 != (#[trigger] r[j]).0 by {
            if i < es.len() && j < es.len() {
                assert(r[i] == es[i] && r[j] == es[j]);
            } else if i == es.len() {
                assert(r[j] == es[j]);
            } else {
                assert(r[i] == es[i]);
            }
        }
    }
}

} // verus!
