//! A plain model of JSON values.
//!
//! The library works on its own value type so that every structural
//! operation can be specified; a numeric payload is carried as its
//! source text, which the schema and transform logic never inspect.

use vstd::prelude::*;

verus! {

/// A JSON value.  Object entries keep their source order and may in
/// principle repeat a key; a lookup finds the first occurrence.
#[derive(Debug, PartialEq, Eq)]
pub enum JsonValue {
    Null,
    Bool(bool),
    Number(String),
    String(String),
    Array(Vec<JsonValue>),
    Object(Vec<(String, JsonValue)>),
}

/// The mathematical model of a [`JsonValue`].
#[verifier::ext_equal]
pub enum ValueModel {
    Null,
    Bool(bool),
    Number(Seq<char>),
    String(Seq<char>),
    Array(Seq<ValueModel>),
    Object(Seq<(Seq<char>, ValueModel)>),
}

/// The model of a value.
pub open spec fn value_model(v: JsonValue) -> ValueModel
    decreases v,
{
    match v {
        JsonValue::Null => ValueModel::Null,
        JsonValue::Bool(b) => ValueModel::Bool(b),
        JsonValue::Number(n) => ValueModel::Number(n@),
        JsonValue::String(s) => ValueModel::String(s@),
        JsonValue::Array(elems) => ValueModel::Array(elems_model(elems@)),
        JsonValue::Object(entries) => ValueModel::Object(entries_model(entries@)),
    }
}

/// The models of an element list.
pub open spec fn elems_model(es: Seq<JsonValue>) -> Seq<ValueModel>
    decreases es,
{
    if es.len() == 0 {
        Seq::empty()
    } else {
        seq![value_model(es[0])] + elems_model(es.subrange(1, es.len() as int))
    }
}

/// The models of an entry list.
pub open spec fn entries_model(es: Seq<(String, JsonValue)>) -> Seq<(Seq<char>, ValueModel)>
    decreases es,
{
    if es.len() == 0 {
        Seq::empty()
    } else {
        seq![(es[0].0@, value_model(es[0].1))] + entries_model(es.subrange(1, es.len() as int))
    }
}

/// `elems_model` maps the list elementwise.
pub proof fn lemma_elems_model(es: Seq<JsonValue>)
    ensures
        elems_model(es).len() == es.len(),
        forall|i: int| 0 <= i < es.len()
            ==> #[trigger] elems_model(es)[i] == value_model(es[i]),
    decreases es.len(),
{
    if es.len() > 0 {
        lemma_elems_model(es.subrange(1, es.len() as int));
    }
}

/// `entries_model` maps the list elementwise.
pub proof fn lemma_entries_model(es: Seq<(String, JsonValue)>)
    ensures
        entries_model(es).len() == es.len(),
        forall|i: int| 0 <= i < es.len()
            ==> #[trigger] entries_model(es)[i] == (es[i].0@, value_model(es[i].1)),
    decreases es.len(),
{
    if es.len() > 0 {
        lemma_entries_model(es.subrange(1, es.len() as int));
    }
}

impl View for JsonValue {
    type V = ValueModel;

    open spec fn view(&self) -> ValueModel {
        value_model(*self)
    }
}

/// The value under the first entry with the given key, if any.
pub open spec fn object_lookup(
    entries: Seq<(Seq<char>, ValueModel)>,
    key: Seq<char>,
) -> Option<ValueModel>
    decreases entries.len(),
{
    if entries.len() == 0 {
        Option::None
    } else if entries[0].0 == key {
        Option::Some(entries[0].1)
    } else {
        object_lookup(entries.subrange(1, entries.len() as int), key)
    }
}

impl Clone for JsonValue {
    /// A deep copy with the same model.
    #[verifier::loop_isolation(false)]
    fn clone(&self) -> (out: Self)
        ensures
            out@ == self@,
        decreases self,
    {
        match self {
            JsonValue::Null => JsonValue::Null,
            JsonValue::Bool(b) => JsonValue::Bool(*b),
            JsonValue::Number(n) => JsonValue::Number(n.clone()),
            JsonValue::String(s) => JsonValue::String(s.clone()),
            JsonValue::Array(elems) => {
                let mut out_elems: Vec<JsonValue> = Vec::new();
                let mut i: usize = 0;
                while i < elems.len()
                    invariant
                        i <= elems@.len(),
                        out_elems@.len() == i as int,
                        forall|k: int| 0 <= k < i as int
                            ==> #[trigger] out_elems@[k]@ == elems@[k]@,
                    decreases elems@.len() - i as int,
                {
                    proof {
                        assert(decreases_to!(*self => (*self)->Array_0));
                        assert(decreases_to!(*elems => elems[i as int]));
                    }
                    let val = elems[i].clone();
                    out_elems.push(val);
                    i += 1;
                }
                proof {
                    lemma_elems_model(out_elems@);
                    lemma_elems_model(elems@);
                    assert forall|k: int| 0 <= k < elems@.len()
                        implies elems_model(out_elems@)[k] == elems_model(elems@)[k] by {
                        assert(out_elems@[k]@ == elems@[k]@);
                    }
                    assert(elems_model(out_elems@) =~= elems_model(elems@));
                }
                JsonValue::Array(out_elems)
            }
            JsonValue::Object(entries) => {
                let mut out_entries: Vec<(String, JsonValue)> = Vec::new();
                let mut i: usize = 0;
                while i < entries.len()
                    invariant
                        i <= entries@.len(),
                        out_entries@.len() == i as int,
                        forall|k: int| 0 <= k < i as int
                            ==> #[trigger] out_entries@[k].0@ == entries@[k].0@
                                && out_entries@[k].1@ == entries@[k].1@,
                    decreases entries@.len() - i as int,
                {
                    proof {
                        assert(decreases_to!(*self => (*self)->Object_0));
                        assert(decreases_to!(*entries => entries[i as int]));
                        assert(decreases_to!(*self => entries[i as int].1));
                    }
                    let key = entries[i].0.clone();
                    let val = entries[i].1.clone();
                    out_entries.push((key, val));
                    i += 1;
                }
                proof {
                    lemma_entries_model(out_entries@);
                    lemma_entries_model(entries@);
                    assert forall|k: int| 0 <= k < entries@.len()
                        implies entries_model(out_entries@)[k] == entries_model(entries@)[k] by {
                        assert(out_entries@[k].0@ == entries@[k].0@);
                        assert(out_entries@[k].1@ == entries@[k].1@);
                    }
                    assert(entries_model(out_entries@) =~= entries_model(entries@));
                }
                JsonValue::Object(out_entries)
            }
        }
    }
}

} // verus!
