//! Rendering a schema as a JSON document that describes it.

use crate::json_type::{
    lemma_fields_model, lemma_members_model, JsonType, TypeModel,
};
use crate::json_value::{JsonValue, ValueModel};
use vstd::prelude::*;

verus! {

/// The JSON document that displays a type: atomics become their
/// lower-case name string, an array a one-element array, an object an
/// object over the same keys, and a union an object with the single key
/// `"union"` holding the members.
pub open spec fn pretty_model(t: TypeModel) -> ValueModel
    decreases t,
{
    match t {
        TypeModel::Never => ValueModel::String("never"@),
        TypeModel::Null => ValueModel::String("null"@),
        TypeModel::Bool => ValueModel::String("bool"@),
        TypeModel::Number => ValueModel::String("number"@),
        TypeModel::String => ValueModel::String("string"@),
        TypeModel::Array(inner) => ValueModel::Array(seq![pretty_model(*inner)]),
        TypeModel::Object(fs) => ValueModel::Object(pretty_fields(fs)),
        TypeModel::Union(ms) => ValueModel::Object(
            seq![("union"@, ValueModel::Array(pretty_members(ms)))],
        ),
    }
}

/// The rendered entries of an object type.
pub open spec fn pretty_fields(fs: Seq<(Seq<char>, TypeModel)>) -> Seq<(Seq<char>, ValueModel)>
    decreases fs,
{
    if fs.len() == 0 {
        Seq::empty()
    } else {
        seq![(fs[0].0, pretty_model(fs[0].1))]
            + pretty_fields(fs.subrange(1, fs.len() as int))
    }
}

/// The rendered members of a union type.
pub open spec fn pretty_members(ms: Seq<TypeModel>) -> Seq<ValueModel>
    decreases ms,
{
    if ms.len() == 0 {
        Seq::empty()
    } else {
        seq![pretty_model(ms[0])] + pretty_members(ms.subrange(1, ms.len() as int))
    }
}

/// `pretty_fields` maps the list elementwise.
proof fn lemma_pretty_fields(fs: Seq<(Seq<char>, TypeModel)>)
    ensures
        pretty_fields(fs).len() == fs.len(),
        forall|i: int| 0 <= i < fs.len()
            ==> #[trigger] pretty_fields(fs)[i] == (fs[i].0, pretty_model(fs[i].1)),
    decreases fs.len(),
{
    if fs.len() > 0 {
        lemma_pretty_fields(fs.subrange(1, fs.len() as int));
    }
}

/// `pretty_members` maps the list elementwise.
proof fn lemma_pretty_members(ms: Seq<TypeModel>)
    ensures
        pretty_members(ms).len() == ms.len(),
        forall|i: int| 0 <= i < ms.len()
            ==> #[trigger] pretty_members(ms)[i] == pretty_model(ms[i]),
    decreases ms.len(),
{
    if ms.len() > 0 {
        lemma_pretty_members(ms.subrange(1, ms.len() as int));
    }
}

impl JsonType {
    /// The JSON document that displays this type, as specified by
    /// [`pretty_model`].
    #[verifier::loop_isolation(false)]
    pub fn to_pretty_json(&self) -> (out: JsonValue)
        ensures
            out@ == pretty_model(self@),
        decreases self,
    {
        match self {
            JsonType::Never => JsonValue::String("never".to_owned()),
            JsonType::Null => JsonValue::String("null".to_owned()),
            JsonType::Bool => JsonValue::String("bool".to_owned()),
            JsonType::Number => JsonValue::String("number".to_owned()),
            JsonType::String => JsonValue::String("string".to_owned()),
            JsonType::Array(inner) => {
                let elem = (**inner).to_pretty_json();
                let mut elems: Vec<JsonValue> = Vec::new();
                elems.push(elem);
                proof {
                    crate::json_value::lemma_elems_model(elems@);
                    assert(crate::json_value::elems_model(elems@)
                        =~= seq![pretty_model((**inner)@)]);
                }
                JsonValue::Array(elems)
            }
            JsonType::Object(fields) => {
                let ghost fm = crate::json_type::fields_model(fields@);
                proof {
                    lemma_fields_model(fields@);
                    lemma_pretty_fields(fm);
                }
                let mut out_entries: Vec<(String, JsonValue)> = Vec::new();
                let mut i: usize = 0;
                while i < fields.len()
                    invariant
                        i <= fields@.len(),
                        out_entries@.len() == i as int,
                        forall|k: int| 0 <= k < i as int
                            ==> #[trigger] out_entries@[k].0@ == fm[k].0
                                && out_entries@[k].1@ == pretty_model(fm[k].1),
                    decreases fields@.len() - i,
                {
                    proof {
                        assert(decreases_to!(*self => (*self)->Object_0));
                        assert(decreases_to!(*fields => fields[i as int]));
                        assert(decreases_to!(*self => fields[i as int].1));
                    }
                    let key = fields[i].0.clone();
                    let val = fields[i].1.to_pretty_json();
                    proof {
                        assert(fm[i as int]
                            == (fields@[i as int].0@, fields@[i as int].1@));
                    }
                    out_entries.push((key, val));
                    i += 1;
                }
                proof {
                    crate::json_value::lemma_entries_model(out_entries@);
                    assert(crate::json_value::entries_model(out_entries@)
                        =~= pretty_fields(fm));
                }
                JsonValue::Object(out_entries)
            }
            JsonType::Union(members) => {
                let ghost mm = crate::json_type::members_model(members@);
                proof {
                    lemma_members_model(members@);
                    lemma_pretty_members(mm);
                }
                let mut rendered: Vec<JsonValue> = Vec::new();
                let mut i: usize = 0;
                while i < members.len()
                    invariant
                        i <= members@.len(),
                        rendered@.len() == i as int,
                        forall|k: int| 0 <= k < i as int
                            ==> #[trigger] rendered@[k]@ == pretty_model(mm[k]),
                    decreases members@.len() - i,
                {
                    proof {
                        assert(decreases_to!(*self => (*self)->Union_0));
                        assert(decreases_to!(*members => members[i as int]));
                    }
                    let val = members[i].to_pretty_json();
                    rendered.push(val);
                    i += 1;
                }
                let ghost rseq = rendered@;
                let inner = JsonValue::Array(rendered);
                proof {
                    crate::json_value::lemma_elems_model(rseq);
                    assert forall|k: int| 0 <= k < rseq.len()
                        implies crate::json_value::value_model(rseq[k]) == pretty_model(mm[k]) by {
                        assert(rseq[k]@ == pretty_model(mm[k]));
                    }
                    assert(crate::json_value::elems_model(rseq) =~= pretty_members(mm));
                    assert(inner@ == ValueModel::Array(pretty_members(mm)));
                }
                let mut out_entries: Vec<(String, JsonValue)> = Vec::new();
                out_entries.push(("union".to_owned(), inner));
                proof {
                    crate::json_value::lemma_entries_model(out_entries@);
                    assert(crate::json_value::entries_model(out_entries@)
                        =~= seq![("union"@, ValueModel::Array(pretty_members(mm)))]);
                }
                JsonValue::Object(out_entries)
            }
        }
    }
}

} // verus!
