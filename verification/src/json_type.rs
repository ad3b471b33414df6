//! The schema side of the library: `JsonType`, an inferred structural
//! type for JSON values, together with its ghost model `TypeModel`.
//!
//! A `JsonType` is kept in canonical form: object fields are sorted
//! strictly by key, and union members are pairwise incompatible and
//! sorted strictly by constructor rank.  Canonical form makes plain
//! structural equality the right notion of schema equality, which is
//! what lets `join` be commutative on the nose.

use crate::text::lex_lt;
use vstd::prelude::*;

verus! {

/// An inferred structural type for JSON values.
///
/// `Object` holds its fields as a vector sorted strictly by key;
/// `Union` holds pairwise-incompatible members sorted strictly by
/// constructor rank.  Both invariants are captured by [`wf`] on the
/// ghost model.
#[derive(Debug, PartialEq, Eq)]
pub enum JsonType {
    Never,
    Null,
    Bool,
    Number,
    String,
    Array(Box<JsonType>),
    Object(Vec<(String, JsonType)>),
    Union(Vec<JsonType>),
}

/// The mathematical model of a [`JsonType`]: the same tree with
/// mathematical sequences in place of vectors and strings.
#[verifier::ext_equal]
pub enum TypeModel {
    Never,
    Null,
    Bool,
    Number,
    String,
    Array(Box<TypeModel>),
    Object(Seq<(Seq<char>, TypeModel)>),
    Union(Seq<TypeModel>),
}

/// The model of a type: every vector and string seen as a sequence.
pub open spec fn type_model(t: JsonType) -> TypeModel
    decreases t,
{
    match t {
        JsonType::Never => TypeModel::Never,
        JsonType::Null => TypeModel::Null,
        JsonType::Bool => TypeModel::Bool,
        JsonType::Number => TypeModel::Number,
        JsonType::String => TypeModel::String,
        JsonType::Array(inner) => TypeModel::Array(Box::new(type_model(*inner))),
        JsonType::Object(fields) => TypeModel::Object(fields_model(fields@)),
        JsonType::Union(members) => TypeModel::Union(members_model(members@)),
    }
}

/// The models of a field list, key views paired with value models.
pub open spec fn fields_model(fs: Seq<(String, JsonType)>) -> Seq<(Seq<char>, TypeModel)>
    decreases fs,
{
    if fs.len() == 0 {
        Seq::empty()
    } else {
        seq![(fs[0].0@, type_model(fs[0].1))] + fields_model(fs.subrange(1, fs.len() as int))
    }
}

/// The models of a member list.
pub open spec fn members_model(ms: Seq<JsonType>) -> Seq<TypeModel>
    decreases ms,
{
    if ms.len() == 0 {
        Seq::empty()
    } else {
        seq![type_model(ms[0])] + members_model(ms.subrange(1, ms.len() as int))
    }
}

/// `fields_model` maps the list elementwise.
pub proof fn lemma_fields_model(fs: Seq<(String, JsonType)>)
    ensures
        fields_model(fs).len() == fs.len(),
        forall|i: int| 0 <= i < fs.len()
            ==> #[trigger] fields_model(fs)[i] == (fs[i].0@, type_model(fs[i].1)),
    decreases fs.len(),
{
    if fs.len() > 0 {
        lemma_fields_model(fs.subrange(1, fs.len() as int));
    }
}

/// `members_model` maps the list elementwise.
pub proof fn lemma_members_model(ms: Seq<JsonType>)
    ensures
        members_model(ms).len() == ms.len(),
        forall|i: int| 0 <= i < ms.len()
            ==> #[trigger] members_model(ms)[i] == type_model(ms[i]),
    decreases ms.len(),
{
    if ms.len() > 0 {
        lemma_members_model(ms.subrange(1, ms.len() as int));
    }
}

/// Pushing a member extends the model by that member's model.
pub proof fn lemma_members_model_push(ms: Seq<JsonType>, t: JsonType)
    ensures
        members_model(ms.push(t)) == members_model(ms) + seq![type_model(t)],
{
    lemma_members_model(ms.push(t));
    lemma_members_model(ms);
    assert(members_model(ms.push(t)) =~= members_model(ms) + seq![type_model(t)]);
}

/// Pushing a field extends the model by that field's model.
pub proof fn lemma_fields_model_push(fs: Seq<(String, JsonType)>, kv: (String, JsonType))
    ensures
        fields_model(fs.push(kv)) == fields_model(fs) + seq![(kv.0@, type_model(kv.1))],
{
    lemma_fields_model(fs.push(kv));
    lemma_fields_model(fs);
    assert(fields_model(fs.push(kv)) =~= fields_model(fs) + seq![(kv.0@, type_model(kv.1))]);
}

/// A member is strictly smaller than the list that holds it.
pub proof fn lemma_members_size_index(ms: Seq<TypeModel>, k: int)
    requires
        0 <= k < ms.len(),
    ensures
        size(ms[k]) < members_size(ms),
    decreases ms.len(),
{
    if k > 0 {
        let tail = ms.subrange(1, ms.len() as int);
        lemma_members_size_index(tail, k - 1);
        assert(tail[k - 1] == ms[k]);
    }
}

/// A field value is strictly smaller than the list that holds it.
pub proof fn lemma_fields_size_index(fs: Seq<(Seq<char>, TypeModel)>, k: int)
    requires
        0 <= k < fs.len(),
    ensures
        size(fs[k].1) < fields_size(fs),
    decreases fs.len(),
{
    if k > 0 {
        let tail = fs.subrange(1, fs.len() as int);
        lemma_fields_size_index(tail, k - 1);
        assert(tail[k - 1] == fs[k]);
    }
}

impl View for JsonType {
    type V = TypeModel;

    open spec fn view(&self) -> TypeModel {
        type_model(*self)
    }
}

/// The number of constructors in a type tree; the termination measure
/// for everything that recurses over two types at once.
pub open spec fn size(t: TypeModel) -> nat
    decreases t,
{
    match t {
        TypeModel::Array(inner) => 1 + size(*inner),
        TypeModel::Object(fs) => 1 + fields_size(fs),
        TypeModel::Union(ms) => 1 + members_size(ms),
        _ => 1,
    }
}

/// Total size of the values in a field list.
pub open spec fn fields_size(fs: Seq<(Seq<char>, TypeModel)>) -> nat
    decreases fs,
{
    if fs.len() == 0 {
        0
    } else {
        1 + size(fs[0].1) + fields_size(fs.subrange(1, fs.len() as int))
    }
}

/// Total size of a member list.
pub open spec fn members_size(ms: Seq<TypeModel>) -> nat
    decreases ms,
{
    if ms.len() == 0 {
        0
    } else {
        1 + size(ms[0]) + members_size(ms.subrange(1, ms.len() as int))
    }
}

/// The rank of a constructor, the order in which union members are kept.
pub open spec fn rank(t: TypeModel) -> int {
    match t {
        TypeModel::Never => 0,
        TypeModel::Null => 1,
        TypeModel::Bool => 2,
        TypeModel::Number => 3,
        TypeModel::String => 4,
        TypeModel::Array(_) => 5,
        TypeModel::Object(_) => 6,
        TypeModel::Union(_) => 7,
    }
}

/// A type that may stand inside a union: anything but `Never` and a
/// nested union.
pub open spec fn is_member(t: TypeModel) -> bool {
    1 <= rank(t) <= 6
}

/// Canonical form.  Object fields are sorted strictly by key; union
/// members are sorted strictly by rank, so a union never holds two
/// members that `join` could merge, nor fewer than two members.
pub open spec fn wf(t: TypeModel) -> bool
    decreases t,
{
    match t {
        TypeModel::Array(inner) => wf(*inner),
        TypeModel::Object(fs) => wf_fields(fs),
        TypeModel::Union(ms) => ms.len() >= 2 && wf_members(ms),
        _ => true,
    }
}

/// Every value well formed and the keys strictly sorted.
pub open spec fn wf_fields(fs: Seq<(Seq<char>, TypeModel)>) -> bool
    decreases fs,
{
    if fs.len() == 0 {
        true
    } else {
        wf(fs[0].1)
        && (forall|j: int| 1 <= j < fs.len() ==> lex_lt(fs[0].0, #[trigger] fs[j].0))
        && wf_fields(fs.subrange(1, fs.len() as int))
    }
}

/// Every member well formed, a legal union member, and the ranks
/// strictly increasing.
pub open spec fn wf_members(ms: Seq<TypeModel>) -> bool
    decreases ms,
{
    if ms.len() == 0 {
        true
    } else {
        wf(ms[0]) && is_member(ms[0])
        && (forall|j: int| 1 <= j < ms.len() ==> rank(ms[0]) < rank(#[trigger] ms[j]))
        && wf_members(ms.subrange(1, ms.len() as int))
    }
}

impl Clone for JsonType {
    /// A deep copy with the same model.
    #[verifier::loop_isolation(false)]
    fn clone(&self) -> (out: Self)
        ensures
            out@ == self@,
        decreases self,
    {
        match self {
            JsonType::Never => JsonType::Never,
            JsonType::Null => JsonType::Null,
            JsonType::Bool => JsonType::Bool,
            JsonType::Number => JsonType::Number,
            JsonType::String => JsonType::String,
            JsonType::Array(inner) => JsonType::Array(Box::new((**inner).clone())),
            JsonType::Object(fields) => {
                let mut out_fields: Vec<(String, JsonType)> = Vec::new();
                let mut i: usize = 0;
                while i < fields.len()
                    invariant
                        i <= fields@.len(),
                        out_fields@.len() == i as int,
                        forall|k: int| 0 <= k < i as int
                            ==> #[trigger] out_fields@[k].0@ == fields@[k].0@
                                && out_fields@[k].1@ == fields@[k].1@,
                    decreases fields@.len() - i as int,
                {
                    proof {
                        assert(decreases_to!(*self => (*self)->Object_0));
                        assert(decreases_to!(*fields => fields[i as int]));
                        assert(decreases_to!(*self => fields[i as int].1));
                    }
                    let key = fields[i].0.clone();
                    let val = fields[i].1.clone();
                    out_fields.push((key, val));
                    i += 1;
                }
                proof {
                    lemma_fields_model(out_fields@);
                    lemma_fields_model(fields@);
                    assert(fields_model(out_fields@) =~= fields_model(fields@));
                }
                JsonType::Object(out_fields)
            }
            JsonType::Union(members) => {
                let mut out_members: Vec<JsonType> = Vec::new();
                let mut i: usize = 0;
                while i < members.len()
                    invariant
                        i <= members@.len(),
                        out_members@.len() == i as int,
                        forall|k: int| 0 <= k < i as int
                            ==> #[trigger] out_members@[k]@ == members@[k]@,
                    decreases members@.len() - i as int,
                {
                    proof {
                        assert(decreases_to!(*self => (*self)->Union_0));
                        assert(decreases_to!(*members => members[i as int]));
                    }
                    let val = members[i].clone();
                    out_members.push(val);
                    i += 1;
                }
                proof {
                    lemma_members_model(out_members@);
                    lemma_members_model(members@);
                    assert forall|k: int| 0 <= k < members@.len()
                        implies members_model(out_members@)[k] == members_model(members@)[k] by {
                        assert(out_members@[k]@ == members@[k]@);
                    }
                    assert(members_model(out_members@) =~= members_model(members@));
                }
                JsonType::Union(out_members)
            }
        }
    }
}

} // verus!
