//! Structural type inference: from a JSON value to the canonical
//! `JsonType` that describes it.

use crate::json_type::{
    fields_model, lemma_fields_model, members_model, wf, wf_fields, JsonType, TypeModel,
};
use crate::json_value::{
    elems_model, entries_model, lemma_elems_model, lemma_entries_model, value_model, JsonValue,
    ValueModel,
};
use crate::lattice::{all_keys_gt, lemma_join_wf, unify_models};
use crate::text::{lemma_lex_asym, lemma_lex_connex, lemma_lex_irrefl, lex_lt, str_cmp, KeyOrder};
use vstd::prelude::*;

verus! {

/// Insertion of a field into a key-sorted field list; an existing entry
/// under the same key is replaced.
pub open spec fn entry_insert(
    fs: Seq<(Seq<char>, TypeModel)>,
    k: Seq<char>,
    t: TypeModel,
) -> Seq<(Seq<char>, TypeModel)>
    decreases fs.len(),
{
    if fs.len() == 0 {
        seq![(k, t)]
    } else if lex_lt(k, fs[0].0) {
        seq![(k, t)] + fs
    } else if k == fs[0].0 {
        seq![(k, t)] + fs.subrange(1, fs.len() as int)
    } else {
        seq![fs[0]] + entry_insert(fs.subrange(1, fs.len() as int), k, t)
    }
}

/// The type inferred for a JSON value: scalars map to their atomic
/// types, an array to an array of the unification of its element types,
/// an object to an object typing every key, a later duplicate key
/// replacing an earlier one.
pub open spec fn infer_model(v: ValueModel) -> TypeModel
    decreases v,
{
    match v {
        ValueModel::Null => TypeModel::Null,
        ValueModel::Bool(_) => TypeModel::Bool,
        ValueModel::Number(_) => TypeModel::Number,
        ValueModel::String(_) => TypeModel::String,
        ValueModel::Array(es) => TypeModel::Array(Box::new(unify_models(infer_elems(es)))),
        ValueModel::Object(es) => TypeModel::Object(infer_entries(es)),
    }
}

/// The inferred types of an element list.
pub open spec fn infer_elems(es: Seq<ValueModel>) -> Seq<TypeModel>
    decreases es,
{
    if es.len() == 0 {
        Seq::empty()
    } else {
        seq![infer_model(es[0])] + infer_elems(es.subrange(1, es.len() as int))
    }
}

/// The inferred field list of an object, built by sorted insertion in
/// entry order.
pub open spec fn infer_entries(es: Seq<(Seq<char>, ValueModel)>) -> Seq<(Seq<char>, TypeModel)>
    decreases es,
{
    if es.len() == 0 {
        Seq::empty()
    } else {
        entry_insert(
            infer_entries(es.subrange(0, es.len() - 1)),
            es[es.len() - 1].0,
            infer_model(es[es.len() - 1].1),
        )
    }
}

/// `infer_elems` maps the list elementwise.
pub proof fn lemma_infer_elems(es: Seq<ValueModel>)
    ensures
        infer_elems(es).len() == es.len(),
        forall|i: int| 0 <= i < es.len()
            ==> #[trigger] infer_elems(es)[i] == infer_model(es[i]),
    decreases es.len(),
{
    if es.len() > 0 {
        lemma_infer_elems(es.subrange(1, es.len() as int));
    }
}

/// Inference yields a canonical type.
pub proof fn lemma_infer_wf(v: ValueModel)
    ensures
        wf(infer_model(v)),
    decreases v, 1nat,
{
    match v {
        ValueModel::Array(es) => {
            lemma_infer_elems(es);
            lemma_infer_elems_wf(es);
            lemma_unify_wf(infer_elems(es));
        }
        ValueModel::Object(es) => {
            lemma_infer_entries_wf(es);
        }
        _ => {}
    }
}

/// Every inferred element type is canonical.
proof fn lemma_infer_elems_wf(es: Seq<ValueModel>)
    ensures
        forall|i: int| 0 <= i < es.len() ==> wf(#[trigger] infer_elems(es)[i]),
    decreases es, 0nat,
{
    lemma_infer_elems(es);
    assert forall|i: int| 0 <= i < es.len() implies wf(#[trigger] infer_elems(es)[i]) by {
        lemma_infer_wf(es[i]);
    }
}

/// The inferred field list of an object is canonical.
proof fn lemma_infer_entries_wf(es: Seq<(Seq<char>, ValueModel)>)
    ensures
        wf_fields(infer_entries(es)),
    decreases es, 0nat,
{
    if es.len() > 0 {
        let prefix = es.subrange(0, es.len() - 1);
        lemma_infer_entries_wf(prefix);
        lemma_infer_wf(es[es.len() - 1].1);
        lemma_entry_insert_wf(
            infer_entries(prefix),
            es[es.len() - 1].0,
            infer_model(es[es.len() - 1].1),
        );
    }
}

/// Unifying canonical types yields a canonical type.
pub proof fn lemma_unify_wf(ts: Seq<TypeModel>)
    requires
        forall|i: int| 0 <= i < ts.len() ==> wf(#[trigger] ts[i]),
    ensures
        wf(unify_models(ts)),
    decreases ts.len(),
{
    if ts.len() > 0 {
        let prefix = ts.drop_last();
        assert(forall|i: int| 0 <= i < prefix.len() ==> prefix[i] == ts[i]);
        lemma_unify_wf(prefix);
        lemma_join_wf(unify_models(prefix), ts.last());
    }
}

/// Sorted insertion preserves canonical field lists, and every strict
/// lower key bound shared by the list and the new key.
pub proof fn lemma_entry_insert_wf(fs: Seq<(Seq<char>, TypeModel)>, k: Seq<char>, t: TypeModel)
    requires
        wf_fields(fs),
        wf(t),
    ensures
        wf_fields(entry_insert(fs, k, t)),
        forall|kk: Seq<char>| all_keys_gt(fs, kk) && lex_lt(kk, k)
            ==> all_keys_gt(#[trigger] entry_insert(fs, k, t), kk),
    decreases fs.len(),
{
    let out = entry_insert(fs, k, t);
    if fs.len() == 0 {
        assert(out.subrange(1, 1) =~= Seq::<(Seq<char>, TypeModel)>::empty());
        assert(wf_fields(out.subrange(1, 1)));
        assert(wf_fields(out));
    } else if lex_lt(k, fs[0].0) {
        assert(out.subrange(1, out.len() as int) =~= fs);
        assert forall|j: int| 1 <= j < out.len() implies lex_lt(k, #[trigger] out[j].0) by {
            assert(out[j] == fs[j - 1]);
            if j > 1 {
                crate::text::lemma_lex_trans(k, fs[0].0, fs[j - 1].0);
            }
        }
        assert(wf_fields(out));
    } else if k == fs[0].0 {
        let ft = fs.subrange(1, fs.len() as int);
        assert(out.subrange(1, out.len() as int) =~= ft);
        assert forall|j: int| 1 <= j < out.len() implies lex_lt(k, #[trigger] out[j].0) by {
            assert(out[j] == ft[j - 1]);
            assert(ft[j - 1] == fs[j]);
        }
        assert(wf_fields(out));
    } else {
        lemma_lex_connex(k, fs[0].0);
        assert(lex_lt(fs[0].0, k));
        let ft = fs.subrange(1, fs.len() as int);
        assert(forall|i: int| 0 <= i < ft.len() ==> ft[i] == fs[i + 1]);
        lemma_entry_insert_wf(ft, k, t);
        let rest = entry_insert(ft, k, t);
        assert(all_keys_gt(ft, fs[0].0));
        assert(all_keys_gt(rest, fs[0].0));
        assert(out.subrange(1, out.len() as int) =~= rest);
        assert forall|j: int| 1 <= j < out.len() implies lex_lt(fs[0].0, #[trigger] out[j].0) by {
            assert(out[j] == rest[j - 1]);
        }
        assert(wf_fields(out));
        assert forall|kk: Seq<char>| all_keys_gt(fs, kk) && lex_lt(kk, k)
            implies all_keys_gt(out, kk) by {
            assert(all_keys_gt(ft, kk));
            assert(all_keys_gt(rest, kk));
            assert forall|j: int| 0 <= j < out.len() implies lex_lt(kk, #[trigger] out[j].0) by {
                if j > 0 {
                    assert(out[j] == rest[j - 1]);
                }
            }
        }
    }
}

/// Where sorted insertion lands: before the first key that is not below
/// `k`, replacing it when it equals `k`.
proof fn lemma_entry_insert_at(
    fs: Seq<(Seq<char>, TypeModel)>,
    k: Seq<char>,
    t: TypeModel,
    idx: int,
)
    requires
        0 <= idx <= fs.len(),
        forall|m: int| 0 <= m < idx ==> lex_lt(#[trigger] fs[m].0, k),
        idx < fs.len() ==> !lex_lt(fs[idx].0, k),
    ensures
        idx < fs.len() && fs[idx].0 == k ==> entry_insert(fs, k, t)
            == fs.subrange(0, idx) + seq![(k, t)] + fs.subrange(idx + 1, fs.len() as int),
        !(idx < fs.len() && fs[idx].0 == k) ==> entry_insert(fs, k, t)
            == fs.subrange(0, idx) + seq![(k, t)] + fs.subrange(idx, fs.len() as int),
    decreases idx,
{
    let out = entry_insert(fs, k, t);
    if idx == 0 {
        if fs.len() == 0 {
            assert(out =~= fs.subrange(0, 0) + seq![(k, t)] + fs.subrange(0, 0));
        } else if fs[0].0 == k {
            lemma_lex_irrefl(k);
            assert(out =~= fs.subrange(0, 0) + seq![(k, t)] + fs.subrange(1, fs.len() as int));
        } else {
            lemma_lex_connex(k, fs[0].0);
            assert(lex_lt(k, fs[0].0));
            assert(out =~= fs.subrange(0, 0) + seq![(k, t)] + fs.subrange(0, fs.len() as int));
        }
    } else {
        assert(lex_lt(fs[0].0, k));
        lemma_lex_asym(fs[0].0, k);
        lemma_lex_irrefl(k);
        assert(!lex_lt(k, fs[0].0));
        assert(k != fs[0].0);
        let ft = fs.subrange(1, fs.len() as int);
        assert(forall|i: int| 0 <= i < ft.len() ==> ft[i] == fs[i + 1]);
        lemma_entry_insert_at(ft, k, t, idx - 1);
        if idx < fs.len() && fs[idx].0 == k {
            assert(ft[idx - 1].0 == k);
            assert(out =~= fs.subrange(0, idx) + seq![(k, t)]
                + fs.subrange(idx + 1, fs.len() as int)) by {
                assert(ft.subrange(0, idx - 1) =~= fs.subrange(1, idx));
                assert(ft.subrange(idx, ft.len() as int)
                    =~= fs.subrange(idx + 1, fs.len() as int));
            }
        } else {
            assert(out =~= fs.subrange(0, idx) + seq![(k, t)]
                + fs.subrange(idx, fs.len() as int)) by {
                assert(ft.subrange(0, idx - 1) =~= fs.subrange(1, idx));
                assert(ft.subrange(idx - 1, ft.len() as int)
                    =~= fs.subrange(idx, fs.len() as int));
            }
        }
    }
}

/// Sorted insertion of one typed field into a field vector.
#[verifier::loop_isolation(false)]
fn obj_insert(fs: &mut Vec<(String, JsonType)>, key: String, t: JsonType)
    ensures
        fields_model(final(fs)@) == entry_insert(fields_model(old(fs)@), key@, t@),
{
    let ghost fm = fields_model(old(fs)@);
    proof {
        lemma_fields_model(old(fs)@);
    }
    let mut idx: usize = 0;
    let mut stop = false;
    while !stop && idx < fs.len()
        invariant
            fs@ == old(fs)@,
            idx <= fs@.len(),
            forall|m: int| 0 <= m < idx ==> lex_lt(#[trigger] fm[m].0, key@),
            stop ==> idx < fs@.len() && !lex_lt(fm[idx as int].0, key@),
        decreases fs@.len() - idx + (if stop { 0int } else { 1int }),
    {
        match str_cmp(fs[idx].0.as_str(), key.as_str()) {
            KeyOrder::Less => {
                idx += 1;
            }
            KeyOrder::Equal => {
                proof {
                    crate::text::lemma_lex_irrefl(key@);
                }
                stop = true;
            }
            KeyOrder::Greater => {
                proof {
                    crate::text::lemma_lex_asym(key@, fm[idx as int].0);
                }
                stop = true;
            }
        }
    }
    proof {
        lemma_entry_insert_at(fm, key@, t@, idx as int);
    }
    if idx < fs.len() {
        let is_equal = match str_cmp(fs[idx].0.as_str(), key.as_str()) {
            KeyOrder::Equal => true,
            _ => false,
        };
        if is_equal {
            fs.set(idx, (key, t));
            proof {
                lemma_fields_model(fs@);
                assert(fields_model(fs@) =~= fm.subrange(0, idx as int) + seq![(key@, t@)]
                    + fm.subrange(idx + 1, fm.len() as int));
            }
        } else {
            fs.insert(idx, (key, t));
            proof {
                lemma_fields_model(fs@);
                assert(fields_model(fs@) =~= fm.subrange(0, idx as int) + seq![(key@, t@)]
                    + fm.subrange(idx as int, fm.len() as int));
            }
        }
    } else {
        fs.push((key, t));
        proof {
            lemma_fields_model(fs@);
            assert(fm.subrange(idx as int, fm.len() as int)
                =~= Seq::<(Seq<char>, TypeModel)>::empty());
            assert(fields_model(fs@) =~= fm.subrange(0, idx as int) + seq![(key@, t@)]
                + fm.subrange(idx as int, fm.len() as int));
        }
    }
}

impl JsonType {
    /// The inferred structural type of a JSON value, in canonical form.
    #[verifier::loop_isolation(false)]
    #[verifier::rlimit(40)]
    pub fn infer(value: &JsonValue) -> (out: JsonType)
        ensures
            out@ == infer_model(value@),
            wf(out@),
        decreases value,
    {
        proof {
            lemma_infer_wf(value@);
        }
        match value {
            JsonValue::Null => JsonType::Null,
            JsonValue::Bool(_) => JsonType::Bool,
            JsonValue::Number(_) => JsonType::Number,
            JsonValue::String(_) => JsonType::String,
            JsonValue::Array(elems) => {
                let ghost em = elems_model(elems@);
                let ghost im = infer_elems(em);
                proof {
                    lemma_elems_model(elems@);
                    lemma_infer_elems(em);
                    assert(im.subrange(0, 0) =~= Seq::<TypeModel>::empty());
                }
                let mut acc = JsonType::Never;
                let mut i: usize = 0;
                while i < elems.len()
                    invariant
                        i <= elems@.len(),
                        acc@ == unify_models(im.subrange(0, i as int)),
                        wf(acc@),
                    decreases elems@.len() - i,
                {
                    proof {
                        assert(decreases_to!(*value => (*value)->Array_0));
                        assert(decreases_to!(*elems => elems[i as int]));
                    }
                    let ti = JsonType::infer(&elems[i]);
                    let acc2 = JsonType::join(&acc, &ti);
                    proof {
                        assert(ti@ == im[i as int]);
                        let next = im.subrange(0, i + 1);
                        assert(next.drop_last() =~= im.subrange(0, i as int));
                        assert(next.last() == im[i as int]);
                        lemma_join_wf(acc@, ti@);
                    }
                    acc = acc2;
                    i += 1;
                }
                proof {
                    assert(im.subrange(0, elems@.len() as int) =~= im);
                }
                JsonType::Array(Box::new(acc))
            }
            JsonValue::Object(entries) => {
                let ghost em = entries_model(entries@);
                proof {
                    lemma_entries_model(entries@);
                    assert(em.subrange(0, 0) =~= Seq::<(Seq<char>, ValueModel)>::empty());
                }
                let mut fsv: Vec<(String, JsonType)> = Vec::new();
                let mut i: usize = 0;
                proof {
                    assert(fields_model(fsv@) =~= Seq::<(Seq<char>, TypeModel)>::empty());
                }
                while i < entries.len()
                    invariant
                        i <= entries@.len(),
                        fields_model(fsv@) == infer_entries(em.subrange(0, i as int)),
                        wf_fields(fields_model(fsv@)),
                    decreases entries@.len() - i,
                {
                    proof {
                        assert(decreases_to!(*value => (*value)->Object_0));
                        assert(decreases_to!(*entries => entries[i as int]));
                        assert(decreases_to!(*value => entries[i as int].1));
                    }
                    let ti = JsonType::infer(&entries[i].1);
                    let key = entries[i].0.clone();
                    let ghost fm_before = fields_model(fsv@);
                    proof {
                        lemma_entry_insert_wf(fm_before, key@, ti@);
                    }
                    obj_insert(&mut fsv, key, ti);
                    proof {
                        let next = em.subrange(0, i + 1);
                        assert(next.subrange(0, i as int) =~= em.subrange(0, i as int));
                        assert(next[next.len() - 1] == em[i as int]);
                        assert(em[i as int] == (entries@[i as int].0@,
                            value_model(entries@[i as int].1)));
                    }
                    i += 1;
                }
                proof {
                    assert(em.subrange(0, entries@.len() as int) =~= em);
                }
                JsonType::Object(fsv)
            }
        }
    }

    /// The unification of a list of canonical types: the fold of `join`
    /// over the list, seeded with `Never`.
    #[verifier::loop_isolation(false)]
    pub fn unify(json_types: &[JsonType]) -> (out: JsonType)
        requires
            forall|i: int| 0 <= i < json_types@.len() ==> wf(#[trigger] json_types@[i]@),
        ensures
            out@ == unify_models(members_model(json_types@)),
            wf(out@),
    {
        let ghost tm = members_model(json_types@);
        proof {
            crate::json_type::lemma_members_model(json_types@);
            assert(tm.subrange(0, 0) =~= Seq::<TypeModel>::empty());
        }
        let mut acc = JsonType::Never;
        let mut i: usize = 0;
        while i < json_types.len()
            invariant
                i <= json_types@.len(),
                acc@ == unify_models(tm.subrange(0, i as int)),
                wf(acc@),
            decreases json_types@.len() - i,
        {
            let acc2 = JsonType::join(&acc, &json_types[i]);
            proof {
                assert(json_types@[i as int]@ == tm[i as int]);
                let next = tm.subrange(0, i + 1);
                assert(next.drop_last() =~= tm.subrange(0, i as int));
                assert(next.last() == tm[i as int]);
            }
            acc = acc2;
            i += 1;
        }
        proof {
            assert(tm.subrange(0, json_types@.len() as int) =~= tm);
        }
        acc
    }
}

} // verus!
