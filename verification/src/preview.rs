//! A shallow preview of a JSON value: only the top levels of the
//! structure are kept, everything deeper is summarised.

use crate::json_value::{
    entries_model, lemma_elems_model, lemma_entries_model, JsonValue, ValueModel,
};
use vstd::prelude::*;

verus! {

/// The decimal digit for a value below ten.
pub open spec fn digit_char(d: nat) -> char {
    if d == 0 { '0' }
    else if d == 1 { '1' }
    else if d == 2 { '2' }
    else if d == 3 { '3' }
    else if d == 4 { '4' }
    else if d == 5 { '5' }
    else if d == 6 { '6' }
    else if d == 7 { '7' }
    else if d == 8 { '8' }
    else { '9' }
}

/// The decimal digits of a number, most significant first.
pub open spec fn dec_digits(n: nat) -> Seq<char>
    decreases n,
{
    if n < 10 {
        seq![digit_char(n)]
    } else {
        dec_digits(n / 10) + seq![digit_char(n % 10)]
    }
}

/// The marker that stands for the elements a preview leaves out.
pub open spec fn more_message(more: nat) -> Seq<char> {
    "... ("@ + dec_digits(more) + " more)"@
}

/// The preview of a value: at depth zero a summary string for its
/// shape; below that, objects keep their keys with previewed values,
/// and an array keeps its first element previewed plus a marker for the
/// rest.
pub open spec fn preview_model(v: ValueModel, depth: nat) -> ValueModel
    decreases depth, 0nat, 0nat,
{
    if depth == 0 {
        match v {
            ValueModel::Null => ValueModel::String("null"@),
            ValueModel::Bool(_) => ValueModel::String("bool"@),
            ValueModel::Number(_) => ValueModel::String("number"@),
            ValueModel::String(_) => ValueModel::String("\"...\""@),
            ValueModel::Array(_) => ValueModel::String("[...]"@),
            ValueModel::Object(_) => ValueModel::String("{...}"@),
        }
    } else {
        match v {
            ValueModel::Object(entries) => ValueModel::Object(
                preview_entries(entries, (depth - 1) as nat),
            ),
            ValueModel::Array(elems) => if elems.len() == 0 {
                ValueModel::Array(Seq::empty())
            } else {
                let first = preview_model(elems[0], (depth - 1) as nat);
                if elems.len() > 1 {
                    ValueModel::Array(
                        seq![first, ValueModel::String(more_message((elems.len() - 1) as nat))],
                    )
                } else {
                    ValueModel::Array(seq![first])
                }
            },
            _ => v,
        }
    }
}

/// The previews of an entry list, every value previewed at the given
/// depth.
pub open spec fn preview_entries(
    entries: Seq<(Seq<char>, ValueModel)>,
    depth: nat,
) -> Seq<(Seq<char>, ValueModel)>
    decreases depth, 1nat, entries.len(),
{
    if entries.len() == 0 {
        Seq::empty()
    } else {
        seq![(entries[0].0, preview_model(entries[0].1, depth))]
            + preview_entries(entries.subrange(1, entries.len() as int), depth)
    }
}

/// `preview_entries` maps the list elementwise.
proof fn lemma_preview_entries(entries: Seq<(Seq<char>, ValueModel)>, depth: nat)
    ensures
        preview_entries(entries, depth).len() == entries.len(),
        forall|i: int| 0 <= i < entries.len()
            ==> #[trigger] preview_entries(entries, depth)[i]
                == (entries[i].0, preview_model(entries[i].1, depth)),
    decreases entries.len(),
{
    if entries.len() > 0 {
        lemma_preview_entries(entries.subrange(1, entries.len() as int), depth);
    }
}

/// The decimal digit of a value below ten, as a one-character text.
fn digit_str(d: u64) -> (out: &'static str)
    requires
        d < 10,
    ensures
        out@ == seq![digit_char(d as nat)],
{
    if d == 0 { proof { reveal_strlit("0"); } "0" }
    else if d == 1 { proof { reveal_strlit("1"); } "1" }
    else if d == 2 { proof { reveal_strlit("2"); } "2" }
    else if d == 3 { proof { reveal_strlit("3"); } "3" }
    else if d == 4 { proof { reveal_strlit("4"); } "4" }
    else if d == 5 { proof { reveal_strlit("5"); } "5" }
    else if d == 6 { proof { reveal_strlit("6"); } "6" }
    else if d == 7 { proof { reveal_strlit("7"); } "7" }
    else if d == 8 { proof { reveal_strlit("8"); } "8" }
    else { proof { reveal_strlit("9"); } "9" }
}

/// The decimal text of a number.
fn u64_to_dec(n: u64) -> (out: String)
    ensures
        out@ == dec_digits(n as nat),
    decreases n,
{
    if n < 10 {
        digit_str(n).to_owned()
    } else {
        let mut s = u64_to_dec(n / 10);
        s.append(digit_str(n % 10));
        s
    }
}

/// The preview of a JSON value down to `depth` levels, as specified by
/// [`preview_model`].
#[verifier::loop_isolation(false)]
pub fn truncate_json(value: &JsonValue, depth: usize) -> (out: JsonValue)
    ensures
        out@ == preview_model(value@, depth as nat),
    decreases depth,
{
    if depth == 0 {
        match value {
            JsonValue::Null => JsonValue::String("null".to_owned()),
            JsonValue::Bool(_) => JsonValue::String("bool".to_owned()),
            JsonValue::Number(_) => JsonValue::String("number".to_owned()),
            JsonValue::String(_) => JsonValue::String("\"...\"".to_owned()),
            JsonValue::Array(_) => JsonValue::String("[...]".to_owned()),
            JsonValue::Object(_) => JsonValue::String("{...}".to_owned()),
        }
    } else {
        match value {
            JsonValue::Object(entries) => {
                let ghost em = entries_model(entries@);
                proof {
                    lemma_entries_model(entries@);
                    lemma_preview_entries(em, (depth - 1) as nat);
                }
                let mut out_entries: Vec<(String, JsonValue)> = Vec::new();
                let mut i: usize = 0;
                while i < entries.len()
                    invariant
                        i <= entries@.len(),
                        out_entries@.len() == i as int,
                        forall|k: int| 0 <= k < i as int
                            ==> #[trigger] out_entries@[k].0@ == em[k].0
                                && out_entries@[k].1@ == preview_model(em[k].1, (depth - 1) as nat),
                    decreases entries@.len() - i,
                {
                    let key = entries[i].0.clone();
                    let val = truncate_json(&entries[i].1, depth - 1);
                    proof {
                        assert(em[i as int] == (entries@[i as int].0@, entries@[i as int].1@));
                    }
                    out_entries.push((key, val));
                    i += 1;
                }
                proof {
                    lemma_entries_model(out_entries@);
                    assert(entries_model(out_entries@)
                        =~= preview_entries(em, (depth - 1) as nat));
                }
                JsonValue::Object(out_entries)
            }
            JsonValue::Array(elems) => {
                if elems.len() == 0 {
                    let out = JsonValue::Array(Vec::new());
                    proof {
                        assert(out@ == ValueModel::Array(Seq::<ValueModel>::empty()))
                            by {
                            assert(crate::json_value::elems_model(Seq::<JsonValue>::empty())
                                =~= Seq::<ValueModel>::empty());
                        }
                    }
                    out
                } else {
                    let first = truncate_json(&elems[0], depth - 1);
                    let mut out_elems: Vec<JsonValue> = Vec::new();
                    out_elems.push(first);
                    if elems.len() > 1 {
                        let more = u64_to_dec((elems.len() - 1) as u64);
                        let mut msg = "... (".to_owned();
                        msg.append(more.as_str());
                        msg.append(" more)");
                        out_elems.push(JsonValue::String(msg));
                    }
                    proof {
                        lemma_elems_model(out_elems@);
                        lemma_elems_model(elems@);
                        if elems@.len() > 1 {
                            assert(crate::json_value::elems_model(out_elems@) =~= seq![
                                preview_model(elems@[0]@, (depth - 1) as nat),
                                ValueModel::String(more_message((elems@.len() - 1) as nat)),
                            ]);
                        } else {
                            assert(crate::json_value::elems_model(out_elems@)
                                =~= seq![preview_model(elems@[0]@, (depth - 1) as nat)]);
                        }
                    }
                    JsonValue::Array(out_elems)
                }
            }
            _ => value.clone(),
        }
    }
}

} // verus!
