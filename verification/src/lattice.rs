//! The join operation on type models, and the lattice laws it obeys.
//!
//! `join` merges two canonical type models into the least canonical
//! model that describes both.  Unions are kept as rank-sorted lists of
//! pairwise-incompatible members, so two compatible members (two
//! arrays, two objects, or two equal scalars) always merge instead of
//! standing side by side.

use crate::json_type::{
    fields_model, fields_size, is_member, lemma_fields_model, lemma_fields_model_push,
    lemma_fields_size_index, lemma_members_model, lemma_members_model_push,
    lemma_members_size_index, members_model, members_size, rank, size, type_model, wf, wf_fields,
    wf_members, JsonType, TypeModel,
};
use crate::text::{
    lemma_lex_asym, lemma_lex_connex, lemma_lex_irrefl, lemma_lex_trans, lex_lt, str_cmp, KeyOrder,
};
use vstd::prelude::*;

verus! {

/// The join of two type models.
///
/// `Never` is the identity; two arrays join elementwise; two objects
/// join field by field on the union of their key sets; unions merge as
/// sorted member lists; anything else becomes a two-member union
/// ordered by rank.
pub open spec fn join(a: TypeModel, b: TypeModel) -> TypeModel
    decreases size(a) + size(b),
{
    match (a, b) {
        (TypeModel::Never, _) => b,
        (_, TypeModel::Never) => a,
        (TypeModel::Union(u), TypeModel::Union(v)) => from_members(members_merge(u, v)),
        (TypeModel::Union(u), _) => from_members(member_insert(u, b)),
        (_, TypeModel::Union(v)) => from_members(member_insert(v, a)),
        (TypeModel::Array(s), TypeModel::Array(t)) => TypeModel::Array(Box::new(join(*s, *t))),
        (TypeModel::Object(fa), TypeModel::Object(fb)) => TypeModel::Object(fields_join(fa, fb)),
        _ => if rank(a) == rank(b) {
            a
        } else if rank(a) < rank(b) {
            TypeModel::Union(seq![a, b])
        } else {
            TypeModel::Union(seq![b, a])
        },
    }
}

/// A member list read back as a single type.
pub open spec fn from_members(ms: Seq<TypeModel>) -> TypeModel {
    if ms.len() == 0 {
        TypeModel::Never
    } else if ms.len() == 1 {
        ms[0]
    } else {
        TypeModel::Union(ms)
    }
}

/// The join of two union members of equal rank; never a union itself.
pub open spec fn elem_join(a: TypeModel, b: TypeModel) -> TypeModel
    decreases size(a) + size(b),
{
    match (a, b) {
        (TypeModel::Array(s), TypeModel::Array(t)) => TypeModel::Array(Box::new(join(*s, *t))),
        (TypeModel::Object(fa), TypeModel::Object(fb)) => TypeModel::Object(fields_join(fa, fb)),
        _ => a,
    }
}

/// Merge of two rank-sorted member lists; members of equal rank join.
pub open spec fn members_merge(xs: Seq<TypeModel>, ys: Seq<TypeModel>) -> Seq<TypeModel>
    decreases members_size(xs) + members_size(ys),
{
    if xs.len() == 0 {
        ys
    } else if ys.len() == 0 {
        xs
    } else if rank(xs[0]) < rank(ys[0]) {
        seq![xs[0]] + members_merge(xs.subrange(1, xs.len() as int), ys)
    } else if rank(ys[0]) < rank(xs[0]) {
        seq![ys[0]] + members_merge(xs, ys.subrange(1, ys.len() as int))
    } else {
        seq![elem_join(xs[0], ys[0])]
            + members_merge(xs.subrange(1, xs.len() as int), ys.subrange(1, ys.len() as int))
    }
}

/// Insertion of one member into a rank-sorted member list.
pub open spec fn member_insert(ms: Seq<TypeModel>, x: TypeModel) -> Seq<TypeModel>
    decreases members_size(ms) + size(x),
{
    if ms.len() == 0 {
        seq![x]
    } else if rank(x) < rank(ms[0]) {
        seq![x] + ms
    } else if rank(x) == rank(ms[0]) {
        seq![elem_join(ms[0], x)] + ms.subrange(1, ms.len() as int)
    } else {
        seq![ms[0]] + member_insert(ms.subrange(1, ms.len() as int), x)
    }
}

/// Merge of two key-sorted field lists; a key on both sides keeps the
/// join of its two value types, a key on one side keeps its type.
pub open spec fn fields_join(
    fa: Seq<(Seq<char>, TypeModel)>,
    fb: Seq<(Seq<char>, TypeModel)>,
) -> Seq<(Seq<char>, TypeModel)>
    decreases fields_size(fa) + fields_size(fb),
{
    if fa.len() == 0 {
        fb
    } else if fb.len() == 0 {
        fa
    } else if lex_lt(fa[0].0, fb[0].0) {
        seq![fa[0]] + fields_join(fa.subrange(1, fa.len() as int), fb)
    } else if lex_lt(fb[0].0, fa[0].0) {
        seq![fb[0]] + fields_join(fa, fb.subrange(1, fb.len() as int))
    } else {
        seq![(fa[0].0, join(fa[0].1, fb[0].1))]
            + fields_join(fa.subrange(1, fa.len() as int), fb.subrange(1, fb.len() as int))
    }
}

/// A well-formed field list elementwise: every value is well formed and
/// the keys are strictly sorted pairwise.
pub proof fn lemma_wf_fields_index(fs: Seq<(Seq<char>, TypeModel)>)
    requires
        wf_fields(fs),
    ensures
        forall|i: int| 0 <= i < fs.len() ==> wf(#[trigger] fs[i].1),
        forall|i: int, j: int| #![trigger fs[i].0, fs[j].0]
            0 <= i < j < fs.len() ==> lex_lt(fs[i].0, fs[j].0),
    decreases fs.len(),
{
    if fs.len() > 0 {
        let tail = fs.subrange(1, fs.len() as int);
        lemma_wf_fields_index(tail);
        assert forall|i: int| 0 <= i < fs.len() implies wf(#[trigger] fs[i].1) by {
            if i > 0 {
                assert(fs[i] == tail[i - 1]);
            }
        }
        assert forall|i: int, j: int| #![trigger fs[i].0, fs[j].0]
            0 <= i < j < fs.len() implies lex_lt(fs[i].0, fs[j].0) by {
            if i > 0 {
                assert(fs[i] == tail[i - 1]);
                assert(fs[j] == tail[j - 1]);
            }
        }
    }
}

/// A well-formed member list elementwise: every member is a well-formed
/// legal member and the ranks are strictly sorted pairwise.
pub proof fn lemma_wf_members_index(ms: Seq<TypeModel>)
    requires
        wf_members(ms),
    ensures
        forall|i: int| 0 <= i < ms.len() ==> wf(#[trigger] ms[i]) && is_member(ms[i]),
        forall|i: int, j: int| #![trigger rank(ms[i]), rank(ms[j])]
            0 <= i < j < ms.len() ==> rank(ms[i]) < rank(ms[j]),
    decreases ms.len(),
{
    if ms.len() > 0 {
        let tail = ms.subrange(1, ms.len() as int);
        lemma_wf_members_index(tail);
        assert forall|i: int| 0 <= i < ms.len() implies wf(#[trigger] ms[i]) && is_member(ms[i]) by {
            if i > 0 {
                assert(ms[i] == tail[i - 1]);
            }
        }
        assert forall|i: int, j: int| #![trigger rank(ms[i]), rank(ms[j])]
            0 <= i < j < ms.len() implies rank(ms[i]) < rank(ms[j]) by {
            if i > 0 {
                assert(ms[i] == tail[i - 1]);
                assert(ms[j] == tail[j - 1]);
            }
        }
    }
}

/// `Never` is the identity of `join`, on either side.
pub proof fn lemma_join_never(x: TypeModel)
    ensures
        join(TypeModel::Never, x) == x,
        join(x, TypeModel::Never) == x,
{
}

/// `join` is idempotent on canonical types.
pub proof fn lemma_join_idempotent(x: TypeModel)
    requires
        wf(x),
    ensures
        join(x, x) == x,
    decreases size(x),
{
    match x {
        TypeModel::Array(inner) => {
            lemma_join_idempotent(*inner);
        }
        TypeModel::Object(fs) => {
            lemma_fields_join_self(fs);
        }
        TypeModel::Union(ms) => {
            lemma_members_merge_self(ms);
        }
        _ => {}
    }
}

/// Merging a canonical field list with itself gives it back.
proof fn lemma_fields_join_self(fs: Seq<(Seq<char>, TypeModel)>)
    requires
        wf_fields(fs),
    ensures
        fields_join(fs, fs) == fs,
    decreases fields_size(fs),
{
    if fs.len() > 0 {
        lemma_lex_irrefl(fs[0].0);
        lemma_join_idempotent(fs[0].1);
        let tail = fs.subrange(1, fs.len() as int);
        lemma_fields_join_self(tail);
        assert((fs[0].0, join(fs[0].1, fs[0].1)) == fs[0]);
        assert(seq![fs[0]] + tail =~= fs);
    }
}

/// Merging a canonical member list with itself gives it back.
proof fn lemma_members_merge_self(ms: Seq<TypeModel>)
    requires
        wf_members(ms),
    ensures
        members_merge(ms, ms) == ms,
    decreases members_size(ms),
{
    if ms.len() > 0 {
        lemma_elem_join_self(ms[0]);
        let tail = ms.subrange(1, ms.len() as int);
        lemma_members_merge_self(tail);
        assert(seq![ms[0]] + tail =~= ms);
    }
}

/// An element join of a member with itself gives it back.
proof fn lemma_elem_join_self(m: TypeModel)
    requires
        wf(m),
        is_member(m),
    ensures
        elem_join(m, m) == m,
    decreases size(m),
{
    match m {
        TypeModel::Array(inner) => {
            lemma_join_idempotent(*inner);
        }
        TypeModel::Object(fs) => {
            lemma_fields_join_self(fs);
        }
        _ => {}
    }
}

/// `join` is commutative on canonical types.
pub proof fn lemma_join_commutative(a: TypeModel, b: TypeModel)
    requires
        wf(a),
        wf(b),
    ensures
        join(a, b) == join(b, a),
    decreases size(a) + size(b),
{
    match (a, b) {
        (TypeModel::Never, _) => {}
        (_, TypeModel::Never) => {}
        (TypeModel::Union(u), TypeModel::Union(v)) => {
            lemma_wf_members_index(u);
            lemma_wf_members_index(v);
            lemma_members_merge_comm(u, v);
        }
        (TypeModel::Union(_), _) => {}
        (_, TypeModel::Union(_)) => {}
        (TypeModel::Array(s), TypeModel::Array(t)) => {
            lemma_join_commutative(*s, *t);
        }
        (TypeModel::Object(fa), TypeModel::Object(fb)) => {
            lemma_wf_fields_index(fa);
            lemma_wf_fields_index(fb);
            lemma_fields_join_comm(fa, fb);
        }
        _ => {}
    }
}

/// Merging two member lists is symmetric, provided every member is a
/// well-formed legal member.
proof fn lemma_members_merge_comm(xs: Seq<TypeModel>, ys: Seq<TypeModel>)
    requires
        forall|i: int| 0 <= i < xs.len() ==> wf(#[trigger] xs[i]) && is_member(xs[i]),
        forall|i: int| 0 <= i < ys.len() ==> wf(#[trigger] ys[i]) && is_member(ys[i]),
    ensures
        members_merge(xs, ys) == members_merge(ys, xs),
    decreases members_size(xs) + members_size(ys),
{
    if xs.len() > 0 && ys.len() > 0 {
        let xt = xs.subrange(1, xs.len() as int);
        let yt = ys.subrange(1, ys.len() as int);
        assert(forall|i: int| 0 <= i < xt.len() ==> xt[i] == xs[i + 1]);
        assert(forall|i: int| 0 <= i < yt.len() ==> yt[i] == ys[i + 1]);
        if rank(xs[0]) < rank(ys[0]) {
            lemma_members_merge_comm(xt, ys);
        } else if rank(ys[0]) < rank(xs[0]) {
            lemma_members_merge_comm(xs, yt);
        } else {
            lemma_elem_join_comm(xs[0], ys[0]);
            lemma_members_merge_comm(xt, yt);
        }
    }
}

/// An element join of two members of equal rank is symmetric.
proof fn lemma_elem_join_comm(a: TypeModel, b: TypeModel)
    requires
        wf(a),
        wf(b),
        is_member(a),
        is_member(b),
        rank(a) == rank(b),
    ensures
        elem_join(a, b) == elem_join(b, a),
    decreases size(a) + size(b),
{
    match (a, b) {
        (TypeModel::Array(s), TypeModel::Array(t)) => {
            lemma_join_commutative(*s, *t);
        }
        (TypeModel::Object(fa), TypeModel::Object(fb)) => {
            lemma_wf_fields_index(fa);
            lemma_wf_fields_index(fb);
            lemma_fields_join_comm(fa, fb);
        }
        _ => {}
    }
}

/// Merging two field lists is symmetric, provided every value is well
/// formed.
proof fn lemma_fields_join_comm(
    fa: Seq<(Seq<char>, TypeModel)>,
    fb: Seq<(Seq<char>, TypeModel)>,
)
    requires
        forall|i: int| 0 <= i < fa.len() ==> wf(#[trigger] fa[i].1),
        forall|i: int| 0 <= i < fb.len() ==> wf(#[trigger] fb[i].1),
    ensures
        fields_join(fa, fb) == fields_join(fb, fa),
    decreases fields_size(fa) + fields_size(fb),
{
    if fa.len() > 0 && fb.len() > 0 {
        let at = fa.subrange(1, fa.len() as int);
        let bt = fb.subrange(1, fb.len() as int);
        assert(forall|i: int| 0 <= i < at.len() ==> at[i] == fa[i + 1]);
        assert(forall|i: int| 0 <= i < bt.len() ==> bt[i] == fb[i + 1]);
        lemma_lex_asym(fa[0].0, fb[0].0);
        lemma_lex_connex(fa[0].0, fb[0].0);
        if lex_lt(fa[0].0, fb[0].0) {
            lemma_fields_join_comm(at, fb);
        } else if lex_lt(fb[0].0, fa[0].0) {
            lemma_fields_join_comm(fa, bt);
        } else {
            assert(fa[0].0 == fb[0].0);
            lemma_join_commutative(fa[0].1, fb[0].1);
            lemma_fields_join_comm(at, bt);
        }
    }
}

/// Every rank in the list is at least `r`.
pub open spec fn all_ranks_ge(ms: Seq<TypeModel>, r: int) -> bool {
    forall|j: int| 0 <= j < ms.len() ==> r <= rank(#[trigger] ms[j])
}

/// Every key in the list is strictly above `k`.
pub open spec fn all_keys_gt(fs: Seq<(Seq<char>, TypeModel)>, k: Seq<char>) -> bool {
    forall|j: int| 0 <= j < fs.len() ==> lex_lt(k, #[trigger] fs[j].0)
}

/// `join` preserves canonical form.
pub proof fn lemma_join_wf(a: TypeModel, b: TypeModel)
    requires
        wf(a),
        wf(b),
    ensures
        wf(join(a, b)),
    decreases size(a) + size(b),
{
    match (a, b) {
        (TypeModel::Never, _) => {}
        (_, TypeModel::Never) => {}
        (TypeModel::Union(u), TypeModel::Union(v)) => {
            lemma_members_merge_wf(u, v);
        }
        (TypeModel::Union(u), _) => {
            lemma_member_insert_wf(u, b);
        }
        (_, TypeModel::Union(v)) => {
            lemma_member_insert_wf(v, a);
        }
        (TypeModel::Array(s), TypeModel::Array(t)) => {
            lemma_join_wf(*s, *t);
        }
        (TypeModel::Object(fa), TypeModel::Object(fb)) => {
            lemma_fields_join_wf(fa, fb);
        }
        _ => {
            if rank(a) != rank(b) {
                let out = if rank(a) < rank(b) { seq![a, b] } else { seq![b, a] };
                assert(wf_members(Seq::<TypeModel>::empty()));
                assert(out.subrange(1, 2) =~= seq![out[1]]);
                assert(out.subrange(1, 2).subrange(1, 1) =~= Seq::<TypeModel>::empty());
                assert(wf_members(out.subrange(1, 2)));
                assert(wf_members(out));
            }
        }
    }
}

/// An element join of two members of equal rank is a well-formed member
/// of that same rank.
proof fn lemma_elem_join_wf(a: TypeModel, b: TypeModel)
    requires
        wf(a),
        wf(b),
        is_member(a),
        is_member(b),
        rank(a) == rank(b),
    ensures
        wf(elem_join(a, b)),
        rank(elem_join(a, b)) == rank(a),
        is_member(elem_join(a, b)),
    decreases size(a) + size(b),
{
    match (a, b) {
        (TypeModel::Array(s), TypeModel::Array(t)) => {
            lemma_join_wf(*s, *t);
        }
        (TypeModel::Object(fa), TypeModel::Object(fb)) => {
            lemma_fields_join_wf(fa, fb);
        }
        _ => {}
    }
}

/// Merging two canonical member lists yields a canonical member list at
/// least as long as either side, whose ranks respect every lower bound
/// common to both sides.
proof fn lemma_members_merge_wf(xs: Seq<TypeModel>, ys: Seq<TypeModel>)
    requires
        wf_members(xs),
        wf_members(ys),
    ensures
        wf_members(members_merge(xs, ys)),
        members_merge(xs, ys).len() >= xs.len(),
        members_merge(xs, ys).len() >= ys.len(),
        forall|r: int| all_ranks_ge(xs, r) && all_ranks_ge(ys, r)
            ==> all_ranks_ge(#[trigger] members_merge(xs, ys), r),
    decreases members_size(xs) + members_size(ys),
{
    if xs.len() == 0 || ys.len() == 0 {
    } else {
        let out = members_merge(xs, ys);
        let xt = xs.subrange(1, xs.len() as int);
        let yt = ys.subrange(1, ys.len() as int);
        assert(forall|i: int| 0 <= i < xt.len() ==> xt[i] == xs[i + 1]);
        assert(forall|i: int| 0 <= i < yt.len() ==> yt[i] == ys[i + 1]);
        if rank(xs[0]) < rank(ys[0]) {
            lemma_members_merge_wf(xt, ys);
            let rest = members_merge(xt, ys);
            assert(all_ranks_ge(xt, rank(xs[0]) + 1));
            assert(all_ranks_ge(ys, rank(xs[0]) + 1));
            assert(all_ranks_ge(rest, rank(xs[0]) + 1));
            assert(out.subrange(1, out.len() as int) =~= rest);
            assert(wf_members(out));
        } else if rank(ys[0]) < rank(xs[0]) {
            lemma_members_merge_wf(xs, yt);
            let rest = members_merge(xs, yt);
            assert(all_ranks_ge(xs, rank(ys[0]) + 1));
            assert(all_ranks_ge(yt, rank(ys[0]) + 1));
            assert(all_ranks_ge(rest, rank(ys[0]) + 1));
            assert(out.subrange(1, out.len() as int) =~= rest);
            assert(wf_members(out));
        } else {
            lemma_elem_join_wf(xs[0], ys[0]);
            lemma_members_merge_wf(xt, yt);
            let rest = members_merge(xt, yt);
            assert(all_ranks_ge(xt, rank(xs[0]) + 1));
            assert(all_ranks_ge(yt, rank(xs[0]) + 1));
            assert(all_ranks_ge(rest, rank(xs[0]) + 1));
            assert(out.subrange(1, out.len() as int) =~= rest);
            assert(wf_members(out));
        }
    }
}

/// Inserting a well-formed member into a canonical member list yields a
/// canonical member list, no shorter, whose ranks respect every lower
/// bound common to the list and the new member.
proof fn lemma_member_insert_wf(ms: Seq<TypeModel>, x: TypeModel)
    requires
        wf_members(ms),
        wf(x),
        is_member(x),
    ensures
        wf_members(member_insert(ms, x)),
        member_insert(ms, x).len() >= ms.len(),
        member_insert(ms, x).len() >= 1,
        forall|r: int| all_ranks_ge(ms, r) && r <= rank(x)
            ==> all_ranks_ge(#[trigger] member_insert(ms, x), r),
    decreases members_size(ms) + size(x),
{
    let out = member_insert(ms, x);
    if ms.len() == 0 {
        assert(wf_members(Seq::<TypeModel>::empty()));
        assert(out.subrange(1, 1) =~= Seq::<TypeModel>::empty());
        assert(wf_members(out));
    } else if rank(x) < rank(ms[0]) {
        assert(out.subrange(1, out.len() as int) =~= ms);
        assert(wf_members(out));
    } else if rank(x) == rank(ms[0]) {
        lemma_elem_join_wf(ms[0], x);
        let mt = ms.subrange(1, ms.len() as int);
        assert(forall|i: int| 0 <= i < mt.len() ==> mt[i] == ms[i + 1]);
        assert(out.subrange(1, out.len() as int) =~= mt);
        assert(wf_members(out));
    } else {
        let mt = ms.subrange(1, ms.len() as int);
        assert(forall|i: int| 0 <= i < mt.len() ==> mt[i] == ms[i + 1]);
        lemma_member_insert_wf(mt, x);
        let rest = member_insert(mt, x);
        assert(all_ranks_ge(mt, rank(ms[0]) + 1));
        assert(all_ranks_ge(rest, rank(ms[0]) + 1));
        assert(out.subrange(1, out.len() as int) =~= rest);
        assert forall|j: int| 1 <= j < out.len() implies rank(out[0]) < rank(#[trigger] out[j]) by {
            assert(out[j] == rest[j - 1]);
        }
        assert(wf_members(out));
    }
}

/// Merging two canonical field lists yields a canonical field list at
/// least as long as either side, whose keys respect every strict lower
/// bound common to both sides.
proof fn lemma_fields_join_wf(
    fa: Seq<(Seq<char>, TypeModel)>,
    fb: Seq<(Seq<char>, TypeModel)>,
)
    requires
        wf_fields(fa),
        wf_fields(fb),
    ensures
        wf_fields(fields_join(fa, fb)),
        fields_join(fa, fb).len() >= fa.len(),
        fields_join(fa, fb).len() >= fb.len(),
        forall|k: Seq<char>| all_keys_gt(fa, k) && all_keys_gt(fb, k)
            ==> all_keys_gt(#[trigger] fields_join(fa, fb), k),
    decreases fields_size(fa) + fields_size(fb),
{
    if fa.len() == 0 || fb.len() == 0 {
    } else {
        let out = fields_join(fa, fb);
        let at = fa.subrange(1, fa.len() as int);
        let bt = fb.subrange(1, fb.len() as int);
        assert(forall|i: int| 0 <= i < at.len() ==> at[i] == fa[i + 1]);
        assert(forall|i: int| 0 <= i < bt.len() ==> bt[i] == fb[i + 1]);
        let ka = fa[0].0;
        let kb = fb[0].0;
        lemma_lex_connex(ka, kb);
        if lex_lt(ka, kb) {
            lemma_fields_join_wf(at, fb);
            let rest = fields_join(at, fb);
            assert(all_keys_gt(at, ka));
            assert forall|j: int| 0 <= j < fb.len() implies lex_lt(ka, #[trigger] fb[j].0) by {
                if j > 0 {
                    lemma_lex_trans(ka, kb, fb[j].0);
                }
            }
            assert(all_keys_gt(fb, ka));
            assert(all_keys_gt(rest, ka));
            assert(out.subrange(1, out.len() as int) =~= rest);
            assert forall|k: Seq<char>| all_keys_gt(fa, k) && all_keys_gt(fb, k)
                implies all_keys_gt(out, k) by {
                assert(all_keys_gt(at, k));
                assert(all_keys_gt(bt, k));
                assert(all_keys_gt(rest, k));
                assert forall|j: int| 0 <= j < out.len() implies lex_lt(k, #[trigger] out[j].0) by {
                    if j > 0 {
                        assert(out[j] == rest[j - 1]);
                    }
                }
            }
            assert(wf_fields(out));
        } else if lex_lt(kb, ka) {
            lemma_fields_join_wf(fa, bt);
            let rest = fields_join(fa, bt);
            assert forall|j: int| 0 <= j < fa.len() implies lex_lt(kb, #[trigger] fa[j].0) by {
                if j > 0 {
                    lemma_lex_trans(kb, ka, fa[j].0);
                }
            }
            assert(all_keys_gt(fa, kb));
            assert(all_keys_gt(bt, kb));
            assert(all_keys_gt(rest, kb));
            assert(out.subrange(1, out.len() as int) =~= rest);
            assert forall|k: Seq<char>| all_keys_gt(fa, k) && all_keys_gt(fb, k)
                implies all_keys_gt(out, k) by {
                assert(all_keys_gt(at, k));
                assert(all_keys_gt(bt, k));
                assert(all_keys_gt(rest, k));
                assert forall|j: int| 0 <= j < out.len() implies lex_lt(k, #[trigger] out[j].0) by {
                    if j > 0 {
                        assert(out[j] == rest[j - 1]);
                    }
                }
            }
            assert(wf_fields(out));
        } else {
            assert(ka == kb);
            lemma_join_wf(fa[0].1, fb[0].1);
            lemma_fields_join_wf(at, bt);
            let rest = fields_join(at, bt);
            assert(all_keys_gt(at, ka));
            assert(all_keys_gt(bt, ka));
            assert(all_keys_gt(rest, ka));
            assert(out.subrange(1, out.len() as int) =~= rest);
            assert forall|k: Seq<char>| all_keys_gt(fa, k) && all_keys_gt(fb, k)
                implies all_keys_gt(out, k) by {
                assert(all_keys_gt(at, k));
                assert(all_keys_gt(bt, k));
                assert(all_keys_gt(rest, k));
                assert forall|j: int| 0 <= j < out.len() implies lex_lt(k, #[trigger] out[j].0) by {
                    if j > 0 {
                        assert(out[j] == rest[j - 1]);
                    }
                }
            }
            assert(wf_fields(out));
        }
    }
}

/// The fold of `join` over a list of models, seeded with `Never`.
pub open spec fn unify_models(ts: Seq<TypeModel>) -> TypeModel
    decreases ts.len(),
{
    if ts.len() == 0 {
        TypeModel::Never
    } else {
        join(unify_models(ts.drop_last()), ts.last())
    }
}

/// `join` is associative on canonical types.
pub proof fn lemma_join_associative(a: TypeModel, b: TypeModel, c: TypeModel)
    requires
        wf(a),
        wf(b),
        wf(c),
    ensures
        join(join(a, b), c) == join(a, join(b, c)),
    decreases members_size(members_of(a)) + members_size(members_of(b))
        + members_size(members_of(c)), 1int,
{
    let ma = members_of(a);
    let mb = members_of(b);
    let mc = members_of(c);
    lemma_members_of_wf(a);
    lemma_members_of_wf(b);
    lemma_members_of_wf(c);
    lemma_join_via_merge(a, b);
    lemma_join_via_merge(b, c);
    lemma_join_wf(a, b);
    lemma_join_wf(b, c);
    lemma_members_merge_wf(ma, mb);
    lemma_members_merge_wf(mb, mc);
    lemma_members_of_from_members(members_merge(ma, mb));
    lemma_members_of_from_members(members_merge(mb, mc));
    lemma_join_via_merge(join(a, b), c);
    lemma_join_via_merge(a, join(b, c));
    lemma_members_merge_assoc(ma, mb, mc);
}

/// Merging member lists is associative.
proof fn lemma_members_merge_assoc(xs: Seq<TypeModel>, ys: Seq<TypeModel>, zs: Seq<TypeModel>)
    requires
        wf_members(xs),
        wf_members(ys),
        wf_members(zs),
    ensures
        members_merge(members_merge(xs, ys), zs) == members_merge(xs, members_merge(ys, zs)),
    decreases members_size(xs) + members_size(ys) + members_size(zs), 0int,
{
    if xs.len() == 0 || ys.len() == 0 || zs.len() == 0 {
        if xs.len() > 0 && ys.len() > 0 {
            assert(members_merge(members_merge(xs, ys), Seq::<TypeModel>::empty())
                == members_merge(xs, ys));
        }
    } else {
        let xt = xs.subrange(1, xs.len() as int);
        let yt = ys.subrange(1, ys.len() as int);
        let zt = zs.subrange(1, zs.len() as int);
        assert(forall|i: int| 0 <= i < xt.len() ==> xt[i] == xs[i + 1]);
        assert(forall|i: int| 0 <= i < yt.len() ==> yt[i] == ys[i + 1]);
        assert(forall|i: int| 0 <= i < zt.len() ==> zt[i] == zs[i + 1]);
        let x0 = xs[0];
        let y0 = ys[0];
        let z0 = zs[0];
        let l = members_merge(xs, ys);
        let r = members_merge(ys, zs);
        if rank(x0) < rank(y0) {
            assert(l == seq![x0] + members_merge(xt, ys));
            assert(l.subrange(1, l.len() as int) =~= members_merge(xt, ys));
            if rank(x0) < rank(z0) {
                assert(members_merge(l, zs)
                    == seq![x0] + members_merge(members_merge(xt, ys), zs));
                lemma_members_merge_assoc(xt, ys, zs);
                if rank(y0) < rank(z0) {
                    assert(r == seq![y0] + members_merge(yt, zs));
                } else if rank(z0) < rank(y0) {
                    assert(r == seq![z0] + members_merge(ys, zt));
                } else {
                    lemma_elem_join_wf(y0, z0);
                    assert(r == seq![elem_join(y0, z0)] + members_merge(yt, zt));
                }
                assert(rank(x0) < rank(r[0]));
                assert(members_merge(xs, r) == seq![x0] + members_merge(xt, r));
            } else if rank(x0) == rank(z0) {
                assert(rank(z0) < rank(y0));
                assert(members_merge(l, zs) == seq![elem_join(x0, z0)]
                    + members_merge(members_merge(xt, ys), zt));
                lemma_members_merge_assoc(xt, ys, zt);
                assert(r == seq![z0] + members_merge(ys, zt));
                assert(r.subrange(1, r.len() as int) =~= members_merge(ys, zt));
                assert(members_merge(xs, r)
                    == seq![elem_join(x0, z0)] + members_merge(xt, members_merge(ys, zt)));
            } else {
                assert(members_merge(l, zs) == seq![z0] + members_merge(l, zt));
                lemma_members_merge_assoc(xs, ys, zt);
                assert(r == seq![z0] + members_merge(ys, zt));
                assert(r.subrange(1, r.len() as int) =~= members_merge(ys, zt));
                assert(members_merge(xs, r) == seq![z0] + members_merge(xs, members_merge(ys, zt)));
            }
        } else if rank(x0) == rank(y0) {
            lemma_elem_join_wf(x0, y0);
            let exy = elem_join(x0, y0);
            assert(l == seq![exy] + members_merge(xt, yt));
            assert(l.subrange(1, l.len() as int) =~= members_merge(xt, yt));
            if rank(x0) < rank(z0) {
                assert(members_merge(l, zs)
                    == seq![exy] + members_merge(members_merge(xt, yt), zs));
                lemma_members_merge_assoc(xt, yt, zs);
                assert(r == seq![y0] + members_merge(yt, zs));
                assert(r.subrange(1, r.len() as int) =~= members_merge(yt, zs));
                assert(members_merge(xs, r)
                    == seq![elem_join(x0, y0)] + members_merge(xt, members_merge(yt, zs)));
            } else if rank(x0) == rank(z0) {
                lemma_elem_join_wf(y0, z0);
                lemma_elem_join_wf(exy, z0);
                lemma_elem_join_wf(x0, elem_join(y0, z0));
                assert(members_merge(l, zs) == seq![elem_join(exy, z0)]
                    + members_merge(members_merge(xt, yt), zt));
                lemma_members_merge_assoc(xt, yt, zt);
                lemma_elem_join_assoc(x0, y0, z0);
                assert(r == seq![elem_join(y0, z0)] + members_merge(yt, zt));
                assert(r.subrange(1, r.len() as int) =~= members_merge(yt, zt));
                assert(members_merge(xs, r) == seq![elem_join(x0, elem_join(y0, z0))]
                    + members_merge(xt, members_merge(yt, zt)));
            } else {
                assert(members_merge(l, zs) == seq![z0] + members_merge(l, zt));
                lemma_members_merge_assoc(xs, ys, zt);
                assert(r == seq![z0] + members_merge(ys, zt));
                assert(r.subrange(1, r.len() as int) =~= members_merge(ys, zt));
                assert(members_merge(xs, r) == seq![z0] + members_merge(xs, members_merge(ys, zt)));
            }
        } else {
            assert(rank(y0) < rank(x0));
            assert(l == seq![y0] + members_merge(xs, yt));
            assert(l.subrange(1, l.len() as int) =~= members_merge(xs, yt));
            if rank(y0) < rank(z0) {
                assert(members_merge(l, zs)
                    == seq![y0] + members_merge(members_merge(xs, yt), zs));
                lemma_members_merge_assoc(xs, yt, zs);
                assert(r == seq![y0] + members_merge(yt, zs));
                assert(r.subrange(1, r.len() as int) =~= members_merge(yt, zs));
                assert(members_merge(xs, r)
                    == seq![y0] + members_merge(xs, members_merge(yt, zs)));
            } else if rank(y0) == rank(z0) {
                lemma_elem_join_wf(y0, z0);
                assert(members_merge(l, zs) == seq![elem_join(y0, z0)]
                    + members_merge(members_merge(xs, yt), zt));
                lemma_members_merge_assoc(xs, yt, zt);
                assert(r == seq![elem_join(y0, z0)] + members_merge(yt, zt));
                assert(r.subrange(1, r.len() as int) =~= members_merge(yt, zt));
                assert(members_merge(xs, r) == seq![elem_join(y0, z0)]
                    + members_merge(xs, members_merge(yt, zt)));
            } else {
                assert(members_merge(l, zs) == seq![z0] + members_merge(l, zt));
                lemma_members_merge_assoc(xs, ys, zt);
                assert(r == seq![z0] + members_merge(ys, zt));
                assert(r.subrange(1, r.len() as int) =~= members_merge(ys, zt));
                assert(members_merge(xs, r) == seq![z0] + members_merge(xs, members_merge(ys, zt)));
            }
        }
    }
}

/// Element joins of members of one rank are associative.
proof fn lemma_elem_join_assoc(a: TypeModel, b: TypeModel, c: TypeModel)
    requires
        wf(a),
        wf(b),
        wf(c),
        is_member(a),
        is_member(b),
        is_member(c),
        rank(a) == rank(b),
        rank(b) == rank(c),
    ensures
        elem_join(elem_join(a, b), c) == elem_join(a, elem_join(b, c)),
    decreases size(a) + size(b) + size(c), 2int,
{
    match (a, b, c) {
        (TypeModel::Array(s), TypeModel::Array(t), TypeModel::Array(u)) => {
            proof_array_sizes(a, b, c);
            lemma_join_associative(*s, *t, *u);
        }
        (TypeModel::Object(fa), TypeModel::Object(fb), TypeModel::Object(fc)) => {
            lemma_fields_join_assoc(fa, fb, fc);
        }
        _ => {}
    }
}

/// Bounds a member list's weight by the sizes under an array join, so
/// that the associativity induction is seen to descend.
proof fn proof_array_sizes(a: TypeModel, b: TypeModel, c: TypeModel)
    requires
        a is Array,
        b is Array,
        c is Array,
    ensures
        members_size(members_of(*a->Array_0)) <= size(*a->Array_0) + 1 < size(a) + 1,
        members_size(members_of(*b->Array_0)) <= size(*b->Array_0) + 1 < size(b) + 1,
        members_size(members_of(*c->Array_0)) <= size(*c->Array_0) + 1 < size(c) + 1,
{
    lemma_members_of_size(*a->Array_0);
    lemma_members_of_size(*b->Array_0);
    lemma_members_of_size(*c->Array_0);
}

/// A type's member list weighs at most one more than the type.
proof fn lemma_members_of_size(t: TypeModel)
    ensures
        members_size(members_of(t)) <= size(t) + 1,
{
    match t {
        TypeModel::Never => {}
        TypeModel::Union(_) => {}
        _ => {
            let ms = members_of(t);
            assert(ms.subrange(1, 1) =~= Seq::<TypeModel>::empty());
            assert(members_size(Seq::<TypeModel>::empty()) == 0);
            assert(members_size(ms) == 1 + size(t));
        }
    }
}

/// Merging field lists is associative.
proof fn lemma_fields_join_assoc(
    fa: Seq<(Seq<char>, TypeModel)>,
    fb: Seq<(Seq<char>, TypeModel)>,
    fc: Seq<(Seq<char>, TypeModel)>,
)
    requires
        wf_fields(fa),
        wf_fields(fb),
        wf_fields(fc),
    ensures
        fields_join(fields_join(fa, fb), fc) == fields_join(fa, fields_join(fb, fc)),
    decreases fields_size(fa) + fields_size(fb) + fields_size(fc), 2int,
{
    if fa.len() == 0 || fb.len() == 0 || fc.len() == 0 {
        if fa.len() > 0 && fb.len() > 0 {
            assert(fields_join(fields_join(fa, fb), Seq::<(Seq<char>, TypeModel)>::empty())
                == fields_join(fa, fb));
        }
    } else {
        let at = fa.subrange(1, fa.len() as int);
        let bt = fb.subrange(1, fb.len() as int);
        let ct = fc.subrange(1, fc.len() as int);
        assert(forall|i: int| 0 <= i < at.len() ==> at[i] == fa[i + 1]);
        assert(forall|i: int| 0 <= i < bt.len() ==> bt[i] == fb[i + 1]);
        assert(forall|i: int| 0 <= i < ct.len() ==> ct[i] == fc[i + 1]);
        let ka = fa[0].0;
        let kb = fb[0].0;
        let kc = fc[0].0;
        lemma_lex_connex(ka, kb);
        lemma_lex_connex(kb, kc);
        lemma_lex_connex(ka, kc);
        lemma_lex_asym(ka, kb);
        lemma_lex_asym(kb, kc);
        lemma_lex_asym(ka, kc);
        lemma_lex_irrefl(ka);
        lemma_lex_irrefl(kb);
        lemma_lex_irrefl(kc);
        let l = fields_join(fa, fb);
        let r = fields_join(fb, fc);
        if lex_lt(ka, kb) {
            assert(l == seq![fa[0]] + fields_join(at, fb));
            assert(l.subrange(1, l.len() as int) =~= fields_join(at, fb));
            if lex_lt(ka, kc) {
                assert(fields_join(l, fc) == seq![fa[0]] + fields_join(fields_join(at, fb), fc));
                lemma_fields_join_assoc(at, fb, fc);
                if lex_lt(kb, kc) {
                    assert(r == seq![fb[0]] + fields_join(bt, fc));
                } else if lex_lt(kc, kb) {
                    assert(r == seq![fc[0]] + fields_join(fb, ct));
                } else {
                    assert(kb == kc);
                    assert(r == seq![(kb, join(fb[0].1, fc[0].1))] + fields_join(bt, ct));
                }
                assert(lex_lt(ka, r[0].0));
                assert(fields_join(fa, r) == seq![fa[0]] + fields_join(at, r));
            } else if ka == kc {
                assert(lex_lt(kc, kb));
                assert(fields_join(l, fc) == seq![(ka, join(fa[0].1, fc[0].1))]
                    + fields_join(fields_join(at, fb), ct));
                lemma_fields_join_assoc(at, fb, ct);
                assert(r == seq![fc[0]] + fields_join(fb, ct));
                assert(r.subrange(1, r.len() as int) =~= fields_join(fb, ct));
                assert(r[0].0 == ka);
                assert(fields_join(fa, r) == seq![(ka, join(fa[0].1, fc[0].1))]
                    + fields_join(at, fields_join(fb, ct)));
            } else {
                assert(lex_lt(kc, ka));
                assert(fields_join(l, fc) == seq![fc[0]] + fields_join(l, ct));
                lemma_fields_join_assoc(fa, fb, ct);
                lemma_lex_trans(kc, ka, kb);
                assert(r == seq![fc[0]] + fields_join(fb, ct));
                assert(r.subrange(1, r.len() as int) =~= fields_join(fb, ct));
                assert(fields_join(fa, r) == seq![fc[0]] + fields_join(fa, fields_join(fb, ct)));
            }
        } else if ka == kb {
            let vab = join(fa[0].1, fb[0].1);
            assert(l == seq![(ka, vab)] + fields_join(at, bt));
            assert(l.subrange(1, l.len() as int) =~= fields_join(at, bt));
            lemma_wf_fields_index(fa);
            lemma_wf_fields_index(fb);
            lemma_wf_fields_index(fc);
            if lex_lt(ka, kc) {
                assert(fields_join(l, fc) == seq![(ka, vab)]
                    + fields_join(fields_join(at, bt), fc));
                lemma_fields_join_assoc(at, bt, fc);
                assert(r == seq![fb[0]] + fields_join(bt, fc));
                assert(r.subrange(1, r.len() as int) =~= fields_join(bt, fc));
                assert(r[0].0 == ka);
                assert(fields_join(fa, r) == seq![(ka, join(fa[0].1, fb[0].1))]
                    + fields_join(at, fields_join(bt, fc)));
            } else if ka == kc {
                assert(fields_join(l, fc) == seq![(ka, join(vab, fc[0].1))]
                    + fields_join(fields_join(at, bt), ct));
                lemma_fields_join_assoc(at, bt, ct);
                proof_field_value_sizes(fa, fb, fc);
                lemma_join_associative(fa[0].1, fb[0].1, fc[0].1);
                assert(r == seq![(kb, join(fb[0].1, fc[0].1))] + fields_join(bt, ct));
                assert(r.subrange(1, r.len() as int) =~= fields_join(bt, ct));
                assert(r[0].0 == ka);
                assert(fields_join(fa, r) == seq![(ka, join(fa[0].1, join(fb[0].1, fc[0].1)))]
                    + fields_join(at, fields_join(bt, ct)));
            } else {
                assert(lex_lt(kc, ka));
                assert(fields_join(l, fc) == seq![fc[0]] + fields_join(l, ct));
                lemma_fields_join_assoc(fa, fb, ct);
                assert(r == seq![fc[0]] + fields_join(fb, ct));
                assert(r.subrange(1, r.len() as int) =~= fields_join(fb, ct));
                assert(fields_join(fa, r) == seq![fc[0]] + fields_join(fa, fields_join(fb, ct)));
            }
        } else {
            assert(lex_lt(kb, ka));
            assert(l == seq![fb[0]] + fields_join(fa, bt));
            assert(l.subrange(1, l.len() as int) =~= fields_join(fa, bt));
            if lex_lt(kb, kc) {
                assert(fields_join(l, fc) == seq![fb[0]] + fields_join(fields_join(fa, bt), fc));
                lemma_fields_join_assoc(fa, bt, fc);
                assert(r == seq![fb[0]] + fields_join(bt, fc));
                assert(r.subrange(1, r.len() as int) =~= fields_join(bt, fc));
                assert(fields_join(fa, r) == seq![fb[0]] + fields_join(fa, fields_join(bt, fc)));
            } else if kb == kc {
                assert(fields_join(l, fc) == seq![(kb, join(fb[0].1, fc[0].1))]
                    + fields_join(fields_join(fa, bt), ct));
                lemma_fields_join_assoc(fa, bt, ct);
                assert(r == seq![(kb, join(fb[0].1, fc[0].1))] + fields_join(bt, ct));
                assert(r.subrange(1, r.len() as int) =~= fields_join(bt, ct));
                assert(lex_lt(r[0].0, ka));
                assert(fields_join(fa, r) == seq![(kb, join(fb[0].1, fc[0].1))]
                    + fields_join(fa, fields_join(bt, ct)));
            } else {
                assert(lex_lt(kc, kb));
                assert(fields_join(l, fc) == seq![fc[0]] + fields_join(l, ct));
                lemma_fields_join_assoc(fa, fb, ct);
                assert(r == seq![fc[0]] + fields_join(fb, ct));
                assert(r.subrange(1, r.len() as int) =~= fields_join(fb, ct));
                lemma_lex_trans(kc, kb, ka);
                assert(fields_join(fa, r) == seq![fc[0]] + fields_join(fa, fields_join(fb, ct)));
            }
        }
    }
}

/// Bounds the member-list weights of head field values, so that the
/// associativity induction is seen to descend.
proof fn proof_field_value_sizes(
    fa: Seq<(Seq<char>, TypeModel)>,
    fb: Seq<(Seq<char>, TypeModel)>,
    fc: Seq<(Seq<char>, TypeModel)>,
)
    requires
        fa.len() > 0,
        fb.len() > 0,
        fc.len() > 0,
    ensures
        members_size(members_of(fa[0].1)) <= size(fa[0].1) + 1 <= fields_size(fa),
        members_size(members_of(fb[0].1)) <= size(fb[0].1) + 1 <= fields_size(fb),
        members_size(members_of(fc[0].1)) <= size(fc[0].1) + 1 <= fields_size(fc),
{
    lemma_members_of_size(fa[0].1);
    lemma_members_of_size(fb[0].1);
    lemma_members_of_size(fc[0].1);
}

/// Unification takes any element out of the fold's last position.
proof fn lemma_unify_extract(s: Seq<TypeModel>, j: int)
    requires
        0 <= j < s.len(),
        forall|i: int| 0 <= i < s.len() ==> wf(#[trigger] s[i]),
    ensures
        unify_models(s) == join(unify_models(s.remove(j)), s[j]),
    decreases s.len(),
{
    if j == s.len() - 1 {
        assert(s.remove(j) =~= s.drop_last());
    } else {
        let y = s.last();
        let sd = s.drop_last();
        assert(forall|i: int| 0 <= i < sd.len() ==> sd[i] == s[i]);
        lemma_unify_extract(sd, j);
        let u = unify_models(sd.remove(j));
        let x = s[j];
        assert(forall|i: int| 0 <= i < sd.remove(j).len()
            ==> sd.remove(j)[i] == (if i < j { s[i] } else { s[i + 1] }));
        crate::infer::lemma_unify_wf(sd.remove(j));
        lemma_join_associative(u, x, y);
        lemma_join_commutative(x, y);
        lemma_join_associative(u, y, x);
        assert(s.remove(j).drop_last() =~= sd.remove(j));
        assert(s.remove(j).last() == y);
        assert(unify_models(s.remove(j)) == join(unify_models(sd.remove(j)), y));
        assert(unify_models(s) == join(join(u, x), y));
        assert(join(join(u, x), y) == join(u, join(x, y)));
        assert(join(u, join(x, y)) == join(u, join(y, x)));
        assert(join(u, join(y, x)) == join(join(u, y), x));
    }
}

/// Law: unification does not depend on the order of its inputs.  Two
/// lists of canonical types with the same elements, however arranged,
/// unify to the same type.
pub proof fn lemma_unify_permutation(s1: Seq<TypeModel>, s2: Seq<TypeModel>)
    requires
        forall|i: int| 0 <= i < s1.len() ==> wf(#[trigger] s1[i]),
        forall|i: int| 0 <= i < s2.len() ==> wf(#[trigger] s2[i]),
        s1.to_multiset() == s2.to_multiset(),
    ensures
        unify_models(s1) == unify_models(s2),
    decreases s1.len(),
{
    broadcast use vstd::seq_lib::group_to_multiset_ensures;

    assert(s1.to_multiset().len() == s1.len());
    assert(s2.to_multiset().len() == s2.len());
    if s1.len() == 0 {
        assert(s2.len() == 0);
    } else {
        let x = s1.last();
        assert(s1.contains(x));
        assert(s1.to_multiset().count(x) > 0);
        assert(s2.contains(x));
        let j = choose|j: int| 0 <= j < s2.len() && s2[j] == x;
        lemma_unify_extract(s2, j);
        let sd = s1.drop_last();
        assert(sd =~= s1.remove(s1.len() - 1));
        assert(sd.to_multiset() =~= s1.to_multiset().remove(x));
        assert(s2.remove(j).to_multiset() =~= s2.to_multiset().remove(x));
        assert(forall|i: int| 0 <= i < sd.len() ==> sd[i] == s1[i]);
        assert(forall|i: int| 0 <= i < s2.remove(j).len()
            ==> s2.remove(j)[i] == (if i < j { s2[i] } else { s2[i + 1] }));
        lemma_unify_permutation(sd, s2.remove(j));
    }
}

/// A type seen as a union-member list: a union contributes its members,
/// `Never` nothing, anything else itself.
pub open spec fn members_of(t: TypeModel) -> Seq<TypeModel> {
    match t {
        TypeModel::Never => Seq::empty(),
        TypeModel::Union(u) => u,
        _ => seq![t],
    }
}

/// The member list of a canonical type is canonical.
proof fn lemma_members_of_wf(t: TypeModel)
    requires
        wf(t),
    ensures
        wf_members(members_of(t)),
{
    match t {
        TypeModel::Never => {}
        TypeModel::Union(_) => {}
        _ => {
            let ms = members_of(t);
            assert(ms.subrange(1, 1) =~= Seq::<TypeModel>::empty());
            assert(wf_members(Seq::<TypeModel>::empty()));
            assert(wf_members(ms));
        }
    }
}

/// Reading a canonical type back from its own member list gives the
/// type itself.
proof fn lemma_from_members_of(t: TypeModel)
    requires
        wf(t),
    ensures
        from_members(members_of(t)) == t,
{
}

/// Reading a member list back as a type and listing the members again
/// gives the list itself.
proof fn lemma_members_of_from_members(ms: Seq<TypeModel>)
    requires
        wf_members(ms),
    ensures
        members_of(from_members(ms)) == ms,
{
    if ms.len() == 1 {
        assert(is_member(ms[0]));
        assert(members_of(ms[0]) =~= ms);
    }
}

/// `join` is the merge of the two member lists, read back as a type.
proof fn lemma_join_via_merge(a: TypeModel, b: TypeModel)
    requires
        wf(a),
        wf(b),
    ensures
        join(a, b) == from_members(members_merge(members_of(a), members_of(b))),
{
    let ma = members_of(a);
    let mb = members_of(b);
    match (a, b) {
        (TypeModel::Never, _) => {
            lemma_from_members_of(b);
        }
        (_, TypeModel::Never) => {
            lemma_from_members_of(a);
            assert(members_merge(ma, Seq::empty()) == ma);
        }
        (TypeModel::Union(u), TypeModel::Union(v)) => {}
        (TypeModel::Union(u), _) => {
            lemma_member_insert_as_merge(u, b);
            assert(mb =~= seq![b]);
        }
        (_, TypeModel::Union(v)) => {
            lemma_member_insert_as_merge(v, a);
            assert(ma =~= seq![a]);
            lemma_members_of_wf(a);
            lemma_wf_members_index(ma);
            lemma_wf_members_index(v);
            lemma_members_merge_comm(ma, v);
        }
        _ => {
            assert(ma == seq![a] && mb == seq![b]);
            assert(ma.subrange(1, 1) =~= Seq::<TypeModel>::empty());
            assert(mb.subrange(1, 1) =~= Seq::<TypeModel>::empty());
            let out = members_merge(ma, mb);
            if rank(a) == rank(b) {
                assert(members_merge(ma.subrange(1, 1), mb.subrange(1, 1))
                    == Seq::<TypeModel>::empty());
                assert(out =~= seq![elem_join(a, b)]);
                assert(join(a, b) == elem_join(a, b));
            } else if rank(a) < rank(b) {
                assert(members_merge(ma.subrange(1, 1), mb) == mb);
                assert(out =~= seq![a, b]);
            } else {
                assert(members_merge(ma, mb.subrange(1, 1)) == ma);
                assert(out =~= seq![b, a]);
            }
        }
    }
}

/// Inserting one member is the same as merging with a one-member list.
pub proof fn lemma_member_insert_as_merge(ms: Seq<TypeModel>, x: TypeModel)
    ensures
        member_insert(ms, x) == members_merge(ms, seq![x]),
    decreases members_size(ms),
{
    let xs = seq![x];
    assert(xs.subrange(1, 1) =~= Seq::<TypeModel>::empty());
    if ms.len() == 0 {
    } else if rank(x) < rank(ms[0]) {
        assert(members_merge(ms, Seq::<TypeModel>::empty()) == ms);
        assert(seq![x] + ms == member_insert(ms, x));
    } else if rank(x) == rank(ms[0]) {
        let mt = ms.subrange(1, ms.len() as int);
        assert(members_merge(mt, Seq::<TypeModel>::empty()) == mt);
    } else {
        lemma_member_insert_as_merge(ms.subrange(1, ms.len() as int), x);
    }
}

/// The rank of a type's constructor, computed on the value itself.
fn rank_of(t: &JsonType) -> (r: u32)
    ensures
        r as int == rank(t@),
        0 <= r <= 7,
        (*t is Never) <==> r == 0,
        (*t is Union) <==> r == 7,
{
    match t {
        JsonType::Never => 0,
        JsonType::Null => 1,
        JsonType::Bool => 2,
        JsonType::Number => 3,
        JsonType::String => 4,
        JsonType::Array(_) => 5,
        JsonType::Object(_) => 6,
        JsonType::Union(_) => 7,
    }
}

impl JsonType {
    /// The bottom element of the lattice.
    pub fn bot() -> (out: JsonType)
        ensures
            out@ == TypeModel::Never,
    {
        JsonType::Never
    }

    /// The join of two canonical types: the least canonical type that
    /// describes every value either argument describes, as specified by
    /// [`join`].
    pub fn join(lhs: &JsonType, rhs: &JsonType) -> (out: JsonType)
        requires
            wf(lhs@),
            wf(rhs@),
        ensures
            out@ == join(lhs@, rhs@),
            wf(out@),
        decreases size(lhs@) + size(rhs@), 1int,
    {
        proof {
            lemma_join_wf(lhs@, rhs@);
        }
        match (lhs, rhs) {
            (JsonType::Never, _) => rhs.clone(),
            (_, JsonType::Never) => lhs.clone(),
            (JsonType::Union(u), JsonType::Union(v)) => {
                proof {
                    lemma_members_merge_wf(members_model(u@), members_model(v@));
                }
                JsonType::Union(merge_members(u, v))
            }
            (JsonType::Union(u), x) => {
                let rx = rank_of(x);
                let mut single: Vec<JsonType> = Vec::new();
                single.push(x.clone());
                proof {
                    lemma_members_model(single@);
                    assert(members_model(single@) =~= seq![type_model(*x)]);
                    assert(wf_members(Seq::<TypeModel>::empty()));
                    assert(members_model(single@).subrange(1, 1)
                        =~= Seq::<TypeModel>::empty());
                    assert(wf_members(members_model(single@)));
                    assert(seq![type_model(*x)].subrange(1, 1) =~= Seq::<TypeModel>::empty());
                    assert(members_size(Seq::<TypeModel>::empty()) == 0);
                    assert(members_size(seq![type_model(*x)]) == 1 + size(type_model(*x)));
                    lemma_member_insert_as_merge(members_model(u@), type_model(*x));
                    lemma_member_insert_wf(members_model(u@), type_model(*x));
                }
                JsonType::Union(merge_members(u, &single))
            }
            (x, JsonType::Union(v)) => {
                let rx = rank_of(x);
                let mut single: Vec<JsonType> = Vec::new();
                single.push(x.clone());
                proof {
                    lemma_members_model(single@);
                    assert(members_model(single@) =~= seq![type_model(*x)]);
                    assert(wf_members(Seq::<TypeModel>::empty()));
                    assert(members_model(single@).subrange(1, 1)
                        =~= Seq::<TypeModel>::empty());
                    assert(wf_members(members_model(single@)));
                    assert(seq![type_model(*x)].subrange(1, 1) =~= Seq::<TypeModel>::empty());
                    assert(members_size(Seq::<TypeModel>::empty()) == 0);
                    assert(members_size(seq![type_model(*x)]) == 1 + size(type_model(*x)));
                    lemma_member_insert_as_merge(members_model(v@), type_model(*x));
                    lemma_member_insert_wf(members_model(v@), type_model(*x));
                }
                JsonType::Union(merge_members(v, &single))
            }
            (JsonType::Array(s), JsonType::Array(t)) => {
                JsonType::Array(Box::new(JsonType::join(s, t)))
            }
            (JsonType::Object(fa), JsonType::Object(fb)) => {
                JsonType::Object(merge_fields(fa, fb))
            }
            _ => {
                let ra = rank_of(lhs);
                let rb = rank_of(rhs);
                if ra == rb {
                    lhs.clone()
                } else if ra < rb {
                    let mut pair: Vec<JsonType> = Vec::new();
                    pair.push(lhs.clone());
                    pair.push(rhs.clone());
                    proof {
                        lemma_members_model(pair@);
                        assert(members_model(pair@) =~= seq![lhs@, rhs@]);
                    }
                    JsonType::Union(pair)
                } else {
                    let mut pair: Vec<JsonType> = Vec::new();
                    pair.push(rhs.clone());
                    pair.push(lhs.clone());
                    proof {
                        lemma_members_model(pair@);
                        assert(members_model(pair@) =~= seq![rhs@, lhs@]);
                    }
                    JsonType::Union(pair)
                }
            }
        }
    }
}

/// The join of two union members of equal rank, as a value.
fn join_member_pair(a: &JsonType, b: &JsonType) -> (out: JsonType)
    requires
        wf(a@),
        wf(b@),
        is_member(a@),
        is_member(b@),
        rank(a@) == rank(b@),
    ensures
        out@ == elem_join(a@, b@),
    decreases size(a@) + size(b@), 0int,
{
    match (a, b) {
        (JsonType::Array(s), JsonType::Array(t)) => {
            JsonType::Array(Box::new(JsonType::join(s, t)))
        }
        (JsonType::Object(fa), JsonType::Object(fb)) => {
            JsonType::Object(merge_fields(fa, fb))
        }
        _ => a.clone(),
    }
}

/// Merge of two canonical member vectors, mirroring [`members_merge`].
#[verifier::loop_isolation(false)]
#[verifier::rlimit(60)]
fn merge_members(xs: &Vec<JsonType>, ys: &Vec<JsonType>) -> (out: Vec<JsonType>)
    requires
        wf_members(members_model(xs@)),
        wf_members(members_model(ys@)),
    ensures
        members_model(out@) == members_merge(members_model(xs@), members_model(ys@)),
    decreases members_size(members_model(xs@)) + members_size(members_model(ys@)), 0int,
{
    let ghost am = members_model(xs@);
    let ghost bm = members_model(ys@);
    proof {
        lemma_members_model(xs@);
        lemma_members_model(ys@);
        lemma_wf_members_index(am);
        lemma_wf_members_index(bm);
    }
    let mut out: Vec<JsonType> = Vec::new();
    let mut i: usize = 0;
    let mut j: usize = 0;
    proof {
        assert(am.subrange(0, am.len() as int) =~= am);
        assert(bm.subrange(0, bm.len() as int) =~= bm);
        assert(members_model(out@) =~= Seq::<TypeModel>::empty());
        assert(members_model(out@) + members_merge(am, bm) =~= members_merge(am, bm));
    }
    while i < xs.len() && j < ys.len()
        invariant
            i <= xs.len(),
            j <= ys.len(),
            members_merge(am, bm) == members_model(out@) + members_merge(
                am.subrange(i as int, am.len() as int),
                bm.subrange(j as int, bm.len() as int),
            ),
        decreases xs@.len() - i + (ys@.len() - j),
    {
        let ghost ai = am.subrange(i as int, am.len() as int);
        let ghost bj = bm.subrange(j as int, bm.len() as int);
        let ghost out0 = members_model(out@);
        proof {
            assert(ai[0] == am[i as int] && bj[0] == bm[j as int]);
            assert(ai.subrange(1, ai.len() as int) =~= am.subrange(i + 1, am.len() as int));
            assert(bj.subrange(1, bj.len() as int) =~= bm.subrange(j + 1, bm.len() as int));
        }
        let ra = rank_of(&xs[i]);
        let rb = rank_of(&ys[j]);
        if ra < rb {
            let e = xs[i].clone();
            proof {
                lemma_members_model_push(out@, e);
                assert(members_merge(ai, bj) == seq![am[i as int]] + members_merge(
                    am.subrange(i + 1, am.len() as int), bj));
                assert(out0 + members_merge(ai, bj)
                    =~= (out0 + seq![am[i as int]]) + members_merge(
                        am.subrange(i + 1, am.len() as int), bj));
            }
            out.push(e);
            i += 1;
        } else if rb < ra {
            let e = ys[j].clone();
            proof {
                lemma_members_model_push(out@, e);
                assert(members_merge(ai, bj) == seq![bm[j as int]] + members_merge(
                    ai, bm.subrange(j + 1, bm.len() as int)));
                assert(out0 + members_merge(ai, bj)
                    =~= (out0 + seq![bm[j as int]]) + members_merge(
                        ai, bm.subrange(j + 1, bm.len() as int)));
            }
            out.push(e);
            j += 1;
        } else {
            proof {
                lemma_members_size_index(am, i as int);
                lemma_members_size_index(bm, j as int);
            }
            let e = join_member_pair(&xs[i], &ys[j]);
            proof {
                lemma_members_model_push(out@, e);
                assert(members_merge(ai, bj) == seq![elem_join(am[i as int], bm[j as int])]
                    + members_merge(
                        am.subrange(i + 1, am.len() as int),
                        bm.subrange(j + 1, bm.len() as int)));
                assert(out0 + members_merge(ai, bj)
                    =~= (out0 + seq![elem_join(am[i as int], bm[j as int])]) + members_merge(
                        am.subrange(i + 1, am.len() as int),
                        bm.subrange(j + 1, bm.len() as int)));
            }
            out.push(e);
            i += 1;
            j += 1;
        }
    }
    while i < xs.len()
        invariant
            i <= xs.len(),
            j == ys.len() || i == xs.len(),
            members_merge(am, bm) == members_model(out@) + members_merge(
                am.subrange(i as int, am.len() as int),
                bm.subrange(j as int, bm.len() as int),
            ),
        decreases xs@.len() - i,
    {
        let ghost ai = am.subrange(i as int, am.len() as int);
        let ghost bj = bm.subrange(j as int, bm.len() as int);
        let ghost out0 = members_model(out@);
        let e = xs[i].clone();
        proof {
            assert(bj =~= Seq::<TypeModel>::empty());
            assert(members_merge(ai, bj) == ai);
            assert(ai =~= seq![am[i as int]] + am.subrange(i + 1, am.len() as int));
            assert(am.subrange(i + 1, am.len() as int)
                == members_merge(am.subrange(i + 1, am.len() as int), bj));
            lemma_members_model_push(out@, e);
            assert(out0 + ai =~= (out0 + seq![am[i as int]]) + am.subrange(i + 1, am.len() as int));
        }
        out.push(e);
        i += 1;
    }
    while j < ys.len()
        invariant
            i == xs.len(),
            j <= ys.len(),
            members_merge(am, bm) == members_model(out@) + members_merge(
                am.subrange(i as int, am.len() as int),
                bm.subrange(j as int, bm.len() as int),
            ),
        decreases ys@.len() - j,
    {
        let ghost ai = am.subrange(i as int, am.len() as int);
        let ghost bj = bm.subrange(j as int, bm.len() as int);
        let ghost out0 = members_model(out@);
        let e = ys[j].clone();
        proof {
            assert(ai =~= Seq::<TypeModel>::empty());
            assert(members_merge(ai, bj) == bj);
            assert(bj =~= seq![bm[j as int]] + bm.subrange(j + 1, bm.len() as int));
            assert(bm.subrange(j + 1, bm.len() as int)
                == members_merge(ai, bm.subrange(j + 1, bm.len() as int)));
            lemma_members_model_push(out@, e);
            assert(out0 + bj =~= (out0 + seq![bm[j as int]]) + bm.subrange(j + 1, bm.len() as int));
        }
        out.push(e);
        j += 1;
    }
    proof {
        assert(am.subrange(i as int, am.len() as int) =~= Seq::<TypeModel>::empty());
        assert(bm.subrange(j as int, bm.len() as int) =~= Seq::<TypeModel>::empty());
        assert(members_model(out@) + members_merge(
            am.subrange(i as int, am.len() as int),
            bm.subrange(j as int, bm.len() as int),
        ) =~= members_model(out@));
    }
    out
}

/// Merge of two canonical field vectors, mirroring [`fields_join`].
#[verifier::loop_isolation(false)]
#[verifier::rlimit(60)]
fn merge_fields(
    fa: &Vec<(String, JsonType)>,
    fb: &Vec<(String, JsonType)>,
) -> (out: Vec<(String, JsonType)>)
    requires
        wf_fields(fields_model(fa@)),
        wf_fields(fields_model(fb@)),
    ensures
        fields_model(out@) == fields_join(fields_model(fa@), fields_model(fb@)),
    decreases fields_size(fields_model(fa@)) + fields_size(fields_model(fb@)), 0int,
{
    let ghost am = fields_model(fa@);
    let ghost bm = fields_model(fb@);
    proof {
        lemma_fields_model(fa@);
        lemma_fields_model(fb@);
        lemma_wf_fields_index(am);
        lemma_wf_fields_index(bm);
    }
    let mut out: Vec<(String, JsonType)> = Vec::new();
    let mut i: usize = 0;
    let mut j: usize = 0;
    proof {
        assert(am.subrange(0, am.len() as int) =~= am);
        assert(bm.subrange(0, bm.len() as int) =~= bm);
        assert(fields_model(out@) =~= Seq::<(Seq<char>, TypeModel)>::empty());
        assert(fields_model(out@) + fields_join(am, bm) =~= fields_join(am, bm));
    }
    while i < fa.len() && j < fb.len()
        invariant
            i <= fa.len(),
            j <= fb.len(),
            fields_join(am, bm) == fields_model(out@) + fields_join(
                am.subrange(i as int, am.len() as int),
                bm.subrange(j as int, bm.len() as int),
            ),
        decreases fa@.len() - i + (fb@.len() - j),
    {
        let ghost ai = am.subrange(i as int, am.len() as int);
        let ghost bj = bm.subrange(j as int, bm.len() as int);
        let ghost out0 = fields_model(out@);
        proof {
            assert(ai[0] == am[i as int] && bj[0] == bm[j as int]);
            assert(ai.subrange(1, ai.len() as int) =~= am.subrange(i + 1, am.len() as int));
            assert(bj.subrange(1, bj.len() as int) =~= bm.subrange(j + 1, bm.len() as int));
        }
        match str_cmp(fa[i].0.as_str(), fb[j].0.as_str()) {
            KeyOrder::Less => {
                let key = fa[i].0.clone();
                let val = fa[i].1.clone();
                proof {
                    lemma_fields_model_push(out@, (key, val));
                    assert((key@, type_model(val)) == am[i as int]);
                    assert(fields_join(ai, bj) == seq![am[i as int]] + fields_join(
                        am.subrange(i + 1, am.len() as int), bj));
                    assert(out0 + fields_join(ai, bj)
                        =~= (out0 + seq![am[i as int]]) + fields_join(
                            am.subrange(i + 1, am.len() as int), bj));
                }
                out.push((key, val));
                i += 1;
            }
            KeyOrder::Greater => {
                let key = fb[j].0.clone();
                let val = fb[j].1.clone();
                proof {
                    lemma_fields_model_push(out@, (key, val));
                    assert((key@, type_model(val)) == bm[j as int]);
                    assert(fields_join(ai, bj) == seq![bm[j as int]] + fields_join(
                        ai, bm.subrange(j + 1, bm.len() as int)));
                    assert(out0 + fields_join(ai, bj)
                        =~= (out0 + seq![bm[j as int]]) + fields_join(
                            ai, bm.subrange(j + 1, bm.len() as int)));
                }
                out.push((key, val));
                j += 1;
            }
            KeyOrder::Equal => {
                proof {
                    lemma_lex_irrefl(am[i as int].0);
                    lemma_fields_size_index(am, i as int);
                    lemma_fields_size_index(bm, j as int);
                }
                let key = fa[i].0.clone();
                let val = JsonType::join(&fa[i].1, &fb[j].1);
                proof {
                    lemma_fields_model_push(out@, (key, val));
                    assert((key@, type_model(val))
                        == (am[i as int].0, join(am[i as int].1, bm[j as int].1)));
                    assert(fields_join(ai, bj)
                        == seq![(am[i as int].0, join(am[i as int].1, bm[j as int].1))]
                            + fields_join(
                                am.subrange(i + 1, am.len() as int),
                                bm.subrange(j + 1, bm.len() as int)));
                    assert(out0 + fields_join(ai, bj)
                        =~= (out0 + seq![(am[i as int].0, join(am[i as int].1, bm[j as int].1))])
                            + fields_join(
                                am.subrange(i + 1, am.len() as int),
                                bm.subrange(j + 1, bm.len() as int)));
                }
                out.push((key, val));
                i += 1;
                j += 1;
            }
        }
    }
    while i < fa.len()
        invariant
            i <= fa.len(),
            j == fb.len() || i == fa.len(),
            fields_join(am, bm) == fields_model(out@) + fields_join(
                am.subrange(i as int, am.len() as int),
                bm.subrange(j as int, bm.len() as int),
            ),
        decreases fa@.len() - i,
    {
        let ghost ai = am.subrange(i as int, am.len() as int);
        let ghost bj = bm.subrange(j as int, bm.len() as int);
        let ghost out0 = fields_model(out@);
        let key = fa[i].0.clone();
        let val = fa[i].1.clone();
        proof {
            assert(bj =~= Seq::<(Seq<char>, TypeModel)>::empty());
            assert(fields_join(ai, bj) == ai);
            assert(ai =~= seq![am[i as int]] + am.subrange(i + 1, am.len() as int));
            assert(am.subrange(i + 1, am.len() as int)
                == fields_join(am.subrange(i + 1, am.len() as int), bj));
            lemma_fields_model_push(out@, (key, val));
            assert((key@, type_model(val)) == am[i as int]);
            assert(out0 + ai =~= (out0 + seq![am[i as int]]) + am.subrange(i + 1, am.len() as int));
        }
        out.push((key, val));
        i += 1;
    }
    while j < fb.len()
        invariant
            i == fa.len(),
            j <= fb.len(),
            fields_join(am, bm) == fields_model(out@) + fields_join(
                am.subrange(i as int, am.len() as int),
                bm.subrange(j as int, bm.len() as int),
            ),
        decreases fb@.len() - j,
    {
        let ghost ai = am.subrange(i as int, am.len() as int);
        let ghost bj = bm.subrange(j as int, bm.len() as int);
        let ghost out0 = fields_model(out@);
        let key = fb[j].0.clone();
        let val = fb[j].1.clone();
        proof {
            assert(ai =~= Seq::<(Seq<char>, TypeModel)>::empty());
            assert(fields_join(ai, bj) == bj);
            assert(bj =~= seq![bm[j as int]] + bm.subrange(j + 1, bm.len() as int));
            assert(bm.subrange(j + 1, bm.len() as int)
                == fields_join(ai, bm.subrange(j + 1, bm.len() as int)));
            lemma_fields_model_push(out@, (key, val));
            assert((key@, type_model(val)) == bm[j as int]);
            assert(out0 + bj =~= (out0 + seq![bm[j as int]]) + bm.subrange(j + 1, bm.len() as int));
        }
        out.push((key, val));
        j += 1;
    }
    proof {
        assert(am.subrange(i as int, am.len() as int) =~= Seq::<(Seq<char>, TypeModel)>::empty());
        assert(bm.subrange(j as int, bm.len() as int) =~= Seq::<(Seq<char>, TypeModel)>::empty());
        assert(fields_model(out@) + fields_join(
            am.subrange(i as int, am.len() as int),
            bm.subrange(j as int, bm.len() as int),
        ) =~= fields_model(out@));
    }
    out
}

} // verus!
