//! Lexicographic order on character sequences, with a verified
//! three-way comparison on `&str`.
//!
//! Object fields are kept sorted by key in code-point order, the same
//! order in which an ordered map over `String` keys would iterate.

use vstd::prelude::*;

verus! {

/// Strict lexicographic order on character sequences by code point.
pub open spec fn lex_lt(a: Seq<char>, b: Seq<char>) -> bool
    decreases a.len(),
{
    if b.len() == 0 {
        false
    } else if a.len() == 0 {
        true
    } else if (a[0] as int) < (b[0] as int) {
        true
    } else if a[0] == b[0] {
        lex_lt(a.subrange(1, a.len() as int), b.subrange(1, b.len() as int))
    } else {
        false
    }
}

/// `lex_lt` never holds of a sequence and itself.
pub proof fn lemma_lex_irrefl(a: Seq<char>)
    ensures
        !lex_lt(a, a),
    decreases a.len(),
{
    if a.len() > 0 {
        lemma_lex_irrefl(a.subrange(1, a.len() as int));
    }
}

/// Any two sequences are related: below, above, or equal.
pub proof fn lemma_lex_connex(a: Seq<char>, b: Seq<char>)
    ensures
        lex_lt(a, b) || lex_lt(b, a) || a == b,
    decreases a.len(),
{
    if a.len() == 0 {
        if b.len() == 0 {
            assert(a =~= b);
        } else {
            assert(lex_lt(a, b));
        }
    } else if b.len() == 0 {
        assert(lex_lt(b, a));
    } else if (a[0] as int) < (b[0] as int) {
        assert(lex_lt(a, b));
    } else if (b[0] as int) < (a[0] as int) {
        assert(lex_lt(b, a));
    } else {
        assert(a[0] == b[0]);
        let ta = a.subrange(1, a.len() as int);
        let tb = b.subrange(1, b.len() as int);
        lemma_lex_connex(ta, tb);
        if !lex_lt(ta, tb) && !lex_lt(tb, ta) {
            assert(ta == tb);
            assert forall|k: int| 0 <= k < a.len() implies a[k] == b[k] by {
                if k > 0 {
                    assert(a[k] == ta[k - 1]);
                    assert(b[k] == tb[k - 1]);
                }
            }
            assert(a =~= b);
        }
    }
}

/// `lex_lt` cannot hold in both directions at once.
pub proof fn lemma_lex_asym(a: Seq<char>, b: Seq<char>)
    ensures
        !(lex_lt(a, b) && lex_lt(b, a)),
    decreases a.len(),
{
    if a.len() > 0 && b.len() > 0 && a[0] == b[0] {
        lemma_lex_asym(a.subrange(1, a.len() as int), b.subrange(1, b.len() as int));
    }
}

/// `lex_lt` is transitive.
pub proof fn lemma_lex_trans(a: Seq<char>, b: Seq<char>, c: Seq<char>)
    requires
        lex_lt(a, b),
        lex_lt(b, c),
    ensures
        lex_lt(a, c),
    decreases a.len(),
{
    if a.len() > 0 && b.len() > 0 && c.len() > 0 && a[0] == b[0] && b[0] == c[0] {
        lemma_lex_trans(
            a.subrange(1, a.len() as int),
            b.subrange(1, b.len() as int),
            c.subrange(1, c.len() as int),
        );
    }
}

/// Outcome of a three-way key comparison.
pub enum KeyOrder {
    Less,
    Equal,
    Greater,
}

/// Three-way comparison of the suffixes of `a` and `b` that start at `i`.
fn str_cmp_at(a: &str, b: &str, i: usize, alen: usize, blen: usize) -> (r: KeyOrder)
    requires
        alen == a@.len(),
        blen == b@.len(),
        i <= alen,
        i <= blen,
    ensures
        (r is Less) == lex_lt(a@.subrange(i as int, alen as int), b@.subrange(i as int, blen as int)),
        (r is Greater) == lex_lt(b@.subrange(i as int, blen as int), a@.subrange(i as int, alen as int)),
        (r is Equal) == (a@.subrange(i as int, alen as int) == b@.subrange(i as int, blen as int)),
    decreases alen - i,
{
    let ghost sa = a@.subrange(i as int, alen as int);
    let ghost sb = b@.subrange(i as int, blen as int);
    if i == blen {
        if i == alen {
            proof {
                assert(sa =~= sb);
            }
            KeyOrder::Equal
        } else {
            proof {
                assert(sa.len() > 0 && sb.len() == 0);
                assert(sa != sb);
            }
            KeyOrder::Greater
        }
    } else if i == alen {
        proof {
            assert(sa.len() == 0 && sb.len() > 0);
            assert(sa != sb);
        }
        KeyOrder::Less
    } else {
        let ca = a.get_char(i);
        let cb = b.get_char(i);
        proof {
            assert(sa[0] == a@[i as int] && sb[0] == b@[i as int]);
        }
        if (ca as u32) < (cb as u32) {
            KeyOrder::Less
        } else if (cb as u32) < (ca as u32) {
            proof {
                assert(sa != sb) by {
                    assert(sa[0] != sb[0]);
                }
            }
            KeyOrder::Greater
        } else {
            let r = str_cmp_at(a, b, i + 1, alen, blen);
            proof {
                assert(ca == cb);
                assert(sa.subrange(1, sa.len() as int)
                    =~= a@.subrange(i + 1 as int, alen as int));
                assert(sb.subrange(1, sb.len() as int)
                    =~= b@.subrange(i + 1 as int, blen as int));
                if a@.subrange(i + 1 as int, alen as int) == b@.subrange(i + 1 as int, blen as int) {
                    let ghost ta = a@.subrange(i + 1 as int, alen as int);
                    let ghost tb = b@.subrange(i + 1 as int, blen as int);
                    assert forall|k: int| 0 <= k < sa.len() implies sa[k] == sb[k] by {
                        if k > 0 {
                            assert(sa[k] == ta[k - 1]);
                            assert(sb[k] == tb[k - 1]);
                        } else {
                            assert(sa[0] == a@[i as int]);
                            assert(sb[0] == b@[i as int]);
                        }
                    }
                    assert(sa =~= sb);
                }
                if sa == sb {
                    assert(sa.subrange(1, sa.len() as int) =~= sb.subrange(1, sb.len() as int));
                }
            }
            r
        }
    }
}

/// Three-way comparison of two strings in code-point order.
pub fn str_cmp(a: &str, b: &str) -> (r: KeyOrder)
    ensures
        (r is Less) == lex_lt(a@, b@),
        (r is Greater) == lex_lt(b@, a@),
        (r is Equal) == (a@ == b@),
{
    let alen = a.unicode_len();
    let blen = b.unicode_len();
    let r = str_cmp_at(a, b, 0, alen, blen);
    proof {
        assert(a@.subrange(0, alen as int) =~= a@);
        assert(b@.subrange(0, blen as int) =~= b@);
    }
    r
}

} // verus!
