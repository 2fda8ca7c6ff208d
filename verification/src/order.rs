//! Lexicographic ordering of node identifiers and the deterministic sort
//! built on it.
//!
//! Every node sorts the cluster's identifier list with the same total order
//! before taking its own position in it, so the resulting rank depends only
//! on the set of identifiers, never on the order they arrived in.

use vstd::prelude::*;
use vstd::multiset::Multiset;
use vstd::relations::{sorted_by, total_ordering};

verus! {

broadcast use vstd::seq_lib::group_to_multiset_ensures, vstd::utf8::char_u32_cast;

/// Lexicographic "less than or equal" on character sequences, compared from
/// position `i` on: shorter prefixes come first, characters compare by their
/// code points. This is the natural ordering of Rust strings.
pub open spec fn chars_leq_from(a: Seq<char>, b: Seq<char>, i: int) -> bool
    decreases a.len() - i,
{
    if i >= a.len() {
        true
    } else if i >= b.len() {
        false
    } else if a[i] == b[i] {
        chars_leq_from(a, b, i + 1)
    } else {
        (a[i] as u32) < (b[i] as u32)
    }
}

/// Lexicographic "less than or equal" on whole character sequences.
pub open spec fn chars_leq(a: Seq<char>, b: Seq<char>) -> bool {
    chars_leq_from(a, b, 0)
}

/// The identifier ordering as a relation value, in the shape the sequence
/// library works with.
pub open spec fn id_le() -> spec_fn(Seq<char>, Seq<char>) -> bool {
    |a: Seq<char>, b: Seq<char>| chars_leq(a, b)
}

proof fn lemma_chars_leq_from_refl(a: Seq<char>, i: int)
    ensures
        chars_leq_from(a, a, i),
    decreases a.len() - i,
{
    if i < a.len() {
        lemma_chars_leq_from_refl(a, i + 1);
    }
}

proof fn lemma_chars_leq_from_connected(a: Seq<char>, b: Seq<char>, i: int)
    ensures
        chars_leq_from(a, b, i) || chars_leq_from(b, a, i),
    decreases a.len() - i,
{
    if i >= a.len() || i >= b.len() {
    } else if a[i] == b[i] {
        lemma_chars_leq_from_connected(a, b, i + 1);
    } else {
        let ua = a[i] as u32;
        let ub = b[i] as u32;
        if ua == ub {
            vstd::utf8::char_u32_cast(a[i], ua);
            vstd::utf8::char_u32_cast(b[i], ub);
            assert(a[i] == b[i]);
        }
        assert(ua < ub || ub < ua);
    }
}

proof fn lemma_chars_leq_from_antisym(a: Seq<char>, b: Seq<char>, i: int)
    requires
        0 <= i <= a.len(),
        i <= b.len(),
        a.subrange(0, i) == b.subrange(0, i),
        chars_leq_from(a, b, i),
        chars_leq_from(b, a, i),
    ensures
        a == b,
    decreases a.len() - i,
{
    if i >= a.len() {
        assert(i >= b.len());
        assert(a.len() == i && b.len() == i);
        assert forall|k: int| 0 <= k < i implies a[k] == b[k] by {
            assert(a[k] == a.subrange(0, i)[k]);
            assert(b[k] == b.subrange(0, i)[k]);
        }
        assert(a =~= b);
    } else {
        assert(i < b.len());
        assert(a[i] == b[i]);
        assert(a.subrange(0, i + 1) =~= b.subrange(0, i + 1)) by {
            assert(forall|k: int|
                0 <= k < i ==> a.subrange(0, i)[k] == b.subrange(0, i)[k]);
        }
        lemma_chars_leq_from_antisym(a, b, i + 1);
    }
}

proof fn lemma_chars_leq_from_trans(a: Seq<char>, b: Seq<char>, c: Seq<char>, i: int)
    requires
        chars_leq_from(a, b, i),
        chars_leq_from(b, c, i),
    ensures
        chars_leq_from(a, c, i),
    decreases a.len() - i,
{
    if i < a.len() && i < b.len() && i < c.len() && a[i] == b[i] && b[i] == c[i] {
        lemma_chars_leq_from_trans(a, b, c, i + 1);
    }
}

/// The identifier ordering is a total ordering, so the sequence library's
/// sort is defined on it and sorting is deterministic.
pub proof fn lemma_id_le_total_ordering()
    ensures
        total_ordering(id_le()),
{
    let leq = id_le();
    assert forall|a: Seq<char>| #[trigger] leq(a, a) by {
        lemma_chars_leq_from_refl(a, 0);
    }
    assert forall|a: Seq<char>, b: Seq<char>| #[trigger] leq(a, b) && #[trigger] leq(b, a)
        implies a == b by {
        assert(a.subrange(0, 0) =~= b.subrange(0, 0));
        lemma_chars_leq_from_antisym(a, b, 0);
    }
    assert forall|a: Seq<char>, b: Seq<char>, c: Seq<char>|
        #[trigger] leq(a, b) && #[trigger] leq(b, c) implies leq(a, c) by {
        lemma_chars_leq_from_trans(a, b, c, 0);
    }
    assert forall|a: Seq<char>, b: Seq<char>| #[trigger] leq(a, b) || #[trigger] leq(b, a) by {
        lemma_chars_leq_from_connected(a, b, 0);
    }
}

/// The cluster identifier list, sorted by the identifier ordering.
pub open spec fn sort_ids(ids: Seq<Seq<char>>) -> Seq<Seq<char>> {
    ids.sort_by(id_le())
}

/// The rank an identifier list assigns to `own`: the first position of `own`
/// in the sorted list, or `None` when `own` does not occur in the list.
pub open spec fn rank_of(ids: Seq<Seq<char>>, own: Seq<char>) -> Option<int> {
    sort_ids(ids).index_of_first(own)
}

/// Two sorted identifier lists holding the same identifiers (with the same
/// multiplicities) are the same list.
pub proof fn lemma_sorted_by_multiset_unique(a: Seq<Seq<char>>, b: Seq<Seq<char>>)
    requires
        sorted_by(a, id_le()),
        sorted_by(b, id_le()),
        a.to_multiset() == b.to_multiset(),
    ensures
        a == b,
    decreases a.len(),
{
    lemma_id_le_total_ordering();
    let leq = id_le();
    assert(a.len() == a.to_multiset().len());
    assert(b.len() == b.to_multiset().len());
    if a.len() == 0 {
        assert(a =~= b);
    } else {
        // each head occurs in the other list, and each head is a least
        // element of its own list, so the heads are equal
        assert(b.len() == a.len());
        assert(a.contains(a[0]));
        assert(b.contains(b[0]));
        assert(b.to_multiset().count(a[0]) > 0);
        assert(a.to_multiset().count(b[0]) > 0);
        assert(b.contains(a[0]));
        assert(a.contains(b[0]));
        let ia = choose|ia: int| 0 <= ia < a.len() && a[ia] == b[0];
        let ib = choose|ib: int| 0 <= ib < b.len() && b[ib] == a[0];
        assert(leq(a[0], a[ia]) || ia == 0);
        assert(leq(b[0], b[ib]) || ib == 0);
        assert(leq(a[0], b[0]) || a[0] == b[0]);
        assert(leq(b[0], a[0]) || a[0] == b[0]);
        assert(a[0] == b[0]);
        let at = a.drop_first();
        let bt = b.drop_first();
        assert(a.remove(0) =~= at);
        assert(b.remove(0) =~= bt);
        assert(at.to_multiset() =~= a.to_multiset().remove(a[0]));
        assert(bt.to_multiset() =~= b.to_multiset().remove(b[0]));
        assert(at.to_multiset() == bt.to_multiset());
        assert forall|i: int, j: int| 0 <= i < j < at.len() implies leq(at[i], at[j]) by {
            assert(at[i] == a[i + 1]);
            assert(at[j] == a[j + 1]);
        }
        assert(sorted_by(at, leq));
        assert forall|i: int, j: int| 0 <= i < j < bt.len() implies leq(bt[i], bt[j]) by {
            assert(bt[i] == b[i + 1]);
            assert(bt[j] == b[j + 1]);
        }
        assert(sorted_by(bt, leq));
        lemma_sorted_by_multiset_unique(at, bt);
        assert(a =~= b) by {
            assert(forall|i: int| 1 <= i < a.len() ==> a[i] == at[i - 1] && b[i] == bt[i - 1]);
        }
    }
}

/// The rank of an identifier depends only on which identifiers the list
/// holds, not on the order they are listed in: any permutation of the same
/// identifier list assigns `own` the same rank.
pub proof fn lemma_rank_order_independent(ids1: Seq<Seq<char>>, ids2: Seq<Seq<char>>, own: Seq<char>)
    requires
        ids1.to_multiset() == ids2.to_multiset(),
    ensures
        rank_of(ids1, own) == rank_of(ids2, own),
{
    lemma_id_le_total_ordering();
    ids1.lemma_sort_by_ensures(id_le());
    ids2.lemma_sort_by_ensures(id_le());
    lemma_sorted_by_multiset_unique(sort_ids(ids1), sort_ids(ids2));
}

/// Inserts `x` into the sorted vector `out` so that it stays sorted.
fn insert_sorted(out: &mut Vec<String>, x: String)
    requires
        sorted_by(old(out).deep_view(), id_le()),
    ensures
        sorted_by(final(out).deep_view(), id_le()),
        final(out).deep_view().to_multiset() == old(out).deep_view().to_multiset().insert(x@),
{
    proof {
        lemma_id_le_total_ordering();
    }
    let ghost dv = out.deep_view();
    let mut k: usize = 0;
    while k < out.len() && str_leq(out[k].as_str(), x.as_str())
        invariant
            k <= out@.len(),
            *out == *old(out),
            dv == out.deep_view(),
            forall|i: int| 0 <= i < k ==> chars_leq(#[trigger] dv[i], x@),
        decreases out@.len() - k,
    {
        k = k + 1;
    }
    out.insert(k, x);
    proof {
        let dv2 = out.deep_view();
        assert(out@ == old(out)@.insert(k as int, x));
        assert(dv2 =~= dv.insert(k as int, x@)) by {
            assert(forall|i: int|
                0 <= i < dv2.len() ==> dv2[i] == #[trigger] out@[i]@);
            assert(forall|i: int| 0 <= i < k ==> #[trigger] out@[i] == old(out)@[i]);
            assert(out@[k as int] == x);
            assert(forall|i: int|
                k < i < out@.len() ==> #[trigger] out@[i] == old(out)@[i - 1]);
        }
        assert forall|i: int, j: int| 0 <= i < j < dv2.len() implies id_le()(dv2[i], dv2[j]) by {
            let ki = k as int;
            if j < ki {
                assert(dv2[i] == dv[i] && dv2[j] == dv[j]);
            } else if i < ki && j == ki {
                assert(dv2[i] == dv[i] && dv2[j] == x@);
            } else if i < ki && j > ki {
                assert(dv2[i] == dv[i] && dv2[j] == dv[j - 1]);
            } else if i == ki {
                assert(dv2[i] == x@ && dv2[j] == dv[j - 1]);
                assert(ki <= j - 1 < dv.len());
                assert(!chars_leq(dv[ki], x@));
                lemma_chars_leq_from_connected(dv[ki], x@, 0);
                assert(chars_leq(x@, dv[ki]));
                if j - 1 > ki {
                    assert(id_le()(dv[ki], dv[j - 1]));
                    lemma_chars_leq_from_trans(x@, dv[ki], dv[j - 1], 0);
                }
            } else {
                assert(dv2[i] == dv[i - 1] && dv2[j] == dv[j - 1]);
            }
        }
        assert(sorted_by(dv2, id_le()));
    }
}

/// Sorts an identifier list with the identifier ordering. The result is
/// exactly the specification-level sort of the input.
pub fn sort_strings(ids: Vec<String>) -> (r: Vec<String>)
    ensures
        r.deep_view() == sort_ids(ids.deep_view()),
{
    proof {
        lemma_id_le_total_ordering();
    }
    let ghost dv = ids.deep_view();
    let mut out: Vec<String> = Vec::new();
    let mut i: usize = 0;
    proof {
        assert(out.deep_view() =~= Seq::<Seq<char>>::empty());
        assert(dv.take(0).to_multiset() =~= Multiset::<Seq<char>>::empty());
        assert(out.deep_view().to_multiset() =~= Multiset::<Seq<char>>::empty());
    }
    while i < ids.len()
        invariant
            i <= ids@.len(),
            dv == ids.deep_view(),
            dv.len() == ids@.len(),
            sorted_by(out.deep_view(), id_le()),
            out.deep_view().to_multiset() == dv.take(i as int).to_multiset(),
        decreases ids@.len() - i,
    {
        let s = ids[i].clone();
        proof {
            assert(s@ == dv[i as int]);
            assert(dv.take(i as int + 1) =~= dv.take(i as int).push(dv[i as int]));
        }
        insert_sorted(&mut out, s);
        i = i + 1;
    }
    proof {
        assert(dv.take(dv.len() as int) =~= dv);
        dv.lemma_sort_by_ensures(id_le());
        lemma_sorted_by_multiset_unique(out.deep_view(), sort_ids(dv));
    }
    out
}

/// The first position of `x` in `v`, or `None` when `x` does not occur.
pub fn position_of(v: &Vec<String>, x: &String) -> (r: Option<usize>)
    ensures
        match r {
            Some(i) => v.deep_view().index_of_first(x@) == Some(i as int),
            None => v.deep_view().index_of_first(x@) is None,
        },
{
    let ghost dv = v.deep_view();
    let mut i: usize = 0;
    while i < v.len()
        invariant
            i <= v@.len(),
            dv == v.deep_view(),
            dv.len() == v@.len(),
            forall|j: int| 0 <= j < i ==> #[trigger] dv[j] != x@,
        decreases v@.len() - i,
    {
        if v[i] == *x {
            proof {
                dv.index_of_first_ensures(x@);
                assert(dv[i as int] == x@);
                assert(dv.contains(x@));
                match dv.index_of_first(x@) {
                    Some(idx) => {
                        if idx < i as int {
                            assert(dv[idx] != x@);
                        } else if idx > i as int {
                            assert(dv[i as int] != x@);
                        }
                    },
                    None => {
                        assert(!dv.contains(x@));
                    },
                }
            }
            return Some(i);
        }
        i = i + 1;
    }
    proof {
        dv.index_of_first_ensures(x@);
        match dv.index_of_first(x@) {
            Some(idx) => {
                assert(dv[idx] == x@);
                assert(false);
            },
            None => {},
        }
    }
    None
}

/// Ranks are valid positions and distinct nodes get distinct ranks: two
/// different identifiers that both occur in the cluster list are assigned
/// different positions of `0 .. ids.len()`. Together with the disjoint
/// residue classes of the identifier formula, this is what makes the union
/// of all identifiers produced across a cluster free of duplicates.
pub proof fn lemma_ranks_valid_and_distinct(ids: Seq<Seq<char>>, own1: Seq<char>, own2: Seq<char>)
    requires
        own1 != own2,
        rank_of(ids, own1) is Some,
        rank_of(ids, own2) is Some,
    ensures
        match (rank_of(ids, own1), rank_of(ids, own2)) {
            (Some(r1), Some(r2)) => 0 <= r1 < ids.len() && 0 <= r2 < ids.len() && r1 != r2,
            _ => false,
        },
{
    lemma_id_le_total_ordering();
    ids.lemma_sort_by_ensures(id_le());
    let t = sort_ids(ids);
    assert(t.len() == ids.len()) by {
        assert(t.to_multiset().len() == ids.to_multiset().len());
    }
    t.index_of_first_ensures(own1);
    t.index_of_first_ensures(own2);
    match (rank_of(ids, own1), rank_of(ids, own2)) {
        (Some(r1), Some(r2)) => {
            assert(t[r1] == own1);
            assert(t[r2] == own2);
        },
        _ => {},
    }
}

/// Compares two strings in the identifier ordering.
pub fn str_leq(a: &str, b: &str) -> (r: bool)
    ensures
        r == chars_leq(a@, b@),
{
    let an = a.unicode_len();
    let bn = b.unicode_len();
    let mut i: usize = 0;
    loop
        invariant
            i <= an,
            an == a@.len(),
            bn == b@.len(),
            chars_leq(a@, b@) == chars_leq_from(a@, b@, i as int),
        decreases an - i,
    {
        if i >= an {
            return true;
        }
        if i >= bn {
            return false;
        }
        let ca = a.get_char(i);
        let cb = b.get_char(i);
        if ca as u32 != cb as u32 {
            return (ca as u32) < (cb as u32);
        }
        i = i + 1;
    }
}

} // verus!
