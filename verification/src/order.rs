//! Deterministic sorting, specified as insertion sort.
//!
//! Every ranked result list in the engine is pinned to `sort_by_spec`,
//! so that output order is reproducible: the comparators used elsewhere
//! always end in an id-based tie-break.

use vstd::prelude::*;

verus! {

use vstd::multiset::Multiset;

/// `leq` relates every pair of values, in one direction or the other.
pub open spec fn leq_total<T>(leq: spec_fn(T, T) -> bool) -> bool {
    forall|a: T, b: T| #[trigger] leq(a, b) || #[trigger] leq(b, a)
}

pub open spec fn leq_trans<T>(leq: spec_fn(T, T) -> bool) -> bool {
    forall|a: T, b: T, c: T| #[trigger] leq(a, b) && #[trigger] leq(b, c) ==> leq(a, c)
}

pub open spec fn ordered_by<T>(s: Seq<T>, leq: spec_fn(T, T) -> bool) -> bool {
    forall|i: int, j: int| 0 <= i <= j < s.len() ==> #[trigger] leq(s[i], s[j])
}

/// Index at which insertion sort places `x` into `s`: before the first
/// element `y` of `s` with `leq(x, y)`.
pub open spec fn insert_pos<T>(x: T, s: Seq<T>, leq: spec_fn(T, T) -> bool) -> int
    decreases s.len(),
{
    if s.len() == 0 {
        0
    } else if leq(x, s[0]) {
        0
    } else {
        1 + insert_pos(x, s.drop_first(), leq)
    }
}

/// `s` with `x` inserted at `insert_pos`.
pub open spec fn insert_by<T>(x: T, s: Seq<T>, leq: spec_fn(T, T) -> bool) -> Seq<T>
    decreases s.len(),
{
    if s.len() == 0 {
        seq![x]
    } else if leq(x, s[0]) {
        seq![x] + s
    } else {
        seq![s[0]] + insert_by(x, s.drop_first(), leq)
    }
}

/// The canonical sorted order of `s` under `leq`: insertion sort,
/// processing elements from last to first insertion.
pub open spec fn sort_by_spec<T>(s: Seq<T>, leq: spec_fn(T, T) -> bool) -> Seq<T>
    decreases s.len(),
{
    if s.len() == 0 {
        Seq::empty()
    } else {
        insert_by(s.last(), sort_by_spec(s.drop_last(), leq), leq)
    }
}

pub proof fn lemma_insert_by_decompose<T>(x: T, s: Seq<T>, leq: spec_fn(T, T) -> bool)
    ensures
        0 <= insert_pos(x, s, leq) <= s.len(),
        insert_by(x, s, leq) == s.take(insert_pos(x, s, leq)) + seq![x] + s.skip(
            insert_pos(x, s, leq),
        ),
        forall|m: int| 0 <= m < insert_pos(x, s, leq) ==> !leq(x, s[m]),
        insert_pos(x, s, leq) < s.len() ==> leq(x, s[insert_pos(x, s, leq)]),
    decreases s.len(),
{
    let p = insert_pos(x, s, leq);
    if s.len() == 0 {
        assert(insert_by(x, s, leq) =~= s.take(0) + seq![x] + s.skip(0));
    } else if leq(x, s[0]) {
        assert(insert_by(x, s, leq) =~= s.take(0) + seq![x] + s.skip(0));
    } else {
        let t = s.drop_first();
        lemma_insert_by_decompose(x, t, leq);
        let q = insert_pos(x, t, leq);
        assert(s.take(p) =~= seq![s[0]] + t.take(q));
        assert(s.skip(p) =~= t.skip(q));
        assert(insert_by(x, s, leq) =~= s.take(p) + seq![x] + s.skip(p)) by {
            assert(insert_by(x, t, leq) == t.take(q) + seq![x] + t.skip(q));
        }
        assert forall|m: int| 0 <= m < p implies !leq(x, s[m]) by {
            if m > 0 {
                assert(s[m] == t[m - 1]);
            }
        }
        if p < s.len() {
            assert(s[p] == t[q]);
        }
    }
}

pub proof fn lemma_insert_by_multiset<T>(x: T, s: Seq<T>, leq: spec_fn(T, T) -> bool)
    ensures
        insert_by(x, s, leq).to_multiset() =~= s.to_multiset().insert(x),
{
    broadcast use vstd::seq_lib::group_to_multiset_ensures;

    lemma_insert_by_decompose(x, s, leq);
    let p = insert_pos(x, s, leq);
    vstd::seq_lib::lemma_multiset_commutative(s.take(p) + seq![x], s.skip(p));
    vstd::seq_lib::lemma_multiset_commutative(s.take(p), seq![x]);
    vstd::seq_lib::lemma_multiset_commutative(s.take(p), s.skip(p));
    assert(s.take(p) + s.skip(p) =~= s);
    assert(seq![x].to_multiset() =~= Multiset::empty().insert(x)) by {
        assert(seq![x] =~= Seq::<T>::empty().push(x));
    }
}

pub proof fn lemma_insert_by_ordered<T>(x: T, s: Seq<T>, leq: spec_fn(T, T) -> bool)
    requires
        ordered_by(s, leq),
        leq_total(leq),
        leq_trans(leq),
    ensures
        ordered_by(insert_by(x, s, leq), leq),
{
    lemma_insert_by_decompose(x, s, leq);
    let p = insert_pos(x, s, leq);
    let r = insert_by(x, s, leq);
    assert forall|i: int, j: int| 0 <= i <= j < r.len() implies #[trigger] leq(r[i], r[j]) by {
        if i < p {
            assert(r[i] == s[i]);
        } else if i == p {
            assert(r[i] == x);
        } else {
            assert(r[i] == s[i - 1]);
        }
        if j < p {
            assert(r[j] == s[j]);
        } else if j == p {
            assert(r[j] == x);
        } else {
            assert(r[j] == s[j - 1]);
        }
        if i < p && j == p {
            // !leq(x, s[i]) and totality give leq(s[i], x)
            assert(leq(s[i], x));
        } else if i == p && j > p {
            if p < s.len() {
                assert(leq(x, s[p]));
                assert(leq(s[p], s[j - 1]));
            }
        }
    }
}

pub proof fn lemma_sort_by_spec_multiset<T>(s: Seq<T>, leq: spec_fn(T, T) -> bool)
    ensures
        sort_by_spec(s, leq).to_multiset() =~= s.to_multiset(),
        sort_by_spec(s, leq).len() == s.len(),
    decreases s.len(),
{
    broadcast use vstd::seq_lib::group_to_multiset_ensures;

    if s.len() == 0 {
    } else {
        lemma_sort_by_spec_multiset(s.drop_last(), leq);
        lemma_insert_by_multiset(s.last(), sort_by_spec(s.drop_last(), leq), leq);
        assert(s =~= s.drop_last().push(s.last()));
        assert(s.to_multiset() =~= s.drop_last().to_multiset().insert(s.last()));
        lemma_insert_by_decompose(s.last(), sort_by_spec(s.drop_last(), leq), leq);
    }
}

pub proof fn lemma_sort_by_spec_ordered<T>(s: Seq<T>, leq: spec_fn(T, T) -> bool)
    requires
        leq_total(leq),
        leq_trans(leq),
    ensures
        ordered_by(sort_by_spec(s, leq), leq),
    decreases s.len(),
{
    if s.len() == 0 {
    } else {
        lemma_sort_by_spec_ordered(s.drop_last(), leq);
        lemma_insert_by_ordered(s.last(), sort_by_spec(s.drop_last(), leq), leq);
    }
}

/// Every element of the sorted sequence comes from the input.
pub proof fn lemma_sort_by_spec_membership<T>(s: Seq<T>, leq: spec_fn(T, T) -> bool)
    ensures
        forall|i: int|
            0 <= i < sort_by_spec(s, leq).len() ==> s.contains(#[trigger] sort_by_spec(s, leq)[i]),
{
    broadcast use vstd::seq_lib::group_to_multiset_ensures;

    lemma_sort_by_spec_multiset(s, leq);
    let r = sort_by_spec(s, leq);
    assert forall|i: int| 0 <= i < r.len() implies s.contains(#[trigger] r[i]) by {
        assert(r.contains(r[i]));
        assert(r.to_multiset().count(r[i]) > 0);
    }
}

} // verus!
