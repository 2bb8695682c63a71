//! (id, count) pairs: extraction from a dense counter array and the
//! deterministic ranking order (count descending, id ascending).

use vstd::prelude::*;
use crate::counts::{sum_nat, id_space};
use crate::order::{leq_total, leq_trans, sort_by_spec, insert_by, insert_pos,
    lemma_insert_by_decompose, lemma_sort_by_spec_multiset, lemma_sort_by_spec_ordered};

verus! {

#[derive(Clone, Copy, PartialEq, Eq, Structural)]
pub struct CountPair {
    pub count: u64,
    pub id: u16,
}

/// Ranking order: larger count first; equal counts ordered by ascending id.
pub open spec fn cp_leq(a: CountPair, b: CountPair) -> bool {
    a.count > b.count || (a.count == b.count && a.id <= b.id)
}

pub open spec fn cp_leq_f() -> spec_fn(CountPair, CountPair) -> bool {
    |a: CountPair, b: CountPair| cp_leq(a, b)
}

pub proof fn lemma_cp_leq_properties()
    ensures
        leq_total(cp_leq_f()),
        leq_trans(cp_leq_f()),
{
}

/// Pairs for the ids below `k` whose counter is non-zero, ascending by id.
pub open spec fn pairs_of_prefix(freq: Seq<u64>, k: int) -> Seq<CountPair>
    decreases k,
{
    if k <= 0 {
        Seq::empty()
    } else if freq[k - 1] > 0 {
        pairs_of_prefix(freq, k - 1).push(CountPair { count: freq[k - 1], id: (k - 1) as u16 })
    } else {
        pairs_of_prefix(freq, k - 1)
    }
}

/// One pair per distinct id with a non-zero counter, ascending by id.
pub open spec fn pairs_of(freq: Seq<u64>) -> Seq<CountPair> {
    pairs_of_prefix(freq, freq.len() as int)
}

pub open spec fn sum_pairs(s: Seq<CountPair>) -> nat
    decreases s.len(),
{
    if s.len() == 0 {
        0
    } else {
        sum_pairs(s.drop_last()) + s.last().count as nat
    }
}

pub proof fn lemma_pairs_of_prefix_props(freq: Seq<u64>, k: int)
    requires
        0 <= k <= freq.len(),
        freq.len() <= 0x10000,
    ensures
        sum_pairs(pairs_of_prefix(freq, k)) == sum_nat(freq.take(k)),
        forall|i: int|
            0 <= i < pairs_of_prefix(freq, k).len() ==> {
                let p = #[trigger] pairs_of_prefix(freq, k)[i];
                &&& p.id < k
                &&& p.count == freq[p.id as int]
                &&& p.count > 0
            },
        forall|i: int, j: int|
            0 <= i < j < pairs_of_prefix(freq, k).len() ==> (#[trigger] pairs_of_prefix(
                freq,
                k,
            )[i]).id < (#[trigger] pairs_of_prefix(freq, k)[j]).id,
        forall|id: u16| 0 <= id < k && freq[id as int] > 0 ==> pairs_of_prefix(freq, k).contains(
            CountPair { count: freq[id as int], id },
        ),
    decreases k,
{
    if k > 0 {
        lemma_pairs_of_prefix_props(freq, k - 1);
        assert(freq.take(k).drop_last() =~= freq.take(k - 1));
        let prev = pairs_of_prefix(freq, k - 1);
        let cur = pairs_of_prefix(freq, k);
        if freq[k - 1] > 0 {
            let p = CountPair { count: freq[k - 1], id: (k - 1) as u16 };
            assert(cur == prev.push(p));
            assert(cur.drop_last() =~= prev);
            assert(p.id as int == k - 1);
            assert forall|i: int|
                0 <= i < cur.len() implies {
                let q = #[trigger] cur[i];
                &&& q.id < k
                &&& q.count == freq[q.id as int]
                &&& q.count > 0
            } by {
                if i < cur.len() - 1 {
                    assert(cur[i] == prev[i]);
                } else {
                    assert(cur[i] == p);
                }
            }
            assert forall|i: int, j: int|
                0 <= i < j < cur.len() implies (#[trigger] cur[i]).id < (#[trigger] cur[j]).id by {
                if j < cur.len() - 1 {
                    assert(cur[i] == prev[i]);
                    assert(cur[j] == prev[j]);
                } else {
                    assert(cur[j] == p);
                    assert(cur[i] == prev[i]);
                    assert(prev[i].id < k - 1);
                }
            }
            assert forall|id: u16|
                0 <= id < k && freq[id as int] > 0 implies cur.contains(
                CountPair { count: freq[id as int], id },
            ) by {
                if id < k - 1 {
                    let q = CountPair { count: freq[id as int], id };
                    assert(prev.contains(q));
                    let w = choose|w: int| 0 <= w < prev.len() && prev[w] == q;
                    assert(cur[w] == q);
                } else {
                    assert(cur[cur.len() - 1] == p);
                }
            }
        }
    }
}

pub proof fn lemma_sum_pairs_split(s: Seq<CountPair>, k: int)
    requires
        0 <= k <= s.len(),
    ensures
        sum_pairs(s) == sum_pairs(s.take(k)) + sum_pairs(s.skip(k)),
    decreases s.len() - k,
{
    if k == s.len() {
        assert(s.take(k) =~= s);
        assert(s.skip(k).len() == 0);
    } else {
        lemma_sum_pairs_split(s.drop_last(), k);
        assert(s.drop_last().take(k) =~= s.take(k));
        assert(s.drop_last().skip(k) =~= s.skip(k).drop_last());
        assert(s.skip(k).last() == s.last());
    }
}

pub proof fn lemma_sum_pairs_insert_by(x: CountPair, s: Seq<CountPair>)
    ensures
        sum_pairs(insert_by(x, s, cp_leq_f())) == sum_pairs(s) + x.count,
{
    lemma_insert_by_decompose(x, s, cp_leq_f());
    let p = insert_pos(x, s, cp_leq_f());
    let r = insert_by(x, s, cp_leq_f());
    lemma_sum_pairs_split(r, p + 1);
    lemma_sum_pairs_split(r.take(p + 1), p);
    lemma_sum_pairs_split(s, p);
    assert(r.take(p + 1).take(p) =~= s.take(p));
    assert(r.skip(p + 1) =~= s.skip(p));
    let mid = r.take(p + 1).skip(p);
    assert(mid =~= seq![x]);
    assert(sum_pairs(seq![x]) == x.count) by {
        assert(seq![x].drop_last() =~= Seq::<CountPair>::empty());
    }
}

pub proof fn lemma_sum_pairs_sort(s: Seq<CountPair>)
    ensures
        sum_pairs(sort_by_spec(s, cp_leq_f())) == sum_pairs(s),
    decreases s.len(),
{
    if s.len() > 0 {
        lemma_sum_pairs_sort(s.drop_last());
        lemma_sum_pairs_insert_by(s.last(), sort_by_spec(s.drop_last(), cp_leq_f()));
    }
}

fn cp_leq_exec(a: &CountPair, b: &CountPair) -> (r: bool)
    ensures
        r == cp_leq(*a, *b),
{
    a.count > b.count || (a.count == b.count && a.id <= b.id)
}

/// Extract the non-zero counters as (id, count) pairs, ascending by id.
pub fn collect_pairs(freq: &Vec<u64>) -> (pairs: Vec<CountPair>)
    requires
        freq@.len() == id_space(),
    ensures
        pairs@ == pairs_of(freq@),
{
    let mut pairs: Vec<CountPair> = Vec::new();
    let mut k: usize = 0;
    while k < freq.len()
        invariant
            freq@.len() == id_space(),
            0 <= k <= freq@.len(),
            pairs@ == pairs_of_prefix(freq@, k as int),
        decreases freq@.len() - k,
    {
        let c = freq[k];
        if c > 0 {
            pairs.push(CountPair { count: c, id: k as u16 });
        }
        k += 1;
    }
    pairs
}

fn insert_pair(v: &mut Vec<CountPair>, x: CountPair)
    ensures
        final(v)@ == insert_by(x, old(v)@, cp_leq_f()),
{
    proof {
        lemma_insert_by_decompose(x, v@, cp_leq_f());
    }
    let ghost p = insert_pos(x, v@, cp_leq_f());
    let mut j: usize = 0;
    while j < v.len() && !cp_leq_exec(&x, &v[j])
        invariant
            0 <= j <= v@.len(),
            forall|m: int| 0 <= m < j ==> !cp_leq(x, v@[m]),
        decreases v@.len() - j,
    {
        j += 1;
    }
    proof {
        if j < v@.len() {
            assert(cp_leq(x, v@[j as int]));
        }
        // j matches the characterisation of insert_pos, which is unique
        assert(j == p) by {
            if j < p {
                assert(!cp_leq(x, v@[j as int]));
            }
            if p < j {
                assert(!cp_leq(x, v@[p as int]));
                assert(p < v@.len() ==> cp_leq(x, v@[p as int]));
            }
        }
    }
    v.insert(j, x);
    proof {
        assert(v@ =~= old(v)@.take(p) + seq![x] + old(v)@.skip(p));
    }
}

/// Sort pairs into the deterministic ranking order.
pub fn sort_pairs(v: &Vec<CountPair>) -> (r: Vec<CountPair>)
    ensures
        r@ == sort_by_spec(v@, cp_leq_f()),
{
    let mut out: Vec<CountPair> = Vec::new();
    let mut i: usize = 0;
    while i < v.len()
        invariant
            0 <= i <= v@.len(),
            out@ == sort_by_spec(v@.take(i as int), cp_leq_f()),
        decreases v@.len() - i,
    {
        insert_pair(&mut out, v[i]);
        proof {
            assert(v@.take(i + 1).drop_last() =~= v@.take(i as int));
            assert(v@.take(i + 1).last() == v@[i as int]);
        }
        i += 1;
    }
    proof {
        assert(v@.take(v@.len() as int) =~= v@);
    }
    out
}

/// The sorted ranking of a dense counter array.
pub open spec fn ranked_pairs(freq: Seq<u64>) -> Seq<CountPair> {
    sort_by_spec(pairs_of(freq), cp_leq_f())
}

pub proof fn lemma_ranked_pairs_props(freq: Seq<u64>)
    requires
        freq.len() == id_space(),
    ensures
        sum_pairs(ranked_pairs(freq)) == sum_nat(freq),
        ranked_pairs(freq).len() == pairs_of(freq).len(),
        crate::order::ordered_by(ranked_pairs(freq), cp_leq_f()),
        forall|i: int|
            0 <= i < ranked_pairs(freq).len() ==> {
                let p = #[trigger] ranked_pairs(freq)[i];
                &&& p.count == freq[p.id as int]
                &&& p.count > 0
            },
{
    lemma_pairs_of_prefix_props(freq, freq.len() as int);
    lemma_sum_pairs_sort(pairs_of(freq));
    assert(freq.take(freq.len() as int) =~= freq);
    lemma_sort_by_spec_multiset(pairs_of(freq), cp_leq_f());
    lemma_cp_leq_properties();
    lemma_sort_by_spec_ordered(pairs_of(freq), cp_leq_f());
    crate::order::lemma_sort_by_spec_membership(pairs_of(freq), cp_leq_f());
    let r = ranked_pairs(freq);
    assert forall|i: int|
        0 <= i < r.len() implies {
        let p = #[trigger] r[i];
        &&& p.count == freq[p.id as int]
        &&& p.count > 0
    } by {
        assert(pairs_of(freq).contains(r[i]));
        let w = choose|w: int| 0 <= w < pairs_of(freq).len() && pairs_of(freq)[w] == r[i];
        assert(pairs_of(freq)[w].count == freq[pairs_of(freq)[w].id as int]);
    }
}

} // verus!
