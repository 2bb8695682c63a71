//! Top-N aggregation: rank (id, count) pairs, keep the first `n`, sum the
//! rest into a synthetic "Other" entry (fixed id 999) appended only when
//! that remainder is strictly positive.

use vstd::prelude::*;
use crate::model::{MasterTable, TableV, Skill, SkillV, ItemSet, SetV};
use crate::counts::{id_space, skill_occ, total_skill_occ, total_armour_occ, set_presence, sum_nat,
    count_skill_usage, count_set_presence, lemma_skill_occ_le_total, lemma_set_presence_le};
use crate::pairs::{CountPair, cp_leq_f, sum_pairs, ranked_pairs, collect_pairs,
    sort_pairs, lemma_ranked_pairs_props, lemma_sum_pairs_split};
use crate::label::{unknown_label, unknown_name, other_label, other_name};
use crate::resolve::{build_resolver};

verus! {

/// Total entity lookup: a known id resolves to its table entry, any other
/// id to a synthesized placeholder.
pub open spec fn skill_entity(t: TableV, id: u16) -> SkillV {
    if 1 <= id && id as int <= t.skills.len() {
        t.skills[id as int - 1]
    } else {
        SkillV { id, name: unknown_label(id), class: None, tree: None, display_name: None }
    }
}

pub open spec fn set_entity(t: TableV, id: u16) -> SetV {
    if 1 <= id && id as int <= t.sets.len() {
        t.sets[id as int - 1]
    } else {
        SetV { id, name: unknown_label(id) }
    }
}

pub open spec fn other_skill() -> SkillV {
    SkillV {
        id: 999,
        name: other_label(),
        class: None,
        tree: None,
        display_name: Some(other_label()),
    }
}

pub open spec fn other_set() -> SetV {
    SetV { id: 999, name: other_label() }
}

pub fn lookup_skill(master: &MasterTable, id: u16) -> (r: Skill)
    requires
        master@.wf(),
    ensures
        r@ == skill_entity(master@, id),
{
    if 1 <= id && (id as usize) <= master.skills.len() {
        proof {
            assert(master@.skills[id as int - 1] == master.skills@[id as int - 1]@);
        }
        master.skills[id as usize - 1].duplicate()
    } else {
        Skill { id, name: unknown_name(id), class: None, tree: None, display_name: None }
    }
}

pub fn lookup_set(master: &MasterTable, id: u16) -> (r: ItemSet)
    requires
        master@.wf(),
    ensures
        r@ == set_entity(master@, id),
{
    if 1 <= id && (id as usize) <= master.sets.len() {
        proof {
            assert(master@.sets[id as int - 1] == master.sets@[id as int - 1]@);
        }
        master.sets[id as usize - 1].duplicate()
    } else {
        ItemSet { id, name: unknown_name(id) }
    }
}

pub fn make_other_skill() -> (r: Skill)
    ensures
        r@ == other_skill(),
{
    Skill {
        id: 999,
        name: other_name(),
        class: None,
        tree: None,
        display_name: Some(other_name()),
    }
}

pub fn make_other_set() -> (r: ItemSet)
    ensures
        r@ == other_set(),
{
    ItemSet { id: 999, name: other_name() }
}

pub open spec fn view_skill_counts(s: Seq<(Skill, u64)>) -> Seq<(SkillV, u64)> {
    s.map_values(|p: (Skill, u64)| (p.0@, p.1))
}

pub open spec fn view_set_counts(s: Seq<(ItemSet, u64)>) -> Seq<(SetV, u64)> {
    s.map_values(|p: (ItemSet, u64)| (p.0@, p.1))
}

/// The counts beyond position `n`: what the "Other" bucket sums.
pub open spec fn rest_sum(pairs: Seq<CountPair>, n: int) -> nat {
    if n >= pairs.len() {
        0
    } else if n < 0 {
        sum_pairs(pairs)
    } else {
        sum_pairs(pairs.skip(n))
    }
}

pub open spec fn kept_len(pairs: Seq<CountPair>, n: int) -> int {
    if pairs.len() <= n {
        pairs.len() as int
    } else {
        n
    }
}

/// The result list built from ranked pairs: the first `n` resolved to
/// entities, then the "Other" entry iff the remainder is positive.
pub open spec fn counted_skills(t: TableV, pairs: Seq<CountPair>, n: int) -> Seq<(SkillV, u64)> {
    let base = Seq::new(
        kept_len(pairs, n) as nat,
        |i: int| (skill_entity(t, pairs[i].id), pairs[i].count),
    );
    if rest_sum(pairs, n) > 0 {
        base.push((other_skill(), rest_sum(pairs, n) as u64))
    } else {
        base
    }
}

pub open spec fn counted_sets(t: TableV, pairs: Seq<CountPair>, n: int) -> Seq<(SetV, u64)> {
    let base = Seq::new(
        kept_len(pairs, n) as nat,
        |i: int| (set_entity(t, pairs[i].id), pairs[i].count),
    );
    if rest_sum(pairs, n) > 0 {
        base.push((other_set(), rest_sum(pairs, n) as u64))
    } else {
        base
    }
}

pub open spec fn sum_result_skills(s: Seq<(SkillV, u64)>) -> nat
    decreases s.len(),
{
    if s.len() == 0 {
        0
    } else {
        sum_result_skills(s.drop_last()) + s.last().1 as nat
    }
}

proof fn lemma_sum_base_skills(t: TableV, pairs: Seq<CountPair>, kept: int)
    requires
        0 <= kept <= pairs.len(),
    ensures
        sum_result_skills(
            Seq::new(kept as nat, |i: int| (skill_entity(t, pairs[i].id), pairs[i].count)),
        ) == sum_pairs(pairs.take(kept)),
    decreases kept,
{
    if kept > 0 {
        lemma_sum_base_skills(t, pairs, kept - 1);
        let cur = Seq::new(kept as nat, |i: int| (skill_entity(t, pairs[i].id), pairs[i].count));
        let prev = Seq::new(
            (kept - 1) as nat,
            |i: int| (skill_entity(t, pairs[i].id), pairs[i].count),
        );
        assert(cur.drop_last() =~= prev);
        assert(pairs.take(kept).drop_last() =~= pairs.take(kept - 1));
    }
}

/// Conservation: the counts in the truncated-with-"Other" result sum to
/// exactly the sum of all pair counts.
pub proof fn lemma_counted_skills_sum(t: TableV, pairs: Seq<CountPair>, n: int)
    requires
        0 <= n,
        sum_pairs(pairs) <= u64::MAX,
    ensures
        sum_result_skills(counted_skills(t, pairs, n)) == sum_pairs(pairs),
{
    let kept = kept_len(pairs, n);
    let base = Seq::new(kept as nat, |i: int| (skill_entity(t, pairs[i].id), pairs[i].count));
    lemma_sum_base_skills(t, pairs, kept);
    lemma_sum_pairs_split(pairs, kept);
    if rest_sum(pairs, n) > 0 {
        let r = counted_skills(t, pairs, n);
        assert(r.drop_last() =~= base);
        assert(rest_sum(pairs, n) <= sum_pairs(pairs)) by {
            assert(sum_pairs(pairs.take(kept)) + sum_pairs(pairs.skip(kept)) == sum_pairs(pairs));
        }
        assert(pairs.skip(kept) =~= pairs.skip(n));
    } else {
        if kept < pairs.len() {
            assert(pairs.skip(kept) =~= pairs.skip(n));
        } else {
            assert(pairs.take(kept) =~= pairs);
            assert(sum_pairs(pairs.skip(kept)) == 0);
        }
    }
}

/// The "Other" bucket policy: the synthetic entry (id 999) is appended
/// exactly when the truncated remainder is strictly positive, carrying
/// that remainder; asking for at least as many entries as there are
/// distinct ids never produces it.
pub proof fn lemma_other_bucket_policy(t: TableV, pairs: Seq<CountPair>, n: int)
    requires
        0 <= n,
        sum_pairs(pairs) <= u64::MAX,
    ensures
        rest_sum(pairs, n) > 0 ==> counted_skills(t, pairs, n).len() == n + 1 && counted_skills(
            t,
            pairs,
            n,
        ).last() == (other_skill(), rest_sum(pairs, n) as u64),
        rest_sum(pairs, n) == 0 ==> counted_skills(t, pairs, n).len() == kept_len(pairs, n),
        n >= pairs.len() ==> rest_sum(pairs, n) == 0 && counted_skills(t, pairs, n).len()
            == pairs.len(),
        rest_sum(pairs, n) > 0 ==> counted_sets(t, pairs, n).len() == n + 1 && counted_sets(
            t,
            pairs,
            n,
        ).last() == (other_set(), rest_sum(pairs, n) as u64),
        rest_sum(pairs, n) == 0 ==> counted_sets(t, pairs, n).len() == kept_len(pairs, n),
{
}

pub fn package_skills(master: &MasterTable, pairs: &Vec<CountPair>, n: usize) -> (r: Vec<
    (Skill, u64),
>)
    requires
        master@.wf(),
        sum_pairs(pairs@) <= u64::MAX,
    ensures
        view_skill_counts(r@) == counted_skills(master@, pairs@, n as int),
{
    let kept = if pairs.len() <= n {
        pairs.len()
    } else {
        n
    };
    let mut out: Vec<(Skill, u64)> = Vec::new();
    let mut i: usize = 0;
    while i < kept
        invariant
            master@.wf(),
            kept == kept_len(pairs@, n as int),
            kept <= pairs@.len(),
            0 <= i <= kept,
            out@.len() == i,
            forall|k: int|
                0 <= k < i ==> (#[trigger] out@[k]).0@ == skill_entity(master@, pairs@[k].id)
                    && out@[k].1 == pairs@[k].count,
        decreases kept - i,
    {
        let e = lookup_skill(master, pairs[i].id);
        out.push((e, pairs[i].count));
        i += 1;
    }
    let mut other: u64 = 0;
    if n < pairs.len() {
        let mut k: usize = n;
        proof {
            assert(pairs@.subrange(n as int, n as int) =~= Seq::<CountPair>::empty());
        }
        while k < pairs.len()
            invariant
                sum_pairs(pairs@) <= u64::MAX,
                n <= k <= pairs@.len(),
                other as nat == sum_pairs(pairs@.subrange(n as int, k as int)),
            decreases pairs@.len() - k,
        {
            proof {
                lemma_sum_pairs_split(pairs@, k + 1);
                lemma_sum_pairs_split(pairs@.take(k + 1), n as int);
                assert(pairs@.take(k + 1).skip(n as int) =~= pairs@.subrange(n as int, k + 1));
                assert(pairs@.subrange(n as int, k + 1).drop_last() =~= pairs@.subrange(
                    n as int,
                    k as int,
                ));
                assert(pairs@.subrange(n as int, k + 1).last() == pairs@[k as int]);
            }
            other = other + pairs[k].count;
            k += 1;
        }
        proof {
            assert(pairs@.subrange(n as int, pairs@.len() as int) =~= pairs@.skip(n as int));
        }
    }
    proof {
        assert(other as nat == rest_sum(pairs@, n as int));
    }
    if other > 0 {
        let o = make_other_skill();
        out.push((o, other));
    }
    proof {
        assert(view_skill_counts(out@) =~= counted_skills(master@, pairs@, n as int));
    }
    out
}

pub fn package_sets(master: &MasterTable, pairs: &Vec<CountPair>, n: usize) -> (r: Vec<
    (ItemSet, u64),
>)
    requires
        master@.wf(),
        sum_pairs(pairs@) <= u64::MAX,
    ensures
        view_set_counts(r@) == counted_sets(master@, pairs@, n as int),
{
    let kept = if pairs.len() <= n {
        pairs.len()
    } else {
        n
    };
    let mut out: Vec<(ItemSet, u64)> = Vec::new();
    let mut i: usize = 0;
    while i < kept
        invariant
            master@.wf(),
            kept == kept_len(pairs@, n as int),
            kept <= pairs@.len(),
            0 <= i <= kept,
            out@.len() == i,
            forall|k: int|
                0 <= k < i ==> (#[trigger] out@[k]).0@ == set_entity(master@, pairs@[k].id)
                    && out@[k].1 == pairs@[k].count,
        decreases kept - i,
    {
        let e = lookup_set(master, pairs[i].id);
        out.push((e, pairs[i].count));
        i += 1;
    }
    let mut other: u64 = 0;
    if n < pairs.len() {
        let mut k: usize = n;
        proof {
            assert(pairs@.subrange(n as int, n as int) =~= Seq::<CountPair>::empty());
        }
        while k < pairs.len()
            invariant
                sum_pairs(pairs@) <= u64::MAX,
                n <= k <= pairs@.len(),
                other as nat == sum_pairs(pairs@.subrange(n as int, k as int)),
            decreases pairs@.len() - k,
        {
            proof {
                lemma_sum_pairs_split(pairs@, k + 1);
                lemma_sum_pairs_split(pairs@.take(k + 1), n as int);
                assert(pairs@.take(k + 1).skip(n as int) =~= pairs@.subrange(n as int, k + 1));
                assert(pairs@.subrange(n as int, k + 1).drop_last() =~= pairs@.subrange(
                    n as int,
                    k as int,
                ));
                assert(pairs@.subrange(n as int, k + 1).last() == pairs@[k as int]);
            }
            other = other + pairs[k].count;
            k += 1;
        }
        proof {
            assert(pairs@.subrange(n as int, pairs@.len() as int) =~= pairs@.skip(n as int));
        }
    }
    proof {
        assert(other as nat == rest_sum(pairs@, n as int));
    }
    if other > 0 {
        let o = make_other_set();
        out.push((o, other));
    }
    proof {
        assert(view_set_counts(out@) =~= counted_sets(master@, pairs@, n as int));
    }
    out
}

/// The dense raw-usage counter array as a spec value.
pub open spec fn raw_skill_freq(t: TableV, filter: Seq<u8>) -> Seq<u64> {
    Seq::new(id_space() as nat, |id: int| skill_occ(t.rows, filter, id as u16) as u64)
}

/// The dense per-loadout presence counter array for canonical sets.
pub open spec fn raw_set_freq(t: TableV, filter: Seq<u8>) -> Seq<u64> {
    Seq::new(id_space() as nat, |id: int| set_presence(t, t.rows, filter, id as u16) as u64)
}

pub open spec fn top_skills_spec(t: TableV, filter: Seq<u8>, n: int) -> Seq<(SkillV, u64)> {
    counted_skills(t, ranked_pairs(raw_skill_freq(t, filter)), n)
}

pub open spec fn top_sets_spec(t: TableV, filter: Seq<u8>, n: int) -> Seq<(SetV, u64)> {
    counted_sets(t, ranked_pairs(raw_set_freq(t, filter)), n)
}

/// Top-N most used skills: counts are total usages with multiplicity
/// across included rows; ties rank by ascending id; the remainder is
/// bucketed as "Other". The counts across the whole result conserve the
/// total number of skill occurrences. The precondition only asks that
/// the occurrence total fit in 64 bits, which any in-memory table meets.
pub fn top_n_skills_for_partitions(master: &MasterTable, partition_filter: &[u8], n: usize) -> (r:
    Vec<(Skill, u64)>)
    requires
        master@.wf(),
        total_skill_occ(master@.rows, partition_filter@) <= u64::MAX,
    ensures
        view_skill_counts(r@) == top_skills_spec(master@, partition_filter@, n as int),
        sum_result_skills(view_skill_counts(r@)) == total_skill_occ(
            master@.rows,
            partition_filter@,
        ),
        r@.len() <= n + 1,
{
    let freq = count_skill_usage(&master.rows, partition_filter);
    proof {
        assert forall|id: int|
            0 <= id < freq@.len() implies freq@[id] == raw_skill_freq(
            master@,
            partition_filter@,
        )[id] by {
            let u = id as u16;
            assert(freq@[u as int] as nat == skill_occ(master@.rows, partition_filter@, u));
            lemma_skill_occ_le_total(master@.rows, partition_filter@, u);
        }
        assert(freq@ =~= raw_skill_freq(master@, partition_filter@));
    }
    let pairs = collect_pairs(&freq);
    let sorted = sort_pairs(&pairs);
    proof {
        lemma_ranked_pairs_props(freq@);
        assert(sorted@ == ranked_pairs(raw_skill_freq(master@, partition_filter@)));
        assert(sum_pairs(sorted@) == sum_nat(freq@));
    }
    let r = package_skills(master, &sorted, n);
    proof {
        lemma_counted_skills_sum(master@, sorted@, n as int);
    }
    r
}

/// Top-N most used sets: per included row, armour ids are deduplicated
/// after canonical resolution and the 0 sentinel dropped, so counts mean
/// "loadouts containing the set"; ties rank by ascending id; the
/// remainder is bucketed as "Other".
pub fn top_n_sets_for_partitions(master: &MasterTable, partition_filter: &[u8], n: usize) -> (r:
    Vec<(ItemSet, u64)>)
    requires
        master@.wf(),
        total_armour_occ(master@.rows, partition_filter@) <= u64::MAX,
    ensures
        view_set_counts(r@) == top_sets_spec(master@, partition_filter@, n as int),
        r@.len() <= n + 1,
{
    let resolver = build_resolver(master);
    let fa = count_set_presence(master, &resolver, partition_filter);
    let freq = fa.0;
    let nrows = master.rows.len();
    proof {
        assert forall|id: int|
            0 <= id < freq@.len() implies freq@[id] == raw_set_freq(
            master@,
            partition_filter@,
        )[id] by {
            let u = id as u16;
            assert(freq@[u as int] as nat == set_presence(
                master@,
                master@.rows,
                partition_filter@,
                u,
            ));
            lemma_set_presence_le(master@, master@.rows, partition_filter@, u);
            assert(master@.rows.len() == nrows as int);
        }
        assert(freq@ =~= raw_set_freq(master@, partition_filter@));
    }
    let pairs = collect_pairs(&freq);
    let sorted = sort_pairs(&pairs);
    proof {
        lemma_ranked_pairs_props(freq@);
        assert(sorted@ == ranked_pairs(raw_set_freq(master@, partition_filter@)));
        assert(sum_pairs(sorted@) == sum_nat(freq@));
        assert(sum_nat(freq@) <= total_armour_occ(master@.rows, partition_filter@));
    }
    let out = package_sets(master, &sorted, n);
    proof {
        assert(view_set_counts(out@).len() == out@.len());
        assert(kept_len(sorted@, n as int) <= n as int);
    }
    out
}

} // verus!
