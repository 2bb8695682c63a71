//! Prevalence: for each distinct item, in how many qualifying loadouts it
//! appears, as a share of the loadouts that carry any item at all.
//!
//! The queries return exact (hits, rows-with-any-item) counts; the
//! percentage of an entry is `round(100 * hits / rows_with_any)` and lies
//! in [0, 100] because a deduplicated row contributes at most one hit.

use vstd::prelude::*;
use crate::model::{MasterTable, TableV, Skill, SkillV, ItemSet, SetV, RowV, included};
use crate::counts::{id_space, skill_presence, set_presence, rows_with_any_skill,
    rows_with_any_set, total_skill_occ, total_armour_occ, count_skill_presence,
    count_set_presence};
use crate::pairs::{ranked_pairs, collect_pairs, sort_pairs, lemma_ranked_pairs_props};
use crate::topn::{skill_entity, set_entity, raw_set_freq, view_skill_counts, view_set_counts,
    lookup_skill, lookup_set};

verus! {

/// The dense per-loadout presence counter array for skills.
pub open spec fn skill_prev_freq(t: TableV, filter: Seq<u8>) -> Seq<u64> {
    Seq::new(id_space() as nat, |id: int| skill_presence(t.rows, filter, id as u16) as u64)
}

/// The full prevalence list for skills, ordered by descending hits
/// (equal hits by ascending id), untruncated and unbucketed.
pub open spec fn prevalence_skills_spec(t: TableV, filter: Seq<u8>) -> Seq<(SkillV, u64)> {
    let ranked = ranked_pairs(skill_prev_freq(t, filter));
    Seq::new(ranked.len(), |i: int| (skill_entity(t, ranked[i].id), ranked[i].count))
}

pub open spec fn prevalence_sets_spec(t: TableV, filter: Seq<u8>) -> Seq<(SetV, u64)> {
    let ranked = ranked_pairs(raw_set_freq(t, filter));
    Seq::new(ranked.len(), |i: int| (set_entity(t, ranked[i].id), ranked[i].count))
}

/// A row that contains a skill has a non-empty skill list, so presence
/// counts never exceed the rows-with-any-item denominator.
pub proof fn lemma_skill_presence_le_any(rows: Seq<RowV>, filter: Seq<u8>, id: u16)
    ensures
        skill_presence(rows, filter, id) <= rows_with_any_skill(rows, filter),
    decreases rows.len(),
{
    if rows.len() > 0 {
        lemma_skill_presence_le_any(rows.drop_last(), filter, id);
        if included(rows.last(), filter) && rows.last().skills.contains(id) {
            assert(rows.last().skills.len() > 0);
        }
    }
}

pub proof fn lemma_set_presence_le_any(t: TableV, rows: Seq<RowV>, filter: Seq<u8>, c: u16)
    ensures
        set_presence(t, rows, filter, c) <= rows_with_any_set(rows, filter),
    decreases rows.len(),
{
    if rows.len() > 0 {
        lemma_set_presence_le_any(t, rows.drop_last(), filter, c);
    }
}

/// Prevalence of skills: per included row, ids are deduplicated (unlike
/// raw skill aggregation); `r.1` is the number of included rows with a
/// non-empty skill list. Every hit count is at most `r.1`, so every
/// percentage lies in [0, 100]; when no included row has any skill the
/// list is empty.
pub fn percent_players_with_skills(master: &MasterTable, partition_filter: &[u8]) -> (r: (
    Vec<(Skill, u64)>,
    u64,
))
    requires
        master@.wf(),
        total_skill_occ(master@.rows, partition_filter@) <= u64::MAX,
    ensures
        view_skill_counts(r.0@) == prevalence_skills_spec(master@, partition_filter@),
        r.1 as nat == rows_with_any_skill(master@.rows, partition_filter@),
        forall|i: int| 0 <= i < r.0@.len() ==> 0 < (#[trigger] r.0@[i]).1 <= r.1,
        forall|i: int, j: int|
            0 <= i <= j < r.0@.len() ==> (#[trigger] r.0@[i]).1 >= (#[trigger] r.0@[j]).1,
        r.1 == 0 ==> r.0@.len() == 0,
{
    let fa = count_skill_presence(&master.rows, partition_filter);
    let freq = fa.0;
    let with_any = fa.1;
    let nrows = master.rows.len();
    proof {
        assert forall|id: int|
            0 <= id < freq@.len() implies freq@[id] == skill_prev_freq(
            master@,
            partition_filter@,
        )[id] by {
            let u = id as u16;
            assert(freq@[u as int] as nat == skill_presence(master@.rows, partition_filter@, u));
            crate::counts::lemma_skill_presence_le(master@.rows, partition_filter@, u);
            assert(master@.rows.len() == nrows as int);
        }
        assert(freq@ =~= skill_prev_freq(master@, partition_filter@));
    }
    let pairs = collect_pairs(&freq);
    let sorted = sort_pairs(&pairs);
    proof {
        lemma_ranked_pairs_props(freq@);
    }
    let mut out: Vec<(Skill, u64)> = Vec::new();
    let mut i: usize = 0;
    while i < sorted.len()
        invariant
            master@.wf(),
            sorted@ == ranked_pairs(skill_prev_freq(master@, partition_filter@)),
            forall|k: int|
                0 <= k < sorted@.len() ==> {
                    let p = #[trigger] sorted@[k];
                    p.count == skill_prev_freq(master@, partition_filter@)[p.id as int] && p.count
                        > 0
                },
            0 <= i <= sorted@.len(),
            out@.len() == i,
            forall|k: int|
                0 <= k < i ==> (#[trigger] out@[k]).0@ == skill_entity(master@, sorted@[k].id)
                    && out@[k].1 == sorted@[k].count,
        decreases sorted@.len() - i,
    {
        let e = lookup_skill(master, sorted[i].id);
        out.push((e, sorted[i].count));
        i += 1;
    }
    proof {
        assert(view_skill_counts(out@) =~= prevalence_skills_spec(master@, partition_filter@));
        assert forall|k: int| 0 <= k < out@.len() implies 0 < (#[trigger] out@[k]).1 <= with_any by {
            let p = sorted@[k];
            assert(p.count as nat == skill_presence(master@.rows, partition_filter@, p.id));
            lemma_skill_presence_le_any(master@.rows, partition_filter@, p.id);
        }
        assert forall|i: int, j: int|
            0 <= i <= j < out@.len() implies (#[trigger] out@[i]).1 >= (#[trigger] out@[j]).1 by {
            assert(crate::pairs::cp_leq_f()(sorted@[i], sorted@[j]));
        }
        if with_any == 0 {
            if out@.len() > 0 {
                assert(0 < out@[0].1 <= with_any);
            }
        }
    }
    (out, with_any)
}

/// Prevalence of sets: per included row, non-zero armour ids are resolved
/// to canonical ids and deduplicated, exactly as in raw set aggregation;
/// `r.1` is the number of included rows with any non-zero armour id.
pub fn percent_players_with_sets(master: &MasterTable, partition_filter: &[u8]) -> (r: (
    Vec<(ItemSet, u64)>,
    u64,
))
    requires
        master@.wf(),
        total_armour_occ(master@.rows, partition_filter@) <= u64::MAX,
    ensures
        view_set_counts(r.0@) == prevalence_sets_spec(master@, partition_filter@),
        r.1 as nat == rows_with_any_set(master@.rows, partition_filter@),
        forall|i: int| 0 <= i < r.0@.len() ==> 0 < (#[trigger] r.0@[i]).1 <= r.1,
        forall|i: int, j: int|
            0 <= i <= j < r.0@.len() ==> (#[trigger] r.0@[i]).1 >= (#[trigger] r.0@[j]).1,
        r.1 == 0 ==> r.0@.len() == 0,
{
    let resolver = crate::resolve::build_resolver(master);
    let fa = count_set_presence(master, &resolver, partition_filter);
    let freq = fa.0;
    let with_any = fa.1;
    let nrows = master.rows.len();
    proof {
        assert forall|id: int|
            0 <= id < freq@.len() implies freq@[id] == raw_set_freq(
            master@,
            partition_filter@,
        )[id] by {
            let u = id as u16;
            assert(freq@[u as int] as nat == set_presence(
                master@,
                master@.rows,
                partition_filter@,
                u,
            ));
            crate::counts::lemma_set_presence_le(master@, master@.rows, partition_filter@, u);
            assert(master@.rows.len() == nrows as int);
        }
        assert(freq@ =~= raw_set_freq(master@, partition_filter@));
    }
    let pairs = collect_pairs(&freq);
    let sorted = sort_pairs(&pairs);
    proof {
        lemma_ranked_pairs_props(freq@);
    }
    let mut out: Vec<(ItemSet, u64)> = Vec::new();
    let mut i: usize = 0;
    while i < sorted.len()
        invariant
            master@.wf(),
            sorted@ == ranked_pairs(raw_set_freq(master@, partition_filter@)),
            forall|k: int|
                0 <= k < sorted@.len() ==> {
                    let p = #[trigger] sorted@[k];
                    p.count == raw_set_freq(master@, partition_filter@)[p.id as int] && p.count > 0
                },
            0 <= i <= sorted@.len(),
            out@.len() == i,
            forall|k: int|
                0 <= k < i ==> (#[trigger] out@[k]).0@ == set_entity(master@, sorted@[k].id)
                    && out@[k].1 == sorted@[k].count,
        decreases sorted@.len() - i,
    {
        let e = lookup_set(master, sorted[i].id);
        out.push((e, sorted[i].count));
        i += 1;
    }
    proof {
        assert(view_set_counts(out@) =~= prevalence_sets_spec(master@, partition_filter@));
        assert forall|k: int| 0 <= k < out@.len() implies 0 < (#[trigger] out@[k]).1 <= with_any by {
            let p = sorted@[k];
            assert(p.count as nat == set_presence(master@, master@.rows, partition_filter@, p.id));
            lemma_set_presence_le_any(master@, master@.rows, partition_filter@, p.id);
        }
        assert forall|i: int, j: int|
            0 <= i <= j < out@.len() implies (#[trigger] out@[i]).1 >= (#[trigger] out@[j]).1 by {
            assert(crate::pairs::cp_leq_f()(sorted@[i], sorted@[j]));
        }
        if with_any == 0 {
            if out@.len() > 0 {
                assert(0 < out@[0].1 <= with_any);
            }
        }
    }
    (out, with_any)
}

} // verus!
