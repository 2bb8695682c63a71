//! Per-partition restriction of the counting functions, and the
//! decomposition of a filtered count into its per-partition parts.

use vstd::prelude::*;
use crate::model::{TableV, RowV, included};
use crate::counts::{count_in, skill_occ, total_skill_occ, set_presence, row_has_set};

verus! {

/// Number of included rows in partition `p`.
pub open spec fn part_size(rows: Seq<RowV>, filter: Seq<u8>, p: u8) -> nat
    decreases rows.len(),
{
    if rows.len() == 0 {
        0
    } else {
        part_size(rows.drop_last(), filter, p) + if included(rows.last(), filter)
            && rows.last().partition_id == p {
            1nat
        } else {
            0nat
        }
    }
}

/// Skill usages of `id` among included rows of partition `p`.
pub open spec fn skill_occ_part(rows: Seq<RowV>, filter: Seq<u8>, p: u8, id: u16) -> nat
    decreases rows.len(),
{
    if rows.len() == 0 {
        0
    } else {
        skill_occ_part(rows.drop_last(), filter, p, id) + if included(rows.last(), filter)
            && rows.last().partition_id == p {
            count_in(rows.last().skills, id)
        } else {
            0nat
        }
    }
}

/// Loadouts containing canonical set `c` among included rows of
/// partition `p`.
pub open spec fn set_presence_part(
    t: TableV,
    rows: Seq<RowV>,
    filter: Seq<u8>,
    p: u8,
    c: u16,
) -> nat
    decreases rows.len(),
{
    if rows.len() == 0 {
        0
    } else {
        set_presence_part(t, rows.drop_last(), filter, p, c) + if included(rows.last(), filter)
            && rows.last().partition_id == p && row_has_set(t, rows.last().armour, c) {
            1nat
        } else {
            0nat
        }
    }
}

/// The partitions below `k` that hold at least one included row,
/// ascending.
pub open spec fn partitions_of(rows: Seq<RowV>, filter: Seq<u8>, k: int) -> Seq<u8>
    decreases k,
{
    if k <= 0 {
        Seq::empty()
    } else if part_size(rows, filter, (k - 1) as u8) > 0 {
        partitions_of(rows, filter, k - 1).push((k - 1) as u8)
    } else {
        partitions_of(rows, filter, k - 1)
    }
}

/// A one-partition filter sees exactly the rows of that partition,
/// whenever that partition is visible under the original filter.
pub proof fn lemma_single_filter(rows: Seq<RowV>, filter: Seq<u8>, p: u8, id: u16, c: u16, t: TableV)
    requires
        filter.len() == 0 || filter.contains(p),
    ensures
        skill_occ(rows, seq![p], id) == skill_occ_part(rows, filter, p, id),
        set_presence(t, rows, seq![p], c) == set_presence_part(t, rows, filter, p, c),
        total_skill_occ(rows, seq![p]) <= total_skill_occ(rows, filter),
        crate::counts::total_armour_occ(rows, seq![p]) <= crate::counts::total_armour_occ(
            rows,
            filter,
        ),
        part_size(rows, seq![p], p) == part_size(rows, filter, p),
    decreases rows.len(),
{
    if rows.len() > 0 {
        lemma_single_filter(rows.drop_last(), filter, p, id, c, t);
        let r = rows.last();
        assert(seq![p].contains(r.partition_id) <==> r.partition_id == p) by {
            if seq![p].contains(r.partition_id) {
                let w = choose|w: int| 0 <= w < 1 && seq![p][w] == r.partition_id;
            } else {
                assert(seq![p][0] == p);
            }
        }
        if r.partition_id == p {
            assert(included(r, filter));
        }
    }
}

/// Per-partition counts vanish where the partition has no included rows.
pub proof fn lemma_empty_partition(t: TableV, rows: Seq<RowV>, filter: Seq<u8>, p: u8)
    requires
        part_size(rows, filter, p) == 0,
    ensures
        forall|id: u16| skill_occ_part(rows, filter, p, id) == 0,
        forall|c: u16| set_presence_part(t, rows, filter, p, c) == 0,
    decreases rows.len(),
{
    if rows.len() > 0 {
        assert(part_size(rows.drop_last(), filter, p) == 0);
        lemma_empty_partition(t, rows.drop_last(), filter, p);
        assert(!(included(rows.last(), filter) && rows.last().partition_id == p));
        assert forall|id: u16| skill_occ_part(rows, filter, p, id) == 0 by {
            assert(skill_occ_part(rows.drop_last(), filter, p, id) == 0);
        }
        assert forall|c: u16| set_presence_part(t, rows, filter, p, c) == 0 by {
            assert(set_presence_part(t, rows.drop_last(), filter, p, c) == 0);
        }
    }
}

/// Sum of per-partition skill counts over the partitions below `k`.
pub open spec fn skill_occ_upto(rows: Seq<RowV>, filter: Seq<u8>, k: int, id: u16) -> nat
    decreases k,
{
    if k <= 0 {
        0
    } else {
        skill_occ_upto(rows, filter, k - 1, id) + skill_occ_part(rows, filter, (k - 1) as u8, id)
    }
}

pub open spec fn set_presence_upto(t: TableV, rows: Seq<RowV>, filter: Seq<u8>, k: int, c: u16) -> nat
    decreases k,
{
    if k <= 0 {
        0
    } else {
        set_presence_upto(t, rows, filter, k - 1, c) + set_presence_part(
            t,
            rows,
            filter,
            (k - 1) as u8,
            c,
        )
    }
}

proof fn lemma_skill_occ_upto_step(rows: Seq<RowV>, filter: Seq<u8>, k: int, id: u16)
    requires
        rows.len() > 0,
        0 <= k <= 256,
    ensures
        skill_occ_upto(rows, filter, k, id) == skill_occ_upto(rows.drop_last(), filter, k, id) + (
        if included(rows.last(), filter) && (rows.last().partition_id as int) < k {
            count_in(rows.last().skills, id)
        } else {
            0nat
        }),
    decreases k,
{
    if k > 0 {
        lemma_skill_occ_upto_step(rows, filter, k - 1, id);
    }
}

proof fn lemma_set_presence_upto_step(t: TableV, rows: Seq<RowV>, filter: Seq<u8>, k: int, c: u16)
    requires
        rows.len() > 0,
        0 <= k <= 256,
    ensures
        set_presence_upto(t, rows, filter, k, c) == set_presence_upto(
            t,
            rows.drop_last(),
            filter,
            k,
            c,
        ) + (if included(rows.last(), filter) && (rows.last().partition_id as int) < k
            && row_has_set(t, rows.last().armour, c) {
            1nat
        } else {
            0nat
        }),
    decreases k,
{
    if k > 0 {
        lemma_set_presence_upto_step(t, rows, filter, k - 1, c);
    }
}

proof fn lemma_upto_zero(t: TableV, rows: Seq<RowV>, filter: Seq<u8>, k: int, id: u16, c: u16)
    requires
        rows.len() == 0,
    ensures
        skill_occ_upto(rows, filter, k, id) == 0,
        set_presence_upto(t, rows, filter, k, c) == 0,
    decreases k,
{
    if k > 0 {
        lemma_upto_zero(t, rows, filter, k - 1, id, c);
    }
}

/// The partition decomposition: summing a count over all partitions
/// recovers the filtered count.
pub proof fn lemma_partition_decomposition(
    t: TableV,
    rows: Seq<RowV>,
    filter: Seq<u8>,
    id: u16,
    c: u16,
)
    ensures
        skill_occ_upto(rows, filter, 256, id) == skill_occ(rows, filter, id),
        set_presence_upto(t, rows, filter, 256, c) == set_presence(t, rows, filter, c),
    decreases rows.len(),
{
    if rows.len() == 0 {
        lemma_upto_zero(t, rows, filter, 256, id, c);
    } else {
        lemma_partition_decomposition(t, rows.drop_last(), filter, id, c);
        lemma_skill_occ_upto_step(rows, filter, 256, id);
        lemma_set_presence_upto_step(t, rows, filter, 256, c);
        assert((rows.last().partition_id as int) < 256);
    }
}

/// Summing over the present partitions alone is already the full sum.
pub proof fn lemma_parts_cover(t: TableV, rows: Seq<RowV>, filter: Seq<u8>, k: int, id: u16, c: u16)
    requires
        0 <= k <= 256,
    ensures
        sum_occ_parts(rows, filter, partitions_of(rows, filter, k), id) == skill_occ_upto(
            rows,
            filter,
            k,
            id,
        ),
        sum_presence_parts(t, rows, filter, partitions_of(rows, filter, k), c)
            == set_presence_upto(t, rows, filter, k, c),
    decreases k,
{
    if k > 0 {
        lemma_parts_cover(t, rows, filter, k - 1, id, c);
        let prev = partitions_of(rows, filter, k - 1);
        let cur = partitions_of(rows, filter, k);
        if part_size(rows, filter, (k - 1) as u8) > 0 {
            assert(cur.drop_last() =~= prev);
        } else {
            lemma_empty_partition(t, rows, filter, (k - 1) as u8);
        }
    }
}

/// Sum of per-partition skill counts over an explicit partition list.
pub open spec fn sum_occ_parts(rows: Seq<RowV>, filter: Seq<u8>, parts: Seq<u8>, id: u16) -> nat
    decreases parts.len(),
{
    if parts.len() == 0 {
        0
    } else {
        sum_occ_parts(rows, filter, parts.drop_last(), id) + skill_occ_part(
            rows,
            filter,
            parts.last(),
            id,
        )
    }
}

pub open spec fn sum_presence_parts(
    t: TableV,
    rows: Seq<RowV>,
    filter: Seq<u8>,
    parts: Seq<u8>,
    c: u16,
) -> nat
    decreases parts.len(),
{
    if parts.len() == 0 {
        0
    } else {
        sum_presence_parts(t, rows, filter, parts.drop_last(), c) + set_presence_part(
            t,
            rows,
            filter,
            parts.last(),
            c,
        )
    }
}

/// Properties of the present-partition list.
pub proof fn lemma_partitions_of_props(rows: Seq<RowV>, filter: Seq<u8>, k: int)
    requires
        0 <= k <= 256,
    ensures
        forall|i: int|
            0 <= i < partitions_of(rows, filter, k).len() ==> {
                let p = #[trigger] partitions_of(rows, filter, k)[i];
                &&& (p as int) < k
                &&& part_size(rows, filter, p) > 0
            },
        forall|i: int, j: int|
            0 <= i < j < partitions_of(rows, filter, k).len() ==> (#[trigger] partitions_of(
                rows,
                filter,
                k,
            )[i]) < (#[trigger] partitions_of(rows, filter, k)[j]),
        forall|p: u8|
            (p as int) < k && part_size(rows, filter, p) > 0 ==> partitions_of(
                rows,
                filter,
                k,
            ).contains(p),
    decreases k,
{
    if k > 0 {
        lemma_partitions_of_props(rows, filter, k - 1);
        let prev = partitions_of(rows, filter, k - 1);
        let cur = partitions_of(rows, filter, k);
        if part_size(rows, filter, (k - 1) as u8) > 0 {
            assert(cur.drop_last() =~= prev);
            assert forall|i: int|
                0 <= i < cur.len() implies {
                let p = #[trigger] cur[i];
                &&& (p as int) < k
                &&& part_size(rows, filter, p) > 0
            } by {
                if i < cur.len() - 1 {
                    assert(cur[i] == prev[i]);
                } else {
                    assert(cur[i] == (k - 1) as u8);
                }
            }
            assert forall|i: int, j: int|
                0 <= i < j < cur.len() implies (#[trigger] cur[i]) < (#[trigger] cur[j]) by {
                if j < cur.len() - 1 {
                    assert(cur[i] == prev[i]);
                    assert(cur[j] == prev[j]);
                } else {
                    assert(cur[i] == prev[i]);
                    assert((prev[i] as int) < k - 1);
                }
            }
            assert forall|p: u8|
                (p as int) < k && part_size(rows, filter, p) > 0 implies cur.contains(p) by {
                if (p as int) < k - 1 {
                    assert(prev.contains(p));
                    let w = choose|w: int| 0 <= w < prev.len() && prev[w] == p;
                    assert(cur[w] == p);
                } else {
                    assert(cur[cur.len() - 1] == p);
                }
            }
        }
    }
}

/// A row included by the filter lies in a partition that the filter can
/// name, so every present partition passes the filter itself.
pub proof fn lemma_part_nonzero_included(rows: Seq<RowV>, filter: Seq<u8>, p: u8)
    requires
        part_size(rows, filter, p) > 0,
    ensures
        filter.len() == 0 || filter.contains(p),
    decreases rows.len(),
{
    if rows.len() > 0 {
        if part_size(rows.drop_last(), filter, p) > 0 {
            lemma_part_nonzero_included(rows.drop_last(), filter, p);
        } else {
            assert(included(rows.last(), filter) && rows.last().partition_id == p);
        }
    }
}

} // verus!
