//! Frequency accumulators: occurrence counting over included rows.
//!
//! Counters are kept in dense, id-indexed arrays so that iteration order
//! is fixed (ascending id) and output order is reproducible.

use vstd::prelude::*;
use crate::model::{TableRow, RowV, included, view_rows, row_included};

verus! {

/// Number of id slots: ids are `u16`.
pub open spec fn id_space() -> int {
    0x10000
}

/// Multiplicity of `id` in one row's id list.
pub open spec fn count_in(s: Seq<u16>, id: u16) -> nat
    decreases s.len(),
{
    if s.len() == 0 {
        0
    } else {
        count_in(s.drop_last(), id) + if s.last() == id {
            1nat
        } else {
            0nat
        }
    }
}

/// Total usages of skill `id` across included rows, with multiplicity.
pub open spec fn skill_occ(rows: Seq<RowV>, filter: Seq<u8>, id: u16) -> nat
    decreases rows.len(),
{
    if rows.len() == 0 {
        0
    } else {
        skill_occ(rows.drop_last(), filter, id) + if included(rows.last(), filter) {
            count_in(rows.last().skills, id)
        } else {
            0nat
        }
    }
}

/// Total number of skill-list entries across included rows.
pub open spec fn total_skill_occ(rows: Seq<RowV>, filter: Seq<u8>) -> nat
    decreases rows.len(),
{
    if rows.len() == 0 {
        0
    } else {
        total_skill_occ(rows.drop_last(), filter) + if included(rows.last(), filter) {
            rows.last().skills.len()
        } else {
            0nat
        }
    }
}

/// Total number of armour-list entries across included rows.
pub open spec fn total_armour_occ(rows: Seq<RowV>, filter: Seq<u8>) -> nat
    decreases rows.len(),
{
    if rows.len() == 0 {
        0
    } else {
        total_armour_occ(rows.drop_last(), filter) + if included(rows.last(), filter) {
            rows.last().armour.len()
        } else {
            0nat
        }
    }
}

pub open spec fn sum_nat(s: Seq<u64>) -> nat
    decreases s.len(),
{
    if s.len() == 0 {
        0
    } else {
        sum_nat(s.drop_last()) + s.last() as nat
    }
}

pub proof fn lemma_sum_nat_update(s: Seq<u64>, k: int, v: u64)
    requires
        0 <= k < s.len(),
    ensures
        sum_nat(s.update(k, v)) + s[k] == sum_nat(s) + v,
    decreases s.len(),
{
    if k == s.len() - 1 {
        assert(s.update(k, v).drop_last() =~= s.drop_last());
    } else {
        assert(s.update(k, v).drop_last() =~= s.drop_last().update(k, v));
        lemma_sum_nat_update(s.drop_last(), k, v);
    }
}

pub proof fn lemma_sum_nat_elem(s: Seq<u64>, k: int)
    requires
        0 <= k < s.len(),
    ensures
        s[k] <= sum_nat(s),
    decreases s.len(),
{
    if k < s.len() - 1 {
        lemma_sum_nat_elem(s.drop_last(), k);
    }
}

pub proof fn lemma_total_skill_occ_prefix(rows: Seq<RowV>, filter: Seq<u8>, i: int)
    requires
        0 <= i <= rows.len(),
    ensures
        total_skill_occ(rows.take(i), filter) <= total_skill_occ(rows, filter),
    decreases rows.len(),
{
    if i < rows.len() {
        assert(rows.drop_last().take(i) =~= rows.take(i));
        lemma_total_skill_occ_prefix(rows.drop_last(), filter, i);
    } else {
        assert(rows.take(i) =~= rows);
    }
}

pub proof fn lemma_total_armour_occ_prefix(rows: Seq<RowV>, filter: Seq<u8>, i: int)
    requires
        0 <= i <= rows.len(),
    ensures
        total_armour_occ(rows.take(i), filter) <= total_armour_occ(rows, filter),
    decreases rows.len(),
{
    if i < rows.len() {
        assert(rows.drop_last().take(i) =~= rows.take(i));
        lemma_total_armour_occ_prefix(rows.drop_last(), filter, i);
    } else {
        assert(rows.take(i) =~= rows);
    }
}

/// Raw skill counting: one count per skill-list entry, with multiplicity.
pub fn count_skill_usage(rows: &Vec<TableRow>, filter: &[u8]) -> (freq: Vec<u64>)
    requires
        total_skill_occ(view_rows(rows@), filter@) <= u64::MAX,
    ensures
        freq@.len() == id_space(),
        forall|id: u16| #[trigger] freq@[id as int] as nat == skill_occ(
            view_rows(rows@),
            filter@,
            id,
        ),
        sum_nat(freq@) == total_skill_occ(view_rows(rows@), filter@),
{
    let ghost rv = view_rows(rows@);
    let mut freq: Vec<u64> = vec![0u64; 65536];
    proof {
        assert forall|id: u16| #[trigger] freq@[id as int] as nat == skill_occ(
            rv.take(0),
            filter@,
            id,
        ) by {
            assert(rv.take(0) =~= Seq::<RowV>::empty());
        }
        lemma_sum_nat_zero(freq@);
        assert(rv.take(0) =~= Seq::<RowV>::empty());
    }
    let n = rows.len();
    let mut i: usize = 0;
    while i < n
        invariant
            n == rows@.len(),
            rv == view_rows(rows@),
            rv.len() == n,
            total_skill_occ(rv, filter@) <= u64::MAX,
            0 <= i <= n,
            freq@.len() == id_space(),
            forall|id: u16| #[trigger] freq@[id as int] as nat == skill_occ(
                rv.take(i as int),
                filter@,
                id,
            ),
            sum_nat(freq@) == total_skill_occ(rv.take(i as int), filter@),
        decreases n - i,
    {
        proof {
            assert(rv[i as int] == rows@[i as int]@);
            assert(rv.take(i + 1).drop_last() =~= rv.take(i as int));
            assert(rv.take(i + 1).last() == rv[i as int]);
        }
        let inc = row_included(&rows[i], filter);
        if inc {
            let row = &rows[i];
            let ghost skills = row.skills@;
            let m = row.skills.len();
            let mut j: usize = 0;
            proof {
                assert(skills.take(0) =~= Seq::<u16>::empty());
            }
            while j < m
                invariant
                    n == rows@.len(),
                    rv == view_rows(rows@),
                    rv.len() == n,
                    total_skill_occ(rv, filter@) <= u64::MAX,
                    0 <= i < n,
                    row == &rows[i as int],
                    skills == row.skills@,
                    m == skills.len(),
                    included(rv[i as int], filter@),
                    rv[i as int] == rows@[i as int]@,
                    0 <= j <= m,
                    freq@.len() == id_space(),
                    forall|id: u16| #[trigger] freq@[id as int] as nat == skill_occ(
                        rv.take(i as int),
                        filter@,
                        id,
                    ) + count_in(skills.take(j as int), id),
                    sum_nat(freq@) == total_skill_occ(rv.take(i as int), filter@) + j,
                decreases m - j,
            {
                let id = row.skills[j];
                let idx = id as usize;
                proof {
                    lemma_sum_nat_elem(freq@, idx as int);
                    lemma_total_skill_occ_prefix(rv, filter@, i + 1);
                    assert(rv.take(i + 1).drop_last() =~= rv.take(i as int));
                    assert(total_skill_occ(rv.take(i + 1), filter@) == total_skill_occ(
                        rv.take(i as int),
                        filter@,
                    ) + skills.len());
                    assert(freq@[idx as int] < u64::MAX);
                }
                let c = freq[idx];
                let ghost oldfreq = freq@;
                freq[idx] = c + 1;
                proof {
                    lemma_sum_nat_update(oldfreq, idx as int, (c + 1) as u64);
                    assert(skills.take(j + 1).drop_last() =~= skills.take(j as int));
                    assert(skills.take(j + 1).last() == skills[j as int]);
                    assert forall|id2: u16| #[trigger] freq@[id2 as int] as nat == skill_occ(
                        rv.take(i as int),
                        filter@,
                        id2,
                    ) + count_in(skills.take(j + 1), id2) by {
                        if id2 == id {
                            assert(count_in(skills.take(j + 1), id2) == count_in(
                                skills.take(j as int),
                                id2,
                            ) + 1);
                        } else {
                            assert(freq@[id2 as int] == oldfreq[id2 as int]);
                        }
                    }
                }
                j += 1;
            }
            proof {
                assert(skills.take(m as int) =~= skills);
                assert(total_skill_occ(rv.take(i + 1), filter@) == total_skill_occ(
                    rv.take(i as int),
                    filter@,
                ) + skills.len());
                assert forall|id: u16| #[trigger] freq@[id as int] as nat == skill_occ(
                    rv.take(i + 1),
                    filter@,
                    id,
                ) by {
                    assert(skill_occ(rv.take(i + 1), filter@, id) == skill_occ(
                        rv.take(i as int),
                        filter@,
                        id,
                    ) + count_in(skills, id));
                }
            }
        } else {
            proof {
                assert forall|id: u16| #[trigger] freq@[id as int] as nat == skill_occ(
                    rv.take(i + 1),
                    filter@,
                    id,
                ) by {
                    assert(skill_occ(rv.take(i + 1), filter@, id) == skill_occ(
                        rv.take(i as int),
                        filter@,
                        id,
                    ));
                }
                assert(total_skill_occ(rv.take(i + 1), filter@) == total_skill_occ(
                    rv.take(i as int),
                    filter@,
                ));
            }
        }
        i += 1;
    }
    proof {
        assert(rv.take(n as int) =~= rv);
    }
    freq
}

pub proof fn lemma_sum_nat_zero(s: Seq<u64>)
    requires
        forall|i: int| 0 <= i < s.len() ==> s[i] == 0,
    ensures
        sum_nat(s) == 0,
    decreases s.len(),
{
    if s.len() > 0 {
        lemma_sum_nat_zero(s.drop_last());
    }
}

} // verus!

verus! {

use crate::model::TableV;
use crate::resolve::{SetResolver, resolve_spec};
use crate::model::MasterTable;

/// Does the row's armour list contain canonical set `c` (0 dropped,
/// every id resolved)?
pub open spec fn row_has_set(t: TableV, armour: Seq<u16>, c: u16) -> bool {
    exists|j: int| 0 <= j < armour.len() && armour[j] != 0 && resolve_spec(t, armour[j]) == c
}

/// Number of included rows whose armour contains canonical set `c`:
/// one count per loadout, not per slot.
pub open spec fn set_presence(t: TableV, rows: Seq<RowV>, filter: Seq<u8>, c: u16) -> nat
    decreases rows.len(),
{
    if rows.len() == 0 {
        0
    } else {
        set_presence(t, rows.drop_last(), filter, c) + if included(rows.last(), filter)
            && row_has_set(t, rows.last().armour, c) {
            1nat
        } else {
            0nat
        }
    }
}

/// Number of included rows with at least one non-zero armour id.
pub open spec fn rows_with_any_set(rows: Seq<RowV>, filter: Seq<u8>) -> nat
    decreases rows.len(),
{
    if rows.len() == 0 {
        0
    } else {
        rows_with_any_set(rows.drop_last(), filter) + if included(rows.last(), filter) && (exists|
            j: int,
        | 0 <= j < rows.last().armour.len() && rows.last().armour[j] != 0) {
            1nat
        } else {
            0nat
        }
    }
}

/// Number of included rows whose skill list contains `id` (presence,
/// not multiplicity).
pub open spec fn skill_presence(rows: Seq<RowV>, filter: Seq<u8>, id: u16) -> nat
    decreases rows.len(),
{
    if rows.len() == 0 {
        0
    } else {
        skill_presence(rows.drop_last(), filter, id) + if included(rows.last(), filter)
            && rows.last().skills.contains(id) {
            1nat
        } else {
            0nat
        }
    }
}

/// Number of included rows with a non-empty skill list.
pub open spec fn rows_with_any_skill(rows: Seq<RowV>, filter: Seq<u8>) -> nat
    decreases rows.len(),
{
    if rows.len() == 0 {
        0
    } else {
        rows_with_any_skill(rows.drop_last(), filter) + if included(rows.last(), filter)
            && rows.last().skills.len() > 0 {
            1nat
        } else {
            0nat
        }
    }
}

pub proof fn lemma_count_in_le(s: Seq<u16>, id: u16)
    ensures
        count_in(s, id) <= s.len(),
    decreases s.len(),
{
    if s.len() > 0 {
        lemma_count_in_le(s.drop_last(), id);
    }
}

pub proof fn lemma_skill_occ_le_total(rows: Seq<RowV>, filter: Seq<u8>, id: u16)
    ensures
        skill_occ(rows, filter, id) <= total_skill_occ(rows, filter),
    decreases rows.len(),
{
    if rows.len() > 0 {
        lemma_skill_occ_le_total(rows.drop_last(), filter, id);
        lemma_count_in_le(rows.last().skills, id);
    }
}

pub proof fn lemma_set_presence_le(t: TableV, rows: Seq<RowV>, filter: Seq<u8>, c: u16)
    ensures
        set_presence(t, rows, filter, c) <= rows.len(),
    decreases rows.len(),
{
    if rows.len() > 0 {
        lemma_set_presence_le(t, rows.drop_last(), filter, c);
    }
}

pub proof fn lemma_skill_presence_le(rows: Seq<RowV>, filter: Seq<u8>, id: u16)
    ensures
        skill_presence(rows, filter, id) <= rows.len(),
    decreases rows.len(),
{
    if rows.len() > 0 {
        lemma_skill_presence_le(rows.drop_last(), filter, id);
    }
}

/// Set counting: per included row, armour ids are deduplicated after
/// resolution and the 0 sentinel is dropped; each canonical id present in
/// the row counts once. Also reports how many included rows had any item.
pub fn count_set_presence(master: &MasterTable, resolver: &SetResolver, filter: &[u8]) -> (r: (
    Vec<u64>,
    u64,
))
    requires
        master@.wf(),
        resolver.wf(),
        resolver.table@ == master@,
        total_armour_occ(master@.rows, filter@) <= u64::MAX,
    ensures
        r.0@.len() == id_space(),
        forall|c: u16| #[trigger] r.0@[c as int] as nat == set_presence(
            master@,
            master@.rows,
            filter@,
            c,
        ),
        sum_nat(r.0@) <= total_armour_occ(master@.rows, filter@),
        r.1 as nat == rows_with_any_set(master@.rows, filter@),
{
    let ghost t = master@;
    let ghost rv = master@.rows;
    let mut freq: Vec<u64> = vec![0u64; 65536];
    let mut with_any: u64 = 0;
    proof {
        assert(rv.take(0) =~= Seq::<RowV>::empty());
        assert forall|c: u16| #[trigger] freq@[c as int] as nat == set_presence(
            t,
            rv.take(0),
            filter@,
            c,
        ) by {}
        lemma_sum_nat_zero(freq@);
    }
    let n = master.rows.len();
    let mut i: usize = 0;
    while i < n
        invariant
            master@.wf(),
            resolver.wf(),
            resolver.table@ == master@,
            t == master@,
            rv == master@.rows,
            n == master.rows@.len(),
            rv.len() == n,
            total_armour_occ(rv, filter@) <= u64::MAX,
            0 <= i <= n,
            freq@.len() == id_space(),
            forall|c: u16| #[trigger] freq@[c as int] as nat == set_presence(
                t,
                rv.take(i as int),
                filter@,
                c,
            ),
            sum_nat(freq@) <= total_armour_occ(rv.take(i as int), filter@),
            with_any as nat == rows_with_any_set(rv.take(i as int), filter@),
        decreases n - i,
    {
        proof {
            assert(rv[i as int] == master.rows@[i as int]@);
            assert(rv.take(i + 1).drop_last() =~= rv.take(i as int));
            assert(rv.take(i + 1).last() == rv[i as int]);
        }
        let inc = row_included(&master.rows[i], filter);
        if inc {
            let row = &master.rows[i];
            let ghost armour = row.armour@;
            let m = row.armour.len();
            let mut any_item = false;
            let mut j: usize = 0;
            proof {
                assert(armour.take(0) =~= Seq::<u16>::empty());
            }
            while j < m
                invariant
                    master@.wf(),
                    resolver.wf(),
                    resolver.table@ == master@,
                    t == master@,
                    rv == master@.rows,
                    n == master.rows@.len(),
                    rv.len() == n,
                    total_armour_occ(rv, filter@) <= u64::MAX,
                    0 <= i < n,
                    row == &master.rows@[i as int],
                    armour == row.armour@,
                    m == armour.len(),
                    included(rv[i as int], filter@),
                    rv[i as int] == master.rows@[i as int]@,
                    rv[i as int].armour == armour,
                    0 <= j <= m,
                    freq@.len() == id_space(),
                    forall|c: u16| #[trigger] freq@[c as int] as nat == set_presence(
                        t,
                        rv.take(i as int),
                        filter@,
                        c,
                    ) + if row_has_set(t, armour.take(j as int), c) {
                        1nat
                    } else {
                        0nat
                    },
                    sum_nat(freq@) <= total_armour_occ(rv.take(i as int), filter@) + j,
                    any_item == exists|w: int| 0 <= w < j && armour[w] != 0,
                decreases m - j,
            {
                let raw = row.armour[j];
                if raw != 0 {
                    any_item = true;
                    let cid = resolver.resolve(raw);
                    // count only the first armour slot that resolves to cid
                    let mut dup = false;
                    let mut w: usize = 0;
                    while w < j
                        invariant
                            master@.wf(),
                            resolver.wf(),
                            resolver.table@ == master@,
                            t == master@,
                            row == &master.rows@[i as int],
                            armour == row.armour@,
                            m == armour.len(),
                            0 <= j < m,
                            0 <= w <= j,
                            raw == armour[j as int],
                            raw != 0,
                            cid == resolve_spec(t, raw),
                            dup == exists|v: int|
                                0 <= v < w && armour[v] != 0 && resolve_spec(t, armour[v]) == cid,
                        decreases j - w,
                    {
                        let prev = row.armour[w];
                        if prev != 0 {
                            let pc = resolver.resolve(prev);
                            if pc == cid {
                                dup = true;
                            }
                        }
                        w += 1;
                    }
                    if !dup {
                        proof {
                            assert(!row_has_set(t, armour.take(j as int), cid));
                            lemma_sum_nat_elem(freq@, cid as int);
                            lemma_total_armour_occ_prefix(rv, filter@, i + 1);
                            assert(rv.take(i + 1).drop_last() =~= rv.take(i as int));
                            assert(rv.take(i + 1).last() == rv[i as int]);
                            assert(total_armour_occ(rv.take(i + 1), filter@) == total_armour_occ(
                                rv.take(i as int),
                                filter@,
                            ) + armour.len());
                            assert(freq@[cid as int] < u64::MAX);
                        }
                        let c0 = freq[cid as usize];
                        let ghost oldfreq = freq@;
                        freq[cid as usize] = c0 + 1;
                        proof {
                            lemma_sum_nat_update(oldfreq, cid as int, (c0 + 1) as u64);
                            assert forall|c: u16| #[trigger] freq@[c as int] as nat == set_presence(
                                t,
                                rv.take(i as int),
                                filter@,
                                c,
                            ) + if row_has_set(t, armour.take(j + 1), c) {
                                1nat
                            } else {
                                0nat
                            } by {
                                assert(armour.take(j + 1)[j as int] == armour[j as int]);
                                if c == cid {
                                    assert(row_has_set(t, armour.take(j + 1), c));
                                } else {
                                    assert(freq@[c as int] == oldfreq[c as int]);
                                    assert(row_has_set(t, armour.take(j + 1), c) == row_has_set(
                                        t,
                                        armour.take(j as int),
                                        c,
                                    )) by {
                                        if row_has_set(t, armour.take(j + 1), c) {
                                            let v = choose|v: int|
                                                0 <= v < j + 1 && #[trigger] armour.take(j + 1)[v] != 0
                                                    && resolve_spec(t, armour.take(j + 1)[v]) == c;
                                            assert(v < j);
                                            assert(armour.take(j as int)[v] == armour[v]);
                                        } else {
                                            if row_has_set(t, armour.take(j as int), c) {
                                                let v = choose|v: int|
                                                    0 <= v < j && #[trigger] armour.take(j as int)[v] != 0
                                                        && resolve_spec(t, armour.take(j as int)[v])
                                                        == c;
                                                assert(armour.take(j + 1)[v] == armour[v]);
                                            }
                                        }
                                    }
                                }
                            }
                        }
                    } else {
                        proof {
                            let v = choose|v: int|
                                0 <= v < j && armour[v] != 0 && resolve_spec(t, armour[v]) == cid;
                            assert(armour.take(j as int)[v] == armour[v]);
                            assert(row_has_set(t, armour.take(j as int), cid));
                            assert forall|c: u16| #[trigger] freq@[c as int] as nat == set_presence(
                                t,
                                rv.take(i as int),
                                filter@,
                                c,
                            ) + if row_has_set(t, armour.take(j + 1), c) {
                                1nat
                            } else {
                                0nat
                            } by {
                                assert(armour.take(j + 1)[j as int] == armour[j as int]);
                                if row_has_set(t, armour.take(j + 1), c) {
                                    let v = choose|v: int|
                                        0 <= v < j + 1 && #[trigger] armour.take(j + 1)[v] != 0
                                            && resolve_spec(t, armour.take(j + 1)[v]) == c;
                                    if v < j {
                                        assert(armour.take(j as int)[v] == armour[v]);
                                        assert(row_has_set(t, armour.take(j as int), c));
                                    } else {
                                        assert(c == cid);
                                    }
                                } else {
                                    assert(!row_has_set(t, armour.take(j as int), c)) by {
                                        if row_has_set(t, armour.take(j as int), c) {
                                            let v = choose|v: int|
                                                0 <= v < j && #[trigger] armour.take(j as int)[v] != 0
                                                    && resolve_spec(t, armour.take(j as int)[v])
                                                    == c;
                                            assert(armour.take(j + 1)[v] == armour[v]);
                                        }
                                    }
                                }
                            }
                        }
                    }
                } else {
                    proof {
                        assert forall|c: u16| #[trigger] freq@[c as int] as nat == set_presence(
                            t,
                            rv.take(i as int),
                            filter@,
                            c,
                        ) + if row_has_set(t, armour.take(j + 1), c) {
                            1nat
                        } else {
                            0nat
                        } by {
                            assert(armour.take(j + 1)[j as int] == armour[j as int]);
                            if row_has_set(t, armour.take(j + 1), c) {
                                let v = choose|v: int|
                                    0 <= v < j + 1 && #[trigger] armour.take(j + 1)[v] != 0 && resolve_spec(
                                        t,
                                        armour.take(j + 1)[v],
                                    ) == c;
                                assert(v < j);
                                assert(armour.take(j as int)[v] == armour[v]);
                                assert(row_has_set(t, armour.take(j as int), c));
                            } else {
                                if row_has_set(t, armour.take(j as int), c) {
                                    let v = choose|v: int|
                                        0 <= v < j && #[trigger] armour.take(j as int)[v] != 0
                                            && resolve_spec(t, armour.take(j as int)[v]) == c;
                                    assert(armour.take(j + 1)[v] == armour[v]);
                                }
                            }
                        }
                    }
                }
                j += 1;
            }
            proof {
                assert(rv.take(i + 1).drop_last() =~= rv.take(i as int));
                assert(rv.take(i + 1).last() == rv[i as int]);
                assert(armour.take(m as int) =~= armour);
                assert(total_armour_occ(rv.take(i + 1), filter@) == total_armour_occ(
                    rv.take(i as int),
                    filter@,
                ) + armour.len());
                assert forall|c: u16| #[trigger] freq@[c as int] as nat == set_presence(
                    t,
                    rv.take(i + 1),
                    filter@,
                    c,
                ) by {
                    assert(set_presence(t, rv.take(i + 1), filter@, c) == set_presence(
                        t,
                        rv.take(i as int),
                        filter@,
                        c,
                    ) + if row_has_set(t, armour, c) {
                        1nat
                    } else {
                        0nat
                    });
                }
                assert(rows_with_any_set(rv.take(i + 1), filter@) == rows_with_any_set(
                    rv.take(i as int),
                    filter@,
                ) + if (exists|w: int| 0 <= w < armour.len() && armour[w] != 0) {
                    1nat
                } else {
                    0nat
                });
                assert(with_any < u64::MAX) by {
                    lemma_rows_with_any_set_le(rv.take(i as int), filter@);
                }
            }
            if any_item {
                with_any = with_any + 1;
            }
        } else {
            proof {
                assert(rv.take(i + 1).drop_last() =~= rv.take(i as int));
                assert(rv.take(i + 1).last() == rv[i as int]);
                assert forall|c: u16| #[trigger] freq@[c as int] as nat == set_presence(
                    t,
                    rv.take(i + 1),
                    filter@,
                    c,
                ) by {
                    assert(set_presence(t, rv.take(i + 1), filter@, c) == set_presence(
                        t,
                        rv.take(i as int),
                        filter@,
                        c,
                    ));
                }
            }
        }
        i += 1;
    }
    proof {
        assert(rv.take(n as int) =~= rv);
    }
    (freq, with_any)
}

pub proof fn lemma_rows_with_any_set_le(rows: Seq<RowV>, filter: Seq<u8>)
    ensures
        rows_with_any_set(rows, filter) <= rows.len(),
    decreases rows.len(),
{
    if rows.len() > 0 {
        lemma_rows_with_any_set_le(rows.drop_last(), filter);
    }
}

pub proof fn lemma_rows_with_any_skill_le(rows: Seq<RowV>, filter: Seq<u8>)
    ensures
        rows_with_any_skill(rows, filter) <= rows.len(),
    decreases rows.len(),
{
    if rows.len() > 0 {
        lemma_rows_with_any_skill_le(rows.drop_last(), filter);
    }
}

/// Skill presence counting for prevalence: per included row, skill ids
/// are deduplicated; each id present counts once. Also reports how many
/// included rows had a non-empty skill list.
pub fn count_skill_presence(rows: &Vec<TableRow>, filter: &[u8]) -> (r: (Vec<u64>, u64))
    requires
        total_skill_occ(view_rows(rows@), filter@) <= u64::MAX,
    ensures
        r.0@.len() == id_space(),
        forall|id: u16| #[trigger] r.0@[id as int] as nat == skill_presence(
            view_rows(rows@),
            filter@,
            id,
        ),
        sum_nat(r.0@) <= total_skill_occ(view_rows(rows@), filter@),
        r.1 as nat == rows_with_any_skill(view_rows(rows@), filter@),
{
    let ghost rv = view_rows(rows@);
    let mut freq: Vec<u64> = vec![0u64; 65536];
    let mut with_any: u64 = 0;
    proof {
        assert(rv.take(0) =~= Seq::<RowV>::empty());
        lemma_sum_nat_zero(freq@);
    }
    let n = rows.len();
    let mut i: usize = 0;
    while i < n
        invariant
            rv == view_rows(rows@),
            n == rows@.len(),
            rv.len() == n,
            total_skill_occ(rv, filter@) <= u64::MAX,
            0 <= i <= n,
            freq@.len() == id_space(),
            forall|id: u16| #[trigger] freq@[id as int] as nat == skill_presence(
                rv.take(i as int),
                filter@,
                id,
            ),
            sum_nat(freq@) <= total_skill_occ(rv.take(i as int), filter@),
            with_any as nat == rows_with_any_skill(rv.take(i as int), filter@),
        decreases n - i,
    {
        proof {
            assert(rv[i as int] == rows@[i as int]@);
            assert(rv.take(i + 1).drop_last() =~= rv.take(i as int));
            assert(rv.take(i + 1).last() == rv[i as int]);
        }
        let inc = row_included(&rows[i], filter);
        if inc {
            let row = &rows[i];
            let ghost skills = row.skills@;
            let m = row.skills.len();
            let mut j: usize = 0;
            proof {
                assert(skills.take(0) =~= Seq::<u16>::empty());
            }
            while j < m
                invariant
                    rv == view_rows(rows@),
                    n == rows@.len(),
                    rv.len() == n,
                    total_skill_occ(rv, filter@) <= u64::MAX,
                    0 <= i < n,
                    row == &rows@[i as int],
                    skills == row.skills@,
                    m == skills.len(),
                    included(rv[i as int], filter@),
                    rv[i as int] == rows@[i as int]@,
                    rv[i as int].skills == skills,
                    0 <= j <= m,
                    freq@.len() == id_space(),
                    forall|id: u16| #[trigger] freq@[id as int] as nat == skill_presence(
                        rv.take(i as int),
                        filter@,
                        id,
                    ) + if skills.take(j as int).contains(id) {
                        1nat
                    } else {
                        0nat
                    },
                    sum_nat(freq@) <= total_skill_occ(rv.take(i as int), filter@) + j,
                decreases m - j,
            {
                let id = row.skills[j];
                // count only the first occurrence within the row
                let mut dup = false;
                let mut w: usize = 0;
                while w < j
                    invariant
                        skills == row.skills@,
                        m == skills.len(),
                        0 <= j < m,
                        0 <= w <= j,
                        id == skills[j as int],
                        dup == skills.take(w as int).contains(id),
                    decreases j - w,
                {
                    if row.skills[w] == id {
                        proof {
                            assert(skills.take(w + 1)[w as int] == skills[w as int]);
                        }
                        dup = true;
                    }
                    proof {
                        if dup {
                            assert(skills.take(w + 1).contains(id)) by {
                                if skills.take(w as int).contains(id) {
                                    let v = choose|v: int|
                                        0 <= v < w && #[trigger] skills.take(w as int)[v] == id;
                                    assert(skills.take(w + 1)[v] == id);
                                } else {
                                    assert(skills.take(w + 1)[w as int] == id);
                                }
                            }
                        } else {
                            assert(!skills.take(w + 1).contains(id)) by {
                                if skills.take(w + 1).contains(id) {
                                    let v = choose|v: int| 0 <= v < w + 1 && #[trigger] skills.take(w + 1)[v] == id;
                                    if v < w {
                                        assert(skills.take(w as int)[v] == id);
                                    }
                                }
                            }
                        }
                    }
                    w += 1;
                }
                if !dup {
                    proof {
                        assert(!skills.take(j as int).contains(id));
                        lemma_sum_nat_elem(freq@, id as int);
                        lemma_total_skill_occ_prefix(rv, filter@, i + 1);
                        assert(rv.take(i + 1).drop_last() =~= rv.take(i as int));
                        assert(rv.take(i + 1).last() == rv[i as int]);
                        assert(total_skill_occ(rv.take(i + 1), filter@) == total_skill_occ(
                            rv.take(i as int),
                            filter@,
                        ) + skills.len());
                        assert(freq@[id as int] < u64::MAX);
                    }
                    let c0 = freq[id as usize];
                    let ghost oldfreq = freq@;
                    freq[id as usize] = c0 + 1;
                    proof {
                        lemma_sum_nat_update(oldfreq, id as int, (c0 + 1) as u64);
                        assert forall|id2: u16| #[trigger] freq@[id2 as int] as nat
                            == skill_presence(rv.take(i as int), filter@, id2) + if skills.take(
                            j + 1,
                        ).contains(id2) {
                            1nat
                        } else {
                            0nat
                        } by {
                            assert(skills.take(j + 1)[j as int] == skills[j as int]);
                            if id2 == id {
                                assert(skills.take(j + 1).contains(id2));
                            } else {
                                assert(freq@[id2 as int] == oldfreq[id2 as int]);
                                assert(skills.take(j + 1).contains(id2) == skills.take(
                                    j as int,
                                ).contains(id2)) by {
                                    if skills.take(j + 1).contains(id2) {
                                        let v = choose|v: int|
                                            0 <= v < j + 1 && #[trigger] skills.take(j + 1)[v] == id2;
                                        assert(v < j);
                                        assert(skills.take(j as int)[v] == id2);
                                    } else {
                                        if skills.take(j as int).contains(id2) {
                                            let v = choose|v: int|
                                                0 <= v < j && #[trigger] skills.take(j as int)[v] == id2;
                                            assert(skills.take(j + 1)[v] == id2);
                                        }
                                    }
                                }
                            }
                        }
                    }
                } else {
                    proof {
                        assert forall|id2: u16| #[trigger] freq@[id2 as int] as nat
                            == skill_presence(rv.take(i as int), filter@, id2) + if skills.take(
                            j + 1,
                        ).contains(id2) {
                            1nat
                        } else {
                            0nat
                        } by {
                            assert(skills.take(j + 1)[j as int] == skills[j as int]);
                            if skills.take(j + 1).contains(id2) {
                                let v = choose|v: int|
                                    0 <= v < j + 1 && #[trigger] skills.take(j + 1)[v] == id2;
                                if v < j {
                                    assert(skills.take(j as int)[v] == id2);
                                } else {
                                    assert(id2 == id);
                                    assert(skills.take(j as int).contains(id2));
                                }
                            } else {
                                if skills.take(j as int).contains(id2) {
                                    let v = choose|v: int|
                                        0 <= v < j && #[trigger] skills.take(j as int)[v] == id2;
                                    assert(skills.take(j + 1)[v] == id2);
                                }
                            }
                        }
                    }
                }
                j += 1;
            }
            proof {
                assert(rv.take(i + 1).drop_last() =~= rv.take(i as int));
                assert(rv.take(i + 1).last() == rv[i as int]);
                assert(skills.take(m as int) =~= skills);
                assert forall|id: u16| #[trigger] freq@[id as int] as nat == skill_presence(
                    rv.take(i + 1),
                    filter@,
                    id,
                ) by {
                    assert(skill_presence(rv.take(i + 1), filter@, id) == skill_presence(
                        rv.take(i as int),
                        filter@,
                        id,
                    ) + if skills.contains(id) {
                        1nat
                    } else {
                        0nat
                    });
                }
                assert(rows_with_any_skill(rv.take(i + 1), filter@) == rows_with_any_skill(
                    rv.take(i as int),
                    filter@,
                ) + if skills.len() > 0 {
                    1nat
                } else {
                    0nat
                });
                assert(with_any < u64::MAX) by {
                    lemma_rows_with_any_skill_le(rv.take(i as int), filter@);
                }
            }
            if m > 0 {
                with_any = with_any + 1;
            }
        } else {
            proof {
                assert(rv.take(i + 1).drop_last() =~= rv.take(i as int));
                assert(rv.take(i + 1).last() == rv[i as int]);
                assert forall|id: u16| #[trigger] freq@[id as int] as nat == skill_presence(
                    rv.take(i + 1),
                    filter@,
                    id,
                ) by {
                    assert(skill_presence(rv.take(i + 1), filter@, id) == skill_presence(
                        rv.take(i as int),
                        filter@,
                        id,
                    ));
                }
            }
        }
        i += 1;
    }
    proof {
        assert(rv.take(n as int) =~= rv);
    }
    (freq, with_any)
}

} // verus!
