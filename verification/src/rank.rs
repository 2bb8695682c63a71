//! Player ranking: average-rank ordering with an eligibility floor, and
//! top-K-count ordering with tie-break refinement at the cutoff boundary.

use vstd::prelude::*;
use crate::model::{MasterTable, TableV, Player, PlayerV, RowV, included, row_included};
use crate::order::{leq_total, leq_trans, sort_by_spec, insert_by, insert_pos,
    lemma_insert_by_decompose};

verus! {

/// Sum of leaderboard positions over the included rows of one player.
pub open spec fn rank_sum(rows: Seq<RowV>, filter: Seq<u8>, pid: u32) -> nat
    decreases rows.len(),
{
    if rows.len() == 0 {
        0
    } else {
        rank_sum(rows.drop_last(), filter, pid) + if included(rows.last(), filter)
            && rows.last().player_id == pid {
            rows.last().ranking as nat
        } else {
            0nat
        }
    }
}

/// Number of included rows of one player.
pub open spec fn row_count(rows: Seq<RowV>, filter: Seq<u8>, pid: u32) -> nat
    decreases rows.len(),
{
    if rows.len() == 0 {
        0
    } else {
        row_count(rows.drop_last(), filter, pid) + if included(rows.last(), filter)
            && rows.last().player_id == pid {
            1nat
        } else {
            0nat
        }
    }
}

/// Number of included rows of one player whose ranking is at most `k`.
pub open spec fn count_at(rows: Seq<RowV>, filter: Seq<u8>, pid: u32, k: u32) -> nat
    decreases rows.len(),
{
    if rows.len() == 0 {
        0
    } else {
        count_at(rows.drop_last(), filter, pid, k) + if included(rows.last(), filter)
            && rows.last().player_id == pid && rows.last().ranking as u32 <= k {
            1nat
        } else {
            0nat
        }
    }
}

/// For a fixed player and filter, the top-K count is non-decreasing in K.
pub proof fn lemma_count_at_monotone(rows: Seq<RowV>, filter: Seq<u8>, pid: u32, k1: u32, k2: u32)
    requires
        k1 <= k2,
    ensures
        count_at(rows, filter, pid, k1) <= count_at(rows, filter, pid, k2),
    decreases rows.len(),
{
    if rows.len() > 0 {
        lemma_count_at_monotone(rows.drop_last(), filter, pid, k1, k2);
    }
}

pub proof fn lemma_row_count_le(rows: Seq<RowV>, filter: Seq<u8>, pid: u32)
    ensures
        row_count(rows, filter, pid) <= rows.len(),
        count_at(rows, filter, pid, 0) <= row_count(rows, filter, pid),
        rank_sum(rows, filter, pid) <= 255 * row_count(rows, filter, pid),
    decreases rows.len(),
{
    if rows.len() > 0 {
        lemma_row_count_le(rows.drop_last(), filter, pid);
    }
}

pub proof fn lemma_count_at_le_row_count(rows: Seq<RowV>, filter: Seq<u8>, pid: u32, k: u32)
    ensures
        count_at(rows, filter, pid, k) <= row_count(rows, filter, pid),
    decreases rows.len(),
{
    if rows.len() > 0 {
        lemma_count_at_le_row_count(rows.drop_last(), filter, pid, k);
    }
}

#[derive(Clone, Copy, PartialEq, Eq, Structural)]
pub struct ARElem {
    pub sum: u64,
    pub cnt: u64,
    pub pid: u32,
}

/// Average-rank order: smaller `sum / cnt` first, compared exactly by
/// cross-multiplication; ties by ascending player id. Elements without
/// rows sort first, so the relation is total and transitive everywhere.
pub open spec fn ar_leq(a: ARElem, b: ARElem) -> bool {
    if a.cnt == 0 && b.cnt == 0 {
        a.pid <= b.pid
    } else if a.cnt == 0 {
        true
    } else if b.cnt == 0 {
        false
    } else {
        a.sum * b.cnt < b.sum * a.cnt || (a.sum * b.cnt == b.sum * a.cnt && a.pid <= b.pid)
    }
}

pub open spec fn ar_leq_f() -> spec_fn(ARElem, ARElem) -> bool {
    |a: ARElem, b: ARElem| ar_leq(a, b)
}

proof fn lemma_cross_trans(s1: int, c1: int, s2: int, c2: int, s3: int, c3: int)
    requires
        c1 >= 0,
        c2 > 0,
        c3 >= 0,
        s1 * c2 <= s2 * c1,
        s2 * c3 <= s3 * c2,
    ensures
        s1 * c3 <= s3 * c1,
        (s1 * c2 < s2 * c1 && c3 > 0) ==> s1 * c3 < s3 * c1,
        (s2 * c3 < s3 * c2 && c1 > 0) ==> s1 * c3 < s3 * c1,
{
    assert((s1 * c2) * c3 <= (s2 * c1) * c3) by (nonlinear_arith)
        requires
            s1 * c2 <= s2 * c1,
            c3 >= 0,
    ;
    assert((s2 * c3) * c1 <= (s3 * c2) * c1) by (nonlinear_arith)
        requires
            s2 * c3 <= s3 * c2,
            c1 >= 0,
    ;
    assert((s2 * c1) * c3 == (s2 * c3) * c1) by (nonlinear_arith);
    assert((s1 * c3) * c2 == (s1 * c2) * c3) by (nonlinear_arith);
    assert((s3 * c1) * c2 == (s3 * c2) * c1) by (nonlinear_arith);
    assert(s1 * c3 <= s3 * c1) by (nonlinear_arith)
        requires
            (s1 * c3) * c2 <= (s3 * c1) * c2,
            c2 > 0,
    ;
    if s1 * c2 < s2 * c1 && c3 > 0 {
        assert((s1 * c2) * c3 < (s2 * c1) * c3) by (nonlinear_arith)
            requires
                s1 * c2 < s2 * c1,
                c3 > 0,
        ;
        assert(s1 * c3 < s3 * c1) by (nonlinear_arith)
            requires
                (s1 * c3) * c2 < (s3 * c1) * c2,
                c2 > 0,
        ;
    }
    if s2 * c3 < s3 * c2 && c1 > 0 {
        assert((s2 * c3) * c1 < (s3 * c2) * c1) by (nonlinear_arith)
            requires
                s2 * c3 < s3 * c2,
                c1 > 0,
        ;
        assert(s1 * c3 < s3 * c1) by (nonlinear_arith)
            requires
                (s1 * c3) * c2 < (s3 * c1) * c2,
                c2 > 0,
        ;
    }
}

pub proof fn lemma_ar_leq_properties()
    ensures
        leq_total(ar_leq_f()),
        leq_trans(ar_leq_f()),
{
    assert forall|a: ARElem, b: ARElem| #[trigger] ar_leq(a, b) || #[trigger] ar_leq(b, a) by {}
    assert forall|a: ARElem, b: ARElem, c: ARElem|
        #[trigger] ar_leq(a, b) && #[trigger] ar_leq(b, c) implies ar_leq(a, c) by {
        if a.cnt > 0 && b.cnt > 0 && c.cnt > 0 {
            lemma_cross_trans(
                a.sum as int,
                a.cnt as int,
                b.sum as int,
                b.cnt as int,
                c.sum as int,
                c.cnt as int,
            );
        }
    }
    assert forall|a: ARElem, b: ARElem| #[trigger]
        ar_leq_f()(a, b) == ar_leq(a, b) by {}
}

fn ar_leq_exec(a: &ARElem, b: &ARElem) -> (r: bool)
    ensures
        r == ar_leq(*a, *b),
{
    if a.cnt == 0 && b.cnt == 0 {
        a.pid <= b.pid
    } else if a.cnt == 0 {
        true
    } else if b.cnt == 0 {
        false
    } else {
        proof {
            assert((a.sum as int) * (b.cnt as int) <= u128::MAX) by (nonlinear_arith)
                requires
                    a.sum <= u64::MAX,
                    b.cnt <= u64::MAX,
            ;
            assert((b.sum as int) * (a.cnt as int) <= u128::MAX) by (nonlinear_arith)
                requires
                    b.sum <= u64::MAX,
                    a.cnt <= u64::MAX,
            ;
        }
        let x = (a.sum as u128) * (b.cnt as u128);
        let y = (b.sum as u128) * (a.cnt as u128);
        x < y || (x == y && a.pid <= b.pid)
    }
}

fn insert_ar(v: &mut Vec<ARElem>, x: ARElem)
    ensures
        final(v)@ == insert_by(x, old(v)@, ar_leq_f()),
{
    proof {
        lemma_insert_by_decompose(x, v@, ar_leq_f());
    }
    let ghost p = insert_pos(x, v@, ar_leq_f());
    let mut j: usize = 0;
    while j < v.len() && !ar_leq_exec(&x, &v[j])
        invariant
            0 <= j <= v@.len(),
            forall|m: int| 0 <= m < j ==> !ar_leq(x, v@[m]),
        decreases v@.len() - j,
    {
        j += 1;
    }
    proof {
        if j < v@.len() {
            assert(ar_leq(x, v@[j as int]));
        }
        assert(j == p) by {
            if j < p {
                assert(!ar_leq(x, v@[j as int]));
            }
            if p < j {
                assert(!ar_leq(x, v@[p as int]));
                assert(p < v@.len() ==> ar_leq(x, v@[p as int]));
            }
        }
    }
    v.insert(j, x);
    proof {
        assert(v@ =~= old(v)@.take(p) + seq![x] + old(v)@.skip(p));
    }
}

fn sort_ar(v: &Vec<ARElem>) -> (r: Vec<ARElem>)
    ensures
        r@ == sort_by_spec(v@, ar_leq_f()),
{
    let mut out: Vec<ARElem> = Vec::new();
    let mut i: usize = 0;
    while i < v.len()
        invariant
            0 <= i <= v@.len(),
            out@ == sort_by_spec(v@.take(i as int), ar_leq_f()),
        decreases v@.len() - i,
    {
        insert_ar(&mut out, v[i]);
        proof {
            assert(v@.take(i + 1).drop_last() =~= v@.take(i as int));
            assert(v@.take(i + 1).last() == v@[i as int]);
        }
        i += 1;
    }
    proof {
        assert(v@.take(v@.len() as int) =~= v@);
    }
    out
}

/// A player is ranked by average only with at least 20 included rows and
/// a non-empty name.
pub open spec fn avg_eligible(t: TableV, filter: Seq<u8>, pid: int) -> bool {
    &&& 1 <= pid <= t.players.len()
    &&& row_count(t.rows, filter, pid as u32) >= 20
    &&& t.players[pid - 1].name.len() > 0
}

pub open spec fn ar_elem(t: TableV, filter: Seq<u8>, pid: int) -> ARElem {
    ARElem {
        sum: rank_sum(t.rows, filter, pid as u32) as u64,
        cnt: row_count(t.rows, filter, pid as u32) as u64,
        pid: pid as u32,
    }
}

/// The eligible players with ids up to `up_to`, in ascending id order.
pub open spec fn avg_candidates(t: TableV, filter: Seq<u8>, up_to: int) -> Seq<ARElem>
    decreases up_to,
{
    if up_to <= 0 {
        Seq::empty()
    } else {
        let prev = avg_candidates(t, filter, up_to - 1);
        if avg_eligible(t, filter, up_to) {
            prev.push(ar_elem(t, filter, up_to))
        } else {
            prev
        }
    }
}

pub proof fn lemma_avg_candidates_pids(t: TableV, filter: Seq<u8>, up_to: int)
    requires
        up_to <= t.players.len(),
        t.players.len() <= 0xFFFF_FFFF,
        t.rows.len() <= u64::MAX,
    ensures
        forall|m: int|
            0 <= m < avg_candidates(t, filter, up_to).len() ==> 1 <= (#[trigger] avg_candidates(
                t,
                filter,
                up_to,
            )[m]).pid <= up_to,
        forall|m: int|
            0 <= m < avg_candidates(t, filter, up_to).len() ==> (#[trigger] avg_candidates(
                t,
                filter,
                up_to,
            )[m]).cnt >= 20,
    decreases up_to,
{
    if up_to > 0 {
        lemma_avg_candidates_pids(t, filter, up_to - 1);
        let prev = avg_candidates(t, filter, up_to - 1);
        let cur = avg_candidates(t, filter, up_to);
        assert forall|m: int|
            0 <= m < cur.len() implies 1 <= (#[trigger] cur[m]).pid <= up_to && cur[m].cnt
            >= 20 by {
            if avg_eligible(t, filter, up_to) {
                if m < cur.len() - 1 {
                    assert(cur[m] == prev[m]);
                } else {
                    assert(cur[m] == ar_elem(t, filter, up_to));
                    lemma_row_count_le(t.rows, filter, up_to as u32);
                }
            } else {
                assert(cur[m] == prev[m]);
            }
        }
    }
}

/// One row of the average-rank leaderboard: the player's exact rank sum
/// and row count (the average is their quotient) and the player's name.
pub struct AvgRankEntry {
    pub rank_sum: u64,
    pub row_count: u64,
    pub name: String,
}

#[verifier::ext_equal]
pub ghost struct AvgRankV {
    pub rank_sum: u64,
    pub row_count: u64,
    pub name: Seq<char>,
}

impl View for AvgRankEntry {
    type V = AvgRankV;

    open spec fn view(&self) -> AvgRankV {
        AvgRankV { rank_sum: self.rank_sum, row_count: self.row_count, name: self.name@ }
    }
}

pub open spec fn view_avg(s: Seq<AvgRankEntry>) -> Seq<AvgRankV> {
    s.map_values(|e: AvgRankEntry| e@)
}

/// The first `n` of the eligible players sorted by ascending average
/// rank, ties by ascending id.
pub open spec fn avg_rank_spec(t: TableV, filter: Seq<u8>, n: int) -> Seq<AvgRankV> {
    let sorted = sort_by_spec(avg_candidates(t, filter, t.players.len() as int), ar_leq_f());
    let kept = if sorted.len() <= n {
        sorted.len() as int
    } else {
        n
    };
    Seq::new(
        kept as nat,
        |i: int|
            AvgRankV {
                rank_sum: sorted[i].sum,
                row_count: sorted[i].cnt,
                name: t.players[sorted[i].pid - 1].name,
            },
    )
}

/// Per-player accumulators over included rows: rank sums, row counts,
/// top-K counts and top-(K-1) counts, indexed by player id.
fn accumulate(master: &MasterTable, filter: &[u8], k: u32) -> (r: (Vec<u64>, Vec<u64>, Vec<u64>, Vec<u64>))
    requires
        master@.wf(),
        master@.rows.len() * 255 <= u64::MAX,
    ensures
        r.0@.len() == master@.players.len(),
        r.1@.len() == master@.players.len(),
        r.2@.len() == master@.players.len(),
        r.3@.len() == master@.players.len(),
        forall|p: int|
            1 <= p <= master@.players.len() ==> #[trigger] r.0@[p - 1] as nat == rank_sum(
                master@.rows,
                filter@,
                p as u32,
            ),
        forall|p: int|
            1 <= p <= master@.players.len() ==> #[trigger] r.1@[p - 1] as nat == row_count(
                master@.rows,
                filter@,
                p as u32,
            ),
        forall|p: int|
            1 <= p <= master@.players.len() ==> #[trigger] r.2@[p - 1] as nat == count_at(
                master@.rows,
                filter@,
                p as u32,
                k,
            ),
        forall|p: int|
            1 <= p <= master@.players.len() ==> #[trigger] r.3@[p - 1] as nat == count_at(
                master@.rows,
                filter@,
                p as u32,
                if k >= 1 {
                    (k - 1) as u32
                } else {
                    0u32
                },
            ),
{
    let ghost rv = master@.rows;
    let plen = master.players.len();
    let mut sums: Vec<u64> = vec![0u64; plen];
    let mut cnts: Vec<u64> = vec![0u64; plen];
    let mut cks: Vec<u64> = vec![0u64; plen];
    let mut ckm1s: Vec<u64> = vec![0u64; plen];
    let km1: u32 = if k >= 1 {
        k - 1
    } else {
        0
    };
    proof {
        assert(rv.take(0) =~= Seq::<RowV>::empty());
    }
    let n = master.rows.len();
    let mut i: usize = 0;
    while i < n
        invariant
            master@.wf(),
            rv == master@.rows,
            n == master.rows@.len(),
            rv.len() == n,
            n * 255 <= u64::MAX,
            plen == master@.players.len(),
            km1 == if k >= 1 {
                (k - 1) as u32
            } else {
                0u32
            },
            0 <= i <= n,
            sums@.len() == plen,
            cnts@.len() == plen,
            cks@.len() == plen,
            ckm1s@.len() == plen,
            forall|p: int|
                1 <= p <= plen ==> #[trigger] sums@[p - 1] as nat == rank_sum(
                    rv.take(i as int),
                    filter@,
                    p as u32,
                ),
            forall|p: int|
                1 <= p <= plen ==> #[trigger] cnts@[p - 1] as nat == row_count(
                    rv.take(i as int),
                    filter@,
                    p as u32,
                ),
            forall|p: int|
                1 <= p <= plen ==> #[trigger] cks@[p - 1] as nat == count_at(
                    rv.take(i as int),
                    filter@,
                    p as u32,
                    k,
                ),
            forall|p: int|
                1 <= p <= plen ==> #[trigger] ckm1s@[p - 1] as nat == count_at(
                    rv.take(i as int),
                    filter@,
                    p as u32,
                    km1,
                ),
        decreases n - i,
    {
        proof {
            assert(rv[i as int] == master.rows@[i as int]@);
            assert(rv.take(i + 1).drop_last() =~= rv.take(i as int));
            assert(rv.take(i + 1).last() == rv[i as int]);
        }
        let row = &master.rows[i];
        let inc = row_included(row, filter);
        let pid = row.player_id;
        if inc && pid >= 1 && (pid as usize) <= plen {
            let pi = pid as usize;
            proof {
                let p = pi as int;
                lemma_row_count_le(rv.take(i as int), filter@, pid);
                assert(row_count(rv.take(i as int), filter@, pid) <= i);
                lemma_count_at_le_row_count(rv.take(i as int), filter@, pid, k);
                lemma_count_at_le_row_count(rv.take(i as int), filter@, pid, km1);
                assert(rank_sum(rv.take(i as int), filter@, pid) <= 255 * i);
                assert(255 * i + 255 <= 255 * n) by (nonlinear_arith)
                    requires
                        i < n,
                ;
                assert(n * 255 <= u64::MAX);
                assert(255 * n == n * 255);
            }
            let s0 = sums[pi - 1];
            sums[pi - 1] = s0 + (row.ranking as u64);
            let c0 = cnts[pi - 1];
            cnts[pi - 1] = c0 + 1;
            if (row.ranking as u32) <= k {
                let k0 = cks[pi - 1];
                cks[pi - 1] = k0 + 1;
            }
            if (row.ranking as u32) <= km1 {
                let m0 = ckm1s[pi - 1];
                ckm1s[pi - 1] = m0 + 1;
            }
            proof {
                assert forall|p: int|
                    1 <= p <= plen implies #[trigger] sums@[p - 1] as nat == rank_sum(
                    rv.take(i + 1),
                    filter@,
                    p as u32,
                ) && cnts@[p - 1] as nat == row_count(rv.take(i + 1), filter@, p as u32)
                    && cks@[p - 1] as nat == count_at(rv.take(i + 1), filter@, p as u32, k)
                    && ckm1s@[p - 1] as nat == count_at(rv.take(i + 1), filter@, p as u32, km1) by {
                    if p != pi as int {
                        assert(rv[i as int].player_id != p as u32);
                    }
                }
            }
        } else {
            proof {
                assert forall|p: int|
                    1 <= p <= plen implies #[trigger] sums@[p - 1] as nat == rank_sum(
                    rv.take(i + 1),
                    filter@,
                    p as u32,
                ) && cnts@[p - 1] as nat == row_count(rv.take(i + 1), filter@, p as u32)
                    && cks@[p - 1] as nat == count_at(rv.take(i + 1), filter@, p as u32, k)
                    && ckm1s@[p - 1] as nat == count_at(rv.take(i + 1), filter@, p as u32, km1) by {
                    if included(rv[i as int], filter@) {
                        assert(rv[i as int].player_id != p as u32);
                    }
                }
            }
        }
        i += 1;
    }
    proof {
        assert(rv.take(n as int) =~= rv);
    }
    (sums, cnts, cks, ckm1s)
}

/// Average-rank leaderboard. Only players with at least 20 included rows
/// and a non-empty, resolvable name are ranked; the order is ascending by
/// exact average `rank_sum / row_count` (compared by cross-multiplication,
/// with no rounding), ties by ascending player id; the first `n` are
/// returned. Rows whose player id is not in the table are ignored. The
/// precondition only asks that the sum of leaderboard positions fit in 64
/// bits, which any in-memory table meets.
pub fn top_n_players_by_average_rank(master: &MasterTable, partition_filter: &[u8], n: usize) -> (r:
    Vec<AvgRankEntry>)
    requires
        master@.wf(),
        master@.rows.len() * 255 <= u64::MAX,
    ensures
        view_avg(r@) == avg_rank_spec(master@, partition_filter@, n as int),
        r@.len() <= n,
        forall|i: int| 0 <= i < r@.len() ==> (#[trigger] r@[i]).row_count >= 20,
        forall|i: int, j: int|
            0 <= i <= j < r@.len() ==> (#[trigger] r@[i]).rank_sum * (#[trigger] r@[j]).row_count
                <= r@[j].rank_sum * r@[i].row_count,
{
    let ghost t = master@;
    let acc = accumulate(master, partition_filter, 1);
    let sums = acc.0;
    let cnts = acc.1;
    let plen = master.players.len();
    let mut cands: Vec<ARElem> = Vec::new();
    let mut idx: usize = 0;
    proof {
        assert(cands@ =~= avg_candidates(t, partition_filter@, 0));
    }
    while idx < plen
        invariant
            master@.wf(),
            t == master@,
            plen == master@.players.len(),
            sums@.len() == plen,
            cnts@.len() == plen,
            forall|p: int|
                1 <= p <= plen ==> #[trigger] sums@[p - 1] as nat == rank_sum(
                    t.rows,
                    partition_filter@,
                    p as u32,
                ),
            forall|p: int|
                1 <= p <= plen ==> #[trigger] cnts@[p - 1] as nat == row_count(
                    t.rows,
                    partition_filter@,
                    p as u32,
                ),
            0 <= idx <= plen,
            cands@ == avg_candidates(t, partition_filter@, idx as int),
        decreases plen - idx,
    {
        let eligible = cnts[idx] >= 20 && !master.players[idx].name.as_str().is_empty();
        proof {
            assert(t.players[idx as int] == master.players@[idx as int]@);
            assert(eligible == avg_eligible(t, partition_filter@, idx + 1));
        }
        if eligible {
            let e = ARElem { sum: sums[idx], cnt: cnts[idx], pid: (idx + 1) as u32 };
            proof {
                assert(e == ar_elem(t, partition_filter@, idx + 1));
            }
            cands.push(e);
        }
        idx += 1;
    }
    let sorted = sort_ar(&cands);
    proof {
        lemma_avg_candidates_pids(t, partition_filter@, plen as int);
        crate::order::lemma_sort_by_spec_membership(
            avg_candidates(t, partition_filter@, plen as int),
            ar_leq_f(),
        );
        assert forall|m: int|
            0 <= m < sorted@.len() implies 1 <= (#[trigger] sorted@[m]).pid
            <= master@.players.len() by {
            let cs = avg_candidates(t, partition_filter@, plen as int);
            assert(cs.contains(sorted@[m]));
            let w = choose|w: int| 0 <= w < cs.len() && cs[w] == sorted@[m];
            assert(1 <= cs[w].pid <= plen);
        }
    }
    let kept = if sorted.len() <= n {
        sorted.len()
    } else {
        n
    };
    let mut out: Vec<AvgRankEntry> = Vec::new();
    let mut i: usize = 0;
    while i < kept
        invariant
            master@.wf(),
            t == master@,
            sorted@ == sort_by_spec(
                avg_candidates(t, partition_filter@, t.players.len() as int),
                ar_leq_f(),
            ),
            forall|m: int|
                0 <= m < sorted@.len() ==> 1 <= (#[trigger] sorted@[m]).pid
                    <= master@.players.len(),
            kept <= sorted@.len(),
            kept == (if sorted@.len() <= n as int {
                sorted@.len() as int
            } else {
                n as int
            }),
            0 <= i <= kept,
            out@.len() == i,
            forall|m: int|
                0 <= m < i ==> {
                    let e = #[trigger] out@[m];
                    &&& e.rank_sum == sorted@[m].sum
                    &&& e.row_count == sorted@[m].cnt
                    &&& e.name@ == t.players[sorted@[m].pid - 1].name
                },
        decreases kept - i,
    {
        let e = sorted[i];
        proof {
            assert(1 <= e.pid <= master@.players.len());
            assert(t.players[e.pid - 1] == master.players@[e.pid - 1]@);
        }
        let name = crate::model::clone_string(&master.players[(e.pid as usize) - 1].name);
        out.push(AvgRankEntry { rank_sum: e.sum, row_count: e.cnt, name });
        i += 1;
    }
    proof {
        assert(view_avg(out@) =~= avg_rank_spec(t, partition_filter@, n as int));
        lemma_ar_leq_properties();
        crate::order::lemma_sort_by_spec_ordered(
            avg_candidates(t, partition_filter@, plen as int),
            ar_leq_f(),
        );
        assert forall|i2: int| 0 <= i2 < out@.len() implies (#[trigger] out@[i2]).row_count
            >= 20 by {
            let cs = avg_candidates(t, partition_filter@, plen as int);
            assert(cs.contains(sorted@[i2]));
            let w = choose|w: int| 0 <= w < cs.len() && cs[w] == sorted@[i2];
        }
        assert forall|i2: int, j2: int|
            0 <= i2 <= j2 < out@.len() implies (#[trigger] out@[i2]).rank_sum * (
        #[trigger] out@[j2]).row_count <= out@[j2].rank_sum * out@[i2].row_count by {
            assert(ar_leq_f()(sorted@[i2], sorted@[j2]));
            assert(ar_leq(sorted@[i2], sorted@[j2]));
            assert(sorted@[i2].cnt >= 20 && sorted@[j2].cnt >= 20) by {
                let cs = avg_candidates(t, partition_filter@, plen as int);
                assert(cs.contains(sorted@[i2]));
                assert(cs.contains(sorted@[j2]));
                let wi = choose|w: int| 0 <= w < cs.len() && cs[w] == sorted@[i2];
                let wj = choose|w: int| 0 <= w < cs.len() && cs[w] == sorted@[j2];
            }
        }
    }
    out
}

#[derive(Clone, Copy, PartialEq, Eq, Structural)]
pub struct TopKElem {
    pub pid: u32,
    pub ck: u64,
    pub ckm1: u64,
    pub total: u64,
}

/// Top-K order, descending priority: top-K count, then top-(K-1) count
/// within the boundary group, then total rows, then ascending player id.
pub open spec fn tk_leq(a: TopKElem, b: TopKElem) -> bool {
    ||| a.ck > b.ck
    ||| (a.ck == b.ck && a.ckm1 > b.ckm1)
    ||| (a.ck == b.ck && a.ckm1 == b.ckm1 && a.total > b.total)
    ||| (a.ck == b.ck && a.ckm1 == b.ckm1 && a.total == b.total && a.pid <= b.pid)
}

pub open spec fn tk_leq_f() -> spec_fn(TopKElem, TopKElem) -> bool {
    |a: TopKElem, b: TopKElem| tk_leq(a, b)
}

pub proof fn lemma_tk_leq_properties()
    ensures
        leq_total(tk_leq_f()),
        leq_trans(tk_leq_f()),
{
    assert forall|a: TopKElem, b: TopKElem| #[trigger]
        tk_leq_f()(a, b) == tk_leq(a, b) by {}
}

fn tk_leq_exec(a: &TopKElem, b: &TopKElem) -> (r: bool)
    ensures
        r == tk_leq(*a, *b),
{
    a.ck > b.ck || (a.ck == b.ck && (a.ckm1 > b.ckm1 || (a.ckm1 == b.ckm1 && (a.total > b.total
        || (a.total == b.total && a.pid <= b.pid)))))
}

fn insert_tk(v: &mut Vec<TopKElem>, x: TopKElem)
    ensures
        final(v)@ == insert_by(x, old(v)@, tk_leq_f()),
{
    proof {
        lemma_insert_by_decompose(x, v@, tk_leq_f());
    }
    let ghost p = insert_pos(x, v@, tk_leq_f());
    let mut j: usize = 0;
    while j < v.len() && !tk_leq_exec(&x, &v[j])
        invariant
            0 <= j <= v@.len(),
            forall|m: int| 0 <= m < j ==> !tk_leq(x, v@[m]),
        decreases v@.len() - j,
    {
        j += 1;
    }
    proof {
        if j < v@.len() {
            assert(tk_leq(x, v@[j as int]));
        }
        assert(j == p) by {
            if j < p {
                assert(!tk_leq(x, v@[j as int]));
            }
            if p < j {
                assert(!tk_leq(x, v@[p as int]));
                assert(p < v@.len() ==> tk_leq(x, v@[p as int]));
            }
        }
    }
    v.insert(j, x);
    proof {
        assert(v@ =~= old(v)@.take(p) + seq![x] + old(v)@.skip(p));
    }
}

fn sort_tk(v: &Vec<TopKElem>) -> (r: Vec<TopKElem>)
    ensures
        r@ == sort_by_spec(v@, tk_leq_f()),
{
    let mut out: Vec<TopKElem> = Vec::new();
    let mut i: usize = 0;
    while i < v.len()
        invariant
            0 <= i <= v@.len(),
            out@ == sort_by_spec(v@.take(i as int), tk_leq_f()),
        decreases v@.len() - i,
    {
        insert_tk(&mut out, v[i]);
        proof {
            assert(v@.take(i + 1).drop_last() =~= v@.take(i as int));
            assert(v@.take(i + 1).last() == v@[i as int]);
        }
        i += 1;
    }
    proof {
        assert(v@.take(v@.len() as int) =~= v@);
    }
    out
}

/// The effective top-(K-1) tie-break count of a candidate: counted only
/// inside the boundary group (top-K count equal to the cutoff) and only
/// when a stricter tier exists (k >= 2); 0 otherwise.
pub open spec fn tk_ckm1(t: TableV, filter: Seq<u8>, k: u32, cutoff: u64, pid: int) -> u64 {
    if count_at(t.rows, filter, pid as u32, k) as u64 == cutoff && k >= 2 {
        count_at(t.rows, filter, pid as u32, (k - 1) as u32) as u64
    } else {
        0u64
    }
}

pub open spec fn tk_elem(t: TableV, filter: Seq<u8>, k: u32, cutoff: u64, pid: int) -> TopKElem {
    TopKElem {
        pid: pid as u32,
        ck: count_at(t.rows, filter, pid as u32, k) as u64,
        ckm1: tk_ckm1(t, filter, k, cutoff, pid),
        total: row_count(t.rows, filter, pid as u32) as u64,
    }
}

/// The candidates (players with a positive top-K count) with ids up to
/// `up_to`, ascending by id, carrying the boundary tie-break computed
/// against `cutoff`.
pub open spec fn tk_candidates(t: TableV, filter: Seq<u8>, k: u32, cutoff: u64, up_to: int) -> Seq<
    TopKElem,
>
    decreases up_to,
{
    if up_to <= 0 {
        Seq::empty()
    } else {
        let prev = tk_candidates(t, filter, k, cutoff, up_to - 1);
        if count_at(t.rows, filter, up_to as u32, k) >= 1 {
            prev.push(tk_elem(t, filter, k, cutoff, up_to))
        } else {
            prev
        }
    }
}

/// The cutoff: the top-K count at sorted position `n - 1`, or 0 when
/// fewer than `n` candidates exist (then no boundary refinement applies).
pub open spec fn tk_cutoff(t: TableV, filter: Seq<u8>, k: u32, n: int) -> u64 {
    let stage1 = sort_by_spec(tk_candidates(t, filter, k, 0, t.players.len() as int), tk_leq_f());
    if 1 <= n <= stage1.len() {
        stage1[n - 1].ck
    } else {
        0u64
    }
}

/// The returned prefix: entries are (top-K count, player); players with
/// an empty name are dropped after truncation.
pub open spec fn tk_result(t: TableV, s: Seq<TopKElem>) -> Seq<(u64, PlayerV)>
    decreases s.len(),
{
    if s.len() == 0 {
        Seq::empty()
    } else {
        let rest = tk_result(t, s.drop_last());
        let e = s.last();
        let p = t.players[e.pid - 1];
        if p.name.len() > 0 {
            rest + seq![(e.ck, p)]
        } else {
            rest
        }
    }
}

proof fn lemma_tk_result_ordered(t: TableV, s: Seq<TopKElem>)
    requires
        forall|i: int, j: int| 0 <= i <= j < s.len() ==> (#[trigger] s[i]).ck >= (#[trigger] s[j]).ck,
    ensures
        tk_result(t, s).len() <= s.len(),
        forall|i: int, j: int|
            0 <= i <= j < tk_result(t, s).len() ==> (#[trigger] tk_result(t, s)[i]).0 >= (
            #[trigger] tk_result(t, s)[j]).0,
        s.len() > 0 ==> forall|i: int|
            0 <= i < tk_result(t, s).len() ==> (#[trigger] tk_result(t, s)[i]).0 >= s.last().ck,
    decreases s.len(),
{
    if s.len() > 0 {
        assert forall|i: int, j: int|
            0 <= i <= j < s.drop_last().len() implies (#[trigger] s.drop_last()[i]).ck >= (
        #[trigger] s.drop_last()[j]).ck by {
            assert(s.drop_last()[i] == s[i]);
            assert(s.drop_last()[j] == s[j]);
        }
        lemma_tk_result_ordered(t, s.drop_last());
        let rest = tk_result(t, s.drop_last());
        let cur = tk_result(t, s);
        if s.len() >= 2 {
            assert(s.drop_last().last() == s[s.len() - 2]);
            assert(s[s.len() - 2].ck >= s.last().ck);
        }
        let e = s.last();
        let p = t.players[e.pid - 1];
        if p.name.len() > 0 {
            assert(cur == rest + seq![(e.ck, p)]);
            assert forall|i: int|
                0 <= i < cur.len() implies (#[trigger] cur[i]).0 >= s.last().ck by {
                if i < rest.len() {
                    assert(cur[i] == rest[i]);
                } else {
                    assert(cur[i] == (e.ck, p));
                }
            }
            assert forall|i: int, j: int|
                0 <= i <= j < cur.len() implies (#[trigger] cur[i]).0 >= (#[trigger] cur[j]).0 by {
                if j < rest.len() {
                    assert(cur[i] == rest[i]);
                    assert(cur[j] == rest[j]);
                } else {
                    assert(cur[j] == (e.ck, p));
                    if i < rest.len() {
                        assert(cur[i] == rest[i]);
                    }
                }
            }
        }
    }
}

pub open spec fn top_k_spec(t: TableV, filter: Seq<u8>, n: int, k: u32) -> Seq<(u64, PlayerV)> {
    let cutoff = tk_cutoff(t, filter, k, n);
    let stage2 = sort_by_spec(
        tk_candidates(t, filter, k, cutoff, t.players.len() as int),
        tk_leq_f(),
    );
    let kept = if stage2.len() <= n {
        stage2.len() as int
    } else {
        n
    };
    tk_result(t, stage2.take(kept))
}

pub open spec fn view_tk(s: Seq<(u64, Player)>) -> Seq<(u64, PlayerV)> {
    s.map_values(|p: (u64, Player)| (p.0, p.1@))
}

proof fn lemma_tk_candidates_pids(t: TableV, filter: Seq<u8>, k: u32, cutoff: u64, up_to: int)
    requires
        up_to <= t.players.len(),
        t.players.len() <= 0xFFFF_FFFF,
    ensures
        forall|m: int|
            0 <= m < tk_candidates(t, filter, k, cutoff, up_to).len() ==> {
                let e = #[trigger] tk_candidates(t, filter, k, cutoff, up_to)[m];
                &&& 1 <= e.pid <= up_to
                &&& e == tk_elem(t, filter, k, cutoff, e.pid as int)
            },
    decreases up_to,
{
    if up_to > 0 {
        lemma_tk_candidates_pids(t, filter, k, cutoff, up_to - 1);
        let prev = tk_candidates(t, filter, k, cutoff, up_to - 1);
        let cur = tk_candidates(t, filter, k, cutoff, up_to);
        assert forall|m: int|
            0 <= m < cur.len() implies {
            let e = #[trigger] cur[m];
            &&& 1 <= e.pid <= up_to
            &&& e == tk_elem(t, filter, k, cutoff, e.pid as int)
        } by {
            if count_at(t.rows, filter, up_to as u32, k) >= 1 {
                if m < cur.len() - 1 {
                    assert(cur[m] == prev[m]);
                } else {
                    assert(cur[m] == tk_elem(t, filter, k, cutoff, up_to));
                }
            } else {
                assert(cur[m] == prev[m]);
            }
        }
    }
}

/// Builds the candidate list for one cutoff value, ascending by id.
fn tk_build_candidates(
    master: &MasterTable,
    cks: &Vec<u64>,
    ckm1s: &Vec<u64>,
    cnts: &Vec<u64>,
    filter: &[u8],
    k: u32,
    cutoff: u64,
) -> (r: Vec<TopKElem>)
    requires
        master@.wf(),
        cks@.len() == master@.players.len(),
        ckm1s@.len() == master@.players.len(),
        cnts@.len() == master@.players.len(),
        forall|p: int|
            1 <= p <= master@.players.len() ==> #[trigger] cks@[p - 1] as nat == count_at(
                master@.rows,
                filter@,
                p as u32,
                k,
            ),
        forall|p: int|
            1 <= p <= master@.players.len() ==> #[trigger] ckm1s@[p - 1] as nat == count_at(
                master@.rows,
                filter@,
                p as u32,
                if k >= 1 {
                    (k - 1) as u32
                } else {
                    0u32
                },
            ),
        forall|p: int|
            1 <= p <= master@.players.len() ==> #[trigger] cnts@[p - 1] as nat == row_count(
                master@.rows,
                filter@,
                p as u32,
            ),
    ensures
        r@ == tk_candidates(master@, filter@, k, cutoff, master@.players.len() as int),
{
    let ghost t = master@;
    let plen = master.players.len();
    let mut cands: Vec<TopKElem> = Vec::new();
    let mut idx: usize = 0;
    proof {
        assert(cands@ =~= tk_candidates(t, filter@, k, cutoff, 0));
    }
    while idx < plen
        invariant
            master@.wf(),
            t == master@,
            plen == master@.players.len(),
            cks@.len() == plen,
            ckm1s@.len() == plen,
            cnts@.len() == plen,
            forall|p: int|
                1 <= p <= plen ==> #[trigger] cks@[p - 1] as nat == count_at(
                    t.rows,
                    filter@,
                    p as u32,
                    k,
                ),
            forall|p: int|
                1 <= p <= plen ==> #[trigger] ckm1s@[p - 1] as nat == count_at(
                    t.rows,
                    filter@,
                    p as u32,
                    if k >= 1 {
                        (k - 1) as u32
                    } else {
                        0u32
                    },
                ),
            forall|p: int|
                1 <= p <= plen ==> #[trigger] cnts@[p - 1] as nat == row_count(
                    t.rows,
                    filter@,
                    p as u32,
                ),
            0 <= idx <= plen,
            cands@ == tk_candidates(t, filter@, k, cutoff, idx as int),
        decreases plen - idx,
    {
        let ck = cks[idx];
        if ck >= 1 {
            let ckm1 = if ck == cutoff && k >= 2 {
                ckm1s[idx]
            } else {
                0
            };
            let e = TopKElem { pid: (idx + 1) as u32, ck, ckm1, total: cnts[idx] };
            proof {
                let p: int = idx + 1;
                assert(cks@[p - 1] as nat == count_at(t.rows, filter@, p as u32, k));
                assert(ckm1s@[p - 1] as nat == count_at(
                    t.rows,
                    filter@,
                    p as u32,
                    if k >= 1 {
                        (k - 1) as u32
                    } else {
                        0u32
                    },
                ));
                assert(cnts@[p - 1] as nat == row_count(t.rows, filter@, p as u32));
                assert(e == tk_elem(t, filter@, k, cutoff, idx + 1));
            }
            cands.push(e);
        }
        idx += 1;
    }
    cands
}

/// Top-K-count leaderboard: candidates are players with at least one
/// included row ranked at most `k`; the order is descending by top-K
/// count, then, within the group tied at the cutoff (the count at sorted
/// position `n - 1`), descending by top-(K-1) count, then descending by
/// total included rows, then ascending by player id. The first `n` are
/// returned, dropping players with an empty name. Rows whose player id
/// is not in the table are ignored.
pub fn top_n_players_by_top_k_count(
    master: &MasterTable,
    partition_filter: &[u8],
    n: usize,
    k: u32,
) -> (r: Vec<(u64, Player)>)
    requires
        master@.wf(),
        master@.rows.len() * 255 <= u64::MAX,
    ensures
        view_tk(r@) == top_k_spec(master@, partition_filter@, n as int, k),
        r@.len() <= n,
        forall|i: int, j: int| 0 <= i <= j < r@.len() ==> (#[trigger] r@[i]).0 >= (#[trigger] r@[j]).0,
{
    let ghost t = master@;
    let acc = accumulate(master, partition_filter, k);
    let cnts = acc.1;
    let cks = acc.2;
    let ckm1s = acc.3;
    let cands0 = tk_build_candidates(master, &cks, &ckm1s, &cnts, partition_filter, k, 0);
    let stage1 = sort_tk(&cands0);
    let cutoff: u64 = if n >= 1 && n <= stage1.len() {
        stage1[n - 1].ck
    } else {
        0
    };
    proof {
        assert(cutoff == tk_cutoff(t, partition_filter@, k, n as int));
    }
    let cands1 = tk_build_candidates(master, &cks, &ckm1s, &cnts, partition_filter, k, cutoff);
    let stage2 = sort_tk(&cands1);
    proof {
        lemma_tk_candidates_pids(t, partition_filter@, k, cutoff, t.players.len() as int);
        crate::order::lemma_sort_by_spec_membership(
            tk_candidates(t, partition_filter@, k, cutoff, t.players.len() as int),
            tk_leq_f(),
        );
        assert forall|m: int|
            0 <= m < stage2@.len() implies 1 <= (#[trigger] stage2@[m]).pid
            <= master@.players.len() by {
            let cs = tk_candidates(t, partition_filter@, k, cutoff, t.players.len() as int);
            assert(cs.contains(stage2@[m]));
            let w = choose|w: int| 0 <= w < cs.len() && cs[w] == stage2@[m];
            assert(1 <= cs[w].pid <= t.players.len());
        }
    }
    let kept = if stage2.len() <= n {
        stage2.len()
    } else {
        n
    };
    let mut out: Vec<(u64, Player)> = Vec::new();
    proof {
        assert(stage2@.take(0) =~= Seq::<TopKElem>::empty());
        assert(view_tk(out@) =~= tk_result(t, stage2@.take(0)));
    }
    let mut i: usize = 0;
    while i < kept
        invariant
            master@.wf(),
            t == master@,
            stage2@ == sort_by_spec(
                tk_candidates(t, partition_filter@, k, tk_cutoff(t, partition_filter@, k, n as int), t.players.len() as int),
                tk_leq_f(),
            ),
            forall|m: int|
                0 <= m < stage2@.len() ==> 1 <= (#[trigger] stage2@[m]).pid
                    <= master@.players.len(),
            kept <= stage2@.len(),
            kept == (if stage2@.len() <= n as int {
                stage2@.len() as int
            } else {
                n as int
            }),
            0 <= i <= kept,
            view_tk(out@) == tk_result(t, stage2@.take(i as int)),
        decreases kept - i,
    {
        let e = stage2[i];
        proof {
            assert(1 <= e.pid <= master@.players.len());
            assert(t.players[e.pid - 1] == master.players@[e.pid - 1]@);
            assert(stage2@.take(i + 1).drop_last() =~= stage2@.take(i as int));
            assert(stage2@.take(i + 1).last() == stage2@[i as int]);
        }
        let player = &master.players[(e.pid as usize) - 1];
        if !player.name.as_str().is_empty() {
            let ghost prev = out@;
            let p = player.duplicate();
            out.push((e.ck, p));
            proof {
                assert(view_tk(out@) =~= view_tk(prev) + seq![(e.ck, p@)]);
            }
        }
        i += 1;
    }
    proof {
        assert(view_tk(out@) == top_k_spec(t, partition_filter@, n as int, k));
        lemma_tk_leq_properties();
        crate::order::lemma_sort_by_spec_ordered(
            tk_candidates(
                t,
                partition_filter@,
                k,
                tk_cutoff(t, partition_filter@, k, n as int),
                t.players.len() as int,
            ),
            tk_leq_f(),
        );
        let pre = stage2@.take(kept as int);
        assert forall|i2: int, j2: int|
            0 <= i2 <= j2 < pre.len() implies (#[trigger] pre[i2]).ck >= (#[trigger] pre[j2]).ck by {
            assert(pre[i2] == stage2@[i2]);
            assert(pre[j2] == stage2@[j2]);
            assert(tk_leq_f()(stage2@[i2], stage2@[j2]));
        }
        lemma_tk_result_ordered(t, pre);
        assert forall|i2: int, j2: int|
            0 <= i2 <= j2 < out@.len() implies (#[trigger] out@[i2]).0 >= (
        #[trigger] out@[j2]).0 by {
            assert(tk_result(t, pre)[i2].0 >= tk_result(t, pre)[j2].0);
            assert(view_tk(out@)[i2].0 == out@[i2].0);
            assert(view_tk(out@)[j2].0 == out@[j2].0);
        }
        assert(out@.len() == view_tk(out@).len());
        assert(view_tk(out@).len() <= pre.len());
    }
    out
}

} // verus!
