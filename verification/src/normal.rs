//! Partition-normalised counting. Each partition is weighted by
//! `min_size / its_size` so that over-sampled partitions do not dominate,
//! and the weighted sum is rounded half-up. The arithmetic is exact: the
//! weighted sum is evaluated as a single fraction over the product of all
//! partition sizes, carried in big-number arithmetic.

use vstd::prelude::*;
use crate::bignum::{big_val, big_mul_small, big_add, big_le};
use crate::rounding::{round_div, lemma_round_div_decompose, lemma_round_div_le};
use vstd::arithmetic::div_mod::{lemma_fundamental_div_mod, lemma_div_multiples_vanish,
    lemma_div_is_ordered};
use vstd::arithmetic::mul::lemma_mul_upper_bound;
use crate::model::{MasterTable, TableV, RowV, Skill, ItemSet, included, row_included};
use crate::counts::{id_space, skill_occ, total_skill_occ, total_armour_occ, set_presence, sum_nat,
    count_skill_usage, count_set_presence, lemma_skill_occ_le_total, lemma_set_presence_le};
use crate::partition::{part_size, skill_occ_part, set_presence_part, partitions_of,
    lemma_single_filter, lemma_empty_partition, lemma_partitions_of_props,
    lemma_part_nonzero_included, lemma_parts_cover, lemma_partition_decomposition,
    sum_occ_parts, sum_presence_parts};
use crate::pairs::{CountPair, cp_leq_f, pairs_of, pairs_of_prefix, sum_pairs, sort_pairs,
    lemma_sum_pairs_sort};
use crate::topn::{view_skill_counts, view_set_counts, counted_skills, counted_sets,
    raw_skill_freq, raw_set_freq, top_skills_spec, top_sets_spec, package_skills, package_sets};
use crate::order::sort_by_spec;
use crate::rounding::lemma_round_div_exact;

verus! {

pub open spec fn ints_of(s: Seq<u64>) -> Seq<int> {
    s.map_values(|x: u64| x as int)
}

pub open spec fn prod_ints(s: Seq<int>) -> int
    decreases s.len(),
{
    if s.len() == 0 {
        1
    } else {
        prod_ints(s.drop_last()) * s.last()
    }
}

pub open spec fn sum_ints(s: Seq<int>) -> int
    decreases s.len(),
{
    if s.len() == 0 {
        0
    } else {
        sum_ints(s.drop_last()) + s.last()
    }
}

pub open spec fn min_ints(s: Seq<int>) -> int
    decreases s.len(),
{
    if s.len() <= 1 {
        if s.len() == 1 {
            s[0]
        } else {
            0
        }
    } else {
        let m = min_ints(s.drop_last());
        if s.last() < m {
            s.last()
        } else {
            m
        }
    }
}

/// The numerator of the weighted sum over the common denominator `d`:
/// each partition contributes `count * min_size * (d / size)`.
pub open spec fn wsum(a: Seq<int>, s: Seq<int>, m: int, d: int) -> int
    decreases a.len(),
{
    if a.len() == 0 {
        0
    } else {
        wsum(a.drop_last(), s.drop_last(), m, d) + a.last() * m * (d / s.last())
    }
}

pub proof fn lemma_prod_ints_pos(s: Seq<int>)
    requires
        forall|i: int| 0 <= i < s.len() ==> #[trigger] s[i] >= 1,
    ensures
        prod_ints(s) >= 1,
    decreases s.len(),
{
    if s.len() > 0 {
        lemma_prod_ints_pos(s.drop_last());
        assert(prod_ints(s.drop_last()) * s.last() >= 1) by (nonlinear_arith)
            requires
                prod_ints(s.drop_last()) >= 1,
                s.last() >= 1,
        ;
    }
}

pub proof fn lemma_min_ints_le(s: Seq<int>, i: int)
    requires
        0 <= i < s.len(),
    ensures
        min_ints(s) <= s[i],
    decreases s.len(),
{
    if s.len() > 1 && i < s.len() - 1 {
        lemma_min_ints_le(s.drop_last(), i);
    }
}

pub proof fn lemma_min_ints_ge(s: Seq<int>, b: int)
    requires
        s.len() >= 1,
        forall|i: int| 0 <= i < s.len() ==> #[trigger] s[i] >= b,
    ensures
        min_ints(s) >= b,
    decreases s.len(),
{
    if s.len() > 1 {
        lemma_min_ints_ge(s.drop_last(), b);
    }
}

pub proof fn lemma_sum_ints_prefix(s: Seq<int>, i: int)
    requires
        0 <= i <= s.len(),
        forall|j: int| 0 <= j < s.len() ==> #[trigger] s[j] >= 0,
    ensures
        0 <= sum_ints(s.take(i)) <= sum_ints(s),
    decreases s.len(),
{
    if i < s.len() {
        assert(s.drop_last().take(i) =~= s.take(i));
        lemma_sum_ints_prefix(s.drop_last(), i);
    } else {
        assert(s.take(i) =~= s);
        if s.len() > 0 {
            lemma_sum_ints_prefix(s.drop_last(), s.len() - 1);
            assert(s.drop_last().take(s.len() - 1) =~= s.drop_last());
        }
    }
}

/// Exact rounded weighted count for one id.
///
/// `avals[i]` is the id's raw count in partition `i`, `sizes[i]` that
/// partition's row count, `m` the minimum size, `d` the digit vector of
/// the product of all sizes and `dps[i]` that of the product of all
/// sizes but `sizes[i]`. The result is the weighted sum rounded half-up.
pub fn norm_one(
    avals: &Vec<u64>,
    sizes: &Vec<u64>,
    m: u64,
    d: &Vec<u32>,
    dps: &Vec<Vec<u32>>,
    asum: u64,
) -> (r: u64)
    requires
        avals@.len() == sizes@.len(),
        dps@.len() == sizes@.len(),
        1 <= sizes@.len() <= 256,
        m >= 1,
        forall|i: int| 0 <= i < sizes@.len() ==> m <= #[trigger] sizes@[i],
        big_val(d@) == prod_ints(ints_of(sizes@)),
        forall|i: int|
            0 <= i < sizes@.len() ==> big_val(#[trigger] dps@[i]@) * sizes@[i] == big_val(d@),
        asum as int == sum_ints(ints_of(avals@)),
    ensures
        r as int == round_div(
            wsum(ints_of(avals@), ints_of(sizes@), m as int, prod_ints(ints_of(sizes@))),
            prod_ints(ints_of(sizes@)),
        ),
        r <= asum,
{
    let ghost aa = ints_of(avals@);
    let ghost ss = ints_of(sizes@);
    let ghost dd = prod_ints(ss);
    let np = sizes.len();
    proof {
        assert forall|i: int| 0 <= i < ss.len() implies #[trigger] ss[i] >= 1 by {
            assert(ss[i] == sizes@[i] as int);
            assert(m <= sizes@[i]);
        }
        lemma_prod_ints_pos(ss);
        assert(aa.take(0) =~= Seq::<int>::empty());
        assert(ss.take(0) =~= Seq::<int>::empty());
        assert forall|j: int| 0 <= j < aa.len() implies #[trigger] aa[j] >= 0 by {
            assert(aa[j] == avals@[j] as int);
        }
    }
    let mut qacc: u128 = 0;
    let mut ng: Vec<u32> = Vec::new();
    let mut i: usize = 0;
    while i < np
        invariant
            avals@.len() == np,
            sizes@.len() == np,
            dps@.len() == np,
            1 <= np <= 256,
            m >= 1,
            forall|j: int| 0 <= j < aa.len() ==> #[trigger] aa[j] >= 0,
            forall|w: int| 0 <= w < np ==> m <= #[trigger] sizes@[w],
            big_val(d@) == dd,
            forall|w: int| 0 <= w < np ==> big_val(#[trigger] dps@[w]@) * sizes@[w] == dd,
            asum as int == sum_ints(aa),
            aa == ints_of(avals@),
            ss == ints_of(sizes@),
            dd == prod_ints(ss),
            dd >= 1,
            0 <= i <= np,
            qacc as int * dd + big_val(ng@) == wsum(aa.take(i as int), ss.take(i as int), m as int, dd),
            qacc as int <= sum_ints(aa.take(i as int)),
            wsum(aa.take(i as int), ss.take(i as int), m as int, dd) <= sum_ints(aa.take(i as int))
                * dd,
            big_val(ng@) <= i * (dd - 1),
        decreases np - i,
    {
        let ai = avals[i];
        let si = sizes[i];
        proof {
            lemma_mul_upper_bound(ai as int, u64::MAX as int, m as int, u64::MAX as int);
        }
        let t: u128 = (ai as u128) * (m as u128);
        let qi: u128 = t / (si as u128);
        let ri: u128 = t % (si as u128);
        let ghost dpi = big_val(dps@[i as int]@);
        proof {
            lemma_fundamental_div_mod(t as int, si as int);
            // qi <= ai
            assert((ai as int) * (m as int) <= (ai as int) * (si as int)) by (nonlinear_arith)
                requires
                    m <= si,
                    ai >= 0,
            ;
            lemma_div_multiples_vanish(ai as int, si as int);
            assert((si as int) * (ai as int) == (ai as int) * (si as int)) by (nonlinear_arith);
            lemma_div_is_ordered(t as int, (ai as int) * (si as int), si as int);
            assert(qi as int <= ai as int);
            // dpi == dd / si, and dpi >= 1
            assert(dpi * (si as int) == dd);
            lemma_div_multiples_vanish(dpi as int, si as int);
            assert((si as int) * dpi == dpi * (si as int)) by (nonlinear_arith);
            assert(dd / (si as int) == dpi);
            assert(dpi >= 1) by (nonlinear_arith)
                requires
                    dpi * (si as int) == dd,
                    dd >= 1,
                    si >= 1,
                    dpi >= 0,
            ;
        }
        proof {
            lemma_sum_ints_prefix(aa, i as int);
            assert(qacc as int <= sum_ints(aa));
        }
        let term = big_mul_small(&dps[i], ri as u64);
        let ghost oldng = ng@;
        let newng = big_add(&ng, &term);
        ng = newng;
        let ghost oldq = qacc;
        qacc = qacc + qi;
        proof {
            assert(aa.take(i + 1).drop_last() =~= aa.take(i as int));
            assert(ss.take(i + 1).drop_last() =~= ss.take(i as int));
            assert(aa.take(i + 1).last() == ai as int);
            assert(ss.take(i + 1).last() == si as int);
            assert(ri < si as u128);
            assert(((ri as u64) as int) == ri as int);
            assert(big_val(ng@) == big_val(oldng) + dpi * (ri as int));
            assert(big_val(ng@) == big_val(oldng) + (ri as int) * dpi) by (nonlinear_arith)
                requires
                    big_val(ng@) == big_val(oldng) + dpi * (ri as int),
            ;
            // one partition's contribution, split at the division
            assert((ai as int) * (m as int) * dpi == (qi as int) * dd + (ri as int) * dpi)
                by (nonlinear_arith)
                requires
                    (t as int) == (si as int) * (qi as int) + (ri as int),
                    (t as int) == (ai as int) * (m as int),
                    dpi * (si as int) == dd,
            ;
            assert(wsum(aa.take(i + 1), ss.take(i + 1), m as int, dd) == wsum(
                aa.take(i as int),
                ss.take(i as int),
                m as int,
                dd,
            ) + (ai as int) * (m as int) * dpi);
            assert((oldq as int + qi as int) * dd == oldq as int * dd + qi as int * dd)
                by (nonlinear_arith);
            // the running bound on the numerator
            assert((m as int) * dpi <= (si as int) * dpi) by (nonlinear_arith)
                requires
                    m <= si,
                    dpi >= 0,
            ;
            assert((ai as int) * (m as int) * dpi <= (ai as int) * dd) by (nonlinear_arith)
                requires
                    m <= si,
                    dpi >= 0,
                    ai >= 0,
                    dpi * (si as int) == dd,
                    (m as int) * dpi <= (si as int) * dpi,
            ;
            assert(sum_ints(aa.take(i + 1)) * dd == sum_ints(aa.take(i as int)) * dd + (ai as int)
                * dd) by (nonlinear_arith)
                requires
                    sum_ints(aa.take(i + 1)) == sum_ints(aa.take(i as int)) + (ai as int),
            ;
            // the remainder stays below the denominator
            assert((ri as int) * dpi <= dd - 1) by (nonlinear_arith)
                requires
                    0 <= ri as int <= (si as int) - 1,
                    dpi >= 1,
                    dpi * (si as int) == dd,
            ;
            assert(big_val(ng@) <= (i + 1) * (dd - 1)) by (nonlinear_arith)
                requires
                    big_val(ng@) == big_val(oldng) + (ri as int) * dpi,
                    big_val(oldng) <= i * (dd - 1),
                    (ri as int) * dpi <= dd - 1,
            ;
            lemma_sum_ints_prefix_nonneg(aa);
            lemma_sum_ints_prefix(aa, i + 1);
        }
        i += 1;
    }
    proof {
        assert(aa.take(np as int) =~= aa);
        assert(ss.take(np as int) =~= ss);
    }
    let ghost w = wsum(aa, ss, m as int, dd);
    // integer part of the remaining fraction
    let mut f: u64 = 0;
    let mut fd = big_mul_small(d, 1);
    let mut cont = big_le(&fd, &ng);
    while cont
        invariant
            big_val(d@) == dd,
            dd >= 1,
            1 <= np <= 256,
            big_val(ng@) <= np * (dd - 1),
            big_val(fd@) == (f + 1) as int * dd,
            cont == (big_val(fd@) <= big_val(ng@)),
            f as int * dd <= big_val(ng@),
            f <= np,
        decreases np - f,
    {
        proof {
            assert((f + 1) as int * dd <= big_val(ng@));
            assert((f as int + 1) < np as int) by (nonlinear_arith)
                requires
                    (f as int + 1) * dd <= (np as int) * (dd - 1),
                    dd >= 1,
                    np >= 1,
            ;
        }
        f = f + 1;
        fd = big_mul_small(d, f + 1);
        cont = big_le(&fd, &ng);
    }
    proof {
        assert(big_val(ng@) < (f + 1) as int * dd);
    }
    // does the fraction round up?
    let lhs = big_mul_small(&ng, 2);
    let rhs = big_mul_small(d, 2 * f + 1);
    let up = big_le(&rhs, &lhs);
    let ghost rr = big_val(ng@) - f as int * dd;
    proof {
        assert(0 <= rr < dd) by (nonlinear_arith)
            requires
                f as int * dd <= big_val(ng@),
                big_val(ng@) < (f as int + 1) * dd,
                rr == big_val(ng@) - f as int * dd,
        ;
        assert(up == (2 * rr >= dd)) by (nonlinear_arith)
            requires
                up == ((2 * f as int + 1) * dd <= 2 * big_val(ng@)),
                big_val(ng@) == f as int * dd + rr,
        ;
        assert(w == (qacc as int + f as int) * dd + rr) by (nonlinear_arith)
            requires
                w == qacc as int * dd + big_val(ng@),
                big_val(ng@) == f as int * dd + rr,
        ;
        lemma_round_div_decompose(qacc as int + f as int, rr, dd);
        lemma_round_div_le(w, dd, sum_ints(aa));
        lemma_sum_ints_prefix_nonneg(aa);
        assert(w >= 0) by (nonlinear_arith)
            requires
                w == (qacc as int + f as int) * dd + rr,
                qacc as int + f as int >= 0,
                dd >= 1,
                rr >= 0,
        ;
        assert(w <= sum_ints(aa) * dd);
    }
    let res: u128 = qacc + (f as u128) + (if up {
        1
    } else {
        0
    });
    proof {
        assert(res as int == round_div(w, dd));
        assert(res as int <= asum as int);
    }
    res as u64
}

proof fn lemma_sum_ints_prefix_nonneg(s: Seq<int>)
    requires
        forall|j: int| 0 <= j < s.len() ==> #[trigger] s[j] >= 0,
    ensures
        sum_ints(s) >= 0,
    decreases s.len(),
{
    if s.len() > 0 {
        lemma_sum_ints_prefix_nonneg(s.drop_last());
    }
}



/// The partitions holding included rows, ascending.
pub open spec fn norm_parts(rows: Seq<RowV>, filter: Seq<u8>) -> Seq<u8> {
    partitions_of(rows, filter, 256)
}

pub open spec fn norm_sizes(rows: Seq<RowV>, filter: Seq<u8>) -> Seq<int> {
    norm_parts(rows, filter).map_values(|p: u8| part_size(rows, filter, p) as int)
}

pub open spec fn sk_occs(rows: Seq<RowV>, filter: Seq<u8>, id: u16) -> Seq<int> {
    norm_parts(rows, filter).map_values(|p: u8| skill_occ_part(rows, filter, p, id) as int)
}

pub open spec fn st_occs(t: TableV, filter: Seq<u8>, c: u16) -> Seq<int> {
    norm_parts(t.rows, filter).map_values(
        |p: u8| set_presence_part(t, t.rows, filter, p, c) as int,
    )
}

/// The normalised count of one skill: its per-partition counts, each
/// weighted by `min_size / partition_size`, summed exactly and rounded
/// half-up.
pub open spec fn norm_skill_value(rows: Seq<RowV>, filter: Seq<u8>, id: u16) -> int {
    let sizes = norm_sizes(rows, filter);
    round_div(wsum(sk_occs(rows, filter, id), sizes, min_ints(sizes), prod_ints(sizes)), prod_ints(sizes))
}

pub open spec fn norm_set_value(t: TableV, filter: Seq<u8>, c: u16) -> int {
    let sizes = norm_sizes(t.rows, filter);
    round_div(wsum(st_occs(t, filter, c), sizes, min_ints(sizes), prod_ints(sizes)), prod_ints(sizes))
}

pub open spec fn norm_skill_freq(t: TableV, filter: Seq<u8>) -> Seq<u64> {
    Seq::new(id_space() as nat, |id: int| norm_skill_value(t.rows, filter, id as u16) as u64)
}

pub open spec fn norm_set_freq(t: TableV, filter: Seq<u8>) -> Seq<u64> {
    Seq::new(id_space() as nat, |id: int| norm_set_value(t, filter, id as u16) as u64)
}

/// Pairs for the ids below `k` whose raw counter is non-zero, carrying
/// the normalised value, ascending by id. An id that occurs but rounds
/// to 0 still gets an entry.
pub open spec fn gated_pairs_prefix(vals: Seq<u64>, gate: Seq<u64>, k: int) -> Seq<CountPair>
    decreases k,
{
    if k <= 0 {
        Seq::empty()
    } else if gate[k - 1] > 0 {
        gated_pairs_prefix(vals, gate, k - 1).push(
            CountPair { count: vals[k - 1], id: (k - 1) as u16 },
        )
    } else {
        gated_pairs_prefix(vals, gate, k - 1)
    }
}

pub open spec fn norm_skill_pairs(t: TableV, filter: Seq<u8>) -> Seq<CountPair> {
    gated_pairs_prefix(norm_skill_freq(t, filter), raw_skill_freq(t, filter), id_space())
}

pub open spec fn norm_set_pairs(t: TableV, filter: Seq<u8>) -> Seq<CountPair> {
    gated_pairs_prefix(norm_set_freq(t, filter), raw_set_freq(t, filter), id_space())
}

/// The normalised top-N result: empty when no row is included, else
/// ranked, truncated and bucketed exactly as the raw aggregation.
pub open spec fn top_skills_norm_spec(t: TableV, filter: Seq<u8>, n: int) -> Seq<(
    crate::model::SkillV,
    u64,
)> {
    if norm_parts(t.rows, filter).len() == 0 {
        Seq::empty()
    } else {
        counted_skills(t, sort_by_spec(norm_skill_pairs(t, filter), cp_leq_f()), n)
    }
}

pub open spec fn top_sets_norm_spec(t: TableV, filter: Seq<u8>, n: int) -> Seq<(
    crate::model::SetV,
    u64,
)> {
    if norm_parts(t.rows, filter).len() == 0 {
        Seq::empty()
    } else {
        counted_sets(t, sort_by_spec(norm_set_pairs(t, filter), cp_leq_f()), n)
    }
}

proof fn lemma_gated_pairs_sum(vals: Seq<u64>, gate: Seq<u64>, k: int)
    requires
        0 <= k <= gate.len(),
        vals.len() == gate.len(),
        forall|i: int| 0 <= i < gate.len() ==> #[trigger] vals[i] <= gate[i],
    ensures
        sum_pairs(gated_pairs_prefix(vals, gate, k)) <= sum_nat(gate.take(k)),
    decreases k,
{
    if k > 0 {
        lemma_gated_pairs_sum(vals, gate, k - 1);
        assert(gate.take(k).drop_last() =~= gate.take(k - 1));
        if gate[k - 1] > 0 {
            let prev = gated_pairs_prefix(vals, gate, k - 1);
            let cur = gated_pairs_prefix(vals, gate, k);
            assert(cur.drop_last() =~= prev);
        }
    }
}

proof fn lemma_gated_eq_pairs(g: Seq<u64>, k: int)
    requires
        0 <= k,
    ensures
        gated_pairs_prefix(g, g, k) == pairs_of_prefix(g, k),
    decreases k,
{
    if k > 0 {
        lemma_gated_eq_pairs(g, k - 1);
    }
}

proof fn lemma_part_size_le(rows: Seq<RowV>, filter: Seq<u8>, p: u8)
    ensures
        part_size(rows, filter, p) <= rows.len(),
    decreases rows.len(),
{
    if rows.len() > 0 {
        lemma_part_size_le(rows.drop_last(), filter, p);
    }
}

proof fn lemma_sum_occ_parts_prefix(rows: Seq<RowV>, filter: Seq<u8>, parts: Seq<u8>, id: u16, w: int)
    requires
        0 <= w <= parts.len(),
    ensures
        sum_occ_parts(rows, filter, parts.take(w), id) <= sum_occ_parts(rows, filter, parts, id),
    decreases parts.len(),
{
    if w < parts.len() {
        assert(parts.drop_last().take(w) =~= parts.take(w));
        lemma_sum_occ_parts_prefix(rows, filter, parts.drop_last(), id, w);
    } else {
        assert(parts.take(w) =~= parts);
    }
}

proof fn lemma_sum_presence_parts_prefix(
    t: TableV,
    rows: Seq<RowV>,
    filter: Seq<u8>,
    parts: Seq<u8>,
    c: u16,
    w: int,
)
    requires
        0 <= w <= parts.len(),
    ensures
        sum_presence_parts(t, rows, filter, parts.take(w), c) <= sum_presence_parts(
            t,
            rows,
            filter,
            parts,
            c,
        ),
    decreases parts.len(),
{
    if w < parts.len() {
        assert(parts.drop_last().take(w) =~= parts.take(w));
        lemma_sum_presence_parts_prefix(t, rows, filter, parts.drop_last(), c, w);
    } else {
        assert(parts.take(w) =~= parts);
    }
}

/// Shared first stage of the normalised queries: per-partition sizes,
/// the ascending partition list and the parallel size list.
fn norm_stage_parts(master: &MasterTable, filter: &[u8]) -> (r: (Vec<u8>, Vec<u64>))
    ensures
        r.0@ == norm_parts(master@.rows, filter@),
        r.1@.len() == r.0@.len(),
        forall|j: int|
            0 <= j < r.0@.len() ==> #[trigger] r.1@[j] as nat == part_size(
                master@.rows,
                filter@,
                r.0@[j],
            ),
{
    let ghost rv = master@.rows;
    let mut rows_pp: Vec<u64> = vec![0u64; 256];
    proof {
        assert(rv.take(0) =~= Seq::<RowV>::empty());
    }
    let n = master.rows.len();
    let mut i: usize = 0;
    while i < n
        invariant
            rv == master@.rows,
            n == master.rows@.len(),
            rv.len() == n,
            0 <= i <= n,
            rows_pp@.len() == 256,
            forall|p: u8| #[trigger] rows_pp@[p as int] as nat == part_size(
                rv.take(i as int),
                filter@,
                p,
            ),
        decreases n - i,
    {
        proof {
            assert(rv[i as int] == master.rows@[i as int]@);
            assert(rv.take(i + 1).drop_last() =~= rv.take(i as int));
            assert(rv.take(i + 1).last() == rv[i as int]);
        }
        let row = &master.rows[i];
        let inc = row_included(row, filter);
        if inc {
            let pi = row.partition_id as usize;
            proof {
                lemma_part_size_le(rv.take(i as int), filter@, row.partition_id);
                assert(rv.take(i as int).len() == i);
            }
            let c = rows_pp[pi];
            let ghost oldpp = rows_pp@;
            rows_pp[pi] = c + 1;
            proof {
                assert forall|p: u8| #[trigger] rows_pp@[p as int] as nat == part_size(
                    rv.take(i + 1),
                    filter@,
                    p,
                ) by {
                    if p != row.partition_id {
                        assert(rows_pp@[p as int] == oldpp[p as int]);
                    }
                }
            }
        } else {
            proof {
                assert forall|p: u8| #[trigger] rows_pp@[p as int] as nat == part_size(
                    rv.take(i + 1),
                    filter@,
                    p,
                ) by {}
            }
        }
        i += 1;
    }
    proof {
        assert(rv.take(n as int) =~= rv);
    }
    let mut parts: Vec<u8> = Vec::new();
    let mut sizes: Vec<u64> = Vec::new();
    let mut k: usize = 0;
    while k < 256
        invariant
            rv == master@.rows,
            rows_pp@.len() == 256,
            forall|p: u8| #[trigger] rows_pp@[p as int] as nat == part_size(rv, filter@, p),
            0 <= k <= 256,
            parts@ == partitions_of(rv, filter@, k as int),
            sizes@.len() == parts@.len(),
            forall|j: int|
                0 <= j < parts@.len() ==> #[trigger] sizes@[j] as nat == part_size(
                    rv,
                    filter@,
                    parts@[j],
                ),
        decreases 256 - k,
    {
        let c = rows_pp[k];
        if c > 0 {
            parts.push(k as u8);
            sizes.push(c);
        }
        k += 1;
    }
    (parts, sizes)
}

/// Product-of-sizes digit vectors: the common denominator and, for each
/// partition, the product of all other sizes.
fn norm_stage_products(sizes: &Vec<u64>) -> (r: (Vec<u32>, Vec<Vec<u32>>))
    ensures
        big_val(r.0@) == prod_ints(ints_of(sizes@)),
        r.1@.len() == sizes@.len(),
        forall|j: int|
            0 <= j < sizes@.len() ==> big_val(#[trigger] r.1@[j]@) * sizes@[j] == big_val(r.0@),
{
    let ghost ss = ints_of(sizes@);
    let np = sizes.len();
    let mut d = crate::bignum::big_one();
    let mut w: usize = 0;
    proof {
        assert(ss.take(0) =~= Seq::<int>::empty());
    }
    while w < np
        invariant
            ss == ints_of(sizes@),
            np == sizes@.len(),
            0 <= w <= np,
            big_val(d@) == prod_ints(ss.take(w as int)),
        decreases np - w,
    {
        let ghost oldd = d@;
        let nd = big_mul_small(&d, sizes[w]);
        d = nd;
        proof {
            assert(ss.take(w + 1).drop_last() =~= ss.take(w as int));
            assert(ss.take(w + 1).last() == sizes@[w as int] as int);
        }
        w += 1;
    }
    proof {
        assert(ss.take(np as int) =~= ss);
    }
    let mut dps: Vec<Vec<u32>> = Vec::new();
    let mut j: usize = 0;
    while j < np
        invariant
            ss == ints_of(sizes@),
            np == sizes@.len(),
            big_val(d@) == prod_ints(ss),
            0 <= j <= np,
            dps@.len() == j,
            forall|x: int|
                0 <= x < j ==> big_val(#[trigger] dps@[x]@) * sizes@[x] == big_val(d@),
        decreases np - j,
    {
        let mut dj = crate::bignum::big_one();
        let mut w2: usize = 0;
        proof {
            assert(ss.take(0) =~= Seq::<int>::empty());
        }
        while w2 < np
            invariant
                ss == ints_of(sizes@),
                np == sizes@.len(),
                0 <= j < np,
                0 <= w2 <= np,
                big_val(dj@) == prodx(ss, j as int, w2 as int),
            decreases np - w2,
        {
            if w2 != j {
                let nd = big_mul_small(&dj, sizes[w2]);
                dj = nd;
                proof {
                    assert(ss[w2 as int] == sizes@[w2 as int] as int);
                }
            }
            w2 += 1;
        }
        proof {
            lemma_prodx(ss, j as int, np as int);
            assert(ss.take(np as int) =~= ss);
            assert(big_val(dj@) * (sizes@[j as int] as int) == prod_ints(ss));
        }
        dps.push(dj);
        j += 1;
    }
    (d, dps)
}

/// Product of the first `w` elements, skipping index `j`.
pub open spec fn prodx(s: Seq<int>, j: int, w: int) -> int
    decreases w,
{
    if w <= 0 {
        1
    } else if w - 1 == j {
        prodx(s, j, w - 1)
    } else {
        prodx(s, j, w - 1) * s[w - 1]
    }
}

proof fn lemma_prodx_below(s: Seq<int>, j: int, w: int)
    requires
        0 <= w <= j,
        w <= s.len(),
    ensures
        prodx(s, j, w) == prod_ints(s.take(w)),
    decreases w,
{
    if w > 0 {
        lemma_prodx_below(s, j, w - 1);
        assert(s.take(w).drop_last() =~= s.take(w - 1));
        assert(s.take(w).last() == s[w - 1]);
    } else {
        assert(s.take(0) =~= Seq::<int>::empty());
    }
}

/// The skipped factor multiplies back in: `prodx * s[j]` is the full
/// prefix product.
proof fn lemma_prodx(s: Seq<int>, j: int, w: int)
    requires
        0 <= j < w <= s.len(),
    ensures
        prodx(s, j, w) * s[j] == prod_ints(s.take(w)),
    decreases w,
{
    if w - 1 == j {
        lemma_prodx_below(s, j, j);
        assert(s.take(w).drop_last() =~= s.take(w - 1));
        assert(s.take(w).last() == s[w - 1]);
    } else {
        lemma_prodx(s, j, w - 1);
        assert(s.take(w).drop_last() =~= s.take(w - 1));
        assert(s.take(w).last() == s[w - 1]);
        assert((prodx(s, j, w - 1) * s[w - 1]) * s[j] == (prodx(s, j, w - 1) * s[j]) * s[w - 1])
            by (nonlinear_arith);
    }
}

proof fn lemma_ascending_ge(parts: Seq<u8>, i: int)
    requires
        forall|x: int, y: int|
            0 <= x < y < parts.len() ==> (#[trigger] parts[x]) < (#[trigger] parts[y]),
        0 <= i < parts.len(),
    ensures
        parts[i] as int >= i,
    decreases i,
{
    if i > 0 {
        lemma_ascending_ge(parts, i - 1);
        assert(parts[i - 1] < parts[i]);
    }
}

proof fn lemma_sum_occs_map(rows: Seq<RowV>, filter: Seq<u8>, parts: Seq<u8>, id: u16)
    ensures
        sum_ints(parts.map_values(|p: u8| skill_occ_part(rows, filter, p, id) as int))
            == sum_occ_parts(rows, filter, parts, id),
    decreases parts.len(),
{
    if parts.len() > 0 {
        lemma_sum_occs_map(rows, filter, parts.drop_last(), id);
        let mapped = parts.map_values(|p: u8| skill_occ_part(rows, filter, p, id) as int);
        assert(mapped.drop_last() =~= parts.drop_last().map_values(
            |p: u8| skill_occ_part(rows, filter, p, id) as int,
        ));
        assert(mapped.last() == skill_occ_part(rows, filter, parts.last(), id) as int);
    }
}

proof fn lemma_sum_presence_map(t: TableV, filter: Seq<u8>, parts: Seq<u8>, c: u16)
    ensures
        sum_ints(parts.map_values(|p: u8| set_presence_part(t, t.rows, filter, p, c) as int))
            == sum_presence_parts(t, t.rows, filter, parts, c),
    decreases parts.len(),
{
    if parts.len() > 0 {
        lemma_sum_presence_map(t, filter, parts.drop_last(), c);
        let mapped = parts.map_values(|p: u8| set_presence_part(t, t.rows, filter, p, c) as int);
        assert(mapped.drop_last() =~= parts.drop_last().map_values(
            |p: u8| set_presence_part(t, t.rows, filter, p, c) as int,
        ));
        assert(mapped.last() == set_presence_part(t, t.rows, filter, parts.last(), c) as int);
    }
}

proof fn lemma_wsum_le(a: Seq<int>, s: Seq<int>, m: int, d: int)
    requires
        a.len() == s.len(),
        m >= 1,
        d >= 1,
        forall|i: int| 0 <= i < a.len() ==> #[trigger] a[i] >= 0,
        forall|i: int| 0 <= i < s.len() ==> m <= #[trigger] s[i],
        forall|i: int| 0 <= i < s.len() ==> (d / (#[trigger] s[i])) * s[i] == d && d / s[i] >= 0,
    ensures
        0 <= wsum(a, s, m, d) <= sum_ints(a) * d,
    decreases a.len(),
{
    if a.len() == 0 {
        assert(sum_ints(a) * d == 0) by (nonlinear_arith)
            requires
                sum_ints(a) == 0,
        ;
    } else {
        lemma_wsum_le(a.drop_last(), s.drop_last(), m, d);
        let ai = a.last();
        let si = s.last();
        let dpi = d / si;
        assert(m * dpi <= si * dpi) by (nonlinear_arith)
            requires
                m <= si,
                dpi >= 0,
        ;
        assert(ai * m * dpi <= ai * d && ai * m * dpi >= 0) by (nonlinear_arith)
            requires
                ai >= 0,
                m >= 1,
                dpi >= 0,
                m * dpi <= si * dpi,
                dpi * si == d,
        ;
        assert(sum_ints(a) * d == sum_ints(a.drop_last()) * d + ai * d) by (nonlinear_arith)
            requires
                sum_ints(a) == sum_ints(a.drop_last()) + ai,
        ;
    }
}

/// The normalised count never exceeds the raw count: every weight is at
/// most 1.
pub proof fn lemma_norm_skill_le_raw(t: TableV, filter: Seq<u8>, id: u16)
    ensures
        0 <= norm_skill_value(t.rows, filter, id) <= skill_occ(t.rows, filter, id),
{
    let rows = t.rows;
    let parts = norm_parts(rows, filter);
    let sizes = norm_sizes(rows, filter);
    let occs = sk_occs(rows, filter, id);
    let d = prod_ints(sizes);
    let m = min_ints(sizes);
    lemma_partitions_of_props(rows, filter, 256);
    assert forall|i: int| 0 <= i < sizes.len() implies #[trigger] sizes[i] >= 1 by {
        assert(sizes[i] == part_size(rows, filter, parts[i]) as int);
        assert(part_size(rows, filter, parts[i]) > 0);
    }
    lemma_prod_ints_pos(sizes);
    if parts.len() == 0 {
        assert(wsum(occs, sizes, m, d) == 0);
        assert(d == 1);
        assert(round_div(0, 1) == 0) by {
            vstd::arithmetic::div_mod::lemma_fundamental_div_mod_converse(1, 2, 0, 1);
        }
    } else {
        lemma_min_ints_ge(sizes, 1);
        assert forall|i: int|
            0 <= i < sizes.len() implies (d / (#[trigger] sizes[i])) * sizes[i] == d && d
            / sizes[i] >= 0 by {
            lemma_prodx(sizes, i, sizes.len() as int);
            assert(sizes.take(sizes.len() as int) =~= sizes);
            let e = prodx(sizes, i, sizes.len() as int);
            assert(e * sizes[i] == d);
            assert(e >= 0) by (nonlinear_arith)
                requires
                    e * sizes[i] == d,
                    d >= 1,
                    sizes[i] >= 1,
            ;
            lemma_div_multiples_vanish(e, sizes[i]);
            assert(sizes[i] * e == e * sizes[i]) by (nonlinear_arith);
        }
        assert forall|i: int| 0 <= i < occs.len() implies #[trigger] occs[i] >= 0 by {
            assert(occs[i] == skill_occ_part(rows, filter, parts[i], id) as int);
        }
        assert forall|i: int| 0 <= i < sizes.len() implies m <= #[trigger] sizes[i] by {
            lemma_min_ints_le(sizes, i);
        }
        lemma_wsum_le(occs, sizes, m, d);
        lemma_sum_ints_prefix_nonneg(occs);
        lemma_round_div_le(wsum(occs, sizes, m, d), d, sum_ints(occs));
        crate::rounding::lemma_round_div_nonneg(wsum(occs, sizes, m, d), d);
        lemma_sum_occs_map(rows, filter, parts, id);
        lemma_parts_cover(t, rows, filter, 256, id, 0);
        lemma_partition_decomposition(t, rows, filter, id, 0);
    }
}

pub proof fn lemma_norm_set_le_raw(t: TableV, filter: Seq<u8>, c: u16)
    ensures
        0 <= norm_set_value(t, filter, c) <= set_presence(t, t.rows, filter, c),
{
    let rows = t.rows;
    let parts = norm_parts(rows, filter);
    let sizes = norm_sizes(rows, filter);
    let occs = st_occs(t, filter, c);
    let d = prod_ints(sizes);
    let m = min_ints(sizes);
    lemma_partitions_of_props(rows, filter, 256);
    assert forall|i: int| 0 <= i < sizes.len() implies #[trigger] sizes[i] >= 1 by {
        assert(sizes[i] == part_size(rows, filter, parts[i]) as int);
        assert(part_size(rows, filter, parts[i]) > 0);
    }
    lemma_prod_ints_pos(sizes);
    if parts.len() == 0 {
        assert(wsum(occs, sizes, m, d) == 0);
        assert(d == 1);
        assert(round_div(0, 1) == 0) by {
            vstd::arithmetic::div_mod::lemma_fundamental_div_mod_converse(1, 2, 0, 1);
        }
    } else {
        lemma_min_ints_ge(sizes, 1);
        assert forall|i: int|
            0 <= i < sizes.len() implies (d / (#[trigger] sizes[i])) * sizes[i] == d && d
            / sizes[i] >= 0 by {
            lemma_prodx(sizes, i, sizes.len() as int);
            assert(sizes.take(sizes.len() as int) =~= sizes);
            let e = prodx(sizes, i, sizes.len() as int);
            assert(e * sizes[i] == d);
            assert(e >= 0) by (nonlinear_arith)
                requires
                    e * sizes[i] == d,
                    d >= 1,
                    sizes[i] >= 1,
            ;
            lemma_div_multiples_vanish(e, sizes[i]);
            assert(sizes[i] * e == e * sizes[i]) by (nonlinear_arith);
        }
        assert forall|i: int| 0 <= i < occs.len() implies #[trigger] occs[i] >= 0 by {
            assert(occs[i] == set_presence_part(t, rows, filter, parts[i], c) as int);
        }
        assert forall|i: int| 0 <= i < sizes.len() implies m <= #[trigger] sizes[i] by {
            lemma_min_ints_le(sizes, i);
        }
        lemma_wsum_le(occs, sizes, m, d);
        lemma_sum_ints_prefix_nonneg(occs);
        lemma_round_div_le(wsum(occs, sizes, m, d), d, sum_ints(occs));
        crate::rounding::lemma_round_div_nonneg(wsum(occs, sizes, m, d), d);
        lemma_sum_presence_map(t, filter, parts, c);
        lemma_parts_cover(t, rows, filter, 256, 0, c);
        lemma_partition_decomposition(t, rows, filter, 0, c);
    }
}

/// Partition-normalised top-N skills: per-partition raw counts are
/// weighted by `min_size / partition_size` (exactly, not in floating
/// point), summed and rounded half-up; the result is ranked, truncated
/// and bucketed as in the raw aggregation. With no included rows the
/// result is empty.
pub fn top_n_skills_for_partitions_normalised(
    master: &MasterTable,
    partition_filter: &[u8],
    n: usize,
) -> (r: Vec<(Skill, u64)>)
    requires
        master@.wf(),
        total_skill_occ(master@.rows, partition_filter@) <= u64::MAX,
    ensures
        view_skill_counts(r@) == top_skills_norm_spec(master@, partition_filter@, n as int),
        r@.len() <= n + 1,
{
    let ghost t = master@;
    let ghost rv = master@.rows;
    let ghost filter = partition_filter@;
    let ps = norm_stage_parts(master, partition_filter);
    let parts = ps.0;
    let sizes = ps.1;
    if parts.len() == 0 {
        let out: Vec<(Skill, u64)> = Vec::new();
        proof {
            assert(view_skill_counts(out@) =~= top_skills_norm_spec(t, filter, n as int));
        }
        return out;
    }
    let np = parts.len();
    proof {
        lemma_partitions_of_props(rv, filter, 256);
        lemma_ascending_ge(parts@, np - 1);
        assert(np <= 256);
        assert forall|j: int| 0 <= j < np implies #[trigger] sizes@[j] >= 1 by {
            assert(sizes@[j] as nat == part_size(rv, filter, parts@[j]));
            assert(part_size(rv, filter, parts@[j]) > 0);
        }
    }
    let ghost ssz = ints_of(sizes@);
    proof {
        assert(ssz =~= norm_sizes(rv, filter));
    }
    // minimum partition size
    let mut m: u64 = sizes[0];
    let mut j: usize = 1;
    proof {
        assert(ssz.take(1).len() == 1);
        assert(ssz.take(1)[0] == ssz[0]);
    }
    while j < np
        invariant
            np == sizes@.len(),
            ssz == ints_of(sizes@),
            1 <= j <= np,
            m as int == min_ints(ssz.take(j as int)),
        decreases np - j,
    {
        proof {
            assert(ssz.take(j + 1).drop_last() =~= ssz.take(j as int));
            assert(ssz.take(j + 1).last() == ssz[j as int]);
        }
        if sizes[j] < m {
            m = sizes[j];
        }
        j += 1;
    }
    proof {
        assert(ssz.take(np as int) =~= ssz);
        lemma_min_ints_ge(ssz, 1);
        assert forall|w: int| 0 <= w < np implies m <= #[trigger] sizes@[w] by {
            lemma_min_ints_le(ssz, w);
        }
    }
    let dp = norm_stage_products(&sizes);
    let d = dp.0;
    let dps = dp.1;
    // per-partition raw counters
    let mut freqs: Vec<Vec<u64>> = Vec::new();
    let mut x: usize = 0;
    while x < np
        invariant
            master@.wf(),
            t == master@,
            rv == master@.rows,
            filter == partition_filter@,
            total_skill_occ(rv, filter) <= u64::MAX,
            np == parts@.len(),
            parts@ == norm_parts(rv, filter),
            forall|w: int|
                0 <= w < np ==> part_size(rv, filter, #[trigger] parts@[w]) > 0,
            0 <= x <= np,
            freqs@.len() == x,
            forall|w: int|
                0 <= w < x ==> (#[trigger] freqs@[w]@).len() == id_space(),
            forall|w: int, id: u16|
                0 <= w < x ==> (#[trigger] freqs@[w]@[id as int]) as nat == skill_occ_part(
                    rv,
                    filter,
                    parts@[w],
                    id,
                ),
        decreases np - x,
    {
        let mut fv: Vec<u8> = Vec::new();
        fv.push(parts[x]);
        proof {
            assert(fv@ =~= seq![parts@[x as int]]);
            lemma_part_nonzero_included(rv, filter, parts@[x as int]);
            lemma_single_filter(rv, filter, parts@[x as int], 0, 0, t);
        }
        let fj = count_skill_usage(&master.rows, fv.as_slice());
        proof {
            assert forall|id: u16| (#[trigger] fj@[id as int]) as nat == skill_occ_part(
                rv,
                filter,
                parts@[x as int],
                id,
            ) by {
                lemma_single_filter(rv, filter, parts@[x as int], id, 0, t);
                assert(fj@[id as int] as nat == skill_occ(rv, fv@, id));
            }
        }
        freqs.push(fj);
        x += 1;
    }
    // the raw counters gate which ids get an entry
    let raw = count_skill_usage(&master.rows, partition_filter);
    proof {
        assert forall|id: int|
            0 <= id < raw@.len() implies raw@[id] == raw_skill_freq(t, filter)[id] by {
            let u = id as u16;
            assert(raw@[u as int] as nat == skill_occ(rv, filter, u));
            lemma_skill_occ_le_total(rv, filter, u);
        }
        assert(raw@ =~= raw_skill_freq(t, filter));
    }
    let mut prs: Vec<CountPair> = Vec::new();
    let mut id: usize = 0;
    while id < 65536
        invariant
            master@.wf(),
            t == master@,
            rv == master@.rows,
            filter == partition_filter@,
            total_skill_occ(rv, filter) <= u64::MAX,
            np == parts@.len(),
            1 <= np <= 256,
            parts@ == norm_parts(rv, filter),
            sizes@.len() == np,
            ssz == ints_of(sizes@),
            ssz == norm_sizes(rv, filter),
            forall|w: int| 0 <= w < np ==> m <= #[trigger] sizes@[w],
            m >= 1,
            m as int == min_ints(ssz),
            big_val(d@) == prod_ints(ssz),
            dps@.len() == np,
            forall|w: int|
                0 <= w < np ==> big_val(#[trigger] dps@[w]@) * sizes@[w] == big_val(d@),
            freqs@.len() == np,
            forall|w: int|
                0 <= w < np ==> (#[trigger] freqs@[w]@).len() == id_space(),
            forall|w: int, id2: u16|
                0 <= w < np ==> (#[trigger] freqs@[w]@[id2 as int]) as nat == skill_occ_part(
                    rv,
                    filter,
                    parts@[w],
                    id2,
                ),
            raw@.len() == id_space(),
            raw@ == raw_skill_freq(t, filter),
            forall|id2: u16| (#[trigger] raw@[id2 as int]) as nat == skill_occ(rv, filter, id2),
            0 <= id <= 65536,
            prs@ == gated_pairs_prefix(norm_skill_freq(t, filter), raw_skill_freq(t, filter), id as int),
        decreases 65536 - id,
    {
        let g = raw[id];
        if g > 0 {
            let ghost u = id as u16;
            let mut avals: Vec<u64> = Vec::new();
            let mut asum: u64 = 0;
            let mut w: usize = 0;
            proof {
                assert(parts@.take(0) =~= Seq::<u8>::empty());
            }
            while w < np
                invariant
                    master@.wf(),
                    t == master@,
                    rv == master@.rows,
                    filter == partition_filter@,
                    total_skill_occ(rv, filter) <= u64::MAX,
                    np == parts@.len(),
                    parts@ == norm_parts(rv, filter),
                    freqs@.len() == np,
                    u == id as u16,
                    0 <= id < 65536,
                    forall|w2: int|
                        0 <= w2 < np ==> (#[trigger] freqs@[w2]@).len() == id_space(),
                    forall|w2: int, id2: u16|
                        0 <= w2 < np ==> (#[trigger] freqs@[w2]@[id2 as int]) as nat
                            == skill_occ_part(rv, filter, parts@[w2], id2),
                    0 <= w <= np,
                    avals@.len() == w,
                    forall|w2: int|
                        0 <= w2 < w ==> (#[trigger] avals@[w2]) as nat == skill_occ_part(
                            rv,
                            filter,
                            parts@[w2],
                            u,
                        ),
                    asum as nat == sum_occ_parts(rv, filter, parts@.take(w as int), u),
                decreases np - w,
            {
                proof {
                    lemma_parts_cover(t, rv, filter, 256, u, 0);
                    lemma_partition_decomposition(t, rv, filter, u, 0);
                    lemma_skill_occ_le_total(rv, filter, u);
                    lemma_sum_occ_parts_prefix(rv, filter, parts@, u, w + 1);
                    assert(parts@.take(w + 1).drop_last() =~= parts@.take(w as int));
                    assert(parts@.take(w + 1).last() == parts@[w as int]);
                }
                let a = freqs[w][id];
                avals.push(a);
                asum = asum + a;
                w += 1;
            }
            proof {
                assert(parts@.take(np as int) =~= parts@);
                assert(ints_of(avals@) =~= sk_occs(rv, filter, u));
                lemma_sum_occs_map(rv, filter, parts@, u);
                assert(asum as int == sum_ints(ints_of(avals@)));
            }
            let v = norm_one(&avals, &sizes, m, &d, &dps, asum);
            proof {
                assert(v as int == norm_skill_value(rv, filter, u));
                lemma_norm_skill_le_raw(t, filter, u);
                assert(norm_skill_freq(t, filter)[id as int] == v);
                assert(raw_skill_freq(t, filter)[id as int] > 0);
            }
            prs.push(CountPair { count: v, id: id as u16 });
        } else {
            proof {
                assert(raw_skill_freq(t, filter)[id as int] == 0);
            }
        }
        id += 1;
    }
    proof {
        // normalised values never exceed raw counts, so the pair sum is bounded
        assert forall|i2: int|
            0 <= i2 < raw_skill_freq(t, filter).len() implies (#[trigger] norm_skill_freq(
            t,
            filter,
        )[i2]) <= raw_skill_freq(t, filter)[i2] by {
            let u2 = i2 as u16;
            lemma_norm_skill_le_raw(t, filter, u2);
            lemma_skill_occ_le_total(rv, filter, u2);
        }
        lemma_gated_pairs_sum(norm_skill_freq(t, filter), raw_skill_freq(t, filter), id_space());
        assert(raw_skill_freq(t, filter).take(id_space()) =~= raw_skill_freq(t, filter));
        assert(raw_skill_freq(t, filter) == raw@);
        assert(sum_nat(raw@) == total_skill_occ(rv, filter));
        lemma_sum_pairs_sort(prs@);
    }
    let sorted = sort_pairs(&prs);
    let out = package_skills(master, &sorted, n);
    proof {
        assert(view_skill_counts(out@) == top_skills_norm_spec(t, filter, n as int));
    }
    out
}

/// Partition-normalised top-N sets: as for skills, but over per-loadout
/// canonical-set presence counts.
pub fn top_n_sets_for_partitions_normalised(
    master: &MasterTable,
    partition_filter: &[u8],
    n: usize,
) -> (r: Vec<(ItemSet, u64)>)
    requires
        master@.wf(),
        total_armour_occ(master@.rows, partition_filter@) <= u64::MAX,
    ensures
        view_set_counts(r@) == top_sets_norm_spec(master@, partition_filter@, n as int),
        r@.len() <= n + 1,
{
    let ghost t = master@;
    let ghost rv = master@.rows;
    let ghost filter = partition_filter@;
    let resolver = crate::resolve::build_resolver(master);
    let ps = norm_stage_parts(master, partition_filter);
    let parts = ps.0;
    let sizes = ps.1;
    if parts.len() == 0 {
        let out: Vec<(ItemSet, u64)> = Vec::new();
        proof {
            assert(view_set_counts(out@) =~= top_sets_norm_spec(t, filter, n as int));
        }
        return out;
    }
    let np = parts.len();
    proof {
        lemma_partitions_of_props(rv, filter, 256);
        lemma_ascending_ge(parts@, np - 1);
        assert(np <= 256);
        assert forall|j: int| 0 <= j < np implies #[trigger] sizes@[j] >= 1 by {
            assert(sizes@[j] as nat == part_size(rv, filter, parts@[j]));
            assert(part_size(rv, filter, parts@[j]) > 0);
        }
    }
    let ghost ssz = ints_of(sizes@);
    proof {
        assert(ssz =~= norm_sizes(rv, filter));
    }
    let mut m: u64 = sizes[0];
    let mut j: usize = 1;
    proof {
        assert(ssz.take(1).len() == 1);
        assert(ssz.take(1)[0] == ssz[0]);
    }
    while j < np
        invariant
            np == sizes@.len(),
            ssz == ints_of(sizes@),
            1 <= j <= np,
            m as int == min_ints(ssz.take(j as int)),
        decreases np - j,
    {
        proof {
            assert(ssz.take(j + 1).drop_last() =~= ssz.take(j as int));
            assert(ssz.take(j + 1).last() == ssz[j as int]);
        }
        if sizes[j] < m {
            m = sizes[j];
        }
        j += 1;
    }
    proof {
        assert(ssz.take(np as int) =~= ssz);
        lemma_min_ints_ge(ssz, 1);
        assert forall|w: int| 0 <= w < np implies m <= #[trigger] sizes@[w] by {
            lemma_min_ints_le(ssz, w);
        }
    }
    let dp = norm_stage_products(&sizes);
    let d = dp.0;
    let dps = dp.1;
    let mut freqs: Vec<Vec<u64>> = Vec::new();
    let mut x: usize = 0;
    while x < np
        invariant
            master@.wf(),
            resolver.wf(),
            resolver.table@ == master@,
            t == master@,
            rv == master@.rows,
            filter == partition_filter@,
            total_armour_occ(rv, filter) <= u64::MAX,
            np == parts@.len(),
            parts@ == norm_parts(rv, filter),
            forall|w: int|
                0 <= w < np ==> part_size(rv, filter, #[trigger] parts@[w]) > 0,
            0 <= x <= np,
            freqs@.len() == x,
            forall|w: int|
                0 <= w < x ==> (#[trigger] freqs@[w]@).len() == id_space(),
            forall|w: int, c: u16|
                0 <= w < x ==> (#[trigger] freqs@[w]@[c as int]) as nat == set_presence_part(
                    t,
                    rv,
                    filter,
                    parts@[w],
                    c,
                ),
        decreases np - x,
    {
        let mut fv: Vec<u8> = Vec::new();
        fv.push(parts[x]);
        proof {
            assert(fv@ =~= seq![parts@[x as int]]);
            lemma_part_nonzero_included(rv, filter, parts@[x as int]);
            lemma_single_filter(rv, filter, parts@[x as int], 0, 0, t);
        }
        let fa = count_set_presence(master, &resolver, fv.as_slice());
        let fj = fa.0;
        proof {
            assert forall|c: u16| (#[trigger] fj@[c as int]) as nat == set_presence_part(
                t,
                rv,
                filter,
                parts@[x as int],
                c,
            ) by {
                lemma_single_filter(rv, filter, parts@[x as int], 0, c, t);
                assert(fj@[c as int] as nat == set_presence(t, rv, fv@, c));
            }
        }
        freqs.push(fj);
        x += 1;
    }
    let rawfa = count_set_presence(master, &resolver, partition_filter);
    let raw = rawfa.0;
    let nrows = master.rows.len();
    proof {
        assert(rv.len() == nrows as int);
    }
    proof {
        assert forall|id: int|
            0 <= id < raw@.len() implies raw@[id] == raw_set_freq(t, filter)[id] by {
            let c = id as u16;
            assert(raw@[c as int] as nat == set_presence(t, rv, filter, c));
            lemma_set_presence_le(t, rv, filter, c);
            assert(rv.len() == nrows as int);
        }
        assert(raw@ =~= raw_set_freq(t, filter));
    }
    let mut prs: Vec<CountPair> = Vec::new();
    let mut id: usize = 0;
    while id < 65536
        invariant
            master@.wf(),
            t == master@,
            rv == master@.rows,
            filter == partition_filter@,
            total_armour_occ(rv, filter) <= u64::MAX,
            np == parts@.len(),
            1 <= np <= 256,
            parts@ == norm_parts(rv, filter),
            sizes@.len() == np,
            ssz == ints_of(sizes@),
            ssz == norm_sizes(rv, filter),
            forall|w: int| 0 <= w < np ==> m <= #[trigger] sizes@[w],
            m >= 1,
            m as int == min_ints(ssz),
            big_val(d@) == prod_ints(ssz),
            dps@.len() == np,
            forall|w: int|
                0 <= w < np ==> big_val(#[trigger] dps@[w]@) * sizes@[w] == big_val(d@),
            freqs@.len() == np,
            forall|w: int|
                0 <= w < np ==> (#[trigger] freqs@[w]@).len() == id_space(),
            forall|w: int, c: u16|
                0 <= w < np ==> (#[trigger] freqs@[w]@[c as int]) as nat == set_presence_part(
                    t,
                    rv,
                    filter,
                    parts@[w],
                    c,
                ),
            raw@.len() == id_space(),
            raw@ == raw_set_freq(t, filter),
            forall|c: u16| (#[trigger] raw@[c as int]) as nat == set_presence(t, rv, filter, c),
            rv.len() <= u64::MAX,
            0 <= id <= 65536,
            prs@ == gated_pairs_prefix(norm_set_freq(t, filter), raw_set_freq(t, filter), id as int),
        decreases 65536 - id,
    {
        let g = raw[id];
        if g > 0 {
            let ghost u = id as u16;
            let mut avals: Vec<u64> = Vec::new();
            let mut asum: u64 = 0;
            let mut w: usize = 0;
            proof {
                assert(parts@.take(0) =~= Seq::<u8>::empty());
            }
            while w < np
                invariant
                    master@.wf(),
                    t == master@,
                    rv == master@.rows,
                    filter == partition_filter@,
                    np == parts@.len(),
                    parts@ == norm_parts(rv, filter),
                    freqs@.len() == np,
                    u == id as u16,
                    0 <= id < 65536,
                    forall|w2: int|
                        0 <= w2 < np ==> (#[trigger] freqs@[w2]@).len() == id_space(),
                    forall|w2: int, c: u16|
                        0 <= w2 < np ==> (#[trigger] freqs@[w2]@[c as int]) as nat
                            == set_presence_part(t, rv, filter, parts@[w2], c),
                    0 <= w <= np,
                    avals@.len() == w,
                    forall|w2: int|
                        0 <= w2 < w ==> (#[trigger] avals@[w2]) as nat == set_presence_part(
                            t,
                            rv,
                            filter,
                            parts@[w2],
                            u,
                        ),
                    rv.len() <= u64::MAX,
                    asum as nat == sum_presence_parts(t, rv, filter, parts@.take(w as int), u),
                decreases np - w,
            {
                proof {
                    lemma_parts_cover(t, rv, filter, 256, 0, u);
                    lemma_partition_decomposition(t, rv, filter, 0, u);
                    lemma_set_presence_le(t, rv, filter, u);
                    lemma_sum_presence_parts_prefix(t, rv, filter, parts@, u, w + 1);
                    assert(parts@.take(w + 1).drop_last() =~= parts@.take(w as int));
                    assert(parts@.take(w + 1).last() == parts@[w as int]);
                    assert(rv.len() <= u64::MAX);
                }
                let a = freqs[w][id];
                avals.push(a);
                asum = asum + a;
                w += 1;
            }
            proof {
                assert(parts@.take(np as int) =~= parts@);
                assert(ints_of(avals@) =~= st_occs(t, filter, u));
                lemma_sum_presence_map(t, filter, parts@, u);
                assert(asum as int == sum_ints(ints_of(avals@)));
            }
            let v = norm_one(&avals, &sizes, m, &d, &dps, asum);
            proof {
                assert(v as int == norm_set_value(t, filter, u));
                lemma_norm_set_le_raw(t, filter, u);
                assert(norm_set_freq(t, filter)[id as int] == v);
                assert(raw_set_freq(t, filter)[id as int] > 0);
            }
            prs.push(CountPair { count: v, id: id as u16 });
        } else {
            proof {
                assert(raw_set_freq(t, filter)[id as int] == 0);
            }
        }
        id += 1;
    }
    proof {
        assert forall|i2: int|
            0 <= i2 < raw_set_freq(t, filter).len() implies (#[trigger] norm_set_freq(
            t,
            filter,
        )[i2]) <= raw_set_freq(t, filter)[i2] by {
            let u2 = i2 as u16;
            lemma_norm_set_le_raw(t, filter, u2);
            lemma_set_presence_le(t, rv, filter, u2);
            assert(rv.len() == nrows as int);
        }
        lemma_gated_pairs_sum(norm_set_freq(t, filter), raw_set_freq(t, filter), id_space());
        assert(raw_set_freq(t, filter).take(id_space()) =~= raw_set_freq(t, filter));
        assert(raw_set_freq(t, filter) == raw@);
        assert(sum_nat(raw@) <= total_armour_occ(rv, filter));
        lemma_sum_pairs_sort(prs@);
    }
    let sorted = sort_pairs(&prs);
    let out = package_sets(master, &sorted, n);
    proof {
        assert(view_set_counts(out@) == top_sets_norm_spec(t, filter, n as int));
    }
    out
}

proof fn lemma_part_size_single(rows: Seq<RowV>, p: u8, q: u8)
    requires
        part_size(rows, seq![p], q) > 0,
    ensures
        q == p,
    decreases rows.len(),
{
    if rows.len() > 0 {
        if part_size(rows.drop_last(), seq![p], q) > 0 {
            lemma_part_size_single(rows.drop_last(), p, q);
        } else {
            let r = rows.last();
            assert(included(r, seq![p]) && r.partition_id == q);
            let w = choose|w: int| 0 <= w < 1 && seq![p][w] == r.partition_id;
            assert(seq![p][0] == p);
        }
    }
}

proof fn lemma_zero_pairs(freq: Seq<u64>, k: int)
    requires
        0 <= k <= freq.len(),
        forall|i: int| 0 <= i < freq.len() ==> #[trigger] freq[i] == 0,
    ensures
        pairs_of_prefix(freq, k) == Seq::<CountPair>::empty(),
        gated_pairs_prefix(freq, freq, k) == Seq::<CountPair>::empty(),
    decreases k,
{
    if k > 0 {
        lemma_zero_pairs(freq, k - 1);
    }
}

proof fn lemma_zero_gated(vals: Seq<u64>, gate: Seq<u64>, k: int)
    requires
        0 <= k <= gate.len(),
        forall|i: int| 0 <= i < gate.len() ==> #[trigger] gate[i] == 0,
    ensures
        gated_pairs_prefix(vals, gate, k) == Seq::<CountPair>::empty(),
    decreases k,
{
    if k > 0 {
        lemma_zero_gated(vals, gate, k - 1);
    }
}

proof fn lemma_counted_empty(t: TableV, n: int)
    requires
        0 <= n,
    ensures
        counted_skills(t, Seq::<CountPair>::empty(), n) == Seq::<(crate::model::SkillV, u64)>::empty(),
        counted_sets(t, Seq::<CountPair>::empty(), n) == Seq::<(crate::model::SetV, u64)>::empty(),
{
    assert(counted_skills(t, Seq::<CountPair>::empty(), n) =~= Seq::<
        (crate::model::SkillV, u64),
    >::empty());
    assert(counted_sets(t, Seq::<CountPair>::empty(), n) =~= Seq::<
        (crate::model::SetV, u64),
    >::empty());
}

/// Restricted to exactly one partition, the normalised aggregation is
/// numerically identical to the raw aggregation: the single weight is
/// `size / size = 1`, so every normalised count equals the raw count and
/// the ranked results coincide, order included.
pub proof fn lemma_single_partition_equivalence(t: TableV, p: u8, n: int)
    requires
        0 <= n,
    ensures
        top_skills_norm_spec(t, seq![p], n) == top_skills_spec(t, seq![p], n),
        top_sets_norm_spec(t, seq![p], n) == top_sets_spec(t, seq![p], n),
{
    let rows = t.rows;
    let f = seq![p];
    assert(f[0] == p);
    assert(f.contains(p));
    let parts = norm_parts(rows, f);
    lemma_partitions_of_props(rows, f, 256);
    if parts.len() == 0 {
        // no included rows: every raw counter is zero and both sides are empty
        assert(part_size(rows, f, p) == 0) by {
            if part_size(rows, f, p) > 0 {
                assert(parts.contains(p));
            }
        }
        lemma_empty_partition(t, rows, f, p);
        assert forall|id: int|
            0 <= id < raw_skill_freq(t, f).len() implies #[trigger] raw_skill_freq(t, f)[id]
            == 0 by {
            let u = id as u16;
            lemma_single_filter(rows, f, p, u, u, t);
            assert(skill_occ(rows, f, u) == skill_occ_part(rows, f, p, u));
        }
        assert forall|id: int|
            0 <= id < raw_set_freq(t, f).len() implies #[trigger] raw_set_freq(t, f)[id] == 0 by {
            let u = id as u16;
            lemma_single_filter(rows, f, p, u, u, t);
            assert(set_presence(t, rows, f, u) == set_presence_part(t, rows, f, p, u));
        }
        lemma_zero_pairs(raw_skill_freq(t, f), id_space());
        lemma_zero_pairs(raw_set_freq(t, f), id_space());
        lemma_counted_empty(t, n);
        assert(sort_by_spec(Seq::<CountPair>::empty(), cp_leq_f()) == Seq::<CountPair>::empty());
    } else {
        // exactly one partition: p itself
        assert forall|i: int| 0 <= i < parts.len() implies #[trigger] parts[i] == p by {
            assert(part_size(rows, f, parts[i]) > 0);
            lemma_part_size_single(rows, p, parts[i]);
        }
        assert(parts.len() == 1) by {
            if parts.len() >= 2 {
                assert(parts[0] == p && parts[1] == p);
                assert(parts[0] < parts[1]);
            }
        }
        assert(parts =~= seq![p]);
        let sp = part_size(rows, f, p) as int;
        let sizes = norm_sizes(rows, f);
        assert(sizes =~= seq![sp]);
        assert(min_ints(sizes) == sp);
        assert(prod_ints(sizes) == sp) by {
            assert(sizes.drop_last() =~= Seq::<int>::empty());
            assert(prod_ints(sizes) == prod_ints(sizes.drop_last()) * sizes.last());
            assert(prod_ints(sizes.drop_last()) == prod_ints(Seq::<int>::empty()));
            assert(prod_ints(Seq::<int>::empty()) == 1);
            assert(sizes.last() == sp);
            assert(1 * sp == sp) by (nonlinear_arith);
        }
        assert(sp >= 1);
        assert(sp / sp == 1) by {
            lemma_div_multiples_vanish(1, sp);
            assert(sp * 1 == sp) by (nonlinear_arith);
        }
        assert forall|u: u16| norm_skill_value(rows, f, u) == skill_occ(rows, f, u) as int by {
            lemma_single_filter(rows, f, p, u, u, t);
            let a = skill_occ_part(rows, f, p, u) as int;
            let occs = sk_occs(rows, f, u);
            assert(occs =~= seq![a]);
            assert(wsum(occs, sizes, sp, sp) == a * sp * (sp / sp)) by {
                assert(occs.drop_last() =~= Seq::<int>::empty());
                assert(sizes.drop_last() =~= Seq::<int>::empty());
                assert(wsum(occs, sizes, sp, sp) == wsum(
                    occs.drop_last(),
                    sizes.drop_last(),
                    sp,
                    sp,
                ) + occs.last() * sp * (sp / sizes.last()));
                assert(wsum(occs.drop_last(), sizes.drop_last(), sp, sp) == wsum(
                    Seq::<int>::empty(),
                    Seq::<int>::empty(),
                    sp,
                    sp,
                ));
                assert(occs.last() == a);
                assert(sizes.last() == sp);
            }
            assert(a * sp * 1 == a * sp) by (nonlinear_arith);
            lemma_round_div_exact(a, sp);
            assert(skill_occ(rows, f, u) == skill_occ_part(rows, f, p, u));
        }
        assert forall|u: u16| norm_set_value(t, f, u) == set_presence(t, rows, f, u) as int by {
            lemma_single_filter(rows, f, p, u, u, t);
            let a = set_presence_part(t, rows, f, p, u) as int;
            let occs = st_occs(t, f, u);
            assert(occs =~= seq![a]);
            assert(wsum(occs, sizes, sp, sp) == a * sp * (sp / sp)) by {
                assert(occs.drop_last() =~= Seq::<int>::empty());
                assert(sizes.drop_last() =~= Seq::<int>::empty());
                assert(wsum(occs, sizes, sp, sp) == wsum(
                    occs.drop_last(),
                    sizes.drop_last(),
                    sp,
                    sp,
                ) + occs.last() * sp * (sp / sizes.last()));
                assert(wsum(occs.drop_last(), sizes.drop_last(), sp, sp) == wsum(
                    Seq::<int>::empty(),
                    Seq::<int>::empty(),
                    sp,
                    sp,
                ));
                assert(occs.last() == a);
                assert(sizes.last() == sp);
            }
            assert(a * sp * 1 == a * sp) by (nonlinear_arith);
            lemma_round_div_exact(a, sp);
            assert(set_presence(t, rows, f, u) == set_presence_part(t, rows, f, p, u));
        }
        assert(norm_skill_freq(t, f) =~= raw_skill_freq(t, f));
        assert(norm_set_freq(t, f) =~= raw_set_freq(t, f));
        lemma_gated_eq_pairs(raw_skill_freq(t, f), id_space());
        lemma_gated_eq_pairs(raw_set_freq(t, f), id_space());
        assert(norm_skill_pairs(t, f) == pairs_of(raw_skill_freq(t, f)));
        assert(norm_set_pairs(t, f) == pairs_of(raw_set_freq(t, f)));
    }
}

} // verus!
