//! Canonical set resolver: groups gear-set variants that differ only by
//! the higher-tier "Perfected " name prefix and maps every member of a
//! group to one canonical id.
//!
//! Names are grouped by their UTF-8 bytes with the prefix stripped. The
//! canonical member of a group is the first listed non-prefixed member if
//! one exists, otherwise the first listed member; iteration is in id
//! order, so resolution is deterministic and idempotent.

use vstd::prelude::*;
use vstd::utf8::encode_utf8;
use crate::model::{MasterTable, TableV, SetV, ItemSet};

verus! {

/// The bytes of "Perfected ".
pub open spec fn perf_prefix() -> Seq<u8> {
    seq![80u8, 101u8, 114u8, 102u8, 101u8, 99u8, 116u8, 101u8, 100u8, 32u8]
}

pub open spec fn is_perf(b: Seq<u8>) -> bool {
    b.len() >= 10 && b.take(10) == perf_prefix()
}

/// Group key of a set name: its bytes with the variant prefix stripped.
pub open spec fn norm_key(b: Seq<u8>) -> Seq<u8> {
    if is_perf(b) {
        b.skip(10)
    } else {
        b
    }
}

pub open spec fn name_bytes(s: SetV) -> Seq<u8> {
    encode_utf8(s.name)
}

pub open spec fn set_key(s: SetV) -> Seq<u8> {
    norm_key(name_bytes(s))
}

/// First index at or after `j` whose set is a non-prefixed member of the
/// `key` group.
pub open spec fn find_base(sets: Seq<SetV>, key: Seq<u8>, j: int) -> Option<int>
    decreases sets.len() - j,
{
    if j < 0 || j >= sets.len() {
        None
    } else if set_key(sets[j]) == key && !is_perf(name_bytes(sets[j])) {
        Some(j)
    } else {
        find_base(sets, key, j + 1)
    }
}

/// First index at or after `j` whose set belongs to the `key` group.
pub open spec fn find_any(sets: Seq<SetV>, key: Seq<u8>, j: int) -> Option<int>
    decreases sets.len() - j,
{
    if j < 0 || j >= sets.len() {
        None
    } else if set_key(sets[j]) == key {
        Some(j)
    } else {
        find_any(sets, key, j + 1)
    }
}

/// The canonical id of the `key` group: the first non-prefixed member if
/// any, else the first member; 0 when the group is empty.
pub open spec fn canon_of(sets: Seq<SetV>, key: Seq<u8>) -> int {
    match find_base(sets, key, 0) {
        Some(j) => j + 1,
        None => match find_any(sets, key, 0) {
            Some(j) => j + 1,
            None => 0,
        },
    }
}

/// Total resolution map: ids in the table map to their group's canonical
/// id; id 0 and unknown ids pass through unchanged.
pub open spec fn resolve_spec(t: TableV, id: u16) -> u16 {
    if 1 <= id && id as int <= t.sets.len() {
        canon_of(t.sets, set_key(t.sets[id as int - 1])) as u16
    } else {
        id
    }
}

pub proof fn lemma_find_base_props(sets: Seq<SetV>, key: Seq<u8>, j: int)
    ensures
        match find_base(sets, key, j) {
            Some(w) => j <= w < sets.len() && set_key(sets[w]) == key && !is_perf(
                name_bytes(sets[w]),
            ),
            None => true,
        },
    decreases sets.len() - j,
{
    if 0 <= j < sets.len() {
        if !(set_key(sets[j]) == key && !is_perf(name_bytes(sets[j]))) {
            lemma_find_base_props(sets, key, j + 1);
        }
    }
}

pub proof fn lemma_find_any_props(sets: Seq<SetV>, key: Seq<u8>, j: int)
    requires
        0 <= j,
    ensures
        match find_any(sets, key, j) {
            Some(w) => j <= w < sets.len() && set_key(sets[w]) == key,
            None => forall|m: int| j <= m < sets.len() ==> set_key(#[trigger] sets[m]) != key,
        },
    decreases sets.len() - j,
{
    if 0 <= j < sets.len() {
        if set_key(sets[j]) != key {
            lemma_find_any_props(sets, key, j + 1);
        }
    } else {
    }
}

/// Within the table, resolution lands on an id of the same group, and the
/// canonical id is itself in range.
pub proof fn lemma_canon_in_range(sets: Seq<SetV>, i: int)
    requires
        0 <= i < sets.len(),
    ensures
        1 <= canon_of(sets, set_key(sets[i])) <= sets.len(),
        set_key(sets[canon_of(sets, set_key(sets[i])) - 1]) == set_key(sets[i]),
{
    let key = set_key(sets[i]);
    lemma_find_base_props(sets, key, 0);
    lemma_find_any_props(sets, key, 0);
    match find_base(sets, key, 0) {
        Some(_) => {},
        None => {
            match find_any(sets, key, 0) {
                Some(_) => {},
                None => {
                    assert(set_key(sets[i]) == key);
                },
            }
        },
    }
}

/// Resolution is idempotent: `resolve(resolve(s)) == resolve(s)` for every
/// set id `s`, known to the table or not.
pub proof fn lemma_resolve_idempotent(t: TableV, id: u16)
    requires
        t.wf(),
    ensures
        resolve_spec(t, resolve_spec(t, id)) == resolve_spec(t, id),
{
    if 1 <= id && id as int <= t.sets.len() {
        let i = id as int - 1;
        lemma_canon_in_range(t.sets, i);
        let c = canon_of(t.sets, set_key(t.sets[i]));
        assert(set_key(t.sets[c - 1]) == set_key(t.sets[i]));
    }
}

/// The resolver: `canon[i]` is the canonical id of the set with id `i + 1`.
pub struct SetResolver {
    pub canon: Vec<u16>,
    pub table: Ghost<TableV>,
}

impl SetResolver {
    pub open spec fn wf(self) -> bool {
        &&& self.table@.wf()
        &&& self.canon@.len() == self.table@.sets.len()
        &&& forall|i: int|
            0 <= i < self.canon@.len() ==> #[trigger] self.canon@[i] as int == canon_of(
                self.table@.sets,
                set_key(self.table@.sets[i]),
            )
    }

    pub fn resolve(&self, id: u16) -> (r: u16)
        requires
            self.wf(),
        ensures
            r == resolve_spec(self.table@, id),
    {
        if 1 <= id && (id as usize) <= self.canon.len() {
            self.canon[id as usize - 1]
        } else {
            id
        }
    }
}

fn bytes_eq_from(a: &[u8], off_a: usize, b: &[u8], off_b: usize) -> (r: bool)
    requires
        off_a <= a@.len(),
        off_b <= b@.len(),
    ensures
        r == (a@.skip(off_a as int) == b@.skip(off_b as int)),
{
    let la = a.len() - off_a;
    let lb = b.len() - off_b;
    if la != lb {
        proof {
            assert(a@.skip(off_a as int).len() != b@.skip(off_b as int).len());
        }
        return false;
    }
    let mut i: usize = 0;
    while i < la
        invariant
            a@.len() <= usize::MAX,
            b@.len() <= usize::MAX,
            off_a + la == a@.len(),
            off_b + la == b@.len(),
            0 <= i <= la,
            forall|m: int| 0 <= m < i ==> #[trigger] a@[off_a + m] == b@[off_b + m],
        decreases la - i,
    {
        if a[off_a + i] != b[off_b + i] {
            proof {
                assert(a@.skip(off_a as int)[i as int] != b@.skip(off_b as int)[i as int]);
            }
            return false;
        }
        i += 1;
    }
    proof {
        assert forall|m: int|
            0 <= m < a@.skip(off_a as int).len() implies a@.skip(off_a as int)[m] == b@.skip(
            off_b as int,
        )[m] by {
            assert(a@[off_a + m] == b@[off_b + m]);
        }
        assert(a@.skip(off_a as int) =~= b@.skip(off_b as int));
    }
    true
}

fn is_perfected(b: &[u8]) -> (r: bool)
    ensures
        r == is_perf(b@),
{
    if b.len() < 10 {
        return false;
    }
    let r = b[0] == 80 && b[1] == 101 && b[2] == 114 && b[3] == 102 && b[4] == 101 && b[5] == 99
        && b[6] == 116 && b[7] == 101 && b[8] == 100 && b[9] == 32;
    proof {
        if r {
            assert(b@.take(10) =~= perf_prefix());
        } else {
            assert(b@.take(10) != perf_prefix()) by {
                if b@.take(10) == perf_prefix() {
                    assert(b@[0] == perf_prefix()[0]);
                    assert(b@[1] == perf_prefix()[1]);
                    assert(b@[2] == perf_prefix()[2]);
                    assert(b@[3] == perf_prefix()[3]);
                    assert(b@[4] == perf_prefix()[4]);
                    assert(b@[5] == perf_prefix()[5]);
                    assert(b@[6] == perf_prefix()[6]);
                    assert(b@[7] == perf_prefix()[7]);
                    assert(b@[8] == perf_prefix()[8]);
                    assert(b@[9] == perf_prefix()[9]);
                }
            }
        }
    }
    r
}

/// Do two set names share a group key?
fn keys_match(a: &[u8], b: &[u8]) -> (r: bool)
    ensures
        r == (norm_key(a@) == norm_key(b@)),
{
    let off_a: usize = if is_perfected(a) {
        10
    } else {
        0
    };
    let off_b: usize = if is_perfected(b) {
        10
    } else {
        0
    };
    proof {
        assert(a@.skip(0) =~= a@);
        assert(b@.skip(0) =~= b@);
    }
    bytes_eq_from(a, off_a, b, off_b)
}

fn set_name_bytes<'a>(s: &'a ItemSet) -> (r: &'a [u8])
    ensures
        r@ == name_bytes(s@),
{
    s.name.as_str().as_bytes()
}

/// Build the resolver for a table, scanning sets in id order.
pub fn build_resolver(master: &MasterTable) -> (r: SetResolver)
    requires
        master@.wf(),
    ensures
        r.wf(),
        r.table@ == master@,
{
    let ghost sets = master@.sets;
    let n = master.sets.len();
    let mut canon: Vec<u16> = Vec::new();
    let mut i: usize = 0;
    while i < n
        invariant
            master@.wf(),
            sets == master@.sets,
            n == master.sets@.len(),
            sets.len() == n,
            0 <= i <= n,
            canon@.len() == i,
            forall|m: int|
                0 <= m < i ==> #[trigger] canon@[m] as int == canon_of(sets, set_key(sets[m])),
        decreases n - i,
    {
        proof {
            assert(sets[i as int] == master.sets@[i as int]@);
        }
        let key_bytes = set_name_bytes(&master.sets[i]);
        let ghost key = set_key(sets[i as int]);
        // first non-prefixed member of the group
        let mut base: usize = n;
        let mut j: usize = 0;
        while j < n && base == n
            invariant
                master@.wf(),
                sets == master@.sets,
                n == master.sets@.len(),
                sets.len() == n,
                0 <= i < n,
                key_bytes@ == name_bytes(sets[i as int]),
                key == set_key(sets[i as int]),
                0 <= j <= n,
                base <= n,
                base == n ==> find_base(sets, key, 0) == find_base(sets, key, j as int),
                base < n ==> find_base(sets, key, 0) == Some(base as int),
            decreases n - j,
        {
            proof {
                assert(sets[j as int] == master.sets@[j as int]@);
            }
            let cand = set_name_bytes(&master.sets[j]);
            if keys_match(cand, key_bytes) && !is_perfected(cand) {
                proof {
                    assert(set_key(sets[j as int]) == key);
                    assert(find_base(sets, key, j as int) == Some(j as int));
                }
                base = j;
            }
            j += 1;
        }
        let c: usize = if base < n {
            base + 1
        } else {
            proof {
                assert(find_base(sets, key, n as int) is None);
                assert(find_base(sets, key, 0) is None);
            }
            // no non-prefixed member: first member of the group
            let mut any: usize = n;
            let mut w: usize = 0;
            while w < n && any == n
                invariant
                    master@.wf(),
                    sets == master@.sets,
                    n == master.sets@.len(),
                    sets.len() == n,
                    0 <= i < n,
                    key_bytes@ == name_bytes(sets[i as int]),
                    key == set_key(sets[i as int]),
                    0 <= w <= n,
                    any <= n,
                    any == n ==> find_any(sets, key, 0) == find_any(sets, key, w as int),
                    any < n ==> find_any(sets, key, 0) == Some(any as int),
                decreases n - w,
            {
                proof {
                    assert(sets[w as int] == master.sets@[w as int]@);
                }
                let cand = set_name_bytes(&master.sets[w]);
                if keys_match(cand, key_bytes) {
                    proof {
                        assert(set_key(sets[w as int]) == key);
                        assert(find_any(sets, key, w as int) == Some(w as int));
                    }
                    any = w;
                }
                w += 1;
            }
            proof {
                if any == n {
                    assert(find_any(sets, key, n as int) is None);
                    assert(find_any(sets, key, 0) is None);
                    // impossible: the set itself belongs to its group
                    lemma_find_any_props(sets, key, 0);
                    assert(set_key(sets[i as int]) == key);
                    assert(false);
                }
            }
            any + 1
        };
        proof {
            assert(c <= 0xFFFF);
        }
        canon.push(c as u16);
        i += 1;
    }
    SetResolver { canon, table: Ghost(master@) }
}

} // verus!
