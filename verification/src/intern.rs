//! A reusable interning table: assigns stable, dense, 1-based ids to
//! previously-unseen string keys, with push-if-absent semantics. Used
//! during ingestion to build the skill and player lists.

use vstd::prelude::*;

verus! {

pub struct InternTable {
    pub names: Vec<String>,
}

impl View for InternTable {
    type V = Seq<Seq<char>>;

    open spec fn view(&self) -> Seq<Seq<char>> {
        self.names@.map_values(|s: String| s@)
    }
}

impl InternTable {
    /// Keys are interned at most once.
    pub open spec fn wf(&self) -> bool {
        forall|i: int, j: int| 0 <= i < j < self@.len() ==> #[trigger] self@[i] != #[trigger] self@[j]
    }

    pub fn new() -> (r: InternTable)
        ensures
            r@.len() == 0,
            r.wf(),
    {
        let r = InternTable { names: Vec::new() };
        proof {
            assert(r@ =~= Seq::<Seq<char>>::empty());
        }
        r
    }

    pub fn len(&self) -> (r: usize)
        ensures
            r == self@.len(),
    {
        self.names.len()
    }

    /// The name interned under a 1-based id.
    pub fn name_of(&self, id: u32) -> (r: Option<String>)
        ensures
            1 <= id && id as int <= self@.len() ==> r is Some && r.unwrap()@ == self@[id - 1],
            !(1 <= id && id as int <= self@.len()) ==> r is None,
    {
        if 1 <= id && (id as usize) <= self.names.len() {
            Some(crate::model::clone_string(&self.names[(id as usize) - 1]))
        } else {
            None
        }
    }

    /// The id of a key already interned, if any.
    pub fn lookup(&self, name: &String) -> (r: Option<u32>)
        requires
            self@.len() <= 0xFFFF_FFFF,
        ensures
            match r {
                Some(id) => 1 <= id && id as int <= self@.len() && self@[id - 1] == name@,
                None => !self@.contains(name@),
            },
    {
        let n = self.names.len();
        let mut i: usize = 0;
        while i < n
            invariant
                n == self.names@.len(),
                n <= 0xFFFF_FFFF,
                0 <= i <= n,
                forall|m: int| 0 <= m < i ==> #[trigger] self@[m] != name@,
            decreases n - i,
        {
            if self.names[i].eq(name) {
                proof {
                    assert(self@[i as int] == name@);
                }
                return Some((i + 1) as u32);
            }
            i += 1;
        }
        proof {
            assert forall|m: int| 0 <= m < self@.len() implies #[trigger] self@[m] != name@ by {}
            if self@.contains(name@) {
                let w = choose|w: int| 0 <= w < self@.len() && self@[w] == name@;
            }
        }
        None
    }

    /// The dense 1-based id of `name`, interning it first if it is new.
    pub fn get_or_insert(&mut self, name: String) -> (id: u32)
        requires
            old(self).wf(),
            old(self)@.len() < 0xFFFF_FFFF,
        ensures
            final(self).wf(),
            old(self)@.contains(name@) ==> final(self)@ == old(self)@ && 1 <= id && id as int
                <= old(self)@.len() && final(self)@[id - 1] == name@,
            !old(self)@.contains(name@) ==> final(self)@ == old(self)@.push(name@) && id as int
                == old(self)@.len() + 1,
    {
        let n = self.names.len();
        let mut i: usize = 0;
        while i < n
            invariant
                self.wf(),
                self@ == old(self)@,
                n == self.names@.len(),
                n < 0xFFFF_FFFF,
                0 <= i <= n,
                forall|m: int| 0 <= m < i ==> #[trigger] self@[m] != name@,
            decreases n - i,
        {
            if self.names[i].eq(&name) {
                proof {
                    assert(self@[i as int] == name@);
                    assert(self@.contains(name@));
                }
                return (i + 1) as u32;
            }
            i += 1;
        }
        proof {
            assert forall|m: int| 0 <= m < self@.len() implies #[trigger] self@[m] != name@ by {}
            if self@.contains(name@) {
                let w = choose|w: int| 0 <= w < self@.len() && self@[w] == name@;
            }
        }
        let ghost prev = self@;
        self.names.push(name);
        proof {
            assert(self@ =~= prev.push(self@[prev.len() as int]));
            assert forall|i2: int, j2: int|
                0 <= i2 < j2 < self@.len() implies #[trigger] self@[i2] != #[trigger] self@[j2] by {
                if j2 < self@.len() - 1 {
                    assert(self@[i2] == prev[i2]);
                    assert(self@[j2] == prev[j2]);
                } else {
                    assert(self@[i2] == prev[i2]);
                }
            }
        }
        (n + 1) as u32
    }
}

} // verus!
