//! The set of configurations that a search has already met.
//!
//! Configurations are kept in a list; a hash map from a 64-bit key of the
//! configuration to the list indices with that key finds a configuration
//! without walking the whole list. Two configurations may share a key, so a
//! lookup compares the configurations themselves.

use std::collections::HashMap;
use vstd::prelude::*;
use crate::pos::{on_grid, Pos, SIZE};
use crate::state::same_positions;

verus! {

/// A set of configurations, compared by their positions.
pub struct Visited {
    seen: Vec<Vec<Pos>>,
    index: HashMap<u64, Vec<usize>>,
}

/// A small number for each position: cells of the grid are numbered row by
/// row, and every position off the grid gets the next number.
spec fn cell_code(p: Pos) -> u64 {
    if p.in_bounds() {
        (p.y * SIZE + p.x) as u64
    } else {
        (SIZE * SIZE) as u64
    }
}

/// The key of a configuration of which `p` is the last position and `h` is
/// the key of what comes before it.
spec fn fold_key(h: u64, p: Pos) -> u64 {
    h.wrapping_mul(26).wrapping_add(cell_code(p))
}

/// The key under which a configuration is filed.
spec fn key_of(config: Seq<Pos>) -> u64
    decreases config.len(),
{
    if config.len() == 0 {
        0
    } else {
        fold_key(key_of(config.drop_last()), config.last())
    }
}

/// Computes the key under which `config` is filed.
fn key(config: &Vec<Pos>) -> (k: u64)
    ensures
        k == key_of(config@),
{
    let mut h: u64 = 0;
    let mut i: usize = 0;
    while i < config.len()
        invariant
            i <= config.len(),
            h == key_of(config@.take(i as int)),
        decreases config.len() - i,
    {
        let p = config[i];
        let code: u64 = if on_grid(p) {
            (p.y * SIZE + p.x) as u64
        } else {
            (SIZE * SIZE) as u64
        };
        proof {
            let longer = config@.take(i + 1);
            assert(longer.drop_last() =~= config@.take(i as int));
        }
        h = h.wrapping_mul(26).wrapping_add(code);
        i += 1;
    }
    proof {
        assert(config@.take(config.len() as int) =~= config@);
    }
    h
}

impl View for Visited {
    type V = Set<Seq<Pos>>;

    closed spec fn view(&self) -> Set<Seq<Pos>> {
        Set::new(|c: Seq<Pos>| self.holds(c))
    }
}

impl Visited {
    /// Some entry of the list is the configuration `c`.
    spec fn holds(&self, c: Seq<Pos>) -> bool {
        exists|i: int| 0 <= i < self.seen.len() && (#[trigger] self.seen[i])@ == c
    }

    /// No configuration is listed twice, every listed configuration is filed
    /// under its key, and the index points only at listed configurations.
    pub closed spec fn wf(&self) -> bool {
        &&& forall|i: int, j: int|
            0 <= i < j < self.seen.len() ==> (#[trigger] self.seen[i])@ != (
            #[trigger] self.seen[j])@
        &&& forall|i: int|
            0 <= i < self.seen.len() ==> self.filed(#[trigger] key_of(self.seen[i]@), i)
        &&& forall|k: u64, j: int|
            self.index@.contains_key(k) && 0 <= j < self.index@[k]@.len() ==> (
            #[trigger] self.index@[k]@[j]) < self.seen.len()
    }

    /// The index lists entry `i` under key `k`.
    spec fn filed(&self, k: u64, i: int) -> bool {
        self.index@.contains_key(k) && exists|j: int|
            0 <= j < self.index@[k]@.len() && #[trigger] self.index@[k]@[j] == i
    }

    /// Creates the empty set.
    pub fn new() -> (v: Visited)
        ensures
            v.wf(),
            v@ == Set::<Seq<Pos>>::empty(),
    {
        let v = Visited { seen: Vec::new(), index: HashMap::new() };
        v
    }

    /// Tells whether `config` is in the set.
    pub fn contains(&self, config: &Vec<Pos>) -> (found: bool)
        requires
            self.wf(),
        ensures
            found == self@.contains(config@),
    {
        self.lookup(key(config), config)
    }

    /// Looks for `config` among the entries filed under its key `k`.
    fn lookup(&self, k: u64, config: &Vec<Pos>) -> (found: bool)
        requires
            self.wf(),
            k == key_of(config@),
        ensures
            found == self@.contains(config@),
    {
        match self.index.get(&k) {
            None => {
                false
            },
            Some(bucket) => {
                let mut j: usize = 0;
                while j < bucket.len()
                    invariant
                        self.wf(),
                        self.index@.contains_key(k),
                        self.index@[k] == *bucket,
                        j <= bucket.len(),
                        forall|t: int|
                            0 <= t < j ==> self.seen[#[trigger] bucket@[t] as int]@ != config@,
                    decreases bucket.len() - j,
                {
                    if same_positions(&self.seen[bucket[j]], config) {
                        return true;
                    }
                    j += 1;
                }
                false
            },
        }
    }

    /// Adds `config` to the set and tells whether it was absent before.
    pub fn insert(&mut self, config: Vec<Pos>) -> (fresh: bool)
        requires
            old(self).wf(),
        ensures
            final(self).wf(),
            final(self)@ == old(self)@.insert(config@),
            fresh == !old(self)@.contains(config@),
    {
        let k = key(&config);
        if self.lookup(k, &config) {
            return false;
        }
        let at: usize = self.seen.len();
        let mut bucket: Vec<usize> = match self.index.remove(&k) {
            Some(b) => b,
            None => Vec::new(),
        };
        let ghost before = bucket@;
        bucket.push(at);
        self.seen.push(config);
        self.index.insert(k, bucket);
        proof {
            let last = at as int;
            assert forall|i: int| 0 <= i < self.seen.len() implies self.filed(
                #[trigger] key_of(self.seen[i]@),
                i,
            ) by {
                let ki = key_of(self.seen[i]@);
                if i == last {
                    assert(self.index@[k]@[before.len() as int] == i);
                } else {
                    let t = choose|t: int|
                        0 <= t < old(self).index@[ki]@.len() && #[trigger] old(self).index@[ki]@[t]
                            == i;
                    if ki == k {
                        assert(self.index@[k]@[t] == i);
                    } else {
                        assert(self.index@[ki] == old(self).index@[ki]);
                    }
                }
            }
            assert forall|c: Seq<Pos>| self.holds(c) <==> old(self).holds(c) || c
                == config@ by {
                if old(self).holds(c) {
                    let i = choose|i: int|
                        0 <= i < old(self).seen.len() && (#[trigger] old(self).seen[i])@ == c;
                    assert(self.seen[i]@ == c);
                }
                if c == config@ {
                    assert(self.seen[last]@ == c);
                }
            }
        }
        true
    }
}

} // verus!
