//! A min-priority queue of grid cells keyed by their height (a bucket queue:
//! one bucket per possible `u8` key).

use vstd::prelude::*;

verus! {

pub struct Frontier {
    buckets: Vec<Vec<(usize, usize)>>,
    /// Every bucket below `lo` is empty.
    lo: usize,
}

impl Frontier {
    /// The `i`-th entry of bucket `k`, as `(key, row, col)`.
    pub closed spec fn entry(&self, k: int, i: int) -> (int, int, int) {
        (k, self.buckets@[k]@[i].0 as int, self.buckets@[k]@[i].1 as int)
    }

    /// The entries `(key, row, col)` held.
    pub closed spec fn view(&self) -> Set<(int, int, int)> {
        Set::new(
            |e: (int, int, int)|
                0 <= e.0 < 256 && exists|i: int|
                    0 <= i < self.buckets@[e.0]@.len() && #[trigger] self.entry(e.0, i) == e,
        )
    }

    pub closed spec fn wf(&self) -> bool {
        &&& self.buckets@.len() == 256
        &&& self.lo <= 256
        &&& forall|k: int| 0 <= k < self.lo ==> #[trigger] self.buckets@[k]@.len() == 0
        &&& forall|k: int, i: int, j: int|
            0 <= k < 256 && 0 <= i < j < self.buckets@[k]@.len() ==> #[trigger] self.buckets@[k]@[i]
                != #[trigger] self.buckets@[k]@[j]
    }

    pub fn new() -> (f: Frontier)
        ensures
            f.wf(),
            f@ == Set::<(int, int, int)>::empty(),
    {
        let mut buckets: Vec<Vec<(usize, usize)>> = Vec::new();
        let mut k: usize = 0;
        while k < 256
            invariant
                k <= 256,
                buckets@.len() == k,
                forall|j: int| 0 <= j < k ==> #[trigger] buckets@[j]@.len() == 0,
            decreases 256 - k,
        {
            buckets.push(Vec::new());
            k = k + 1;
        }
        let f = Frontier { buckets, lo: 256 };
        assert(f@ =~= Set::<(int, int, int)>::empty());
        f
    }

    pub fn push(&mut self, key: u8, r: usize, c: usize)
        requires
            old(self).wf(),
            !old(self)@.contains((key as int, r as int, c as int)),
        ensures
            final(self).wf(),
            final(self)@ == old(self)@.insert((key as int, r as int, c as int)),
    {
        let k = key as usize;
        let ghost old_b = self.buckets@[k as int]@;
        self.buckets[k].push((r, c));
        if k < self.lo {
            self.lo = k;
        }
        let ghost e = (key as int, r as int, c as int);
        assert forall|i: int, j: int|
            0 <= i < j < old_b.len() + 1 implies #[trigger] self.buckets@[k as int]@[i]
            != #[trigger] self.buckets@[k as int]@[j] by {
            if j == old_b.len() {
                if self.buckets@[k as int]@[i] == (r, c) {
                    assert(old(self).entry(k as int, i) == e);
                    assert(old(self)@.contains(e));
                }
            }
        }
        assert forall|x: (int, int, int)| #[trigger] self@.contains(x) == old(self)@.insert(e).contains(x) by {
            if 0 <= x.0 < 256 && x.0 != k {
                assert(self.buckets@[x.0] == old(self).buckets@[x.0]);
                if old(self)@.contains(x) {
                    let i = choose|i: int|
                        0 <= i < old(self).buckets@[x.0]@.len() && #[trigger] old(self).entry(x.0, i) == x;
                    assert(self.entry(x.0, i) == x);
                }
                if self@.contains(x) {
                    let i = choose|i: int|
                        0 <= i < self.buckets@[x.0]@.len() && #[trigger] self.entry(x.0, i) == x;
                    assert(old(self).entry(x.0, i) == x);
                }
            }
            if x.0 == k {
                if old(self)@.contains(x) {
                    let i = choose|i: int|
                        0 <= i < old_b.len() && #[trigger] old(self).entry(x.0, i) == x;
                    assert(self.entry(x.0, i) == x);
                }
                if x == e {
                    assert(self.entry(x.0, old_b.len() as int) == x);
                }
                if self@.contains(x) && x != e {
                    let i = choose|i: int|
                        0 <= i < self.buckets@[x.0]@.len() && #[trigger] self.entry(x.0, i) == x;
                    assert(old(self).entry(x.0, i) == x);
                }
            }
        }
        assert(self@ =~= old(self)@.insert(e));
    }

    /// Removes and returns an entry of least key; `None` when empty.
    pub fn pop(&mut self) -> (res: Option<(u8, usize, usize)>)
        requires
            old(self).wf(),
        ensures
            final(self).wf(),
            res is None ==> old(self)@ == Set::<(int, int, int)>::empty() && final(self)@ == old(
                self,
            )@,
            res matches Some(e) ==> {
                &&& old(self)@.contains((e.0 as int, e.1 as int, e.2 as int))
                &&& final(self)@ == old(self)@.remove((e.0 as int, e.1 as int, e.2 as int))
                &&& forall|x: (int, int, int)| #[trigger] old(self)@.contains(x) ==> e.0 <= x.0
            },
    {
        while self.lo < 256 && self.buckets[self.lo].len() == 0
            invariant
                self.wf(),
                self.buckets@ == old(self).buckets@,
            decreases 256 - self.lo,
        {
            self.lo = self.lo + 1;
        }
        assert forall|x: (int, int, int)| #[trigger] self@.contains(x) == old(self)@.contains(x) by {
            if self@.contains(x) {
                let i = choose|i: int|
                    0 <= i < self.buckets@[x.0]@.len() && #[trigger] self.entry(x.0, i) == x;
                assert(old(self).entry(x.0, i) == x);
            }
            if old(self)@.contains(x) {
                let i = choose|i: int|
                    0 <= i < old(self).buckets@[x.0]@.len() && #[trigger] old(self).entry(x.0, i) == x;
                assert(self.entry(x.0, i) == x);
            }
        }
        assert(self@ =~= old(self)@);
        if self.lo == 256 {
            assert forall|x: (int, int, int)| !#[trigger] self@.contains(x) by {
                if 0 <= x.0 < 256 {
                    assert(self.buckets@[x.0]@.len() == 0);
                }
            }
            assert(self@ =~= Set::<(int, int, int)>::empty());
            return None;
        }
        let k = self.lo;
        let ghost old_b = self.buckets@[k as int]@;
        let ghost before = self@;
        let (r, c) = self.buckets[k].pop().unwrap();
        let ghost e = (k as int, r as int, c as int);
        assert(old_b[old_b.len() - 1] == (r, c));
        assert(old(self).entry(k as int, old_b.len() - 1) == e);
        assert(before.contains(e));
        assert forall|x: (int, int, int)| #[trigger] before.contains(x) implies k <= x.0 by {
            if x.0 < k {
                assert(self.buckets@[x.0]@.len() == 0);
            }
        }
        assert forall|x: (int, int, int)| #[trigger] self@.contains(x) == before.remove(e).contains(x) by {
            if 0 <= x.0 < 256 && x.0 != k {
                assert(self.buckets@[x.0] == old(self).buckets@[x.0]);
                if before.contains(x) {
                    let i = choose|i: int|
                        0 <= i < old(self).buckets@[x.0]@.len() && #[trigger] old(self).entry(x.0, i) == x;
                    assert(self.entry(x.0, i) == x);
                }
                if self@.contains(x) {
                    let i = choose|i: int|
                        0 <= i < self.buckets@[x.0]@.len() && #[trigger] self.entry(x.0, i) == x;
                    assert(old(self).entry(x.0, i) == x);
                }
            }
            if x.0 == k {
                if self@.contains(x) {
                    let i = choose|i: int|
                        0 <= i < self.buckets@[x.0]@.len() && #[trigger] self.entry(x.0, i) == x;
                    assert(old(self).entry(x.0, i) == x);
                    assert(old_b[i] != old_b[old_b.len() - 1]);
                }
                if before.contains(x) && x != e {
                    let i = choose|i: int|
                        0 <= i < old_b.len() && #[trigger] old(self).entry(x.0, i) == x;
                    assert(i != old_b.len() - 1);
                    assert(self.entry(x.0, i) == x);
                }
            }
        }
        assert(self@ =~= before.remove(e));
        Some((k as u8, r, c))
    }
}

} // verus!
