//! An ordered table from `u32` keys to values: rows kept strictly ascending by
//! key, with the map that they hold as their model.

use vstd::prelude::*;

verus! {

pub struct OrderedTable<V> {
    pub rows: Vec<(u32, V)>,
    pub contents: Ghost<Map<u32, V>>,
}

impl<V> OrderedTable<V> {
    /// The rows are strictly ascending by key and hold exactly `contents`.
    pub open spec fn wf(&self) -> bool {
        &&& forall|i: int, j: int|
            0 <= i < j < self.rows@.len() ==> #[trigger] self.rows@[i].0 < #[trigger] self.rows@[j].0
        &&& forall|i: int|
            0 <= i < self.rows@.len() ==> self.contents@.contains_key(#[trigger] self.rows@[i].0)
                && self.contents@[self.rows@[i].0] == self.rows@[i].1
        &&& forall|k: u32|
            #[trigger] self.contents@.contains_key(k) ==> exists|i: int|
                0 <= i < self.rows@.len() && #[trigger] self.rows@[i].0 == k
    }

    pub open spec fn view(&self) -> Map<u32, V> {
        self.contents@
    }

    pub fn new() -> (r: Self)
        ensures
            r.wf(),
            r.view() == Map::<u32, V>::empty(),
    {
        OrderedTable { rows: Vec::new(), contents: Ghost(Map::empty()) }
    }

    /// The index of the first row whose key is not below `k`.
    pub fn lower_bound(&self, k: u32) -> (r: usize)
        requires
            self.wf(),
        ensures
            r <= self.rows@.len(),
            forall|i: int| 0 <= i < r ==> self.rows@[i].0 < k,
            r < self.rows@.len() ==> self.rows@[r as int].0 >= k,
    {
        let mut i: usize = 0;
        while i < self.rows.len() && self.rows[i].0 < k
            invariant
                self.wf(),
                i <= self.rows@.len(),
                forall|j: int| 0 <= j < i ==> self.rows@[j].0 < k,
            decreases self.rows@.len() - i,
        {
            i = i + 1;
        }
        i
    }

    /// The value stored under `k`, if any.
    pub fn get(&self, k: u32) -> (r: Option<&V>)
        requires
            self.wf(),
        ensures
            match r {
                Some(v) => self.view().contains_key(k) && self.view()[k] == *v,
                None => !self.view().contains_key(k),
            },
    {
        let i = self.lower_bound(k);
        if i < self.rows.len() && self.rows[i].0 == k {
            Some(&self.rows[i].1)
        } else {
            proof {
                if self.contents@.contains_key(k) {
                    let j = choose|j: int| 0 <= j < self.rows@.len() && #[trigger] self.rows@[j].0 == k;
                    if j < i {
                    } else if j > i {
                        assert(self.rows@[i as int].0 < self.rows@[j].0);
                    }
                }
            }
            None
        }
    }

    /// Sets the value under `k`, adding a row where there was none.
    pub fn insert(&mut self, k: u32, v: V)
        requires
            old(self).wf(),
        ensures
            final(self).wf(),
            final(self).view() == old(self).view().insert(k, v),
    {
        let i = self.lower_bound(k);
        let ghost old_rows = self.rows@;
        let ghost new_map = self.contents@.insert(k, v);
        if i < self.rows.len() && self.rows[i].0 == k {
            self.rows.set(i, (k, v));
            self.contents = Ghost(new_map);
            assert forall|kk: u32| #[trigger] self.contents@.contains_key(kk) implies exists|j: int|
                0 <= j < self.rows@.len() && #[trigger] self.rows@[j].0 == kk by {
                if kk != k {
                    let j = choose|j: int| 0 <= j < old_rows.len() && #[trigger] old_rows[j].0 == kk;
                    assert(self.rows@[j].0 == kk);
                } else {
                    assert(self.rows@[i as int].0 == kk);
                }
            }
        } else {
            self.rows.insert(i, (k, v));
            self.contents = Ghost(new_map);
            assert(forall|j: int| 0 <= j < i ==> self.rows@[j] == old_rows[j]);
            assert(forall|j: int| i < j < self.rows@.len() ==> self.rows@[j] == old_rows[j - 1]);
            assert forall|a: int, b: int|
                0 <= a < b < self.rows@.len() implies #[trigger] self.rows@[a].0 < #[trigger] self.rows@[b].0 by {
                if a < i && b > i {
                    assert(old_rows[a].0 < old_rows[b - 1].0 || a == b - 1);
                }
            }
            assert forall|j: int| 0 <= j < self.rows@.len() implies self.contents@.contains_key(
                #[trigger] self.rows@[j].0) && self.contents@[self.rows@[j].0] == self.rows@[j].1 by {
                if j < i {
                    assert(self.rows@[j].0 < k);
                } else if j > i {
                    assert(old_rows[j - 1].0 >= k);
                    assert(old_rows[j - 1].0 != k) by {
                        if i < old_rows.len() {
                            assert(old_rows[i as int].0 > k);
                            if j - 1 > i {
                                assert(old_rows[i as int].0 < old_rows[j - 1].0);
                            }
                        }
                    }
                }
            }
            assert forall|kk: u32| #[trigger] self.contents@.contains_key(kk) implies exists|j: int|
                0 <= j < self.rows@.len() && #[trigger] self.rows@[j].0 == kk by {
                if kk == k {
                    assert(self.rows@[i as int].0 == kk);
                } else {
                    let j = choose|j: int| 0 <= j < old_rows.len() && #[trigger] old_rows[j].0 == kk;
                    if j < i {
                        assert(self.rows@[j].0 == kk);
                    } else {
                        assert(self.rows@[j + 1].0 == kk);
                    }
                }
            }
        }
    }
}

} // verus!
