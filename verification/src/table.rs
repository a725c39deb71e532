//! Result tables: a percentile-label-to-value map for one row, and the
//! two-level table a matrix study produces.

use vstd::prelude::*;

verus! {

/// One row of results: values keyed by a percentile label (plus the
/// reserved labels `"cum"`, `"mean"` and `"stdev"`).
pub struct PctMap {
    entries: Vec<(String, u64)>,
}

impl View for PctMap {
    type V = Map<Seq<char>, u64>;

    closed spec fn view(&self) -> Map<Seq<char>, u64> {
        Map::new(
            |k: Seq<char>|
                exists|i: int| 0 <= i < self.entries@.len() && #[trigger] self.entries@[i].0@ == k,
            |k: Seq<char>|
                {
                    let i = choose|i: int|
                        0 <= i < self.entries@.len() && #[trigger] self.entries@[i].0@ == k;
                    self.entries@[i].1
                },
        )
    }
}

impl PctMap {
    /// Keys are pairwise distinct, so each label addresses one value.
    pub closed spec fn wf(&self) -> bool {
        forall|i: int, j: int|
            0 <= i < j < self.entries@.len() ==> #[trigger] self.entries@[i].0@
                != #[trigger] self.entries@[j].0@
    }

    /// An empty row.
    pub fn new() -> (r: PctMap)
        ensures
            r.wf(),
            r@ == Map::<Seq<char>, u64>::empty(),
    {
        let r = PctMap { entries: Vec::new() };
        proof {
            assert(r@ =~= Map::<Seq<char>, u64>::empty());
        }
        r
    }

    /// Looks the value under `label` up; `None` exactly when absent.
    pub fn get(&self, label: &String) -> (r: Option<u64>)
        requires
            self.wf(),
        ensures
            match r {
                Some(v) => self@.contains_key(label@) && self@[label@] == v,
                None => !self@.contains_key(label@),
            },
    {
        let n = self.entries.len();
        let mut i: usize = 0;
        while i < n
            invariant
                n == self.entries@.len(),
                0 <= i <= n,
                self.wf(),
                forall|j: int| 0 <= j < i ==> #[trigger] self.entries@[j].0@ != label@,
            decreases n - i,
        {
            if self.entries[i].0.eq(label) {
                proof {
                    let j = choose|j: int|
                        0 <= j < self.entries@.len() && #[trigger] self.entries@[j].0@ == label@;
                    if j != i as int {
                        assert(false);
                    }
                }
                return Some(self.entries[i].1);
            }
            i = i + 1;
        }
        None
    }

    /// Removes the value under `label`, if any.
    fn delete(&mut self, label: &String)
        requires
            old(self).wf(),
        ensures
            final(self).wf(),
            final(self)@ == old(self)@.remove(label@),
    {
        let n = self.entries.len();
        let mut i: usize = 0;
        while i < n
            invariant
                n == self.entries@.len(),
                0 <= i <= n,
                self.wf(),
                self@ == old(self)@,
                self.entries@ == old(self).entries@,
                forall|j: int| 0 <= j < i ==> #[trigger] self.entries@[j].0@ != label@,
            decreases n - i,
        {
            if self.entries[i].0.eq(label) {
                let ghost pre = self.entries@;
                self.entries.remove(i);
                proof {
                    let post = self.entries@;
                    assert forall|i2: int, j2: int| 0 <= i2 < j2 < post.len() implies #[trigger] post[i2].0@
                        != #[trigger] post[j2].0@ by {
                        let a = if i2 < i as int { i2 } else { i2 + 1 };
                        let b = if j2 < i as int { j2 } else { j2 + 1 };
                        assert(post[i2] == pre[a] && post[j2] == pre[b]);
                    }
                    assert forall|k2: Seq<char>| #[trigger] self@.contains_key(k2) implies old(
                        self,
                    )@.remove(label@).contains_key(k2) by {
                        let j = choose|j: int| 0 <= j < post.len() && #[trigger] post[j].0@ == k2;
                        let a = if j < i as int { j } else { j + 1 };
                        assert(pre[a].0@ == k2);
                        if k2 == label@ {
                            assert(false);
                        }
                    }
                    assert forall|k2: Seq<char>| #[trigger] old(self)@.remove(label@).contains_key(
                        k2,
                    ) implies self@.contains_key(k2) && self@[k2] == old(self)@.remove(label@)[k2] by {
                        let a = choose|a: int| 0 <= a < pre.len() && #[trigger] pre[a].0@ == k2;
                        if a == i as int {
                            assert(false);
                        }
                        let j = if a < i as int { a } else { a - 1 };
                        assert(post[j] == pre[a]);
                        let w = choose|w: int| 0 <= w < post.len() && #[trigger] post[w].0@ == k2;
                        let wa = if w < i as int { w } else { w + 1 };
                        assert(pre[wa] == post[w]);
                        let va = choose|va: int| 0 <= va < pre.len() && #[trigger] pre[va].0@ == k2;
                        if va != wa {
                            assert(false);
                        }
                    }
                    assert(self@ =~= old(self)@.remove(label@));
                }
                return ;
            }
            i = i + 1;
        }
        proof {
            if self@.contains_key(label@) {
                assert(false);
            }
            assert(self@ =~= old(self)@.remove(label@));
        }
    }

    /// Sets the value under `label`, replacing any earlier one.
    pub fn set(&mut self, label: &String, v: u64)
        requires
            old(self).wf(),
        ensures
            final(self).wf(),
            final(self)@ == old(self)@.insert(label@, v),
    {
        self.delete(label);
        let ghost pre = self.entries@;
        let ghost premap = self@;
        self.entries.push((label.clone(), v));
        proof {
            let post = self.entries@;
            assert(post[post.len() - 1].0@ == label@);
            assert forall|i2: int, j2: int| 0 <= i2 < j2 < post.len() implies #[trigger] post[i2].0@
                != #[trigger] post[j2].0@ by {
                if j2 == post.len() - 1 {
                    assert(post[i2] == pre[i2]);
                    if post[i2].0@ == label@ {
                        assert(premap.contains_key(label@));
                        assert(false);
                    }
                } else {
                    assert(post[i2] == pre[i2] && post[j2] == pre[j2]);
                }
            }
            assert forall|k2: Seq<char>| #[trigger] self@.contains_key(k2) implies premap.insert(
                label@,
                v,
            ).contains_key(k2) && self@[k2] == premap.insert(label@, v)[k2] by {
                let j = choose|j: int| 0 <= j < post.len() && #[trigger] post[j].0@ == k2;
                let w = choose|w: int| 0 <= w < post.len() && #[trigger] post[w].0@ == k2;
                if k2 == label@ {
                    if w != post.len() - 1 {
                        assert(pre[w] == post[w]);
                        assert(premap.contains_key(label@));
                        assert(false);
                    }
                    assert(self@[k2] == v);
                } else {
                    assert(j != post.len() - 1);
                    assert(pre[j] == post[j]);
                    assert(premap.contains_key(k2));
                    let a = choose|a: int| 0 <= a < pre.len() && #[trigger] pre[a].0@ == k2;
                    assert(post[a] == pre[a]);
                    if w != a {
                        assert(false);
                    }
                }
            }
            assert forall|k2: Seq<char>| #[trigger] premap.insert(label@, v).contains_key(k2)
                implies self@.contains_key(k2) by {
                if k2 == label@ {
                    assert(post[post.len() - 1].0@ == k2);
                } else {
                    let a = choose|a: int| 0 <= a < pre.len() && #[trigger] pre[a].0@ == k2;
                    assert(post[a] == pre[a]);
                    assert(post[a].0@ == k2);
                }
            }
            assert(self@ =~= premap.insert(label@, v));
            assert(premap.insert(label@, v) =~= old(self)@.insert(label@, v));
        }
    }
}

/// The two-level result table: row label to row of values, both levels
/// keyed by strings.
pub struct ResultTable {
    rows: Vec<(String, PctMap)>,
}

impl View for ResultTable {
    type V = Map<Seq<char>, Map<Seq<char>, u64>>;

    closed spec fn view(&self) -> Map<Seq<char>, Map<Seq<char>, u64>> {
        Map::new(
            |k: Seq<char>|
                exists|i: int| 0 <= i < self.rows@.len() && #[trigger] self.rows@[i].0@ == k,
            |k: Seq<char>|
                {
                    let i = choose|i: int|
                        0 <= i < self.rows@.len() && #[trigger] self.rows@[i].0@ == k;
                    self.rows@[i].1@
                },
        )
    }
}

impl ResultTable {
    /// Row keys are pairwise distinct and every row is well formed.
    pub closed spec fn wf(&self) -> bool {
        &&& forall|i: int, j: int|
            0 <= i < j < self.rows@.len() ==> #[trigger] self.rows@[i].0@
                != #[trigger] self.rows@[j].0@
        &&& forall|i: int| 0 <= i < self.rows@.len() ==> (#[trigger] self.rows@[i].1).wf()
    }

    /// An empty table.
    pub fn new() -> (r: ResultTable)
        ensures
            r.wf(),
            r@ == Map::<Seq<char>, Map<Seq<char>, u64>>::empty(),
    {
        let r = ResultTable { rows: Vec::new() };
        proof {
            assert(r@ =~= Map::<Seq<char>, Map<Seq<char>, u64>>::empty());
        }
        r
    }

    /// Looks a row up by its label; `None` exactly when absent.
    pub fn get_row(&self, label: &String) -> (r: Option<&PctMap>)
        requires
            self.wf(),
        ensures
            match r {
                Some(m) => self@.contains_key(label@) && self@[label@] == m@ && m.wf(),
                None => !self@.contains_key(label@),
            },
    {
        let n = self.rows.len();
        let mut i: usize = 0;
        while i < n
            invariant
                n == self.rows@.len(),
                0 <= i <= n,
                self.wf(),
                forall|j: int| 0 <= j < i ==> #[trigger] self.rows@[j].0@ != label@,
            decreases n - i,
        {
            if self.rows[i].0.eq(label) {
                proof {
                    let j = choose|j: int|
                        0 <= j < self.rows@.len() && #[trigger] self.rows@[j].0@ == label@;
                    if j != i as int {
                        assert(false);
                    }
                }
                return Some(&self.rows[i].1);
            }
            i = i + 1;
        }
        None
    }

    /// Removes the row under `label`, if any.
    fn delete_row(&mut self, label: &String)
        requires
            old(self).wf(),
        ensures
            final(self).wf(),
            final(self)@ == old(self)@.remove(label@),
    {
        let n = self.rows.len();
        let mut i: usize = 0;
        while i < n
            invariant
                n == self.rows@.len(),
                0 <= i <= n,
                self.wf(),
                self@ == old(self)@,
                self.rows@ == old(self).rows@,
                forall|j: int| 0 <= j < i ==> #[trigger] self.rows@[j].0@ != label@,
            decreases n - i,
        {
            if self.rows[i].0.eq(label) {
                let ghost pre = self.rows@;
                self.rows.remove(i);
                proof {
                    let post = self.rows@;
                    assert forall|i2: int, j2: int| 0 <= i2 < j2 < post.len() implies #[trigger] post[i2].0@
                        != #[trigger] post[j2].0@ by {
                        let a = if i2 < i as int { i2 } else { i2 + 1 };
                        let b = if j2 < i as int { j2 } else { j2 + 1 };
                        assert(post[i2] == pre[a] && post[j2] == pre[b]);
                    }
                    assert forall|i2: int| 0 <= i2 < post.len() implies (#[trigger] post[i2].1).wf() by {
                        let a = if i2 < i as int { i2 } else { i2 + 1 };
                        assert(post[i2] == pre[a]);
                    }
                    assert forall|k2: Seq<char>| #[trigger] self@.contains_key(k2) implies old(
                        self,
                    )@.remove(label@).contains_key(k2) by {
                        let j = choose|j: int| 0 <= j < post.len() && #[trigger] post[j].0@ == k2;
                        let a = if j < i as int { j } else { j + 1 };
                        assert(pre[a].0@ == k2);
                        if k2 == label@ {
                            assert(false);
                        }
                    }
                    assert forall|k2: Seq<char>| #[trigger] old(self)@.remove(label@).contains_key(
                        k2,
                    ) implies self@.contains_key(k2) && self@[k2] == old(self)@.remove(label@)[k2] by {
                        let a = choose|a: int| 0 <= a < pre.len() && #[trigger] pre[a].0@ == k2;
                        if a == i as int {
                            assert(false);
                        }
                        let j = if a < i as int { a } else { a - 1 };
                        assert(post[j] == pre[a]);
                        let w = choose|w: int| 0 <= w < post.len() && #[trigger] post[w].0@ == k2;
                        let wa = if w < i as int { w } else { w + 1 };
                        assert(pre[wa] == post[w]);
                        let va = choose|va: int| 0 <= va < pre.len() && #[trigger] pre[va].0@ == k2;
                        if va != wa {
                            assert(false);
                        }
                    }
                    assert(self@ =~= old(self)@.remove(label@));
                }
                return ;
            }
            i = i + 1;
        }
        proof {
            if self@.contains_key(label@) {
                assert(false);
            }
            assert(self@ =~= old(self)@.remove(label@));
        }
    }

    /// Sets the row under `label`, replacing any earlier one.
    pub fn set_row(&mut self, label: &String, row: PctMap)
        requires
            old(self).wf(),
            row.wf(),
        ensures
            final(self).wf(),
            final(self)@ == old(self)@.insert(label@, row@),
    {
        self.delete_row(label);
        let ghost pre = self.rows@;
        let ghost premap = self@;
        self.rows.push((label.clone(), row));
        proof {
            let post = self.rows@;
            assert(post[post.len() - 1].0@ == label@);
            assert forall|i2: int, j2: int| 0 <= i2 < j2 < post.len() implies #[trigger] post[i2].0@
                != #[trigger] post[j2].0@ by {
                if j2 == post.len() - 1 {
                    assert(post[i2] == pre[i2]);
                    if post[i2].0@ == label@ {
                        assert(premap.contains_key(label@));
                        assert(false);
                    }
                } else {
                    assert(post[i2] == pre[i2] && post[j2] == pre[j2]);
                }
            }
            assert forall|i2: int| 0 <= i2 < post.len() implies (#[trigger] post[i2].1).wf() by {
                if i2 < post.len() - 1 {
                    assert(post[i2] == pre[i2]);
                }
            }
            assert forall|k2: Seq<char>| #[trigger] self@.contains_key(k2) implies premap.insert(
                label@,
                row@,
            ).contains_key(k2) && self@[k2] == premap.insert(label@, row@)[k2] by {
                let j = choose|j: int| 0 <= j < post.len() && #[trigger] post[j].0@ == k2;
                let w = choose|w: int| 0 <= w < post.len() && #[trigger] post[w].0@ == k2;
                if k2 == label@ {
                    if w != post.len() - 1 {
                        assert(pre[w] == post[w]);
                        assert(premap.contains_key(label@));
                        assert(false);
                    }
                } else {
                    assert(j != post.len() - 1);
                    assert(pre[j] == post[j]);
                    assert(premap.contains_key(k2));
                    let a = choose|a: int| 0 <= a < pre.len() && #[trigger] pre[a].0@ == k2;
                    assert(post[a] == pre[a]);
                    if w != a {
                        assert(false);
                    }
                }
            }
            assert forall|k2: Seq<char>| #[trigger] premap.insert(label@, row@).contains_key(k2)
                implies self@.contains_key(k2) by {
                if k2 == label@ {
                    assert(post[post.len() - 1].0@ == k2);
                } else {
                    let a = choose|a: int| 0 <= a < pre.len() && #[trigger] pre[a].0@ == k2;
                    assert(post[a] == pre[a]);
                    assert(post[a].0@ == k2);
                }
            }
            assert(self@ =~= premap.insert(label@, row@));
            assert(premap.insert(label@, row@) =~= old(self)@.insert(label@, row@));
        }
    }
}

} // verus!
