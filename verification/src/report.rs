//! The report model: one measurement snapshot holding numeric fields
//! addressed by an (I/O class, percentile label) key pair.

use vstd::prelude::*;

verus! {

/// One timestamped measurement snapshot. Values are keyed by an
/// (I/O class, percentile label) pair of strings; a value is a raw
/// integer measurement (e.g. a latency in fixed units).
pub struct Report {
    entries: Vec<(String, String, u32)>,
}

impl View for Report {
    type V = Map<(Seq<char>, Seq<char>), u32>;

    closed spec fn view(&self) -> Map<(Seq<char>, Seq<char>), u32> {
        Map::new(
            |k: (Seq<char>, Seq<char>)|
                exists|i: int|
                    0 <= i < self.entries@.len() && #[trigger] self.entries@[i].0@ == k.0
                        && self.entries@[i].1@ == k.1,
            |k: (Seq<char>, Seq<char>)|
                {
                    let i = choose|i: int|
                        0 <= i < self.entries@.len() && #[trigger] self.entries@[i].0@ == k.0
                            && self.entries@[i].1@ == k.1;
                    self.entries@[i].2
                },
        )
    }
}

impl Report {
    /// Keys are pairwise distinct, so each key addresses one value.
    pub closed spec fn wf(&self) -> bool {
        forall|i: int, j: int|
            0 <= i < j < self.entries@.len() ==> !(#[trigger] self.entries@[i].0@
                == #[trigger] self.entries@[j].0@ && self.entries@[i].1@ == self.entries@[j].1@)
    }

    /// An empty report: no key has a value.
    pub fn new() -> (r: Report)
        ensures
            r.wf(),
            r@ == Map::<(Seq<char>, Seq<char>), u32>::empty(),
    {
        let r = Report { entries: Vec::new() };
        proof {
            assert(r@ =~= Map::<(Seq<char>, Seq<char>), u32>::empty());
        }
        r
    }

    /// Looks the value for `(io, pct)` up; `None` exactly when the report
    /// holds no value under that key.
    pub fn get(&self, io: &String, pct: &String) -> (r: Option<u32>)
        requires
            self.wf(),
        ensures
            match r {
                Some(v) => self@.contains_key((io@, pct@)) && self@[(io@, pct@)] == v,
                None => !self@.contains_key((io@, pct@)),
            },
    {
        let n = self.entries.len();
        let mut i: usize = 0;
        while i < n
            invariant
                n == self.entries@.len(),
                0 <= i <= n,
                self.wf(),
                forall|j: int|
                    0 <= j < i ==> !(#[trigger] self.entries@[j].0@ == io@
                        && self.entries@[j].1@ == pct@),
            decreases n - i,
        {
            let e = &self.entries[i];
            if e.0 == *io && e.1 == *pct {
                proof {
                    let k = (io@, pct@);
                    assert(self.entries@[i as int].0@ == k.0 && self.entries@[i as int].1@ == k.1);
                    let j = choose|j: int|
                        0 <= j < self.entries@.len() && #[trigger] self.entries@[j].0@ == k.0
                            && self.entries@[j].1@ == k.1;
                    if j != i as int {
                        assert(false);
                    }
                }
                return Some(e.2);
            }
            i = i + 1;
        }
        None
    }

    /// Removes the value under `(io, pct)`, if any.
    fn delete(&mut self, io: &String, pct: &String)
        requires
            old(self).wf(),
        ensures
            final(self).wf(),
            final(self)@ == old(self)@.remove((io@, pct@)),
    {
        let ghost k = (io@, pct@);
        let n = self.entries.len();
        let mut i: usize = 0;
        while i < n
            invariant
                k.0 == io@ && k.1 == pct@,
                n == self.entries@.len(),
                0 <= i <= n,
                self.wf(),
                self@ == old(self)@,
                self.entries@ == old(self).entries@,
                forall|j: int|
                    0 <= j < i ==> !(#[trigger] self.entries@[j].0@ == k.0
                        && self.entries@[j].1@ == k.1),
            decreases n - i,
        {
            let hit = self.entries[i].0.eq(io) && self.entries[i].1.eq(pct);
            if hit {
                let ghost pre = self.entries@;
                self.entries.remove(i);
                proof {
                    let post = self.entries@;
                    assert forall|i2: int, j2: int| 0 <= i2 < j2 < post.len() implies !(#[trigger] post[i2].0@
                        == #[trigger] post[j2].0@ && post[i2].1@ == post[j2].1@) by {
                        let a = if i2 < i as int { i2 } else { i2 + 1 };
                        let b = if j2 < i as int { j2 } else { j2 + 1 };
                        assert(post[i2] == pre[a] && post[j2] == pre[b]);
                    }
                    assert forall|k2: (Seq<char>, Seq<char>)| #[trigger] self@.contains_key(k2) implies
                        old(self)@.remove(k).contains_key(k2) by {
                        let j = choose|j: int|
                            0 <= j < post.len() && #[trigger] post[j].0@ == k2.0 && post[j].1@ == k2.1;
                        let a = if j < i as int { j } else { j + 1 };
                        assert(pre[a].0@ == k2.0 && pre[a].1@ == k2.1);
                        if k2 == k {
                            assert(pre[i as int].0@ == k.0 && pre[i as int].1@ == k.1);
                            assert(false);
                        }
                    }
                    assert forall|k2: (Seq<char>, Seq<char>)|
                        #[trigger] old(self)@.remove(k).contains_key(k2) implies self@.contains_key(k2)
                        && self@[k2] == old(self)@.remove(k)[k2] by {
                        let post = self.entries@;
                        let a = choose|a: int|
                            0 <= a < pre.len() && #[trigger] pre[a].0@ == k2.0 && pre[a].1@ == k2.1;
                        if a == i as int {
                            assert(false);
                        }
                        let j = if a < i as int { a } else { a - 1 };
                        assert(post[j] == pre[a]);
                        assert(post[j].0@ == k2.0 && post[j].1@ == k2.1);
                        let w = choose|w: int|
                            0 <= w < post.len() && #[trigger] post[w].0@ == k2.0 && post[w].1@ == k2.1;
                        let wa = if w < i as int { w } else { w + 1 };
                        assert(pre[wa] == post[w]);
                        let va = choose|va: int|
                            0 <= va < pre.len() && #[trigger] pre[va].0@ == k2.0 && pre[va].1@ == k2.1;
                        if va != wa {
                            assert(false);
                        }
                    }
                    assert(self@ =~= old(self)@.remove(k));
                }
                return ;
            }
            i = i + 1;
        }
        proof {
            if self@.contains_key(k) {
                assert(false);
            }
            assert(self@ =~= old(self)@.remove(k));
        }
    }

    /// Sets the value under `(io, pct)`, replacing any earlier one.
    pub fn set(&mut self, io: &String, pct: &String, v: u32)
        requires
            old(self).wf(),
        ensures
            final(self).wf(),
            final(self)@ == old(self)@.insert((io@, pct@), v),
    {
        let ghost k = (io@, pct@);
        self.delete(io, pct);
        let ghost pre = self.entries@;
        let ghost premap = self@;
        let e = (io.clone(), pct.clone(), v);
        self.entries.push(e);
        proof {
            let post = self.entries@;
            assert(post[post.len() - 1].0@ == k.0 && post[post.len() - 1].1@ == k.1);
            assert forall|i2: int, j2: int| 0 <= i2 < j2 < post.len() implies !(#[trigger] post[i2].0@
                == #[trigger] post[j2].0@ && post[i2].1@ == post[j2].1@) by {
                if j2 == post.len() - 1 {
                    assert(post[i2] == pre[i2]);
                    if post[i2].0@ == k.0 && post[i2].1@ == k.1 {
                        assert(premap.contains_key(k));
                        assert(false);
                    }
                } else {
                    assert(post[i2] == pre[i2] && post[j2] == pre[j2]);
                }
            }
            assert forall|k2: (Seq<char>, Seq<char>)| #[trigger] self@.contains_key(k2) implies
                premap.insert(k, v).contains_key(k2) && self@[k2] == premap.insert(k, v)[k2] by {
                let j = choose|j: int|
                    0 <= j < post.len() && #[trigger] post[j].0@ == k2.0 && post[j].1@ == k2.1;
                let w = choose|w: int|
                    0 <= w < post.len() && #[trigger] post[w].0@ == k2.0 && post[w].1@ == k2.1;
                if k2 == k {
                    if w != post.len() - 1 {
                        assert(pre[w] == post[w]);
                        assert(premap.contains_key(k));
                        assert(false);
                    }
                    assert(self@[k2] == v);
                } else {
                    assert(j != post.len() - 1);
                    assert(pre[j] == post[j]);
                    assert(premap.contains_key(k2));
                    let a = choose|a: int|
                        0 <= a < pre.len() && #[trigger] pre[a].0@ == k2.0 && pre[a].1@ == k2.1;
                    assert(post[a] == pre[a]);
                    if w != a {
                        assert(false);
                    }
                    assert(premap[k2] == pre[a].2);
                }
            }
            assert forall|k2: (Seq<char>, Seq<char>)| #[trigger] premap.insert(k, v).contains_key(k2)
                implies self@.contains_key(k2) by {
                if k2 == k {
                    assert(post[post.len() - 1].0@ == k2.0 && post[post.len() - 1].1@ == k2.1);
                } else {
                    let a = choose|a: int|
                        0 <= a < pre.len() && #[trigger] pre[a].0@ == k2.0 && pre[a].1@ == k2.1;
                    assert(post[a] == pre[a]);
                    assert(post[a].0@ == k2.0 && post[a].1@ == k2.1);
                }
            }
            assert(self@ =~= premap.insert(k, v));
            assert(premap.insert(k, v) =~= old(self)@.insert(k, v));
        }
    }
}

} // verus!
