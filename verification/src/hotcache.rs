use vstd::prelude::*;

use vstd::slice::slice_to_vec;

use crate::text::str_eq;

verus! {

/// The texts of recently scanned files, oldest first, at most `cap` of them
/// (at least one).
pub struct HotCache {
    cap: usize,
    entries: Vec<(String, Vec<u8>)>,
}

/// What a hot cache holds: its capacity and its paths with their bytes,
/// from least to most recently stored.
pub struct HotView {
    pub cap: nat,
    pub items: Seq<(Seq<char>, Seq<u8>)>,
}

impl View for HotCache {
    type V = HotView;

    closed spec fn view(&self) -> HotView {
        HotView { cap: self.cap as nat, items: self.entries@.map_values(|e: (String, Vec<u8>)| (e.0@, e.1@)) }
    }
}

/// How many files a hot cache may hold: its capacity, but at least one.
pub open spec fn hot_limit(cap: nat) -> nat {
    if cap == 0 {
        1
    } else {
        cap
    }
}

/// No path occurs twice.
pub open spec fn hot_distinct(items: Seq<(Seq<char>, Seq<u8>)>) -> bool {
    forall|i: int, j: int| 0 <= i < j < items.len() ==> #[trigger] items[i].0 != #[trigger] items[j].0
}

/// The invariant of a hot cache: no path twice, and no more files than the
/// limit.
pub open spec fn hot_wf(v: HotView) -> bool {
    &&& hot_distinct(v.items)
    &&& v.items.len() <= hot_limit(v.cap)
}

/// Whether the cache holds `p`.
pub open spec fn hot_holds(items: Seq<(Seq<char>, Seq<u8>)>, p: Seq<char>) -> bool {
    exists|i: int| 0 <= i < items.len() && #[trigger] items[i].0 == p
}

/// The cache after `p` was stored with `b`: a path already held is replaced
/// and becomes the most recent; a new one evicts the oldest when the cache
/// is full.
pub open spec fn hot_after_insert(v: HotView, p: Seq<char>, b: Seq<u8>) -> HotView {
    if hot_holds(v.items, p) {
        let i = choose|i: int| 0 <= i < v.items.len() && #[trigger] v.items[i].0 == p;
        HotView { items: v.items.remove(i).push((p, b)), ..v }
    } else if v.items.len() >= v.cap && v.items.len() > 0 {
        HotView { items: v.items.drop_first().push((p, b)), ..v }
    } else {
        HotView { items: v.items.push((p, b)), ..v }
    }
}

impl HotCache {
    /// An empty cache for `cap` files.
    pub fn new(cap: usize) -> (c: Self)
        ensures
            c@ == (HotView { cap: cap as nat, items: Seq::empty() }),
            hot_wf(c@),
    {
        let c = HotCache { cap, entries: Vec::new() };
        assert(c@.items =~= Seq::<(Seq<char>, Seq<u8>)>::empty());
        c
    }

    /// Stores the bytes of `path` as the most recent file, evicting the
    /// oldest when a new path arrives at a full cache.
    pub fn insert(&mut self, path: String, bytes: Vec<u8>)
        requires
            hot_wf(old(self)@),
        ensures
            final(self)@ == hot_after_insert(old(self)@, path@, bytes@),
            hot_wf(final(self)@),
    {
        let ghost v = self@;
        let mut found: Option<usize> = None;
        let mut i: usize = 0;
        while i < self.entries.len()
            invariant_except_break
                found is None,
            invariant
                i <= self.entries@.len(),
                v == self@,
                forall|k: int| 0 <= k < i ==> #[trigger] v.items[k].0 != path@,
            ensures
                match found {
                    Some(k) => k < v.items.len() && v.items[k as int].0 == path@,
                    None => forall|k: int| 0 <= k < v.items.len() ==> #[trigger] v.items[k].0 != path@,
                },
            decreases self.entries.len() - i,
        {
            if str_eq(self.entries[i].0.as_str(), path.as_str()) {
                found = Some(i);
                break;
            }
            i = i + 1;
        }
        let ghost item = (path@, bytes@);
        match found {
            Some(k) => {
                proof {
                    let c = choose|c: int| 0 <= c < v.items.len() && #[trigger] v.items[c].0 == path@;
                    if c != k {
                        if c < k {
                            assert(v.items[c].0 != v.items[k as int].0);
                        } else {
                            assert(v.items[k as int].0 != v.items[c].0);
                        }
                    }
                }
                self.entries.remove(k);
                self.entries.push((path, bytes));
                proof {
                    assert(self@.items =~= v.items.remove(k as int).push(item));
                    let items = self@.items;
                    assert forall|a: int, b: int| 0 <= a < b < items.len() implies #[trigger] items[a].0
                        != #[trigger] items[b].0 by {
                        let r = v.items.remove(k as int);
                        if b == items.len() - 1 {
                            let ia = if a < k { a } else { a + 1 };
                            assert(r[a] == v.items[ia]);
                        } else {
                            let ia = if a < k { a } else { a + 1 };
                            let ib = if b < k { b } else { b + 1 };
                            assert(r[a] == v.items[ia]);
                            assert(r[b] == v.items[ib]);
                        }
                    }
                }
            },
            None => {
                if self.entries.len() >= self.cap && self.entries.len() > 0 {
                    self.entries.remove(0);
                    proof {
                        assert(self@.items =~= v.items.drop_first());
                    }
                }
                let ghost before = self@.items;
                self.entries.push((path, bytes));
                proof {
                    assert(self@.items =~= before.push(item));
                    let items = self@.items;
                    assert forall|a: int, b: int| 0 <= a < b < items.len() implies #[trigger] items[a].0
                        != #[trigger] items[b].0 by {
                        if v.items.len() >= v.cap && v.items.len() > 0 {
                            if b == items.len() - 1 {
                                assert(before[a] == v.items[a + 1]);
                            } else {
                                assert(before[a] == v.items[a + 1]);
                                assert(before[b] == v.items[b + 1]);
                            }
                        } else {
                            if b == items.len() - 1 {
                                assert(before[a] == v.items[a]);
                            }
                        }
                    }
                    assert(!hot_holds(v.items, path@));
                }
            },
        }
    }

    /// Every cached file with its bytes, oldest first.
    pub fn entries(&self) -> (out: Vec<(String, Vec<u8>)>)
        ensures
            out@.map_values(|e: (String, Vec<u8>)| (e.0@, e.1@)) == self@.items,
    {
        let mut out: Vec<(String, Vec<u8>)> = Vec::new();
        for i in 0..self.entries.len()
            invariant
                out@.len() == i,
                forall|k: int|
                    #![trigger out@[k]]
                    0 <= k < i ==> out@[k].0@ == self.entries@[k].0@ && out@[k].1@ == self.entries@[k].1@,
        {
            let ghost prev = out@;
            let path = self.entries[i].0.clone();
            let bytes = slice_to_vec(self.entries[i].1.as_slice());
            out.push((path, bytes));
            proof {
                assert forall|k: int|
                    #![trigger out@[k]]
                    0 <= k < i + 1 implies out@[k].0@ == self.entries@[k].0@ && out@[k].1@ == self.entries@[k].1@ by {
                    if k < i {
                        assert(out@[k] == prev[k]);
                    }
                }
            }
        }
        assert(out@.map_values(|e: (String, Vec<u8>)| (e.0@, e.1@)) =~= self@.items);
        out
    }
}

/// The newest file of a cache is the one stored last, and a stored file
/// stays readable until newer ones push it out.
pub proof fn lemma_hot_insert(v: HotView, p: Seq<char>, b: Seq<u8>)
    requires
        hot_wf(v),
    ensures
        hot_after_insert(v, p, b).items.last() == (p, b),
        hot_holds(hot_after_insert(v, p, b).items, p),
        hot_after_insert(v, p, b).items.len() <= hot_limit(v.cap),
{
    let w = hot_after_insert(v, p, b);
    assert(w.items[w.items.len() - 1].0 == p);
}

} // verus!
