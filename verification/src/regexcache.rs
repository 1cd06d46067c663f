use std::sync::Arc;
use vstd::prelude::*;

use crate::search::{CompiledRegex, RegexSource};
use crate::text::str_eq;

verus! {

/// Compiled regexes under their cache keys, from least to most recently
/// used, at most `cap` of them (at least one).
pub struct RegexCache {
    cap: usize,
    entries: Vec<(String, Arc<CompiledRegex>)>,
}

/// What a regex cache holds: its capacity and its keys with the source of
/// each regex, from least to most recently used.
pub struct RegexCacheView {
    pub cap: nat,
    pub items: Seq<(Seq<char>, RegexSource)>,
}

impl View for RegexCache {
    type V = RegexCacheView;

    closed spec fn view(&self) -> RegexCacheView {
        RegexCacheView {
            cap: self.cap as nat,
            items: self.entries@.map_values(|e: (String, Arc<CompiledRegex>)| (e.0@, (*e.1)@)),
        }
    }
}

/// How many regexes a cache may hold: its capacity, but at least one.
pub open spec fn cache_limit(cap: nat) -> nat {
    if cap == 0 {
        1
    } else {
        cap
    }
}

/// The invariant of a regex cache: no key twice, and no more entries than
/// the limit.
pub open spec fn cache_wf(v: RegexCacheView) -> bool {
    &&& forall|i: int, j: int| 0 <= i < j < v.items.len() ==> #[trigger] v.items[i].0 != #[trigger] v.items[j].0
    &&& v.items.len() <= cache_limit(v.cap)
}

/// Whether the cache holds `key`.
pub open spec fn cache_holds(items: Seq<(Seq<char>, RegexSource)>, key: Seq<char>) -> bool {
    exists|i: int| 0 <= i < items.len() && #[trigger] items[i].0 == key
}

/// The cache after a new key was stored: the oldest entry goes when the
/// cache is full, and the new one is the most recent.
pub open spec fn cache_after_insert(v: RegexCacheView, key: Seq<char>, re: RegexSource) -> RegexCacheView {
    if v.items.len() >= v.cap && v.items.len() > 0 {
        RegexCacheView { items: v.items.drop_first().push((key, re)), ..v }
    } else {
        RegexCacheView { items: v.items.push((key, re)), ..v }
    }
}

impl RegexCache {
    /// An empty cache for `cap` regexes.
    pub fn new(cap: usize) -> (c: Self)
        ensures
            c@ == (RegexCacheView { cap: cap as nat, items: Seq::empty() }),
            cache_wf(c@),
    {
        let c = RegexCache { cap, entries: Vec::new() };
        assert(c@.items =~= Seq::<(Seq<char>, RegexSource)>::empty());
        c
    }

    /// Looks `key` up: where the cache holds it, its entry becomes the most
    /// recent and the answer is `true`; otherwise nothing changes.
    pub fn bump(&mut self, key: &str) -> (found: bool)
        requires
            cache_wf(old(self)@),
        ensures
            cache_wf(final(self)@),
            found == cache_holds(old(self)@.items, key@),
            found ==> {
                let i = choose|i: int| 0 <= i < old(self)@.items.len() && #[trigger] old(self)@.items[i].0 == key@;
                final(self)@ == (RegexCacheView {
                    items: old(self)@.items.remove(i).push(old(self)@.items[i]),
                    ..old(self)@
                })
            },
            !found ==> final(self)@ == old(self)@,
    {
        let ghost v = self@;
        let mut found: Option<usize> = None;
        let mut i: usize = 0;
        while i < self.entries.len()
            invariant_except_break
                found is None,
            invariant
                i <= self.entries@.len(),
                v == self@,
                forall|k: int| 0 <= k < i ==> #[trigger] v.items[k].0 != key@,
            ensures
                match found {
                    Some(k) => k < v.items.len() && v.items[k as int].0 == key@,
                    None => forall|k: int| 0 <= k < v.items.len() ==> #[trigger] v.items[k].0 != key@,
                },
            decreases self.entries.len() - i,
        {
            if str_eq(self.entries[i].0.as_str(), key) {
                found = Some(i);
                break;
            }
            i = i + 1;
        }
        match found {
            Some(k) => {
                proof {
                    let c = choose|c: int| 0 <= c < v.items.len() && #[trigger] v.items[c].0 == key@;
                    if c != k {
                        if c < k {
                            assert(v.items[c].0 != v.items[k as int].0);
                        } else {
                            assert(v.items[k as int].0 != v.items[c].0);
                        }
                    }
                }
                let entry = self.entries.remove(k);
                self.entries.push(entry);
                proof {
                    assert(self@.items =~= v.items.remove(k as int).push(v.items[k as int]));
                    let items = self@.items;
                    assert forall|a: int, b: int| 0 <= a < b < items.len() implies #[trigger] items[a].0
                        != #[trigger] items[b].0 by {
                        let r = v.items.remove(k as int);
                        let ia = if a < k { a } else { a + 1 };
                        assert(r[a] == v.items[ia]);
                        if b == items.len() - 1 {
                            assert(items[b] == v.items[k as int]);
                        } else {
                            let ib = if b < k { b } else { b + 1 };
                            assert(r[b] == v.items[ib]);
                        }
                    }
                }
                true
            },
            None => false,
        }
    }

    /// The most recently used regex.
    pub fn newest(&self) -> (r: &Arc<CompiledRegex>)
        requires
            self@.items.len() > 0,
        ensures
            (**r)@ == self@.items.last().1,
    {
        let n = self.entries.len();
        assert(self@.items[n - 1] == (self.entries@[n - 1].0@, (*self.entries@[n - 1].1)@));
        &self.entries[n - 1].1
    }

    /// Stores a regex under a key the cache does not hold, as the most
    /// recent, evicting the oldest when the cache is full.
    pub fn insert(&mut self, key: String, re: Arc<CompiledRegex>)
        requires
            cache_wf(old(self)@),
            !cache_holds(old(self)@.items, key@),
        ensures
            final(self)@ == cache_after_insert(old(self)@, key@, (*re)@),
            cache_wf(final(self)@),
    {
        let ghost v = self@;
        let ghost item = (key@, (*re)@);
        if self.entries.len() >= self.cap && self.entries.len() > 0 {
            self.entries.remove(0);
            proof {
                assert(self@.items =~= v.items.drop_first());
            }
        }
        let ghost before = self@.items;
        self.entries.push((key, re));
        proof {
            assert(self@.items =~= before.push(item));
            let items = self@.items;
            assert forall|a: int, b: int| 0 <= a < b < items.len() implies #[trigger] items[a].0 != #[trigger] items[b].0 by {
                if v.items.len() >= v.cap && v.items.len() > 0 {
                    assert(before[a] == v.items[a + 1]);
                    if b < items.len() - 1 {
                        assert(before[b] == v.items[b + 1]);
                    } else {
                        assert(!(v.items[a + 1].0 == key@));
                    }
                } else {
                    assert(before[a] == v.items[a]);
                    if b == items.len() - 1 {
                        assert(!(v.items[a].0 == key@));
                    }
                }
            }
        }
    }
}

/// A regex stored in the cache is the one handed back next, and a looked-up
/// key stays held.
pub proof fn lemma_regex_cache_insert(v: RegexCacheView, key: Seq<char>, re: RegexSource)
    requires
        cache_wf(v),
        !cache_holds(v.items, key),
    ensures
        cache_after_insert(v, key, re).items.last() == (key, re),
        cache_holds(cache_after_insert(v, key, re).items, key),
        cache_after_insert(v, key, re).items.len() <= cache_limit(v.cap),
{
    let w = cache_after_insert(v, key, re);
    assert(w.items[w.items.len() - 1].0 == key);
}

} // verus!
