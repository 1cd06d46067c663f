use std::collections::HashSet;
use vstd::prelude::*;

use crate::error::FastRegexError;
use crate::filters::{spec_allows, PathFilter};
use crate::index::{
    unindexed_ids, DocumentMeta, entry_names, entry_offset, hash_listed, listed_posting, lookup_entry_at, lookup_sorted,
    parse_posting, IndexSnapshot,
};
use crate::planner::PlanExpr;
use crate::search::{ids_increasing, intersect_sorted_doc_ids, HashLogic};
use vstd::std_specs::iter::IteratorSpec;

verus! {

// ---------------------------------------------------------------------------
// What the index lists
/// The posting list that the index lists for `h`, or none.
pub open spec fn posting_in(p: Seq<u8>, l: Seq<u8>, count: nat, h: u64) -> Seq<u32> {
    if hash_listed(l, count, h) {
        let i = choose|i: int| #![trigger lookup_entry_at(l, i)] 0 <= i < count && entry_names(l, i, h);
        match parse_posting(p, entry_offset(l, i) as int) {
            Some(d) => d,
            None => Seq::empty(),
        }
    } else {
        Seq::empty()
    }
}

/// Whether an index can be searched as built: its lookup entries are sorted
/// for binary search, and every entry points at a posting list of document
/// positions that rises strictly.
pub open spec fn index_sound(s: IndexSnapshot) -> bool {
    &&& s.wf()
    &&& lookup_sorted(s.lookup(), s.entry_count())
    &&& forall|i: int|
        #![trigger lookup_entry_at(s.lookup(), i)]
        0 <= i < s.entry_count() ==> (parse_posting(s.postings(), entry_offset(s.lookup(), i) as int) matches Some(d)
            && sound_list(d, s.docs_view().len()))
}

/// Whether the ids rise strictly and are all below `n`.
pub open spec fn sound_list(d: Seq<u32>, n: nat) -> bool {
    &&& ids_increasing(d)
    &&& forall|k: int| 0 <= k < d.len() ==> (#[trigger] d[k] as int) < n
}

/// The posting list of `h` in the index.
pub open spec fn index_posting(s: IndexSnapshot, h: u64) -> Seq<u32> {
    posting_in(s.postings(), s.lookup(), s.entry_count(), h)
}

/// The documents that every hash's posting list holds (none for no hashes).
pub open spec fn spec_intersection(s: IndexSnapshot, hashes: Seq<u64>) -> Set<u32> {
    if hashes.len() == 0 {
        Set::empty()
    } else {
        Set::new(|x: u32| forall|j: int| 0 <= j < hashes.len() ==> #[trigger] index_posting(s, hashes[j]).contains(x))
    }
}

/// The documents that some hash's posting list holds.
pub open spec fn spec_union(s: IndexSnapshot, hashes: Seq<u64>) -> Set<u32> {
    Set::new(|x: u32| exists|j: int| 0 <= j < hashes.len() && #[trigger] index_posting(s, hashes[j]).contains(x))
}

/// Whether the index's search results are the same as before.
pub open spec fn same_index(a: IndexSnapshot, b: IndexSnapshot) -> bool {
    &&& a.postings() == b.postings()
    &&& a.lookup() == b.lookup()
    &&& a.entry_count() == b.entry_count()
    &&& a.docs_view() == b.docs_view()
    &&& a.bigram_view() == b.bigram_view()
    &&& a.repo_view() == b.repo_view()
    &&& a.commit_view() == b.commit_view()
}

/// Indexes with the same contents give the same intersections.
proof fn lemma_same_intersection(a: IndexSnapshot, b: IndexSnapshot, hashes: Seq<u64>)
    requires
        same_index(a, b),
    ensures
        spec_intersection(a, hashes) == spec_intersection(b, hashes),
{
    assert forall|h: u64| index_posting(a, h) == index_posting(b, h) by {}
    assert(spec_intersection(a, hashes) =~= spec_intersection(b, hashes));
}

pub proof fn lemma_posting_result(s: IndexSnapshot, h: u64, r: Option<Seq<u32>>)
    requires
        index_sound(s),
        match r {
            Some(d) => listed_posting(s.postings(), s.lookup(), s.entry_count(), h, d),
            None => !hash_listed(s.lookup(), s.entry_count(), h),
        },
    ensures
        index_posting(s, h) == match r {
            Some(d) => d,
            None => Seq::<u32>::empty(),
        },
        sound_list(index_posting(s, h), s.docs_view().len()),
{
    let p = s.postings();
    let l = s.lookup();
    let count = s.entry_count();
    match r {
        Some(d) => {
            let i = choose|i: int| #![trigger lookup_entry_at(l, i)] 0 <= i < count && entry_names(l, i, h) && parse_posting(p, entry_offset(l, i) as int) == Some(d);
            assert(hash_listed(l, count, h));
            let c = choose|c: int| #![trigger lookup_entry_at(l, c)] 0 <= c < count && entry_names(l, c, h);
            if c != i {
                if c < i {
                    assert(crate::index::entry_hash(l, c) < crate::index::entry_hash(l, i));
                } else {
                    assert(crate::index::entry_hash(l, i) < crate::index::entry_hash(l, c));
                }
            }
            assert(lookup_entry_at(l, i) is Some);
        },
        None => {},
    }
}

/// The posting list of `hash`, empty where none is listed.
fn posting_or_empty(index: &mut IndexSnapshot, hash: u64) -> (r: Result<Vec<u32>, FastRegexError>)
    requires
        old(index).wf(),
    ensures
        final(index).wf(),
        same_index(*final(index), *old(index)),
        index_sound(*old(index)) ==> (r matches Ok(d) && d@ == index_posting(*old(index), hash)),
        index_sound(*old(index)) ==> index_sound(*final(index)),
        r matches Err(e) ==> e is CorruptIndex,
{
    let found = index.posting_for_hash(hash);
    proof {
        if index_sound(*old(index)) {
            match &found {
                Ok(Some(d)) => {
                    lemma_posting_result(*old(index), hash, Some(d@));
                },
                Ok(None) => {
                    lemma_posting_result(*old(index), hash, None);
                },
                Err(_) => {
                    let l = old(index).lookup();
                    let c = choose|c: int| #![trigger lookup_entry_at(l, c)] 0 <= c < old(index).entry_count() && entry_names(l, c, hash) && parse_posting(old(index).postings(), entry_offset(l, c) as int) is None;
                    assert(lookup_entry_at(l, c) is Some);
                },
            }
        }
    }
    match found {
        Ok(Some(d)) => Ok(d),
        Ok(None) => Ok(Vec::new()),
        Err(e) => Err(e),
    }
}

// ---------------------------------------------------------------------------
// Bitsets
/// Whether bit `b` of `w` is set.
pub open spec fn bit_on(w: u64, b: u64) -> bool {
    w & (1u64 << b) != 0
}

proof fn lemma_bit_set(w: u64, b: u64, c: u64)
    requires
        b < 64,
        c < 64,
    ensures
        bit_on(w | (1u64 << b), c) == (c == b || bit_on(w, c)),
{
    assert((w | (1u64 << b)) & (1u64 << c) != 0 <==> (c == b || w & (1u64 << c) != 0)) by (bit_vector)
        requires
            b < 64,
            c < 64,
    ;
}

proof fn lemma_bit_and(x: u64, y: u64, c: u64)
    requires
        c < 64,
    ensures
        bit_on(x & y, c) == (bit_on(x, c) && bit_on(y, c)),
{
    assert((x & y) & (1u64 << c) != 0 <==> (x & (1u64 << c) != 0 && y & (1u64 << c) != 0)) by (bit_vector)
        requires
            c < 64,
    ;
}

proof fn lemma_bit_zero(c: u64)
    requires
        c < 64,
    ensures
        !bit_on(0, c),
{
    assert(0u64 & (1u64 << c) == 0) by (bit_vector)
        requires
            c < 64,
    ;
}

/// Whether the bitset holds `x` (below `n`).
pub open spec fn in_bits(words: Seq<u64>, n: nat, x: int) -> bool {
    0 <= x < n && x / 64 < words.len() && bit_on(words[x / 64], (x % 64) as u64)
}

/// A bitset with room for `n` ids, all clear.
fn empty_bits(n: usize) -> (words: Vec<u64>)
    ensures
        words@.len() == (n as int + 63) / 64,
        forall|x: int| !#[trigger] in_bits(words@, n as nat, x),
{
    let count = n / 64 + if n % 64 == 0 { 0 } else { 1 };
    let mut words: Vec<u64> = Vec::new();
    for i in 0..count
        invariant
            words@.len() == i,
            forall|k: int| 0 <= k < i ==> #[trigger] words@[k] == 0,
    {
        words.push(0);
    }
    assert forall|x: int| !#[trigger] in_bits(words@, n as nat, x) by {
        if 0 <= x < n && x / 64 < words@.len() {
            lemma_bit_zero((x % 64) as u64);
        }
    }
    words
}

/// Whether `x` is an id of `list`.
pub open spec fn holds_id(list: Seq<u32>, x: int) -> bool {
    0 <= x <= u32::MAX && list.contains(x as u32)
}

/// The bitset of the ids of `list` below `n`.
fn bits_of(list: &Vec<u32>, n: usize) -> (words: Vec<u64>)
    ensures
        words@.len() == (n as int + 63) / 64,
        forall|x: int| #[trigger] in_bits(words@, n as nat, x) <==> (0 <= x < n && holds_id(list@, x)),
{
    let mut words = empty_bits(n);
    for i in 0..list.len()
        invariant
            words@.len() == (n as int + 63) / 64,
            forall|x: int| #[trigger] in_bits(words@, n as nat, x) <==> (0 <= x < n && holds_id(list@.take(i as int), x)),
    {
        let id = list[i] as usize;
        let ghost before = words@;
        let ghost pre = list@.take(i as int);
        let ghost cur = list@.take(i + 1);
        assert(cur =~= pre.push(list@[i as int]));
        assert forall|x: int| #[trigger] holds_id(cur, x) <==> (holds_id(pre, x) || x == list@[i as int] as int) by {
            if holds_id(cur, x) && x != list@[i as int] as int {
                let t = choose|t: int| #![trigger cur[t]] 0 <= t < cur.len() && cur[t] == x as u32;
                assert(pre[t] == x as u32);
            }
            if x == list@[i as int] as int {
                assert(cur[i as int] == x as u32);
            }
            if holds_id(pre, x) {
                let t = choose|t: int| #![trigger pre[t]] 0 <= t < pre.len() && pre[t] == x as u32;
                assert(cur[t] == x as u32);
            }
        }
        if id < n {
            let w = id / 64;
            let b = (id % 64) as u64;
            let v = words[w] | (1u64 << b);
            words.set(w, v);
            proof {
                assert forall|x: int| #[trigger] in_bits(words@, n as nat, x) <==> (0 <= x < n && holds_id(cur, x)) by {
                    assert(in_bits(before, n as nat, x) <==> (0 <= x < n && holds_id(pre, x)));
                    if 0 <= x < n {
                        assert(x / 64 < words@.len());
                        if x / 64 == w as int {
                            lemma_bit_set(before[x / 64], b, (x % 64) as u64);
                            assert(words@[x / 64] == before[x / 64] | (1u64 << b));
                            assert(x == 64 * (x / 64) + x % 64);
                            assert(id as int == 64 * (w as int) + b as int);
                            assert(((x % 64) as u64 == b) <==> (x == id as int));
                        } else {
                            assert(words@[x / 64] == before[x / 64]);
                            assert(x != id as int);
                        }
                    }
                }
            }
        }
    }
    assert(list@.take(list@.len() as int) =~= list@);
    words
}

/// Clears in `acc` every bit that `other` does not have.
fn and_bits(acc: &mut Vec<u64>, other: &Vec<u64>, n: usize)
    requires
        old(acc)@.len() == other@.len(),
    ensures
        final(acc)@.len() == old(acc)@.len(),
        forall|x: int| #[trigger] in_bits(final(acc)@, n as nat, x) <==> (in_bits(old(acc)@, n as nat, x) && in_bits(other@, n as nat, x)),
{
    let ghost start = acc@;
    let len = acc.len();
    for i in 0..len
        invariant
            len == start.len(),
            acc@.len() == start.len(),
            start.len() == other@.len(),
            forall|k: int| 0 <= k < i ==> #[trigger] acc@[k] == start[k] & other@[k],
            forall|k: int| i <= k < acc@.len() ==> #[trigger] acc@[k] == start[k],
    {
        let v = acc[i] & other[i];
        acc.set(i, v);
    }
    assert forall|x: int| #[trigger] in_bits(acc@, n as nat, x) <==> (in_bits(start, n as nat, x) && in_bits(other@, n as nat, x)) by {
        if 0 <= x < n && x / 64 < acc@.len() {
            lemma_bit_and(start[x / 64], other@[x / 64], (x % 64) as u64);
        }
    }
}

/// Whether position `a` sorts before `b`: shorter list first, then by position.
pub open spec fn len_before(lens: Seq<usize>, a: usize, b: usize) -> bool {
    lens[a as int] < lens[b as int] || (lens[a as int] == lens[b as int] && a < b)
}

/// Whether position `j` occurs in `order`.
pub open spec fn has_pos(order: Seq<usize>, j: int) -> bool {
    exists|k: int| 0 <= k < order.len() && #[trigger] order[k] as int == j
}

/// The positions of the lists, shortest list first (ties by position).
fn order_by_len(lens: &Vec<usize>) -> (order: Vec<usize>)
    ensures
        order@.len() == lens@.len(),
        order@.no_duplicates(),
        forall|j: int| 0 <= j < lens@.len() ==> #[trigger] has_pos(order@, j),
        forall|k: int| 0 <= k < order@.len() ==> #[trigger] order@[k] < lens@.len(),
        forall|a: int, b: int| 0 <= a < b < order@.len() ==> len_before(lens@, #[trigger] order@[a], #[trigger] order@[b]),
{
    let mut order: Vec<usize> = Vec::new();
    for i in 0..lens.len()
        invariant
            order@.len() == i,
            order@.no_duplicates(),
            forall|j: int| 0 <= j < i ==> #[trigger] has_pos(order@, j),
            forall|k: int| 0 <= k < order@.len() ==> #[trigger] order@[k] < i,
            forall|a: int, b: int| 0 <= a < b < order@.len() ==> len_before(lens@, #[trigger] order@[a], #[trigger] order@[b]),
    {
        let mut pos: usize = 0;
        while pos < order.len() && lens[order[pos]] <= lens[i]
            invariant
                pos <= order@.len(),
                i < lens@.len(),
                forall|k: int| 0 <= k < order@.len() ==> #[trigger] order@[k] < i,
                forall|k: int| 0 <= k < pos ==> lens@[#[trigger] order@[k] as int] <= lens@[i as int],
            decreases order@.len() - pos,
        {
            pos += 1;
        }
        let ghost before = order@;
        order.insert(pos, i);
        proof {
            assert forall|a: int, b: int| 0 <= a < b < order@.len() implies #[trigger] order@[a] != #[trigger] order@[b] by {
                if a < pos && b < pos {
                    assert(before[a] != before[b]);
                } else if a < pos && b > pos {
                    assert(before[a] != before[b - 1]);
                } else if a > pos {
                    assert(before[a - 1] != before[b - 1]);
                } else if a == pos {
                    assert(order@[b] == before[b - 1]);
                } else {
                    assert(order@[a] == before[a]);
                }
            }
            assert forall|j: int| 0 <= j < i + 1 implies #[trigger] has_pos(order@, j) by {
                if j == i {
                    assert(order@[pos as int] as int == j);
                } else {
                    assert(has_pos(before, j));
                    let t = choose|t: int| 0 <= t < before.len() && #[trigger] before[t] as int == j;
                    if t < pos {
                        assert(order@[t] as int == j);
                    } else {
                        assert(order@[t + 1] as int == j);
                    }
                }
            }
            assert forall|k: int| 0 <= k < order@.len() implies #[trigger] order@[k] < i + 1 by {
                if k < pos {
                    assert(order@[k] == before[k]);
                } else if k > pos {
                    assert(order@[k] == before[k - 1]);
                }
            }
            assert forall|a: int, b: int| 0 <= a < b < order@.len() implies len_before(lens@, #[trigger] order@[a], #[trigger] order@[b]) by {
                if b < pos {
                    assert(order@[a] == before[a] && order@[b] == before[b]);
                } else if b == pos {
                    assert(order@[a] == before[a]);
                    assert(lens@[before[a] as int] <= lens@[i as int]);
                } else if a == pos {
                    assert(order@[b] == before[b - 1]);
                    assert(!(lens@[before[pos as int] as int] <= lens@[i as int]));
                    if b - 1 > pos {
                        assert(len_before(lens@, before[pos as int], before[b - 1]));
                    }
                } else if a < pos {
                    assert(order@[a] == before[a] && order@[b] == before[b - 1]);
                } else {
                    assert(order@[a] == before[a - 1] && order@[b] == before[b - 1]);
                }
            }
        }
    }
    order
}

/// The set of the ids.
fn set_of(ids: &Vec<u32>) -> (s: HashSet<u32>)
    ensures
        s@ == ids@.to_set(),
{
    let mut s: HashSet<u32> = HashSet::new();
    for i in 0..ids.len()
        invariant
            s@ == ids@.take(i as int).to_set(),
    {
        s.insert(ids[i]);
        proof {
            assert(ids@.take(i + 1) =~= ids@.take(i as int).push(ids@[i as int]));
            ids@.take(i as int).lemma_push_to_set_commute(ids@[i as int]);
        }
    }
    assert(ids@.take(ids@.len() as int) =~= ids@);
    s
}

/// The documents that every list of `lists`, taken in `order`, holds.
pub open spec fn lists_meet(lists: Seq<Seq<u32>>, order: Seq<usize>, t: int) -> Set<u32> {
    Set::new(|x: u32| forall|k: int| 0 <= k < t ==> #[trigger] lists[order[k] as int].contains(x))
}

/// The documents in every posting list of `hashes`: by a bitset when the
/// lists are long compared with the number of documents, else by merging
/// sorted lists, shortest first.
pub fn intersect_hashes(index: &mut IndexSnapshot, hashes: &[u64]) -> (r: Result<HashSet<u32>, FastRegexError>)
    requires
        old(index).wf(),
    ensures
        final(index).wf(),
        same_index(*final(index), *old(index)),
        index_sound(*old(index)) ==> (r matches Ok(set) && set@ == spec_intersection(*old(index), hashes@)),
        index_sound(*old(index)) ==> index_sound(*final(index)),
        r matches Err(e) ==> e is CorruptIndex,
{
    if hashes.len() == 0 {
        return Ok(HashSet::new());
    }
    let ghost s0 = *index;
    let ghost n = index.docs_view().len();
    let mut lists: Vec<Vec<u32>> = Vec::new();
    for j in 0..hashes.len()
        invariant
            index.wf(),
            s0 == *old(index),
            same_index(*index, s0),
            index_sound(s0) ==> index_sound(*index),
            n == s0.docs_view().len(),
            lists@.len() == j,
            index_sound(s0) ==> forall|t: int| 0 <= t < j ==> #[trigger] lists@[t]@ == index_posting(s0, hashes@[t]),
            index_sound(s0) ==> forall|t: int| 0 <= t < j ==> sound_list(#[trigger] lists@[t]@, n),
            forall|t: int| 0 <= t < j ==> #[trigger] lists@[t]@.len() > 0,
    {
        let posting = match posting_or_empty(index, hashes[j]) {
            Ok(p) => p,
            Err(e) => {
                return Err(e);
            },
        };
        proof {
            if index_sound(s0) {
                lemma_posting_result_sound(s0, *index, hashes@[j as int]);
            }
        }
        if posting.len() == 0 {
            proof {
                if index_sound(s0) {
                    assert(spec_intersection(s0, hashes@) =~= Set::<u32>::empty()) by {
                        assert forall|x: u32| !spec_intersection(s0, hashes@).contains(x) by {
                            assert(!index_posting(s0, hashes@[j as int]).contains(x));
                        }
                    }
                }
            }
            return Ok(HashSet::new());
        }
        lists.push(posting);
    }
    let mut lens: Vec<usize> = Vec::new();
    let mut total: usize = 0;
    for j in 0..lists.len()
        invariant
            index.wf(),
            s0 == *old(index),
            same_index(*index, s0),
            index_sound(s0) ==> index_sound(*index),
            lens@.len() == j,
            forall|t: int| 0 <= t < j ==> #[trigger] lens@[t] == lists@[t]@.len(),
    {
        lens.push(lists[j].len());
        total = total.saturating_add(lists[j].len());
    }
    let order = order_by_len(&lens);
    let ghost ls = lists@.map_values(|v: Vec<u32>| v@);
    proof {
        if index_sound(s0) {
            assert(spec_intersection(s0, hashes@) =~= lists_meet(ls, order@, order@.len() as int)) by {
                assert forall|x: u32| spec_intersection(s0, hashes@).contains(x) <==> lists_meet(ls, order@, order@.len() as int).contains(x) by {
                    if spec_intersection(s0, hashes@).contains(x) {
                        assert forall|k: int| 0 <= k < order@.len() implies #[trigger] ls[order@[k] as int].contains(x) by {
                            assert(index_posting(s0, hashes@[order@[k] as int]).contains(x));
                        }
                    }
                    if lists_meet(ls, order@, order@.len() as int).contains(x) {
                        assert forall|j: int| 0 <= j < hashes@.len() implies #[trigger] index_posting(s0, hashes@[j]).contains(x) by {
                            assert(has_pos(order@, j));
                            let k = choose|k: int| 0 <= k < order@.len() && #[trigger] order@[k] as int == j;
                            assert(ls[order@[k] as int].contains(x));
                        }
                    }
                }
            }
        }
    }
    let doc_count = index.doc_count();
    if doc_count > 0 && total > doc_count.saturating_add(doc_count) && doc_count <= 1_000_000 {
        let mut bitset = bits_of(&lists[order[0]], doc_count);
        proof {
            assert forall|x: int| #[trigger] in_bits(bitset@, doc_count as nat, x) <==> (0 <= x < doc_count && x <= u32::MAX && lists_meet(ls, order@, 1).contains(x as u32)) by {
                if 0 <= x <= u32::MAX {
                    let y = x as u32;
                    assert(lists_meet(ls, order@, 1).contains(y) <==> ls[order@[0] as int].contains(y)) by {
                        if ls[order@[0] as int].contains(y) {
                            assert forall|k: int| 0 <= k < 1 implies #[trigger] ls[order@[k] as int].contains(y) by {}
                        }
                    }
                }
            }
        }
        for t in 1..order.len()
            invariant
                index.wf(),
                s0 == *old(index),
                same_index(*index, s0),
                index_sound(s0) ==> index_sound(*index),
                order@.len() == lists@.len(),
                forall|k: int| 0 <= k < order@.len() ==> #[trigger] order@[k] < lists@.len(),
                ls == lists@.map_values(|v: Vec<u32>| v@),
                bitset@.len() == (doc_count as int + 63) / 64,
                forall|x: int| #[trigger] in_bits(bitset@, doc_count as nat, x) <==> (0 <= x < doc_count && x <= u32::MAX && lists_meet(ls, order@, t as int).contains(x as u32)),
        {
            let next = bits_of(&lists[order[t]], doc_count);
            let ghost before = bitset@;
            and_bits(&mut bitset, &next, doc_count);
            proof {
                assert forall|x: int| #[trigger] in_bits(bitset@, doc_count as nat, x) <==> (0 <= x < doc_count && x <= u32::MAX && lists_meet(ls, order@, t + 1).contains(x as u32)) by {
                    assert(in_bits(before, doc_count as nat, x) <==> (0 <= x < doc_count && x <= u32::MAX && lists_meet(ls, order@, t as int).contains(x as u32)));
                    assert(in_bits(next@, doc_count as nat, x) <==> (0 <= x < doc_count && holds_id(ls[order@[t as int] as int], x)));
                    if 0 <= x <= u32::MAX {
                        let y = x as u32;
                        assert(lists_meet(ls, order@, t + 1).contains(y) <==> (lists_meet(ls, order@, t as int).contains(y) && ls[order@[t as int] as int].contains(y))) by {
                            if lists_meet(ls, order@, t as int).contains(y) && ls[order@[t as int] as int].contains(y) {
                                assert forall|k: int| 0 <= k < t + 1 implies #[trigger] ls[order@[k] as int].contains(y) by {
                                }
                            }
                        }
                    }
                }
            }
        }
        let mut out: HashSet<u32> = HashSet::new();
        let words = bitset.len();
        for word_idx in 0..words
            invariant
                index.wf(),
                s0 == *old(index),
                same_index(*index, s0),
                index_sound(s0) ==> index_sound(*index),
                words == bitset@.len(),
                bitset@.len() == (doc_count as int + 63) / 64,
                doc_count <= 1_000_000,
                forall|x: u32| #[trigger] out@.contains(x) <==> (x < word_idx * 64 && in_bits(bitset@, doc_count as nat, x as int)),
        {
            let w = bitset[word_idx];
            for bit in 0..64u64
                invariant
                index.wf(),
                s0 == *old(index),
                same_index(*index, s0),
                index_sound(s0) ==> index_sound(*index),
                    w == bitset@[word_idx as int],
                    word_idx < words,
                    words == bitset@.len(),
                    bitset@.len() == (doc_count as int + 63) / 64,
                    doc_count <= 1_000_000,
                    forall|x: u32| #[trigger] out@.contains(x) <==> (x < word_idx * 64 + bit && in_bits(bitset@, doc_count as nat, x as int)),
            {
                let doc_id = word_idx * 64 + bit as usize;
                if doc_id < doc_count && (w & (1u64 << bit)) != 0 {
                    out.insert(doc_id as u32);
                }
                proof {
                    assert forall|x: u32| #[trigger] out@.contains(x) <==> (x < word_idx * 64 + bit + 1 && in_bits(bitset@, doc_count as nat, x as int)) by {
                        if x as int == doc_id as int {
                            assert((x as int) / 64 == word_idx as int);
                            assert((x as int) % 64 == bit as int);
                        }
                    }
                }
            }
        }
        proof {
            if index_sound(s0) {
                assert(out@ =~= lists_meet(ls, order@, order@.len() as int)) by {
                    assert forall|x: u32| #[trigger] lists_meet(ls, order@, order@.len() as int).contains(x) implies (x as int) < doc_count by {
                        assert(ls[order@[0] as int].contains(x));
                        let k = choose|k: int| 0 <= k < ls[order@[0] as int].len() && ls[order@[0] as int][k] == x;
                        assert(sound_list(lists@[order@[0] as int]@, n));
                    }
                    assert forall|x: u32| out@.contains(x) <==> lists_meet(ls, order@, order@.len() as int).contains(x) by {
                        if (x as int) < doc_count {
                            assert(x < words * 64);
                        }
                    }
                }
            }
        }
        return Ok(out);
    }
    let mut acc = lists[order[0]].clone();
    proof {
        assert(acc@ == ls[order@[0] as int]);
        assert(acc@.to_set() =~= lists_meet(ls, order@, 1));
    }
    for t in 1..order.len()
        invariant
            index.wf(),
            s0 == *old(index),
            same_index(*index, s0),
            index_sound(s0) ==> index_sound(*index),
            order@.len() == lists@.len(),
            forall|k: int| 0 <= k < order@.len() ==> #[trigger] order@[k] < lists@.len(),
            ls == lists@.map_values(|v: Vec<u32>| v@),
            index_sound(s0) ==> forall|q: int| 0 <= q < lists@.len() ==> sound_list(#[trigger] lists@[q]@, n),
            index_sound(s0) ==> ids_increasing(acc@) && acc@.to_set() == lists_meet(ls, order@, t as int),
            index_sound(s0) ==> spec_intersection(s0, hashes@) == lists_meet(ls, order@, order@.len() as int),
    {
        let ghost prev = acc@;
        let q = order[t];
        acc = intersect_sorted_doc_ids(acc.as_slice(), lists[q].as_slice());
        proof {
            if index_sound(s0) {
                assert(sound_list(lists@[q as int]@, n));
                assert(ls[q as int] == lists@[q as int]@);
                assert(acc@.to_set() =~= lists_meet(ls, order@, t + 1)) by {
                    assert forall|x: u32| lists_meet(ls, order@, t + 1).contains(x) <==> (lists_meet(ls, order@, t as int).contains(x) && ls[q as int].contains(x)) by {
                        if lists_meet(ls, order@, t as int).contains(x) && ls[q as int].contains(x) {
                            assert forall|k: int| 0 <= k < t + 1 implies #[trigger] ls[order@[k] as int].contains(x) by {}
                        }
                    }
                }
            }
        }
        if acc.len() == 0 {
            proof {
                if index_sound(s0) {
                    assert(lists_meet(ls, order@, order@.len() as int) =~= Set::<u32>::empty()) by {
                        assert forall|x: u32| !lists_meet(ls, order@, order@.len() as int).contains(x) by {
                            if lists_meet(ls, order@, order@.len() as int).contains(x) {
                                assert(lists_meet(ls, order@, t + 1).contains(x));
                                assert(acc@.to_set().contains(x));
                            }
                        }
                    }
                }
            }
            return Ok(HashSet::new());
        }
    }
    Ok(set_of(&acc))
}

proof fn lemma_posting_result_sound(s0: IndexSnapshot, s: IndexSnapshot, h: u64)
    requires
        index_sound(s0),
        same_index(s, s0),
    ensures
        sound_list(index_posting(s0, h), s0.docs_view().len()),
{
    if hash_listed(s0.lookup(), s0.entry_count(), h) {
        let l = s0.lookup();
        let i = choose|i: int| #![trigger lookup_entry_at(l, i)] 0 <= i < s0.entry_count() && entry_names(l, i, h);
        assert(lookup_entry_at(l, i) is Some);
    }
}

/// The members of the set, each once, in the set's iteration order.
fn members(set: &HashSet<u32>) -> (v: Vec<u32>)
    ensures
        v@.to_set() == set@,
        v@.no_duplicates(),
{
    let mut v: Vec<u32> = Vec::new();
    proof {
        broadcast use vstd::std_specs::hash::axiom_spec_hash_keys_iter;
        assert(set.iter().remaining().unref().to_set() == set@);
        assert(set.iter().remaining().no_duplicates());
        assert forall|a: int, b: int| 0 <= a < b < set.iter().remaining().unref().len() implies set.iter().remaining().unref()[a]
            != set.iter().remaining().unref()[b] by {
            assert(set.iter().remaining()[a] != set.iter().remaining()[b]);
        }
        assert(set.iter().remaining().len() == 0 ==> v@ =~= set.iter().remaining().unref());
    }
    for x in it: set.iter()
        invariant
            it.seq() == set.iter().remaining(),
            it.seq().unref().to_set() == set@,
            it.seq().unref().no_duplicates(),
            v@ == it.seq().unref().take(it.index() as int),
            it.index() == it.seq().len() ==> v@ == it.seq().unref(),
        ensures
            v@.to_set() == set@,
            v@.no_duplicates(),
    {
        v.push(*x);
        assert(it.seq().unref().take(it.index() + 1) =~= it.seq().unref().take(it.index() as int).push(*x));
        assert(it.seq().unref().take(it.seq().len() as int) =~= it.seq().unref());
    }
    v
}

// ---------------------------------------------------------------------------
// Base candidates
/// Whether the filter lets document `id` through (the document at position
/// `id`).
pub open spec fn doc_allowed(docs: Seq<DocumentMeta>, f: PathFilter, id: u32) -> bool {
    (id as int) < docs.len() && spec_allows(f.allow_patterns(), f.exclude_patterns(), docs[id as int].path@)
}

/// The ids of all documents that the filter lets through.
pub open spec fn all_allowed(docs: Seq<DocumentMeta>, f: PathFilter) -> Set<u32> {
    Set::new(|x: u32| (exists|i: int| 0 <= i < docs.len() && #[trigger] docs[i].doc_id == x) && doc_allowed(docs, f, x))
}

/// The ids of the unindexed documents that the filter lets through.
pub open spec fn unindexed_allowed(docs: Seq<DocumentMeta>, f: PathFilter) -> Set<u32> {
    Set::new(|x: u32| (exists|i: int| 0 <= i < docs.len() && #[trigger] docs[i].doc_id == x && !docs[i].indexed) && doc_allowed(docs, f, x))
}

/// The ids of `set` that the filter lets through.
pub open spec fn allowed_part(docs: Seq<DocumentMeta>, f: PathFilter, set: Set<u32>) -> Set<u32> {
    Set::new(|x: u32| set.contains(x) && doc_allowed(docs, f, x))
}

/// The documents that some branch's posting lists all hold.
pub open spec fn spec_branch_union(s: IndexSnapshot, bs: Seq<Vec<u64>>) -> Set<u32> {
    Set::new(|x: u32| exists|b: int| 0 <= b < bs.len() && #[trigger] spec_intersection(s, bs[b]@).contains(x))
}

/// The documents of the index that can match a plan: those whose posting
/// lists hold the plan's grams (with the unindexed documents), or all
/// documents when the plan selects none; always within the filter.
pub open spec fn spec_base_candidates(s: IndexSnapshot, expr: PlanExpr, f: PathFilter) -> Set<u32> {
    let docs = s.docs_view();
    match expr {
        PlanExpr::AllDocs => all_allowed(docs, f),
        PlanExpr::And(hs) => {
            let found = allowed_part(docs, f, spec_intersection(s, hs@));
            if found.is_empty() {
                all_allowed(docs, f)
            } else {
                found.union(unindexed_allowed(docs, f))
            }
        },
        PlanExpr::Or(bs) => {
            let found = spec_branch_union(s, bs@);
            if found.is_empty() {
                all_allowed(docs, f)
            } else {
                allowed_part(docs, f, found).union(unindexed_allowed(docs, f))
            }
        },
    }
}

/// Whether the filter lets document `doc_id` (taken as a position) through.
fn allowed_doc(index: &IndexSnapshot, filter: &PathFilter, doc_id: u32) -> (r: bool)
    ensures
        r == doc_allowed(index.docs_view(), *filter, doc_id),
{
    match index.doc_by_id(doc_id) {
        Some(doc) => filter.allows(doc.path.as_str()),
        None => false,
    }
}

/// Adds to `out` every document id that the filter lets through.
fn add_all_allowed(index: &IndexSnapshot, filter: &PathFilter, out: &mut HashSet<u32>)
    ensures
        final(out)@ == old(out)@.union(all_allowed(index.docs_view(), *filter)),
{
    let ids = index.all_doc_ids();
    let ghost docs = index.docs_view();
    for k in 0..ids.len()
        invariant
            ids@ == docs.map_values(|d: DocumentMeta| d.doc_id),
            docs == index.docs_view(),
            out@ == old(out)@.union(Set::new(|x: u32| (exists|i: int| 0 <= i < k && #[trigger] docs[i].doc_id == x) && doc_allowed(docs, *filter, x))),
    {
        let id = ids[k];
        let ghost before = out@;
        if allowed_doc(index, filter, id) {
            out.insert(id);
        }
        proof {
            assert(out@ =~= old(out)@.union(Set::new(|x: u32| (exists|i: int| 0 <= i < k + 1 && #[trigger] docs[i].doc_id == x) && doc_allowed(docs, *filter, x)))) by {
                assert(docs[k as int].doc_id == id);
            }
        }
    }
}

proof fn lemma_unindexed_ids(docs: Seq<DocumentMeta>)
    ensures
        forall|x: u32| #[trigger] unindexed_ids(docs).contains(x) <==> exists|i: int| 0 <= i < docs.len() && #[trigger] docs[i].doc_id == x && !docs[i].indexed,
    decreases docs.len(),
{
    if docs.len() > 0 {
        let pre = docs.drop_last();
        lemma_unindexed_ids(pre);
        assert forall|x: u32| #[trigger] unindexed_ids(docs).contains(x) <==> exists|i: int| 0 <= i < docs.len() && #[trigger] docs[i].doc_id == x && !docs[i].indexed by {
            if unindexed_ids(docs).contains(x) {
                if unindexed_ids(pre).contains(x) {
                    let i = choose|i: int| 0 <= i < pre.len() && #[trigger] pre[i].doc_id == x && !pre[i].indexed;
                    assert(docs[i] == pre[i]);
                } else {
                    assert(!docs.last().indexed && docs.last().doc_id == x) by {
                        let t = choose|t: int| 0 <= t < unindexed_ids(docs).len() && unindexed_ids(docs)[t] == x;
                        if !docs.last().indexed {
                            if t < unindexed_ids(pre).len() {
                                assert(unindexed_ids(pre)[t] == x);
                            }
                        } else {
                            assert(unindexed_ids(pre)[t] == x);
                        }
                    }
                    assert(docs[docs.len() - 1].doc_id == x);
                }
            }
            if exists|i: int| 0 <= i < docs.len() && #[trigger] docs[i].doc_id == x && !docs[i].indexed {
                let i = choose|i: int| 0 <= i < docs.len() && #[trigger] docs[i].doc_id == x && !docs[i].indexed;
                if i < docs.len() - 1 {
                    assert(pre[i] == docs[i]);
                    assert(unindexed_ids(pre).contains(x));
                    let t = choose|t: int| 0 <= t < unindexed_ids(pre).len() && unindexed_ids(pre)[t] == x;
                    assert(unindexed_ids(docs)[t] == x);
                } else {
                    assert(unindexed_ids(docs).last() == x);
                }
            }
        }
    }
}

/// Adds to `out` every unindexed document id that the filter lets through.
fn add_unindexed_allowed(index: &IndexSnapshot, filter: &PathFilter, out: &mut HashSet<u32>)
    ensures
        final(out)@ == old(out)@.union(unindexed_allowed(index.docs_view(), *filter)),
{
    let ids = index.unindexed_doc_ids();
    let ghost docs = index.docs_view();
    proof {
        lemma_unindexed_ids(docs);
    }
    for k in 0..ids.len()
        invariant
            ids@ == unindexed_ids(docs),
            docs == index.docs_view(),
            forall|x: u32| #[trigger] unindexed_ids(docs).contains(x) <==> exists|i: int| 0 <= i < docs.len() && #[trigger] docs[i].doc_id == x && !docs[i].indexed,
            out@ == old(out)@.union(Set::new(|x: u32| ids@.take(k as int).contains(x) && doc_allowed(docs, *filter, x))),
    {
        let id = ids[k];
        if allowed_doc(index, filter, id) {
            out.insert(id);
        }
        proof {
            assert(ids@.take(k + 1) =~= ids@.take(k as int).push(id));
            assert forall|x: u32| ids@.take(k + 1).contains(x) <==> (ids@.take(k as int).contains(x) || x == id) by {
                if ids@.take(k + 1).contains(x) && x != id {
                    let t = choose|t: int| #![trigger ids@.take(k + 1)[t]] 0 <= t < k + 1 && ids@.take(k + 1)[t] == x;
                    assert(ids@.take(k as int)[t] == x);
                }
                if ids@.take(k as int).contains(x) {
                    let t = choose|t: int| #![trigger ids@.take(k as int)[t]] 0 <= t < k && ids@.take(k as int)[t] == x;
                    assert(ids@.take(k + 1)[t] == x);
                }
                if x == id {
                    assert(ids@.take(k + 1)[k as int] == x);
                }
            }
            assert(out@ =~= old(out)@.union(Set::new(|x: u32| ids@.take(k + 1).contains(x) && doc_allowed(docs, *filter, x))));
        }
    }
    proof {
        assert(ids@.take(ids@.len() as int) =~= ids@);
        assert(out@ =~= old(out)@.union(unindexed_allowed(docs, *filter)));
    }
}

/// The ids of `set` that the filter lets through.
fn retain_allowed(index: &IndexSnapshot, filter: &PathFilter, set: &HashSet<u32>) -> (out: HashSet<u32>)
    ensures
        out@ == allowed_part(index.docs_view(), *filter, set@),
{
    let items = members(set);
    let mut out: HashSet<u32> = HashSet::new();
    for k in 0..items.len()
        invariant
            items@.to_set() == set@,
            out@ == Set::new(|x: u32| items@.take(k as int).contains(x) && doc_allowed(index.docs_view(), *filter, x)),
    {
        let id = items[k];
        if allowed_doc(index, filter, id) {
            out.insert(id);
        }
        proof {
            assert forall|x: u32| items@.take(k + 1).contains(x) <==> (items@.take(k as int).contains(x) || x == id) by {
                if items@.take(k + 1).contains(x) && x != id {
                    let t = choose|t: int| #![trigger items@.take(k + 1)[t]] 0 <= t < k + 1 && items@.take(k + 1)[t] == x;
                    assert(items@.take(k as int)[t] == x);
                }
                if items@.take(k as int).contains(x) {
                    let t = choose|t: int| #![trigger items@.take(k as int)[t]] 0 <= t < k && items@.take(k as int)[t] == x;
                    assert(items@.take(k + 1)[t] == x);
                }
                if x == id {
                    assert(items@.take(k + 1)[k as int] == x);
                }
            }
            assert(out@ =~= Set::new(|x: u32| items@.take(k + 1).contains(x) && doc_allowed(index.docs_view(), *filter, x)));
        }
    }
    proof {
        assert(items@.take(items@.len() as int) =~= items@);
        assert(out@ =~= allowed_part(index.docs_view(), *filter, set@));
    }
    out
}

/// Adds the members of `other` to `out`.
fn extend_set(out: &mut HashSet<u32>, other: &HashSet<u32>)
    ensures
        final(out)@ == old(out)@.union(other@),
{
    let items = members(other);
    for k in 0..items.len()
        invariant
            items@.to_set() == other@,
            out@ == old(out)@.union(items@.take(k as int).to_set()),
    {
        out.insert(items[k]);
        proof {
            assert(items@.take(k + 1) =~= items@.take(k as int).push(items@[k as int]));
            items@.take(k as int).lemma_push_to_set_commute(items@[k as int]);
            assert(out@ =~= old(out)@.union(items@.take(k + 1).to_set()));
        }
    }
    assert(items@.take(items@.len() as int) =~= items@);
}

/// The documents of the index that can match the plan, within the filter.
pub fn base_candidates(index: &mut IndexSnapshot, expr: &PlanExpr, filter: &PathFilter) -> (r: Result<
    HashSet<u32>,
    FastRegexError,
>)
    requires
        old(index).wf(),
    ensures
        final(index).wf(),
        same_index(*final(index), *old(index)),
        index_sound(*old(index)) ==> (r matches Ok(set) && set@ == spec_base_candidates(*old(index), *expr, *filter)),
        r matches Ok(set) ==> forall|x: u32| #[trigger] set@.contains(x) ==> doc_allowed(old(index).docs_view(), *filter, x),
        index_sound(*old(index)) ==> index_sound(*final(index)),
        r matches Err(e) ==> e is CorruptIndex,
{
    let ghost s0 = *index;
    match expr {
        PlanExpr::AllDocs => {
            let mut out: HashSet<u32> = HashSet::new();
            add_all_allowed(index, filter, &mut out);
            assert(out@ =~= all_allowed(s0.docs_view(), *filter));
            Ok(out)
        },
        PlanExpr::And(hashes) => {
            let inter = match intersect_hashes(index, hashes.as_slice()) {
                Ok(set) => set,
                Err(e) => {
                    return Err(e);
                },
            };
            let mut filtered = retain_allowed(index, filter, &inter);
            if filtered.is_empty() {
                let mut out: HashSet<u32> = HashSet::new();
                add_all_allowed(index, filter, &mut out);
                assert(out@ =~= all_allowed(s0.docs_view(), *filter));
                return Ok(out);
            }
            add_unindexed_allowed(index, filter, &mut filtered);
            Ok(filtered)
        },
        PlanExpr::Or(branches) => {
            let mut out: HashSet<u32> = HashSet::new();
            for b in 0..branches.len()
                invariant
                    index.wf(),
                    s0 == *old(index),
                    same_index(*index, s0),
                    index_sound(s0) ==> index_sound(*index),
                    *expr == PlanExpr::Or(*branches),
                    index_sound(s0) ==> out@ == Set::new(|x: u32| exists|c: int| 0 <= c < b && #[trigger] spec_intersection(s0, branches@[c]@).contains(x)),
            {
                let ghost before = *index;
                let part = match intersect_hashes(index, branches[b].as_slice()) {
                    Ok(set) => set,
                    Err(e) => {
                        return Err(e);
                    },
                };
                extend_set(&mut out, &part);
                proof {
                    if index_sound(s0) {
                        lemma_same_intersection(before, s0, branches@[b as int]@);
                        assert(out@ =~= Set::new(|x: u32| exists|c: int| 0 <= c < b + 1 && #[trigger] spec_intersection(s0, branches@[c]@).contains(x)));
                    }
                }
            }
            proof {
                if index_sound(s0) {
                    assert(out@ =~= spec_branch_union(s0, branches@));
                }
            }
            if out.is_empty() {
                let mut all: HashSet<u32> = HashSet::new();
                add_all_allowed(index, filter, &mut all);
                assert(all@ =~= all_allowed(s0.docs_view(), *filter));
                return Ok(all);
            }
            let mut kept = retain_allowed(index, filter, &out);
            add_unindexed_allowed(index, filter, &mut kept);
            Ok(kept)
        },
    }
}


/// The ids of all documents.
pub open spec fn doc_ids(docs: Seq<DocumentMeta>) -> Set<u32> {
    Set::new(|x: u32| exists|i: int| 0 <= i < docs.len() && #[trigger] docs[i].doc_id == x)
}

/// The documents that a hash search can match before filtering: those in
/// every posting list (all documents for no hashes), or in some posting list.
pub open spec fn spec_hash_matches(s: IndexSnapshot, hashes: Seq<u64>, logic: HashLogic) -> Set<u32> {
    match logic {
        HashLogic::And => if hashes.len() == 0 {
            doc_ids(s.docs_view())
        } else {
            spec_intersection(s, hashes)
        },
        HashLogic::Or => spec_union(s, hashes),
    }
}

/// The candidates of a hash search: the matching documents within the
/// filter, with the unindexed documents within the filter.
pub open spec fn spec_base_candidates_hash(s: IndexSnapshot, hashes: Seq<u64>, logic: HashLogic, f: PathFilter) -> Set<u32> {
    allowed_part(s.docs_view(), f, spec_hash_matches(s, hashes, logic)).union(unindexed_allowed(s.docs_view(), f))
}

/// Adds the ids of `v` to `out`.
fn extend_from_vec(out: &mut HashSet<u32>, v: &Vec<u32>)
    ensures
        final(out)@ == old(out)@.union(v@.to_set()),
{
    for k in 0..v.len()
        invariant
            out@ == old(out)@.union(v@.take(k as int).to_set()),
    {
        out.insert(v[k]);
        proof {
            assert(v@.take(k + 1) =~= v@.take(k as int).push(v@[k as int]));
            v@.take(k as int).lemma_push_to_set_commute(v@[k as int]);
            assert(out@ =~= old(out)@.union(v@.take(k + 1).to_set()));
        }
    }
    assert(v@.take(v@.len() as int) =~= v@);
}

/// The candidates of a hash search: the documents in every posting list
/// (`And`; all documents for no hashes) or in some posting list (`Or`),
/// kept within the filter, with the unindexed documents within the filter.
pub fn base_candidates_hash(index: &mut IndexSnapshot, hashes: &[u64], logic: HashLogic, filter: &PathFilter) -> (r: Result<
    HashSet<u32>,
    FastRegexError,
>)
    requires
        old(index).wf(),
    ensures
        final(index).wf(),
        same_index(*final(index), *old(index)),
        index_sound(*old(index)) ==> (r matches Ok(set) && set@ == spec_base_candidates_hash(*old(index), hashes@, logic, *filter)),
        r matches Ok(set) ==> forall|x: u32| #[trigger] set@.contains(x) ==> doc_allowed(old(index).docs_view(), *filter, x),
        index_sound(*old(index)) ==> index_sound(*final(index)),
        r matches Err(e) ==> e is CorruptIndex,
{
    let ghost s0 = *index;
    let raw: HashSet<u32> = match logic {
        HashLogic::And => {
            if hashes.len() == 0 {
                let ids = index.all_doc_ids();
                let mut all: HashSet<u32> = HashSet::new();
                extend_from_vec(&mut all, &ids);
                proof {
                    let docs = s0.docs_view();
                    assert forall|x: u32| #[trigger] all@.contains(x) <==> doc_ids(docs).contains(x) by {
                        if all@.contains(x) {
                            let i = choose|i: int| 0 <= i < ids@.len() && ids@[i] == x;
                            assert(docs[i].doc_id == x);
                        }
                        if doc_ids(docs).contains(x) {
                            let i = choose|i: int| 0 <= i < docs.len() && #[trigger] docs[i].doc_id == x;
                            assert(ids@[i] == x);
                        }
                    }
                    assert(all@ =~= spec_hash_matches(s0, hashes@, logic));
                }
                all
            } else {
                match intersect_hashes(index, hashes) {
                    Ok(set) => set,
                    Err(e) => {
                        return Err(e);
                    },
                }
            }
        },
        HashLogic::Or => {
            let mut set: HashSet<u32> = HashSet::new();
            for j in 0..hashes.len()
                invariant
                    index.wf(),
                    s0 == *old(index),
                    same_index(*index, s0),
                    index_sound(s0) ==> index_sound(*index),
                    index_sound(s0) ==> set@ == spec_union(s0, hashes@.take(j as int)),
            {
                let ghost before = *index;
                let posting = match posting_or_empty(index, hashes[j]) {
                    Ok(d) => d,
                    Err(e) => {
                        return Err(e);
                    },
                };
                extend_from_vec(&mut set, &posting);
                proof {
                    if index_sound(s0) {
                        assert(index_posting(before, hashes@[j as int]) == index_posting(s0, hashes@[j as int]));
                        assert(hashes@.take(j + 1) =~= hashes@.take(j as int).push(hashes@[j as int]));
                        assert forall|x: u32| #[trigger] set@.contains(x) <==> spec_union(s0, hashes@.take(j + 1)).contains(x) by {
                            let hs = hashes@.take(j + 1);
                            if set@.contains(x) && !spec_union(s0, hashes@.take(j as int)).contains(x) {
                                assert(index_posting(s0, hs[j as int]).contains(x));
                            }
                            if spec_union(s0, hs).contains(x) {
                                let c = choose|c: int| 0 <= c < hs.len() && #[trigger] index_posting(s0, hs[c]).contains(x);
                                if c < j {
                                    assert(hashes@.take(j as int)[c] == hs[c]);
                                    assert(spec_union(s0, hashes@.take(j as int)).contains(x));
                                } else {
                                    assert(posting@.contains(x));
                                }
                            }
                            if spec_union(s0, hashes@.take(j as int)).contains(x) {
                                let c = choose|c: int| 0 <= c < j && #[trigger] index_posting(s0, hashes@.take(j as int)[c]).contains(x);
                                assert(hs[c] == hashes@.take(j as int)[c]);
                            }
                        }
                        assert(set@ =~= spec_union(s0, hashes@.take(j + 1)));
                    }
                }
            }
            proof {
                assert(hashes@.take(hashes@.len() as int) =~= hashes@);
            }
            set
        },
    };
    let mut kept = retain_allowed(index, filter, &raw);
    add_unindexed_allowed(index, filter, &mut kept);
    Ok(kept)
}

} // verus!
