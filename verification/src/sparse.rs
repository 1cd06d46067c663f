use std::collections::HashMap;
use vstd::prelude::*;
use vstd::relations::{sorted_by, total_ordering};
use vstd::slice::slice_to_vec;

use crate::hashing::{hash_gram, spec_xxh3_64};

verus! {

/// Limits that bound the number and the span of sparse n-grams.
#[derive(Debug, Clone, Copy)]
pub struct SparseConfig {
    pub max_span_bigrams: usize,
    pub max_grams_per_text: usize,
    pub max_covering_grams: usize,
}

impl Default for SparseConfig {
    fn default() -> (cfg: Self)
        ensures
            cfg.max_span_bigrams == 24,
            cfg.max_grams_per_text == 40_000,
            cfg.max_covering_grams == 12,
    {
        SparseConfig { max_span_bigrams: 24, max_grams_per_text: 40_000, max_covering_grams: 12 }
    }
}

/// The 16-bit key of the bigram `(a, b)`: `a` in the high byte, `b` in the low byte.
pub open spec fn spec_bigram_key(a: u8, b: u8) -> u16 {
    (a as int * 256 + b as int) as u16
}

/// `x - y`, or 0 where that is negative.
pub open spec fn sat_sub_u32(x: u32, y: u32) -> u32 {
    if x >= y { (x - y) as u32 } else { 0 }
}

/// `x + 1`, or `u32::MAX` where that overflows.
pub open spec fn sat_inc_u32(x: u32) -> u32 {
    if x < u32::MAX { (x + 1) as u32 } else { u32::MAX }
}

/// The count stored for `k`, or 0 where `k` has none.
pub open spec fn count_or_zero(freq: Map<u16, u32>, k: u16) -> u32 {
    if freq.contains_key(k) { freq[k] } else { 0 }
}

/// `v` is the largest count of `freq`.
pub open spec fn is_max_count(freq: Map<u16, u32>, v: u32) -> bool {
    &&& exists|k: u16| freq.contains_key(k) && freq[k] == v
    &&& forall|k: u16| freq.contains_key(k) ==> freq[k] <= v
}

/// The largest count of the table, or 1 for an empty table.
pub open spec fn spec_max_freq(freq: Map<u16, u32>) -> u32 {
    if exists|k: u16| freq.contains_key(k) {
        choose|v: u32| is_max_count(freq, v)
    } else {
        1
    }
}

/// How rare the bigram `(a, b)` is: `max_freq - seen + 1`, saturating.
pub open spec fn spec_rarity(freq: Map<u16, u32>, max_freq: u32, a: u8, b: u8) -> u32 {
    sat_inc_u32(sat_sub_u32(max_freq, count_or_zero(freq, spec_bigram_key(a, b))))
}

/// One rarity weight per adjacent byte pair of `text`.
pub open spec fn spec_weights(text: Seq<u8>, freq: Map<u16, u32>) -> Seq<u32> {
    if text.len() < 2 {
        Seq::empty()
    } else {
        Seq::new(
            (text.len() - 1) as nat,
            |i: int| spec_rarity(freq, spec_max_freq(freq), text[i], text[i + 1]),
        )
    }
}

/// The table after counting the first `n` bigrams of `text` into `table`.
pub open spec fn spec_count_bigrams(table: Map<u16, u32>, text: Seq<u8>, n: int) -> Map<u16, u32>
    decreases n,
{
    if n <= 0 {
        table
    } else {
        let prev = spec_count_bigrams(table, text, n - 1);
        let key = spec_bigram_key(text[n - 1], text[n]);
        prev.insert(key, sat_inc_u32(count_or_zero(prev, key)))
    }
}

/// The table after counting every bigram of `text` into `table`.
pub open spec fn spec_bigram_frequency(table: Map<u16, u32>, text: Seq<u8>) -> Map<u16, u32> {
    if text.len() < 2 {
        table
    } else {
        spec_count_bigrams(table, text, text.len() - 1)
    }
}

/// Number of positions `i < n` where the bigram `(text[i], text[i + 1])` has key `k`.
pub open spec fn occurrences(text: Seq<u8>, k: u16, n: int) -> nat
    decreases n,
{
    if n <= 0 {
        0
    } else {
        occurrences(text, k, n - 1) + if spec_bigram_key(text[n - 1], text[n]) == k {
            1nat
        } else {
            0nat
        }
    }
}

fn bigram_key(a: u8, b: u8) -> (k: u16)
    ensures
        k == spec_bigram_key(a, b),
{
    let k = ((a as u16) << 8) | b as u16;
    assert(((a as u16) << 8) | (b as u16) == (a as int * 256 + b as int) as u16) by (bit_vector);
    k
}

fn rarity_weight(freq: &HashMap<u16, u32>, max_freq: u32, a: u8, b: u8) -> (w: u32)
    ensures
        w == spec_rarity(freq@, max_freq, a, b),
{
    let key = bigram_key(a, b);
    let seen = match freq.get(&key) {
        Some(v) => *v,
        None => 0,
    };
    max_freq.saturating_sub(seen).saturating_add(1)
}

fn max_frequency(freq: &HashMap<u16, u32>) -> (mx: u32)
    ensures
        mx == spec_max_freq(freq@),
{
    let mut found = false;
    let mut mx: u32 = 0;
    let ghost m = freq@;
    for v in it: freq.values()
        invariant
            it.seq().unref().to_set() == m.values(),
            found ==> m.values().contains(mx),
            !found ==> it.index() == 0,
            forall|j: int| 0 <= j < it.index() ==> *it.seq()[j] <= mx,
        ensures
            found ==> m.values().contains(mx),
            found ==> forall|x: u32| m.values().contains(x) ==> x <= mx,
            !found ==> m.values() =~= Set::<u32>::empty(),
    {
        if !found || *v > mx {
            mx = *v;
        }
        proof {
            assert(it.seq().unref().to_set().contains(*v));
        }
        found = true;
    }
    proof {
        if found {
            let k = choose|k: u16| m.contains_key(k) && m[k] == mx;
            assert forall|k2: u16| m.contains_key(k2) implies m[k2] <= mx by {
                assert(m.values().contains(m[k2]));
            }
            assert(is_max_count(m, mx));
            let c = choose|v: u32| is_max_count(m, v);
            assert(c == mx);
        } else {
            assert forall|k: u16| !m.contains_key(k) by {
                if m.contains_key(k) {
                    assert(m.values().contains(m[k]));
                }
            }
        }
    }
    if found { mx } else { 1 }
}

fn compute_weights(text: &[u8], freq: &HashMap<u16, u32>) -> (w: Vec<u32>)
    ensures
        w@ == spec_weights(text@, freq@),
{
    if text.len() < 2 {
        return Vec::new();
    }
    let max_freq = max_frequency(freq);
    let mut w: Vec<u32> = Vec::new();
    let n = text.len() - 1;
    for i in 0..n
        invariant
            n == text.len() - 1,
            max_freq == spec_max_freq(freq@),
            w@.len() == i,
            forall|j: int| 0 <= j < i ==> w@[j] == spec_rarity(freq@, max_freq, text@[j], text@[j + 1]),
    {
        w.push(rarity_weight(freq, max_freq, text[i], text[i + 1]));
    }
    assert(w@ =~= spec_weights(text@, freq@));
    w
}

/// Counts every adjacent byte pair of `text` into `table`, saturating at `u32::MAX`.
pub fn build_bigram_frequency(text: &[u8], table: &mut HashMap<u16, u32>)
    ensures
        final(table)@ == spec_bigram_frequency(old(table)@, text@),
{
    if text.len() < 2 {
        return;
    }
    let n = text.len() - 1;
    for i in 0..n
        invariant
            n == text.len() - 1,
            table@ == spec_count_bigrams(old(table)@, text@, i as int),
    {
        let key = bigram_key(text[i], text[i + 1]);
        let next = match table.get(&key) {
            Some(v) => *v,
            None => 0,
        }.saturating_add(1);
        table.insert(key, next);
    }
}

/// Counting is exact: after counting `text`, the entry of every bigram key is
/// what it held before plus the number of times that bigram occurs, capped at `u32::MAX`.
pub proof fn lemma_bigram_frequency_counts(table: Map<u16, u32>, text: Seq<u8>, k: u16)
    requires
        text.len() >= 2,
    ensures
        count_or_zero(spec_bigram_frequency(table, text), k) == if count_or_zero(table, k)
            + occurrences(text, k, text.len() - 1) > u32::MAX {
            u32::MAX as int
        } else {
            count_or_zero(table, k) + occurrences(text, k, text.len() - 1)
        },
{
    lemma_count_prefix(table, text, k, text.len() - 1);
}

proof fn lemma_count_prefix(table: Map<u16, u32>, text: Seq<u8>, k: u16, n: int)
    requires
        0 <= n < text.len(),
    ensures
        count_or_zero(spec_count_bigrams(table, text, n), k) == if count_or_zero(table, k)
            + occurrences(text, k, n) > u32::MAX {
            u32::MAX as int
        } else {
            count_or_zero(table, k) + occurrences(text, k, n)
        },
    decreases n,
{
    if n > 0 {
        lemma_count_prefix(table, text, k, n - 1);
    }
}


/// A sparse n-gram of a text: the bytes `start..end`, and the rarity score
/// of its weaker boundary bigram.
#[derive(Debug, Clone, Copy)]
pub struct SparseGram {
    pub start: usize,
    pub end: usize,
    pub score: u32,
}

/// The largest weight among `w[lo..hi]`, or 0 for an empty range.
pub open spec fn spec_seg_max(w: Seq<u32>, lo: int, hi: int) -> u32
    decreases hi - lo,
{
    if hi <= lo {
        0
    } else {
        let m = spec_seg_max(w, lo, hi - 1);
        if w[hi - 1] > m { w[hi - 1] } else { m }
    }
}

/// Both boundary bigrams `l` and `r` are strictly rarer than every bigram between them.
pub open spec fn spec_is_peak(w: Seq<u32>, l: int, r: int) -> bool {
    w[l] > spec_seg_max(w, l + 1, r) && w[r] > spec_seg_max(w, l + 1, r)
}

/// The gram that bigrams `l` and `r` bound: bytes `l..r + 2`.
pub open spec fn spec_gram(w: Seq<u32>, l: int, r: int) -> SparseGram {
    SparseGram {
        start: l as usize,
        end: (r + 2) as usize,
        score: if w[l] <= w[r] { w[l] } else { w[r] },
    }
}

/// The grams whose left boundary is `l` and right boundary lies in `l + 1..r_hi`, in order of `r`.
pub open spec fn spec_row(w: Seq<u32>, l: int, r_hi: int) -> Seq<SparseGram>
    decreases r_hi - l,
{
    if r_hi <= l + 1 {
        Seq::empty()
    } else {
        spec_row(w, l, r_hi - 1) + if spec_is_peak(w, l, r_hi - 1) {
            seq![spec_gram(w, l, r_hi - 1)]
        } else {
            Seq::empty()
        }
    }
}

/// The last right boundary tried for left boundary `l`: at most `span - 1` bigrams
/// further (saturating), and never past the last bigram.
pub open spec fn spec_last_r(wlen: int, l: int, span: usize) -> int {
    let reach = if span >= 1 { span - 1 } else { 0 };
    let t = if l + reach > usize::MAX { usize::MAX as int } else { l + reach };
    if wlen - 1 <= t { wlen - 1 } else { t }
}

/// Every candidate gram with left boundary below `l_hi`, in order of `(l, r)`.
pub open spec fn spec_candidates(w: Seq<u32>, span: usize, l_hi: int) -> Seq<SparseGram>
    decreases l_hi,
{
    if l_hi <= 0 {
        Seq::empty()
    } else {
        spec_candidates(w, span, l_hi - 1) + spec_row(
            w,
            l_hi - 1,
            spec_last_r(w.len() as int, l_hi - 1, span) + 1,
        )
    }
}

/// The bytes of `text` that gram `g` spans.
pub open spec fn gram_bytes(text: Seq<u8>, g: SparseGram) -> Seq<u8> {
    text.subrange(g.start as int, g.end as int)
}

/// Some gram of `s` spans the bytes `b` of `text`.
pub open spec fn has_gram_bytes(text: Seq<u8>, s: Seq<SparseGram>, b: Seq<u8>) -> bool {
    exists|i: int| 0 <= i < s.len() && #[trigger] gram_bytes(text, s[i]) == b
}

/// The grams of `c`, each kept only where no earlier gram spans the same bytes.
pub open spec fn spec_dedup(text: Seq<u8>, c: Seq<SparseGram>) -> Seq<SparseGram>
    decreases c.len(),
{
    if c.len() == 0 {
        Seq::empty()
    } else {
        let prev = spec_dedup(text, c.drop_last());
        if has_gram_bytes(text, prev, gram_bytes(text, c.last())) {
            prev
        } else {
            prev.push(c.last())
        }
    }
}

/// How many grams one text yields at most (a zero limit still yields one).
pub open spec fn spec_gram_cap(cfg: SparseConfig) -> int {
    if cfg.max_grams_per_text == 0 { 1 } else { cfg.max_grams_per_text as int }
}

/// The sparse grams of `text`: every candidate of distinct bytes in order of
/// `(l, r)`, cut at the per-text limit.
pub open spec fn spec_sparse_grams(text: Seq<u8>, freq: Map<u16, u32>, cfg: SparseConfig) -> Seq<SparseGram> {
    if text.len() < 3 {
        Seq::empty()
    } else {
        let w = spec_weights(text, freq);
        let d = spec_dedup(text, spec_candidates(w, cfg.max_span_bigrams, w.len() as int));
        if d.len() <= spec_gram_cap(cfg) { d } else { d.take(spec_gram_cap(cfg)) }
    }
}

proof fn lemma_row_prefix(w: Seq<u32>, l: int, a: int, b: int)
    requires
        a <= b,
    ensures
        spec_row(w, l, a).is_prefix_of(spec_row(w, l, b)),
    decreases b - a,
{
    if a < b {
        lemma_row_prefix(w, l, a, b - 1);
        if b > l + 1 {
            assert(spec_row(w, l, b - 1).is_prefix_of(spec_row(w, l, b)));
        } else {
            assert(spec_row(w, l, b - 1) =~= spec_row(w, l, b));
        }
    }
}

proof fn lemma_candidates_prefix(w: Seq<u32>, span: usize, a: int, b: int)
    requires
        a <= b,
    ensures
        spec_candidates(w, span, a).is_prefix_of(spec_candidates(w, span, b)),
    decreases b - a,
{
    if a < b {
        lemma_candidates_prefix(w, span, a, b - 1);
        if b > 0 {
            assert(spec_candidates(w, span, b - 1).is_prefix_of(spec_candidates(w, span, b)));
        } else {
            assert(spec_candidates(w, span, b - 1) =~= spec_candidates(w, span, b));
        }
    }
}

proof fn lemma_dedup_prefix(text: Seq<u8>, p: Seq<SparseGram>, s: Seq<SparseGram>)
    requires
        p.is_prefix_of(s),
    ensures
        spec_dedup(text, p).is_prefix_of(spec_dedup(text, s)),
    decreases s.len(),
{
    if p.len() < s.len() {
        assert(p.is_prefix_of(s.drop_last()));
        lemma_dedup_prefix(text, p, s.drop_last());
    } else {
        assert(p =~= s);
    }
}

fn ranges_equal(text: &[u8], s1: usize, e1: usize, s2: usize, e2: usize) -> (eq: bool)
    requires
        s1 <= e1 <= text.len(),
        s2 <= e2 <= text.len(),
    ensures
        eq == (text@.subrange(s1 as int, e1 as int) == text@.subrange(s2 as int, e2 as int)),
{
    if e1 - s1 != e2 - s2 {
        proof {
            assert(text@.subrange(s1 as int, e1 as int).len() != text@.subrange(s2 as int, e2 as int).len());
        }
        return false;
    }
    let n = e1 - s1;
    let mut i: usize = 0;
    while i < n
        invariant
            n == e1 - s1,
            n == e2 - s2,
            s1 <= e1 <= text.len(),
            s2 <= e2 <= text.len(),
            i <= n,
            text@.subrange(s1 as int, s1 + i) == text@.subrange(s2 as int, s2 + i),
        decreases n - i,
    {
        if text[s1 + i] != text[s2 + i] {
            proof {
                assert(text@.subrange(s1 as int, e1 as int)[i as int] != text@.subrange(s2 as int, e2 as int)[i as int]);
            }
            return false;
        }
        proof {
            assert(text@.subrange(s1 as int, s1 + i + 1) =~= text@.subrange(s1 as int, s1 + i).push(text@[s1 + i]));
            assert(text@.subrange(s2 as int, s2 + i + 1) =~= text@.subrange(s2 as int, s2 + i).push(text@[s2 + i]));
        }
        i = i + 1;
    }
    true
}

/// The state of deduplication: `out` holds grams of distinct bytes and `seen` maps
/// the hash of each gram's bytes to the indices in `out` of the grams with that hash.
#[verifier::opaque]
spec fn seen_ok(text: Seq<u8>, out: Seq<SparseGram>, seen: Map<u64, Vec<usize>>) -> bool {
    &&& out.len() <= usize::MAX
    &&& forall|i: int| #![trigger out[i]] 0 <= i < out.len() ==> out[i].start <= out[i].end <= text.len()
    &&& forall|i: int|
        #![trigger out[i]]
        0 <= i < out.len() ==> seen.contains_key(spec_xxh3_64(gram_bytes(text, out[i])))
            && seen[spec_xxh3_64(gram_bytes(text, out[i]))]@.contains(i as usize)
    &&& forall|h: u64, k: int|
        #![trigger seen[h]@[k]]
        seen.contains_key(h) && 0 <= k < seen[h]@.len() ==> seen[h]@[k] < out.len()
}

/// Whether some gram already in `out` spans the same bytes as `start..end`.
fn seen_contains(
    text: &[u8],
    out: &Vec<SparseGram>,
    seen: &HashMap<u64, Vec<usize>>,
    h: u64,
    start: usize,
    end: usize,
) -> (found: bool)
    requires
        seen_ok(text@, out@, seen@),
        start <= end <= text.len(),
        h == spec_xxh3_64(text@.subrange(start as int, end as int)),
    ensures
        found == has_gram_bytes(text@, out@, text@.subrange(start as int, end as int)),
{
    reveal(seen_ok);
    let bucket = match seen.get(&h) {
        Some(b) => b,
        None => {
            proof {
                assert forall|i: int| 0 <= i < out@.len() implies #[trigger] gram_bytes(text@, out@[i])
                    != text@.subrange(start as int, end as int) by {
                    if gram_bytes(text@, out@[i]) == text@.subrange(start as int, end as int) {
                        assert(seen@.contains_key(spec_xxh3_64(gram_bytes(text@, out@[i]))));
                    }
                }
            }
            return false;
        },
    };
    let mut k: usize = 0;
    while k < bucket.len()
        invariant
            seen_ok(text@, out@, seen@),
            seen@.contains_key(h),
            bucket@ == seen@[h]@,
            start <= end <= text.len(),
            h == spec_xxh3_64(text@.subrange(start as int, end as int)),
            k <= bucket.len(),
            forall|j: int| 0 <= j < k ==> gram_bytes(text@, out@[bucket@[j] as int]) != text@.subrange(start as int, end as int),
        decreases bucket.len() - k,
    {
        proof {
            reveal(seen_ok);
        }
        let idx = bucket[k];
        assert(seen@[h]@[k as int] < out@.len());
        let o = out[idx];
        if ranges_equal(text, o.start, o.end, start, end) {
            return true;
        }
        k = k + 1;
    }
    proof {
        reveal(seen_ok);
        assert forall|i: int| 0 <= i < out@.len() implies #[trigger] gram_bytes(text@, out@[i])
            != text@.subrange(start as int, end as int) by {
            if gram_bytes(text@, out@[i]) == text@.subrange(start as int, end as int) {
                assert(spec_xxh3_64(gram_bytes(text@, out@[i])) == h);
                assert(seen@[h]@.contains(i as usize));
                let j = choose|j: int| 0 <= j < bucket@.len() && bucket@[j] == i as usize;
                assert(bucket@[j] as int == i);
                assert(gram_bytes(text@, out@[bucket@[j] as int]) != text@.subrange(start as int, end as int));
            }
        }
    }
    false
}

/// Records the newly pushed last gram of `out` in `seen`.
fn seen_record(text: &[u8], out: &Vec<SparseGram>, seen: &mut HashMap<u64, Vec<usize>>, h: u64)
    requires
        out@.len() > 0,
        seen_ok(text@, out@.drop_last(), old(seen)@),
        out@.last().start <= out@.last().end <= text@.len(),
        h == spec_xxh3_64(gram_bytes(text@, out@.last())),
    ensures
        seen_ok(text@, out@, final(seen)@),
{
    reveal(seen_ok);
    let idx = out.len() - 1;
    let ghost o = out@.drop_last();
    let ghost s0 = seen@;
    let mut bucket = match seen.remove(&h) {
        Some(b) => b,
        None => Vec::new(),
    };
    let ghost before = bucket@;
    assert(s0.contains_key(h) ==> before == s0[h]@);
    assert(!s0.contains_key(h) ==> before.len() == 0);
    bucket.push(idx);
    let ghost after = bucket@;
    seen.insert(h, bucket);
    proof {
        let s1 = seen@;
        assert(s1 == s0.insert(h, s1[h]));
        assert(s1[h]@ == after);
        assert(after == before.push(idx));
        assert forall|i: int| #![trigger out@[i]] 0 <= i < out@.len() implies out@[i].start <= out@[i].end <= text@.len() by {
            if i < idx {
                assert(o[i] == out@[i]);
            }
        }
        assert forall|i: int| #![trigger out@[i]] 0 <= i < out@.len() implies s1.contains_key(
            spec_xxh3_64(gram_bytes(text@, out@[i])),
        ) && s1[spec_xxh3_64(gram_bytes(text@, out@[i]))]@.contains(i as usize) by {
            if i < idx {
                assert(o[i] == out@[i]);
                let hi = spec_xxh3_64(gram_bytes(text@, o[i]));
                assert(s0.contains_key(hi) && s0[hi]@.contains(i as usize));
                if hi == h {
                    let j = choose|j: int| 0 <= j < s0[hi]@.len() && s0[hi]@[j] == i as usize;
                    assert(after[j] == i as usize);
                } else {
                    assert(s1[hi] == s0[hi]);
                }
            } else {
                assert(out@[i] == out@.last());
                assert(after[before.len() as int] == idx);
            }
        }
        assert forall|hh: u64, k: int|
            #![trigger s1[hh]@[k]]
            s1.contains_key(hh) && 0 <= k < s1[hh]@.len() implies s1[hh]@[k] < out@.len() by {
            if hh == h {
                if k < before.len() {
                    assert(s0[h]@[k] < o.len());
                }
            } else {
                assert(s1[hh] == s0[hh]);
                assert(s0[hh]@[k] < o.len());
            }
        }
    }
}

/// Appends `g` to `out` unless a gram of the same bytes is already there.
fn add_distinct(text: &[u8], out: &mut Vec<SparseGram>, seen: &mut HashMap<u64, Vec<usize>>, g: SparseGram)
    requires
        seen_ok(text@, old(out)@, old(seen)@),
        g.start <= g.end <= text@.len(),
    ensures
        seen_ok(text@, final(out)@, final(seen)@),
        final(out)@ == if has_gram_bytes(text@, old(out)@, gram_bytes(text@, g)) {
            old(out)@
        } else {
            old(out)@.push(g)
        },
{
    proof {
        reveal(seen_ok);
    }
    let h = hash_gram(&text[g.start..g.end]);
    let dup = seen_contains(text, out, seen, h, g.start, g.end);
    if !dup {
        out.push(g);
        proof {
            assert(out@.drop_last() =~= old(out)@);
            reveal(seen_ok);
        }
        seen_record(text, out, seen, h);
    }
}

/// Tries every right boundary for left boundary `l`, adding the peaks of distinct
/// bytes to `out`; returns whether the per-text limit was reached.
#[verifier::spinoff_prover]
#[verifier::rlimit(40)]
fn scan_row(
    text: &[u8],
    weights: &Vec<u32>,
    l: usize,
    cfg: SparseConfig,
    out: &mut Vec<SparseGram>,
    seen: &mut HashMap<u64, Vec<usize>>,
) -> (stopped: bool)
    requires
        text@.len() >= 3,
        weights@.len() == text@.len() - 1,
        l < weights@.len(),
        old(out)@ == spec_dedup(text@, spec_candidates(weights@, cfg.max_span_bigrams, l as int)),
        old(out)@.len() < spec_gram_cap(cfg),
        seen_ok(text@, old(out)@, old(seen)@),
    ensures
        seen_ok(text@, final(out)@, final(seen)@),
        stopped ==> spec_dedup(
            text@,
            spec_candidates(weights@, cfg.max_span_bigrams, weights@.len() as int),
        ).len() >= spec_gram_cap(cfg),
        stopped ==> final(out)@.len() == spec_gram_cap(cfg) && final(out)@ == spec_dedup(
            text@,
            spec_candidates(weights@, cfg.max_span_bigrams, weights@.len() as int),
        ).take(spec_gram_cap(cfg)),
        !stopped ==> final(out)@.len() < spec_gram_cap(cfg) && final(out)@ == spec_dedup(
            text@,
            spec_candidates(weights@, cfg.max_span_bigrams, l + 1),
        ),
{
    let ghost w = weights@;
    let ghost span = cfg.max_span_bigrams;
    let ghost cap = spec_gram_cap(cfg);
    let ghost all = spec_candidates(w, span, w.len() as int);
    let mut max_inside: u32 = 0;
    let max_r = usize::min(weights.len() - 1, l.saturating_add(cfg.max_span_bigrams.saturating_sub(1)));
    assert(max_r == spec_last_r(w.len() as int, l as int, span));
    let ghost base = spec_candidates(w, span, l as int);
    let mut r = l + 1;
    proof {
        assert(spec_row(w, l as int, r as int) =~= Seq::<SparseGram>::empty());
        assert(base + spec_row(w, l as int, r as int) =~= base);
    }
    assert(weights.len() == w.len());
    while r <= max_r
        invariant
            w == weights@,
            weights.len() == w.len(),
            text.len() == text@.len(),
            text@.len() >= 3,
            w.len() == text@.len() - 1,
            span == cfg.max_span_bigrams,
            cap == spec_gram_cap(cfg),
            all == spec_candidates(w, span, w.len() as int),
            l < w.len(),
            max_r == spec_last_r(w.len() as int, l as int, span),
            max_r < w.len(),
            l + 1 <= r <= max_r + 1,
            base == spec_candidates(w, span, l as int),
            max_inside == spec_seg_max(w, l + 1, r - 1),
            out@ == spec_dedup(text@, base + spec_row(w, l as int, r as int)),
            out@.len() < cap,
            seen_ok(text@, out@, seen@),
        decreases max_r + 1 - r,
    {
        if r > l + 1 {
            if weights[r - 1] > max_inside {
                max_inside = weights[r - 1];
            }
        }
        assert(max_inside == spec_seg_max(w, l + 1, r as int));
        let ghost prev_c = base + spec_row(w, l as int, r as int);
        let ghost next_c = base + spec_row(w, l as int, r + 1);
        if weights[l] > max_inside && weights[r] > max_inside {
            let start = l;
            let end = r + 2;
            assert(spec_is_peak(w, l as int, r as int));
            let score = if weights[l] <= weights[r] { weights[l] } else { weights[r] };
            let g = SparseGram { start, end, score };
            assert(g == spec_gram(w, l as int, r as int));
            assert(next_c =~= prev_c.push(g));
            assert(next_c.drop_last() =~= prev_c);
            if end <= text.len() && (end - start) >= 3 {
                add_distinct(text, out, seen, g);
                assert(out@ == spec_dedup(text@, next_c));
                if out.len() >= cfg.max_grams_per_text {
                    proof {
                        assert(out@.len() == cap);
                        lemma_row_prefix(w, l as int, r + 1, max_r + 1);
                        lemma_candidates_prefix(w, span, l + 1, w.len() as int);
                        assert(next_c.is_prefix_of(spec_candidates(w, span, l + 1)));
                        lemma_dedup_prefix(text@, next_c, all);
                        assert(out@ =~= spec_dedup(text@, all).take(cap));
                    }
                    return true;
                }
            }
        } else {
            assert(!spec_is_peak(w, l as int, r as int));
            assert(next_c =~= prev_c);
        }
        r = r + 1;
    }
    proof {
        assert(base + spec_row(w, l as int, r as int) =~= spec_candidates(w, span, l + 1));
    }
    false
}

fn build_all_with_spans(text: &[u8], freq: &HashMap<u16, u32>, cfg: SparseConfig) -> (out: Vec<SparseGram>)
    ensures
        out@ == spec_sparse_grams(text@, freq@, cfg),
        forall|i: int| #![trigger out@[i]] 0 <= i < out@.len() ==> out@[i].start <= out@[i].end <= text@.len(),
{
    if text.len() < 3 {
        return Vec::new();
    }
    let weights = compute_weights(text, freq);
    if weights.len() < 2 {
        return Vec::new();
    }
    let ghost w = weights@;
    let ghost span = cfg.max_span_bigrams;
    let ghost cap = spec_gram_cap(cfg);
    let mut out: Vec<SparseGram> = Vec::new();
    let mut seen: HashMap<u64, Vec<usize>> = HashMap::new();
    let wlen = weights.len();
    proof {
        assert(out@ =~= spec_dedup(text@, spec_candidates(w, span, 0)));
        reveal(seen_ok);
    }
    for l in 0..wlen
        invariant
            wlen == weights.len(),
            w == weights@,
            w == spec_weights(text@, freq@),
            text@.len() >= 3,
            wlen == text@.len() - 1,
            span == cfg.max_span_bigrams,
            cap == spec_gram_cap(cfg),
            out@ == spec_dedup(text@, spec_candidates(w, span, l as int)),
            out@.len() < cap,
            seen_ok(text@, out@, seen@),
    {
        if scan_row(text, &weights, l, cfg, &mut out, &mut seen) {
            proof {
                reveal(seen_ok);
                let d = spec_dedup(text@, spec_candidates(w, span, w.len() as int));
                if d.len() == cap {
                    assert(d.take(cap) =~= d);
                }
            }
            return out;
        }
    }
    proof {
        reveal(seen_ok);
    }
    out
}


/// The bytes of every gram of `s`, in order.
pub open spec fn grams_bytes(text: Seq<u8>, s: Seq<SparseGram>) -> Seq<Seq<u8>> {
    s.map_values(|g: SparseGram| gram_bytes(text, g))
}

/// Every sparse gram of `text`: the bytes of `spec_sparse_grams`, in the same order.
pub fn build_all_sparse_ngrams(text: &[u8], freq: &HashMap<u16, u32>, cfg: SparseConfig) -> (out: Vec<Vec<u8>>)
    ensures
        out@.map_values(|v: Vec<u8>| v@) == grams_bytes(text@, spec_sparse_grams(text@, freq@, cfg)),
{
    let grams = build_all_with_spans(text, freq, cfg);
    let mut out: Vec<Vec<u8>> = Vec::new();
    for i in 0..grams.len()
        invariant
            grams@ == spec_sparse_grams(text@, freq@, cfg),
            forall|k: int| #![trigger grams@[k]] 0 <= k < grams@.len() ==> grams@[k].start <= grams@[k].end <= text@.len(),
            out@.len() == i,
            forall|k: int| 0 <= k < i ==> #[trigger] out@[k]@ == gram_bytes(text@, grams@[k]),
    {
        let g = grams[i];
        out.push(slice_to_vec(&text[g.start..g.end]));
    }
    assert(out@.map_values(|v: Vec<u8>| v@) =~= grams_bytes(text@, grams@));
    out
}

/// The covering order: higher score first, then longer, then earlier start, then earlier end.
pub open spec fn spec_gram_leq(a: SparseGram, b: SparseGram) -> bool {
    if a.score != b.score {
        a.score > b.score
    } else if a.end - a.start != b.end - b.start {
        a.end - a.start > b.end - b.start
    } else if a.start != b.start {
        a.start < b.start
    } else {
        a.end <= b.end
    }
}

/// `spec_gram_leq` as a relation value.
pub open spec fn gram_order() -> spec_fn(SparseGram, SparseGram) -> bool {
    |a: SparseGram, b: SparseGram| spec_gram_leq(a, b)
}

/// Some byte `start..end` of `g` is not yet covered.
pub open spec fn improves(covered: Seq<bool>, g: SparseGram) -> bool {
    exists|i: int| g.start <= i < g.end && !covered[i]
}

/// `covered` with every byte of `g` marked.
pub open spec fn mark_covered(covered: Seq<bool>, g: SparseGram) -> Seq<bool> {
    Seq::new(covered.len(), |i: int| covered[i] || (g.start <= i < g.end))
}

/// Every byte is covered.
pub open spec fn all_covered(covered: Seq<bool>) -> bool {
    forall|i: int| 0 <= i < covered.len() ==> covered[i]
}

/// The greedy selection after looking at the first `k` grams of `order`:
/// the coverage, the selected grams, and whether the selection has stopped.
pub open spec fn spec_select(n: nat, order: Seq<SparseGram>, k: int, max_selected: usize) -> (Seq<bool>, Seq<SparseGram>, bool)
    decreases k,
{
    if k <= 0 {
        (Seq::new(n, |i: int| false), Seq::empty(), false)
    } else {
        let prev = spec_select(n, order, k - 1, max_selected);
        let covered = prev.0;
        let selected = prev.1;
        if prev.2 {
            prev
        } else if selected.len() >= max_selected {
            (covered, selected, true)
        } else if !improves(covered, order[k - 1]) {
            prev
        } else {
            let c2 = mark_covered(covered, order[k - 1]);
            (c2, selected.push(order[k - 1]), all_covered(c2))
        }
    }
}

/// The byte strings of `s`, each kept only at its first occurrence.
pub open spec fn first_occurrences(s: Seq<Seq<u8>>) -> Seq<Seq<u8>>
    decreases s.len(),
{
    if s.len() == 0 {
        Seq::empty()
    } else {
        let prev = first_occurrences(s.drop_last());
        if prev.contains(s.last()) { prev } else { prev.push(s.last()) }
    }
}

/// The covering grams of a literal: the sparse grams taken in covering order, each
/// kept while it covers a byte not yet covered, until every byte is covered or the
/// limit is reached; the first three bytes where nothing is selected.
pub open spec fn spec_covering(literal: Seq<u8>, freq: Map<u16, u32>, cfg: SparseConfig) -> Seq<Seq<u8>> {
    if literal.len() < 3 {
        Seq::empty()
    } else {
        let grams = spec_sparse_grams(literal, freq, cfg);
        if grams.len() == 0 {
            seq![literal.subrange(0, 3)]
        } else {
            let order = grams.sort_by(gram_order());
            let selected = spec_select(literal.len(), order, order.len() as int, cfg.max_covering_grams).1;
            if selected.len() == 0 {
                seq![literal.subrange(0, 3)]
            } else {
                first_occurrences(grams_bytes(literal, selected))
            }
        }
    }
}

proof fn lemma_gram_order_total()
    ensures
        total_ordering(gram_order()),
{
    let r = gram_order();
    assert forall|a: SparseGram, b: SparseGram| #[trigger] r(a, b) && r(b, a) implies a == b by {
    }
    assert forall|a: SparseGram, b: SparseGram, c: SparseGram| #[trigger] r(a, b) && #[trigger] r(b, c) implies r(a, c) by {
    }
}

fn gram_leq(a: &SparseGram, b: &SparseGram) -> (r: bool)
    requires
        a.start <= a.end,
        b.start <= b.end,
    ensures
        r == spec_gram_leq(*a, *b),
{
    if a.score != b.score {
        a.score > b.score
    } else if a.end - a.start != b.end - b.start {
        a.end - a.start > b.end - b.start
    } else if a.start != b.start {
        a.start < b.start
    } else {
        a.end <= b.end
    }
}

/// Sorts grams into covering order (an insertion sort).
fn sort_grams(grams: &Vec<SparseGram>, limit: usize) -> (out: Vec<SparseGram>)
    requires
        forall|k: int| #![trigger grams@[k]] 0 <= k < grams@.len() ==> grams@[k].start <= grams@[k].end <= limit,
    ensures
        out@ == grams@.sort_by(gram_order()),
        forall|k: int| #![trigger out@[k]] 0 <= k < out@.len() ==> out@[k].start <= out@[k].end <= limit,
{
    let mut out: Vec<SparseGram> = Vec::new();
    proof {
        lemma_gram_order_total();
        assert(out@ =~= grams@.take(0));
    }
    for i in 0..grams.len()
        invariant
            total_ordering(gram_order()),
            forall|k: int| #![trigger grams@[k]] 0 <= k < grams@.len() ==> grams@[k].start <= grams@[k].end <= limit,
            forall|k: int| #![trigger out@[k]] 0 <= k < out@.len() ==> out@[k].start <= out@[k].end <= limit,
            sorted_by(out@, gram_order()),
            out@.to_multiset() == grams@.take(i as int).to_multiset(),
    {
        let x = grams[i];
        let mut j: usize = 0;
        while j < out.len() && !gram_leq(&x, &out[j])
            invariant
                total_ordering(gram_order()),
                x.start <= x.end,
                forall|k: int| #![trigger out@[k]] 0 <= k < out@.len() ==> out@[k].start <= out@[k].end <= limit,
                j <= out@.len(),
                forall|k: int| 0 <= k < j ==> !spec_gram_leq(x, #[trigger] out@[k]),
            decreases out@.len() - j,
        {
            j = j + 1;
        }
        let ghost old_out = out@;
        out.insert(j, x);
        proof {
            vstd::seq_lib::to_multiset_insert(old_out, j as int, x);
            vstd::seq_lib::to_multiset_build(grams@.take(i as int), x);
            assert(grams@.take(i + 1) =~= grams@.take(i as int).push(x));
            let r = gram_order();
            assert forall|a: int, b: int| 0 <= a < b < out@.len() implies #[trigger] r(out@[a], out@[b]) by {
                if b < j {
                    assert(out@[a] == old_out[a] && out@[b] == old_out[b]);
                } else if b == j {
                    assert(out@[a] == old_out[a]);
                    assert(!spec_gram_leq(x, old_out[a]));
                } else if a == j {
                    assert(out@[b] == old_out[b - 1]);
                    if j < old_out.len() {
                        assert(spec_gram_leq(x, old_out[j as int]));
                        if b - 1 > j {
                            assert(r(old_out[j as int], old_out[b - 1]));
                        }
                    }
                } else if a < j {
                    assert(out@[a] == old_out[a] && out@[b] == old_out[b - 1]);
                } else {
                    assert(out@[a] == old_out[a - 1] && out@[b] == old_out[b - 1]);
                }
            }
            assert forall|k: int| #![trigger out@[k]] 0 <= k < out@.len() implies out@[k].start <= out@[k].end <= limit by {
                if k < j {
                    assert(out@[k] == old_out[k]);
                } else if k > j {
                    assert(out@[k] == old_out[k - 1]);
                }
            }
        }
    }
    proof {
        assert(grams@.take(grams@.len() as int) =~= grams@);
        grams@.lemma_sort_by_ensures(gram_order());
        vstd::seq_lib::lemma_sorted_unique(out@, grams@.sort_by(gram_order()), gram_order());
    }
    out
}


proof fn lemma_select_done(n: nat, order: Seq<SparseGram>, k: int, k2: int, max_selected: usize)
    requires
        0 <= k <= k2,
        spec_select(n, order, k, max_selected).2,
    ensures
        spec_select(n, order, k2, max_selected) == spec_select(n, order, k, max_selected),
    decreases k2 - k,
{
    if k2 > k {
        lemma_select_done(n, order, k, k2 - 1, max_selected);
    }
}

pub(crate) fn bytes_eq(a: &[u8], b: &[u8]) -> (eq: bool)
    ensures
        eq == (a@ == b@),
{
    if a.len() != b.len() {
        return false;
    }
    let mut i: usize = 0;
    while i < a.len()
        invariant
            a@.len() == b@.len(),
            i <= a@.len(),
            a@.take(i as int) == b@.take(i as int),
        decreases a@.len() - i,
    {
        if a[i] != b[i] {
            assert(a@[i as int] != b@[i as int]);
            return false;
        }
        assert(a@.take(i + 1) =~= a@.take(i as int).push(a@[i as int]));
        assert(b@.take(i + 1) =~= b@.take(i as int).push(b@[i as int]));
        i = i + 1;
    }
    assert(a@ =~= a@.take(i as int));
    assert(b@ =~= b@.take(i as int));
    true
}

/// The fewest sparse grams, taken greedily in covering order, that together
/// cover the literal's bytes (see `spec_covering`).
pub fn build_covering_sparse_ngrams(literal: &[u8], freq: &HashMap<u16, u32>, cfg: SparseConfig) -> (out: Vec<Vec<u8>>)
    ensures
        out@.map_values(|v: Vec<u8>| v@) == spec_covering(literal@, freq@, cfg),
{
    if literal.len() < 3 {
        let out: Vec<Vec<u8>> = Vec::new();
        assert(out@.map_values(|v: Vec<u8>| v@) =~= Seq::<Seq<u8>>::empty());
        return out;
    }
    let grams = build_all_with_spans(literal, freq, cfg);
    if grams.len() == 0 {
        let mut out: Vec<Vec<u8>> = Vec::new();
        out.push(slice_to_vec(&literal[0..3]));
        assert(out@.map_values(|v: Vec<u8>| v@) =~= seq![literal@.subrange(0, 3)]);
        return out;
    }
    let order = sort_grams(&grams, literal.len());
    let ghost o = order@;
    let ghost lim = literal@.len();
    let mut covered: Vec<bool> = Vec::new();
    for i in 0..literal.len()
        invariant
            covered@.len() == i,
            forall|j: int| 0 <= j < i ==> !covered@[j],
    {
        covered.push(false);
    }
    let mut selected: Vec<SparseGram> = Vec::new();
    let n = order.len();
    let mut k: usize = 0;
    proof {
        assert(covered@ =~= Seq::new(lim, |i: int| false));
    }
    loop
        invariant_except_break
            k <= n,
            spec_select(lim, o, k as int, cfg.max_covering_grams) == (covered@, selected@, false),
        invariant
            n == order@.len(),
            o == order@,
            lim == literal@.len(),
            covered@.len() == lim,
            forall|j: int| #![trigger o[j]] 0 <= j < o.len() ==> o[j].start <= o[j].end <= lim,
            forall|j: int| #![trigger selected@[j]] 0 <= j < selected@.len() ==> selected@[j].start <= selected@[j].end <= lim,
        ensures
            spec_select(lim, o, n as int, cfg.max_covering_grams).1 == selected@,
        decreases n - k,
    {
        if k >= n {
            break;
        }
        if selected.len() >= cfg.max_covering_grams {
            proof {
                lemma_select_done(lim, o, k + 1, n as int, cfg.max_covering_grams);
            }
            break;
        }
        let g = order[k];
        let mut idx = g.start;
        let mut imp = false;
        while idx < g.end
            invariant
                g.start <= idx <= g.end <= covered@.len(),
                imp == exists|i: int| g.start <= i < idx && !covered@[i],
            decreases g.end - idx,
        {
            if !covered[idx] {
                imp = true;
            }
            idx = idx + 1;
        }
        assert(imp == improves(covered@, g));
        if imp {
            let ghost before = covered@;
            let mut m = g.start;
            while m < g.end
                invariant
                    g.start <= m <= g.end <= covered@.len(),
                    covered@.len() == before.len(),
                    forall|i: int| 0 <= i < before.len() ==> covered@[i] == (before[i] || (g.start <= i < m)),
                decreases g.end - m,
            {
                covered.set(m, true);
                m = m + 1;
            }
            assert(covered@ =~= mark_covered(before, g));
            selected.push(g);
            let mut all = true;
            let mut c: usize = 0;
            while c < covered.len()
                invariant
                    c <= covered@.len(),
                    all == forall|i: int| 0 <= i < c ==> covered@[i],
                decreases covered@.len() - c,
            {
                if !covered[c] {
                    all = false;
                }
                c = c + 1;
            }
            if all {
                proof {
                    lemma_select_done(lim, o, k + 1, n as int, cfg.max_covering_grams);
                }
                break;
            }
        }
        k = k + 1;
    }
    if selected.len() == 0 {
        let mut out: Vec<Vec<u8>> = Vec::new();
        out.push(slice_to_vec(&literal[0..3]));
        assert(out@.map_values(|v: Vec<u8>| v@) =~= seq![literal@.subrange(0, 3)]);
        return out;
    }
    let mut out: Vec<Vec<u8>> = Vec::new();
    for i in 0..selected.len()
        invariant
            forall|j: int| #![trigger selected@[j]] 0 <= j < selected@.len() ==> selected@[j].start <= selected@[j].end <= literal@.len(),
            out@.map_values(|v: Vec<u8>| v@) == first_occurrences(grams_bytes(literal@, selected@.take(i as int))),
    {
        let g = selected[i];
        let b = &literal[g.start..g.end];
        let mut dup = false;
        let mut j: usize = 0;
        while j < out.len()
            invariant
                j <= out@.len(),
                dup == exists|q: int| 0 <= q < j && out@[q]@ == b@,
            decreases out@.len() - j,
        {
            if bytes_eq(out[j].as_slice(), b) {
                dup = true;
            }
            j = j + 1;
        }
        let ghost prev = out@.map_values(|v: Vec<u8>| v@);
        proof {
            let s1 = grams_bytes(literal@, selected@.take(i + 1));
            assert(s1.drop_last() =~= grams_bytes(literal@, selected@.take(i as int)));
            assert(s1.last() == b@);
            assert(dup == prev.contains(b@)) by {
                if dup {
                    let q = choose|q: int| 0 <= q < j && out@[q]@ == b@;
                    assert(prev[q] == b@);
                }
                if prev.contains(b@) {
                    let q = choose|q: int| 0 <= q < prev.len() && prev[q] == b@;
                    assert(out@[q]@ == b@);
                }
            }
        }
        if !dup {
            out.push(slice_to_vec(b));
            assert(out@.map_values(|v: Vec<u8>| v@) =~= prev.push(b@));
        }
    }
    assert(selected@.take(selected@.len() as int) =~= selected@);
    out
}


// ---------------------------------------------------------------------------
// Every gram is a stretch of its text
/// The gram spans a nonempty stretch of a text of `n` bytes.
pub open spec fn gram_within(g: SparseGram, n: int) -> bool {
    g.start < g.end && g.end <= n
}

/// `b` is one of the three-byte windows of `lit`.
pub open spec fn is_window(lit: Seq<u8>, b: Seq<u8>) -> bool {
    exists|s: int| 0 <= s && s + 3 <= lit.len() && #[trigger] lit.subrange(s, s + 3) == b
}

proof fn lemma_row_within(w: Seq<u32>, l: int, r_hi: int)
    requires
        0 <= l,
        r_hi <= w.len(),
        w.len() + 1 <= usize::MAX,
    ensures
        forall|i: int| 0 <= i < spec_row(w, l, r_hi).len() ==> #[trigger] gram_within(spec_row(w, l, r_hi)[i], w.len() + 1 as int),
    decreases r_hi - l,
{
    if r_hi > l + 1 {
        lemma_row_within(w, l, r_hi - 1);
        let pre = spec_row(w, l, r_hi - 1);
        let row = spec_row(w, l, r_hi);
        assert forall|i: int| 0 <= i < row.len() implies #[trigger] gram_within(row[i], w.len() + 1 as int) by {
            if i < pre.len() {
                assert(row[i] == pre[i]);
            } else {
                assert(row[i] == spec_gram(w, l, r_hi - 1));
            }
        }
    }
}

proof fn lemma_candidates_within(w: Seq<u32>, span: usize, l_hi: int)
    requires
        0 <= l_hi <= w.len(),
        w.len() + 1 <= usize::MAX,
    ensures
        forall|i: int|
            0 <= i < spec_candidates(w, span, l_hi).len() ==> #[trigger] gram_within(
                spec_candidates(w, span, l_hi)[i],
                w.len() + 1 as int,
            ),
    decreases l_hi,
{
    if l_hi > 0 {
        lemma_candidates_within(w, span, l_hi - 1);
        let pre = spec_candidates(w, span, l_hi - 1);
        let r_hi = spec_last_r(w.len() as int, l_hi - 1, span) + 1;
        lemma_row_within(w, l_hi - 1, r_hi);
        let row = spec_row(w, l_hi - 1, r_hi);
        let all = spec_candidates(w, span, l_hi);
        assert forall|i: int| 0 <= i < all.len() implies #[trigger] gram_within(all[i], w.len() + 1 as int) by {
            if i < pre.len() {
                assert(all[i] == pre[i]);
            } else {
                assert(all[i] == row[i - pre.len()]);
            }
        }
    }
}

proof fn lemma_dedup_subset(text: Seq<u8>, c: Seq<SparseGram>)
    ensures
        forall|i: int| 0 <= i < spec_dedup(text, c).len() ==> c.contains(#[trigger] spec_dedup(text, c)[i]),
    decreases c.len(),
{
    if c.len() > 0 {
        let pre = c.drop_last();
        lemma_dedup_subset(text, pre);
        let d = spec_dedup(text, c);
        let dp = spec_dedup(text, pre);
        assert forall|i: int| 0 <= i < d.len() implies c.contains(#[trigger] d[i]) by {
            if i < dp.len() {
                assert(d[i] == dp[i]);
                let j = choose|j: int| 0 <= j < pre.len() && pre[j] == dp[i];
                assert(c[j] == pre[j]);
            } else {
                assert(d[i] == c[c.len() - 1]);
            }
        }
    }
}

/// Every sparse gram of a text spans a nonempty stretch of it.
proof fn lemma_sparse_within(text: Seq<u8>, freq: Map<u16, u32>, cfg: SparseConfig)
    requires
        text.len() <= usize::MAX,
    ensures
        forall|i: int|
            0 <= i < spec_sparse_grams(text, freq, cfg).len() ==> #[trigger] gram_within(
                spec_sparse_grams(text, freq, cfg)[i],
                text.len() as int,
            ),
{
    if text.len() >= 3 {
        let w = spec_weights(text, freq);
        let c = spec_candidates(w, cfg.max_span_bigrams, w.len() as int);
        let d = spec_dedup(text, c);
        lemma_candidates_within(w, cfg.max_span_bigrams, w.len() as int);
        lemma_dedup_subset(text, c);
        let g = spec_sparse_grams(text, freq, cfg);
        assert forall|i: int| 0 <= i < g.len() implies #[trigger] gram_within(g[i], text.len() as int) by {
            assert(g[i] == d[i]);
            let j = choose|j: int| 0 <= j < c.len() && c[j] == d[i];
            assert(gram_within(c[j], w.len() + 1 as int));
        }
    }
}

proof fn lemma_select_subset(n: nat, order: Seq<SparseGram>, k: int, max_selected: usize)
    requires
        k <= order.len(),
    ensures
        forall|i: int|
            0 <= i < spec_select(n, order, k, max_selected).1.len() ==> order.contains(
                #[trigger] spec_select(n, order, k, max_selected).1[i],
            ),
    decreases k,
{
    if k > 0 {
        lemma_select_subset(n, order, k - 1, max_selected);
        let prev = spec_select(n, order, k - 1, max_selected).1;
        let sel = spec_select(n, order, k, max_selected).1;
        assert forall|i: int| 0 <= i < sel.len() implies order.contains(#[trigger] sel[i]) by {
            if i < prev.len() {
                assert(sel[i] == prev[i]);
            } else {
                assert(sel[i] == order[k - 1]);
            }
        }
    }
}

proof fn lemma_first_occurrences_subset(s: Seq<Seq<u8>>)
    ensures
        forall|i: int| 0 <= i < first_occurrences(s).len() ==> s.contains(#[trigger] first_occurrences(s)[i]),
    decreases s.len(),
{
    if s.len() > 0 {
        let pre = s.drop_last();
        lemma_first_occurrences_subset(pre);
        let f = first_occurrences(s);
        let fp = first_occurrences(pre);
        assert forall|i: int| 0 <= i < f.len() implies s.contains(#[trigger] f[i]) by {
            if i < fp.len() {
                assert(f[i] == fp[i]);
                let j = choose|j: int| 0 <= j < pre.len() && pre[j] == fp[i];
                assert(s[j] == pre[j]);
            } else {
                assert(f[i] == s[s.len() - 1]);
            }
        }
    }
}

/// Every three-byte covering gram of a literal is one of its windows.
pub proof fn lemma_covering_windows(lit: Seq<u8>, freq: Map<u16, u32>, cfg: SparseConfig)
    requires
        lit.len() <= usize::MAX,
    ensures
        forall|i: int|
            0 <= i < spec_covering(lit, freq, cfg).len() && (#[trigger] spec_covering(lit, freq, cfg)[i]).len() == 3
                ==> is_window(lit, spec_covering(lit, freq, cfg)[i]),
{
    let cov = spec_covering(lit, freq, cfg);
    if lit.len() >= 3 {
        let grams = spec_sparse_grams(lit, freq, cfg);
        if grams.len() == 0 {
            assert(cov =~= seq![lit.subrange(0, 3)]);
            assert(lit.subrange(0int, 0int + 3) == cov[0]);
            assert(is_window(lit, cov[0]));
        } else {
            let order = grams.sort_by(gram_order());
            let selected = spec_select(lit.len(), order, order.len() as int, cfg.max_covering_grams).1;
            if selected.len() == 0 {
                assert(cov =~= seq![lit.subrange(0, 3)]);
            assert(lit.subrange(0int, 0int + 3) == cov[0]);
            assert(is_window(lit, cov[0]));
            } else {
                lemma_gram_order_total();
                grams.lemma_sort_by_ensures(gram_order());
                lemma_sparse_within(lit, freq, cfg);
                lemma_select_subset(lit.len(), order, order.len() as int, cfg.max_covering_grams);
                let gb = grams_bytes(lit, selected);
                lemma_first_occurrences_subset(gb);
                assert forall|i: int| 0 <= i < cov.len() && (#[trigger] cov[i]).len() == 3 implies is_window(lit, cov[i]) by {
                    let j = choose|j: int| 0 <= j < gb.len() && gb[j] == cov[i];
                    let g = selected[j];
                    assert(order.contains(g));
                    assert(grams.contains(g));
                    let t = choose|t: int| 0 <= t < grams.len() && grams[t] == g;
                    assert(gram_within(grams[t], lit.len() as int));
                    assert(gb[j] == lit.subrange(g.start as int, g.end as int));
                    assert(lit.subrange(g.start as int, g.start as int + 3) == cov[i]);
                }
            }
        }
    }
}

/// The gram spans at least three and at most `span + 1` bytes of a text of
/// `n` bytes (at most `span` bigrams).
pub open spec fn gram_in_span(g: SparseGram, n: int, span: int) -> bool {
    &&& g.start + 3 <= g.end
    &&& g.end <= n
    &&& g.end - g.start <= span + 1
}

proof fn lemma_row_span(w: Seq<u32>, l: int, r_hi: int)
    requires
        0 <= l,
        r_hi <= w.len(),
        w.len() + 1 <= usize::MAX,
    ensures
        forall|i: int|
            0 <= i < spec_row(w, l, r_hi).len() ==> (#[trigger] spec_row(w, l, r_hi)[i]).start == l && l + 3
                <= spec_row(w, l, r_hi)[i].end <= r_hi + 1,
    decreases r_hi - l,
{
    if r_hi > l + 1 {
        lemma_row_span(w, l, r_hi - 1);
        let pre = spec_row(w, l, r_hi - 1);
        let row = spec_row(w, l, r_hi);
        assert forall|i: int| 0 <= i < row.len() implies (#[trigger] row[i]).start == l && l + 3 <= row[i].end <= r_hi
            + 1 by {
            if i < pre.len() {
                assert(row[i] == pre[i]);
            } else {
                assert(row[i] == spec_gram(w, l, r_hi - 1));
            }
        }
    }
}

proof fn lemma_candidates_span(w: Seq<u32>, span: usize, l_hi: int)
    requires
        0 <= l_hi <= w.len(),
        w.len() + 1 <= usize::MAX,
    ensures
        forall|i: int|
            0 <= i < spec_candidates(w, span, l_hi).len() ==> #[trigger] gram_in_span(
                spec_candidates(w, span, l_hi)[i],
                w.len() + 1 as int,
                span as int,
            ),
    decreases l_hi,
{
    if l_hi > 0 {
        lemma_candidates_span(w, span, l_hi - 1);
        let l = l_hi - 1;
        let pre = spec_candidates(w, span, l);
        let r_hi = spec_last_r(w.len() as int, l, span) + 1;
        lemma_row_span(w, l, r_hi);
        let row = spec_row(w, l, r_hi);
        let all = spec_candidates(w, span, l_hi);
        assert forall|i: int| 0 <= i < all.len() implies #[trigger] gram_in_span(all[i], w.len() + 1 as int, span as int) by {
            if i < pre.len() {
                assert(all[i] == pre[i]);
            } else {
                assert(all[i] == row[i - pre.len()]);
            }
        }
    }
}

proof fn lemma_dedup_distinct(text: Seq<u8>, c: Seq<SparseGram>)
    ensures
        forall|i: int, j: int|
            0 <= i < j < spec_dedup(text, c).len() ==> gram_bytes(text, #[trigger] spec_dedup(text, c)[i]) != gram_bytes(
                text,
                #[trigger] spec_dedup(text, c)[j],
            ),
    decreases c.len(),
{
    if c.len() > 0 {
        lemma_dedup_distinct(text, c.drop_last());
        let prev = spec_dedup(text, c.drop_last());
        let d = spec_dedup(text, c);
        if !has_gram_bytes(text, prev, gram_bytes(text, c.last())) {
            assert forall|i: int, j: int| 0 <= i < j < d.len() implies gram_bytes(text, #[trigger] d[i]) != gram_bytes(
                text,
                #[trigger] d[j],
            ) by {
                assert(d[i] == prev[i]);
                if j < prev.len() {
                    assert(d[j] == prev[j]);
                } else {
                    assert(d[j] == c.last());
                }
            }
        }
    }
}

proof fn lemma_dedup_covers(text: Seq<u8>, c: Seq<SparseGram>)
    ensures
        forall|i: int| 0 <= i < c.len() ==> has_gram_bytes(text, spec_dedup(text, c), gram_bytes(text, #[trigger] c[i])),
    decreases c.len(),
{
    if c.len() > 0 {
        let pre = c.drop_last();
        lemma_dedup_covers(text, pre);
        let prev = spec_dedup(text, pre);
        let d = spec_dedup(text, c);
        assert(prev.is_prefix_of(d));
        assert forall|i: int| 0 <= i < c.len() implies has_gram_bytes(text, d, gram_bytes(text, #[trigger] c[i])) by {
            if i < pre.len() {
                assert(c[i] == pre[i]);
                let k = choose|k: int| 0 <= k < prev.len() && #[trigger] gram_bytes(text, prev[k]) == gram_bytes(text, pre[i]);
                assert(d[k] == prev[k]);
            } else if has_gram_bytes(text, prev, gram_bytes(text, c.last())) {
                let k = choose|k: int| 0 <= k < prev.len() && #[trigger] gram_bytes(text, prev[k]) == gram_bytes(text, c.last());
                assert(d[k] == prev[k]);
            } else {
                assert(d[prev.len() as int] == c.last());
            }
        }
    }
}

/// What the sparse grams of a text are: each spans at least three and at
/// most `max_span_bigrams + 1` bytes of the text; no two span the same
/// bytes; there are at most the per-text limit of them; and where that limit
/// is not reached and a gram may span two bigrams, every three-byte window
/// of the text is among them.
pub proof fn lemma_sparse_gram_laws(text: Seq<u8>, freq: Map<u16, u32>, cfg: SparseConfig)
    requires
        text.len() <= usize::MAX,
    ensures
        ({
            let g = spec_sparse_grams(text, freq, cfg);
            &&& forall|i: int|
                0 <= i < g.len() ==> #[trigger] gram_in_span(g[i], text.len() as int, cfg.max_span_bigrams as int)
            &&& forall|i: int, j: int|
                0 <= i < j < g.len() ==> gram_bytes(text, #[trigger] g[i]) != gram_bytes(text, #[trigger] g[j])
            &&& g.len() <= spec_gram_cap(cfg)
            &&& (g.len() < spec_gram_cap(cfg) && cfg.max_span_bigrams >= 2) ==> forall|st: int|
                0 <= st && st + 3 <= text.len() ==> has_gram_bytes(text, g, #[trigger] text.subrange(st, st + 3))
        }),
{
    let g = spec_sparse_grams(text, freq, cfg);
    if text.len() >= 3 {
        let w = spec_weights(text, freq);
        let span = cfg.max_span_bigrams;
        let c = spec_candidates(w, span, w.len() as int);
        let d = spec_dedup(text, c);
        let cap = spec_gram_cap(cfg);
        lemma_candidates_span(w, span, w.len() as int);
        lemma_dedup_subset(text, c);
        lemma_dedup_distinct(text, c);
        lemma_dedup_covers(text, c);
        assert forall|i: int| 0 <= i < g.len() implies #[trigger] gram_in_span(g[i], text.len() as int, span as int) by {
            assert(g[i] == d[i]);
            let j = choose|j: int| 0 <= j < c.len() && c[j] == d[i];
            assert(gram_in_span(c[j], w.len() + 1 as int, span as int));
        }
        assert forall|i: int, j: int| 0 <= i < j < g.len() implies gram_bytes(text, #[trigger] g[i]) != gram_bytes(
            text,
            #[trigger] g[j],
        ) by {
            assert(g[i] == d[i]);
            assert(g[j] == d[j]);
        }
        if g.len() < cap && span >= 2 {
            assert(g == d);
            assert forall|st: int| 0 <= st && st + 3 <= text.len() implies has_gram_bytes(
                text,
                g,
                #[trigger] text.subrange(st, st + 3),
            ) by {
                let g0 = spec_gram(w, st, st + 1);
                assert(w[st] >= 1 && w[st + 1] >= 1);
                assert(spec_seg_max(w, st + 1, st + 1) == 0);
                assert(spec_is_peak(w, st, st + 1));
                let last = spec_last_r(w.len() as int, st, span);
                assert(last >= st + 1);
                assert(spec_row(w, st, st + 1) =~= Seq::<SparseGram>::empty());
                assert(spec_row(w, st, st + 2) =~= seq![g0]);
                lemma_row_prefix(w, st, st + 2, last + 1);
                let row = spec_row(w, st, last + 1);
                assert(spec_row(w, st, st + 2) == row.subrange(0, 1));
                assert(row.subrange(0, 1)[0] == row[0]);
                assert(row[0] == g0);
                let before = spec_candidates(w, span, st);
                assert(spec_candidates(w, span, st + 1) == before + row);
                lemma_candidates_prefix(w, span, st + 1, w.len() as int);
                assert(spec_candidates(w, span, st + 1)[before.len() as int] == g0);
                assert(c[before.len() as int] == g0);
                assert(gram_bytes(text, g0) =~= text.subrange(st, st + 3));
            }
        }
    }
}

/// `b` is a stretch of `lit`.
pub open spec fn is_substring(lit: Seq<u8>, b: Seq<u8>) -> bool {
    exists|st: int, en: int| 0 <= st <= en <= lit.len() && #[trigger] lit.subrange(st, en) == b
}

/// `b` is one of the grams of `grams` or the first three bytes of `lit`.
pub open spec fn gram_or_head(lit: Seq<u8>, grams: Seq<Seq<u8>>, b: Seq<u8>) -> bool {
    grams.contains(b) || b == lit.subrange(0, 3)
}

proof fn lemma_first_occurrences_distinct(s: Seq<Seq<u8>>)
    ensures
        first_occurrences(s).no_duplicates(),
        first_occurrences(s).len() <= s.len(),
        s.len() > 0 ==> first_occurrences(s).len() > 0,
    decreases s.len(),
{
    if s.len() > 0 {
        lemma_first_occurrences_distinct(s.drop_last());
        let prev = first_occurrences(s.drop_last());
        let f = first_occurrences(s);
        if !prev.contains(s.last()) {
            assert forall|i: int, j: int| 0 <= i < f.len() && 0 <= j < f.len() && i != j implies f[i] != f[j] by {
                if i < prev.len() && j < prev.len() {
                    assert(f[i] == prev[i] && f[j] == prev[j]);
                } else if i < prev.len() {
                    assert(f[i] == prev[i]);
                    assert(f[j] == s.last());
                } else {
                    assert(f[j] == prev[j]);
                    assert(f[i] == s.last());
                }
            }
        }
    }
}

proof fn lemma_select_len(n: nat, order: Seq<SparseGram>, k: int, max_selected: usize)
    ensures
        spec_select(n, order, k, max_selected).1.len() <= max_selected,
    decreases k,
{
    if k > 0 {
        lemma_select_len(n, order, k - 1, max_selected);
    }
}

/// What the covering grams of a literal of three or more bytes are: each is
/// a stretch of at least three bytes of the literal; no two are equal; there
/// is at least one and at most the covering limit (one where the limit is
/// zero); and each is one of the literal's sparse grams or its first three
/// bytes.
pub proof fn lemma_covering_laws(lit: Seq<u8>, freq: Map<u16, u32>, cfg: SparseConfig)
    requires
        3 <= lit.len() <= usize::MAX,
    ensures
        ({
            let cov = spec_covering(lit, freq, cfg);
            &&& forall|i: int| 0 <= i < cov.len() ==> #[trigger] is_substring(lit, cov[i]) && cov[i].len() >= 3
            &&& cov.no_duplicates()
            &&& 1 <= cov.len() <= if cfg.max_covering_grams == 0 { 1 } else { cfg.max_covering_grams as int }
            &&& forall|i: int|
                0 <= i < cov.len() ==> #[trigger] gram_or_head(lit, grams_bytes(lit, spec_sparse_grams(lit, freq, cfg)), cov[i])
        }),
{
    let cov = spec_covering(lit, freq, cfg);
    let grams = spec_sparse_grams(lit, freq, cfg);
    let first3 = lit.subrange(0, 3);
    let order = grams.sort_by(gram_order());
    let selected = spec_select(lit.len(), order, order.len() as int, cfg.max_covering_grams).1;
    if grams.len() == 0 || selected.len() == 0 {
        assert(cov =~= seq![first3]);
        assert(is_substring(lit, cov[0])) by {
            assert(lit.subrange(0, 3) == cov[0]);
        }
        assert(cov.no_duplicates());
        assert forall|i: int| 0 <= i < cov.len() implies #[trigger] gram_or_head(lit, grams_bytes(lit, grams), cov[i]) by {
            assert(cov[i] == first3);
            assert(cov[i] == lit.subrange(0, 3));
        }
    } else {
        lemma_gram_order_total();
        grams.lemma_sort_by_ensures(gram_order());
        lemma_sparse_gram_laws(lit, freq, cfg);
        lemma_select_subset(lit.len(), order, order.len() as int, cfg.max_covering_grams);
        lemma_select_len(lit.len(), order, order.len() as int, cfg.max_covering_grams);
        let gb = grams_bytes(lit, selected);
        lemma_first_occurrences_subset(gb);
        lemma_first_occurrences_distinct(gb);
        assert(cov == first_occurrences(gb));
        assert forall|i: int| 0 <= i < cov.len() implies {
            &&& #[trigger] is_substring(lit, cov[i]) && cov[i].len() >= 3
            &&& gram_or_head(lit, grams_bytes(lit, grams), cov[i])
        } by {
            let j = choose|j: int| 0 <= j < gb.len() && gb[j] == cov[i];
            let g = selected[j];
            assert(order.contains(g));
            assert(grams.contains(g));
            let t = choose|t: int| 0 <= t < grams.len() && grams[t] == g;
            assert(gram_in_span(grams[t], lit.len() as int, cfg.max_span_bigrams as int));
            assert(gb[j] == lit.subrange(g.start as int, g.end as int));
            assert(grams_bytes(lit, grams)[t] == cov[i]);
            assert(grams_bytes(lit, grams).contains(cov[i]));
        }
        assert forall|i: int| 0 <= i < cov.len() implies #[trigger] gram_or_head(lit, grams_bytes(lit, grams), cov[i]) by {
            assert(is_substring(lit, cov[i]));
        }
    }
}

proof fn lemma_seg_max_bounds(w: Seq<u32>, lo: int, hi: int)
    ensures
        forall|k: int| lo <= k < hi ==> #[trigger] w[k] <= spec_seg_max(w, lo, hi),
    decreases hi - lo,
{
    if hi > lo {
        lemma_seg_max_bounds(w, lo, hi - 1);
    }
}

/// The gram starts at a bigram and ends two bytes after a later bigram,
/// and both are peaks over the bigrams between them.
pub open spec fn peak_gram(w: Seq<u32>, g: SparseGram) -> bool {
    &&& g.start + 1 <= g.end - 2
    &&& spec_is_peak(w, g.start as int, g.end - 2)
}

proof fn lemma_row_peaks(w: Seq<u32>, l: int, r_hi: int)
    requires
        0 <= l,
        r_hi <= w.len(),
        w.len() + 1 <= usize::MAX,
    ensures
        forall|i: int| 0 <= i < spec_row(w, l, r_hi).len() ==> peak_gram(w, #[trigger] spec_row(w, l, r_hi)[i]),
    decreases r_hi - l,
{
    if r_hi > l + 1 {
        lemma_row_peaks(w, l, r_hi - 1);
        let pre = spec_row(w, l, r_hi - 1);
        let row = spec_row(w, l, r_hi);
        assert forall|i: int| 0 <= i < row.len() implies peak_gram(w, #[trigger] row[i]) by {
            if i < pre.len() {
                assert(row[i] == pre[i]);
            } else {
                assert(row[i] == spec_gram(w, l, r_hi - 1));
                assert(spec_is_peak(w, l, r_hi - 1));
            }
        }
    }
}

proof fn lemma_candidates_peaks(w: Seq<u32>, span: usize, l_hi: int)
    requires
        0 <= l_hi <= w.len(),
        w.len() + 1 <= usize::MAX,
    ensures
        forall|i: int|
            0 <= i < spec_candidates(w, span, l_hi).len() ==> peak_gram(w, #[trigger] spec_candidates(w, span, l_hi)[i]),
    decreases l_hi,
{
    if l_hi > 0 {
        lemma_candidates_peaks(w, span, l_hi - 1);
        let l = l_hi - 1;
        let pre = spec_candidates(w, span, l);
        let r_hi = spec_last_r(w.len() as int, l, span) + 1;
        lemma_row_peaks(w, l, r_hi);
        let row = spec_row(w, l, r_hi);
        let all = spec_candidates(w, span, l_hi);
        assert forall|i: int| 0 <= i < all.len() implies peak_gram(w, #[trigger] all[i]) by {
            if i < pre.len() {
                assert(all[i] == pre[i]);
            } else {
                assert(all[i] == row[i - pre.len()]);
            }
        }
    }
}

/// A sparse gram is bounded by rare bigrams: both its first and its last
/// bigram weigh strictly more than every bigram inside it. So where every
/// bigram weighs the same (as with an empty frequency table) every sparse
/// gram is a trigram.
pub proof fn lemma_sparse_boundaries_strict(text: Seq<u8>, freq: Map<u16, u32>, cfg: SparseConfig)
    requires
        text.len() <= usize::MAX,
    ensures
        ({
            let g = spec_sparse_grams(text, freq, cfg);
            let w = spec_weights(text, freq);
            &&& forall|i: int, k: int|
                #![trigger g[i], w[k]]
                0 <= i < g.len() && g[i].start < k < g[i].end - 2 ==> w[g[i].start as int] > w[k] && w[g[i].end - 2]
                    > w[k]
            &&& (forall|a: int, b: int| 0 <= a < w.len() && 0 <= b < w.len() ==> w[a] == w[b]) ==> forall|i: int|
                0 <= i < g.len() ==> (#[trigger] g[i]).end - g[i].start == 3
            &&& freq == Map::<u16, u32>::empty() ==> forall|i: int|
                0 <= i < g.len() ==> (#[trigger] g[i]).end - g[i].start == 3
        }),
{
    let g = spec_sparse_grams(text, freq, cfg);
    let w = spec_weights(text, freq);
    lemma_sparse_gram_laws(text, freq, cfg);
    if text.len() >= 3 {
        let c = spec_candidates(w, cfg.max_span_bigrams, w.len() as int);
        let d = spec_dedup(text, c);
        lemma_dedup_subset(text, c);
        lemma_candidates_peaks(w, cfg.max_span_bigrams, w.len() as int);
        assert forall|i: int, k: int|
            #![trigger g[i], w[k]]
            0 <= i < g.len() && g[i].start < k < g[i].end - 2 implies w[g[i].start as int] > w[k] && w[g[i].end - 2]
                > w[k] by {
            assert(g[i] == d[i]);
            let j = choose|j: int| 0 <= j < c.len() && c[j] == d[i];
            assert(peak_gram(w, c[j]));
            lemma_seg_max_bounds(w, g[i].start + 1, g[i].end - 2);
        }
        if forall|a: int, b: int| 0 <= a < w.len() && 0 <= b < w.len() ==> w[a] == w[b] {
            assert forall|i: int| 0 <= i < g.len() implies (#[trigger] g[i]).end - g[i].start == 3 by {
                assert(gram_in_span(g[i], text.len() as int, cfg.max_span_bigrams as int));
                if g[i].end - g[i].start > 3 {
                    let k = g[i].start + 1;
                    assert(w[g[i].start as int] > w[k]);
                }
            }
        }
        if freq == Map::<u16, u32>::empty() {
            assert(!(exists|k: u16| freq.contains_key(k)));
            assert forall|a: int, b: int| 0 <= a < w.len() && 0 <= b < w.len() implies w[a] == w[b] by {
                assert(w[a] == spec_rarity(freq, spec_max_freq(freq), text[a], text[a + 1]));
                assert(w[b] == spec_rarity(freq, spec_max_freq(freq), text[b], text[b + 1]));
            }
            assert forall|i: int| 0 <= i < g.len() implies (#[trigger] g[i]).end - g[i].start == 3 by {
                assert(gram_in_span(g[i], text.len() as int, cfg.max_span_bigrams as int));
                if g[i].end - g[i].start > 3 {
                    let k = g[i].start + 1;
                    assert(w[g[i].start as int] > w[k]);
                }
            }
        }
    }
}

} // verus!
