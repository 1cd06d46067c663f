use std::collections::HashSet;
use std::time::Instant;
use vstd::prelude::*;
use vstd::utf8::{decode_utf8, valid_utf8};

use pcre2::bytes::{Regex, RegexBuilder};

use crate::error::FastRegexError;
use crate::text::{is_valid_utf8, push_char, spec_utf8_lossy, utf8_lossy};

verus! {

/// `std::time::Instant`, carried through as an opaque value.
#[verifier::external_type_specification]
#[verifier::external_body]
pub struct ExInstant(Instant);

/// One match: where it is and, on request, the line that holds it.
pub struct SearchMatch {
    pub path: String,
    pub byte_offset: usize,
    pub end_offset: usize,
    pub line: usize,
    pub column: usize,
    pub snippet: String,
}

/// What a search answers with.
#[derive(Debug, Clone, Copy, PartialEq, Eq, Structural)]
pub enum ReturnMode {
    Matches,
    Ids,
    Paths,
    Count,
}

/// How several gram hashes combine in a hash search.
#[derive(Debug, Clone, Copy, PartialEq, Eq, Structural)]
pub enum HashLogic {
    And,
    Or,
}

impl Default for ReturnMode {
    fn default() -> (m: Self)
        ensures
            m == ReturnMode::Matches,
    {
        ReturnMode::Matches
    }
}

/// The default cap on matches.
pub fn default_max_results() -> (n: usize)
    ensures
        n == 200,
{
    200
}

/// Searches are case sensitive unless asked otherwise.
pub fn default_case_sensitive() -> (b: bool)
    ensures
        b,
{
    true
}

// ---------------------------------------------------------------------------
// Lines and columns
/// The start of every line of `b` below position `n`: 0, then each
/// position that follows a newline, except the very end.
pub open spec fn line_starts_upto(b: Seq<u8>, n: int) -> Seq<usize>
    decreases n,
{
    if n <= 0 {
        seq![0usize]
    } else if b[n - 1] == 10 && n < b.len() {
        line_starts_upto(b, n - 1).push(n as usize)
    } else {
        line_starts_upto(b, n - 1)
    }
}

/// The start of every line of `b`.
pub open spec fn spec_line_starts(b: Seq<u8>) -> Seq<usize> {
    line_starts_upto(b, b.len() as int)
}

/// The start of every line of `bytes`.
pub fn build_line_starts(bytes: &[u8]) -> (starts: Vec<usize>)
    ensures
        starts@ == spec_line_starts(bytes@),
{
    let mut starts: Vec<usize> = Vec::new();
    starts.push(0);
    assert(starts@ =~= line_starts_upto(bytes@, 0));
    for idx in 0..bytes.len()
        invariant
            bytes@.len() == bytes.len(),
            starts@ == line_starts_upto(bytes@, idx as int),
    {
        if bytes[idx] == 10u8 && idx + 1 < bytes.len() {
            starts.push(idx + 1);
        }
    }
    starts
}

/// Whether the elements at most `x` all come before those above it.
pub open spec fn partitioned_at(ls: Seq<usize>, x: usize) -> bool {
    forall|i: int, j: int| #![trigger ls[i], ls[j]] 0 <= i < j < ls.len() && ls[j] <= x ==> ls[i] <= x
}

/// How many leading elements of `ls` are at most `x`.
pub open spec fn prefix_le(ls: Seq<usize>, x: usize) -> nat
    decreases ls.len(),
{
    if ls.len() == 0 || ls[0] > x {
        0
    } else {
        1 + prefix_le(ls.drop_first(), x)
    }
}

proof fn lemma_prefix_le(ls: Seq<usize>, x: usize, k: int)
    requires
        0 <= k <= ls.len(),
        forall|i: int| 0 <= i < k ==> #[trigger] ls[i] <= x,
        k < ls.len() ==> ls[k] > x,
    ensures
        prefix_le(ls, x) == k,
    decreases k,
{
    if k > 0 {
        assert forall|i: int| 0 <= i < k - 1 implies #[trigger] ls.drop_first()[i] <= x by {
            assert(ls.drop_first()[i] == ls[i + 1]);
        }
        lemma_prefix_le(ls.drop_first(), x, k - 1);
    }
}

/// The number of elements at most `x`, by binary search (the partition point).
fn partition_point_le(ls: &[usize], x: usize) -> (k: usize)
    requires
        partitioned_at(ls@, x),
    ensures
        k == prefix_le(ls@, x),
        k <= ls@.len(),
{
    let mut lo: usize = 0;
    let mut hi: usize = ls.len();
    while lo < hi
        invariant
            ls@.len() == ls.len(),
            partitioned_at(ls@, x),
            lo <= hi <= ls@.len(),
            forall|i: int| 0 <= i < lo ==> #[trigger] ls@[i] <= x,
            forall|i: int| hi <= i < ls@.len() ==> #[trigger] ls@[i] > x,
        decreases hi - lo,
    {
        let mid = lo + (hi - lo) / 2;
        if ls[mid] <= x {
            lo = mid + 1;
        } else {
            hi = mid;
        }
    }
    proof {
        lemma_prefix_le(ls@, x, lo as int);
    }
    lo
}

/// `x - y`, or 0.
pub open spec fn sat_sub(x: usize, y: usize) -> usize {
    if x >= y {
        (x - y) as usize
    } else {
        0
    }
}

/// `x + 1`, or `x` at the top.
pub open spec fn sat_inc(x: usize) -> usize {
    if x == usize::MAX {
        x
    } else {
        (x + 1) as usize
    }
}

/// The index of the line that holds position `p`.
pub open spec fn line_index(ls: Seq<usize>, p: usize) -> int {
    let k = prefix_le(ls, p);
    if k == 0 {
        0
    } else {
        k - 1
    }
}

/// Where line `i` starts (0 if there is no such line).
pub open spec fn start_of_line(ls: Seq<usize>, i: int) -> usize {
    if 0 <= i < ls.len() {
        ls[i]
    } else {
        0
    }
}

/// The 1-based line and column of position `p`.
pub open spec fn spec_line_column(ls: Seq<usize>, p: usize) -> (int, usize) {
    let i = line_index(ls, p);
    (i + 1, sat_inc(sat_sub(p, start_of_line(ls, i))))
}

/// The 1-based line and column of byte `start`, given the line starts.
pub fn line_column_only(line_starts: &[usize], start: usize) -> (r: (usize, usize))
    requires
        partitioned_at(line_starts@, start),
    ensures
        r.0 == spec_line_column(line_starts@, start).0,
        r.1 == spec_line_column(line_starts@, start).1,
{
    let k = partition_point_le(line_starts, start);
    let line_idx = if k == 0 { 0 } else { k - 1 };
    let line_start = if line_idx < line_starts.len() { line_starts[line_idx] } else { 0 };
    let column = start.saturating_sub(line_start).saturating_add(1);
    (line_idx + 1, column)
}

/// Where the line that holds `p` ends: just before the next line's start,
/// or at the end of the text.
pub open spec fn end_of_line(ls: Seq<usize>, len: usize, i: int) -> usize {
    if i + 1 < ls.len() {
        sat_sub(ls[i + 1], 1)
    } else {
        len
    }
}

/// The text of the line that holds `p`, decoded leniently (empty if the
/// bounds are out of order).
pub open spec fn spec_snippet(b: Seq<u8>, ls: Seq<usize>, p: usize) -> Seq<char> {
    let q = if p < b.len() { p } else { b.len() as usize };
    let i = line_index(ls, q);
    let s = start_of_line(ls, i);
    let e = end_of_line(ls, b.len() as usize, i);
    if s <= e && e <= b.len() {
        spec_utf8_lossy(b.subrange(s as int, e as int))
    } else {
        Seq::empty()
    }
}

/// The 1-based line and column of byte `start`, and the line's text.
pub fn line_column_snippet(bytes: &[u8], line_starts: &[usize], start: usize) -> (r: (usize, usize, String))
    requires
        partitioned_at(line_starts@, if start < bytes@.len() { start } else { bytes@.len() as usize }),
    ensures
        ({
            let q = if start < bytes@.len() { start } else { bytes@.len() as usize };
            &&& r.0 == spec_line_column(line_starts@, q).0
            &&& r.1 == spec_line_column(line_starts@, q).1
            &&& r.2@ == spec_snippet(bytes@, line_starts@, start)
        }),
{
    let bounded_start = if start < bytes.len() { start } else { bytes.len() };
    let k = partition_point_le(line_starts, bounded_start);
    let line_idx = if k == 0 { 0 } else { k - 1 };
    let line_start = if line_idx < line_starts.len() { line_starts[line_idx] } else { 0 };
    let line_end = if line_idx + 1 < line_starts.len() {
        line_starts[line_idx + 1].saturating_sub(1)
    } else {
        bytes.len()
    };
    let column = bounded_start.saturating_sub(line_start).saturating_add(1);
    let snippet = if line_start <= line_end && line_end <= bytes.len() {
        utf8_lossy(&bytes[line_start..line_end])
    } else {
        String::new()
    };
    (line_idx + 1, column, snippet)
}

/// The line starts of a text are sorted, so they are partitioned at every
/// position.
pub proof fn lemma_line_starts_sorted(b: Seq<u8>, n: int)
    requires
        0 <= n <= b.len(),
        b.len() <= usize::MAX,
    ensures
        forall|i: int, j: int|
            0 <= i < j < line_starts_upto(b, n).len() ==> #[trigger] line_starts_upto(b, n)[i]
                < #[trigger] line_starts_upto(b, n)[j],
        forall|i: int|
            0 <= i < line_starts_upto(b, n).len() ==> #[trigger] line_starts_upto(b, n)[i] <= n,
    decreases n,
{
    if n > 0 {
        lemma_line_starts_sorted(b, n - 1);
        let prev = line_starts_upto(b, n - 1);
        if b[n - 1] == 10 && n < b.len() {
            let cur = prev.push(n as usize);
            assert(line_starts_upto(b, n) == cur);
            assert forall|i: int, j: int| 0 <= i < j < cur.len() implies #[trigger] cur[i] < #[trigger] cur[j] by {
                if j == cur.len() - 1 {
                    assert(cur[i] == prev[i]);
                } else {
                    assert(cur[i] == prev[i] && cur[j] == prev[j]);
                }
            }
            assert forall|i: int| 0 <= i < cur.len() implies #[trigger] cur[i] <= n by {
                if i < prev.len() {
                    assert(cur[i] == prev[i]);
                }
            }
        }
    } else {
        assert(line_starts_upto(b, 0) == seq![0usize]);
    }
}

proof fn lemma_prefix_le_facts(ls: Seq<usize>, x: usize)
    ensures
        prefix_le(ls, x) <= ls.len(),
        forall|i: int| 0 <= i < prefix_le(ls, x) ==> #[trigger] ls[i] <= x,
        prefix_le(ls, x) < ls.len() ==> ls[prefix_le(ls, x) as int] > x,
    decreases ls.len(),
{
    if ls.len() > 0 && ls[0] <= x {
        let rest = ls.drop_first();
        lemma_prefix_le_facts(rest, x);
        assert forall|i: int| 0 <= i < prefix_le(ls, x) implies #[trigger] ls[i] <= x by {
            if i > 0 {
                assert(ls[i] == rest[i - 1]);
            }
        }
        if prefix_le(ls, x) < ls.len() {
            assert(ls[prefix_le(ls, x) as int] == rest[prefix_le(rest, x) as int]);
        }
    }
}

/// Where a byte is reported: given line starts that rise from 0, byte `p`
/// is on the line whose start is the last one at or below `p` (so the line
/// number counts the line starts at or below `p`), and its column is `p`
/// minus that start, plus one; a byte that begins a line is at column 1.
pub proof fn lemma_line_column(ls: Seq<usize>, p: usize)
    requires
        ls.len() > 0,
        ls[0] == 0,
        forall|i: int, j: int| 0 <= i < j < ls.len() ==> #[trigger] ls[i] < #[trigger] ls[j],
        p < usize::MAX,
    ensures
        ({
            let (line, col) = spec_line_column(ls, p);
            &&& 1 <= line <= ls.len()
            &&& ls[line - 1] <= p
            &&& line < ls.len() ==> p < ls[line]
            &&& forall|i: int| 0 <= i < ls.len() ==> (#[trigger] ls[i] <= p <==> i < line)
            &&& col == p - ls[line - 1] + 1
            &&& (col == 1 <==> ls.contains(p))
        }),
{
    lemma_prefix_le_facts(ls, p);
    let k = prefix_le(ls, p);
    assert(ls[0] <= p);
    assert(k >= 1);
    let (line, col) = spec_line_column(ls, p);
    assert(line == k);
    assert forall|i: int| 0 <= i < ls.len() implies (#[trigger] ls[i] <= p <==> i < line) by {
        if i >= line && line < ls.len() {
            if i > line {
                assert(ls[line as int] < ls[i]);
            }
        }
    }
    if ls.contains(p) {
        let j = choose|j: int| 0 <= j < ls.len() && ls[j] == p;
        assert(j < line);
        if j < line - 1 {
            assert(ls[j] < ls[line - 1]);
        }
    }
}

/// A byte of a text is at column 1 exactly when it begins a line: it is the
/// first byte, or it follows a line feed. Its line is one past the number of
/// line starts after 0 at or below it.
pub proof fn lemma_text_column_one(b: Seq<u8>, p: usize)
    requires
        p < b.len(),
        b.len() < usize::MAX,
    ensures
        spec_line_column(spec_line_starts(b), p).1 == 1 <==> (p == 0 || b[p - 1] == 10),
{
    let ls = spec_line_starts(b);
    lemma_line_starts_sorted(b, b.len() as int);
    lemma_starts_members(b, b.len() as int);
    lemma_first_start(b, b.len() as int);
    lemma_line_column(ls, p);
    if p > 0 && b[p - 1] == 10 {
        assert(ls.contains(p));
    }
    if p == 0 {
        assert(ls.contains(0usize));
    }
}

proof fn lemma_first_start(b: Seq<u8>, n: int)
    ensures
        line_starts_upto(b, n).len() > 0,
        line_starts_upto(b, n)[0] == 0,
    decreases n,
{
    if n > 0 {
        lemma_first_start(b, n - 1);
    }
}

proof fn lemma_starts_members(b: Seq<u8>, n: int)
    requires
        0 <= n <= b.len(),
        b.len() <= usize::MAX,
    ensures
        forall|q: usize|
            line_starts_upto(b, n).contains(q) <==> (q == 0 || (0 < q <= n && q < b.len() && b[q - 1] == 10)),
    decreases n,
{
    lemma_first_start(b, n);
    if n > 0 {
        lemma_starts_members(b, n - 1);
        let prev = line_starts_upto(b, n - 1);
        let cur = line_starts_upto(b, n);
        assert forall|q: usize| cur.contains(q) <==> (q == 0 || (0 < q <= n && q < b.len() && b[q - 1] == 10)) by {
            if b[n - 1] == 10 && n < b.len() {
                assert(cur == prev.push(n as usize));
                if cur.contains(q) {
                    let t = choose|t: int| 0 <= t < cur.len() && cur[t] == q;
                    if t < prev.len() {
                        assert(prev[t] == q);
                        assert(prev.contains(q));
                    }
                }
                if q == 0 || (0 < q <= n && q < b.len() && b[q - 1] == 10) {
                    if q == n {
                        assert(cur[prev.len() as int] == q);
                    } else {
                        assert(prev.contains(q));
                        let t = choose|t: int| 0 <= t < prev.len() && prev[t] == q;
                        assert(cur[t] == q);
                    }
                }
            } else {
                assert(cur == prev);
            }
        }
    } else {
        assert(line_starts_upto(b, 0) == seq![0usize]);
        assert forall|q: usize| line_starts_upto(b, 0).contains(q) <==> q == 0 by {
            if q == 0 {
                assert(line_starts_upto(b, 0)[0] == q);
            }
        }
    }
}

proof fn lemma_partitioned(b: Seq<u8>, x: usize)
    requires
        b.len() <= usize::MAX,
    ensures
        partitioned_at(spec_line_starts(b), x),
{
    lemma_line_starts_sorted(b, b.len() as int);
    let ls = spec_line_starts(b);
    assert forall|i: int, j: int| #![trigger ls[i], ls[j]] 0 <= i < j < ls.len() && ls[j] <= x implies ls[i] <= x by {
        assert(ls[i] < ls[j]);
    }
}

/// The match record for the span `start..end` of `bytes` in `path`.
pub open spec fn match_record_ok(
    m: SearchMatch,
    path: Seq<char>,
    b: Seq<u8>,
    start: usize,
    end: usize,
    snippet: bool,
) -> bool {
    let ls = spec_line_starts(b);
    let q = if start < b.len() { start } else { b.len() as usize };
    &&& m.path@ == path
    &&& m.byte_offset == start
    &&& m.end_offset == end
    &&& if snippet {
        &&& m.line == spec_line_column(ls, q).0
        &&& m.column == spec_line_column(ls, q).1
        &&& m.snippet@ == spec_snippet(b, ls, start)
    } else {
        &&& m.line == spec_line_column(ls, start).0
        &&& m.column == spec_line_column(ls, start).1
        &&& m.snippet@ == Seq::<char>::empty()
    }
}

/// The record of one match: where it is, its line and column, and, on
/// request, the text of its line.
pub fn record_match(
    path: &str,
    bytes: &[u8],
    line_starts: &Vec<usize>,
    start: usize,
    end: usize,
    include_snippet: bool,
) -> (m: SearchMatch)
    requires
        line_starts@ == spec_line_starts(bytes@),
    ensures
        match_record_ok(m, path@, bytes@, start, end, include_snippet),
{
    let n = bytes.len();
    proof {
        assert(bytes@.len() <= usize::MAX);
        lemma_partitioned(bytes@, start);
        lemma_partitioned(bytes@, if start < bytes@.len() { start } else { bytes@.len() as usize });
    }
    let (line, column, snippet) = if include_snippet {
        line_column_snippet(bytes, line_starts.as_slice(), start)
    } else {
        let (line, column) = line_column_only(line_starts.as_slice(), start);
        (line, column, String::new())
    };
    SearchMatch { path: path.to_string(), byte_offset: start, end_offset: end, line, column, snippet }
}

// ---------------------------------------------------------------------------
// Deadlines
/// Whether the current time is past `when`.
///
/// Trusted: calls `Instant::now`; the answer depends on the clock, so
/// nothing is stated of it.
#[verifier::external_body]
fn deadline_passed(when: &Instant) -> bool {
    Instant::now() > *when
}

/// Fails with a timeout once the deadline, if any, has passed.
pub fn check_deadline(deadline: &Option<(Instant, u64)>, request_id: &Option<String>) -> (r: Result<
    (),
    FastRegexError,
>)
    ensures
        deadline is None ==> r is Ok,
        r matches Err(e) ==> deadline matches Some(d) && e matches FastRegexError::Timeout {
            request_id: id,
            timeout_ms,
        } && timeout_ms == d.1 && id == *request_id,
{
    match deadline {
        Some((when, timeout_ms)) => {
            if deadline_passed(when) {
                let id = match request_id {
                    Some(s) => Some(s.clone()),
                    None => None,
                };
                return Err(FastRegexError::Timeout { request_id: id, timeout_ms: *timeout_ms });
            }
            Ok(())
        },
        None => Ok(()),
    }
}

// ---------------------------------------------------------------------------
// Literal search
/// Whether `n` occurs in `h` at `i`.
pub open spec fn occurs_at(h: Seq<u8>, n: Seq<u8>, i: int) -> bool {
    0 <= i && i + n.len() <= h.len() && h.subrange(i, i + n.len()) == n
}

/// The first position of `n` in `h`, if any.
pub open spec fn first_occurrence(h: Seq<u8>, n: Seq<u8>) -> Option<int> {
    if exists|i: int| #[trigger] occurs_at(h, n, i) {
        Some(choose|i: int| #[trigger] occurs_at(h, n, i) && forall|j: int| 0 <= j < i ==> !occurs_at(h, n, j))
    } else {
        None
    }
}

/// The first occurrence of `needle` in `haystack`.
///
/// Trusted: calls `memchr::memmem::find`, documented to return the index of
/// the first occurrence.
#[verifier::external_body]
fn memmem_find(haystack: &[u8], needle: &[u8]) -> (r: Option<usize>)
    ensures
        match r {
            Some(i) => occurs_at(haystack@, needle@, i as int) && forall|j: int|
                0 <= j < i ==> !occurs_at(haystack@, needle@, j),
            None => forall|j: int| !occurs_at(haystack@, needle@, j),
        },
{
    memchr::memmem::find(haystack, needle)
}

/// The first occurrence of `n` in `h` at or after `pos`, counted from `pos`.
#[verifier::opaque]
pub open spec fn next_hit(h: Seq<u8>, n: Seq<u8>, pos: int) -> Option<int> {
    first_occurrence(h.subrange(pos, h.len() as int), n)
}

/// The non-overlapping occurrences of `n` in `h` from `pos` on, left to
/// right (each search resumes after the previous occurrence).
#[verifier::opaque]
pub open spec fn hits_from(h: Seq<u8>, n: Seq<u8>, pos: int) -> Seq<int>
    decreases h.len() - pos,
{
    if n.len() == 0 || pos < 0 || pos > h.len() {
        Seq::empty()
    } else {
        match next_hit(h, n, pos) {
            Some(i) => if 0 <= i && pos + i + n.len() <= h.len() {
                seq![pos + i] + hits_from(h, n, pos + i + n.len())
            } else {
                Seq::empty()
            },
            None => Seq::empty(),
        }
    }
}

proof fn lemma_hits_step(h: Seq<u8>, n: Seq<u8>, pos: int, i: int)
    requires
        n.len() > 0,
        0 <= pos <= h.len(),
        occurs_at(h.subrange(pos, h.len() as int), n, i),
        next_hit(h, n, pos) == Some(i),
    ensures
        pos + i + n.len() <= h.len(),
        hits_from(h, n, pos) == seq![pos + i] + hits_from(h, n, pos + i + n.len()),
{
    reveal(hits_from);
}

proof fn lemma_hits_none(h: Seq<u8>, n: Seq<u8>, pos: int)
    requires
        n.len() > 0,
        0 <= pos <= h.len(),
        next_hit(h, n, pos) is None,
    ensures
        hits_from(h, n, pos) == Seq::<int>::empty(),
{
    reveal(hits_from);
}

/// How many of `hits` a scan records when `have` matches are already held
/// and at most `max` are wanted (at least the first one is taken).
pub open spec fn taken(hits: nat, have: nat, max: nat) -> nat {
    if hits == 0 {
        0
    } else if have + 1 >= max {
        1
    } else if hits <= max - have {
        hits
    } else {
        (max - have) as nat
    }
}

proof fn lemma_first_occurrence(h: Seq<u8>, n: Seq<u8>, r: Option<usize>)
    requires
        match r {
            Some(i) => occurs_at(h, n, i as int) && forall|j: int| 0 <= j < i ==> !occurs_at(h, n, j),
            None => forall|j: int| !occurs_at(h, n, j),
        },
    ensures
        first_occurrence(h, n) == match r {
            Some(i) => Some(i as int),
            None => None,
        },
{
    match r {
        Some(i) => {
            assert(occurs_at(h, n, i as int));
            let c = choose|c: int| #[trigger] occurs_at(h, n, c) && forall|j: int| 0 <= j < c ==> !occurs_at(h, n, j);
            if c < i {
            } else if c > i {
                assert(!occurs_at(h, n, i as int));
            }
        },
        None => {},
    }
}

/// Appends a record for each non-overlapping occurrence of `literal` in
/// `bytes`, left to right, stopping once `out` holds `max_results`.
pub fn scan_literal_candidate(
    literal: &[u8],
    path: &str,
    bytes: &[u8],
    out: &mut Vec<SearchMatch>,
    max_results: usize,
    deadline: &Option<(Instant, u64)>,
    request_id: &Option<String>,
    include_snippet: bool,
) -> (r: Result<(), FastRegexError>)
    ensures
        final(out)@.len() >= old(out)@.len(),
        final(out)@.subrange(0, old(out)@.len() as int) == old(out)@,
        ({
            let hits = hits_from(bytes@, literal@, 0);
            let k = taken(hits.len(), old(out)@.len(), max_results as nat);
            &&& r is Ok ==> final(out)@.len() == old(out)@.len() + k
            &&& final(out)@.len() <= old(out)@.len() + k
            &&& forall|t: int|
                #![trigger final(out)@[t]]
                old(out)@.len() <= t < final(out)@.len() ==> match_record_ok(
                    final(out)@[t],
                    path@,
                    bytes@,
                    hits[t - old(out)@.len()] as usize,
                    (hits[t - old(out)@.len()] + literal@.len()) as usize,
                    include_snippet,
                )
        }),
        r matches Err(e) ==> e is Timeout && deadline is Some,
        deadline is None ==> r is Ok,
{
    if literal.len() == 0 {
        proof {
            reveal(hits_from);
            assert(out@.subrange(0, out@.len() as int) =~= out@);
        }
        return Ok(());
    }
    let ghost base = out@;
    let ghost hits = hits_from(bytes@, literal@, 0);
    let ghost k = taken(hits.len(), base.len(), max_results as nat);
    let line_starts = build_line_starts(bytes);
    let mut pos: usize = 0;
    let ghost mut seen: nat = 0;
    loop
        invariant_except_break
            pos <= bytes@.len(),
            hits == hits_from(bytes@, literal@, 0),
            hits_from(bytes@, literal@, 0) == hits.take(seen as int) + hits_from(bytes@, literal@, pos as int),
            seen <= hits.len(),
            out@.len() == base.len() + seen,
            seen < k || seen == hits.len(),
        invariant
            literal@.len() > 0,
            bytes@.len() == bytes.len(),
            line_starts@ == spec_line_starts(bytes@),
            k == taken(hits.len(), base.len(), max_results as nat),
            base == old(out)@,
            out@.len() >= base.len(),
            out@.subrange(0, base.len() as int) == base,
            out@.len() <= base.len() + k,
            forall|t: int|
                #![trigger out@[t]]
                base.len() <= t < out@.len() ==> match_record_ok(
                    out@[t],
                    path@,
                    bytes@,
                    hits[t - base.len()] as usize,
                    (hits[t - base.len()] + literal@.len()) as usize,
                    include_snippet,
                ),
        ensures
            out@.len() == base.len() + k,
        decreases bytes@.len() - pos,
    {
        let found = memmem_find(&bytes[pos..bytes.len()], literal);
        proof {
            lemma_first_occurrence(bytes@.subrange(pos as int, bytes@.len() as int), literal@, found);
            reveal(next_hit);
        }
        let i = match found {
            Some(i) => i,
            None => {
                proof {
                    lemma_hits_none(bytes@, literal@, pos as int);
                    assert(hits.take(seen as int) + Seq::<int>::empty() =~= hits.take(seen as int));
                    assert(hits =~= hits.take(seen as int));
                }
                break;
            },
        };
        let start = pos + i;
        let end = start + literal.len();
        proof {
            lemma_hits_step(bytes@, literal@, pos as int, i as int);
            let rest = hits_from(bytes@, literal@, end as int);
            assert(hits_from(bytes@, literal@, pos as int) == seq![start as int] + rest);
            assert(hits.take(seen as int) + (seq![start as int] + rest) =~= hits.take(seen as int + 1)
                + rest) by {
                assert(hits[seen as int] == start as int);
            }
            assert(hits[seen as int] == start as int);
        }
        match check_deadline(deadline, request_id) {
            Ok(()) => {},
            Err(e) => {
                return Err(e);
            },
        }
        let m = record_match(path, bytes, &line_starts, start, end, include_snippet);
        let ghost before = out@;
        out.push(m);
        proof {
            assert(out@.subrange(0, base.len() as int) =~= before.subrange(0, base.len() as int));
            assert forall|t: int| #![trigger out@[t]] base.len() <= t < out@.len() implies match_record_ok(
                out@[t],
                path@,
                bytes@,
                hits[t - base.len()] as usize,
                (hits[t - base.len()] + literal@.len()) as usize,
                include_snippet,
            ) by {
                if t < before.len() {
                    assert(out@[t] == before[t]);
                }
            }
            seen = seen + 1;
        }
        pos = end;
        if out.len() >= max_results {
            break;
        }
    }
    Ok(())
}

// ---------------------------------------------------------------------------
// Escaping
/// Whether `c` has a meaning of its own in a PCRE2 pattern.
pub open spec fn is_pcre2_meta(c: char) -> bool {
    c == '.' || c == '^' || c == '$' || c == '*' || c == '+' || c == '?' || c == '(' || c == ')'
        || c == '[' || c == ']' || c == '{' || c == '}' || c == '|' || c == '\\'
}

/// `s` with a backslash before every metacharacter.
pub open spec fn spec_escape(s: Seq<char>) -> Seq<char>
    decreases s.len(),
{
    if s.len() == 0 {
        Seq::empty()
    } else {
        let c = s.last();
        spec_escape(s.drop_last()) + if is_pcre2_meta(c) {
            seq!['\\', c]
        } else {
            seq![c]
        }
    }
}

/// A PCRE2 pattern that matches `input` literally.
pub fn escape_literal_for_pcre2(input: &str) -> (out: String)
    ensures
        out@ == spec_escape(input@),
{
    let chars = crate::text::chars_of(input);
    let mut out = String::new();
    for i in 0..chars.len()
        invariant
            chars@ == input@,
            out@ == spec_escape(chars@.take(i as int)),
    {
        let ch = chars[i];
        assert(chars@.take(i + 1).drop_last() =~= chars@.take(i as int));
        let meta = ch == '.' || ch == '^' || ch == '$' || ch == '*' || ch == '+' || ch == '?' || ch
            == '(' || ch == ')' || ch == '[' || ch == ']' || ch == '{' || ch == '}' || ch == '|' || ch
            == '\\';
        if meta {
            push_char(&mut out, '\\');
            push_char(&mut out, ch);
        } else {
            push_char(&mut out, ch);
        }
        assert(out@ =~= spec_escape(chars@.take(i + 1)));
    }
    assert(chars@.take(chars@.len() as int) =~= chars@);
    out
}

// ---------------------------------------------------------------------------
// Posting list intersection and hash matching
/// Whether the ids rise strictly.
pub open spec fn ids_increasing(s: Seq<u32>) -> bool {
    forall|i: int, j: int| 0 <= i < j < s.len() ==> s[i] < s[j]
}

/// Every id of `out` is at most `s[n - 1]` (and there is such an element
/// when `out` is not empty).
pub open spec fn all_at_most(out: Seq<u32>, s: Seq<u32>, n: int) -> bool {
    forall|k: int| 0 <= k < out.len() ==> (n > 0 && #[trigger] out[k] <= s[n - 1])
}

/// The ids in both lists, by merging two lists; on lists that rise strictly
/// this is their intersection, rising strictly.
pub fn intersect_sorted_doc_ids(left: &[u32], right: &[u32]) -> (out: Vec<u32>)
    ensures
        forall|k: int| 0 <= k < out@.len() ==> left@.contains(#[trigger] out@[k]) && right@.contains(
            out@[k],
        ),
        ids_increasing(left@) && ids_increasing(right@) ==> ids_increasing(out@) && out@.to_set()
            == left@.to_set().intersect(right@.to_set()),
{
    let mut out: Vec<u32> = Vec::new();
    let mut i: usize = 0;
    let mut j: usize = 0;
    while i < left.len() && j < right.len()
        invariant
            i <= left@.len(),
            j <= right@.len(),
            left@.len() == left.len(),
            right@.len() == right.len(),
            forall|k: int| 0 <= k < out@.len() ==> left@.contains(#[trigger] out@[k]) && right@.contains(
                out@[k],
            ),
            ids_increasing(left@) && ids_increasing(right@) ==> ids_increasing(out@),
            ids_increasing(left@) && ids_increasing(right@) ==> out@.to_set() == left@.take(
                i as int,
            ).to_set().intersect(right@.to_set()),
            ids_increasing(left@) && ids_increasing(right@) ==> out@.to_set() == left@.to_set().intersect(
                right@.take(j as int).to_set(),
            ),
            ids_increasing(left@) && ids_increasing(right@) ==> all_at_most(out@, left@, i as int),
            ids_increasing(left@) && ids_increasing(right@) ==> all_at_most(out@, right@, j as int),
        decreases left@.len() - i + right@.len() - j,
    {
        let a = left[i];
        let b = right[j];
        let ghost old_out = out@;
        if a < b {
            proof {
                if ids_increasing(left@) && ids_increasing(right@) {
                    lemma_take_step(left@, i as int);
                    assert(!right@.to_set().contains(a)) by {
                        if right@.contains(a) {
                            let t = choose|t: int| 0 <= t < right@.len() && right@[t] == a;
                            if t >= j {
                                assert(right@[t] >= b) by {
                                    if t > j {
                                        assert(right@[j as int] < right@[t]);
                                    }
                                }
                            } else {
                                assert(right@.take(j as int)[t] == a);
                                assert(right@.take(j as int).contains(a));
                                assert(left@.to_set().contains(a));
                                assert(out@.to_set().contains(a));
                                let u = choose|u: int| 0 <= u < out@.len() && out@[u] == a;
                                assert(out@[u] <= left@[i - 1]);
                                assert(left@[i - 1] < left@[i as int]);
                            }
                        }
                    }
                    assert(out@.to_set() =~= left@.take(i + 1).to_set().intersect(right@.to_set()));
                    assert forall|k: int| 0 <= k < out@.len() implies (i + 1 > 0 && #[trigger] out@[k]
                        <= left@[i as int]) by {
                        assert(out@[k] <= left@[i - 1]);
                        assert(left@[i - 1] < left@[i as int]);
                    }
                }
            }
            proof {
                if ids_increasing(left@) && ids_increasing(right@) {
                    assert forall|k: int| 0 <= k < out@.len() implies (j > 0 && #[trigger] out@[k] <= right@[j - 1]) by {
                        assert(out@[k] == old_out[k]);
                    }
                }
            }
            i += 1;
        } else if a > b {
            proof {
                if ids_increasing(left@) && ids_increasing(right@) {
                    lemma_take_step(right@, j as int);
                    assert(!left@.to_set().contains(b)) by {
                        if left@.contains(b) {
                            let t = choose|t: int| 0 <= t < left@.len() && left@[t] == b;
                            if t >= i {
                                assert(left@[t] >= a) by {
                                    if t > i {
                                        assert(left@[i as int] < left@[t]);
                                    }
                                }
                            } else {
                                assert(left@.take(i as int)[t] == b);
                                assert(left@.take(i as int).contains(b));
                                assert(right@.to_set().contains(b));
                                assert(out@.to_set().contains(b));
                                let u = choose|u: int| 0 <= u < out@.len() && out@[u] == b;
                                assert(out@[u] <= right@[j - 1]);
                                assert(right@[j - 1] < right@[j as int]);
                            }
                        }
                    }
                    assert(out@.to_set() =~= left@.to_set().intersect(right@.take(j + 1).to_set()));
                    assert forall|k: int| 0 <= k < out@.len() implies (j + 1 > 0 && #[trigger] out@[k]
                        <= right@[j as int]) by {
                        assert(out@[k] <= right@[j - 1]);
                        assert(right@[j - 1] < right@[j as int]);
                    }
                }
            }
            j += 1;
        } else {
            out.push(a);
            proof {
                assert(left@.contains(a) && right@.contains(a));
                assert forall|k: int| 0 <= k < out@.len() implies left@.contains(#[trigger] out@[k])
                    && right@.contains(out@[k]) by {
                    if k < old_out.len() {
                        assert(out@[k] == old_out[k]);
                    }
                }
                if ids_increasing(left@) && ids_increasing(right@) {
                    lemma_take_step(left@, i as int);
                    lemma_take_step(right@, j as int);
                    old_out.lemma_push_to_set_commute(a);
                    assert(out@.to_set() =~= left@.take(i + 1).to_set().intersect(right@.to_set())) by {
                        assert forall|x: u32| right@.to_set().contains(x) && x == a implies true by {}
                        assert forall|x: u32| #[trigger] left@.take(i + 1).to_set().contains(x) && right@.to_set().contains(x)
                            && x != a implies left@.take(i as int).to_set().contains(x) by {
                            let t = choose|t: int| #![trigger left@.take(i + 1)[t]] 0 <= t < i + 1 && left@.take(i + 1)[t] == x;
                            if t == i {
                                assert(x == a);
                            } else {
                                assert(left@.take(i as int)[t] == x);
                            }
                        }
                    }
                    assert(out@.to_set() =~= left@.to_set().intersect(right@.take(j + 1).to_set())) by {
                        assert forall|x: u32| #[trigger] right@.take(j + 1).to_set().contains(x) && left@.to_set().contains(x)
                            && x != a implies right@.take(j as int).to_set().contains(x) by {
                            let t = choose|t: int| #![trigger right@.take(j + 1)[t]] 0 <= t < j + 1 && right@.take(j + 1)[t] == x;
                            if t == j {
                                assert(x == b);
                            } else {
                                assert(right@.take(j as int)[t] == x);
                            }
                        }
                    }
                    assert forall|p: int, q: int| 0 <= p < q < out@.len() implies out@[p] < out@[q] by {
                        if q == out@.len() - 1 && p < old_out.len() {
                            assert(old_out[p] <= left@[i - 1]);
                            assert(left@[i - 1] < left@[i as int]);
                        }
                    }
                    assert forall|k: int| 0 <= k < out@.len() implies (i + 1 > 0 && #[trigger] out@[k] <= left@[i as int]) by {
                        if k < old_out.len() {
                            assert(old_out[k] <= left@[i - 1]);
                            assert(left@[i - 1] < left@[i as int]);
                        }
                    }
                    assert forall|k: int| 0 <= k < out@.len() implies (j + 1 > 0 && #[trigger] out@[k] <= right@[j as int]) by {
                        if k < old_out.len() {
                            assert(old_out[k] <= right@[j - 1]);
                            assert(right@[j - 1] < right@[j as int]);
                        }
                    }
                }
            }
            i += 1;
            j += 1;
        }
    }
    proof {
        if ids_increasing(left@) && ids_increasing(right@) {
            if i == left@.len() {
                assert(left@.take(i as int) =~= left@);
            } else {
                assert(right@.take(j as int) =~= right@);
            }
        }
    }
    out
}

proof fn lemma_take_step(s: Seq<u32>, i: int)
    requires
        0 <= i < s.len(),
    ensures
        s.take(i + 1).to_set() == s.take(i).to_set().insert(s[i]),
{
    assert(s.take(i + 1) =~= s.take(i).push(s[i]));
    s.take(i).lemma_push_to_set_commute(s[i]);
}

/// Whether a file with gram hashes `file_hashes` can hold what the hashes
/// describe: all of them (`And`) or any (`Or`).
pub open spec fn spec_overlay_hash_match(file_hashes: Set<u64>, hashes: Seq<u64>, logic: HashLogic) -> bool {
    match logic {
        HashLogic::And => forall|i: int| 0 <= i < hashes.len() ==> file_hashes.contains(#[trigger] hashes[i]),
        HashLogic::Or => exists|i: int| 0 <= i < hashes.len() && file_hashes.contains(#[trigger] hashes[i]),
    }
}

/// Whether an overlay file with these gram hashes is a candidate.
pub fn overlay_hash_match(file_hashes: &HashSet<u64>, hashes: &[u64], logic: HashLogic) -> (r: bool)
    ensures
        r == spec_overlay_hash_match(file_hashes@, hashes@, logic),
{
    match logic {
        HashLogic::And => {
            for i in 0..hashes.len()
                invariant
                    logic == HashLogic::And,
                    forall|k: int| 0 <= k < i ==> file_hashes@.contains(#[trigger] hashes@[k]),
            {
                if !file_hashes.contains(&hashes[i]) {
                    return false;
                }
            }
            true
        },
        HashLogic::Or => {
            for i in 0..hashes.len()
                invariant
                    logic == HashLogic::Or,
                    forall|k: int| 0 <= k < i ==> !file_hashes@.contains(#[trigger] hashes@[k]),
            {
                if file_hashes.contains(&hashes[i]) {
                    return true;
                }
            }
            false
        },
    }
}

// ---------------------------------------------------------------------------
// Regular expressions
/// `pcre2::bytes::Regex`, a compiled PCRE2 pattern.
#[verifier::external_type_specification]
#[verifier::external_body]
pub struct ExRegex(Regex);

/// Whether PCRE2 compiles `pattern` with these options.
pub uninterp spec fn spec_pcre2_compiles(pattern: Seq<char>, caseless: bool, dotall: bool, multi_line: bool) -> bool;

/// What a completed `Regex::find_at` finds, for a regex compiled from
/// `pattern` with these options, on `subject` from `start`: the span of the
/// first match, or none. (Whether matching completes at all is left open:
/// see `pcre2_find_at`.)
pub uninterp spec fn spec_pcre2_find_at(
    pattern: Seq<char>,
    caseless: bool,
    dotall: bool,
    multi_line: bool,
    subject: Seq<u8>,
    start: usize,
) -> Option<(usize, usize)>;

/// A compiled pattern, with the pattern and options it was compiled from.
pub struct CompiledRegex {
    regex: Regex,
    pattern: String,
    caseless: bool,
    dotall: bool,
    multi_line: bool,
}

/// The pattern and options of a compiled regex.
pub struct RegexSource {
    pub pattern: Seq<char>,
    pub caseless: bool,
    pub dotall: bool,
    pub multi_line: bool,
}

impl View for CompiledRegex {
    type V = RegexSource;

    closed spec fn view(&self) -> RegexSource {
        RegexSource {
            pattern: self.pattern@,
            caseless: self.caseless,
            dotall: self.dotall,
            multi_line: self.multi_line,
        }
    }
}

/// Compiles `pattern` with the given options (asking for JIT where `jit`
/// holds, used where available), or gives the compile error's message.
///
/// Trusted: calls `RegexBuilder::new`, sets `caseless`, `dotall`,
/// `multi_line` and `jit_if_available`, then `RegexBuilder::build`; whether
/// it compiles depends on the pattern and options alone (a JIT compile that
/// fails is ignored by `build`).
#[verifier::external_body]
fn pcre2_build(pattern: &str, caseless: bool, dotall: bool, multi_line: bool, jit: bool) -> (r: Result<Regex, String>)
    ensures
        r is Ok <==> spec_pcre2_compiles(pattern@, caseless, dotall, multi_line),
{
    let mut builder = RegexBuilder::new();
    builder.caseless(caseless);
    builder.dotall(dotall);
    builder.multi_line(multi_line);
    builder.jit_if_available(jit);
    builder.build(pattern).map_err(|e| e.to_string())
}

/// The first match of the regex in `subject` from `start`, as a span.
///
/// Trusted: calls `Regex::find_at` on the regex that `CompiledRegex::build`
/// compiled from the pattern and options it keeps (its fields are private
/// and set there only). When matching completes, what it finds is a function
/// of those and the subject. Whether it completes is not stated: JIT is used
/// where it compiled, on a fixed stack, while the interpreter uses heap
/// frames, so a matching error (a resource limit) depends on the machine.
#[verifier::external_body]
fn pcre2_find_at(re: &CompiledRegex, subject: &[u8], start: usize) -> (r: Result<Option<(usize, usize)>, String>)
    requires
        start <= subject@.len(),
    ensures
        r matches Ok(m) ==> m == spec_pcre2_find_at(
            re@.pattern,
            re@.caseless,
            re@.dotall,
            re@.multi_line,
            subject@,
            start,
        ),
{
    match re.regex.find_at(subject, start) {
        Ok(Some(m)) => Ok(Some((m.start(), m.end()))),
        Ok(None) => Ok(None),
        Err(e) => Err(e.to_string()),
    }
}

impl CompiledRegex {
    /// Compiles `pattern`; a failure is a `RegexCompile` error.
    pub fn build(pattern: &str, case_sensitive: bool, dotall: bool, multi_line: bool) -> (r: Result<
        CompiledRegex,
        FastRegexError,
    >)
        ensures
            r is Ok <==> spec_pcre2_compiles(pattern@, !case_sensitive, dotall, multi_line),
            r matches Ok(re) ==> re@ == (RegexSource {
                pattern: pattern@,
                caseless: !case_sensitive,
                dotall,
                multi_line,
            }),
            r matches Err(e) ==> e is RegexCompile,
    {
        CompiledRegex::build_with(pattern, case_sensitive, dotall, multi_line, true)
    }

    /// Compiles `pattern` for the interpreter alone (no JIT), as a plain
    /// full scan does; a failure is a `RegexCompile` error.
    pub fn build_without_jit(pattern: &str, case_sensitive: bool, dotall: bool, multi_line: bool) -> (r: Result<
        CompiledRegex,
        FastRegexError,
    >)
        ensures
            r is Ok <==> spec_pcre2_compiles(pattern@, !case_sensitive, dotall, multi_line),
            r matches Ok(re) ==> re@ == (RegexSource {
                pattern: pattern@,
                caseless: !case_sensitive,
                dotall,
                multi_line,
            }),
            r matches Err(e) ==> e is RegexCompile,
    {
        CompiledRegex::build_with(pattern, case_sensitive, dotall, multi_line, false)
    }

    fn build_with(pattern: &str, case_sensitive: bool, dotall: bool, multi_line: bool, jit: bool) -> (r: Result<
        CompiledRegex,
        FastRegexError,
    >)
        ensures
            r is Ok <==> spec_pcre2_compiles(pattern@, !case_sensitive, dotall, multi_line),
            r matches Ok(re) ==> re@ == (RegexSource {
                pattern: pattern@,
                caseless: !case_sensitive,
                dotall,
                multi_line,
            }),
            r matches Err(e) ==> e is RegexCompile,
    {
        match pcre2_build(pattern, !case_sensitive, dotall, multi_line, jit) {
            Ok(regex) => Ok(
                CompiledRegex {
                    regex,
                    pattern: pattern.to_string(),
                    caseless: !case_sensitive,
                    dotall,
                    multi_line,
                },
            ),
            Err(msg) => Err(FastRegexError::RegexCompile(msg)),
        }
    }
}

/// The spans that iterating the matches of `re` over `s` yields when every
/// step completes, from `last_end` on (`last_match` ends the previous match),
/// and whether a step reports a span outside the subject. An empty match is skipped right after a
/// match that ended at the same place; after an empty match the search
/// moves on by one byte.
pub open spec fn regex_spans(re: RegexSource, s: Seq<u8>, last_end: int, last_match: Option<int>) -> (
    Seq<(int, int)>,
    bool,
)
    decreases s.len() + 1 - last_end,
{
    if last_end < 0 || last_end > s.len() {
        (Seq::empty(), false)
    } else {
        match spec_pcre2_find_at(re.pattern, re.caseless, re.dotall, re.multi_line, s, last_end as usize) {
            None => (Seq::empty(), false),
            Some((a, b)) => if !(last_end <= a && a <= b && b <= s.len()) {
                (Seq::empty(), true)
            } else if a == b {
                if last_match == Some(b as int) {
                    regex_spans(re, s, b + 1, last_match)
                } else {
                    let rest = regex_spans(re, s, b + 1, Some(b as int));
                    (seq![(a as int, b as int)] + rest.0, rest.1)
                }
            } else {
                let rest = regex_spans(re, s, b as int, Some(b as int));
                (seq![(a as int, b as int)] + rest.0, rest.1)
            },
        }
    }
}

/// Whether a scan that holds `have` matches and stops at `max` gets past
/// all `n` spans (and so meets whatever ends them).
pub open spec fn reaches_end(n: nat, have: nat, max: nat) -> bool {
    n == 0 || have + n < max
}

/// Appends a record for each match of `regex` in `bytes`, left to right,
/// stopping once `out` holds `max_results`; a matching error (at any step)
/// is an `Internal` error, and a timeout needs a deadline.
pub fn scan_candidate(
    regex: &CompiledRegex,
    path: &str,
    bytes: &[u8],
    out: &mut Vec<SearchMatch>,
    max_results: usize,
    deadline: &Option<(Instant, u64)>,
    request_id: &Option<String>,
    include_snippet: bool,
) -> (r: Result<(), FastRegexError>)
    ensures
        final(out)@.len() >= old(out)@.len(),
        final(out)@.subrange(0, old(out)@.len() as int) == old(out)@,
        ({
            let (spans, failed) = regex_spans(regex@, bytes@, 0, None);
            let k = taken(spans.len(), old(out)@.len(), max_results as nat);
            &&& r is Ok ==> final(out)@.len() == old(out)@.len() + k && !(failed && reaches_end(
                spans.len(),
                old(out)@.len(),
                max_results as nat,
            ))
            &&& final(out)@.len() <= old(out)@.len() + k
            &&& forall|t: int|
                #![trigger final(out)@[t]]
                old(out)@.len() <= t < final(out)@.len() ==> match_record_ok(
                    final(out)@[t],
                    path@,
                    bytes@,
                    spans[t - old(out)@.len()].0 as usize,
                    spans[t - old(out)@.len()].1 as usize,
                    include_snippet,
                )
        }),
        r matches Err(e) ==> (e is Timeout && deadline is Some) || e is Internal,
{
    let ghost base = out@;
    let ghost all = regex_spans(regex@, bytes@, 0, None);
    let ghost spans = all.0;
    let ghost k = taken(spans.len(), base.len(), max_results as nat);
    let line_starts = build_line_starts(bytes);
    let mut last_end: usize = 0;
    let mut exhausted = false;
    let mut last_match: Option<usize> = None;
    let ghost mut seen: nat = 0;
    loop
        invariant_except_break
            !exhausted ==> last_end <= bytes@.len() + 1,
            ({
                let pos = if exhausted { (bytes@.len() + 1) as int } else { last_end as int };
                let rest = regex_spans(
                    regex@,
                    bytes@,
                    pos,
                    match last_match {
                        Some(m) => Some(m as int),
                        None => None,
                    },
                );
                &&& spans == spans.take(seen as int) + rest.0
                &&& all.1 == rest.1
            }),
            seen <= spans.len(),
            out@.len() == base.len() + seen,
            seen < k || seen == spans.len(),
            seen == 0 || base.len() + seen < max_results,
        invariant
            bytes@.len() == bytes.len(),
            line_starts@ == spec_line_starts(bytes@),
            all == regex_spans(regex@, bytes@, 0, None),
            spans == all.0,
            k == taken(spans.len(), base.len(), max_results as nat),
            base == old(out)@,
            out@.len() >= base.len(),
            out@.subrange(0, base.len() as int) == base,
            out@.len() <= base.len() + k,
            forall|t: int|
                #![trigger out@[t]]
                base.len() <= t < out@.len() ==> match_record_ok(
                    out@[t],
                    path@,
                    bytes@,
                    spans[t - base.len()].0 as usize,
                    spans[t - base.len()].1 as usize,
                    include_snippet,
                ),
        ensures
            out@.len() == base.len() + k,
            !(all.1 && reaches_end(spans.len(), base.len(), max_results as nat)),
        decreases bytes@.len() + 1 - (if exhausted { (bytes@.len() + 1) as int } else { last_end as int }),
    {
        if exhausted || last_end > bytes.len() {
            proof {
                assert(spans =~= spans.take(seen as int));
            }
            break;
        }
        let found = pcre2_find_at(regex, bytes, last_end);
        match check_deadline(deadline, request_id) {
            Ok(()) => {},
            Err(e) => {
                return Err(e);
            },
        }
        let (start, end) = match found {
            Ok(Some(span)) => span,
            Ok(None) => {
                proof {
                    assert(spans =~= spans.take(seen as int));
                }
                break;
            },
            Err(msg) => {
                return Err(FastRegexError::Internal(msg));
            },
        };
        if !(last_end <= start && start <= end && end <= bytes.len()) {
            proof {
                assert(spans =~= spans.take(seen as int));
            }
            return Err(FastRegexError::Internal("match outside the subject".to_string()));
        }
        if start == end {
            let skip = match last_match {
                Some(m) => m == end,
                None => false,
            };
            if end < bytes.len() {
                last_end = end + 1;
            } else {
                exhausted = true;
            }
            if skip {
                continue;
            }
        } else {
            last_end = end;
        }
        last_match = Some(end);
        proof {
            let pos = if exhausted { (bytes@.len() + 1) as int } else { last_end as int };
            let rest = regex_spans(regex@, bytes@, pos, Some(end as int));
            assert(spans.take(seen as int) + (seq![(start as int, end as int)] + rest.0) =~= spans.take(
                seen as int + 1,
            ) + rest.0) by {
                assert(spans[seen as int] == (start as int, end as int));
            }
            assert(spans[seen as int] == (start as int, end as int));
        }
        let m = record_match(path, bytes, &line_starts, start, end, include_snippet);
        let ghost before = out@;
        out.push(m);
        proof {
            assert(out@.subrange(0, base.len() as int) =~= before.subrange(0, base.len() as int));
            assert forall|t: int| #![trigger out@[t]] base.len() <= t < out@.len() implies match_record_ok(
                out@[t],
                path@,
                bytes@,
                spans[t - base.len()].0 as usize,
                spans[t - base.len()].1 as usize,
                include_snippet,
            ) by {
                if t < before.len() {
                    assert(out@[t] == before[t]);
                }
            }
            seen = seen + 1;
        }
        if out.len() >= max_results {
            break;
        }
    }
    Ok(())
}

/// How many matches of `regex` there are in `bytes`, taken left to right as
/// the scans take them; a match that does not complete is an `Internal`
/// error.
pub fn count_matches(regex: &CompiledRegex, bytes: &[u8]) -> (r: Result<usize, FastRegexError>)
    ensures
        r matches Ok(n) ==> n == regex_spans(regex@, bytes@, 0, None).0.len() && !regex_spans(regex@, bytes@, 0, None).1,
        r matches Err(e) ==> e is Internal,
{
    let ghost all = regex_spans(regex@, bytes@, 0, None);
    let ghost spans = all.0;
    let mut last_end: usize = 0;
    let mut exhausted = false;
    let mut last_match: Option<usize> = None;
    let mut count: usize = 0;
    loop
        invariant_except_break
            !exhausted ==> last_end <= bytes@.len() + 1,
            ({
                let pos = if exhausted { (bytes@.len() + 1) as int } else { last_end as int };
                let rest = regex_spans(
                    regex@,
                    bytes@,
                    pos,
                    match last_match {
                        Some(m) => Some(m as int),
                        None => None,
                    },
                );
                &&& spans == spans.take(count as int) + rest.0
                &&& all.1 == rest.1
            }),
            count <= spans.len(),
        invariant
            bytes@.len() == bytes.len(),
            all == regex_spans(regex@, bytes@, 0, None),
            spans == all.0,
        ensures
            count == spans.len(),
            !all.1,
        decreases bytes@.len() + 1 - (if exhausted { (bytes@.len() + 1) as int } else { last_end as int }),
    {
        if exhausted || last_end > bytes.len() {
            proof {
                assert(spans =~= spans.take(count as int));
            }
            break;
        }
        let found = pcre2_find_at(regex, bytes, last_end);
        let (start, end) = match found {
            Ok(Some(span)) => span,
            Ok(None) => {
                proof {
                    assert(spans =~= spans.take(count as int));
                }
                break;
            },
            Err(msg) => {
                return Err(FastRegexError::Internal(msg));
            },
        };
        if !(last_end <= start && start <= end && end <= bytes.len()) {
            return Err(FastRegexError::Internal("match outside the subject".to_string()));
        }
        if start == end {
            let skip = match last_match {
                Some(m) => m == end,
                None => false,
            };
            if end < bytes.len() {
                last_end = end + 1;
            } else {
                exhausted = true;
            }
            if skip {
                continue;
            }
        } else {
            last_end = end;
        }
        last_match = Some(end);
        proof {
            let pos = if exhausted { (bytes@.len() + 1) as int } else { last_end as int };
            let rest = regex_spans(regex@, bytes@, pos, Some(end as int));
            assert(spans.take(count as int) + (seq![(start as int, end as int)] + rest.0) =~= spans.take(
                count as int + 1,
            ) + rest.0) by {
                assert(spans[count as int] == (start as int, end as int));
            }
        }
        count = match count.checked_add(1) {
            Some(c) => c,
            None => {
                return Err(FastRegexError::Internal("match count does not fit".to_string()));
            },
        };
    }
    Ok(count)
}

/// How many matches of `regex` a file with these bytes holds: none where the
/// bytes are not UTF-8 (such files are not searched), otherwise as
/// `count_matches`.
pub fn count_file_matches(regex: &CompiledRegex, bytes: &[u8]) -> (r: Result<usize, FastRegexError>)
    ensures
        !valid_utf8(bytes@) ==> r == Ok::<usize, FastRegexError>(0),
        valid_utf8(bytes@) ==> {
            &&& r matches Ok(n) ==> n == regex_spans(regex@, bytes@, 0, None).0.len() && !regex_spans(regex@, bytes@, 0, None).1
            &&& r matches Err(e) ==> e is Internal
        },
{
    if !is_valid_utf8(bytes) {
        return Ok(0);
    }
    count_matches(regex, bytes)
}

} // verus!
