use std::time::Instant;
use vstd::prelude::*;
use vstd::slice::slice_to_vec;
use vstd::utf8::encode_utf8;

use crate::error::FastRegexError;
use crate::filters::{spec_allows, PathFilter};
use crate::overlay::{distinct_paths, entries_map, EntryView, OverlayEntry, OverlaySnapshot};
use crate::search::{
    check_deadline, hits_from, match_record_ok, reaches_end, regex_spans, scan_candidate, scan_literal_candidate, taken,
    CompiledRegex, RegexSource, SearchMatch,
};

verus! {

/// How a candidate's text is checked: by a compiled regex, or for a literal.
pub enum TextMatcher<'a> {
    Pattern(&'a CompiledRegex),
    Literal(&'a [u8]),
}

/// A matcher as a value.
pub enum MatcherView {
    Pattern(RegexSource),
    Literal(Seq<u8>),
}

impl<'a> View for TextMatcher<'a> {
    type V = MatcherView;

    open spec fn view(&self) -> MatcherView {
        match self {
            TextMatcher::Pattern(re) => MatcherView::Pattern(re@),
            TextMatcher::Literal(lit) => MatcherView::Literal(lit@),
        }
    }
}

/// The spans that a matcher finds in `b`, left to right, when every
/// matching step completes, and whether a step reports a span outside the
/// text (a literal never does).
pub open spec fn matcher_spans(m: MatcherView, b: Seq<u8>) -> (Seq<(int, int)>, bool) {
    match m {
        MatcherView::Pattern(re) => regex_spans(re, b, 0, None),
        MatcherView::Literal(lit) => (hits_from(b, lit, 0).map_values(|p: int| (p, p + lit.len())), false),
    }
}

/// Where a scan of several texts stands: the records made, as (text,
/// start, end); how many texts it went through; whether it stopped at the
/// cap; whether a match was reported outside its text.
pub struct ScanState {
    pub records: Seq<(int, int, int)>,
    pub visited: nat,
    pub stopped: bool,
    pub failed: bool,
}

/// The scan of the first `n` texts with `have` records already held and at
/// most `max` wanted: each text in turn adds the spans its scan takes, until
/// the records reach `max` (a scan that starts at the cap takes nothing).
pub open spec fn scan_state(m: MatcherView, texts: Seq<Seq<u8>>, n: int, have: nat, max: nat) -> ScanState
    decreases n,
{
    if n <= 0 {
        ScanState { records: Seq::empty(), visited: 0, stopped: have >= max, failed: false }
    } else {
        let prev = scan_state(m, texts, n - 1, have, max);
        if prev.stopped || prev.failed {
            prev
        } else {
            let sp = matcher_spans(m, texts[n - 1]);
            let held = have + prev.records.len();
            let k = taken(sp.0.len(), held, max);
            ScanState {
                records: prev.records + Seq::new(k, |t: int| (n - 1, sp.0[t].0, sp.0[t].1)),
                visited: prev.visited + 1,
                stopped: held + k >= max,
                failed: sp.1 && reaches_end(sp.0.len(), held, max),
            }
        }
    }
}

/// The bytes of each text.
pub open spec fn texts_of(docs: Seq<(String, Vec<u8>)>) -> Seq<Seq<u8>> {
    docs.map_values(|d: (String, Vec<u8>)| d.1@)
}

/// Whether the records `out[from..]` are the first records of `recs`, each
/// the match record of its span in its text.
pub open spec fn records_follow(
    out: Seq<SearchMatch>,
    from: int,
    recs: Seq<(int, int, int)>,
    docs: Seq<(String, Vec<u8>)>,
    snippet: bool,
) -> bool {
    &&& from <= out.len()
    &&& out.len() - from <= recs.len()
    &&& forall|t: int|
        #![trigger out[t]]
        from <= t < out.len() ==> match_record_ok(
            out[t],
            docs[recs[t - from].0].0@,
            docs[recs[t - from].0].1@,
            recs[t - from].1 as usize,
            recs[t - from].2 as usize,
            snippet,
        )
}

proof fn lemma_scan_prefix(m: MatcherView, texts: Seq<Seq<u8>>, i: int, n: int, have: nat, max: nat)
    requires
        0 <= i <= n,
    ensures
        scan_state(m, texts, i, have, max).records.is_prefix_of(scan_state(m, texts, n, have, max).records),
        (scan_state(m, texts, i, have, max).stopped || scan_state(m, texts, i, have, max).failed) ==> scan_state(
            m,
            texts,
            n,
            have,
            max,
        ) == scan_state(m, texts, i, have, max),
        scan_state(m, texts, i, have, max).failed ==> scan_state(m, texts, n, have, max).failed,
    decreases n - i,
{
    if i < n {
        lemma_scan_prefix(m, texts, i, n - 1, have, max);
    }
}

/// A literal scan never fails.
proof fn lemma_literal_scan_never_fails(m: MatcherView, texts: Seq<Seq<u8>>, n: int, have: nat, max: nat)
    requires
        m is Literal,
    ensures
        !scan_state(m, texts, n, have, max).failed,
    decreases n,
{
    if n > 0 {
        lemma_literal_scan_never_fails(m, texts, n - 1, have, max);
    }
}

/// Scans one text with the matcher.
fn scan_one(
    m: &TextMatcher,
    path: &str,
    bytes: &[u8],
    out: &mut Vec<SearchMatch>,
    max_results: usize,
    deadline: &Option<(Instant, u64)>,
    request_id: &Option<String>,
    include_snippet: bool,
) -> (r: Result<(), FastRegexError>)
    ensures
        final(out)@.len() >= old(out)@.len(),
        final(out)@.subrange(0, old(out)@.len() as int) == old(out)@,
        ({
            let (spans, failed) = matcher_spans(m@, bytes@);
            let k = taken(spans.len(), old(out)@.len(), max_results as nat);
            &&& r is Ok ==> final(out)@.len() == old(out)@.len() + k && !(failed && reaches_end(
                spans.len(),
                old(out)@.len(),
                max_results as nat,
            ))
            &&& final(out)@.len() <= old(out)@.len() + k
            &&& forall|t: int|
                #![trigger final(out)@[t]]
                old(out)@.len() <= t < final(out)@.len() ==> match_record_ok(
                    final(out)@[t],
                    path@,
                    bytes@,
                    spans[t - old(out)@.len()].0 as usize,
                    spans[t - old(out)@.len()].1 as usize,
                    include_snippet,
                )
        }),
        r matches Err(e) ==> (e is Timeout && deadline is Some) || (e is Internal && m@ is Pattern),
        deadline is None && m@ is Literal ==> r is Ok,
{
    match m {
        TextMatcher::Pattern(re) => scan_candidate(re, path, bytes, out, max_results, deadline, request_id, include_snippet),
        TextMatcher::Literal(lit) => scan_literal_candidate(
            lit,
            path,
            bytes,
            out,
            max_results,
            deadline,
            request_id,
            include_snippet,
        ),
    }
}

/// Scans texts in order, as a search does its candidates: before each text
/// the deadline is checked; each text's matches are recorded; the scan stops
/// after the text that brings the records to `max_results` (it takes nothing
/// when they are there already). Gives how many texts it went through. A
/// regex match that does not complete ends the scan with an `Internal`
/// error; a timeout needs a deadline.
pub fn scan_texts(
    m: &TextMatcher,
    docs: &[(String, Vec<u8>)],
    out: &mut Vec<SearchMatch>,
    max_results: usize,
    deadline: &Option<(Instant, u64)>,
    request_id: &Option<String>,
    include_snippet: bool,
) -> (r: Result<usize, FastRegexError>)
    ensures
        final(out)@.subrange(0, old(out)@.len() as int) == old(out)@,
        ({
            let st = scan_state(m@, texts_of(docs@), docs@.len() as int, old(out)@.len(), max_results as nat);
            &&& records_follow(final(out)@, old(out)@.len() as int, st.records, docs@, include_snippet)
            &&& r matches Ok(v) ==> !st.failed && final(out)@.len() == old(out)@.len() + st.records.len()
                && v == st.visited
        }),
        r matches Err(e) ==> (e is Timeout && deadline is Some) || (e is Internal && m@ is Pattern),
        deadline is None && m@ is Literal ==> r is Ok,
{
    let ghost base = out@;
    let ghost texts = texts_of(docs@);
    let ghost n = docs@.len() as int;
    let ghost mv = m@;
    let ghost have = base.len();
    let ghost cap = max_results as nat;
    proof {
        lemma_scan_prefix(mv, texts, 0, n, have, cap);
        assert(out@.subrange(0, base.len() as int) =~= base);
        if mv is Literal {
            lemma_literal_scan_never_fails(mv, texts, n, have, cap);
        }
    }
    if out.len() >= max_results {
        return Ok(0);
    }
    let mut visited: usize = 0;
    for i in 0..docs.len()
        invariant
            base == old(out)@,
            texts == texts_of(docs@),
            n == docs@.len(),
            mv == m@,
            have == base.len(),
            cap == max_results,
            out@.subrange(0, base.len() as int) == base,
            !scan_state(mv, texts, i as int, have, cap).stopped,
            !scan_state(mv, texts, i as int, have, cap).failed,
            out@.len() == base.len() + scan_state(mv, texts, i as int, have, cap).records.len(),
            records_follow(out@, base.len() as int, scan_state(mv, texts, i as int, have, cap).records, docs@, include_snippet),
            visited == scan_state(mv, texts, i as int, have, cap).visited,
            visited == i,
    {
        let ghost prev = scan_state(mv, texts, i as int, have, cap);
        let ghost before = out@;
        proof {
            lemma_scan_prefix(mv, texts, i as int, n, have, cap);
        }
        match check_deadline(deadline, request_id) {
            Ok(()) => {},
            Err(e) => {
                proof {
                    let fin = scan_state(mv, texts, n, have, cap);
                    assert forall|t: int| #![trigger out@[t]] base.len() <= t < out@.len() implies match_record_ok(
                        out@[t],
                        docs@[fin.records[t - base.len()].0].0@,
                        docs@[fin.records[t - base.len()].0].1@,
                        fin.records[t - base.len()].1 as usize,
                        fin.records[t - base.len()].2 as usize,
                        include_snippet,
                    ) by {
                        assert(fin.records[t - base.len()] == prev.records[t - base.len()]);
                    }
                }
                return Err(e);
            },
        }
        let item = &docs[i];
        let res = scan_one(m, item.0.as_str(), item.1.as_slice(), out, max_results, deadline, request_id, include_snippet);
        let ghost next = scan_state(mv, texts, i + 1, have, cap);
        proof {
            assert(texts[i as int] == docs@[i as int].1@);
            let sp = matcher_spans(mv, texts[i as int]);
            let held = have + prev.records.len();
            assert(held == before.len());
            assert(out@.subrange(0, base.len() as int) =~= before.subrange(0, base.len() as int)) by {
                assert(out@.subrange(0, before.len() as int) == before);
            }
            assert forall|t: int| #![trigger out@[t]] base.len() <= t < out@.len() implies match_record_ok(
                out@[t],
                docs@[next.records[t - base.len()].0].0@,
                docs@[next.records[t - base.len()].0].1@,
                next.records[t - base.len()].1 as usize,
                next.records[t - base.len()].2 as usize,
                include_snippet,
            ) by {
                if t < before.len() {
                    assert(out@[t] == before[t]);
                    assert(next.records[t - base.len()] == prev.records[t - base.len()]);
                } else {
                    assert(next.records[t - base.len()] == (i as int, sp.0[t - before.len()].0, sp.0[t - before.len()].1));
                }
            }
            lemma_scan_prefix(mv, texts, i + 1, n, have, cap);
        }
        match res {
            Ok(()) => {},
            Err(e) => {
                proof {
                    let fin = scan_state(mv, texts, n, have, cap);
                    assert forall|t: int| #![trigger out@[t]] base.len() <= t < out@.len() implies match_record_ok(
                        out@[t],
                        docs@[fin.records[t - base.len()].0].0@,
                        docs@[fin.records[t - base.len()].0].1@,
                        fin.records[t - base.len()].1 as usize,
                        fin.records[t - base.len()].2 as usize,
                        include_snippet,
                    ) by {
                        assert(fin.records[t - base.len()] == next.records[t - base.len()]);
                    }
                }
                return Err(e);
            },
        }
        visited = visited + 1;
        if out.len() >= max_results {
            return Ok(visited);
        }
    }
    Ok(visited)
}


/// A list of paths with their bytes, as values.
pub open spec fn texts_view(docs: Seq<(String, Vec<u8>)>) -> Seq<(Seq<char>, Seq<u8>)> {
    docs.map_values(|d: (String, Vec<u8>)| (d.0@, d.1@))
}

/// The texts of `docs` whose path the filter lets through, in order.
pub open spec fn allowed_texts_of(docs: Seq<(Seq<char>, Seq<u8>)>, f: PathFilter) -> Seq<(Seq<char>, Seq<u8>)>
    decreases docs.len(),
{
    if docs.len() == 0 {
        Seq::empty()
    } else {
        let prev = allowed_texts_of(docs.drop_last(), f);
        if spec_allows(f.allow_patterns(), f.exclude_patterns(), docs.last().0) {
            prev.push(docs.last())
        } else {
            prev
        }
    }
}

/// The texts whose path the filter lets through, in order.
pub fn allowed_texts(docs: &[(String, Vec<u8>)], filter: &PathFilter) -> (kept: Vec<(String, Vec<u8>)>)
    ensures
        texts_view(kept@) == allowed_texts_of(texts_view(docs@), *filter),
{
    let ghost all = texts_view(docs@);
    let mut kept: Vec<(String, Vec<u8>)> = Vec::new();
    proof {
        assert(texts_view(kept@) =~= allowed_texts_of(all.take(0), *filter));
    }
    for i in 0..docs.len()
        invariant
            all == texts_view(docs@),
            texts_view(kept@) == allowed_texts_of(all.take(i as int), *filter),
    {
        proof {
            assert(all.take(i + 1).drop_last() =~= all.take(i as int));
            assert(all.take(i + 1).last() == all[i as int]);
        }
        let item = &docs[i];
        if filter.allows(item.0.as_str()) {
            let ghost prev = kept@;
            kept.push((item.0.clone(), slice_to_vec(item.1.as_slice())));
            proof {
                assert(texts_view(kept@) =~= texts_view(prev).push(all[i as int]));
            }
        }
    }
    proof {
        assert(all.take(all.len() as int) =~= all);
    }
    kept
}


/// The changed files among `paths` with their new text as bytes, in order
/// (deleted and unknown paths are left out).
pub open spec fn modified_texts(paths: Seq<Seq<char>>, files: Map<Seq<char>, EntryView>) -> Seq<(Seq<char>, Seq<u8>)>
    decreases paths.len(),
{
    if paths.len() == 0 {
        Seq::empty()
    } else {
        let prev = modified_texts(paths.drop_last(), files);
        let p = paths.last();
        if files.contains_key(p) && files[p] is Modified {
            prev.push((p, encode_utf8(files[p]->text)))
        } else {
            prev
        }
    }
}

/// The paths of a list of strings, as values.
pub open spec fn paths_view(paths: Seq<String>) -> Seq<Seq<char>> {
    paths.map_values(|p: String| p@)
}

/// The changed files among `paths` with their new text, in order, to be
/// scanned.
pub fn overlay_texts(paths: &[String], overlay: &OverlaySnapshot) -> (docs: Vec<(String, Vec<u8>)>)
    requires
        distinct_paths(overlay.files@),
    ensures
        texts_view(docs@) == modified_texts(paths_view(paths@), entries_map(overlay.files@)),
{
    let ghost ps = paths_view(paths@);
    let ghost files = entries_map(overlay.files@);
    let mut docs: Vec<(String, Vec<u8>)> = Vec::new();
    proof {
        assert(texts_view(docs@) =~= modified_texts(ps.take(0), files));
    }
    for i in 0..paths.len()
        invariant
            ps == paths_view(paths@),
            files == entries_map(overlay.files@),
            distinct_paths(overlay.files@),
            texts_view(docs@) == modified_texts(ps.take(i as int), files),
    {
        proof {
            assert(ps.take(i + 1).drop_last() =~= ps.take(i as int));
            assert(ps.take(i + 1).last() == paths@[i as int]@);
        }
        let ghost prev = docs@;
        match overlay.get(paths[i].as_str()) {
            Some(OverlayEntry::Modified(file)) => {
                docs.push((paths[i].clone(), slice_to_vec(file.text.as_str().as_bytes())));
                proof {
                    assert(texts_view(docs@) =~= texts_view(prev).push((paths@[i as int]@, encode_utf8(file.text@))));
                }
            },
            _ => {},
        }
    }
    proof {
        assert(ps.take(ps.len() as int) =~= ps);
    }
    docs
}

/// The records that merging the first `n` parts gives, holding `have`
/// records and wanting `max`: each part is appended whole, in order, and
/// the merge stops once the records reach `max` (the first part is always
/// taken).
pub open spec fn merged_parts(have: int, parts: Seq<Seq<SearchMatch>>, max: int, n: int) -> Seq<SearchMatch>
    decreases n,
{
    if n <= 0 {
        Seq::empty()
    } else {
        let prev = merged_parts(have, parts, max, n - 1);
        if n - 1 >= 1 && have + prev.len() >= max {
            prev
        } else {
            prev + parts[n - 1]
        }
    }
}

/// Appends the per-file parts of a parallel scan in order, as a search
/// merges them: whole parts, stopping once `out` holds `max_results`.
pub fn merge_parts(out: &mut Vec<SearchMatch>, parts: Vec<Vec<SearchMatch>>, max_results: usize)
    ensures
        final(out)@ == old(out)@ + merged_parts(
            old(out)@.len() as int,
            parts@.map_values(|p: Vec<SearchMatch>| p@),
            max_results as int,
            parts@.len() as int,
        ),
{
    let ghost ps = parts@.map_values(|p: Vec<SearchMatch>| p@);
    let ghost have = out@.len() as int;
    let ghost start = out@;
    let ghost n = parts@.len() as int;
    let mut first = true;
    assert(start + merged_parts(have, ps, max_results as int, 0) =~= start);
    for part in it: parts.into_iter()
        invariant
            ps.len() == n,
            it.seq().len() == n,
            forall|k: int| 0 <= k < n ==> (#[trigger] it.seq()[k])@ == ps[k],
            out@ == start + merged_parts(have, ps, max_results as int, it.index() as int),
            have == start.len(),
            first == (it.index() == 0),
    {
        let ghost k = it.index() as int;
        let ghost before = out@;
        let mut part = part;
        proof {
            assert(part@ == ps[k]);
        }
        if first || out.len() < max_results {
            out.append(&mut part);
            proof {
                assert(out@ =~= start + merged_parts(have, ps, max_results as int, k + 1));
            }
        } else {
            proof {
                assert(out@ =~= start + merged_parts(have, ps, max_results as int, k + 1));
            }
        }
        first = false;
    }
}

} // verus!
