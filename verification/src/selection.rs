use std::collections::HashSet;
use vstd::prelude::*;

use crate::candidates::{
    base_candidates, base_candidates_hash, doc_allowed, index_sound, same_index, spec_base_candidates,
    spec_base_candidates_hash,
};
use crate::error::FastRegexError;
use crate::filters::{spec_allows, PathFilter};
use crate::index::{last_doc_with_path, DocumentMeta, IndexSnapshot};
use crate::overlay::{
    distinct_paths, entries_map, lemma_entries_map_dom, lemma_entries_map_get, EntryView, OverlayEntry, OverlaySnapshot,
};
use crate::planner::{spec_matches_hashes, PlanExpr};
use crate::search::{ids_increasing, overlay_hash_match, spec_overlay_hash_match, HashLogic};
use crate::text::{chars_less, chars_lt, chars_of, lemma_chars_lt_order, str_eq};

verus! {

/// What selects the candidates of a search: a query plan, or gram hashes
/// combined by `logic`.
pub enum CandidateQuery {
    Plan(PlanExpr),
    Hashes { hashes: Vec<u64>, logic: HashLogic },
}

/// The documents a search has to scan: indexed documents by id, rising,
/// then changed files by path, in order; and what a search that returns no
/// matches reports of them.
pub struct CandidateSet {
    pub base_ids: Vec<u32>,
    pub overlay_paths: Vec<String>,
    pub candidate_count: usize,
    pub candidate_doc_ids: Vec<u32>,
    pub candidate_paths: Vec<String>,
}

/// The documents of the index that the query selects, within the filter.
pub open spec fn query_base(s: IndexSnapshot, q: CandidateQuery, f: PathFilter) -> Set<u32> {
    match q {
        CandidateQuery::Plan(e) => spec_base_candidates(s, e, f),
        CandidateQuery::Hashes { hashes, logic } => spec_base_candidates_hash(s, hashes@, logic, f),
    }
}

/// Whether a changed file with gram hashes `hashes` can match the query.
pub open spec fn query_matches(q: CandidateQuery, hashes: Set<u64>) -> bool {
    match q {
        CandidateQuery::Plan(e) => spec_matches_hashes(e, hashes),
        CandidateQuery::Hashes { hashes: hs, logic } => spec_overlay_hash_match(hashes, hs@, logic),
    }
}

/// The ids of the indexed documents whose path the overlay holds: the
/// overlay's version replaces them.
pub open spec fn shadowed(docs: Seq<DocumentMeta>, files: Seq<(String, OverlayEntry)>) -> Set<u32> {
    Set::new(
        |d: u32|
            exists|i: int|
                0 <= i < files.len() && (#[trigger] last_doc_with_path(docs, files[i].0@) matches Some(k) && docs[k].doc_id
                    == d),
    )
}

/// Whether the changed file at position `i` is a candidate: within the
/// filter, not deleted, and its hashes can match the query.
pub open spec fn overlay_hit(files: Seq<(String, OverlayEntry)>, f: PathFilter, q: CandidateQuery, i: int) -> bool {
    &&& spec_allows(f.allow_patterns(), f.exclude_patterns(), files[i].0@)
    &&& files[i].1@ matches EntryView::Modified { hashes, .. } && query_matches(q, hashes)
}

/// The paths of the changed files that are candidates.
pub open spec fn overlay_hits(files: Seq<(String, OverlayEntry)>, f: PathFilter, q: CandidateQuery) -> Set<Seq<char>> {
    Set::new(|p: Seq<char>| exists|i: int| 0 <= i < files.len() && #[trigger] files[i].0@ == p && overlay_hit(files, f, q, i))
}

/// The paths that a sequence of strings holds.
pub open spec fn path_set(ps: Seq<String>) -> Set<Seq<char>> {
    Set::new(|p: Seq<char>| exists|i: int| 0 <= i < ps.len() && #[trigger] ps[i]@ == p)
}

/// Whether the paths rise strictly (so none occurs twice).
pub open spec fn paths_increasing(ps: Seq<String>) -> bool {
    forall|i: int, j: int| 0 <= i < j < ps.len() ==> chars_lt(#[trigger] ps[i]@, #[trigger] ps[j]@)
}

/// What a selection is, given the index's candidates `base`: the ids of
/// `base` that the overlay does not replace, rising; the overlay's
/// candidate paths, rising; and, for a search that returns no matches, the
/// count of both, the ids and paths of the documents, then the paths of the
/// changed files.
pub open spec fn selection_ok(docs: Seq<DocumentMeta>, base: Set<u32>, overlay: OverlaySnapshot, f: PathFilter, q: CandidateQuery, c: CandidateSet) -> bool {
    let files = overlay.files@;
    &&& ids_increasing(c.base_ids@)
    &&& c.base_ids@.to_set() == base.difference(shadowed(docs, files))
    &&& paths_increasing(c.overlay_paths@)
    &&& path_set(c.overlay_paths@) == overlay_hits(files, f, q)
    &&& c.candidate_count == c.base_ids@.len() + c.overlay_paths@.len()
    &&& c.candidate_doc_ids@ == c.base_ids@.map_values(|id: u32| docs[id as int].doc_id)
    &&& c.candidate_paths@.len() == c.base_ids@.len() + c.overlay_paths@.len()
    &&& forall|k: int| 0 <= k < c.base_ids@.len() ==> #[trigger] c.candidate_paths@[k]@ == docs[c.base_ids@[k] as int].path@
    &&& forall|k: int| 0 <= k < c.overlay_paths@.len() ==> #[trigger] c.candidate_paths@[c.base_ids@.len() + k]@ == c.overlay_paths@[k]@
}

/// What holds of every selection: the ids rise, and each is a document the
/// filter lets through that the overlay does not replace; the overlay's
/// candidate paths are as in `selection_ok`; and the counts, ids and paths
/// reported follow from the two lists.
pub open spec fn selection_shape(docs: Seq<DocumentMeta>, overlay: OverlaySnapshot, f: PathFilter, q: CandidateQuery, c: CandidateSet) -> bool {
    let files = overlay.files@;
    &&& ids_increasing(c.base_ids@)
    &&& forall|k: int|
        0 <= k < c.base_ids@.len() ==> doc_allowed(docs, f, #[trigger] c.base_ids@[k]) && !shadowed(docs, files).contains(
            c.base_ids@[k],
        )
    &&& paths_increasing(c.overlay_paths@)
    &&& path_set(c.overlay_paths@) == overlay_hits(files, f, q)
    &&& c.candidate_count == c.base_ids@.len() + c.overlay_paths@.len()
    &&& c.candidate_doc_ids@ == c.base_ids@.map_values(|id: u32| docs[id as int].doc_id)
    &&& c.candidate_paths@.len() == c.base_ids@.len() + c.overlay_paths@.len()
    &&& forall|k: int| 0 <= k < c.base_ids@.len() ==> #[trigger] c.candidate_paths@[k]@ == docs[c.base_ids@[k] as int].path@
    &&& forall|k: int| 0 <= k < c.overlay_paths@.len() ==> #[trigger] c.candidate_paths@[c.base_ids@.len() + k]@ == c.overlay_paths@[k]@
}

/// The ids below `n` that `base` holds and `removed` does not, rising.
fn kept_ids(base: &HashSet<u32>, removed: &HashSet<u32>, n: usize) -> (ids: Vec<u32>)
    requires
        forall|x: u32| #[trigger] base@.contains(x) ==> (x as int) < n,
    ensures
        ids_increasing(ids@),
        ids@.to_set() == base@.difference(removed@),
        ids@.len() <= n,
        forall|k: int| 0 <= k < ids@.len() ==> (#[trigger] ids@[k] as int) < n,
{
    let mut ids: Vec<u32> = Vec::new();
    for i in 0..n
        invariant
            forall|x: u32| #[trigger] base@.contains(x) ==> (x as int) < n,
            ids_increasing(ids@),
            ids@.len() <= i,
            forall|k: int| 0 <= k < ids@.len() ==> (#[trigger] ids@[k] as int) < i,
            ids@.to_set() == Set::new(|x: u32| base@.contains(x) && !removed@.contains(x) && (x as int) < i),
    {
        let ghost before = ids@;
        if i <= u32::MAX as usize {
            let id = i as u32;
            if base.contains(&id) && !removed.contains(&id) {
                ids.push(id);
                proof {
                    before.lemma_push_to_set_commute(id);
                }
            }
        }
        proof {
            assert(ids@.to_set() =~= Set::new(|x: u32| base@.contains(x) && !removed@.contains(x) && (x as int) < i + 1));
        }
    }
    assert(ids@.to_set() =~= base@.difference(removed@));
    ids
}

/// Inserts `p` into the rising paths unless it is there already.
fn insert_path(paths: &mut Vec<String>, p: &String)
    requires
        paths_increasing(old(paths)@),
    ensures
        paths_increasing(final(paths)@),
        path_set(final(paths)@) == path_set(old(paths)@).insert(p@),
        final(paths)@.len() <= old(paths)@.len() + 1,
{
    let key = chars_of(p.as_str());
    let mut k: usize = 0;
    while k < paths.len()
        invariant
            k <= paths@.len(),
            key@ == p@,
            paths_increasing(paths@),
            forall|j: int| 0 <= j < k ==> chars_lt(#[trigger] paths@[j]@, p@),
        ensures
            k <= paths@.len(),
            forall|j: int| 0 <= j < k ==> chars_lt(#[trigger] paths@[j]@, p@),
            k < paths@.len() ==> !chars_lt(paths@[k as int]@, p@),
        decreases paths.len() - k,
    {
        let other = chars_of(paths[k].as_str());
        if !chars_less(other.as_slice(), key.as_slice()) {
            break;
        }
        k = k + 1;
    }
    if k < paths.len() && str_eq(paths[k].as_str(), p.as_str()) {
        assert(path_set(paths@) =~= path_set(paths@).insert(p@)) by {
            assert(paths@[k as int]@ == p@);
        }
        return;
    }
    let ghost before = paths@;
    proof {
        if k < before.len() {
            lemma_chars_lt_order(before[k as int]@, p@, p@);
        }
    }
    paths.insert(k, p.clone());
    proof {
        assert forall|i: int, j: int| 0 <= i < j < paths@.len() implies chars_lt(#[trigger] paths@[i]@, #[trigger] paths@[j]@) by {
            if j == k as int {
                assert(chars_lt(before[i]@, p@));
            } else if i == k as int {
                if j - 1 > k as int {
                    lemma_chars_lt_order(p@, before[k as int]@, before[j - 1]@);
                }
            } else if i < k as int && j > k as int {
                assert(chars_lt(before[i]@, before[j - 1]@));
            }
        }
        assert forall|q: Seq<char>| #[trigger] path_set(paths@).contains(q) <==> path_set(before).insert(p@).contains(q) by {
            if path_set(paths@).contains(q) {
                let i = choose|i: int| 0 <= i < paths@.len() && #[trigger] paths@[i]@ == q;
                if i < k as int {
                    assert(before[i]@ == q);
                } else if i > k as int {
                    assert(before[i - 1]@ == q);
                }
            }
            if path_set(before).contains(q) {
                let i = choose|i: int| 0 <= i < before.len() && #[trigger] before[i]@ == q;
                if i < k as int {
                    assert(paths@[i]@ == q);
                } else {
                    assert(paths@[i + 1]@ == q);
                }
            }
            if q == p@ {
                assert(paths@[k as int]@ == q);
            }
        }
        assert(path_set(paths@) =~= path_set(before).insert(p@));
    }
}


/// Whether the changed file at position `i` can match the query.
fn file_hit(query: &CandidateQuery, entry: &OverlayEntry) -> (r: bool)
    ensures
        r == (entry@ matches EntryView::Modified { hashes, .. } && query_matches(*query, hashes)),
{
    match entry {
        OverlayEntry::Deleted => false,
        OverlayEntry::Modified(file) => match query {
            CandidateQuery::Plan(expr) => expr.admits(&file.gram_hashes),
            CandidateQuery::Hashes { hashes, logic } => overlay_hash_match(&file.gram_hashes, hashes.as_slice(), *logic),
        },
    }
}

/// Merges the index's candidates `base` with the overlay: drops the ids
/// whose path the overlay holds, collects the overlay's candidate paths, and
/// orders both.
fn merge_overlay(
    index: &IndexSnapshot,
    base: &HashSet<u32>,
    query: &CandidateQuery,
    filter: &PathFilter,
    overlay: &OverlaySnapshot,
) -> (c: CandidateSet)
    requires
        index.wf(),
        forall|x: u32| #[trigger] base@.contains(x) ==> doc_allowed(index.docs_view(), *filter, x),
        index.docs_view().len() + overlay.files@.len() <= usize::MAX,
    ensures
        selection_ok(index.docs_view(), base@, *overlay, *filter, *query, c),
{
    let ghost docs = index.docs_view();
    let ghost files = overlay.files@;
    let mut removed: HashSet<u32> = HashSet::new();
    let mut paths: Vec<String> = Vec::new();
    for i in 0..overlay.files.len()
        invariant
            index.wf(),
            docs == index.docs_view(),
            files == overlay.files@,
            removed@ == Set::new(
                |d: u32|
                    exists|j: int|
                        0 <= j < i && (#[trigger] last_doc_with_path(docs, files[j].0@) matches Some(k) && docs[k].doc_id
                            == d),
            ),
            paths_increasing(paths@),
            path_set(paths@) == Set::new(|p: Seq<char>| exists|j: int| 0 <= j < i && #[trigger] files[j].0@ == p && overlay_hit(files, *filter, *query, j)),
            paths@.len() <= i,
    {
        let item = &overlay.files[i];
        let ghost removed_before = removed@;
        let ghost paths_before = path_set(paths@);
        match index.doc_id_for_path(item.0.as_str()) {
            Some(doc_id) => {
                removed.insert(doc_id);
            },
            None => {},
        }
        if filter.allows(item.0.as_str()) && file_hit(query, &item.1) {
            insert_path(&mut paths, &item.0);
        }
        proof {
            assert(removed@ =~= Set::new(
                |d: u32|
                    exists|j: int|
                        0 <= j < i + 1 && (#[trigger] last_doc_with_path(docs, files[j].0@) matches Some(k) && docs[k].doc_id
                            == d),
            )) by {
                assert forall|d: u32| (exists|j: int|
                        0 <= j < i + 1 && (#[trigger] last_doc_with_path(docs, files[j].0@) matches Some(k) && docs[k].doc_id
                            == d)) implies removed@.contains(d) by {
                    let j = choose|j: int|
                        0 <= j < i + 1 && (#[trigger] last_doc_with_path(docs, files[j].0@) matches Some(k) && docs[k].doc_id
                            == d);
                    if j < i {
                        assert(removed_before.contains(d));
                    }
                }
            }
            assert(path_set(paths@) =~= Set::new(|p: Seq<char>| exists|j: int| 0 <= j < i + 1 && #[trigger] files[j].0@ == p && overlay_hit(files, *filter, *query, j))) by {
                assert forall|p: Seq<char>| (exists|j: int| 0 <= j < i + 1 && #[trigger] files[j].0@ == p && overlay_hit(files, *filter, *query, j)) implies path_set(paths@).contains(p) by {
                    let j = choose|j: int| 0 <= j < i + 1 && #[trigger] files[j].0@ == p && overlay_hit(files, *filter, *query, j);
                    if j < i {
                        assert(paths_before.contains(p));
                    }
                }
            }
        }
    }
    assert(removed@ =~= shadowed(docs, files));
    assert(path_set(paths@) =~= overlay_hits(files, *filter, *query));
    let n = index.doc_count();
    let ids = kept_ids(base, &removed, n);
    let mut doc_ids: Vec<u32> = Vec::new();
    let mut all_paths: Vec<String> = Vec::new();
    for k in 0..ids.len()
        invariant
            docs == index.docs_view(),
            n == docs.len(),
            forall|t: int| 0 <= t < ids@.len() ==> (#[trigger] ids@[t] as int) < n,
            doc_ids@ == ids@.take(k as int).map_values(|id: u32| docs[id as int].doc_id),
            all_paths@.len() == k,
            forall|t: int| 0 <= t < k ==> #[trigger] all_paths@[t]@ == docs[ids@[t] as int].path@,
    {
        match index.doc_by_id(ids[k]) {
            Some(doc) => {
                doc_ids.push(doc.doc_id);
                all_paths.push(doc.path.clone());
            },
            None => {},
        }
        assert(doc_ids@ =~= ids@.take(k + 1).map_values(|id: u32| docs[id as int].doc_id));
    }
    assert(ids@.take(ids@.len() as int) =~= ids@);
    let base_len = ids.len();
    for k in 0..paths.len()
        invariant
            base_len == ids@.len(),
            all_paths@.len() == base_len + k,
            forall|t: int| 0 <= t < ids@.len() ==> (#[trigger] ids@[t] as int) < docs.len(),
            forall|t: int| 0 <= t < base_len ==> #[trigger] all_paths@[t]@ == docs[ids@[t] as int].path@,
            forall|t: int| 0 <= t < k ==> #[trigger] all_paths@[base_len + t]@ == paths@[t]@,
    {
        all_paths.push(paths[k].clone());
        assert(all_paths@[base_len + k as int]@ == paths@[k as int]@);
    }
    let count = ids.len() + paths.len();
    CandidateSet { base_ids: ids, overlay_paths: paths, candidate_count: count, candidate_doc_ids: doc_ids, candidate_paths: all_paths }
}

/// Selects the candidates of a search: the documents of the index that the
/// query selects within the filter, less those the overlay replaces, and the
/// overlay's changed files within the filter whose hashes can match.
pub fn select_candidates(
    index: &mut IndexSnapshot,
    query: &CandidateQuery,
    filter: &PathFilter,
    overlay: &OverlaySnapshot,
) -> (r: Result<CandidateSet, FastRegexError>)
    requires
        old(index).wf(),
        old(index).docs_view().len() + overlay.files@.len() <= usize::MAX,
    ensures
        final(index).wf(),
        same_index(*final(index), *old(index)),
        index_sound(*old(index)) ==> index_sound(*final(index)),
        index_sound(*old(index)) ==> (r matches Ok(c) && selection_ok(
            old(index).docs_view(),
            query_base(*old(index), *query, *filter),
            *overlay,
            *filter,
            *query,
            c,
        )),
        r matches Ok(c) ==> selection_shape(old(index).docs_view(), *overlay, *filter, *query, c),
        r matches Err(e) ==> e is CorruptIndex,
{
    let base = match query {
        CandidateQuery::Plan(expr) => base_candidates(index, expr, filter),
        CandidateQuery::Hashes { hashes, logic } => base_candidates_hash(index, hashes.as_slice(), *logic, filter),
    };
    match base {
        Ok(set) => {
            let c = merge_overlay(index, &set, query, filter, overlay);
            proof {
                let docs = old(index).docs_view();
                assert forall|k: int| 0 <= k < c.base_ids@.len() implies doc_allowed(docs, *filter, #[trigger] c.base_ids@[k])
                    && !shadowed(docs, overlay.files@).contains(c.base_ids@[k]) by {
                    assert(c.base_ids@.to_set().contains(c.base_ids@[k]));
                    assert(set@.contains(c.base_ids@[k]));
                }
            }
            Ok(c)
        },
        Err(e) => Err(e),
    }
}


/// The entry holds new text whose gram hashes can match the query.
pub open spec fn new_text_matches(e: EntryView, q: CandidateQuery) -> bool {
    e matches EntryView::Modified { hashes, .. } && query_matches(q, hashes)
}

/// Read your own writes: once the overlay holds a path, the index's document
/// with that path is no longer a candidate, and the path is an overlay
/// candidate exactly when the filter lets it through and it holds new text
/// whose gram hashes can match the query (a deleted path never is).
pub proof fn lemma_overlay_replaces(
    docs: Seq<DocumentMeta>,
    base: Set<u32>,
    overlay: OverlaySnapshot,
    f: PathFilter,
    q: CandidateQuery,
    c: CandidateSet,
    path: Seq<char>,
)
    requires
        selection_ok(docs, base, overlay, f, q, c),
        distinct_paths(overlay.files@),
        entries_map(overlay.files@).contains_key(path),
    ensures
        last_doc_with_path(docs, path) matches Some(i) ==> !c.base_ids@.contains(docs[i].doc_id),
        path_set(c.overlay_paths@).contains(path) <==> (spec_allows(f.allow_patterns(), f.exclude_patterns(), path)
            && new_text_matches(entries_map(overlay.files@)[path], q)),
{
    let files = overlay.files@;
    lemma_entries_map_dom(files);
    let i = choose|i: int| 0 <= i < files.len() && #[trigger] files[i].0@ == path;
    lemma_entries_map_get(files, i);
    if let Some(k) = last_doc_with_path(docs, path) {
        assert(shadowed(docs, files).contains(docs[k].doc_id));
        assert(!c.base_ids@.to_set().contains(docs[k].doc_id));
    }
    if path_set(c.overlay_paths@).contains(path) {
        assert(overlay_hits(files, f, q).contains(path));
        let j = choose|j: int| 0 <= j < files.len() && #[trigger] files[j].0@ == path && overlay_hit(files, f, q, j);
        if j != i {
            if j < i {
                assert(files[j].0@ != files[i].0@);
            } else {
                assert(files[i].0@ != files[j].0@);
            }
        }
    }
    if spec_allows(f.allow_patterns(), f.exclude_patterns(), path) && new_text_matches(entries_map(files)[path], q) {
        assert(overlay_hit(files, f, q, i));
        assert(overlay_hits(files, f, q).contains(path));
    }
}

} // verus!
