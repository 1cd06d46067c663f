use std::collections::HashMap;
use vstd::prelude::*;
use vstd::slice::slice_to_vec;
use vstd::utf8::{decode_utf8, valid_utf8};

use crate::error::FastRegexError;
use crate::index::{extract_index_hashes, spec_index_hashes, BuildConfig, IndexSnapshot};
use crate::overlay::{EntryView, OverlayStore};
use crate::candidates::{index_sound, same_index};
use crate::filters::{compiles, nonempty, patterns_of, PathFilter};
use crate::overlay::OverlaySnapshot;
use crate::planner::{build_literal_plan, build_query_plan, plan_models, spec_literal_branches, spec_plan_branches, QueryPlan};
use crate::search::HashLogic;
use crate::selection::{query_base, select_candidates, selection_ok, selection_shape, CandidateQuery};
use crate::sparse::SparseConfig;
use crate::search::{default_case_sensitive, default_max_results, escape_literal_for_pcre2, spec_escape, ReturnMode, SearchMatch};
use crate::selection::CandidateSet;
use crate::text::{is_valid_utf8, str_eq, utf8_lossy};

verus! {

/// The options of a regex, literal or hot-cache search.
pub struct SearchOptions {
    pub allow: Vec<String>,
    pub exclude: Vec<String>,
    pub globs: Vec<String>,
    pub max_results: usize,
    pub case_sensitive: bool,
    pub dotall: bool,
    pub multiline: bool,
    pub no_snippet: bool,
    pub literal: bool,
    pub parallel: bool,
    pub return_mode: ReturnMode,
    pub timeout_ms: Option<u64>,
    pub request_id: Option<String>,
}

impl Default for SearchOptions {
    /// No filters, 200 results, case sensitive, matches with snippets.
    fn default() -> (o: Self)
        ensures
            o.allow@.len() == 0,
            o.exclude@.len() == 0,
            o.globs@.len() == 0,
            o.max_results == 200,
            o.case_sensitive,
            !o.dotall,
            !o.multiline,
            !o.no_snippet,
            !o.literal,
            !o.parallel,
            o.return_mode == ReturnMode::Matches,
            o.timeout_ms is None,
            o.request_id is None,
    {
        SearchOptions {
            allow: Vec::new(),
            exclude: Vec::new(),
            globs: Vec::new(),
            max_results: default_max_results(),
            case_sensitive: default_case_sensitive(),
            dotall: false,
            multiline: false,
            no_snippet: false,
            literal: false,
            parallel: false,
            return_mode: ReturnMode::Matches,
            timeout_ms: None,
            request_id: None,
        }
    }
}

/// The options of a search by gram hashes.
pub struct HashSearchOptions {
    pub allow: Vec<String>,
    pub exclude: Vec<String>,
    pub globs: Vec<String>,
    pub max_results: usize,
    pub case_sensitive: bool,
    pub no_snippet: bool,
    pub verify_literal: Option<String>,
    pub return_mode: ReturnMode,
    pub timeout_ms: Option<u64>,
    pub request_id: Option<String>,
}

impl Default for HashSearchOptions {
    /// No filters, 200 results, case sensitive, no literal to verify.
    fn default() -> (o: Self)
        ensures
            o.allow@.len() == 0,
            o.exclude@.len() == 0,
            o.globs@.len() == 0,
            o.max_results == 200,
            o.case_sensitive,
            !o.no_snippet,
            o.verify_literal is None,
            o.return_mode == ReturnMode::Matches,
            o.timeout_ms is None,
            o.request_id is None,
    {
        HashSearchOptions {
            allow: Vec::new(),
            exclude: Vec::new(),
            globs: Vec::new(),
            max_results: default_max_results(),
            case_sensitive: default_case_sensitive(),
            no_snippet: false,
            verify_literal: None,
            return_mode: ReturnMode::Matches,
            timeout_ms: None,
            request_id: None,
        }
    }
}

/// What a search answers.
pub struct SearchResponse {
    pub matches: Vec<SearchMatch>,
    pub candidate_count: usize,
    pub used_fallback: bool,
    pub extracted_literals: Vec<String>,
    pub base_generation: u64,
    pub overlay_generation: u64,
    pub candidate_doc_ids: Vec<u32>,
    pub candidate_paths: Vec<String>,
    pub return_mode: ReturnMode,
}

/// Whether a rebuild runs before the call returns or behind it.
#[derive(Debug, Clone, Copy, PartialEq, Eq, Structural)]
pub enum RebuildMode {
    Foreground,
    Background,
}

/// Where the index rebuild stands.
pub enum RebuildState {
    Idle,
    Running,
    Failed { message: String },
}

/// How the index stands against the workspace.
pub struct IndexStatus {
    pub base_commit: String,
    pub current_commit: String,
    pub repo_id: String,
    pub freshness: String,
    pub overlay_dirty_files: usize,
    pub rebuild_state: RebuildState,
    pub indexed_docs: usize,
    pub base_generation: u64,
}

/// What an overlay update did with the files it was given.
pub struct OverlayUpdateResult {
    pub updated: usize,
    pub deleted: usize,
    pub skipped: usize,
}

/// What a rebuild reports.
pub struct IndexRebuildResult {
    pub mode: RebuildMode,
    pub base_commit: String,
    pub doc_count: usize,
    pub posting_count: usize,
    pub rebuild_state: RebuildState,
}

// ---------------------------------------------------------------------------
// Requests
/// The cap on matches that a request asks for: its own, or 200 for 0.
pub fn effective_max_results(requested: usize) -> (n: usize)
    ensures
        n == if requested == 0 { 200 } else { requested },
{
    if requested == 0 {
        default_max_results()
    } else {
        requested
    }
}

/// Refuses an empty pattern.
pub fn require_pattern(pattern: &str) -> (r: Result<(), FastRegexError>)
    ensures
        r is Ok <==> pattern@.len() > 0,
        r matches Err(e) ==> e is InvalidRequest,
{
    if pattern.is_empty() {
        return Err(FastRegexError::InvalidRequest("pattern cannot be empty".to_string()));
    }
    Ok(())
}

/// The regex to compile for a pattern: the pattern itself, or, for a
/// literal search, the pattern with every regex metacharacter escaped.
pub fn regex_source(pattern: &str, literal: bool) -> (s: String)
    ensures
        s@ == if literal { spec_escape(pattern@) } else { pattern@ },
{
    if literal {
        escape_literal_for_pcre2(pattern)
    } else {
        pattern.to_string()
    }
}

/// A hash search can only return matches when it has a literal to verify.
pub fn check_hash_request(verify_literal: &Option<String>, mode: ReturnMode) -> (r: Result<(), FastRegexError>)
    ensures
        r is Ok <==> (verify_literal is Some || mode != ReturnMode::Matches),
        r matches Err(e) ==> e is InvalidRequest,
{
    if verify_literal.is_none() && mode == ReturnMode::Matches {
        return Err(FastRegexError::InvalidRequest("hash_search requires verify_literal for return_mode=matches".to_string()));
    }
    Ok(())
}

/// The answer of a search that returns candidates rather than matches.
pub fn candidate_response(
    c: CandidateSet,
    used_fallback: bool,
    extracted_literals: Vec<String>,
    base_generation: u64,
    overlay_generation: u64,
    mode: ReturnMode,
) -> (r: SearchResponse)
    ensures
        r.matches@.len() == 0,
        r.candidate_count == c.candidate_count,
        r.used_fallback == used_fallback,
        r.extracted_literals@ == extracted_literals@,
        r.base_generation == base_generation,
        r.overlay_generation == overlay_generation,
        r.candidate_doc_ids@ == c.candidate_doc_ids@,
        r.candidate_paths@ == c.candidate_paths@,
        r.return_mode == mode,
{
    SearchResponse {
        matches: Vec::new(),
        candidate_count: c.candidate_count,
        used_fallback,
        extracted_literals,
        base_generation,
        overlay_generation,
        candidate_doc_ids: c.candidate_doc_ids,
        candidate_paths: c.candidate_paths,
        return_mode: mode,
    }
}

/// The answer of a hash search that returns candidates without verifying
/// them: the candidates' count and ids, with the paths of the indexed
/// candidates only (the overlay's candidates are counted, not listed).
pub fn hash_candidate_response(
    c: CandidateSet,
    base_generation: u64,
    overlay_generation: u64,
    mode: ReturnMode,
) -> (r: SearchResponse)
    ensures
        r.matches@.len() == 0,
        r.candidate_count == c.candidate_count,
        !r.used_fallback,
        r.extracted_literals@.len() == 0,
        r.base_generation == base_generation,
        r.overlay_generation == overlay_generation,
        r.candidate_doc_ids@ == c.candidate_doc_ids@,
        r.candidate_paths@ == if c.base_ids@.len() <= c.candidate_paths@.len() {
            c.candidate_paths@.take(c.base_ids@.len() as int)
        } else {
            c.candidate_paths@
        },
        r.return_mode == mode,
{
    let mut c = c;
    let n = c.base_ids.len();
    c.candidate_paths.truncate(n);
    candidate_response(c, false, Vec::new(), base_generation, overlay_generation, mode)
}

// ---------------------------------------------------------------------------
// Status and rebuilds
/// The index is fresh when it was built at the current commit and the
/// overlay holds no change.
pub open spec fn spec_fresh(base_commit: Seq<char>, current_commit: Seq<char>, dirty: usize) -> bool {
    base_commit == current_commit && dirty == 0
}

/// "fresh" or "stale" (see `spec_fresh`).
pub fn freshness(base_commit: &str, current_commit: &str, overlay_dirty: usize) -> (s: String)
    ensures
        s@ == if spec_fresh(base_commit@, current_commit@, overlay_dirty) { "fresh"@ } else { "stale"@ },
{
    if str_eq(base_commit, current_commit) && overlay_dirty == 0 {
        "fresh".to_string()
    } else {
        "stale".to_string()
    }
}

/// The status of an index against the workspace's current commit.
pub fn index_status_of(
    index: &IndexSnapshot,
    current_commit: String,
    overlay_dirty_files: usize,
    rebuild_state: RebuildState,
    base_generation: u64,
) -> (s: IndexStatus)
    ensures
        s.base_commit@ == index.commit_view(),
        s.current_commit@ == current_commit@,
        s.repo_id@ == index.repo_view(),
        s.freshness@ == if spec_fresh(index.commit_view(), current_commit@, overlay_dirty_files) {
            "fresh"@
        } else {
            "stale"@
        },
        s.overlay_dirty_files == overlay_dirty_files,
        s.rebuild_state == rebuild_state,
        s.indexed_docs == index.docs_view().len(),
        s.base_generation == base_generation,
{
    let fresh = freshness(index.commit_ref().as_str(), current_commit.as_str(), overlay_dirty_files);
    IndexStatus {
        base_commit: index.commit_ref().clone(),
        current_commit,
        repo_id: index.repo_ref().clone(),
        freshness: fresh,
        overlay_dirty_files,
        rebuild_state,
        indexed_docs: index.doc_count(),
        base_generation,
    }
}

/// What to do with the index stored for a commit.
pub enum LoadDecision {
    /// Use the index that loaded.
    Use(IndexSnapshot),
    /// Build the index anew (it is missing, or does not decode).
    Rebuild,
    /// Give up with this error (it could not be read).
    Fail(FastRegexError),
}

/// Decides from the outcome of loading a commit's index (`None` where its
/// files are missing): a loaded index is used; a missing or corrupt one is
/// rebuilt; any other error stands.
pub fn decide_load(loaded: Option<Result<IndexSnapshot, FastRegexError>>) -> (d: LoadDecision)
    ensures
        match loaded {
            None => d is Rebuild,
            Some(Ok(s)) => d == LoadDecision::Use(s),
            Some(Err(e)) => if e is CorruptIndex {
                d is Rebuild
            } else {
                d == LoadDecision::Fail(e)
            },
        },
{
    match loaded {
        None => LoadDecision::Rebuild,
        Some(Ok(s)) => LoadDecision::Use(s),
        Some(Err(FastRegexError::CorruptIndex(_))) => LoadDecision::Rebuild,
        Some(Err(e)) => LoadDecision::Fail(e),
    }
}

/// Starts a rebuild: a background rebuild is refused while one runs; a
/// foreground rebuild always starts. The state becomes `Running` when it
/// starts and is left as it was otherwise.
pub fn begin_rebuild(state: &mut RebuildState, mode: RebuildMode) -> (r: Result<(), FastRegexError>)
    ensures
        r is Err <==> (mode == RebuildMode::Background && *old(state) is Running),
        r matches Err(e) ==> e is RebuildAlreadyRunning,
        r is Ok ==> *final(state) is Running,
        r is Err ==> *final(state) == *old(state),
{
    if mode == RebuildMode::Background {
        match state {
            RebuildState::Running => {
                return Err(FastRegexError::RebuildAlreadyRunning);
            },
            _ => {},
        }
    }
    *state = RebuildState::Running;
    Ok(())
}

/// The state a rebuild leaves: `Idle` when it succeeded, `Failed` with the
/// error's message otherwise.
pub fn finish_rebuild(failure: Option<String>) -> (s: RebuildState)
    ensures
        match failure {
            None => s is Idle,
            Some(m) => s matches RebuildState::Failed { message } && message@ == m@,
        },
{
    match failure {
        None => RebuildState::Idle,
        Some(message) => RebuildState::Failed { message },
    }
}

// ---------------------------------------------------------------------------
// Overlay updates
/// What was found at a changed path.
pub enum FileObservation {
    /// Nothing exists at the path.
    Missing,
    /// Something that is no regular file.
    NotAFile,
    /// A file that could not be read any more when it was read.
    Vanished,
    /// A file with these bytes.
    Bytes(Vec<u8>),
}

/// The overlay entry and counts after one changed path.
pub open spec fn spec_update(
    files: Map<Seq<char>, EntryView>,
    counts: (usize, usize, usize),
    path: Seq<char>,
    obs: FileObservation,
    freq: Map<u16, u32>,
    cfg: BuildConfig,
) -> (Map<Seq<char>, EntryView>, (usize, usize, usize)) {
    match obs {
        FileObservation::Missing => (files.insert(path, EntryView::Deleted), (counts.0, (counts.1 + 1) as usize, counts.2)),
        FileObservation::Bytes(b) => if valid_utf8(b@) {
            (
                files.insert(path, EntryView::Modified { text: decode_utf8(b@), hashes: spec_index_hashes(b@, freq, cfg) }),
                ((counts.0 + 1) as usize, counts.1, counts.2),
            )
        } else {
            (files, (counts.0, counts.1, (counts.2 + 1) as usize))
        },
        _ => (files, (counts.0, counts.1, (counts.2 + 1) as usize)),
    }
}

/// The overlay generation after one changed path: a deletion or an update
/// advances it (wrapping at the top); a skipped path leaves it.
pub open spec fn spec_update_generation(generation: u64, obs: FileObservation) -> u64 {
    if obs is Missing || (obs matches FileObservation::Bytes(b) && valid_utf8(b@)) {
        generation.wrapping_add(1)
    } else {
        generation
    }
}

/// The overlay entries, counts and generation after taking in each of
/// `items` (a path and what was found there) in turn, as `apply_file_update`
/// does one at a time.
pub open spec fn spec_updates(
    files: Map<Seq<char>, EntryView>,
    counts: (usize, usize, usize),
    generation: u64,
    items: Seq<(Seq<char>, FileObservation)>,
    freq: Map<u16, u32>,
    cfg: BuildConfig,
) -> (Map<Seq<char>, EntryView>, (usize, usize, usize), u64)
    decreases items.len(),
{
    if items.len() == 0 {
        (files, counts, generation)
    } else {
        let prev = spec_updates(files, counts, generation, items.drop_last(), freq, cfg);
        let (f, c) = spec_update(prev.0, prev.1, items.last().0, items.last().1, freq, cfg);
        (f, c, spec_update_generation(prev.2, items.last().1))
    }
}

/// Across a run of changed paths, every path is counted once, as updated,
/// deleted or skipped, and the overlay generation advances by exactly the
/// number of updated and deleted paths (wrapping at the top).
pub proof fn lemma_update_counts(
    files: Map<Seq<char>, EntryView>,
    counts: (usize, usize, usize),
    generation: u64,
    items: Seq<(Seq<char>, FileObservation)>,
    freq: Map<u16, u32>,
    cfg: BuildConfig,
)
    requires
        counts.0 + counts.1 + counts.2 + items.len() <= usize::MAX,
    ensures
        ({
            let r = spec_updates(files, counts, generation, items, freq, cfg);
            &&& r.1.0 + r.1.1 + r.1.2 == counts.0 + counts.1 + counts.2 + items.len()
            &&& r.1.0 >= counts.0 && r.1.1 >= counts.1 && r.1.2 >= counts.2
            &&& r.2 as int == (generation + (r.1.0 - counts.0) + (r.1.1 - counts.1)) % 0x1_0000_0000_0000_0000
        }),
    decreases items.len(),
{
    if items.len() > 0 {
        lemma_update_counts(files, counts, generation, items.drop_last(), freq, cfg);
        let prev = spec_updates(files, counts, generation, items.drop_last(), freq, cfg);
        let g = prev.2;
        assert(g.wrapping_add(1) as int == (g + 1) % 0x1_0000_0000_0000_0000) by {
            if g + 1 > u64::MAX {
                vstd::arithmetic::div_mod::lemma_fundamental_div_mod(g + 1, 0x1_0000_0000_0000_0000);
                vstd::arithmetic::div_mod::lemma_mod_self_0(0x1_0000_0000_0000_0000);
            } else {
                vstd::arithmetic::div_mod::lemma_small_mod((g + 1) as nat, 0x1_0000_0000_0000_0000);
            }
        }
        let d = (prev.1.0 - counts.0) + (prev.1.1 - counts.1);
        assert(((generation + d) % 0x1_0000_0000_0000_0000 + 1) % 0x1_0000_0000_0000_0000 == (generation + d + 1)
            % 0x1_0000_0000_0000_0000) by {
            vstd::arithmetic::div_mod::lemma_add_mod_noop(generation + d, 1, 0x1_0000_0000_0000_0000);
            vstd::arithmetic::div_mod::lemma_mod_twice(generation + d, 0x1_0000_0000_0000_0000);
            vstd::arithmetic::div_mod::lemma_small_mod(1, 0x1_0000_0000_0000_0000);
        }
    } else {
        assert(generation as int % 0x1_0000_0000_0000_0000 == generation) by {
            vstd::arithmetic::div_mod::lemma_small_mod(generation as nat, 0x1_0000_0000_0000_0000);
        }
    }
}

/// Takes one changed path into the overlay: a missing file is recorded as
/// deleted, a readable UTF-8 file as modified with its gram hashes; anything
/// else is skipped. The counts say which.
pub fn apply_file_update(
    store: &mut OverlayStore,
    counts: &mut OverlayUpdateResult,
    rel_path: String,
    obs: FileObservation,
    bigram_frequency: &HashMap<u16, u32>,
    config: &BuildConfig,
)
    requires
        old(store).wf(),
        old(counts).updated + old(counts).deleted + old(counts).skipped < usize::MAX,
    ensures
        final(store).wf(),
        ({
            let (files, c) = spec_update(
                old(store)@.files,
                (old(counts).updated, old(counts).deleted, old(counts).skipped),
                rel_path@,
                obs,
                bigram_frequency@,
                *config,
            );
            &&& final(store)@.files == files
            &&& (final(counts).updated, final(counts).deleted, final(counts).skipped) == c
        }),
        final(counts).updated + final(counts).deleted + final(counts).skipped == old(counts).updated + old(
            counts,
        ).deleted + old(counts).skipped + 1,
        final(store)@.generation == spec_update_generation(old(store)@.generation, obs),
{
    match obs {
        FileObservation::Missing => {
            store.upsert_deleted(rel_path);
            counts.deleted = counts.deleted + 1;
        },
        FileObservation::NotAFile => {
            counts.skipped = counts.skipped + 1;
        },
        FileObservation::Vanished => {
            counts.skipped = counts.skipped + 1;
        },
        FileObservation::Bytes(bytes) => {
            if !is_valid_utf8(bytes.as_slice()) {
                counts.skipped = counts.skipped + 1;
            } else {
                let text = utf8_lossy(bytes.as_slice());
                let hashes = extract_index_hashes(bytes.as_slice(), bigram_frequency, config);
                store.upsert_modified(rel_path, text, hashes);
                counts.updated = counts.updated + 1;
            }
        },
    }
}

/// The changed paths with what was found at each, as values.
pub open spec fn items_view(items: Seq<(String, FileObservation)>) -> Seq<(Seq<char>, FileObservation)> {
    items.map_values(|x: (String, FileObservation)| (x.0@, x.1))
}

/// Takes changed paths into the overlay in order, one at a time as
/// `apply_file_update` does, counting from zero: every path is counted once,
/// and the generation advances by the updated and deleted paths (wrapping at
/// the top).
pub fn apply_file_updates(
    store: &mut OverlayStore,
    items: Vec<(String, FileObservation)>,
    bigram_frequency: &HashMap<u16, u32>,
    config: &BuildConfig,
) -> (counts: OverlayUpdateResult)
    requires
        old(store).wf(),
    ensures
        final(store).wf(),
        ({
            let r = spec_updates(
                old(store)@.files,
                (0usize, 0usize, 0usize),
                old(store)@.generation,
                items_view(items@),
                bigram_frequency@,
                *config,
            );
            &&& final(store)@.files == r.0
            &&& (counts.updated, counts.deleted, counts.skipped) == r.1
            &&& final(store)@.generation == r.2
        }),
        counts.updated + counts.deleted + counts.skipped == items@.len(),
        final(store)@.generation as int == (old(store)@.generation + counts.updated + counts.deleted)
            % 0x1_0000_0000_0000_0000,
{
    let ghost all = items_view(items@);
    let _fits = items.len();  // the number of paths is a usize
    let ghost files0 = store@.files;
    let ghost g0 = store@.generation;
    let mut rest = items;
    let mut counts = OverlayUpdateResult { updated: 0, deleted: 0, skipped: 0 };
    let ghost mut k: int = 0;
    proof {
        assert(items_view(rest@) =~= all.skip(0));
    }
    while rest.len() > 0
        invariant
            store.wf(),
            0 <= k <= all.len(),
            items_view(rest@) == all.skip(k),
            (store@.files, (counts.updated, counts.deleted, counts.skipped), store@.generation) == spec_updates(
                files0,
                (0usize, 0usize, 0usize),
                g0,
                all.take(k),
                bigram_frequency@,
                *config,
            ),
            counts.updated + counts.deleted + counts.skipped == k,
            all.len() <= usize::MAX,
        decreases rest.len(),
    {
        let ghost before = rest@;
        let (path, obs) = rest.remove(0);
        proof {
            assert(all.skip(k).len() == before.len());
            assert(all.skip(k)[0] == all[k]);
            assert(items_view(before)[0] == (before[0].0@, before[0].1));
            assert(before[0] == (path, obs));
            assert(all[k] == (path@, obs));
            assert(rest@ =~= before.subrange(1, before.len() as int));
            assert forall|t: int| 0 <= t < items_view(rest@).len() implies items_view(rest@)[t] == all.skip(k + 1)[t] by {
                assert(items_view(rest@)[t] == items_view(before)[t + 1]);
                assert(all.skip(k)[t + 1] == all.skip(k + 1)[t]);
            }
            assert(items_view(rest@) =~= all.skip(k + 1));
            assert(all.take(k + 1).drop_last() =~= all.take(k));
            assert(all.take(k + 1).last() == all[k]);
        }
        apply_file_update(store, &mut counts, path, obs, bigram_frequency, config);
        proof {
            k = k + 1;
        }
    }
    proof {
        assert(all.take(k) =~= all);
        lemma_update_counts(files0, (0usize, 0usize, 0usize), g0, all, bigram_frequency@, *config);
    }
    counts
}


// ---------------------------------------------------------------------------
// Candidates of a search
/// Whether `f` is the filter of these allow, extra and exclude patterns.
pub open spec fn filter_of(f: PathFilter, allow: Seq<String>, globs: Seq<String>, exclude: Seq<String>) -> bool {
    &&& f.allow_patterns() == nonempty(patterns_of(allow + globs))
    &&& f.exclude_patterns() == nonempty(patterns_of(exclude))
}

/// Whether the filter patterns of a request compile.
pub open spec fn filters_compile(allow: Seq<String>, globs: Seq<String>, exclude: Seq<String>) -> bool {
    compiles(patterns_of(allow + globs)) && compiles(patterns_of(exclude))
}

/// The per-branch plan of a search for `pattern`, or `None` where every
/// document is a candidate: a caseless search keeps every document (the
/// index holds grams as they are written); a literal is planned from its own
/// bytes; a regex from the literals that its branches require.
pub open spec fn spec_search_branches(
    pattern: Seq<char>,
    literal: bool,
    case_sensitive: bool,
    freq: Map<u16, u32>,
    cfg: SparseConfig,
) -> Option<Seq<(Set<u64>, Seq<Seq<char>>)>> {
    if !case_sensitive {
        None
    } else if literal {
        spec_literal_branches(pattern, freq, cfg)
    } else {
        spec_plan_branches(pattern, freq, cfg)
    }
}

/// A pattern search's filter, candidate query (its plan), the literals the
/// plan was made from, whether the planner fell back on all documents, and
/// the candidates.
pub struct PlannedSearch {
    pub filter: PathFilter,
    pub query: CandidateQuery,
    pub extracted_literals: Vec<String>,
    pub used_fallback: bool,
    pub candidates: CandidateSet,
}

/// The filter, plan and candidates of a pattern search: the filter of the
/// options' globs, the plan of the pattern (with the index's bigram
/// frequencies: all documents for a caseless search, the literal's own
/// grams for a literal), and the candidates that the plan and the overlay
/// select.
pub fn plan_candidates(
    index: &mut IndexSnapshot,
    pattern: &str,
    options: &SearchOptions,
    sparse_cfg: SparseConfig,
    overlay: &OverlaySnapshot,
) -> (r: Result<PlannedSearch, FastRegexError>)
    requires
        old(index).wf(),
        old(index).docs_view().len() + overlay.files@.len() <= usize::MAX,
    ensures
        final(index).wf(),
        same_index(*final(index), *old(index)),
        index_sound(*old(index)) ==> index_sound(*final(index)),
        r matches Err(e) ==> (e is Glob <==> !filters_compile(options.allow@, options.globs@, options.exclude@)) && (
        e is Glob || e is CorruptIndex),
        (index_sound(*old(index)) && filters_compile(options.allow@, options.globs@, options.exclude@)) ==> r is Ok,
        r matches Ok(p) ==> {
            &&& filter_of(p.filter, options.allow@, options.globs@, options.exclude@)
            &&& p.query matches CandidateQuery::Plan(e) && plan_models(
                QueryPlan { expr: e, extracted_literals: p.extracted_literals, used_fallback: p.used_fallback },
                spec_search_branches(
                    pattern@,
                    options.literal,
                    options.case_sensitive,
                    old(index).bigram_view(),
                    sparse_cfg,
                ),
            )
            &&& selection_shape(old(index).docs_view(), *overlay, p.filter, p.query, p.candidates)
            &&& index_sound(*old(index)) ==> selection_ok(
                old(index).docs_view(),
                query_base(*old(index), p.query, p.filter),
                *overlay,
                p.filter,
                p.query,
                p.candidates,
            )
        },
{
    let filter = match PathFilter::new(options.allow.as_slice(), options.globs.as_slice(), options.exclude.as_slice()) {
        Ok(f) => f,
        Err(e) => {
            return Err(e);
        },
    };
    let plan = if !options.case_sensitive {
        QueryPlan::all_docs()
    } else if options.literal {
        build_literal_plan(pattern, index.bigram_ref(), sparse_cfg)
    } else {
        build_query_plan(pattern, index.bigram_ref(), sparse_cfg)
    };
    let QueryPlan { expr, extracted_literals, used_fallback } = plan;
    let query = CandidateQuery::Plan(expr);
    match select_candidates(index, &query, &filter, overlay) {
        Ok(candidates) => Ok(PlannedSearch { filter, query, extracted_literals, used_fallback, candidates }),
        Err(e) => Err(e),
    }
}

/// The filter, candidate query and candidates of a hash search: the filter
/// of the options' globs, and the candidates that the hashes under `logic`
/// and the overlay select.
pub fn hash_candidates(
    index: &mut IndexSnapshot,
    hashes: &[u64],
    logic: HashLogic,
    options: &HashSearchOptions,
    overlay: &OverlaySnapshot,
) -> (r: Result<(PathFilter, CandidateQuery, CandidateSet), FastRegexError>)
    requires
        old(index).wf(),
        old(index).docs_view().len() + overlay.files@.len() <= usize::MAX,
    ensures
        final(index).wf(),
        same_index(*final(index), *old(index)),
        index_sound(*old(index)) ==> index_sound(*final(index)),
        r matches Err(e) ==> (e is Glob <==> !filters_compile(options.allow@, options.globs@, options.exclude@)) && (
        e is Glob || e is CorruptIndex),
        (index_sound(*old(index)) && filters_compile(options.allow@, options.globs@, options.exclude@)) ==> r is Ok,
        r matches Ok((f, q, c)) ==> {
            &&& q matches CandidateQuery::Hashes { hashes: hv, logic: lg } && hv@ == hashes@ && lg == logic
            &&& filter_of(f, options.allow@, options.globs@, options.exclude@)
            &&& selection_shape(old(index).docs_view(), *overlay, f, q, c)
            &&& index_sound(*old(index)) ==> selection_ok(old(index).docs_view(), query_base(*old(index), q, f), *overlay, f, q, c)
        },
{
    let filter = match PathFilter::new(options.allow.as_slice(), options.globs.as_slice(), options.exclude.as_slice()) {
        Ok(f) => f,
        Err(e) => {
            return Err(e);
        },
    };
    let query = CandidateQuery::Hashes { hashes: slice_to_vec(hashes), logic };
    match select_candidates(index, &query, &filter, overlay) {
        Ok(c) => Ok((filter, query, c)),
        Err(e) => Err(e),
    }
}

} // verus!
