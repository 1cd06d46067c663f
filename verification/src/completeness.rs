use vstd::prelude::*;

use crate::builder::{
    bucket_upto, build_result, built_records, doc_hash_set, hashes_upto, kept_files, lemma_build_loads, records_fit,
    BuiltIndex, SourceFile,
};
use crate::candidates::{
    index_posting, index_sound, lemma_posting_result, spec_base_candidates, spec_base_candidates_hash, spec_intersection,
    spec_union, sound_list,
};
use crate::filters::{spec_allows, PathFilter};
use crate::hashing::spec_xxh3_64;
use crate::index::{
    add_gram_hashes, spec_index_hashes, trigram_hash_seq, docs_decoded_from, entry_names, entry_offset, hash_listed, listed_posting, lookup_entry_at, parse_docs,
    parse_posting, u32_at, u64_at, BuildConfig, IndexSnapshot,
};
use crate::planner::{
    all_in, lemma_branch_plan_windows, lemma_literal_plan_windows, lemma_plan_fold_items, spec_branch_fold,
    spec_literal_branches, literals_windows, plan_models, sorted_elements,
    spec_branch_plan, spec_matches_hashes, spec_plan_branches, spec_plan_fold, spec_split, window_hashes, PlanExpr,
    QueryPlan,
};
use crate::search::occurs_at;
use crate::engine::spec_search_branches;
use crate::sparse::SparseConfig;
use crate::builder::{doc_source, file_text, files_frequency};
use vstd::utf8::encode_utf8;
use crate::search::{ids_increasing, spec_overlay_hash_match, HashLogic};

verus! {

/// Whether `s` is what loading the two files of `out` gives (what
/// `IndexSnapshot::from_bytes` states of its result).
pub open spec fn loaded_from(s: IndexSnapshot, out: BuiltIndex) -> bool {
    let p = out.postings@;
    let l = out.lookup@;
    &&& s.wf()
    &&& s.postings() == p
    &&& s.lookup() == l
    &&& s.entry_count() == u32_at(l, 20)
    &&& parse_docs(p, u64_at(p, 20) as int, u64_at(p, 28) as int, u32_at(p, 44) as nat) matches Some(recs)
        && docs_decoded_from(s.docs_view(), recs)
}

/// Whether a build of `files` fits the index format (what `build_index`
/// checks before it succeeds).
pub open spec fn build_fits(files: Seq<SourceFile>, repo: Seq<u8>, commit: Seq<u8>, out: BuiltIndex) -> bool {
    &&& repo.len() <= 64
    &&& commit.len() <= 64
    &&& records_fit(built_records(files))
    &&& kept_files(files).len() <= u32::MAX
    &&& out.entries@.len() <= u32::MAX
}

proof fn lemma_bucket_sound(files: Seq<SourceFile>, cfg: BuildConfig, h: u64, m: int)
    requires
        0 <= m <= u32::MAX + 1,
    ensures
        sound_list(bucket_upto(files, cfg, h, m), m as nat),
        forall|k: int| 0 <= k < m ==> (bucket_upto(files, cfg, h, m).contains(k as u32) <==> #[trigger] doc_hash_set(files, cfg, k).contains(h)),
    decreases m,
{
    if m > 0 {
        lemma_bucket_sound(files, cfg, h, m - 1);
        let pre = bucket_upto(files, cfg, h, m - 1);
        let b = bucket_upto(files, cfg, h, m);
        assert forall|k: int| 0 <= k < m implies (b.contains(k as u32) <==> #[trigger] doc_hash_set(files, cfg, k).contains(h)) by {
            if b.contains(k as u32) && k < m - 1 {
                let t = choose|t: int| 0 <= t < b.len() && b[t] == k as u32;
                if t < pre.len() {
                    assert(pre[t] == k as u32);
                } else {
                    assert(b[t] == (m - 1) as u32);
                }
            }
            if doc_hash_set(files, cfg, k).contains(h) {
                if k < m - 1 {
                    let t = choose|t: int| 0 <= t < pre.len() && pre[t] == k as u32;
                    assert(b[t] == k as u32);
                } else {
                    assert(b[b.len() - 1] == k as u32);
                }
            }
            if b.contains(k as u32) && k == m - 1 && !doc_hash_set(files, cfg, k).contains(h) {
                let t = choose|t: int| 0 <= t < b.len() && b[t] == k as u32;
                assert(pre[t] < (m - 1) as nat);
            }
        }
    }
}

proof fn lemma_hashes_upto(files: Seq<SourceFile>, cfg: BuildConfig, m: int, k: int, h: u64)
    requires
        0 <= k < m,
        doc_hash_set(files, cfg, k).contains(h),
    ensures
        hashes_upto(files, cfg, m).contains(h),
    decreases m,
{
    if k < m - 1 {
        lemma_hashes_upto(files, cfg, m - 1, k, h);
    }
}

/// A loaded build can be searched as built (`index_sound`), and the posting
/// list of every hash that document `k` holds has `k` in it.
proof fn lemma_loaded_postings(
    files: Seq<SourceFile>,
    cfg: BuildConfig,
    repo: Seq<u8>,
    commit: Seq<u8>,
    out: BuiltIndex,
    s: IndexSnapshot,
)
    requires
        build_result(files, cfg, repo, commit, out),
        build_fits(files, repo, commit, out),
        loaded_from(s, out),
    ensures
        index_sound(s),
        s.docs_view().len() == kept_files(files).len(),
        forall|k: int| 0 <= k < s.docs_view().len() ==> #[trigger] s.docs_view()[k].doc_id == k as u32,
        forall|k: int, h: u64|
            0 <= k < s.docs_view().len() && #[trigger] doc_hash_set(files, cfg, k).contains(h) ==> #[trigger] index_posting(
                s,
                h,
            ).contains(k as u32),
{
    lemma_build_loads(files, cfg, repo, commit, out);
    let p = out.postings@;
    let l = out.lookup@;
    let recs = built_records(files);
    let n = recs.len() as int;
    let count = u32_at(l, 20) as nat;
    assert(s.docs_view().len() == n);
    assert forall|k: int| 0 <= k < s.docs_view().len() implies #[trigger] s.docs_view()[k].doc_id == k as u32 by {
        assert(crate::index::doc_decoded_from(s.docs_view()[k], recs[k]));
    }
    assert forall|i: int|
        #![trigger lookup_entry_at(s.lookup(), i)]
        0 <= i < s.entry_count() implies (parse_posting(s.postings(), entry_offset(s.lookup(), i) as int) matches Some(d)
            && sound_list(d, s.docs_view().len())) by {
        let h = crate::index::entry_hash(l, i);
        assert(entry_names(l, i, h));
        assert(hash_listed(l, count, h));
        assert(hashes_upto(files, cfg, n).contains(h));
        let b = bucket_upto(files, cfg, h, n);
        assert(listed_posting(p, l, count, h, b));
        let i2 = choose|i2: int|
            #![trigger lookup_entry_at(l, i2)]
            0 <= i2 < count && entry_names(l, i2, h) && parse_posting(p, entry_offset(l, i2) as int) == Some(b);
        if i2 != i {
            if i2 < i {
                assert(crate::index::entry_hash(l, i2) < crate::index::entry_hash(l, i));
            } else {
                assert(crate::index::entry_hash(l, i) < crate::index::entry_hash(l, i2));
            }
        }
        lemma_bucket_sound(files, cfg, h, n);
    }
    assert(index_sound(s));
    assert forall|k: int, h: u64|
        0 <= k < s.docs_view().len() && #[trigger] doc_hash_set(files, cfg, k).contains(h) implies #[trigger] index_posting(
            s,
            h,
        ).contains(k as u32) by {
        lemma_hashes_upto(files, cfg, n, k, h);
        let b = bucket_upto(files, cfg, h, n);
        assert(listed_posting(p, l, count, h, b));
        lemma_posting_result(s, h, Some(b));
        lemma_bucket_sound(files, cfg, h, n);
    }
}

/// What a built index answers for a hash, once loaded: the posting list of
/// `h` is exactly the ids of the documents whose gram hashes hold `h`, in
/// increasing order (empty where none does), and the index can be searched.
pub proof fn lemma_built_postings(
    files: Seq<SourceFile>,
    cfg: BuildConfig,
    repo: Seq<u8>,
    commit: Seq<u8>,
    out: BuiltIndex,
    s: IndexSnapshot,
    h: u64,
)
    requires
        build_result(files, cfg, repo, commit, out),
        build_fits(files, repo, commit, out),
        loaded_from(s, out),
    ensures
        index_sound(s),
        index_posting(s, h) == bucket_upto(files, cfg, h, s.docs_view().len() as int),
        ids_increasing(index_posting(s, h)),
        forall|k: int|
            0 <= k < s.docs_view().len() ==> (index_posting(s, h).contains(k as u32) <==> #[trigger] doc_hash_set(
                files,
                cfg,
                k,
            ).contains(h)),
{
    lemma_loaded_postings(files, cfg, repo, commit, out, s);
    lemma_build_loads(files, cfg, repo, commit, out);
    let p = out.postings@;
    let l = out.lookup@;
    let n = built_records(files).len() as int;
    let count = u32_at(l, 20) as nat;
    let b = bucket_upto(files, cfg, h, n);
    assert(s.docs_view().len() == n);
    lemma_bucket_sound(files, cfg, h, n);
    if hashes_upto(files, cfg, n).contains(h) {
        assert(listed_posting(p, l, count, h, b));
        lemma_posting_result(s, h, Some(b));
    } else {
        if hash_listed(l, count, h) {
            let i = choose|i: int| #![trigger lookup_entry_at(l, i)] 0 <= i < count && entry_names(l, i, h);
            assert(hashes_upto(files, cfg, n).contains(crate::index::entry_hash(l, i)));
        }
        lemma_posting_result(s, h, None);
        if b.len() > 0 {
            assert(b.contains(b[0]));
            assert((b[0] as int) < n);
            lemma_hashes_upto(files, cfg, n, b[0] as int, h);
        }
        assert(b =~= Seq::<u32>::empty());
    }
}

/// Document `k` is in the intersection of every set of hashes that it holds.
proof fn lemma_in_intersection(
    files: Seq<SourceFile>,
    cfg: BuildConfig,
    s: IndexSnapshot,
    hs: Seq<u64>,
    k: int,
)
    requires
        0 <= k < s.docs_view().len(),
        hs.len() > 0,
        all_in(hs, doc_hash_set(files, cfg, k)),
        forall|k: int, h: u64|
            0 <= k < s.docs_view().len() && #[trigger] doc_hash_set(files, cfg, k).contains(h) ==> #[trigger] index_posting(
                s,
                h,
            ).contains(k as u32),
    ensures
        spec_intersection(s, hs).contains(k as u32),
{
    assert forall|j: int| 0 <= j < hs.len() implies #[trigger] index_posting(s, hs[j]).contains(k as u32) by {
        assert(doc_hash_set(files, cfg, k).contains(hs[j]));
    }
}

/// No false negatives in a built index: a document whose gram hashes the
/// plan asks for (for some branch, under `Or`), and whose path the filter
/// lets through, is a candidate of the plan. Under `Or`, every branch asks
/// for at least one hash (as every plan that `build_query_plan` makes).
pub proof fn lemma_plan_candidates_complete(
    files: Seq<SourceFile>,
    cfg: BuildConfig,
    repo: Seq<u8>,
    commit: Seq<u8>,
    out: BuiltIndex,
    s: IndexSnapshot,
    expr: PlanExpr,
    f: PathFilter,
    k: int,
)
    requires
        build_result(files, cfg, repo, commit, out),
        build_fits(files, repo, commit, out),
        loaded_from(s, out),
        0 <= k < kept_files(files).len(),
        spec_allows(f.allow_patterns(), f.exclude_patterns(), s.docs_view()[k].path@),
        spec_matches_hashes(expr, doc_hash_set(files, cfg, k)),
        expr matches PlanExpr::Or(bs) ==> forall|b: int| 0 <= b < bs@.len() ==> #[trigger] bs@[b]@.len() > 0,
    ensures
        index_sound(s),
        spec_base_candidates(s, expr, f).contains(k as u32),
{
    lemma_loaded_postings(files, cfg, repo, commit, out, s);
    let docs = s.docs_view();
    let x = k as u32;
    assert(docs[k].doc_id == x);
    assert(crate::candidates::doc_allowed(docs, f, x));
    assert(crate::candidates::all_allowed(docs, f).contains(x));
    match expr {
        PlanExpr::AllDocs => {},
        PlanExpr::And(hs) => {
            if hs@.len() > 0 {
                lemma_in_intersection(files, cfg, s, hs@, k);
                let found = crate::candidates::allowed_part(docs, f, spec_intersection(s, hs@));
                assert(found.contains(x));
            }
        },
        PlanExpr::Or(bs) => {
            let b = choose|b: int| 0 <= b < bs@.len() && #[trigger] all_in(bs@[b]@, doc_hash_set(files, cfg, k));
            assert(bs@[b]@.len() > 0);
            lemma_in_intersection(files, cfg, s, bs@[b]@, k);
            let found = crate::candidates::spec_branch_union(s, bs@);
            assert(found.contains(x));
            assert(crate::candidates::allowed_part(docs, f, found).contains(x));
        },
    }
}

/// No false negatives in a built index, for a hash search: a document whose
/// gram hashes match the hashes under `logic`, and whose path the filter
/// lets through, is a candidate.
pub proof fn lemma_hash_candidates_complete(
    files: Seq<SourceFile>,
    cfg: BuildConfig,
    repo: Seq<u8>,
    commit: Seq<u8>,
    out: BuiltIndex,
    s: IndexSnapshot,
    hashes: Seq<u64>,
    logic: HashLogic,
    f: PathFilter,
    k: int,
)
    requires
        build_result(files, cfg, repo, commit, out),
        build_fits(files, repo, commit, out),
        loaded_from(s, out),
        0 <= k < kept_files(files).len(),
        spec_allows(f.allow_patterns(), f.exclude_patterns(), s.docs_view()[k].path@),
        spec_overlay_hash_match(doc_hash_set(files, cfg, k), hashes, logic),
    ensures
        index_sound(s),
        spec_base_candidates_hash(s, hashes, logic, f).contains(k as u32),
{
    lemma_loaded_postings(files, cfg, repo, commit, out, s);
    let docs = s.docs_view();
    let x = k as u32;
    assert(docs[k].doc_id == x);
    assert(crate::candidates::doc_allowed(docs, f, x));
    match logic {
        HashLogic::And => {
            if hashes.len() > 0 {
                lemma_in_intersection(files, cfg, s, hashes, k);
            } else {
                assert(crate::candidates::doc_ids(docs).contains(x));
            }
        },
        HashLogic::Or => {
            let j = choose|j: int| 0 <= j < hashes.len() && doc_hash_set(files, cfg, k).contains(#[trigger] hashes[j]);
            assert(index_posting(s, hashes[j]).contains(x));
            assert(spec_union(s, hashes).contains(x));
        },
    }
}


proof fn lemma_add_gram_hashes_grows(acc: Set<u64>, grams: Seq<Seq<u8>>, cap: nat, h: u64)
    requires
        acc.contains(h),
    ensures
        add_gram_hashes(acc, grams, cap).contains(h),
    decreases grams.len(),
{
    if grams.len() > 0 {
        let next = acc.insert(spec_xxh3_64(grams[0]));
        if next.len() < cap {
            lemma_add_gram_hashes_grows(next, grams.drop_first(), cap, h);
        }
    }
}

/// Every trigram of a text is indexed: where `lit` occurs in `text` at
/// `pos`, the hash of each trigram of `lit` is among the text's gram hashes.
pub proof fn lemma_literal_trigrams_indexed(text: Seq<u8>, lit: Seq<u8>, pos: int, freq: Map<u16, u32>, cfg: BuildConfig)
    requires
        0 <= pos,
        pos + lit.len() <= text.len(),
        text.subrange(pos, pos + lit.len()) == lit,
    ensures
        forall|i: int|
            0 <= i && i + 3 <= lit.len() ==> #[trigger] spec_index_hashes(text, freq, cfg).contains(
                spec_xxh3_64(lit.subrange(i, i + 3)),
            ),
{
    assert forall|i: int| 0 <= i && i + 3 <= lit.len() implies #[trigger] spec_index_hashes(text, freq, cfg).contains(
        spec_xxh3_64(lit.subrange(i, i + 3)),
    ) by {
        let tri = trigram_hash_seq(text);
        assert(text.subrange(pos + i, pos + i + 3) =~= lit.subrange(i, i + 3));
        assert(tri[pos + i] == spec_xxh3_64(lit.subrange(i, i + 3)));
        assert(tri.to_set().contains(tri[pos + i]));
        lemma_add_gram_hashes_grows(
            tri.to_set(),
            crate::sparse::grams_bytes(text, crate::sparse::spec_sparse_grams(text, freq, crate::index::spec_sparse_config(cfg))),
            cfg.max_grams_per_file as nat,
            tri[pos + i],
        );
    }
}


/// A text holds every literal of `lits`.
pub open spec fn holds_literals(text: Seq<u8>, lits: Seq<Seq<char>>) -> bool {
    forall|j: int| 0 <= j < lits.len() ==> #[trigger] occurs_in(text, encode_utf8(lits[j]))
}

/// `lit` occurs somewhere in `text`.
pub open spec fn occurs_in(text: Seq<u8>, lit: Seq<u8>) -> bool {
    exists|pos: int| #[trigger] occurs_at(text, lit, pos)
}

/// Whether a text holds, for some branch of the pattern's plan, every literal
/// that the planner kept for it (any text, where the planner falls back on
/// all documents).
pub open spec fn holds_some_branch(pattern: Seq<char>, freq: Map<u16, u32>, cfg: SparseConfig, text: Seq<u8>) -> bool {
    match spec_plan_branches(pattern, freq, cfg) {
        None => true,
        Some(bs) => exists|b: int| 0 <= b < bs.len() && #[trigger] holds_literals(text, bs[b].1),
    }
}

/// No false negatives for literals: a text that holds, for some branch of the
/// pattern, every literal that the planner kept has gram hashes that satisfy
/// the plan, whatever bigram frequencies and limits the text was indexed with.
pub proof fn lemma_text_satisfies_plan(
    pattern: Seq<char>,
    freq: Map<u16, u32>,
    cfg: SparseConfig,
    plan: QueryPlan,
    text: Seq<u8>,
    ifreq: Map<u16, u32>,
    icfg: BuildConfig,
)
    requires
        plan_models(plan, spec_plan_branches(pattern, freq, cfg)),
        text.len() <= usize::MAX,
        holds_some_branch(pattern, freq, cfg, text),
    ensures
        spec_matches_hashes(plan.expr, spec_index_hashes(text, ifreq, icfg)),
{
    let hs = spec_index_hashes(text, ifreq, icfg);
    match spec_plan_branches(pattern, freq, cfg) {
        None => {},
        Some(bs) => {
            let b = choose|b: int| 0 <= b < bs.len() && #[trigger] holds_literals(text, bs[b].1);
            let splits = spec_split(pattern);
            lemma_plan_fold_items(splits, freq, cfg, splits.len() as int);
            assert(spec_branch_plan(splits[b], freq, cfg) == Some(bs[b]));
            let lits = bs[b].1;
            assert forall|j: int| 0 <= j < lits.len() implies encode_utf8(#[trigger] lits[j]).len() <= usize::MAX by {
                assert(occurs_in(text, encode_utf8(lits[j])));
                let pos = choose|pos: int| #[trigger] occurs_at(text, encode_utf8(lits[j]), pos);
            }
            lemma_branch_plan_windows(splits[b], freq, cfg, bs[b]);
            assert forall|h: u64| #[trigger] bs[b].0.contains(h) implies hs.contains(h) by {
                assert(literals_windows(lits).contains(h));
                let j = choose|j: int| 0 <= j < lits.len() && #[trigger] window_hashes(encode_utf8(lits[j])).contains(h);
                let lit = encode_utf8(lits[j]);
                let st = choose|st: int| 0 <= st && st + 3 <= lit.len() && #[trigger] spec_xxh3_64(lit.subrange(st, st + 3)) == h;
                assert(occurs_in(text, lit));
                let pos = choose|pos: int| #[trigger] occurs_at(text, lit, pos);
                lemma_literal_trigrams_indexed(text, lit, pos, ifreq, icfg);
                assert(hs.contains(spec_xxh3_64(lit.subrange(st, st + 3))));
            }
            if bs.len() == 1 {
                if let PlanExpr::And(h) = plan.expr {
                    assert forall|i: int| 0 <= i < h@.len() implies hs.contains(#[trigger] h@[i]) by {
                        assert(h@.to_set().contains(h@[i]));
                    }
                }
            } else {
                if let PlanExpr::Or(v) = plan.expr {
                    assert(sorted_elements(v@[b]@, bs[b].0));
                    assert forall|i: int| 0 <= i < v@[b]@.len() implies hs.contains(#[trigger] v@[b]@[i]) by {
                        assert(v@[b]@.to_set().contains(v@[b]@[i]));
                    }
                    assert(all_in(v@[b]@, hs));
                }
            }
        },
    }
}

/// Every branch of a plan that the planner builds asks for some hash.
pub proof fn lemma_plan_branches_nonempty(pattern: Seq<char>, freq: Map<u16, u32>, cfg: SparseConfig, plan: QueryPlan)
    requires
        plan_models(plan, spec_plan_branches(pattern, freq, cfg)),
    ensures
        plan.expr matches PlanExpr::Or(bs) ==> forall|b: int| 0 <= b < bs@.len() ==> #[trigger] bs@[b]@.len() > 0,
{
    if let Some(bs) = spec_plan_branches(pattern, freq, cfg) {
        if let PlanExpr::Or(v) = plan.expr {
            let splits = spec_split(pattern);
            lemma_plan_fold_items(splits, freq, cfg, splits.len() as int);
            assert forall|b: int| 0 <= b < v@.len() implies #[trigger] v@[b]@.len() > 0 by {
                assert(spec_branch_plan(splits[b], freq, cfg) == Some(bs[b]));
                assert(sorted_elements(v@[b]@, bs[b].0));
                if v@[b]@.len() == 0 {
                    assert(v@[b]@.to_set() =~= Set::<u64>::empty());
                }
            }
        }
    }
}

/// No false negatives, end to end: in a loaded build, a document within the
/// filter is a candidate of the plan that a regex search makes for a pattern
/// (with the index's bigram frequencies) when its text holds, for some
/// branch, every literal that the planner kept, when it was recorded
/// without being indexed, or when the search is caseless.
pub proof fn lemma_documents_with_literals_are_candidates(
    files: Seq<SourceFile>,
    cfg: BuildConfig,
    repo: Seq<u8>,
    commit: Seq<u8>,
    out: BuiltIndex,
    s: IndexSnapshot,
    pattern: Seq<char>,
    case_sensitive: bool,
    plan: QueryPlan,
    f: PathFilter,
    k: int,
)
    requires
        build_result(files, cfg, repo, commit, out),
        build_fits(files, repo, commit, out),
        loaded_from(s, out),
        plan_models(
            plan,
            spec_search_branches(pattern, false, case_sensitive, s.bigram_view(), crate::index::spec_sparse_config(cfg)),
        ),
        0 <= k < kept_files(files).len(),
        spec_allows(f.allow_patterns(), f.exclude_patterns(), s.docs_view()[k].path@),
        file_text(doc_source(files, k)).len() <= usize::MAX,
        !case_sensitive || !(doc_source(files, k).content is Indexed) || holds_some_branch(
            pattern,
            s.bigram_view(),
            crate::index::spec_sparse_config(cfg),
            file_text(doc_source(files, k)),
        ),
    ensures
        spec_base_candidates(s, plan.expr, f).contains(k as u32),
{
    if !case_sensitive {
        lemma_plan_candidates_complete(files, cfg, repo, commit, out, s, plan.expr, f, k);
    } else if doc_source(files, k).content is Indexed {
        lemma_plan_branches_nonempty(pattern, s.bigram_view(), crate::index::spec_sparse_config(cfg), plan);
        lemma_text_satisfies_plan(
            pattern,
            s.bigram_view(),
            crate::index::spec_sparse_config(cfg),
            plan,
            file_text(doc_source(files, k)),
            files_frequency(files),
            cfg,
        );
        lemma_plan_candidates_complete(files, cfg, repo, commit, out, s, plan.expr, f, k);
    } else {
        lemma_unindexed_candidates(files, cfg, repo, commit, out, s, plan.expr, f, k);
    }
}

/// A document recorded without being indexed (too large to index), within
/// the filter, is a candidate of every plan.
pub proof fn lemma_unindexed_candidates(
    files: Seq<SourceFile>,
    cfg: BuildConfig,
    repo: Seq<u8>,
    commit: Seq<u8>,
    out: BuiltIndex,
    s: IndexSnapshot,
    expr: PlanExpr,
    f: PathFilter,
    k: int,
)
    requires
        build_result(files, cfg, repo, commit, out),
        build_fits(files, repo, commit, out),
        loaded_from(s, out),
        0 <= k < kept_files(files).len(),
        spec_allows(f.allow_patterns(), f.exclude_patterns(), s.docs_view()[k].path@),
        !(doc_source(files, k).content is Indexed),
    ensures
        spec_base_candidates(s, expr, f).contains(k as u32),
{
    lemma_loaded_postings(files, cfg, repo, commit, out, s);
    lemma_build_loads(files, cfg, repo, commit, out);
    let p = out.postings@;
    let recs = built_records(files);
    let docs = s.docs_view();
    let x = k as u32;
    assert(crate::index::doc_decoded_from(docs[k], recs[k]));
    assert(!docs[k].indexed);
    assert(docs[k].doc_id == x);
    assert(crate::candidates::doc_allowed(docs, f, x));
    assert(crate::candidates::all_allowed(docs, f).contains(x));
    assert(crate::candidates::unindexed_allowed(docs, f).contains(x));
}

/// No false negatives for a literal: a text that holds the literal has gram
/// hashes that satisfy the literal's plan, whatever bigram frequencies and
/// limits the text was indexed with.
pub proof fn lemma_text_satisfies_literal_plan(
    lit: Seq<char>,
    freq: Map<u16, u32>,
    cfg: SparseConfig,
    plan: QueryPlan,
    text: Seq<u8>,
    ifreq: Map<u16, u32>,
    icfg: BuildConfig,
)
    requires
        plan_models(plan, spec_literal_branches(lit, freq, cfg)),
        text.len() <= usize::MAX,
        occurs_in(text, encode_utf8(lit)),
    ensures
        spec_matches_hashes(plan.expr, spec_index_hashes(text, ifreq, icfg)),
{
    let hs = spec_index_hashes(text, ifreq, icfg);
    if let Some(bs) = spec_literal_branches(lit, freq, cfg) {
        let b = encode_utf8(lit);
        let pos = choose|pos: int| #[trigger] occurs_at(text, b, pos);
        lemma_literal_plan_windows(lit, freq, cfg);
        lemma_literal_trigrams_indexed(text, b, pos, ifreq, icfg);
        let r = spec_branch_fold(seq![lit], freq, cfg, 1);
        assert(bs[0] == r);
        if let PlanExpr::And(h) = plan.expr {
            assert forall|i: int| 0 <= i < h@.len() implies hs.contains(#[trigger] h@[i]) by {
                assert(h@.to_set().contains(h@[i]));
                let x = h@[i];
                assert(r.0.contains(x));
                assert(window_hashes(b).contains(x));
                let st = choose|st: int| 0 <= st && st + 3 <= b.len() && #[trigger] spec_xxh3_64(b.subrange(st, st + 3)) == x;
                assert(hs.contains(spec_xxh3_64(b.subrange(st, st + 3))));
            }
        }
    }
}

/// No false negatives for a literal search, end to end: in a loaded build, a
/// document within the filter is a candidate of the plan that a search for
/// the literal makes (with the index's bigram frequencies) when its text
/// holds the literal, when it was recorded without being indexed, or when the
/// search is caseless.
pub proof fn lemma_literal_occurrences_are_candidates(
    files: Seq<SourceFile>,
    cfg: BuildConfig,
    repo: Seq<u8>,
    commit: Seq<u8>,
    out: BuiltIndex,
    s: IndexSnapshot,
    lit: Seq<char>,
    case_sensitive: bool,
    plan: QueryPlan,
    f: PathFilter,
    k: int,
)
    requires
        build_result(files, cfg, repo, commit, out),
        build_fits(files, repo, commit, out),
        loaded_from(s, out),
        plan_models(
            plan,
            spec_search_branches(lit, true, case_sensitive, s.bigram_view(), crate::index::spec_sparse_config(cfg)),
        ),
        0 <= k < kept_files(files).len(),
        spec_allows(f.allow_patterns(), f.exclude_patterns(), s.docs_view()[k].path@),
        file_text(doc_source(files, k)).len() <= usize::MAX,
        !case_sensitive || !(doc_source(files, k).content is Indexed) || occurs_in(
            file_text(doc_source(files, k)),
            encode_utf8(lit),
        ),
    ensures
        spec_base_candidates(s, plan.expr, f).contains(k as u32),
{
    let scfg = crate::index::spec_sparse_config(cfg);
    if !case_sensitive {
        lemma_plan_candidates_complete(files, cfg, repo, commit, out, s, plan.expr, f, k);
    } else if doc_source(files, k).content is Indexed {
        lemma_text_satisfies_literal_plan(
            lit,
            s.bigram_view(),
            scfg,
            plan,
            file_text(doc_source(files, k)),
            files_frequency(files),
            cfg,
        );
        lemma_plan_candidates_complete(files, cfg, repo, commit, out, s, plan.expr, f, k);
    } else {
        lemma_unindexed_candidates(files, cfg, repo, commit, out, s, plan.expr, f, k);
    }
}

} // verus!
