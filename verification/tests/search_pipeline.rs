use fastregex::builder::{build_index, classify_utf8, SourceFile};
use fastregex::engine::{
    apply_file_update, begin_rebuild, finish_rebuild, FileObservation, OverlayUpdateResult, RebuildMode, RebuildState,
};
use fastregex::error::FastRegexError;
use fastregex::filters::PathFilter;
use fastregex::index::{BuildConfig, IndexSnapshot};
use fastregex::overlay::{OverlayEntry, OverlayStore};
use fastregex::planner::build_query_plan;
use fastregex::search::{scan_candidate, scan_literal_candidate, CompiledRegex, HashLogic};
use fastregex::selection::{select_candidates, CandidateQuery};

fn source(path: &str, text: &str) -> SourceFile {
    SourceFile {
        rel_path: path.to_string(),
        size: text.len() as u64,
        mtime_secs: 0,
        content: classify_utf8(Some(text.as_bytes().to_vec()), 4 * 1024 * 1024),
    }
}

fn load(files: &[SourceFile]) -> IndexSnapshot {
    let built = build_index(files, "repo", "commit", &BuildConfig::default()).unwrap();
    IndexSnapshot::from_bytes(built.postings, built.lookup).unwrap()
}

fn no_filter() -> PathFilter {
    let empty: Vec<String> = Vec::new();
    PathFilter::new(&empty, &empty, &empty).unwrap()
}

fn text_of<'a>(texts: &[(&str, &'a str)], path: &str) -> &'a str {
    texts.iter().find(|(p, _)| *p == path).map(|(_, t)| *t).unwrap()
}

/// Runs a regex search the way the server does: plan, candidates, then the
/// final match on each candidate.
fn run_search(
    index: &mut IndexSnapshot,
    texts: &[(&str, &str)],
    store: &OverlayStore,
    pattern: &str,
) -> Vec<(String, usize, usize)> {
    let cfg = BuildConfig::default();
    let plan = build_query_plan(pattern, index.bigram_ref(), cfg.sparse_config());
    let filter = no_filter();
    let snapshot = store.snapshot();
    let selected = select_candidates(index, &CandidateQuery::Plan(plan.expr), &filter, &snapshot).unwrap();
    let regex = CompiledRegex::build(pattern, true, false, false).unwrap();
    let mut out = Vec::new();
    for id in &selected.base_ids {
        let doc = index.doc_by_id(*id).unwrap();
        let text = text_of(texts, &doc.path);
        scan_candidate(&regex, &doc.path, text.as_bytes(), &mut out, 200, &None, &None, true).unwrap();
    }
    for path in &selected.overlay_paths {
        if let Some(OverlayEntry::Modified(file)) = snapshot.get(path) {
            scan_candidate(&regex, path, file.text.as_bytes(), &mut out, 200, &None, &None, true).unwrap();
        }
    }
    let mut got: Vec<(String, usize, usize)> =
        out.into_iter().map(|m| (m.path, m.byte_offset, m.end_offset)).collect();
    got.sort();
    got
}

fn brute_force_matches(texts: &[(&str, &str)], pattern: &str) -> Vec<(String, usize, usize)> {
    let regex = pcre2::bytes::RegexBuilder::new().build(pattern).unwrap();
    let mut out = Vec::new();
    for (path, text) in texts {
        for found in regex.find_iter(text.as_bytes()) {
            let found = found.unwrap();
            out.push((path.to_string(), found.start(), found.end()));
        }
    }
    out.sort();
    out
}

#[test]
fn literal_search_matches_bruteforce() {
    let texts = [("src/a.txt", "hello world\nhello rust\n"), ("src/b.txt", "another line\n")];
    let files: Vec<SourceFile> = texts.iter().map(|(p, t)| source(p, t)).collect();
    let mut index = load(&files);
    let got = run_search(&mut index, &texts, &OverlayStore::new(), "hello");
    let expected = brute_force_matches(&texts, "hello");
    assert_eq!(got, expected);
}

#[test]
fn read_your_own_writes_overlay() {
    let texts = [("src/main.txt", "before\n")];
    let files: Vec<SourceFile> = texts.iter().map(|(p, t)| source(p, t)).collect();
    let mut index = load(&files);
    let mut store = OverlayStore::new();

    let before = run_search(&mut index, &texts, &store, "after");
    assert!(before.is_empty());

    let mut counts = OverlayUpdateResult { updated: 0, deleted: 0, skipped: 0 };
    let freq = index.bigram_ref().clone();
    apply_file_update(
        &mut store,
        &mut counts,
        "src/main.txt".to_string(),
        FileObservation::Bytes(b"after value\n".to_vec()),
        &freq,
        &BuildConfig::default(),
    );
    assert_eq!(counts.updated, 1);

    let after = run_search(&mut index, &texts, &store, "after");
    assert_eq!(after.len(), 1);
    assert_eq!(after[0].0, "src/main.txt");
}

#[test]
fn corrupt_index_triggers_rebuild_on_restart() {
    let files = vec![source("src/x.txt", "needle\n")];
    let cfg = BuildConfig::default();
    let built = build_index(&files, "repo", "commit", &cfg).unwrap();

    let mut postings = built.postings.clone();
    postings[12..20].copy_from_slice(&0u64.to_le_bytes());
    let err = IndexSnapshot::from_bytes(postings, built.lookup.clone()).err().unwrap();
    assert!(matches!(err, FastRegexError::CorruptIndex(_)));

    let rebuilt = build_index(&files, "repo", "commit", &cfg).unwrap();
    let mut index = IndexSnapshot::from_bytes(rebuilt.postings, rebuilt.lookup).unwrap();
    let got = run_search(&mut index, &[("src/x.txt", "needle\n")], &OverlayStore::new(), "needle");
    assert_eq!(got.len(), 1);
}

#[test]
fn explicit_rebuild_foreground_works() {
    let mut state = RebuildState::Idle;
    begin_rebuild(&mut state, RebuildMode::Foreground).unwrap();
    assert!(matches!(state, RebuildState::Running));
    let built = build_index(&[source("src/y.txt", "needle\n")], "repo", "commit", &BuildConfig::default()).unwrap();
    let state = finish_rebuild(None);
    assert!(built.stats.doc_count >= 1);
    assert!(matches!(state, RebuildState::Idle));
}

#[test]
fn queries_match_full_scan_on_a_small_corpus() {
    let texts = [
        ("a.txt", "alpha beta gamma\ndelta epsilon\n"),
        ("b.txt", "rust regex search\nfast engine\n"),
        ("c.txt", "cursor fastregex mcp\n"),
    ];
    let files: Vec<SourceFile> = texts.iter().map(|(p, t)| source(p, t)).collect();
    let mut index = load(&files);
    for pattern in ["alpha", "gamma", "regex", "fast", "engine", "zzz", "mcp", "sear", "epsilon|cursor", "e[a-z]g"] {
        let got = run_search(&mut index, &texts, &OverlayStore::new(), pattern);
        assert_eq!(got, brute_force_matches(&texts, pattern), "pattern {pattern}");
    }
}

#[test]
fn deleted_overlay_file_hides_indexed_document() {
    let texts = [("src/gone.txt", "needle here\n"), ("src/kept.txt", "needle too\n")];
    let files: Vec<SourceFile> = texts.iter().map(|(p, t)| source(p, t)).collect();
    let mut index = load(&files);
    let mut store = OverlayStore::new();
    let mut counts = OverlayUpdateResult { updated: 0, deleted: 0, skipped: 0 };
    let freq = index.bigram_ref().clone();
    apply_file_update(&mut store, &mut counts, "src/gone.txt".to_string(), FileObservation::Missing, &freq, &BuildConfig::default());
    assert_eq!(counts.deleted, 1);
    let got = run_search(&mut index, &texts, &store, "needle");
    assert_eq!(got, vec![("src/kept.txt".to_string(), 0, 6)]);
}

#[test]
fn hash_search_candidates_follow_logic() {
    let texts = [("one.txt", "abcdef\n"), ("two.txt", "xyzabc\n"), ("three.txt", "nothing\n")];
    let files: Vec<SourceFile> = texts.iter().map(|(p, t)| source(p, t)).collect();
    let mut index = load(&files);
    let abc = fastregex::hashing::hash_gram(b"abc");
    let def = fastregex::hashing::hash_gram(b"def");
    let snapshot = OverlayStore::new().snapshot();
    let filter = no_filter();

    let and = select_candidates(
        &mut index,
        &CandidateQuery::Hashes { hashes: vec![abc, def], logic: HashLogic::And },
        &filter,
        &snapshot,
    )
    .unwrap();
    let paths: Vec<String> = and.base_ids.iter().map(|id| index.doc_by_id(*id).unwrap().path.clone()).collect();
    assert_eq!(paths, vec!["one.txt".to_string()]);

    let or = select_candidates(
        &mut index,
        &CandidateQuery::Hashes { hashes: vec![abc, def], logic: HashLogic::Or },
        &filter,
        &snapshot,
    )
    .unwrap();
    assert_eq!(or.base_ids.len(), 2);
    assert_eq!(or.candidate_count, 2);
    assert_eq!(or.candidate_doc_ids, or.base_ids);

    let all = select_candidates(
        &mut index,
        &CandidateQuery::Hashes { hashes: vec![], logic: HashLogic::And },
        &filter,
        &snapshot,
    )
    .unwrap();
    assert_eq!(all.base_ids, vec![0, 1, 2]);
}

#[test]
fn filters_restrict_candidates() {
    let texts = [("src/lib.rs", "needle\n"), ("docs/notes.md", "needle\n"), ("src/skip.rs", "needle\n")];
    let files: Vec<SourceFile> = texts.iter().map(|(p, t)| source(p, t)).collect();
    let mut index = load(&files);
    let cfg = BuildConfig::default();
    let plan = build_query_plan("needle", index.bigram_ref(), cfg.sparse_config());
    let filter = PathFilter::new(&["src/**".to_string()], &[], &["**/skip.rs".to_string()]).unwrap();
    let snapshot = OverlayStore::new().snapshot();
    let selected = select_candidates(&mut index, &CandidateQuery::Plan(plan.expr), &filter, &snapshot).unwrap();
    assert_eq!(selected.candidate_paths, vec!["src/lib.rs".to_string()]);
}

#[test]
fn literal_scan_agrees_with_regex_scan() {
    let text = b"one needle two needle three";
    let regex = CompiledRegex::build("needle", true, false, false).unwrap();
    let mut by_regex = Vec::new();
    scan_candidate(&regex, "f", text, &mut by_regex, 10, &None, &None, false).unwrap();
    let mut by_literal = Vec::new();
    scan_literal_candidate(b"needle", "f", text, &mut by_literal, 10, &None, &None, false).unwrap();
    let a: Vec<(usize, usize)> = by_regex.iter().map(|m| (m.byte_offset, m.end_offset)).collect();
    let b: Vec<(usize, usize)> = by_literal.iter().map(|m| (m.byte_offset, m.end_offset)).collect();
    assert_eq!(a, vec![(4, 10), (15, 21)]);
    assert_eq!(a, b);
}

#[test]
fn unindexed_documents_are_always_candidates() {
    let cfg = BuildConfig { max_file_bytes: 16, ..BuildConfig::default() };
    let big = "padding padding padding needle\n";
    let files = vec![
        SourceFile {
            rel_path: "big.txt".to_string(),
            size: big.len() as u64,
            mtime_secs: 0,
            content: classify_utf8(Some(big.as_bytes().to_vec()), cfg.max_file_bytes),
        },
        SourceFile {
            rel_path: "small.txt".to_string(),
            size: 7,
            mtime_secs: 0,
            content: classify_utf8(Some(b"needle\n".to_vec()), cfg.max_file_bytes),
        },
        SourceFile {
            rel_path: "other.txt".to_string(),
            size: 6,
            mtime_secs: 0,
            content: classify_utf8(Some(b"other\n".to_vec()), cfg.max_file_bytes),
        },
    ];
    let built = build_index(&files, "repo", "commit", &cfg).unwrap();
    let mut index = IndexSnapshot::from_bytes(built.postings, built.lookup).unwrap();
    assert_eq!(index.unindexed_doc_ids(), vec![0]);
    let plan = build_query_plan("needle", index.bigram_ref(), cfg.sparse_config());
    let selected = select_candidates(
        &mut index,
        &CandidateQuery::Plan(plan.expr),
        &no_filter(),
        &OverlayStore::new().snapshot(),
    )
    .unwrap();
    assert_eq!(selected.candidate_paths, vec!["big.txt".to_string(), "small.txt".to_string()]);
}

#[test]
fn covering_grams_are_windows_of_the_literal() {
    let mut freq = std::collections::HashMap::new();
    fastregex::sparse::build_bigram_frequency(b"the quick brown fox jumps over the lazy dog", &mut freq);
    let literal = b"quick_brown_fox";
    let cover = fastregex::sparse::build_covering_sparse_ngrams(literal, &freq, fastregex::sparse::SparseConfig::default());
    assert!(!cover.is_empty());
    for gram in &cover {
        assert!(literal.windows(gram.len()).any(|w| w == gram.as_slice()));
    }
}

#[test]
fn generated_literal_queries_match_full_scan() {
    let texts = [
        ("a.txt", "alpha beta gamma\ndelta epsilon\n"),
        ("b.txt", "rust regex search\nfast engine\n"),
        ("c.txt", "cursor fastregex mcp\n"),
    ];
    let files: Vec<SourceFile> = texts.iter().map(|(p, t)| source(p, t)).collect();
    let mut index = load(&files);
    let store = OverlayStore::new();

    let mut patterns: Vec<String> = Vec::new();
    for (_, text) in &texts {
        for word in text.split(|c: char| !c.is_ascii_lowercase()) {
            for len in 3..=8usize {
                if word.len() >= len {
                    for start in 0..=(word.len() - len) {
                        patterns.push(word[start..start + len].to_string());
                    }
                }
            }
        }
    }
    let mut seed: u64 = 0x2545_f491_4f6c_dd1d;
    for _ in 0..200 {
        let mut p = String::new();
        seed = seed.wrapping_mul(6364136223846793005).wrapping_add(1442695040888963407);
        let len = 3 + (seed >> 60) as usize % 6;
        for _ in 0..len {
            seed = seed.wrapping_mul(6364136223846793005).wrapping_add(1442695040888963407);
            p.push((b'a' + ((seed >> 33) % 26) as u8) as char);
        }
        patterns.push(p);
    }

    for pattern in &patterns {
        let got = run_search(&mut index, &texts, &store, pattern);
        assert_eq!(got, brute_force_matches(&texts, pattern), "pattern {pattern}");
    }
}
