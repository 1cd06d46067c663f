use fastregex::builder::{build_index, classify_utf8, SourceFile};
use fastregex::corpus::{dataset_is_current, dictionary, marker_is_current, ripgrep_match_count, synthetic_path, synthetic_text};
use fastregex::text::text_lines;
use fastregex::engine::{apply_file_update, apply_file_updates, hash_candidate_response, decide_load, plan_candidates, LoadDecision, FileObservation, OverlayUpdateResult, SearchOptions};
use fastregex::error::FastRegexError;
use fastregex::index::{BuildConfig, IndexSnapshot};
use fastregex::overlay::OverlayStore;
use fastregex::planner::{build_literal_plan, build_query_plan, split_top_level_alternation, PlanExpr};
use fastregex::sparse::{build_all_sparse_ngrams, build_covering_sparse_ngrams};
use fastregex::index::extract_index_hashes;
use fastregex::hashing::hash_gram;
use fastregex::search::{ReturnMode, SearchMatch, count_file_matches, count_matches, scan_candidate, scan_literal_candidate, CompiledRegex};
use fastregex::sparse::SparseConfig;
use std::collections::HashMap;

fn source(path: &str, text: &str) -> SourceFile {
    SourceFile {
        rel_path: path.to_string(),
        size: text.len() as u64,
        mtime_secs: 0,
        content: classify_utf8(Some(text.as_bytes().to_vec()), 4 * 1024 * 1024),
    }
}

fn three_doc_index() -> IndexSnapshot {
    let files = vec![
        source("a.txt", "let x = ab{2}c;\n"),
        source("b.txt", "abbc is here\n"),
        source("c.txt", "Hello world\n"),
    ];
    let built = build_index(&files, "repo", "commit", &BuildConfig::default()).unwrap();
    IndexSnapshot::from_bytes(built.postings, built.lookup).unwrap()
}

#[test]
fn literal_search_plans_the_literal_itself() {
    let mut index = three_doc_index();
    let snapshot = OverlayStore::new().snapshot();
    let mut options = SearchOptions::default();
    options.literal = true;
    let planned = plan_candidates(&mut index, "ab{2}c", &options, SparseConfig::default(), &snapshot).unwrap();
    assert!(!planned.used_fallback);
    assert_eq!(planned.extracted_literals, vec!["ab{2}c".to_string()]);
    assert_eq!(planned.candidates.base_ids, vec![0]);

    // Read as a regex, the same text asks for "abbc".
    options.literal = false;
    let as_regex = plan_candidates(&mut index, "ab{2}c", &options, SparseConfig::default(), &snapshot).unwrap();
    assert_eq!(as_regex.extracted_literals, vec!["abbc".to_string()]);
    assert_eq!(as_regex.candidates.base_ids, vec![1]);
}

#[test]
fn caseless_search_keeps_every_document() {
    let mut index = three_doc_index();
    let snapshot = OverlayStore::new().snapshot();
    let mut options = SearchOptions::default();
    options.case_sensitive = false;
    let planned = plan_candidates(&mut index, "hello", &options, SparseConfig::default(), &snapshot).unwrap();
    assert!(planned.used_fallback);
    assert!(planned.extracted_literals.is_empty());
    assert_eq!(planned.candidates.base_ids, vec![0, 1, 2]);
}

#[test]
fn literal_plan_of_short_literal_falls_back() {
    let freq: HashMap<u16, u32> = HashMap::new();
    let short = build_literal_plan("ab", &freq, SparseConfig::default());
    assert!(short.used_fallback);
    assert!(matches!(short.expr, PlanExpr::AllDocs));
    let long = build_literal_plan("a.b*c", &freq, SparseConfig::default());
    assert!(!long.used_fallback);
    assert!(matches!(long.expr, PlanExpr::And(ref h) if !h.is_empty()));
    assert_eq!(long.extracted_literals, vec!["a.b*c".to_string()]);
}

#[test]
fn escapes_with_arguments_and_option_groups_fall_back() {
    let freq: HashMap<u16, u32> = HashMap::new();
    let cfg = SparseConfig::default();
    assert!(build_query_plan(r"\x41bcdef", &freq, cfg).used_fallback);
    assert!(build_query_plan(r"\p{L}abcdef", &freq, cfg).used_fallback);
    assert!(build_query_plan(r"\Qa+b\Ecdef", &freq, cfg).used_fallback);
    assert!(build_query_plan(r"(a)\12abcdef", &freq, cfg).used_fallback);
    assert!(build_query_plan(r"\0abcdef", &freq, cfg).used_fallback);
    assert!(build_query_plan(r"\N{U+41}bcdef", &freq, cfg).used_fallback);
    assert!(build_query_plan(r"\cAbcdef", &freq, cfg).used_fallback);
    assert!(build_query_plan("(?i)hello world", &freq, cfg).used_fallback);
    assert!(build_query_plan("(?x)hello world", &freq, cfg).used_fallback);
    assert!(build_query_plan("(?^i)hello world", &freq, cfg).used_fallback);
    assert!(build_query_plan("(?mi)hello world", &freq, cfg).used_fallback);
    // A back reference of one digit, a lone \N or \E, and options that leave
    // literals alone keep the plan.
    assert_eq!(build_query_plan(r"(a)\1abcdef", &freq, cfg).extracted_literals, vec!["abcdef".to_string()]);
    assert_eq!(build_query_plan(r"\Nabcdef", &freq, cfg).extracted_literals, vec!["abcdef".to_string()]);
    assert_eq!(build_query_plan(r"abc\Edef", &freq, cfg).extracted_literals, vec!["abc".to_string(), "def".to_string()]);
    for p in ["(?s)hello world", "(?m)hello world", "(?-i)hello world", "(?U)hello world", "(?J)hello world", "(?m-i)hello world"] {
        let plan = build_query_plan(p, &freq, cfg);
        assert!(!plan.used_fallback, "{p}");
        assert_eq!(plan.extracted_literals, vec!["hello world".to_string()], "{p}");
    }
    let grouped = build_query_plan("(?:abc)defgh", &freq, cfg);
    assert!(!grouped.used_fallback);
    assert_eq!(grouped.extracted_literals, vec!["defgh".to_string()]);
    let escaped = build_query_plan(r"abc\.def", &freq, cfg);
    assert_eq!(escaped.extracted_literals, vec!["abc.def".to_string()]);
}

#[test]
fn regex_hex_escape_match_is_not_lost() {
    // PCRE2 reads \x41 as "A": the file below matches, and the plan keeps
    // every document rather than asking for the text "41bcdef".
    let files = vec![source("a.txt", "ABCDEF\n"), source("b.txt", "zzz\n")];
    let built = build_index(&files, "repo", "commit", &BuildConfig::default()).unwrap();
    let mut index = IndexSnapshot::from_bytes(built.postings, built.lookup).unwrap();
    let snapshot = OverlayStore::new().snapshot();
    let options = SearchOptions::default();
    let planned = plan_candidates(&mut index, r"\x41BCDEF", &options, SparseConfig::default(), &snapshot).unwrap();
    assert!(planned.candidates.base_ids.contains(&0));
    let regex = CompiledRegex::build(r"\x41BCDEF", true, false, false).unwrap();
    let mut out = Vec::new();
    scan_candidate(&regex, "a.txt", b"ABCDEF\n", &mut out, 10, &None, &None, false).unwrap();
    assert_eq!(out.len(), 1);
}

#[test]
fn literal_scan_without_deadline_succeeds() {
    let mut out = Vec::new();
    let r = scan_literal_candidate(b"ab", "f.txt", b"ab ab ab", &mut out, 10, &None, &None, false);
    assert!(r.is_ok());
    assert_eq!(out.iter().map(|m| m.byte_offset).collect::<Vec<_>>(), vec![0, 3, 6]);
}

#[test]
fn synthetic_paths_follow_packages_and_modules() {
    assert_eq!(synthetic_path(0), "packages/pkg_0000/src/module_00.ts");
    assert_eq!(synthetic_path(31), "packages/pkg_0001/src/module_01.rs");
    assert_eq!(synthetic_path(59), "packages/pkg_0001/src/module_29.md");
    assert_eq!(synthetic_path(300_000), "packages/pkg_10000/src/module_00.ts");
}

#[test]
fn synthetic_text_of_first_file() {
    let text = synthetic_text(0);
    assert!(text.starts_with("// fastregex synthetic benchmark corpus\n// file_index=0\n\n"));
    assert!(text.contains("const entry_000 = \"engine_engine_engine_0_0\";\n"));
    assert!(text.contains("const entry_001 = \"lookup_candidate_commit_0_1\";\n"));
    assert!(text.contains("const entry_079 = "));
    assert!(text.contains("const FEATURE_FLAG = \"needle_alpha_beta\";\n"));
    assert!(text.contains("const API_NAME = \"alpha_service_endpoint\";\n"));
    assert!(text.contains("const API_ALT = \"gamma_worker_token\";\n"));
    assert!(text.contains(&format!("// digest: {}\n", "0".repeat(40))));
    assert!(text.ends_with("let event = \"user_0000_event_AAA\";\n"));
    assert_eq!(text.lines().count(), 3 + 80 + 5);
}

#[test]
fn synthetic_text_extras_follow_the_file_number() {
    let t17 = synthetic_text(17);
    assert!(t17.contains(&format!("// digest: {:040x}\n", 17u128 * 97_531)));
    assert!(!t17.contains("FEATURE_FLAG"));
    let t46 = synthetic_text(46);
    assert!(t46.contains("let event = \"user_0046_event_CDG\";\n"));
    let t1 = synthetic_text(1);
    assert_eq!(t1.lines().count(), 3 + 80);
    assert!(t1.contains("// file_index=1\n"));
}

#[test]
fn dictionary_wraps_round() {
    assert_eq!(dictionary(0), "engine");
    assert_eq!(dictionary(31), "queue");
    assert_eq!(dictionary(32), "engine");
    assert_eq!(dictionary(21), "throughput");
}

#[test]
fn dataset_marker_decides_reuse() {
    assert!(dataset_is_current(500, 500));
    assert!(!dataset_is_current(499, 500));
    assert!(!dataset_is_current(0, 1));
}

#[test]
fn update_run_counts_each_path_once_and_advances_generation() {
    let mut store = OverlayStore::new();
    let mut counts = OverlayUpdateResult { updated: 0, deleted: 0, skipped: 0 };
    let freq: HashMap<u16, u32> = HashMap::new();
    let cfg = BuildConfig::default();
    let items = vec![
        ("gone.txt", FileObservation::Missing),
        ("a.txt", FileObservation::Bytes(b"hello world".to_vec())),
        ("dir", FileObservation::NotAFile),
        ("bad.bin", FileObservation::Bytes(vec![0xff, 0xfe])),
        ("late.txt", FileObservation::Vanished),
    ];
    let n = items.len();
    for (path, obs) in items {
        apply_file_update(&mut store, &mut counts, path.to_string(), obs, &freq, &cfg);
    }
    assert_eq!(counts.updated + counts.deleted + counts.skipped, n);
    assert_eq!((counts.updated, counts.deleted, counts.skipped), (1, 1, 3));
    assert_eq!(store.snapshot().generation, (counts.updated + counts.deleted) as u64);
    assert_eq!(store.dirty_files(), 2);
}

#[test]
fn stored_index_is_used_rebuilt_or_refused() {
    assert!(matches!(decide_load(None), LoadDecision::Rebuild));
    assert!(matches!(
        decide_load(Some(Err(FastRegexError::CorruptIndex("bad magic".to_string())))),
        LoadDecision::Rebuild
    ));
    assert!(matches!(
        decide_load(Some(Err(FastRegexError::Internal("unreadable".to_string())))),
        LoadDecision::Fail(FastRegexError::Internal(_))
    ));
    match decide_load(Some(Ok(three_doc_index()))) {
        LoadDecision::Use(s) => assert_eq!(s.doc_count(), 3),
        _ => panic!("a loaded index is used"),
    }
}

#[test]
fn top_level_split_rejoins_to_the_pattern() {
    let parts = split_top_level_alternation("a|(b|c)|[|]");
    assert_eq!(parts, vec!["a".to_string(), "(b|c)".to_string(), "[|]".to_string()]);
    assert_eq!(parts.join("|"), "a|(b|c)|[|]");
    let escaped = split_top_level_alternation(r"x\|y|");
    assert_eq!(escaped, vec![r"x\|y".to_string(), String::new()]);
    assert_eq!(escaped.join("|"), r"x\|y|");
}

#[test]
fn sparse_grams_are_distinct_spans_and_keep_every_trigram() {
    let freq: HashMap<u16, u32> = HashMap::new();
    let text = b"abcabcabd";
    let cfg = SparseConfig::default();
    let grams = build_all_sparse_ngrams(text, &freq, cfg);
    for (i, g) in grams.iter().enumerate() {
        assert!(g.len() >= 3 && g.len() <= cfg.max_span_bigrams + 1);
        assert!(text.windows(g.len()).any(|w| w == g.as_slice()));
        for h in &grams[i + 1..] {
            assert_ne!(g, h);
        }
    }
    for w in text.windows(3) {
        assert!(grams.iter().any(|g| g.as_slice() == w));
    }
    let capped = build_all_sparse_ngrams(text, &freq, SparseConfig { max_grams_per_text: 2, ..cfg });
    assert_eq!(capped.len(), 2);
}

#[test]
fn covering_grams_are_distinct_stretches_within_the_limit() {
    let freq: HashMap<u16, u32> = HashMap::new();
    let lit = b"needle_alpha_beta";
    let cfg = SparseConfig::default();
    let all = build_all_sparse_ngrams(lit, &freq, cfg);
    let cov = build_covering_sparse_ngrams(lit, &freq, cfg);
    assert!(!cov.is_empty() && cov.len() <= cfg.max_covering_grams);
    for (i, g) in cov.iter().enumerate() {
        assert!(g.len() >= 3);
        assert!(all.contains(g) || g.as_slice() == &lit[0..3]);
        for h in &cov[i + 1..] {
            assert_ne!(g, h);
        }
    }
    let one = build_covering_sparse_ngrams(lit, &freq, SparseConfig { max_covering_grams: 0, ..cfg });
    assert_eq!(one.len(), 1);
}

#[test]
fn index_hashes_hold_every_trigram_within_the_limit() {
    let freq: HashMap<u16, u32> = HashMap::new();
    let text = b"fn main() { println!(\"hello\"); }";
    let mut cfg = BuildConfig::default();
    let hs = extract_index_hashes(text, &freq, &cfg);
    for w in text.windows(3) {
        assert!(hs.contains(&hash_gram(w)));
    }
    cfg.max_grams_per_file = 1;
    let few = extract_index_hashes(text, &freq, &cfg);
    assert!(few.len() <= text.len() - 2 + 1);
}

#[test]
fn benchmark_marker_decides_reuse() {
    assert_eq!(marker_is_current("{\"dataset\":\"synthetic_monorepo\",\"files\":500,\"format\":1}", 500), Ok(true));
    assert_eq!(marker_is_current("{\"files\":499}", 500), Ok(false));
    assert_eq!(marker_is_current("{\"dataset\":\"x\"}", 0), Ok(true));
    assert_eq!(marker_is_current("{\"files\":\"many\"}", 1), Ok(false));
    assert!(marker_is_current("not json", 1).is_err());
}

#[test]
fn ripgrep_output_counts_submatches_of_match_lines() {
    let out = "{\"type\":\"begin\",\"data\":{}}\n{\"type\":\"match\",\"data\":{\"submatches\":[{},{}]}}\r\n{\"type\":\"match\",\"data\":{\"submatches\":[{}]}}\n{\"type\":\"end\",\"data\":{\"submatches\":[{},{},{}]}}\n";
    assert_eq!(ripgrep_match_count(out.as_bytes()), Ok(3));
    assert_eq!(ripgrep_match_count(b""), Ok(0));
    assert!(ripgrep_match_count(b"{\"type\":\"match\"}\n\n").is_err());
}

#[test]
fn full_scan_counts_matches_of_utf8_files() {
    let regex = CompiledRegex::build_without_jit("ab", true, false, false).unwrap();
    assert_eq!(count_file_matches(&regex, b"ab xab abab").unwrap(), 4);
    assert_eq!(count_file_matches(&regex, &[0x61, 0x62, 0xff]).unwrap(), 0);
    let empty = CompiledRegex::build("x*", true, false, false).unwrap();
    assert_eq!(count_matches(&empty, b"ab").unwrap(), 3);
}

#[test]
fn text_lines_follow_str_lines() {
    for t in ["", "a", "a\n", "a\r\nb", "\n\nx\r", "a\n\nb\n"] {
        let expected: Vec<String> = t.lines().map(String::from).collect();
        assert_eq!(text_lines(t), expected, "{t:?}");
    }
}

use fastregex::regexcache::RegexCache;
use fastregex::scanning::merge_parts;
use fastregex::selection::CandidateSet;
use std::sync::Arc;

#[test]
fn regex_cache_keeps_the_most_recent() {
    let mut cache = RegexCache::new(2);
    assert!(!cache.bump("a"));
    cache.insert("a".to_string(), Arc::new(CompiledRegex::build("a+", true, false, false).unwrap()));
    cache.insert("b".to_string(), Arc::new(CompiledRegex::build("b+", true, false, false).unwrap()));
    assert!(cache.bump("a"));
    let mut out = Vec::new();
    scan_candidate(cache.newest(), "f", b"xaa", &mut out, 10, &None, &None, false).unwrap();
    assert_eq!(out.len(), 1);
    // "b" is now the oldest and goes when "c" arrives.
    cache.insert("c".to_string(), Arc::new(CompiledRegex::build("c", true, false, false).unwrap()));
    assert!(!cache.bump("b"));
    assert!(cache.bump("a"));
    assert!(cache.bump("c"));
}

#[test]
fn hash_candidates_list_only_indexed_paths() {
    let c = CandidateSet {
        base_ids: vec![0, 2],
        overlay_paths: vec!["new.txt".to_string()],
        candidate_count: 3,
        candidate_doc_ids: vec![0, 2],
        candidate_paths: vec!["a.txt".to_string(), "c.txt".to_string(), "new.txt".to_string()],
    };
    let r = hash_candidate_response(c, 4, 9, ReturnMode::Paths);
    assert_eq!(r.candidate_count, 3);
    assert_eq!(r.candidate_paths, vec!["a.txt".to_string(), "c.txt".to_string()]);
    assert_eq!(r.candidate_doc_ids, vec![0, 2]);
    assert_eq!((r.base_generation, r.overlay_generation), (4, 9));
    assert!(!r.used_fallback && r.matches.is_empty());
}

#[test]
fn update_run_counts_every_path() {
    let mut store = OverlayStore::new();
    let freq: HashMap<u16, u32> = HashMap::new();
    let items = vec![
        ("gone.txt".to_string(), FileObservation::Missing),
        ("a.txt".to_string(), FileObservation::Bytes(b"hello".to_vec())),
        ("dir".to_string(), FileObservation::NotAFile),
        ("a.txt".to_string(), FileObservation::Bytes(b"hello again".to_vec())),
    ];
    let counts = apply_file_updates(&mut store, items, &freq, &BuildConfig::default());
    assert_eq!((counts.updated, counts.deleted, counts.skipped), (2, 1, 1));
    assert_eq!(store.snapshot().generation, 3);
    assert_eq!(store.dirty_files(), 2);
}

fn rec(path: &str, at: usize) -> SearchMatch {
    SearchMatch { path: path.to_string(), byte_offset: at, end_offset: at + 1, line: 1, column: at + 1, snippet: String::new() }
}

#[test]
fn parallel_parts_merge_whole_until_the_cap() {
    let parts = || vec![vec![rec("a", 0), rec("a", 1)], vec![rec("b", 0)], vec![rec("c", 0), rec("c", 2)], vec![rec("d", 0)]];
    let mut out = Vec::new();
    merge_parts(&mut out, parts(), 3);
    let got: Vec<&str> = out.iter().map(|m| m.path.as_str()).collect();
    assert_eq!(got, vec!["a", "a", "b"]);
    let mut full: Vec<SearchMatch> = (0..5).map(|i| rec("x", i)).collect();
    merge_parts(&mut full, parts(), 3);
    assert_eq!(full.len(), 7);
}
