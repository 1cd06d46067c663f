use std::collections::{HashMap, HashSet};
use std::time::{Duration, Instant};

use fastregex::builder::{build_index, classify_utf8, SourceFile, Utf8Read};
use fastregex::engine::{
    begin_rebuild, check_hash_request, effective_max_results, freshness, index_status_of, regex_source,
    require_pattern, HashSearchOptions, RebuildMode, RebuildState, SearchOptions,
};
use fastregex::engine::{apply_file_update, candidate_response, hash_candidates, plan_candidates, FileObservation, OverlayUpdateResult};
use fastregex::hotcache::HotCache;
use fastregex::scanning::{allowed_texts, overlay_texts, scan_texts, TextMatcher};
use fastregex::protocol::{frame_message, parse_header_line, HeaderLine};
use fastregex::paths::{head_commit, listed_files, replace_backslashes, should_skip, to_relative_path};
use fastregex::selection::{select_candidates, CandidateQuery};
use fastregex::error::FastRegexError;
use fastregex::filters::PathFilter;
use fastregex::hashing::{hash_gram, hash_repo_id};
use fastregex::index::{extract_index_hashes, payload_checksum, validate_payload_checksum, BuildConfig, IndexSnapshot, PostingCache};
use fastregex::overlay::{OverlayEntry, OverlayStore};
use fastregex::planner::{build_query_plan, PlanExpr, QueryPlan};
use fastregex::search::{
    build_line_starts, check_deadline, escape_literal_for_pcre2, intersect_sorted_doc_ids, line_column_only,
    line_column_snippet, overlay_hash_match, scan_candidate, CompiledRegex, HashLogic, ReturnMode, SearchMatch,
};
use fastregex::sparse::{build_all_sparse_ngrams, build_bigram_frequency, build_covering_sparse_ngrams, SparseConfig};
use fastregex::text::{is_whitespace, parse_usize, trim_chars};

fn source(path: &str, text: &str) -> SourceFile {
    SourceFile {
        rel_path: path.to_string(),
        size: text.len() as u64,
        mtime_secs: 7,
        content: classify_utf8(Some(text.as_bytes().to_vec()), 1024),
    }
}

fn two_doc_index() -> IndexSnapshot {
    let files = vec![source("src/b.txt", "another line\n"), source("src/a.txt", "hello world\nhello rust\n")];
    let built = build_index(&files, "repo-1", "abc123", &BuildConfig::default()).unwrap();
    IndexSnapshot::from_bytes(built.postings, built.lookup).unwrap()
}

#[test]
fn repo_id_is_sixteen_hex_digits_of_xxh3() {
    let id = hash_repo_id("/work/space");
    assert_eq!(id, format!("{:016x}", xxhash_rust::xxh3::xxh3_64(b"/work/space")));
    assert_eq!(id.len(), 16);
    assert_ne!(hash_repo_id("/work/space"), hash_repo_id("/work/other"));
    assert_eq!(hash_gram(b"abc"), xxhash_rust::xxh3::xxh3_64(b"abc"));
}

#[test]
fn escaping_marks_every_metacharacter() {
    assert_eq!(escape_literal_for_pcre2("a.b*c"), "a\\.b\\*c");
    assert_eq!(escape_literal_for_pcre2("(x|y)[0]{1}^$+?\\"), "\\(x\\|y\\)\\[0\\]\\{1\\}\\^\\$\\+\\?\\\\");
    assert_eq!(escape_literal_for_pcre2("plain"), "plain");
    assert_eq!(regex_source("a.b", true), "a\\.b");
    assert_eq!(regex_source("a.b", false), "a.b");
}

#[test]
fn request_checks() {
    assert_eq!(effective_max_results(0), 200);
    assert_eq!(effective_max_results(5), 5);
    assert!(matches!(require_pattern(""), Err(FastRegexError::InvalidRequest(_))));
    assert!(require_pattern("x").is_ok());
    assert!(matches!(check_hash_request(&None, ReturnMode::Matches), Err(FastRegexError::InvalidRequest(_))));
    assert!(check_hash_request(&None, ReturnMode::Count).is_ok());
    assert!(check_hash_request(&Some("lit".to_string()), ReturnMode::Matches).is_ok());
}

#[test]
fn option_defaults() {
    let o = SearchOptions::default();
    assert_eq!(o.max_results, 200);
    assert!(o.case_sensitive);
    assert!(!o.literal && !o.parallel && !o.dotall && !o.multiline && !o.no_snippet);
    assert!(matches!(o.return_mode, ReturnMode::Matches));
    assert!(o.allow.is_empty() && o.exclude.is_empty() && o.globs.is_empty());
    let h = HashSearchOptions::default();
    assert_eq!(h.max_results, 200);
    assert!(h.verify_literal.is_none());
}

#[test]
fn status_and_rebuild_states() {
    assert_eq!(freshness("c1", "c1", 0), "fresh");
    assert_eq!(freshness("c1", "c2", 0), "stale");
    assert_eq!(freshness("c1", "c1", 3), "stale");
    let index = two_doc_index();
    let status = index_status_of(&index, "abc123".to_string(), 0, RebuildState::Idle, 4);
    assert_eq!(status.freshness, "fresh");
    assert_eq!(status.indexed_docs, 2);
    assert_eq!(status.base_commit, "abc123");
    assert_eq!(status.repo_id, "repo-1");

    let mut state = RebuildState::Running;
    assert!(matches!(begin_rebuild(&mut state, RebuildMode::Background), Err(FastRegexError::RebuildAlreadyRunning)));
    assert!(begin_rebuild(&mut state, RebuildMode::Foreground).is_ok());
    let mut idle = RebuildState::Failed { message: "x".to_string() };
    assert!(begin_rebuild(&mut idle, RebuildMode::Background).is_ok());
    assert!(matches!(idle, RebuildState::Running));
}

#[test]
fn built_index_reads_back() {
    let mut index = two_doc_index();
    assert_eq!(index.doc_count(), 2);
    assert_eq!(index.doc_by_id(0).unwrap().path, "src/a.txt");
    assert_eq!(index.doc_by_id(1).unwrap().path, "src/b.txt");
    assert_eq!(index.doc_by_id(0).unwrap().mtime_secs, 7);
    assert!(index.doc_by_id(2).is_none());
    assert_eq!(index.doc_id_for_path("src/b.txt"), Some(1));
    assert_eq!(index.doc_id_for_path("src/c.txt"), None);
    assert_eq!(index.all_doc_ids(), vec![0, 1]);
    assert!(index.unindexed_doc_ids().is_empty());
    assert_eq!(index.posting_for_hash(hash_gram(b"hel")).unwrap(), Some(vec![0]));
    assert_eq!(index.posting_for_hash(hash_gram(b"lin")).unwrap(), Some(vec![1]));
    assert_eq!(index.posting_for_hash(hash_gram(b"zzz")).unwrap(), None);
    let mut freq = HashMap::new();
    build_bigram_frequency(b"hello world\nhello rust\n", &mut freq);
    build_bigram_frequency(b"another line\n", &mut freq);
    assert_eq!(index.bigram_ref(), &freq);
}

#[test]
fn oversized_files_are_recorded_unindexed() {
    let files = vec![source("big.txt", &"x".repeat(2000)), source("small.txt", "tiny text")];
    let built = build_index(&files, "r", "c", &BuildConfig::default()).unwrap();
    let index = IndexSnapshot::from_bytes(built.postings, built.lookup).unwrap();
    assert_eq!(index.unindexed_doc_ids(), vec![0]);
    assert!(!index.doc_by_id(0).unwrap().indexed);
}

#[test]
fn classify_utf8_cases() {
    assert!(matches!(classify_utf8(None, 10), Utf8Read::Missing));
    assert!(matches!(classify_utf8(Some(vec![0xff, 0xfe]), 10), Utf8Read::NonUtf8));
    assert!(matches!(classify_utf8(Some(b"too long".to_vec()), 3), Utf8Read::UnindexedUtf8));
    match classify_utf8(Some(b"ok".to_vec()), 3) {
        Utf8Read::Indexed(b) => assert_eq!(b, b"ok".to_vec()),
        _ => panic!("expected indexed bytes"),
    }
}

#[test]
fn corrupt_lookup_is_refused() {
    let files = vec![source("a.txt", "some text here")];
    let built = build_index(&files, "r", "c", &BuildConfig::default()).unwrap();
    let mut lookup = built.lookup.clone();
    let last = lookup.len() - 1;
    lookup[last] ^= 0x55;
    assert!(matches!(IndexSnapshot::from_bytes(built.postings.clone(), lookup), Err(FastRegexError::CorruptIndex(_))));
    assert!(matches!(IndexSnapshot::from_bytes(Vec::new(), built.lookup.clone()), Err(FastRegexError::CorruptIndex(_))));
}

#[test]
fn payload_checksum_is_blake3_prefix() {
    let payload = b"payload bytes";
    let digest = blake3::hash(payload);
    let mut first = [0u8; 8];
    first.copy_from_slice(&digest.as_bytes()[0..8]);
    assert_eq!(payload_checksum(payload), u64::from_le_bytes(first));
    let mut framed = vec![9u8, 9u8];
    framed.extend_from_slice(payload);
    assert!(validate_payload_checksum(&framed, 2, u64::from_le_bytes(first)).is_ok());
    assert!(matches!(validate_payload_checksum(&framed, 2, 1), Err(FastRegexError::CorruptIndex(_))));
    assert!(validate_payload_checksum(&framed, 3, u64::from_le_bytes(first)).is_err());
}

#[test]
fn posting_cache_keeps_most_recent() {
    let mut cache = PostingCache::new(2);
    cache.insert(1, vec![1]);
    cache.insert(2, vec![2]);
    assert_eq!(cache.get(1), Some(vec![1]));
    cache.insert(3, vec![3]);
    assert_eq!(cache.get(2), None);
    assert_eq!(cache.get(1), Some(vec![1]));
    assert_eq!(cache.get(3), Some(vec![3]));
    cache.insert(1, vec![4]);
    assert_eq!(cache.get(1), Some(vec![4]));
}

#[test]
fn overlay_store_tracks_generations() {
    let mut store = OverlayStore::new();
    assert_eq!(store.dirty_files(), 0);
    let mut hashes = HashSet::new();
    hashes.insert(5u64);
    store.upsert_modified("a.txt".to_string(), "text".to_string(), hashes);
    store.upsert_deleted("b.txt".to_string());
    store.upsert_deleted("a.txt".to_string());
    assert_eq!(store.dirty_files(), 2);
    let snap = store.snapshot();
    assert_eq!(snap.generation, 3);
    assert!(matches!(snap.get("a.txt"), Some(OverlayEntry::Deleted)));
    assert!(snap.get("c.txt").is_none());
}

#[test]
fn planner_extracts_literals() {
    let freq = HashMap::new();
    let plan = build_query_plan("hello", &freq, SparseConfig::default());
    assert!(!plan.used_fallback);
    assert_eq!(plan.extracted_literals, vec!["hello".to_string()]);
    match &plan.expr {
        PlanExpr::And(hs) => {
            assert!(!hs.is_empty());
            assert!(hs.windows(2).all(|w| w[0] < w[1]));
            let trigrams: HashSet<u64> = [&b"hel"[..], &b"ell"[..], &b"llo"[..]].iter().map(|t| hash_gram(t)).collect();
            assert!(hs.iter().all(|h| trigrams.contains(h)));
        },
        _ => panic!("expected an And plan"),
    }
    let alt = build_query_plan("alpha_service|gamma_worker", &freq, SparseConfig::default());
    assert!(matches!(alt.expr, PlanExpr::Or(ref bs) if bs.len() == 2));
    let fallback = build_query_plan("[a-f0-9]{40}", &freq, SparseConfig::default());
    assert!(fallback.used_fallback);
    assert!(matches!(fallback.expr, PlanExpr::AllDocs));
    assert!(build_query_plan("", &freq, SparseConfig::default()).used_fallback);
    let all = QueryPlan::all_docs();
    assert!(all.matches_hashes(&HashSet::new()));
}

#[test]
fn index_hashes_hold_every_trigram() {
    let text = b"the quick brown fox";
    let hashes = extract_index_hashes(text, &HashMap::new(), &BuildConfig::default());
    for w in text.windows(3) {
        assert!(hashes.contains(&hash_gram(w)));
    }
    let plan = build_query_plan("quick", &HashMap::new(), SparseConfig::default());
    assert!(plan.matches_hashes(&hashes));
    let miss = build_query_plan("slowly", &HashMap::new(), SparseConfig::default());
    assert!(!miss.matches_hashes(&hashes));
}

#[test]
fn sparse_grams() {
    let mut freq = HashMap::new();
    build_bigram_frequency(b"abab", &mut freq);
    assert_eq!(freq.get(&u16::from_be_bytes([b'a', b'b'])), Some(&2));
    assert_eq!(freq.get(&u16::from_be_bytes([b'b', b'a'])), Some(&1));
    let grams = build_all_sparse_ngrams(b"function_name", &freq, SparseConfig::default());
    assert!(!grams.is_empty());
    for g in &grams {
        assert!(g.len() >= 3);
        assert!(b"function_name".windows(g.len()).any(|w| w == g.as_slice()));
    }
    let cover = build_covering_sparse_ngrams(b"function_name", &freq, SparseConfig::default());
    assert!(!cover.is_empty());
    assert!(build_all_sparse_ngrams(b"ab", &freq, SparseConfig::default()).is_empty());
}

#[test]
fn posting_lists_intersect() {
    assert_eq!(intersect_sorted_doc_ids(&[1, 3, 5, 7], &[3, 4, 5, 8]), vec![3, 5]);
    assert!(intersect_sorted_doc_ids(&[], &[1]).is_empty());
    let mut file = HashSet::new();
    file.insert(1u64);
    file.insert(2u64);
    assert!(overlay_hash_match(&file, &[1, 2], HashLogic::And));
    assert!(!overlay_hash_match(&file, &[1, 3], HashLogic::And));
    assert!(overlay_hash_match(&file, &[1, 3], HashLogic::Or));
    assert!(!overlay_hash_match(&file, &[3], HashLogic::Or));
    assert!(overlay_hash_match(&file, &[], HashLogic::And));
}

#[test]
fn lines_and_columns() {
    let bytes = b"ab\ncd\nef";
    let starts = build_line_starts(bytes);
    assert_eq!(starts, vec![0, 3, 6]);
    assert_eq!(line_column_only(&starts, 4), (2, 2));
    assert_eq!(line_column_only(&starts, 0), (1, 1));
    assert_eq!(line_column_snippet(bytes, &starts, 4), (2, 2, "cd".to_string()));
    assert_eq!(line_column_snippet(bytes, &starts, 7), (3, 2, "ef".to_string()));
    assert_eq!(build_line_starts(b"x\n"), vec![0]);
}

#[test]
fn scan_stops_at_max_results() {
    let regex = CompiledRegex::build("a", true, false, false).unwrap();
    let mut out = Vec::new();
    scan_candidate(&regex, "f", b"aaaaa", &mut out, 3, &None, &None, true).unwrap();
    assert_eq!(out.len(), 3);
    assert_eq!(out[2].byte_offset, 2);
    assert_eq!(out[0].snippet, "aaaaa");
    let caseless = CompiledRegex::build("A", false, false, false).unwrap();
    let mut found = Vec::new();
    scan_candidate(&caseless, "f", b"xa", &mut found, 10, &None, &None, false).unwrap();
    assert_eq!(found.len(), 1);
    assert_eq!(found[0].snippet, "");
    assert!(matches!(CompiledRegex::build("(", true, false, false), Err(FastRegexError::RegexCompile(_))));
}

#[test]
fn deadlines() {
    assert!(check_deadline(&None, &None).is_ok());
    let past = Instant::now().checked_sub(Duration::from_secs(5)).unwrap();
    let err = check_deadline(&Some((past, 250)), &Some("req-1".to_string()));
    match err {
        Err(FastRegexError::Timeout { request_id, timeout_ms }) => {
            assert_eq!(request_id, Some("req-1".to_string()));
            assert_eq!(timeout_ms, 250);
        },
        _ => panic!("expected a timeout"),
    }
    let future = Instant::now() + Duration::from_secs(3600);
    assert!(check_deadline(&Some((future, 1)), &None).is_ok());
}

#[test]
fn path_filters() {
    let filter = PathFilter::new(&["src/**".to_string()], &["*.md".to_string()], &["src/gen/**".to_string()]).unwrap();
    assert!(filter.allows("src/main.rs"));
    assert!(filter.allows("README.md"));
    assert!(!filter.allows("docs/x.txt"));
    assert!(!filter.allows("src/gen/out.rs"));
    let open = PathFilter::new(&[], &[], &[]).unwrap();
    assert!(open.allows("anything/at/all"));
    assert!(matches!(PathFilter::new(&["a[".to_string()], &[], &[]), Err(FastRegexError::Glob(_))));
}

#[test]
fn text_helpers() {
    let t: Vec<char> = "  padded \n".chars().collect();
    assert_eq!(trim_chars(&t).into_iter().collect::<String>(), "padded");
    let n: Vec<char> = "42".chars().collect();
    assert_eq!(parse_usize(&n), Some(42));
    let bad: Vec<char> = "4x".chars().collect();
    assert_eq!(parse_usize(&bad), None);
}

#[test]
fn relative_paths_and_skipped_names() {
    assert_eq!(to_relative_path("/work/space", "/work/space/src/a.rs"), "src/a.rs");
    assert_eq!(to_relative_path("/work/space", "/elsewhere/b.rs"), "/elsewhere/b.rs");
    assert_eq!(to_relative_path("/work/space", "src\\c.rs"), "src/c.rs");
    assert_eq!(to_relative_path("/work", "/workspace/x"), "/workspace/x");
    assert_eq!(replace_backslashes("a\\b\\c"), "a/b/c");
    for name in [".git", ".fastregex", "target", "node_modules"] {
        assert!(should_skip(name));
    }
    assert!(!should_skip("src"));
    assert!(!should_skip(".github"));
}

#[test]
fn overlay_updates_count_each_outcome() {
    let mut store = OverlayStore::new();
    let mut counts = OverlayUpdateResult { updated: 0, deleted: 0, skipped: 0 };
    let freq = HashMap::new();
    let cfg = BuildConfig::default();
    apply_file_update(&mut store, &mut counts, "a.txt".to_string(), FileObservation::Bytes(b"new text".to_vec()), &freq, &cfg);
    apply_file_update(&mut store, &mut counts, "b.txt".to_string(), FileObservation::Missing, &freq, &cfg);
    apply_file_update(&mut store, &mut counts, "dir".to_string(), FileObservation::NotAFile, &freq, &cfg);
    apply_file_update(&mut store, &mut counts, "c.txt".to_string(), FileObservation::Vanished, &freq, &cfg);
    apply_file_update(&mut store, &mut counts, "d.bin".to_string(), FileObservation::Bytes(vec![0xff, 0x00]), &freq, &cfg);
    assert_eq!((counts.updated, counts.deleted, counts.skipped), (1, 1, 3));
    let snap = store.snapshot();
    assert_eq!(snap.generation, 2);
    assert_eq!(store.dirty_files(), 2);
    match snap.get("a.txt") {
        Some(OverlayEntry::Modified(file)) => {
            assert_eq!(file.text, "new text");
            assert_eq!(file.gram_hashes, extract_index_hashes(b"new text", &freq, &cfg));
        },
        _ => panic!("expected the new text"),
    }
    assert!(matches!(snap.get("b.txt"), Some(OverlayEntry::Deleted)));
    assert!(snap.get("dir").is_none());
}

#[test]
fn candidate_only_responses() {
    let mut index = two_doc_index();
    let empty: Vec<String> = Vec::new();
    let filter = PathFilter::new(&empty, &empty, &empty).unwrap();
    let snapshot = OverlayStore::new().snapshot();
    let plan = build_query_plan("hello", index.bigram_ref(), BuildConfig::default().sparse_config());
    let selected = select_candidates(&mut index, &CandidateQuery::Plan(plan.expr), &filter, &snapshot).unwrap();
    let response = candidate_response(selected, plan.used_fallback, plan.extracted_literals, 3, 4, ReturnMode::Paths);
    assert!(response.matches.is_empty());
    assert_eq!(response.candidate_count, 1);
    assert_eq!(response.candidate_doc_ids, vec![0]);
    assert_eq!(response.candidate_paths, vec!["src/a.txt".to_string()]);
    assert_eq!(response.extracted_literals, vec!["hello".to_string()]);
    assert_eq!((response.base_generation, response.overlay_generation), (3, 4));
    assert!(matches!(response.return_mode, ReturnMode::Paths));
}

#[test]
fn overlay_changes_shadow_indexed_documents() {
    let mut index = two_doc_index();
    let empty: Vec<String> = Vec::new();
    let filter = PathFilter::new(&empty, &empty, &empty).unwrap();
    let mut store = OverlayStore::new();
    let freq = index.bigram_ref().clone();
    let mut hashes = extract_index_hashes(b"goodbye\n", &freq, &BuildConfig::default());
    hashes.insert(1);
    store.upsert_modified("src/a.txt".to_string(), "goodbye\n".to_string(), hashes);
    store.upsert_modified("src/new.txt".to_string(), "hello again\n".to_string(), extract_index_hashes(b"hello again\n", &freq, &BuildConfig::default()));
    let snapshot = store.snapshot();
    let plan = build_query_plan("hello", &freq, BuildConfig::default().sparse_config());
    let selected = select_candidates(&mut index, &CandidateQuery::Plan(plan.expr), &filter, &snapshot).unwrap();
    assert!(selected.base_ids.is_empty());
    assert_eq!(selected.overlay_paths, vec!["src/new.txt".to_string()]);
    assert_eq!(selected.candidate_count, 1);
    assert_eq!(selected.candidate_paths, vec!["src/new.txt".to_string()]);
}

#[test]
fn hot_cache_keeps_recent_files() {
    let mut cache = HotCache::new(2);
    cache.insert("a".to_string(), b"1".to_vec());
    cache.insert("b".to_string(), b"2".to_vec());
    cache.insert("a".to_string(), b"3".to_vec());
    assert_eq!(cache.entries(), vec![("b".to_string(), b"2".to_vec()), ("a".to_string(), b"3".to_vec())]);
    cache.insert("c".to_string(), b"4".to_vec());
    assert_eq!(cache.entries(), vec![("a".to_string(), b"3".to_vec()), ("c".to_string(), b"4".to_vec())]);
    let mut tiny = HotCache::new(0);
    tiny.insert("x".to_string(), Vec::new());
    tiny.insert("y".to_string(), Vec::new());
    assert_eq!(tiny.entries(), vec![("y".to_string(), Vec::new())]);
}

#[test]
fn multi_text_scans_stop_at_the_cap() {
    let docs = vec![
        ("a".to_string(), b"x x".to_vec()),
        ("b".to_string(), b"no".to_vec()),
        ("c".to_string(), b"x x x".to_vec()),
        ("d".to_string(), b"x".to_vec()),
    ];
    let regex = CompiledRegex::build("x", true, false, false).unwrap();
    let mut out = Vec::new();
    let visited = scan_texts(&TextMatcher::Pattern(&regex), &docs, &mut out, 4, &None, &None, false).unwrap();
    assert_eq!(visited, 3);
    let got: Vec<(String, usize)> = out.iter().map(|m| (m.path.clone(), m.byte_offset)).collect();
    assert_eq!(got, vec![("a".to_string(), 0), ("a".to_string(), 2), ("c".to_string(), 0), ("c".to_string(), 2)]);

    let mut lit = Vec::new();
    let all = scan_texts(&TextMatcher::Literal(b"x"), &docs, &mut lit, 100, &None, &None, true).unwrap();
    assert_eq!(all, 4);
    assert_eq!(lit.len(), 6);
    assert_eq!(lit[5].path, "d");

    let mut full = vec![SearchMatch { path: "z".to_string(), byte_offset: 0, end_offset: 0, line: 1, column: 1, snippet: String::new() }];
    let none = scan_texts(&TextMatcher::Literal(b"x"), &docs, &mut full, 1, &None, &None, true).unwrap();
    assert_eq!(none, 0);
    assert_eq!(full.len(), 1);
}

#[test]
fn texts_for_scanning() {
    let docs = vec![("src/a.rs".to_string(), b"1".to_vec()), ("docs/b.md".to_string(), b"2".to_vec())];
    let filter = PathFilter::new(&["src/**".to_string()], &[], &[]).unwrap();
    assert_eq!(allowed_texts(&docs, &filter), vec![("src/a.rs".to_string(), b"1".to_vec())]);

    let mut store = OverlayStore::new();
    store.upsert_modified("m.txt".to_string(), "new".to_string(), HashSet::new());
    store.upsert_deleted("d.txt".to_string());
    let snap = store.snapshot();
    let paths = vec!["d.txt".to_string(), "m.txt".to_string(), "unknown".to_string()];
    assert_eq!(overlay_texts(&paths, &snap), vec![("m.txt".to_string(), b"new".to_vec())]);
}

#[test]
fn white_space_agrees_with_std() {
    for code in 0u32..0x110000 {
        if let Some(c) = char::from_u32(code) {
            assert_eq!(is_whitespace(c), c.is_whitespace(), "code point {code:#x}");
        }
    }
}

#[test]
fn search_preparation() {
    let mut index = two_doc_index();
    let snapshot = OverlayStore::new().snapshot();
    let mut options = SearchOptions::default();
    let planned = plan_candidates(&mut index, "rust", &options, SparseConfig::default(), &snapshot).unwrap();
    assert_eq!(planned.extracted_literals, vec!["rust".to_string()]);
    assert!(!planned.used_fallback);
    assert_eq!(planned.candidates.base_ids, vec![0]);
    assert!(planned.filter.allows("anything"));

    options.exclude = vec!["src/a.txt".to_string()];
    // Nothing within the filter holds the literal: every allowed document stays a candidate.
    let fallback = plan_candidates(&mut index, "rust", &options, SparseConfig::default(), &snapshot).unwrap();
    assert_eq!(fallback.candidates.base_ids, vec![1]);

    options.globs = vec!["[".to_string()];
    assert!(matches!(
        plan_candidates(&mut index, "rust", &options, SparseConfig::default(), &snapshot),
        Err(FastRegexError::Glob(_))
    ));

    let hash_options = HashSearchOptions::default();
    let (_, _, selected) =
        hash_candidates(&mut index, &[hash_gram(b"oth")], HashLogic::Or, &hash_options, &snapshot).unwrap();
    assert_eq!(selected.base_ids, vec![1]);
}

#[test]
fn message_framing_round_trips() {
    let framed = frame_message(b"{\"a\":1}");
    assert_eq!(framed, b"Content-Length: 7\r\n\r\n{\"a\":1}".to_vec());
    assert!(matches!(parse_header_line("Content-Length: 7\r\n"), HeaderLine::ContentLength(7)));
    assert!(matches!(parse_header_line("content-length:12"), HeaderLine::ContentLength(12)));
    assert!(matches!(parse_header_line("CONTENT-LENGTH:  +3 \r\n"), HeaderLine::ContentLength(3)));
    assert!(matches!(parse_header_line("Content-Length: x\r\n"), HeaderLine::InvalidLength));
    assert!(matches!(parse_header_line("Content-Type: json\r\n"), HeaderLine::Other));
    assert!(matches!(parse_header_line("no colon here\n"), HeaderLine::Other));
    assert!(matches!(parse_header_line("\r\n"), HeaderLine::End));
    assert!(matches!(parse_header_line("\n"), HeaderLine::End));
    assert_eq!(frame_message(&[]), b"Content-Length: 0\r\n\r\n".to_vec());
    let big = vec![b'x'; 1234];
    assert!(frame_message(&big).starts_with(b"Content-Length: 1234\r\n\r\n"));
}

#[test]
fn git_output_parsing() {
    assert_eq!(head_commit(true, b"0123abcd\n"), "0123abcd");
    assert_eq!(head_commit(true, b"  \n"), "NO_GIT");
    assert_eq!(head_commit(false, b"0123abcd\n"), "NO_GIT");
    assert_eq!(listed_files(b"src/a.rs\nsrc/b.rs\r\n\nREADME.md"), vec!["src/a.rs", "src/b.rs", "README.md"]);
    assert!(listed_files(b"").is_empty());
    assert_eq!(listed_files(b"x\r"), vec!["x\r"]);
}
