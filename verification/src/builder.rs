use std::collections::HashMap;
use vstd::prelude::*;
use vstd::relations::{sorted_by, total_ordering};
use vstd::utf8::{encode_utf8, valid_utf8};

use crate::error::FastRegexError;
use crate::index::{
    entry_hash, hash_listed, listed_posting, lookup_entry_at, lookup_sorted, pairs_map, parse_docs,
    parse_pairs, parse_posting, snapshot_accepts, u16_at, u32_at, u64_at, doc_records_of, index_hash_list, lookup_file_bytes, posting_offset, postings_file_bytes,
    postings_payload, sorted_pairs, spec_index_hashes, write_lookup, write_postings, BuildConfig,
    BuildStats, DocRecord, DocumentMeta,
};
use crate::roundtrip::{lemma_bigram_roundtrip, lemma_index_roundtrip};
use crate::sparse::{build_bigram_frequency, spec_bigram_frequency};
use crate::text::{chars_less, chars_lt, chars_of, is_valid_utf8, lemma_chars_lt_order};

verus! {

/// What reading a file gave, for indexing.
pub enum Utf8Read {
    /// Valid UTF-8 within the size limit: its bytes are indexed.
    Indexed(Vec<u8>),
    /// Valid UTF-8 beyond the size limit: recorded, not indexed.
    UnindexedUtf8,
    /// Not UTF-8: left out.
    NonUtf8,
    /// Gone: left out.
    Missing,
}

/// Sorts the bytes read from a file (`None` where it did not exist) into
/// what the builder does with it.
pub fn classify_utf8(bytes: Option<Vec<u8>>, max_bytes: usize) -> (r: Utf8Read)
    ensures
        match bytes {
            None => r is Missing,
            Some(b) => if !valid_utf8(b@) {
                r is NonUtf8
            } else if b@.len() > max_bytes {
                r is UnindexedUtf8
            } else {
                r matches Utf8Read::Indexed(x) && x@ == b@
            },
        },
{
    match bytes {
        None => Utf8Read::Missing,
        Some(b) => {
            if !is_valid_utf8(b.as_slice()) {
                Utf8Read::NonUtf8
            } else if b.len() > max_bytes {
                Utf8Read::UnindexedUtf8
            } else {
                Utf8Read::Indexed(b)
            }
        },
    }
}

/// A file offered to the builder: its path relative to the workspace, its
/// size and modification time, and what reading it gave.
pub struct SourceFile {
    pub rel_path: String,
    pub size: u64,
    pub mtime_secs: i64,
    pub content: Utf8Read,
}

/// Everything a build produces: the two files, the lookup entries, and the
/// counts.
pub struct BuiltIndex {
    pub postings: Vec<u8>,
    pub lookup: Vec<u8>,
    pub entries: Vec<(u64, u64)>,
    pub stats: BuildStats,
}

/// Whether `s` starts with `p`.
pub open spec fn starts_with_chars(s: Seq<char>, p: Seq<char>) -> bool {
    p.len() <= s.len() && s.subrange(0, p.len() as int) == p
}

/// `.git/`
pub open spec fn git_dir_prefix() -> Seq<char> {
    seq!['.', 'g', 'i', 't', '/']
}

/// `.fastregex/`
pub open spec fn index_dir_prefix() -> Seq<char> {
    seq!['.', 'f', 'a', 's', 't', 'r', 'e', 'g', 'e', 'x', '/']
}

/// Whether the builder records `f`: it lies outside `.git/` and
/// `.fastregex/`, and it was read as UTF-8.
pub open spec fn keep_file(f: SourceFile) -> bool {
    &&& !starts_with_chars(f.rel_path@, git_dir_prefix())
    &&& !starts_with_chars(f.rel_path@, index_dir_prefix())
    &&& (f.content is Indexed || f.content is UnindexedUtf8)
}

/// The bytes to index of `f` (none unless it is indexed).
pub open spec fn file_text(f: SourceFile) -> Seq<u8> {
    match f.content {
        Utf8Read::Indexed(b) => b@,
        _ => Seq::empty(),
    }
}

/// The files that the builder records, in input order.
pub open spec fn kept_files(files: Seq<SourceFile>) -> Seq<SourceFile>
    decreases files.len(),
{
    if files.len() == 0 {
        Seq::empty()
    } else if keep_file(files.last()) {
        kept_files(files.drop_last()).push(files.last())
    } else {
        kept_files(files.drop_last())
    }
}

/// The bigram frequencies counted over the recorded, indexed files in input
/// order.
pub open spec fn files_frequency(files: Seq<SourceFile>) -> Map<u16, u32>
    decreases files.len(),
{
    if files.len() == 0 {
        Map::empty()
    } else {
        let prev = files_frequency(files.drop_last());
        let f = files.last();
        if keep_file(f) && f.content is Indexed {
            spec_bigram_frequency(prev, file_text(f))
        } else {
            prev
        }
    }
}

/// The paths of the files.
pub open spec fn path_seqs(kept: Seq<SourceFile>) -> Seq<Seq<char>> {
    kept.map_values(|f: SourceFile| f.rel_path@)
}

/// Order on positions: by path, and by position between equal paths.
pub open spec fn pos_leq(paths: Seq<Seq<char>>) -> spec_fn(usize, usize) -> bool {
    |a: usize, b: usize|
        chars_lt(paths[a as int], paths[b as int]) || (paths[a as int] == paths[b as int] && a <= b)
}

/// The positions `0..n`.
pub open spec fn positions(n: nat) -> Seq<usize> {
    Seq::new(n, |i: int| i as usize)
}

/// The recorded files' positions sorted by path (a stable sort).
pub open spec fn doc_order(kept: Seq<SourceFile>) -> Seq<usize> {
    positions(kept.len()).sort_by(pos_leq(path_seqs(kept)))
}

/// The file that becomes document `k`.
pub open spec fn doc_source(files: Seq<SourceFile>, k: int) -> SourceFile {
    kept_files(files)[doc_order(kept_files(files))[k] as int]
}

/// The document records of a build: document `k` is the `k`-th recorded
/// file by path.
pub open spec fn built_records(files: Seq<SourceFile>) -> Seq<DocRecord> {
    Seq::new(
        kept_files(files).len(),
        |k: int|
            DocRecord {
                doc_id: k as u32,
                path: encode_utf8(doc_source(files, k).rel_path@),
                size: doc_source(files, k).size,
                mtime_secs: doc_source(files, k).mtime_secs,
                indexed: doc_source(files, k).content is Indexed,
            },
    )
}

/// The gram hashes of document `k` (none unless it is indexed).
pub open spec fn doc_hash_set(files: Seq<SourceFile>, cfg: BuildConfig, k: int) -> Set<u64> {
    if doc_source(files, k).content is Indexed {
        spec_index_hashes(file_text(doc_source(files, k)), files_frequency(files), cfg)
    } else {
        Set::empty()
    }
}

/// The ids of the documents below `m` that hold hash `h`, in order.
pub open spec fn bucket_upto(files: Seq<SourceFile>, cfg: BuildConfig, h: u64, m: int) -> Seq<u32>
    decreases m,
{
    if m <= 0 {
        Seq::empty()
    } else if doc_hash_set(files, cfg, m - 1).contains(h) {
        bucket_upto(files, cfg, h, m - 1).push((m - 1) as u32)
    } else {
        bucket_upto(files, cfg, h, m - 1)
    }
}

/// The hashes held by the documents below `m`.
pub open spec fn hashes_upto(files: Seq<SourceFile>, cfg: BuildConfig, m: int) -> Set<u64>
    decreases m,
{
    if m <= 0 {
        Set::empty()
    } else {
        hashes_upto(files, cfg, m - 1).union(doc_hash_set(files, cfg, m - 1))
    }
}

/// Whether the hashes rise strictly.
pub open spec fn strictly_increasing(s: Seq<u64>) -> bool {
    forall|i: int, j: int| 0 <= i < j < s.len() ==> s[i] < s[j]
}


/// The posting lists of a build, for the given hashes.
pub open spec fn built_lists(files: Seq<SourceFile>, cfg: BuildConfig, hs: Seq<u64>) -> Seq<Seq<u32>> {
    hs.map_values(|h: u64| bucket_upto(files, cfg, h, kept_files(files).len() as int))
}

fn has_prefix_chars(s: &[char], p: &[char]) -> (r: bool)
    ensures
        r == starts_with_chars(s@, p@),
{
    if p.len() > s.len() {
        return false;
    }
    let mut i: usize = 0;
    while i < p.len()
        invariant
            p@.len() <= s@.len(),
            i <= p@.len(),
            forall|k: int| 0 <= k < i ==> s@[k] == p@[k],
        decreases p@.len() - i,
    {
        if s[i] != p[i] {
            assert(s@.subrange(0, p@.len() as int)[i as int] != p@[i as int]);
            return false;
        }
        i += 1;
    }
    assert(s@.subrange(0, p@.len() as int) =~= p@);
    true
}

/// Whether the builder records `f`.
fn keeps(f: &SourceFile) -> (r: bool)
    ensures
        r == keep_file(*f),
{
    let path = chars_of(f.rel_path.as_str());
    let git = vec!['.', 'g', 'i', 't', '/'];
    let own = vec!['.', 'f', 'a', 's', 't', 'r', 'e', 'g', 'e', 'x', '/'];
    assert(git@ =~= git_dir_prefix());
    assert(own@ =~= index_dir_prefix());
    if has_prefix_chars(path.as_slice(), git.as_slice()) {
        return false;
    }
    if has_prefix_chars(path.as_slice(), own.as_slice()) {
        return false;
    }
    match &f.content {
        Utf8Read::Indexed(_) => true,
        Utf8Read::UnindexedUtf8 => true,
        _ => false,
    }
}

proof fn lemma_pos_leq_total(paths: Seq<Seq<char>>)
    ensures
        total_ordering(pos_leq(paths)),
{
    let r = pos_leq(paths);
    assert forall|x: usize| #[trigger] r(x, x) by {
    }
    assert forall|x: usize, y: usize| #[trigger] r(x, y) && #[trigger] r(y, x) implies x == y by {
        lemma_chars_lt_order(paths[x as int], paths[y as int], paths[x as int]);
    }
    assert forall|x: usize, y: usize, z: usize| #[trigger] r(x, y) && #[trigger] r(y, z) implies r(
        x,
        z,
    ) by {
        lemma_chars_lt_order(paths[x as int], paths[y as int], paths[z as int]);
    }
    assert forall|x: usize, y: usize| #[trigger] r(x, y) || #[trigger] r(y, x) by {
        lemma_chars_lt_order(paths[x as int], paths[y as int], paths[x as int]);
    }
}


/// The positions `0..paths.len()` sorted by path, ties by position (a
/// binary insertion sort).
fn sort_positions(paths: &Vec<Vec<char>>) -> (out: Vec<usize>)
    ensures
        out@ == positions(paths@.len()).sort_by(pos_leq(paths@.map_values(|p: Vec<char>| p@))),
{
    let ghost ps = paths@.map_values(|p: Vec<char>| p@);
    let ghost r = pos_leq(ps);
    let mut out: Vec<usize> = Vec::new();
    proof {
        lemma_pos_leq_total(ps);
        assert(out@ =~= positions(0));
    }
    for i in 0..paths.len()
        invariant
            ps == paths@.map_values(|p: Vec<char>| p@),
            r == pos_leq(ps),
            total_ordering(r),
            sorted_by(out@, r),
            out@.to_multiset() == positions(i as nat).to_multiset(),
            forall|k: int| 0 <= k < out@.len() ==> #[trigger] out@[k] < i,
            out@.len() == i,
    {
        let mut lo: usize = 0;
        let mut hi: usize = out.len();
        while lo < hi
            invariant
                ps == paths@.map_values(|p: Vec<char>| p@),
                r == pos_leq(ps),
                total_ordering(r),
                sorted_by(out@, r),
                forall|k: int| 0 <= k < out@.len() ==> #[trigger] out@[k] < i,
                out@.len() == i,
                i < paths@.len(),
                lo <= hi <= out@.len(),
                forall|k: int| 0 <= k < lo ==> !chars_lt(ps[i as int], ps[#[trigger] out@[k] as int]),
                forall|k: int| hi <= k < out@.len() ==> chars_lt(ps[i as int], ps[#[trigger] out@[k] as int]),
            decreases hi - lo,
        {
            let mid = lo + (hi - lo) / 2;
            let j = out[mid];
            if chars_less(paths[i].as_slice(), paths[j].as_slice()) {
                proof {
                    assert forall|k: int| mid <= k < out@.len() implies chars_lt(
                        ps[i as int],
                        ps[#[trigger] out@[k] as int],
                    ) by {
                        if k > mid {
                            assert(r(out@[mid as int], out@[k]));
                            lemma_chars_lt_order(ps[i as int], ps[out@[mid as int] as int], ps[out@[k] as int]);
                        }
                    }
                }
                hi = mid;
            } else {
                proof {
                    assert forall|k: int| 0 <= k < mid + 1 implies !chars_lt(
                        ps[i as int],
                        ps[#[trigger] out@[k] as int],
                    ) by {
                        if k < mid {
                            assert(r(out@[k], out@[mid as int]));
                            lemma_chars_lt_order(ps[i as int], ps[out@[k] as int], ps[out@[mid as int] as int]);
                            lemma_chars_lt_order(ps[out@[k] as int], ps[i as int], ps[out@[mid as int] as int]);
                        }
                    }
                }
                lo = mid + 1;
            }
        }
        let ghost old_out = out@;
        out.insert(lo, i);
        proof {
            vstd::seq_lib::to_multiset_insert(old_out, lo as int, i);
            vstd::seq_lib::to_multiset_build(positions(i as nat), i);
            assert(positions((i + 1) as nat) =~= positions(i as nat).push(i));
            assert forall|a: int, b: int| 0 <= a < b < out@.len() implies #[trigger] r(out@[a], out@[b]) by {
                if b < lo {
                    assert(out@[a] == old_out[a] && out@[b] == old_out[b]);
                } else if b == lo {
                    assert(out@[a] == old_out[a]);
                    assert(!chars_lt(ps[i as int], ps[old_out[a] as int]));
                    lemma_chars_lt_order(ps[old_out[a] as int], ps[i as int], ps[i as int]);
                } else if a == lo {
                    assert(out@[b] == old_out[b - 1]);
                    assert(chars_lt(ps[i as int], ps[old_out[b - 1] as int]));
                } else if a < lo {
                    assert(out@[a] == old_out[a] && out@[b] == old_out[b - 1]);
                } else {
                    assert(out@[a] == old_out[a - 1] && out@[b] == old_out[b - 1]);
                }
            }
            assert forall|k: int| 0 <= k < out@.len() implies #[trigger] out@[k] < i + 1 by {
                if k < lo {
                    assert(out@[k] == old_out[k]);
                } else if k > lo {
                    assert(out@[k] == old_out[k - 1]);
                }
            }
        }
    }
    proof {
        positions(paths@.len()).lemma_sort_by_ensures(r);
        vstd::seq_lib::lemma_sorted_unique(out@, positions(paths@.len()).sort_by(r), r);
    }
    out
}

/// The keys, which hold no repeats, in increasing order (a binary
/// insertion sort).
fn sort_hashes(keys: &Vec<u64>) -> (out: Vec<u64>)
    requires
        keys@.no_duplicates(),
    ensures
        strictly_increasing(out@),
        out@.to_set() == keys@.to_set(),
        out@.len() == keys@.len(),
{
    let mut out: Vec<u64> = Vec::new();
    assert(keys@.take(0).to_set() =~= out@.to_set());
    for i in 0..keys.len()
        invariant
            keys@.no_duplicates(),
            strictly_increasing(out@),
            out@.to_set() == keys@.take(i as int).to_set(),
            out@.len() == i,
    {
        let x = keys[i];
        assert(!out@.contains(x)) by {
            if out@.contains(x) {
                assert(keys@.take(i as int).to_set().contains(x));
                let k = choose|k: int| 0 <= k < i && keys@.take(i as int)[k] == x;
                assert(keys@[k] == keys@[i as int]);
            }
        }
        let mut lo: usize = 0;
        let mut hi: usize = out.len();
        while lo < hi
            invariant
                strictly_increasing(out@),
                !out@.contains(x),
                lo <= hi <= out@.len(),
                forall|k: int| 0 <= k < lo ==> #[trigger] out@[k] < x,
                forall|k: int| hi <= k < out@.len() ==> x < #[trigger] out@[k],
            decreases hi - lo,
        {
            let mid = lo + (hi - lo) / 2;
            if x < out[mid] {
                hi = mid;
            } else {
                assert(out@[mid as int] != x);
                lo = mid + 1;
            }
        }
        let ghost old_out = out@;
        out.insert(lo, x);
        proof {
            assert(keys@.take(i + 1) =~= keys@.take(i as int).push(x));
            keys@.take(i as int).lemma_push_to_set_commute(x);
            assert(out@.to_set() =~= old_out.to_set().insert(x)) by {
                assert forall|y: u64| out@.to_set().contains(y) <==> old_out.to_set().insert(x).contains(
                    y,
                ) by {
                    if out@.contains(y) {
                        let k = choose|k: int| 0 <= k < out@.len() && out@[k] == y;
                        if k < lo {
                            assert(old_out[k] == y);
                        } else if k > lo {
                            assert(old_out[k - 1] == y);
                        }
                    }
                    if old_out.contains(y) {
                        let k = choose|k: int| 0 <= k < old_out.len() && old_out[k] == y;
                        if k < lo {
                            assert(out@[k] == y);
                        } else {
                            assert(out@[k + 1] == y);
                        }
                    }
                    if y == x {
                        assert(out@[lo as int] == x);
                    }
                }
            }
            assert forall|a: int, b: int| 0 <= a < b < out@.len() implies out@[a] < out@[b] by {
                if b < lo {
                    assert(out@[a] == old_out[a] && out@[b] == old_out[b]);
                } else if b == lo {
                    assert(out@[a] == old_out[a]);
                } else if a == lo {
                    assert(out@[b] == old_out[b - 1]);
                } else if a < lo {
                    assert(out@[a] == old_out[a] && out@[b] == old_out[b - 1]);
                } else {
                    assert(out@[a] == old_out[a - 1] && out@[b] == old_out[b - 1]);
                }
            }
        }
    }
    assert(keys@.take(keys@.len() as int) =~= keys@);
    out
}

/// Whether every record's path fits the 16-bit length field.
pub open spec fn records_fit(recs: Seq<DocRecord>) -> bool {
    forall|k: int| 0 <= k < recs.len() ==> #[trigger] recs[k].path.len() <= u16::MAX
}

/// Whether `out` is what a build of `files` produces.
pub open spec fn build_result(
    files: Seq<SourceFile>,
    cfg: BuildConfig,
    repo: Seq<u8>,
    commit: Seq<u8>,
    out: BuiltIndex,
) -> bool {
    let recs = built_records(files);
    let hs = out.entries@.map_values(|e: (u64, u64)| e.0);
    let lists = built_lists(files, cfg, hs);
    &&& strictly_increasing(hs)
    &&& hs.to_set() == hashes_upto(files, cfg, recs.len() as int)
    &&& out.postings@ == postings_file_bytes(
        repo,
        commit,
        recs,
        lists,
        sorted_pairs(files_frequency(files)),
    )
    &&& forall|i: int|
        0 <= i < hs.len() ==> #[trigger] out.entries@[i].1 == posting_offset(recs, lists, i) as u64
    &&& postings_payload(recs, lists, sorted_pairs(files_frequency(files))).len() + 256 <= u64::MAX
    &&& out.lookup@ == lookup_file_bytes(out.entries@)
    &&& out.stats.doc_count == recs.len()
    &&& out.stats.posting_count == hs.len()
}

proof fn lemma_kept_step(files: Seq<SourceFile>, i: int)
    requires
        0 <= i < files.len(),
    ensures
        kept_files(files.take(i + 1)) == if keep_file(files[i]) {
            kept_files(files.take(i)).push(files[i])
        } else {
            kept_files(files.take(i))
        },
        files_frequency(files.take(i + 1)) == if keep_file(files[i]) && files[i].content is Indexed {
            spec_bigram_frequency(files_frequency(files.take(i)), file_text(files[i]))
        } else {
            files_frequency(files.take(i))
        },
{
    assert(files.take(i + 1).drop_last() =~= files.take(i));
    assert(files.take(i + 1).last() == files[i]);
}

/// Builds the index files from the files of a repository: records each
/// UTF-8 file outside `.git/` and `.fastregex/`, numbers them by path,
/// counts bigrams over the indexed ones, files each document under its gram
/// hashes, and encodes `postings.bin` and `lookup.bin`. Fails where a path
/// is too long for its length field or the file would outgrow 64-bit offsets.
pub fn build_index(files: &[SourceFile], repo_id: &str, commit_id: &str, config: &BuildConfig) -> (r:
    Result<BuiltIndex, FastRegexError>)
    ensures
        r matches Ok(out) ==> build_result(
            files@,
            *config,
            encode_utf8(repo_id@),
            encode_utf8(commit_id@),
            out,
        ),
        r matches Err(e) ==> e is Internal && !(records_fit(built_records(files@)) && forall|hs: Seq<u64>|
            strictly_increasing(hs) && hs.to_set() == hashes_upto(
                files@,
                *config,
                kept_files(files@).len() as int,
            ) ==> postings_payload(
                built_records(files@),
                built_lists(files@, *config, hs),
                sorted_pairs(files_frequency(files@)),
            ).len() + 256 <= u64::MAX),
{
    // Record the files to keep and count bigrams over the indexed ones.
    let mut kept: Vec<usize> = Vec::new();
    let mut freq: HashMap<u16, u32> = HashMap::new();
    for i in 0..files.len()
        invariant
            kept@.len() == kept_files(files@.take(i as int)).len(),
            forall|j: int| 0 <= j < kept@.len() ==> #[trigger] kept@[j] < i,
            forall|j: int| 0 <= j < kept@.len() ==> files@[#[trigger] kept@[j] as int] == kept_files(
                files@.take(i as int),
            )[j],
            freq@ == files_frequency(files@.take(i as int)),
    {
        proof {
            lemma_kept_step(files@, i as int);
        }
        let f = &files[i];
        if keeps(f) {
            match &f.content {
                Utf8Read::Indexed(b) => {
                    build_bigram_frequency(b.as_slice(), &mut freq);
                },
                _ => {},
            }
            kept.push(i);
        }
    }
    assert(files@.take(files@.len() as int) =~= files@);
    let ghost kf = kept_files(files@);
    let n = kept.len();
    // Number the recorded files by path.
    let mut paths: Vec<Vec<char>> = Vec::new();
    for j in 0..n
        invariant
            n == kept@.len(),
            n == kf.len(),
            forall|t: int| 0 <= t < n ==> files@[#[trigger] kept@[t] as int] == kf[t],
            forall|t: int| 0 <= t < n ==> #[trigger] kept@[t] < files@.len(),
            paths@.len() == j,
            forall|t: int| 0 <= t < j ==> #[trigger] paths@[t]@ == kf[t].rel_path@,
    {
        paths.push(chars_of(files[kept[j]].rel_path.as_str()));
    }
    let ghost ps = path_seqs(kf);
    assert(paths@.map_values(|p: Vec<char>| p@) =~= ps);
    let order = sort_positions(&paths);
    proof {
        lemma_pos_leq_total(ps);
        positions(n as nat).lemma_sort_by_ensures(pos_leq(ps));
        assert(order@ == doc_order(kf));
    }
    assert forall|k: int| 0 <= k < order@.len() implies #[trigger] order@[k] < n by {
        assert(order@.contains(order@[k]));
        if !positions(n as nat).contains(order@[k]) {
            assert(!order@.contains(order@[k]));
        } else {
            let t = choose|t: int| 0 <= t < n && positions(n as nat)[t] == order@[k];
        }
    }
    assert(order@.len() == n) by {
        positions(n as nat).to_multiset_ensures();
        order@.to_multiset_ensures();
    }
    let mut docs: Vec<DocumentMeta> = Vec::new();
    for k in 0..n
        invariant
            n == kept@.len(),
            n == kf.len(),
            kf == kept_files(files@),
            order@ == doc_order(kf),
            order@.len() == n,
            forall|t: int| 0 <= t < n ==> #[trigger] order@[t] < n,
            forall|t: int| 0 <= t < n ==> files@[#[trigger] kept@[t] as int] == kf[t],
            forall|t: int| 0 <= t < n ==> #[trigger] kept@[t] < files@.len(),
            docs@.len() == k,
            forall|t: int| 0 <= t < k ==> #[trigger] doc_records_of(docs@)[t] == built_records(files@)[t],
    {
        let src = &files[kept[order[k]]];
        let indexed = match &src.content {
            Utf8Read::Indexed(_) => true,
            _ => false,
        };
        let doc = DocumentMeta {
            doc_id: k as u32,
            path: src.rel_path.clone(),
            size: src.size,
            mtime_secs: src.mtime_secs,
            indexed,
        };
        proof {
            assert(*src == doc_source(files@, k as int));
        }
        let ghost prev = docs@;
        docs.push(doc);
        proof {
            assert forall|t: int| 0 <= t < k + 1 implies #[trigger] doc_records_of(docs@)[t]
                == built_records(files@)[t] by {
                if t < k {
                    assert(docs@[t] == prev[t]);
                    assert(doc_records_of(prev)[t] == built_records(files@)[t]);
                }
            }
        }
    }
    assert(doc_records_of(docs@) =~= built_records(files@));
    // File each document under its gram hashes.
    let mut buckets: HashMap<u64, Vec<u32>> = HashMap::new();
    let mut keys: Vec<u64> = Vec::new();
    assert(buckets@.dom() =~= hashes_upto(files@, *config, 0));
    for k in 0..n
        invariant
            n == kept@.len(),
            n == kf.len(),
            kf == kept_files(files@),
            order@ == doc_order(kf),
            order@.len() == n,
            forall|t: int| 0 <= t < n ==> #[trigger] order@[t] < n,
            forall|t: int| 0 <= t < n ==> files@[#[trigger] kept@[t] as int] == kf[t],
            forall|t: int| 0 <= t < n ==> #[trigger] kept@[t] < files@.len(),
            freq@ == files_frequency(files@),
            buckets@.dom() == hashes_upto(files@, *config, k as int),
            forall|h: u64| #[trigger] buckets@.contains_key(h) ==> buckets@[h]@ == bucket_upto(
                files@,
                *config,
                h,
                k as int,
            ),
            keys@.no_duplicates(),
            keys@.to_set() == buckets@.dom(),
    {
        let src = &files[kept[order[k]]];
        proof {
            assert(*src == doc_source(files@, k as int));
        }
        match &src.content {
            Utf8Read::Indexed(bytes) => {
                let (_set, list) = index_hash_list(bytes.as_slice(), &freq, config);
                let ghost dh = doc_hash_set(files@, *config, k as int);
                assert(list@.to_set() == dh);
                let ghost before = buckets@;
                for j in 0..list.len()
                    invariant
                        list@.no_duplicates(),
                        buckets@.dom() == hashes_upto(files@, *config, k as int).union(
                            list@.take(j as int).to_set(),
                        ),
                        forall|h: u64| #[trigger] buckets@.contains_key(h) ==> buckets@[h]@ == if list@.take(
                            j as int,
                        ).contains(h) {
                            bucket_upto(files@, *config, h, k as int).push(k as u32)
                        } else {
                            bucket_upto(files@, *config, h, k as int)
                        },
                        forall|h: u64| #[trigger] before.contains_key(h) ==> before[h]@ == bucket_upto(
                            files@,
                            *config,
                            h,
                            k as int,
                        ),
                        before.dom() == hashes_upto(files@, *config, k as int),
                        keys@.no_duplicates(),
                        keys@.to_set() == buckets@.dom(),
                {
                    let h = list[j];
                    proof {
                        assert(!list@.take(j as int).contains(h)) by {
                            if list@.take(j as int).contains(h) {
                                let t = choose|t: int| 0 <= t < j && list@.take(j as int)[t] == h;
                                assert(list@[t] == list@[j as int]);
                            }
                        }
                        assert(list@.take(j + 1) =~= list@.take(j as int).push(h));
                        list@.take(j as int).lemma_push_to_set_commute(h);
                    }
                    let ghost prior = buckets@;
                    match buckets.remove(&h) {
                        Some(mut v) => {
                            assert(prior.contains_key(h) && v == prior[h]);
                            assert(v@ == bucket_upto(files@, *config, h, k as int));
                            v.push(k as u32);
                            buckets.insert(h, v);
                            proof {
                                assert(buckets@.dom() =~= prior.dom());
                                assert(keys@.to_set() =~= buckets@.dom());
                            }
                        },
                        None => {
                            let mut v: Vec<u32> = Vec::new();
                            v.push(k as u32);
                            proof {
                                assert(!before.contains_key(h));
                                assert(bucket_upto(files@, *config, h, k as int) =~= Seq::<u32>::empty())
                                    by {
                                    lemma_bucket_empty(files@, *config, h, k as int);
                                }
                                assert(v@ =~= Seq::<u32>::empty().push(k as u32));
                            }
                            buckets.insert(h, v);
                            let ghost old_keys = keys@;
                            keys.push(h);
                            proof {
                                assert(!prior.dom().contains(h));
                                assert(buckets@.dom() =~= prior.dom().insert(h));
                                old_keys.lemma_push_to_set_commute(h);
                                assert(old_keys.push(h) =~= keys@);
                                assert(keys@.to_set() =~= buckets@.dom());
                                assert forall|a: int, b: int| 0 <= a < b < keys@.len() implies keys@[a]
                                    != keys@[b] by {
                                    if b == keys@.len() - 1 {
                                        assert(prior.dom().contains(keys@[a]));
                                    }
                                }
                            }
                        },
                    }
                    proof {
                        assert(buckets@.dom() =~= hashes_upto(files@, *config, k as int).union(
                            list@.take(j + 1).to_set(),
                        ));
                        assert(keys@.to_set() =~= buckets@.dom());
                        assert forall|g: u64| #[trigger] buckets@.contains_key(g) implies buckets@[g]@
                            == if list@.take(j + 1).contains(g) {
                            bucket_upto(files@, *config, g, k as int).push(k as u32)
                        } else {
                            bucket_upto(files@, *config, g, k as int)
                        } by {
                            if g != h {
                                assert(prior.contains_key(g));
                                assert(list@.take(j + 1).contains(g) == list@.take(j as int).contains(g))
                                    by {
                                    if list@.take(j + 1).contains(g) {
                                        let t = choose|t: int| #![trigger list@.take(j + 1)[t]] 0 <= t < j + 1 && list@.take(j + 1)[t] == g;
                                        assert(list@.take(j as int)[t] == g);
                                    }
                                    if list@.take(j as int).contains(g) {
                                        let t = choose|t: int| #![trigger list@.take(j as int)[t]] 0 <= t < j && list@.take(j as int)[t] == g;
                                        assert(list@.take(j + 1)[t] == g);
                                    }
                                }
                            } else {
                                assert(list@.take(j + 1)[j as int] == h);
                            }
                        }
                    }
                }
                assert(list@.take(list@.len() as int) =~= list@);
                proof {
                    assert(buckets@.dom() =~= hashes_upto(files@, *config, k + 1));
                }
            },
            _ => {
                proof {
                    assert(doc_hash_set(files@, *config, k as int) =~= Set::<u64>::empty());
                    assert(buckets@.dom() =~= hashes_upto(files@, *config, k + 1));
                }
            },
        }
    }
    // The posting lists, by increasing hash.
    let sorted = sort_hashes(&keys);
    let mut postings: Vec<(u64, Vec<u32>)> = Vec::new();
    for i in 0..sorted.len()
        invariant
            strictly_increasing(sorted@),
            sorted@.to_set() == hashes_upto(files@, *config, n as int),
            n == kf.len(),
            kf == kept_files(files@),
            forall|t: int| i <= t < sorted@.len() ==> #[trigger] buckets@.contains_key(sorted@[t]),
            forall|h: u64| #[trigger] buckets@.contains_key(h) ==> buckets@[h]@ == bucket_upto(
                files@,
                *config,
                h,
                n as int,
            ),
            postings@.len() == i,
            forall|t: int|
                #![trigger postings@[t]]
                0 <= t < i ==> postings@[t].0 == sorted@[t] && postings@[t].1@ == bucket_upto(
                    files@,
                    *config,
                    sorted@[t],
                    n as int,
                ),
    {
        let h = sorted[i];
        let ghost prior = buckets@;
        assert(prior.contains_key(sorted@[i as int]));
        let v = match buckets.remove(&h) {
            Some(v) => v,
            None => Vec::new(),
        };
        assert(v@ == bucket_upto(files@, *config, h, n as int));
        let ghost prev = postings@;
        proof {
            assert forall|t: int| i + 1 <= t < sorted@.len() implies #[trigger] buckets@.contains_key(
                sorted@[t],
            ) by {
                assert(sorted@[t] != h);
                assert(prior.contains_key(sorted@[t]));
            }
        }
        postings.push((h, v));
        proof {
            assert forall|t: int| #![trigger postings@[t]] 0 <= t < i + 1 implies postings@[t].0 == sorted@[t]
                && postings@[t].1@ == bucket_upto(files@, *config, sorted@[t], n as int) by {
                if t < i {
                    assert(postings@[t] == prev[t]);
                }
            }
        }
    }
    let ghost hs = sorted@;
    let ghost lists = built_lists(files@, *config, hs);
    assert(crate::index::posting_lists(postings@) =~= lists);
    let written = write_postings(repo_id, commit_id, docs.as_slice(), postings.as_slice(), &freq);
    let (file, entries) = match written {
        Ok(x) => x,
        Err(e) => {
            proof {
                assert(crate::index::paths_fit(docs@) <==> records_fit(built_records(files@))) by {
                    assert forall|t: int| 0 <= t < docs@.len() implies #[trigger] encode_utf8(
                        docs@[t].path@,
                    ) == built_records(files@)[t].path by {
                        assert(doc_records_of(docs@)[t] == built_records(files@)[t]);
                    }
                }
            }
            return Err(e);
        },
    };
    let lookup = write_lookup(entries.as_slice());
    let stats = BuildStats { doc_count: n, posting_count: entries.len() };
    let out = BuiltIndex { postings: file, lookup, entries, stats };
    proof {
        assert(out.entries@.map_values(|e: (u64, u64)| e.0) =~= hs);
    }
    Ok(out)
}

proof fn lemma_bucket_empty(files: Seq<SourceFile>, cfg: BuildConfig, h: u64, m: int)
    requires
        !hashes_upto(files, cfg, m).contains(h),
    ensures
        bucket_upto(files, cfg, h, m) == Seq::<u32>::empty(),
    decreases m,
{
    if m > 0 {
        lemma_bucket_empty(files, cfg, h, m - 1);
    }
}

proof fn lemma_bucket_len(files: Seq<SourceFile>, cfg: BuildConfig, h: u64, m: int)
    requires
        m >= 0,
    ensures
        bucket_upto(files, cfg, h, m).len() <= m,
    decreases m,
{
    if m > 0 {
        lemma_bucket_len(files, cfg, h, m - 1);
    }
}

/// A built index loads, and reads back what was built: the loader accepts
/// the two files, finds the documents and bigram frequencies of the build,
/// the lookup entries are sorted for binary search, and the posting list
/// listed for each built hash is the list of documents that hold it.
pub proof fn lemma_build_loads(
    files: Seq<SourceFile>,
    cfg: BuildConfig,
    repo: Seq<u8>,
    commit: Seq<u8>,
    out: BuiltIndex,
)
    requires
        build_result(files, cfg, repo, commit, out),
        repo.len() <= 64,
        commit.len() <= 64,
        records_fit(built_records(files)),
        kept_files(files).len() <= u32::MAX,
        out.entries@.len() <= u32::MAX,
    ensures
        ({
            let p = out.postings@;
            let l = out.lookup@;
            let recs = built_records(files);
            let count = u32_at(l, 20) as nat;
            &&& snapshot_accepts(p, l)
            &&& count == out.entries@.len()
            &&& p.subrange(56, 56 + u16_at(p, 52)) == repo
            &&& p.subrange(120, 120 + u16_at(p, 54)) == commit
            &&& parse_docs(p, u64_at(p, 20) as int, u64_at(p, 28) as int, u32_at(p, 44) as nat)
                == Some(recs)
            &&& parse_pairs(p, u64_at(p, 36) as int) matches Some(pairs) && pairs_map(pairs)
                == files_frequency(files)
            &&& lookup_sorted(l, count)
            &&& forall|h: u64|
                #[trigger] hashes_upto(files, cfg, recs.len() as int).contains(h) ==> listed_posting(
                    p,
                    l,
                    count,
                    h,
                    bucket_upto(files, cfg, h, recs.len() as int),
                )
            &&& forall|h: u64|
                !hashes_upto(files, cfg, recs.len() as int).contains(h) ==> !#[trigger] hash_listed(
                    l,
                    count,
                    h,
                )
        }),
{
    let recs = built_records(files);
    let n = recs.len() as int;
    let hs = out.entries@.map_values(|e: (u64, u64)| e.0);
    let lists = built_lists(files, cfg, hs);
    let freq = files_frequency(files);
    lemma_bigram_roundtrip(freq);
    assert forall|i: int| 0 <= i < lists.len() implies #[trigger] lists[i].len() <= u32::MAX by {
        lemma_bucket_len(files, cfg, hs[i], n);
    }
    assert forall|k: int| 0 <= k < recs.len() implies #[trigger] recs[k].path.len() <= u16::MAX by {
    }
    lemma_index_roundtrip(repo, commit, recs, lists, sorted_pairs(freq), hs);
    let e = Seq::new(lists.len(), |i: int| (hs[i], crate::index::posting_offset(recs, lists, i) as u64));
    assert forall|i: int| 0 <= i < e.len() implies e[i] == out.entries@[i] by {
        assert(hs[i] == out.entries@[i].0);
    }
    assert(e =~= out.entries@);
    let p = out.postings@;
    let l = out.lookup@;
    let count = u32_at(l, 20) as nat;
    assert forall|i: int| 0 <= i < count implies #[trigger] entry_hash(l, i) == hs[i] by {
        assert(lookup_entry_at(l, i) == Some(e[i]));
    }
    assert(lookup_sorted(l, count)) by {
        assert forall|i: int| 0 <= i < count implies (#[trigger] lookup_entry_at(l, i)) is Some by {
            assert(lookup_entry_at(l, i) == Some(e[i]));
        }
        assert forall|i: int, j: int| 0 <= i < j < count implies #[trigger] entry_hash(l, i)
            < #[trigger] entry_hash(l, j) by {
            assert(entry_hash(l, i) == hs[i]);
            assert(entry_hash(l, j) == hs[j]);
        }
    }
    assert forall|h: u64| #[trigger] hashes_upto(files, cfg, n).contains(h) implies listed_posting(
        p,
        l,
        count,
        h,
        bucket_upto(files, cfg, h, n),
    ) by {
        assert(hs.to_set().contains(h));
        let i = choose|i: int| 0 <= i < hs.len() && hs[i] == h;
        assert(lookup_entry_at(l, i) == Some(e[i]));
        assert(parse_posting(p, e[i].1 as int) == Some(lists[i]));
        assert(crate::index::entry_names(l, i, h));
    }
    assert forall|h: u64| !hashes_upto(files, cfg, n).contains(h) implies !#[trigger] hash_listed(
        l,
        count,
        h,
    ) by {
        if hash_listed(l, count, h) {
            let i = choose|i: int| #![trigger lookup_entry_at(l, i)] 0 <= i < count && crate::index::entry_names(l, i, h);
            assert(lookup_entry_at(l, i) == Some(e[i]));
            assert(hs.to_set().contains(hs[i]));
        }
    }
}

/// The file at `i` is recorded exactly when it was read as UTF-8 and its
/// path does not lie under the directory `.git/` or `.fastregex/`: a path
/// that merely starts with `.git` (`.github/...`, `.gitignore`) is recorded.
pub proof fn lemma_recorded_files(files: Seq<SourceFile>, i: int)
    requires
        0 <= i < files.len(),
    ensures
        kept_files(files).contains(files[i]) <==> {
            &&& !starts_with_chars(files[i].rel_path@, seq!['.', 'g', 'i', 't', '/'])
            &&& !starts_with_chars(
                files[i].rel_path@,
                seq!['.', 'f', 'a', 's', 't', 'r', 'e', 'g', 'e', 'x', '/'],
            )
            &&& (files[i].content is Indexed || files[i].content is UnindexedUtf8)
        },
{
    lemma_kept_members(files);
    assert(git_dir_prefix() =~= seq!['.', 'g', 'i', 't', '/']);
    assert(index_dir_prefix() =~= seq!['.', 'f', 'a', 's', 't', 'r', 'e', 'g', 'e', 'x', '/']);
    if kept_files(files).contains(files[i]) {
        let j = choose|j: int| 0 <= j < files.len() && files[j] == files[i] && keep_file(files[j]);
    }
}

proof fn lemma_kept_members(files: Seq<SourceFile>)
    ensures
        forall|x: SourceFile|
            kept_files(files).contains(x) <==> exists|j: int| 0 <= j < files.len() && files[j] == x && keep_file(
                files[j],
            ),
    decreases files.len(),
{
    if files.len() > 0 {
        let pre = files.drop_last();
        lemma_kept_members(pre);
        let k = kept_files(files);
        let kp = kept_files(pre);
        assert forall|x: SourceFile| k.contains(x) <==> exists|j: int|
            0 <= j < files.len() && files[j] == x && keep_file(files[j]) by {
            if k.contains(x) {
                let t = choose|t: int| 0 <= t < k.len() && k[t] == x;
                if t < kp.len() && (keep_file(files.last()) ==> t < kp.len()) {
                    assert(k[t] == kp[t]) by {
                        if keep_file(files.last()) {
                            assert(k == kp.push(files.last()));
                        }
                    }
                    assert(kp.contains(x));
                    let j = choose|j: int| 0 <= j < pre.len() && pre[j] == x && keep_file(pre[j]);
                    assert(files[j] == pre[j]);
                } else {
                    assert(keep_file(files.last()));
                    assert(k == kp.push(files.last()));
                    assert(x == files[files.len() - 1]);
                }
            }
            if exists|j: int| 0 <= j < files.len() && files[j] == x && keep_file(files[j]) {
                let j = choose|j: int| 0 <= j < files.len() && files[j] == x && keep_file(files[j]);
                if j < files.len() - 1 {
                    assert(pre[j] == files[j]);
                    assert(kp.contains(x));
                    let t = choose|t: int| 0 <= t < kp.len() && kp[t] == x;
                    if keep_file(files.last()) {
                        assert(k == kp.push(files.last()));
                        assert(k[t] == kp[t]);
                    }
                    assert(k[t] == x);
                } else {
                    assert(k == kp.push(files.last()));
                    assert(k[kp.len() as int] == x);
                }
            }
        }
    }
}

} // verus!
