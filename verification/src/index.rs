use std::collections::{HashMap, HashSet, VecDeque};
use vstd::bytes::*;
use vstd::prelude::*;
use vstd::utf8::{decode_utf8, encode_utf8, encode_utf8_decode_utf8, valid_utf8};

use crate::error::FastRegexError;
use crate::hashing::{blake3_digest, hash_gram, spec_blake3, spec_xxh3_64};
use crate::text::{spec_utf8_lossy, utf8_lossy};
use crate::sparse::{
    build_all_sparse_ngrams, bytes_eq, gram_bytes, gram_in_span, grams_bytes, lemma_sparse_gram_laws, spec_sparse_grams,
    SparseConfig,
};

verus! {

/// Size of the fixed header of `postings.bin`.
pub const POSTINGS_HEADER_SIZE: usize = 256;

/// Size of the fixed header of `lookup.bin`.
pub const LOOKUP_HEADER_SIZE: usize = 64;

/// Size of one `(hash, offset)` entry of `lookup.bin`.
pub const LOOKUP_ENTRY_SIZE: usize = 16;

/// Format version of both files.
pub const FORMAT_VERSION: u32 = 1;

/// The magic bytes `FRPOSTV1` that open `postings.bin`.
pub open spec fn spec_postings_magic() -> Seq<u8> {
    seq![70u8, 82u8, 80u8, 79u8, 83u8, 84u8, 86u8, 49u8]
}

/// The magic bytes `FRLOOKV1` that open `lookup.bin`.
pub open spec fn spec_lookup_magic() -> Seq<u8> {
    seq![70u8, 82u8, 76u8, 79u8, 79u8, 75u8, 86u8, 49u8]
}

fn postings_magic() -> (m: Vec<u8>)
    ensures
        m@ == spec_postings_magic(),
{
    let mut m: Vec<u8> = Vec::new();
    m.push(70u8);
    m.push(82u8);
    m.push(80u8);
    m.push(79u8);
    m.push(83u8);
    m.push(84u8);
    m.push(86u8);
    m.push(49u8);
    assert(m@ =~= spec_postings_magic());
    m
}

fn lookup_magic() -> (m: Vec<u8>)
    ensures
        m@ == spec_lookup_magic(),
{
    let mut m: Vec<u8> = Vec::new();
    m.push(70u8);
    m.push(82u8);
    m.push(76u8);
    m.push(79u8);
    m.push(79u8);
    m.push(75u8);
    m.push(86u8);
    m.push(49u8);
    assert(m@ =~= spec_lookup_magic());
    m
}

/// The little-endian `u16` at `off`.
pub open spec fn u16_at(b: Seq<u8>, off: int) -> u16 {
    spec_u16_from_le_bytes(b.subrange(off, off + 2))
}

/// The little-endian `u32` at `off`.
pub open spec fn u32_at(b: Seq<u8>, off: int) -> u32 {
    spec_u32_from_le_bytes(b.subrange(off, off + 4))
}

/// The little-endian `u64` at `off`.
pub open spec fn u64_at(b: Seq<u8>, off: int) -> u64 {
    spec_u64_from_le_bytes(b.subrange(off, off + 8))
}

/// The little-endian two's-complement `i64` at `off`.
pub open spec fn i64_at(b: Seq<u8>, off: int) -> i64 {
    u64_at(b, off) as i64
}

/// The little-endian bytes of an `i64`.
pub open spec fn spec_i64_to_le_bytes(x: i64) -> Seq<u8> {
    spec_u64_to_le_bytes(x as u64)
}

fn corrupt(msg: &str) -> (e: FastRegexError)
    ensures
        e matches FastRegexError::CorruptIndex(text) && text@ == msg@,
{
    FastRegexError::CorruptIndex(msg.to_string())
}

fn read_u16(bytes: &[u8], offset: usize) -> (r: Result<u16, FastRegexError>)
    ensures
        match r {
            Ok(v) => offset + 2 <= bytes@.len() && v == u16_at(bytes@, offset as int),
            Err(e) => offset + 2 > bytes@.len() && e is CorruptIndex,
        },
{
    if offset > bytes.len() || bytes.len() - offset < 2 {
        return Err(corrupt("u16 read out of bounds"));
    }
    Ok(u16_from_le_bytes(&bytes[offset..offset + 2]))
}

fn read_u32(bytes: &[u8], offset: usize) -> (r: Result<u32, FastRegexError>)
    ensures
        match r {
            Ok(v) => offset + 4 <= bytes@.len() && v == u32_at(bytes@, offset as int),
            Err(e) => offset + 4 > bytes@.len() && e is CorruptIndex,
        },
{
    if offset > bytes.len() || bytes.len() - offset < 4 {
        return Err(corrupt("u32 read out of bounds"));
    }
    Ok(u32_from_le_bytes(&bytes[offset..offset + 4]))
}

fn read_u64(bytes: &[u8], offset: usize) -> (r: Result<u64, FastRegexError>)
    ensures
        match r {
            Ok(v) => offset + 8 <= bytes@.len() && v == u64_at(bytes@, offset as int),
            Err(e) => offset + 8 > bytes@.len() && e is CorruptIndex,
        },
{
    if offset > bytes.len() || bytes.len() - offset < 8 {
        return Err(corrupt("u64 read out of bounds"));
    }
    Ok(u64_from_le_bytes(&bytes[offset..offset + 8]))
}

fn write_u16_to_writer(writer: &mut Vec<u8>, value: u16)
    ensures
        final(writer)@ == old(writer)@ + spec_u16_to_le_bytes(value),
{
    let mut b = u16_to_le_bytes(value);
    writer.append(&mut b);
}

fn write_u32_to_writer(writer: &mut Vec<u8>, value: u32)
    ensures
        final(writer)@ == old(writer)@ + spec_u32_to_le_bytes(value),
{
    let mut b = u32_to_le_bytes(value);
    writer.append(&mut b);
}

fn write_u64_to_writer(writer: &mut Vec<u8>, value: u64)
    ensures
        final(writer)@ == old(writer)@ + spec_u64_to_le_bytes(value),
{
    let mut b = u64_to_le_bytes(value);
    writer.append(&mut b);
}

fn write_i64_to_writer(writer: &mut Vec<u8>, value: i64)
    ensures
        final(writer)@ == old(writer)@ + spec_i64_to_le_bytes(value),
{
    let mut b = u64_to_le_bytes(value as u64);
    writer.append(&mut b);
}

/// `n` zero bytes.
pub open spec fn zeros(n: nat) -> Seq<u8> {
    Seq::new(n, |i: int| 0u8)
}

/// The first 64 bytes of `b`, or all of it if it is shorter.
pub open spec fn clip64(b: Seq<u8>) -> Seq<u8> {
    if b.len() <= 64 {
        b
    } else {
        b.subrange(0, 64)
    }
}

/// The checksum stored in a header: the first eight bytes of the BLAKE3
/// digest of the payload, read as a little-endian `u64`.
pub open spec fn spec_payload_checksum(payload: Seq<u8>) -> u64 {
    spec_u64_from_le_bytes(spec_blake3(payload).subrange(0, 8))
}

/// Checksum of the payload that follows a header.
pub fn payload_checksum(payload: &[u8]) -> (c: u64)
    ensures
        c == spec_payload_checksum(payload@),
{
    let digest = blake3_digest(payload);
    u64_from_le_bytes(&digest.as_slice()[0..8])
}

/// Checks the checksum of the payload that starts at `payload_offset`.
pub fn validate_payload_checksum(bytes: &[u8], payload_offset: usize, expected: u64) -> (r: Result<
    (),
    FastRegexError,
>)
    ensures
        r is Ok <==> payload_offset <= bytes@.len() && spec_payload_checksum(
            bytes@.subrange(payload_offset as int, bytes@.len() as int),
        ) == expected,
        r matches Err(e) ==> e is CorruptIndex,
{
    if payload_offset > bytes.len() {
        return Err(corrupt("payload offset out of bounds"));
    }
    let actual = payload_checksum(&bytes[payload_offset..bytes.len()]);
    if actual != expected {
        return Err(corrupt("checksum mismatch"));
    }
    Ok(())
}

/// The fixed header of `postings.bin`.
pub struct PostingsHeader {
    pub checksum: u64,
    pub doc_table_offset: u64,
    pub postings_offset: u64,
    pub bigram_offset: u64,
    pub doc_count: u32,
    pub posting_count: u32,
    pub repo_id: String,
    pub commit_id: String,
}

/// The fixed header of `lookup.bin`.
pub struct LookupHeader {
    pub checksum: u64,
    pub entry_count: u32,
}

/// The 256 header bytes: magic, version, checksum, the three section
/// offsets, the two counts, then the repo and commit ids, each cut to 64
/// bytes, preceded by their lengths and padded with zeros.
pub open spec fn header_bytes(
    checksum: u64,
    doc_table_offset: u64,
    postings_offset: u64,
    bigram_offset: u64,
    doc_count: u32,
    posting_count: u32,
    repo: Seq<u8>,
    commit: Seq<u8>,
) -> Seq<u8> {
    let r = clip64(repo);
    let c = clip64(commit);
    spec_postings_magic() + spec_u32_to_le_bytes(1) + spec_u64_to_le_bytes(checksum)
        + spec_u64_to_le_bytes(doc_table_offset) + spec_u64_to_le_bytes(postings_offset)
        + spec_u64_to_le_bytes(bigram_offset) + spec_u32_to_le_bytes(doc_count)
        + spec_u32_to_le_bytes(posting_count) + spec_u16_to_le_bytes(r.len() as u16)
        + spec_u16_to_le_bytes(c.len() as u16) + r + zeros((64 - r.len()) as nat) + c + zeros(
        (64 - c.len()) as nat,
    ) + zeros(72)
}

/// The header bytes written for `h`.
pub open spec fn postings_header_bytes(h: PostingsHeader) -> Seq<u8> {
    header_bytes(
        h.checksum,
        h.doc_table_offset,
        h.postings_offset,
        h.bigram_offset,
        h.doc_count,
        h.posting_count,
        encode_utf8(h.repo_id@),
        encode_utf8(h.commit_id@),
    )
}

/// The 64 header bytes written for `h`.
pub open spec fn lookup_header_bytes(h: LookupHeader) -> Seq<u8> {
    spec_lookup_magic() + spec_u32_to_le_bytes(1) + spec_u64_to_le_bytes(h.checksum)
        + spec_u32_to_le_bytes(h.entry_count) + zeros(40)
}

/// Whether `b` starts with a postings header that the decoder accepts.
pub open spec fn postings_header_ok(b: Seq<u8>) -> bool {
    &&& b.len() >= 256
    &&& b.subrange(0, 8) == spec_postings_magic()
    &&& u32_at(b, 8) == 1
    &&& u16_at(b, 52) <= 64
    &&& u16_at(b, 54) <= 64
}

/// Whether `b` starts with a lookup header that the decoder accepts.
pub open spec fn lookup_header_ok(b: Seq<u8>) -> bool {
    &&& b.len() >= 64
    &&& b.subrange(0, 8) == spec_lookup_magic()
    &&& u32_at(b, 8) == 1
}

fn append_zeros(out: &mut Vec<u8>, n: usize)
    ensures
        final(out)@ == old(out)@ + zeros(n as nat),
{
    let ghost start = out@;
    for i in 0..n
        invariant
            out@ == start + zeros(i as nat),
    {
        out.push(0u8);
        assert(start + zeros((i + 1) as nat) =~= (start + zeros(i as nat)).push(0u8));
    }
}

fn append_prefix(out: &mut Vec<u8>, src: &[u8], n: usize)
    requires
        n <= src@.len(),
    ensures
        final(out)@ == old(out)@ + src@.subrange(0, n as int),
{
    let ghost start = out@;
    for i in 0..n
        invariant
            n <= src@.len(),
            out@ == start + src@.subrange(0, i as int),
    {
        out.push(src[i]);
        assert(start + src@.subrange(0, i + 1) =~= (start + src@.subrange(0, i as int)).push(
            src@[i as int],
        ));
    }
}

/// Encodes the header of `postings.bin`.
fn encode_postings_header(h: &PostingsHeader) -> (out: Vec<u8>)
    ensures
        out@ == postings_header_bytes(*h),
        out@.len() == 256,
{
    proof {
        lemma_le_roundtrips();
    }
    let mut raw = postings_magic();
    write_u32_to_writer(&mut raw, FORMAT_VERSION);
    write_u64_to_writer(&mut raw, h.checksum);
    write_u64_to_writer(&mut raw, h.doc_table_offset);
    write_u64_to_writer(&mut raw, h.postings_offset);
    write_u64_to_writer(&mut raw, h.bigram_offset);
    write_u32_to_writer(&mut raw, h.doc_count);
    write_u32_to_writer(&mut raw, h.posting_count);
    let repo_bytes = h.repo_id.as_str().as_bytes();
    let commit_bytes = h.commit_id.as_str().as_bytes();
    let repo_len: usize = if repo_bytes.len() < 64 { repo_bytes.len() } else { 64 };
    let commit_len: usize = if commit_bytes.len() < 64 { commit_bytes.len() } else { 64 };
    write_u16_to_writer(&mut raw, repo_len as u16);
    write_u16_to_writer(&mut raw, commit_len as u16);
    append_prefix(&mut raw, repo_bytes, repo_len);
    append_zeros(&mut raw, 64 - repo_len);
    append_prefix(&mut raw, commit_bytes, commit_len);
    append_zeros(&mut raw, 64 - commit_len);
    append_zeros(&mut raw, 72);
    proof {
        let r = clip64(encode_utf8(h.repo_id@));
        let c = clip64(encode_utf8(h.commit_id@));
        assert(repo_bytes@.subrange(0, repo_len as int) =~= r);
        assert(commit_bytes@.subrange(0, commit_len as int) =~= c);
        assert(raw@ =~= postings_header_bytes(*h));
    }
    raw
}

/// Encodes the header of `lookup.bin`.
fn encode_lookup_header(h: &LookupHeader) -> (out: Vec<u8>)
    ensures
        out@ == lookup_header_bytes(*h),
        out@.len() == 64,
{
    proof {
        lemma_le_roundtrips();
    }
    let mut raw = lookup_magic();
    write_u32_to_writer(&mut raw, FORMAT_VERSION);
    write_u64_to_writer(&mut raw, h.checksum);
    write_u32_to_writer(&mut raw, h.entry_count);
    append_zeros(&mut raw, 40);
    proof {
        assert(raw@ =~= lookup_header_bytes(*h));
    }
    raw
}

fn has_prefix(bytes: &[u8], magic: &Vec<u8>) -> (b: bool)
    requires
        magic@.len() == 8,
        bytes@.len() >= 8,
    ensures
        b == (bytes@.subrange(0, 8) == magic@),
{
    let mut i: usize = 0;
    while i < 8
        invariant
            i <= 8,
            magic@.len() == 8,
            bytes@.len() >= 8,
            forall|j: int| 0 <= j < i ==> bytes@[j] == magic@[j],
        decreases 8 - i,
    {
        if bytes[i] != magic[i] {
            assert(bytes@.subrange(0, 8)[i as int] != magic@[i as int]);
            return false;
        }
        i += 1;
    }
    assert(bytes@.subrange(0, 8) =~= magic@);
    true
}

/// Decodes the header of `postings.bin`.
fn decode_postings_header(bytes: &[u8]) -> (r: Result<PostingsHeader, FastRegexError>)
    ensures
        match r {
            Ok(h) => {
                &&& postings_header_ok(bytes@)
                &&& h.checksum == u64_at(bytes@, 12)
                &&& h.doc_table_offset == u64_at(bytes@, 20)
                &&& h.postings_offset == u64_at(bytes@, 28)
                &&& h.bigram_offset == u64_at(bytes@, 36)
                &&& h.doc_count == u32_at(bytes@, 44)
                &&& h.posting_count == u32_at(bytes@, 48)
                &&& h.repo_id@ == spec_utf8_lossy(bytes@.subrange(56, 56 + u16_at(bytes@, 52)))
                &&& h.commit_id@ == spec_utf8_lossy(
                    bytes@.subrange(120, 120 + u16_at(bytes@, 54)),
                )
            },
            Err(e) => !postings_header_ok(bytes@) && e is CorruptIndex,
        },
{
    if bytes.len() < POSTINGS_HEADER_SIZE {
        return Err(corrupt("postings.bin smaller than header"));
    }
    let magic = postings_magic();
    if !has_prefix(bytes, &magic) {
        return Err(corrupt("postings.bin magic mismatch"));
    }
    let version = read_u32(bytes, 8)?;
    if version != FORMAT_VERSION {
        return Err(corrupt("unsupported postings version"));
    }
    let checksum = read_u64(bytes, 12)?;
    let doc_table_offset = read_u64(bytes, 20)?;
    let postings_offset = read_u64(bytes, 28)?;
    let bigram_offset = read_u64(bytes, 36)?;
    let doc_count = read_u32(bytes, 44)?;
    let posting_count = read_u32(bytes, 48)?;
    let repo_len = read_u16(bytes, 52)? as usize;
    let commit_len = read_u16(bytes, 54)? as usize;
    if repo_len > 64 || commit_len > 64 {
        return Err(corrupt("invalid repo/commit length in postings header"));
    }
    let repo_id = utf8_lossy(&bytes[56..56 + repo_len]);
    let commit_id = utf8_lossy(&bytes[120..120 + commit_len]);
    Ok(
        PostingsHeader {
            checksum,
            doc_table_offset,
            postings_offset,
            bigram_offset,
            doc_count,
            posting_count,
            repo_id,
            commit_id,
        },
    )
}

/// Decodes the header of `lookup.bin`.
fn decode_lookup_header(bytes: &[u8]) -> (r: Result<LookupHeader, FastRegexError>)
    ensures
        match r {
            Ok(h) => {
                &&& lookup_header_ok(bytes@)
                &&& h.checksum == u64_at(bytes@, 12)
                &&& h.entry_count == u32_at(bytes@, 20)
            },
            Err(e) => !lookup_header_ok(bytes@) && e is CorruptIndex,
        },
{
    if bytes.len() < LOOKUP_HEADER_SIZE {
        return Err(corrupt("lookup.bin smaller than header"));
    }
    let magic = lookup_magic();
    if !has_prefix(bytes, &magic) {
        return Err(corrupt("lookup.bin magic mismatch"));
    }
    let version = read_u32(bytes, 8)?;
    if version != FORMAT_VERSION {
        return Err(corrupt("unsupported lookup version"));
    }
    let checksum = read_u64(bytes, 12)?;
    let entry_count = read_u32(bytes, 20)?;
    Ok(LookupHeader { checksum, entry_count })
}

/// What the index stores about one file of the repository.
pub struct DocumentMeta {
    pub doc_id: u32,
    pub path: String,
    pub size: u64,
    pub mtime_secs: i64,
    pub indexed: bool,
}

/// One record of the document table, as bytes see it: the path is kept as
/// the bytes that were stored.
pub struct DocRecord {
    pub doc_id: u32,
    pub path: Seq<u8>,
    pub size: u64,
    pub mtime_secs: i64,
    pub indexed: bool,
}

/// The record that encoding `d` writes.
pub open spec fn doc_record_of(d: DocumentMeta) -> DocRecord {
    DocRecord {
        doc_id: d.doc_id,
        path: encode_utf8(d.path@),
        size: d.size,
        mtime_secs: d.mtime_secs,
        indexed: d.indexed,
    }
}

/// The records that encoding `docs` writes.
pub open spec fn doc_records_of(docs: Seq<DocumentMeta>) -> Seq<DocRecord> {
    docs.map_values(|d: DocumentMeta| doc_record_of(d))
}

/// The byte that stores the `indexed` flag.
pub open spec fn flag_byte(b: bool) -> u8 {
    if b {
        1
    } else {
        0
    }
}

/// The bytes of one document record: id, path length, path, size, mtime, flag.
pub open spec fn doc_record_bytes(d: DocRecord) -> Seq<u8> {
    spec_u32_to_le_bytes(d.doc_id) + spec_u16_to_le_bytes(d.path.len() as u16) + d.path
        + spec_u64_to_le_bytes(d.size) + spec_i64_to_le_bytes(d.mtime_secs) + seq![flag_byte(d.indexed)]
}

/// The bytes of the document table: the records one after the other.
pub open spec fn doc_table_bytes(docs: Seq<DocRecord>) -> Seq<u8>
    decreases docs.len(),
{
    if docs.len() == 0 {
        Seq::empty()
    } else {
        doc_table_bytes(docs.drop_last()) + doc_record_bytes(docs.last())
    }
}

/// The record that the decoder reads at `c`, and where the next one starts;
/// the path must end by `end`, the other fields by the end of `b`.
pub open spec fn parse_doc(b: Seq<u8>, c: int, end: int) -> Option<(DocRecord, int)> {
    if c + 6 > b.len() {
        None
    } else {
        let p = c + 6;
        let q = p + u16_at(b, c + 4);
        if q > end || q + 17 > b.len() {
            None
        } else {
            Some(
                (
                    DocRecord {
                        doc_id: u32_at(b, c),
                        path: b.subrange(p, q),
                        size: u64_at(b, q),
                        mtime_secs: i64_at(b, q + 8),
                        indexed: b[q + 16] != 0,
                    },
                    q + 17,
                ),
            )
        }
    }
}

/// `pre` followed by the records of `rest`, if there are any.
pub open spec fn prepend_docs(pre: Seq<DocRecord>, rest: Option<Seq<DocRecord>>) -> Option<Seq<DocRecord>> {
    match rest {
        Some(r) => Some(pre + r),
        None => None,
    }
}

/// The `n` records that the decoder reads from `c` on.
pub open spec fn parse_docs(b: Seq<u8>, c: int, end: int, n: nat) -> Option<Seq<DocRecord>>
    decreases n,
{
    if n == 0 {
        Some(Seq::empty())
    } else {
        match parse_doc(b, c, end) {
            None => None,
            Some((d, next)) => prepend_docs(seq![d], parse_docs(b, next, end, (n - 1) as nat)),
        }
    }
}

/// Whether `doc` is what the decoder makes of record `rec`.
pub open spec fn doc_decoded_from(doc: DocumentMeta, rec: DocRecord) -> bool {
    &&& doc.doc_id == rec.doc_id
    &&& doc.path@ == spec_utf8_lossy(rec.path)
    &&& valid_utf8(rec.path) ==> doc.path@ == decode_utf8(rec.path)
    &&& doc.size == rec.size
    &&& doc.mtime_secs == rec.mtime_secs
    &&& doc.indexed == rec.indexed
}

/// Whether `docs` is what the decoder makes of `recs`.
pub open spec fn docs_decoded_from(docs: Seq<DocumentMeta>, recs: Seq<DocRecord>) -> bool {
    &&& docs.len() == recs.len()
    &&& forall|i: int| 0 <= i < docs.len() ==> #[trigger] doc_decoded_from(docs[i], recs[i])
}

/// Whether every path of `docs` fits the 16-bit length field.
pub open spec fn paths_fit(docs: Seq<DocumentMeta>) -> bool {
    forall|i: int| 0 <= i < docs.len() ==> #[trigger] encode_utf8(docs[i].path@).len() <= u16::MAX
}

/// Appends the document table for `docs`; fails on a path longer than the
/// 16-bit length field can hold.
fn encode_doc_table(out: &mut Vec<u8>, docs: &[DocumentMeta]) -> (r: Result<(), FastRegexError>)
    ensures
        r is Ok <==> paths_fit(docs@),
        r is Ok ==> final(out)@ == old(out)@ + doc_table_bytes(doc_records_of(docs@)),
        r matches Err(e) ==> e is Internal,
{
    proof {
        lemma_le_roundtrips();
    }
    let ghost start = out@;
    for i in 0..docs.len()
        invariant
            out@ == start + doc_table_bytes(doc_records_of(docs@.take(i as int))),
            paths_fit(docs@.take(i as int)),
    {
        let doc = &docs[i];
        let path_bytes = doc.path.as_str().as_bytes();
        if path_bytes.len() > 65535 {
            assert(!paths_fit(docs@)) by {
                assert(encode_utf8(docs@[i as int].path@).len() > u16::MAX);
            }
            return Err(FastRegexError::Internal("path too long for index encoding".to_string()));
        }
        write_u32_to_writer(out, doc.doc_id);
        write_u16_to_writer(out, path_bytes.len() as u16);
        append_prefix(out, path_bytes, path_bytes.len());
        write_u64_to_writer(out, doc.size);
        write_i64_to_writer(out, doc.mtime_secs);
        let flag: u8 = if doc.indexed { 1 } else { 0 };
        out.push(flag);
        proof {
            let recs = doc_records_of(docs@.take(i + 1));
            assert(docs@.take(i + 1).drop_last() =~= docs@.take(i as int));
            assert(recs.drop_last() =~= doc_records_of(docs@.take(i as int)));
            assert(recs.last() == doc_record_of(docs@[i as int]));
            assert(path_bytes@.subrange(0, path_bytes@.len() as int) =~= path_bytes@);
            assert(out@ =~= start + doc_table_bytes(recs));
            assert forall|k: int| 0 <= k < i + 1 implies #[trigger] encode_utf8(
                docs@.take(i + 1)[k].path@,
            ).len() <= u16::MAX by {
                if k < i {
                    assert(docs@.take(i + 1)[k] == docs@.take(i as int)[k]);
                }
            }
        }
    }
    assert(docs@.take(docs@.len() as int) =~= docs@);
    Ok(())
}

proof fn lemma_prepend_assoc(pre: Seq<DocRecord>, d: DocRecord, rest: Option<Seq<DocRecord>>)
    ensures
        prepend_docs(pre, prepend_docs(seq![d], rest)) == prepend_docs(pre.push(d), rest),
{
    match rest {
        Some(r) => {
            assert(pre + (seq![d] + r) =~= pre.push(d) + r);
        },
        None => {},
    }
}

/// Decodes the document table that the header points at.
fn decode_doc_table(bytes: &[u8], header: &PostingsHeader) -> (r: Result<Vec<DocumentMeta>, FastRegexError>)
    ensures
        match r {
            Ok(docs) => {
                &&& header.doc_table_offset <= header.postings_offset <= bytes@.len()
                &&& parse_docs(
                    bytes@,
                    header.doc_table_offset as int,
                    header.postings_offset as int,
                    header.doc_count as nat,
                ) matches Some(recs) && docs_decoded_from(docs@, recs)
            },
            Err(e) => {
                &&& e is CorruptIndex
                &&& !(header.doc_table_offset <= header.postings_offset <= bytes@.len()
                    && parse_docs(
                    bytes@,
                    header.doc_table_offset as int,
                    header.postings_offset as int,
                    header.doc_count as nat,
                ) is Some)
            },
        },
{
    if header.doc_table_offset > bytes.len() as u64 || header.postings_offset > bytes.len() as u64
        || header.doc_table_offset > header.postings_offset {
        return Err(corrupt("invalid doc_table/postings offsets"));
    }
    let start = header.doc_table_offset as usize;
    let end = header.postings_offset as usize;
    let n = header.doc_count;
    let ghost b = bytes@;
    let mut cursor = start;
    let mut docs: Vec<DocumentMeta> = Vec::new();
    let ghost mut recs: Seq<DocRecord> = Seq::empty();
    let mut i: u32 = 0;
    while i < n
        invariant
            b == bytes@,
            start <= end <= b.len(),
            start == header.doc_table_offset,
            end == header.postings_offset,
            n == header.doc_count,
            cursor <= b.len(),
            i <= n,
            parse_docs(b, start as int, end as int, n as nat) == prepend_docs(
                recs,
                parse_docs(b, cursor as int, end as int, (n - i) as nat),
            ),
            docs_decoded_from(docs@, recs),
        decreases n - i,
    {
        let ghost c0 = cursor as int;
        if bytes.len() - cursor < 6 {
            assert(parse_docs(b, cursor as int, end as int, (n - i) as nat) is None);
            return Err(corrupt("doc table record out of bounds"));
        }
        let doc_id = u32_from_le_bytes(&bytes[cursor..cursor + 4]);
        let path_len = u16_from_le_bytes(&bytes[cursor + 4..cursor + 6]) as usize;
        let p = cursor + 6;
        if p > end || path_len > end - p {
            assert(parse_docs(b, c0, end as int, (n - i) as nat) is None);
            return Err(corrupt("doc table path out of bounds"));
        }
        let q = p + path_len;
        let path = utf8_lossy(&bytes[p..q]);
        if q > bytes.len() || bytes.len() - q < 17 {
            assert(parse_docs(b, c0, end as int, (n - i) as nat) is None);
            return Err(corrupt("doc table record out of bounds"));
        }
        let size = u64_from_le_bytes(&bytes[q..q + 8]);
        let mtime_secs = u64_from_le_bytes(&bytes[q + 8..q + 16]) as i64;
        let flag = bytes[q + 16];
        let ghost rec = DocRecord {
            doc_id,
            path: b.subrange(p as int, q as int),
            size,
            mtime_secs,
            indexed: flag != 0,
        };
        assert(parse_doc(b, c0, end as int) == Some((rec, q + 17)));
        let doc = DocumentMeta { doc_id, path, size, mtime_secs, indexed: flag != 0 };
        proof {
            lemma_prepend_assoc(recs, rec, parse_docs(b, q + 17, end as int, (n - i - 1) as nat));
            assert(doc_decoded_from(doc, rec));
            let old_docs = docs@;
            let old_recs = recs;
            recs = recs.push(rec);
            assert forall|k: int| 0 <= k < old_docs.len() + 1 implies #[trigger] doc_decoded_from(
                old_docs.push(doc)[k],
                recs[k],
            ) by {
                if k < old_docs.len() {
                    assert(doc_decoded_from(old_docs[k], old_recs[k]));
                }
            }
        }
        docs.push(doc);
        cursor = q + 17;
        i += 1;
    }
    assert(parse_docs(b, cursor as int, end as int, 0) == Some(Seq::<DocRecord>::empty()));
    assert(recs + Seq::<DocRecord>::empty() =~= recs);
    Ok(docs)
}

/// The little-endian bytes of each id, one after the other.
pub open spec fn u32s_bytes(ids: Seq<u32>) -> Seq<u8>
    decreases ids.len(),
{
    if ids.len() == 0 {
        Seq::empty()
    } else {
        u32s_bytes(ids.drop_last()) + spec_u32_to_le_bytes(ids.last())
    }
}

/// The bytes of one posting list: its length, then the document ids.
pub open spec fn posting_bytes(ids: Seq<u32>) -> Seq<u8> {
    spec_u32_to_le_bytes(ids.len() as u32) + u32s_bytes(ids)
}

/// The posting list that the decoder reads at `off`.
pub open spec fn parse_posting(b: Seq<u8>, off: int) -> Option<Seq<u32>> {
    if off < 0 || off + 4 > b.len() {
        None
    } else {
        let n = u32_at(b, off) as int;
        if off + 4 + 4 * n > b.len() {
            None
        } else {
            Some(Seq::new(n as nat, |i: int| u32_at(b, off + 4 + 4 * i)))
        }
    }
}

/// The bytes of each `(key, frequency)` pair, one after the other.
pub open spec fn pairs_bytes(p: Seq<(u16, u32)>) -> Seq<u8>
    decreases p.len(),
{
    if p.len() == 0 {
        Seq::empty()
    } else {
        pairs_bytes(p.drop_last()) + spec_u16_to_le_bytes(p.last().0) + spec_u32_to_le_bytes(
            p.last().1,
        )
    }
}

/// The bytes of the bigram table: the number of pairs, then the pairs.
pub open spec fn bigram_table_bytes(p: Seq<(u16, u32)>) -> Seq<u8> {
    spec_u32_to_le_bytes(p.len() as u32) + pairs_bytes(p)
}

/// The pairs that the decoder reads from the bigram table at `off`.
pub open spec fn parse_pairs(b: Seq<u8>, off: int) -> Option<Seq<(u16, u32)>> {
    if off < 0 || off + 4 > b.len() {
        None
    } else {
        let n = u32_at(b, off) as int;
        if off + 4 + 6 * n > b.len() {
            None
        } else {
            Some(
                Seq::new(
                    n as nat,
                    |i: int| (u16_at(b, off + 4 + 6 * i), u32_at(b, off + 4 + 6 * i + 2)),
                ),
            )
        }
    }
}

/// The map that results from inserting the pairs in order (a later pair
/// for the same key wins).
pub open spec fn pairs_map(p: Seq<(u16, u32)>) -> Map<u16, u32>
    decreases p.len(),
{
    if p.len() == 0 {
        Map::empty()
    } else {
        pairs_map(p.drop_last()).insert(p.last().0, p.last().1)
    }
}

/// The entries of `m` whose keys are below `k`, by increasing key.
pub open spec fn pairs_below(m: Map<u16, u32>, k: nat) -> Seq<(u16, u32)>
    decreases k,
{
    if k == 0 {
        Seq::empty()
    } else {
        let key = (k - 1) as u16;
        pairs_below(m, (k - 1) as nat) + if m.contains_key(key) {
            seq![(key, m[key])]
        } else {
            Seq::empty()
        }
    }
}

/// The entries of `m` by increasing key.
pub open spec fn sorted_pairs(m: Map<u16, u32>) -> Seq<(u16, u32)> {
    pairs_below(m, 65536)
}

/// The bytes of the lookup entries: each hash and offset, one after the other.
pub open spec fn entries_bytes(e: Seq<(u64, u64)>) -> Seq<u8>
    decreases e.len(),
{
    if e.len() == 0 {
        Seq::empty()
    } else {
        entries_bytes(e.drop_last()) + spec_u64_to_le_bytes(e.last().0) + spec_u64_to_le_bytes(
            e.last().1,
        )
    }
}

/// The lookup entry that the decoder reads at index `idx`.
pub open spec fn lookup_entry_at(b: Seq<u8>, idx: int) -> Option<(u64, u64)> {
    let start = 64 + 16 * idx;
    if idx < 0 || start + 16 > b.len() {
        None
    } else {
        Some((u64_at(b, start), u64_at(b, start + 8)))
    }
}

/// The bytes of `lookup.bin` for the given entries.
pub open spec fn lookup_file_bytes(e: Seq<(u64, u64)>) -> Seq<u8> {
    lookup_header_bytes(
        LookupHeader { checksum: spec_payload_checksum(entries_bytes(e)), entry_count: e.len() as u32 },
    ) + entries_bytes(e)
}

/// Decodes the posting list at `offset`.
fn decode_posting_at(bytes: &[u8], offset: usize) -> (r: Result<Vec<u32>, FastRegexError>)
    ensures
        match r {
            Ok(ids) => parse_posting(bytes@, offset as int) == Some(ids@),
            Err(e) => parse_posting(bytes@, offset as int) is None && e is CorruptIndex,
        },
{
    if offset > bytes.len() || bytes.len() - offset < 4 {
        return Err(corrupt("posting offset out of bounds"));
    }
    let count = u32_from_le_bytes(&bytes[offset..offset + 4]) as usize;
    let room = (bytes.len() - offset - 4) / 4;
    if count > room {
        assert(offset + 4 + 4 * count > bytes@.len()) by (nonlinear_arith)
            requires
                count > room,
                room == (bytes@.len() - offset - 4) / 4,
        ;
        return Err(corrupt("posting list out of bounds"));
    }
    assert(offset + 4 + 4 * count <= bytes@.len()) by (nonlinear_arith)
        requires
            count <= room,
            room == (bytes@.len() - offset - 4) / 4,
            offset + 4 <= bytes@.len(),
    ;
    let mut out: Vec<u32> = Vec::new();
    let mut cursor = offset + 4;
    let mut i: usize = 0;
    while i < count
        invariant
            offset + 4 + 4 * count <= bytes@.len(),
            bytes@.len() == bytes.len(),
            cursor == offset + 4 + 4 * i,
            i <= count,
            out@ =~= Seq::new(i as nat, |k: int| u32_at(bytes@, offset + 4 + 4 * k)),
        decreases count - i,
    {
        assert(cursor + 4 <= offset + 4 + 4 * count);
        let v = u32_from_le_bytes(&bytes[cursor..cursor + 4]);
        out.push(v);
        cursor = cursor + 4;
        i = i + 1;
    }
    Ok(out)
}

/// Decodes the bigram frequency table that the header points at.
fn decode_bigram_table(bytes: &[u8], header: &PostingsHeader) -> (r: Result<
    HashMap<u16, u32>,
    FastRegexError,
>)
    ensures
        match r {
            Ok(m) => parse_pairs(bytes@, header.bigram_offset as int) matches Some(p) && m@
                == pairs_map(p),
            Err(e) => parse_pairs(bytes@, header.bigram_offset as int) is None && e is CorruptIndex,
        },
{
    if header.bigram_offset > bytes.len() as u64 || bytes.len() - (header.bigram_offset as usize)
        < 4 {
        return Err(corrupt("bigram table offset out of bounds"));
    }
    let offset = header.bigram_offset as usize;
    let count = u32_from_le_bytes(&bytes[offset..offset + 4]) as usize;
    let room = (bytes.len() - offset - 4) / 6;
    if count > room {
        assert(offset + 4 + 6 * count > bytes@.len()) by (nonlinear_arith)
            requires
                count > room,
                room == (bytes@.len() - offset - 4) / 6,
        ;
        return Err(corrupt("bigram table out of bounds"));
    }
    assert(offset + 4 + 6 * count <= bytes@.len()) by (nonlinear_arith)
        requires
            count <= room,
            room == (bytes@.len() - offset - 4) / 6,
            offset + 4 <= bytes@.len(),
    ;
    let ghost p = Seq::new(
        count as nat,
        |i: int| (u16_at(bytes@, offset + 4 + 6 * i), u32_at(bytes@, offset + 4 + 6 * i + 2)),
    );
    let mut out: HashMap<u16, u32> = HashMap::new();
    let mut cursor = offset + 4;
    let mut i: usize = 0;
    while i < count
        invariant
            offset + 4 + 6 * count <= bytes@.len(),
            bytes@.len() == bytes.len(),
            cursor == offset + 4 + 6 * i,
            i <= count,
            p == Seq::new(
                count as nat,
                |i: int| (u16_at(bytes@, offset + 4 + 6 * i), u32_at(bytes@, offset + 4 + 6 * i + 2)),
            ),
            out@ == pairs_map(p.take(i as int)),
        decreases count - i,
    {
        assert(cursor + 6 <= offset + 4 + 6 * count);
        let key = u16_from_le_bytes(&bytes[cursor..cursor + 2]);
        let freq = u32_from_le_bytes(&bytes[cursor + 2..cursor + 6]);
        out.insert(key, freq);
        proof {
            assert(p.take(i + 1).drop_last() =~= p.take(i as int));
            assert(p.take(i + 1).last() == (key, freq));
        }
        cursor = cursor + 6;
        i = i + 1;
    }
    assert(p.take(count as int) =~= p);
    Ok(out)
}

/// Reads lookup entry `idx`: a gram hash and the offset of its posting list.
fn read_lookup_entry(bytes: &[u8], idx: usize) -> (r: Result<(u64, u64), FastRegexError>)
    ensures
        match r {
            Ok(e) => lookup_entry_at(bytes@, idx as int) == Some(e),
            Err(e) => lookup_entry_at(bytes@, idx as int) is None && e is CorruptIndex,
        },
{
    let len = bytes.len();
    if idx > (len / 16) || len - 16 * idx < 80 {
        return Err(corrupt("lookup entry out of bounds"));
    }
    let start = 64 + 16 * idx;
    let hash = u64_from_le_bytes(&bytes[start..start + 8]);
    let offset = u64_from_le_bytes(&bytes[start + 8..start + 16]);
    Ok((hash, offset))
}

/// The pairs of `freq`, by increasing key.
fn bigram_pairs(freq: &HashMap<u16, u32>) -> (out: Vec<(u16, u32)>)
    ensures
        out@ == sorted_pairs(freq@),
{
    let mut out: Vec<(u16, u32)> = Vec::new();
    let mut k: u32 = 0;
    while k < 65536
        invariant
            k <= 65536,
            out@ == pairs_below(freq@, k as nat),
        decreases 65536 - k,
    {
        let key = k as u16;
        match freq.get(&key) {
            Some(v) => {
                out.push((key, *v));
                assert(out@ =~= pairs_below(freq@, (k + 1) as nat));
            },
            None => {
                assert(out@ =~= pairs_below(freq@, (k + 1) as nat));
            },
        }
        k = k + 1;
    }
    out
}

/// Appends the bigram table for `pairs`.
fn encode_bigram_table(out: &mut Vec<u8>, pairs: &[(u16, u32)])
    ensures
        final(out)@ == old(out)@ + bigram_table_bytes(pairs@),
{
    proof {
        lemma_le_roundtrips();
    }
    let ghost start = out@;
    write_u32_to_writer(out, pairs.len() as u32);
    let ghost head = out@;
    for i in 0..pairs.len()
        invariant
            head == start + spec_u32_to_le_bytes(pairs@.len() as u32),
            out@ == head + pairs_bytes(pairs@.take(i as int)),
    {
        let (k, v) = pairs[i];
        write_u16_to_writer(out, k);
        write_u32_to_writer(out, v);
        proof {
            assert(pairs@.take(i + 1).drop_last() =~= pairs@.take(i as int));
            assert(out@ =~= head + pairs_bytes(pairs@.take(i + 1)));
        }
    }
    assert(pairs@.take(pairs@.len() as int) =~= pairs@);
    assert(out@ =~= start + bigram_table_bytes(pairs@));
}

/// Appends one posting list.
fn encode_posting(out: &mut Vec<u8>, ids: &[u32])
    ensures
        final(out)@ == old(out)@ + posting_bytes(ids@),
{
    proof {
        lemma_le_roundtrips();
    }
    let ghost start = out@;
    write_u32_to_writer(out, ids.len() as u32);
    let ghost head = out@;
    for i in 0..ids.len()
        invariant
            head == start + spec_u32_to_le_bytes(ids@.len() as u32),
            out@ == head + u32s_bytes(ids@.take(i as int)),
    {
        write_u32_to_writer(out, ids[i]);
        proof {
            assert(ids@.take(i + 1).drop_last() =~= ids@.take(i as int));
            assert(out@ =~= head + u32s_bytes(ids@.take(i + 1)));
        }
    }
    assert(ids@.take(ids@.len() as int) =~= ids@);
    assert(out@ =~= start + posting_bytes(ids@));
}

/// Appends the lookup entries.
fn encode_entries(out: &mut Vec<u8>, entries: &[(u64, u64)])
    ensures
        final(out)@ == old(out)@ + entries_bytes(entries@),
{
    proof {
        lemma_le_roundtrips();
    }
    let ghost start = out@;
    for i in 0..entries.len()
        invariant
            out@ == start + entries_bytes(entries@.take(i as int)),
    {
        let (h, o) = entries[i];
        write_u64_to_writer(out, h);
        write_u64_to_writer(out, o);
        proof {
            assert(entries@.take(i + 1).drop_last() =~= entries@.take(i as int));
            assert(out@ =~= start + entries_bytes(entries@.take(i + 1)));
        }
    }
    assert(entries@.take(entries@.len() as int) =~= entries@);
}

/// The bytes of `lookup.bin` for the given entries (the header carries the
/// checksum of the entries).
pub fn write_lookup(entries: &[(u64, u64)]) -> (out: Vec<u8>)
    ensures
        out@ == lookup_file_bytes(entries@),
{
    let mut body: Vec<u8> = Vec::new();
    encode_entries(&mut body, entries);
    assert(body@ =~= entries_bytes(entries@));
    let checksum = payload_checksum(body.as_slice());
    let header = LookupHeader { checksum, entry_count: entries.len() as u32 };
    let mut out = encode_lookup_header(&header);
    out.append(&mut body);
    out
}

/// The posting lists, one after the other.
pub open spec fn posting_region(lists: Seq<Seq<u32>>) -> Seq<u8>
    decreases lists.len(),
{
    if lists.len() == 0 {
        Seq::empty()
    } else {
        posting_region(lists.drop_last()) + posting_bytes(lists.last())
    }
}

/// Everything that follows the header of `postings.bin`.
pub open spec fn postings_payload(
    docs: Seq<DocRecord>,
    lists: Seq<Seq<u32>>,
    pairs: Seq<(u16, u32)>,
) -> Seq<u8> {
    doc_table_bytes(docs) + posting_region(lists) + bigram_table_bytes(pairs)
}

/// The bytes of `postings.bin`.
pub open spec fn postings_file_bytes(
    repo: Seq<u8>,
    commit: Seq<u8>,
    docs: Seq<DocRecord>,
    lists: Seq<Seq<u32>>,
    pairs: Seq<(u16, u32)>,
) -> Seq<u8> {
    let table = doc_table_bytes(docs);
    let region = posting_region(lists);
    header_bytes(
        spec_payload_checksum(postings_payload(docs, lists, pairs)),
        256,
        (256 + table.len()) as u64,
        (256 + table.len() + region.len()) as u64,
        docs.len() as u32,
        lists.len() as u32,
        repo,
        commit,
    ) + postings_payload(docs, lists, pairs)
}

/// Where posting list `i` starts in `postings.bin`.
pub open spec fn posting_offset(docs: Seq<DocRecord>, lists: Seq<Seq<u32>>, i: int) -> int {
    (256 + doc_table_bytes(docs).len() + posting_region(lists.take(i)).len()) as int
}

/// The document id lists of the postings, in order.
pub open spec fn posting_lists(postings: Seq<(u64, Vec<u32>)>) -> Seq<Seq<u32>> {
    postings.map_values(|p: (u64, Vec<u32>)| p.1@)
}

/// Encodes `postings.bin` from the documents, the posting list of each gram
/// hash, and the bigram frequencies; returns the file and its lookup
/// entries `(hash, offset of the posting list)`. Fails where a path is too
/// long for its 16-bit length field.
pub fn write_postings(
    repo_id: &str,
    commit_id: &str,
    docs: &[DocumentMeta],
    postings: &[(u64, Vec<u32>)],
    bigram_frequency: &HashMap<u16, u32>,
) -> (r: Result<(Vec<u8>, Vec<(u64, u64)>), FastRegexError>)
    ensures
        r is Ok <==> paths_fit(docs@) && postings_payload(
            doc_records_of(docs@),
            posting_lists(postings@),
            sorted_pairs(bigram_frequency@),
        ).len() + 256 <= u64::MAX,
        r matches Err(e) ==> e is Internal,
        r matches Ok((file, entries)) ==> {
            &&& file@ == postings_file_bytes(
                encode_utf8(repo_id@),
                encode_utf8(commit_id@),
                doc_records_of(docs@),
                posting_lists(postings@),
                sorted_pairs(bigram_frequency@),
            )
            &&& entries@.len() == postings@.len()
            &&& forall|i: int|
                0 <= i < postings@.len() ==> #[trigger] entries@[i] == (
                    postings@[i].0,
                    posting_offset(doc_records_of(docs@), posting_lists(postings@), i) as u64,
                )
        },
{
    let ghost lists = posting_lists(postings@);
    let ghost recs = doc_records_of(docs@);
    let mut payload: Vec<u8> = Vec::new();
    match encode_doc_table(&mut payload, docs) {
        Ok(()) => {},
        Err(e) => {
            return Err(e);
        },
    }
    assert(payload@ =~= doc_table_bytes(recs));
    let table_len = payload.len();
    let mut starts: Vec<usize> = Vec::new();
    for i in 0..postings.len()
        invariant
            lists == posting_lists(postings@),
            recs == doc_records_of(docs@),
            table_len == doc_table_bytes(recs).len(),
            payload@ == doc_table_bytes(recs) + posting_region(lists.take(i as int)),
            starts@.len() == i,
            forall|k: int|
                0 <= k < i ==> #[trigger] starts@[k] + 256 == posting_offset(recs, lists, k),
            forall|k: int| 0 <= k < i ==> #[trigger] starts@[k] <= payload@.len(),
    {
        assert(lists.take(i as int).len() == i);
        starts.push(payload.len());
        encode_posting(&mut payload, postings[i].1.as_slice());
        proof {
            assert(lists.take(i + 1).drop_last() =~= lists.take(i as int));
            assert(lists.take(i + 1).last() == postings@[i as int].1@);
            assert(payload@ =~= doc_table_bytes(recs) + posting_region(lists.take(i + 1)));
        }
    }
    assert(lists.take(postings@.len() as int) =~= lists);
    let region_len = payload.len() - table_len;
    let pairs = bigram_pairs(bigram_frequency);
    encode_bigram_table(&mut payload, pairs.as_slice());
    assert(payload@ =~= postings_payload(recs, lists, sorted_pairs(bigram_frequency@)));
    if payload.len() as u64 > u64::MAX - 256 {
        return Err(FastRegexError::Internal("postings file too large".to_string()));
    }
    let mut entries: Vec<(u64, u64)> = Vec::new();
    for i in 0..postings.len()
        invariant
            starts@.len() == postings@.len(),
            forall|k: int| 0 <= k < starts@.len() ==> #[trigger] starts@[k] <= payload@.len(),
            payload@.len() <= u64::MAX - 256,
            entries@.len() == i,
            forall|k: int|
                0 <= k < i ==> #[trigger] entries@[k] == (postings@[k].0, (starts@[k] + 256) as u64),
    {
        entries.push((postings[i].0, 256 + starts[i] as u64));
    }
    let checksum = payload_checksum(payload.as_slice());
    let header = PostingsHeader {
        checksum,
        doc_table_offset: 256,
        postings_offset: 256 + table_len as u64,
        bigram_offset: 256 + (table_len + region_len) as u64,
        doc_count: docs.len() as u32,
        posting_count: postings.len() as u32,
        repo_id: repo_id.to_string(),
        commit_id: commit_id.to_string(),
    };
    let mut file = encode_postings_header(&header);
    file.append(&mut payload);
    Ok((file, entries))
}

/// The posting lists read recently, kept in least-recently-used order.
pub struct PostingCache {
    cap: usize,
    order: VecDeque<u64>,
    map: HashMap<u64, Vec<u32>>,
}

/// What a posting cache holds: its capacity, its keys from least to most
/// recently used, and the cached lists.
pub struct CacheView {
    pub cap: nat,
    pub order: Seq<u64>,
    pub map: Map<u64, Seq<u32>>,
}

impl View for PostingCache {
    type V = CacheView;

    closed spec fn view(&self) -> CacheView {
        CacheView {
            cap: self.cap as nat,
            order: self.order@,
            map: self.map@.map_values(|v: Vec<u32>| v@),
        }
    }
}

/// How many entries a cache may hold: its capacity, but at least one.
pub open spec fn cache_limit(c: CacheView) -> nat {
    if c.cap == 0 {
        1
    } else {
        c.cap
    }
}

/// The invariant of a cache: each cached key occurs once in the use order,
/// and no more keys are cached than the limit.
pub open spec fn cache_wf(c: CacheView) -> bool {
    &&& c.order.no_duplicates()
    &&& c.order.to_set() == c.map.dom()
    &&& c.order.len() <= cache_limit(c)
}

/// The use order after `h` was used: moved to the end if present.
pub open spec fn bumped(order: Seq<u64>, h: u64) -> Seq<u64> {
    if order.contains(h) {
        order.remove_value(h).push(h)
    } else {
        order
    }
}

/// The cache after a lookup of `h`.
pub open spec fn cache_after_get(c: CacheView, h: u64) -> CacheView {
    CacheView { order: bumped(c.order, h), ..c }
}

/// The cache after `h` was stored with `d`: an existing entry is replaced
/// and becomes the most recent; a new one evicts the least recently used
/// entry when the cache is full.
pub open spec fn cache_after_insert(c: CacheView, h: u64, d: Seq<u32>) -> CacheView {
    if c.map.contains_key(h) {
        CacheView { map: c.map.insert(h, d), order: bumped(c.order, h), ..c }
    } else if c.order.len() >= c.cap && c.order.len() > 0 {
        CacheView {
            map: c.map.remove(c.order[0]).insert(h, d),
            order: c.order.drop_first().push(h),
            ..c
        }
    } else {
        CacheView { map: c.map.insert(h, d), order: c.order.push(h), ..c }
    }
}

proof fn lemma_cache_len(c: CacheView)
    requires
        cache_wf(c),
    ensures
        c.map.dom().len() == c.order.len(),
{
    c.order.unique_seq_to_set();
}

proof fn lemma_bumped(order: Seq<u64>, h: u64, i: int)
    requires
        order.no_duplicates(),
        0 <= i < order.len(),
        order[i] == h,
    ensures
        bumped(order, h) == order.remove(i).push(h),
        bumped(order, h).no_duplicates(),
        bumped(order, h).to_set() == order.to_set(),
        bumped(order, h).len() == order.len(),
{
    assert(order.contains(h));
    let f = order.index_of_first(h);
    order.index_of_first_ensures(h);
    assert(f == Some(i));
    let r = order.remove(i);
    assert forall|a: int, b: int| 0 <= a < b < r.push(h).len() implies r.push(h)[a] != r.push(h)[b] by {
        let ia = if a < i { a } else { a + 1 };
        if b < r.len() {
            let ib = if b < i { b } else { b + 1 };
            assert(order[ia] != order[ib]);
        } else {
            assert(order[ia] != order[i]);
        }
    }
    assert(r.push(h).to_set() =~= order.to_set()) by {
        assert forall|x: u64| order.to_set().contains(x) implies r.push(h).to_set().contains(x) by {
            let k = choose|k: int| 0 <= k < order.len() && order[k] == x;
            if k < i {
                assert(r.push(h)[k] == x);
            } else if k > i {
                assert(r.push(h)[k - 1] == x);
            } else {
                assert(r.push(h)[r.len() as int] == x);
            }
        }
        assert forall|x: u64| r.push(h).to_set().contains(x) implies order.to_set().contains(x) by {
            let k = choose|k: int| 0 <= k < r.push(h).len() && r.push(h)[k] == x;
            if k < r.len() {
                if k < i {
                    assert(order[k] == x);
                } else {
                    assert(order[k + 1] == x);
                }
            } else {
                assert(order[i] == x);
            }
        }
    }
}

/// Storing a list in a cache keeps it well formed, makes the list readable
/// under its key, and keeps every other entry but the one evicted, which is
/// the least recently used key.
pub proof fn lemma_cache_insert(c: CacheView, h: u64, d: Seq<u32>)
    requires
        cache_wf(c),
    ensures
        cache_wf(cache_after_insert(c, h, d)),
        cache_after_insert(c, h, d).map.contains_key(h),
        cache_after_insert(c, h, d).map[h] == d,
        forall|k: u64|
            c.map.contains_key(k) && k != h && !(c.order.len() >= c.cap && !c.map.contains_key(h)
                && k == c.order[0]) ==> #[trigger] cache_after_insert(c, h, d).map.contains_key(k)
                && cache_after_insert(c, h, d).map[k] == c.map[k],
        c.order.len() >= c.cap && !c.map.contains_key(h) && c.order.len() > 0 ==> !cache_after_insert(
            c,
            h,
            d,
        ).map.contains_key(c.order[0]),
{
    let n = cache_after_insert(c, h, d);
    lemma_cache_len(c);
    if c.map.contains_key(h) {
        let i = choose|i: int| 0 <= i < c.order.len() && c.order[i] == h;
        assert(c.order.to_set().contains(h));
        lemma_bumped(c.order, h, i);
        assert(n.order.to_set() =~= n.map.dom());
        return;
    }
    assert(n.order.to_set() =~= n.map.dom()) by {
        assert forall|x: u64| n.order.to_set().contains(x) <==> n.map.dom().contains(x) by {
            if c.order.len() >= c.cap && c.order.len() > 0 {
                if x != h && x != c.order[0] {
                    if c.order.contains(x) {
                        let k = choose|k: int| 0 <= k < c.order.len() && c.order[k] == x;
                        assert(n.order[k - 1] == x);
                    }
                    if n.order.contains(x) {
                        let k = choose|k: int| 0 <= k < n.order.len() && n.order[k] == x;
                        assert(c.order[k + 1] == x);
                    }
                }
                if x == c.order[0] && x != h {
                    if n.order.contains(x) {
                        let k = choose|k: int| 0 <= k < n.order.len() && n.order[k] == x;
                        assert(c.order[k + 1] == x);
                    }
                }
                assert(n.order[n.order.len() - 1] == h);
            } else {
                if c.order.contains(x) {
                    let k = choose|k: int| 0 <= k < c.order.len() && c.order[k] == x;
                    assert(n.order[k] == x);
                }
                if n.order.contains(x) && x != h {
                    let k = choose|k: int| 0 <= k < n.order.len() && n.order[k] == x;
                    assert(c.order[k] == x);
                }
                assert(n.order[n.order.len() - 1] == h);
            }
        }
    }
    assert(n.order.no_duplicates()) by {
        assert forall|a: int, b: int| 0 <= a < b < n.order.len() implies n.order[a]
            != n.order[b] by {
            if b == n.order.len() - 1 {
                if c.order.len() >= c.cap && c.order.len() > 0 {
                    assert(c.order.contains(c.order[a + 1]));
                } else {
                    assert(c.order.contains(c.order[a]));
                }
            }
        }
    }
}

/// A lookup in a cache keeps it well formed and changes no entry; a key it
/// finds becomes the most recently used.
pub proof fn lemma_cache_get(c: CacheView, h: u64)
    requires
        cache_wf(c),
    ensures
        cache_wf(cache_after_get(c, h)),
        cache_after_get(c, h).map == c.map,
        c.map.contains_key(h) ==> cache_after_get(c, h).order.last() == h,
{
    if c.map.contains_key(h) {
        assert(c.order.to_set().contains(h));
        let i = choose|i: int| 0 <= i < c.order.len() && c.order[i] == h;
        lemma_bumped(c.order, h, i);
    } else {
        assert(!c.order.to_set().contains(h));
    }
}

impl PostingCache {
    /// An empty cache that holds up to `cap` lists.
    pub fn new(cap: usize) -> (c: Self)
        ensures
            c@ == (CacheView { cap: cap as nat, order: Seq::empty(), map: Map::empty() }),
            cache_wf(c@),
    {
        let c = PostingCache { cap, order: VecDeque::new(), map: HashMap::new() };
        assert(c@.map =~= Map::<u64, Seq<u32>>::empty());
        assert(c@.order.to_set() =~= Set::<u64>::empty());
        c
    }

    /// The cached list for `hash`, if any; a hit makes `hash` the most
    /// recently used key.
    pub fn get(&mut self, hash: u64) -> (r: Option<Vec<u32>>)
        requires
            cache_wf(old(self)@),
        ensures
            final(self)@ == cache_after_get(old(self)@, hash),
            cache_wf(final(self)@),
            match r {
                Some(v) => old(self)@.map.contains_key(hash) && v@ == old(self)@.map[hash],
                None => !old(self)@.map.contains_key(hash),
            },
    {
        let value = match self.map.get(&hash) {
            Some(v) => v.clone(),
            None => {
                proof {
                    assert(!self@.map.dom().contains(hash));
                    assert(!self.order@.to_set().contains(hash));
                    assert(self@ == cache_after_get(self@, hash));
                }
                return None;
            },
        };
        self.bump(hash);
        Some(value)
    }

    /// Stores `docs` for `hash`, evicting the least recently used entry when
    /// a new key arrives at a full cache.
    pub fn insert(&mut self, hash: u64, docs: Vec<u32>)
        requires
            cache_wf(old(self)@),
        ensures
            final(self)@ == cache_after_insert(old(self)@, hash, docs@),
            cache_wf(final(self)@),
    {
        let ghost c = self@;
        assert(self.map@.dom() =~= c.map.dom());
        if self.map.contains_key(&hash) {
            self.map.insert(hash, docs);
            assert(self.map@.dom() =~= c.map.dom());
            self.bump(hash);
            assert(self@.map =~= c.map.insert(hash, docs@));
            return;
        }
        proof {
            lemma_cache_len(c);
        }
        let full = self.map.len() >= self.cap;
        if full {
            match self.order.pop_front() {
                Some(old) => {
                    self.map.remove(&old);
                    proof {
                        assert(c.order.to_set().contains(c.order[0]));
                        assert(self.order@ =~= c.order.drop_first());
                    }
                },
                None => {},
            }
        }
        self.map.insert(hash, docs);
        self.order.push_back(hash);
        proof {
            let n = cache_after_insert(c, hash, docs@);
            if c.order.len() >= c.cap && c.order.len() > 0 {
                assert(full);
                assert(self@.map =~= n.map);
                assert(self@.order =~= n.order);
            } else {
                assert(self@.map =~= n.map);
                assert(self@.order =~= n.order);
            }
            lemma_cache_insert(c, hash, docs@);
        }
    }

    /// Makes `hash` the most recently used key, if it is cached.
    fn bump(&mut self, hash: u64)
        requires
            cache_wf(old(self)@) || (old(self).order@.no_duplicates() && old(self).order@.to_set()
                == old(self)@.map.dom()),
        ensures
            final(self).order@ == bumped(old(self).order@, hash),
            final(self).map@ == old(self).map@,
            final(self).cap == old(self).cap,
            final(self).order@.no_duplicates(),
            final(self).order@.to_set() == old(self).order@.to_set(),
            final(self).order@.len() == old(self).order@.len(),
    {
        let mut i: usize = 0;
        while i < self.order.len()
            invariant
                self.order@ == old(self).order@,
                self.map@ == old(self).map@,
                self.cap == old(self).cap,
                self.order@.no_duplicates(),
                i <= self.order@.len(),
                forall|k: int| 0 <= k < i ==> self.order@[k] != hash,
            decreases self.order@.len() - i,
        {
            if self.order[i] == hash {
                proof {
                    lemma_bumped(self.order@, hash, i as int);
                }
                self.order.remove(i);
                self.order.push_back(hash);
                return;
            }
            i += 1;
        }
        assert(!self.order@.contains(hash));
    }
}

/// The hash of lookup entry `i` (0 where there is none).
pub open spec fn entry_hash(l: Seq<u8>, i: int) -> u64 {
    match lookup_entry_at(l, i) {
        Some(e) => e.0,
        None => 0,
    }
}

/// The posting offset of lookup entry `i` (0 where there is none).
pub open spec fn entry_offset(l: Seq<u8>, i: int) -> u64 {
    match lookup_entry_at(l, i) {
        Some(e) => e.1,
        None => 0,
    }
}

/// Whether lookup entry `i` is present and names hash `h`.
pub open spec fn entry_names(l: Seq<u8>, i: int, h: u64) -> bool {
    lookup_entry_at(l, i) matches Some(e) && e.0 == h
}

/// Whether some lookup entry below `count` names `h` and points at the
/// posting list `d`.
pub open spec fn listed_posting(p: Seq<u8>, l: Seq<u8>, count: nat, h: u64, d: Seq<u32>) -> bool {
    exists|i: int|
        #![trigger lookup_entry_at(l, i)]
        0 <= i < count && entry_names(l, i, h) && parse_posting(p, entry_offset(l, i) as int)
            == Some(d)
}

/// Whether some lookup entry below `count` names `h`.
pub open spec fn hash_listed(l: Seq<u8>, count: nat, h: u64) -> bool {
    exists|i: int| #![trigger lookup_entry_at(l, i)] 0 <= i < count && entry_names(l, i, h)
}

/// Whether some lookup entry below `count` names `h` and points at bytes that
/// are no posting list.
pub open spec fn listed_unparsable(p: Seq<u8>, l: Seq<u8>, count: nat, h: u64) -> bool {
    exists|i: int|
        #![trigger lookup_entry_at(l, i)]
        0 <= i < count && entry_names(l, i, h) && parse_posting(p, entry_offset(l, i) as int) is None
}

/// Whether the first `count` lookup entries are all present, by strictly
/// increasing hash: what binary search needs.
pub open spec fn lookup_sorted(l: Seq<u8>, count: nat) -> bool {
    &&& forall|i: int| 0 <= i < count ==> (#[trigger] lookup_entry_at(l, i)) is Some
    &&& forall|i: int, j: int|
        0 <= i < j < count ==> #[trigger] entry_hash(l, i) < #[trigger] entry_hash(l, j)
}

/// The index of the last document whose path is `path`.
pub open spec fn last_doc_with_path(docs: Seq<DocumentMeta>, path: Seq<char>) -> Option<int>
    decreases docs.len(),
{
    if docs.len() == 0 {
        None
    } else if docs.last().path@ == path {
        Some(docs.len() - 1)
    } else {
        last_doc_with_path(docs.drop_last(), path)
    }
}

/// The key under which a document position is filed in the path index.
pub open spec fn path_key(d: DocumentMeta) -> u64 {
    spec_xxh3_64(encode_utf8(d.path@))
}

/// Whether `idx` files each document position under the hash of its path,
/// each bucket by increasing position.
pub open spec fn path_index_ok(docs: Seq<DocumentMeta>, idx: Map<u64, Seq<usize>>) -> bool {
    &&& docs.len() <= usize::MAX
    &&& forall|k: u64, j: int|
        #![trigger idx[k][j]]
        idx.contains_key(k) && 0 <= j < idx[k].len() ==> idx[k][j] < docs.len() && path_key(
            docs[idx[k][j] as int],
        ) == k
    &&& forall|k: u64, a: int, b: int|
        #![trigger idx[k][a], idx[k][b]]
        idx.contains_key(k) && 0 <= a < b < idx[k].len() ==> idx[k][a] < idx[k][b]
    &&& forall|i: int|
        #![trigger docs[i]]
        0 <= i < docs.len() ==> idx.contains_key(path_key(docs[i])) && idx[path_key(
            docs[i],
        )].contains(i as usize)
}

/// A loaded index: the decoded header, document table and bigram table, the
/// raw posting and lookup bytes, and a cache of posting lists read.
pub struct IndexSnapshot {
    pub repo_id: String,
    pub commit_id: String,
    pub docs: Vec<DocumentMeta>,
    pub bigram_frequency: HashMap<u16, u32>,
    lookup_bytes: Vec<u8>,
    postings_bytes: Vec<u8>,
    lookup_entry_count: usize,
    path_index: HashMap<u64, Vec<usize>>,
    posting_cache: PostingCache,
}

/// Whether `b` holds, after `offset`, a payload whose checksum is `expected`.
pub open spec fn checksum_ok(b: Seq<u8>, offset: int, expected: u64) -> bool {
    offset <= b.len() && spec_payload_checksum(b.subrange(offset, b.len() as int)) == expected
}

/// Whether the loader accepts the two files.
pub open spec fn snapshot_accepts(p: Seq<u8>, l: Seq<u8>) -> bool {
    &&& postings_header_ok(p)
    &&& checksum_ok(p, 256, u64_at(p, 12))
    &&& lookup_header_ok(l)
    &&& checksum_ok(l, 64, u64_at(l, 12))
    &&& u32_at(p, 48) == u32_at(l, 20)
    &&& u64_at(p, 20) <= u64_at(p, 28) <= p.len()
    &&& parse_docs(p, u64_at(p, 20) as int, u64_at(p, 28) as int, u32_at(p, 44) as nat) is Some
    &&& parse_pairs(p, u64_at(p, 36) as int) is Some
}

impl IndexSnapshot {
    /// The documents.
    pub closed spec fn docs_view(&self) -> Seq<DocumentMeta> {
        self.docs@
    }

    /// The repository id from the header.
    pub closed spec fn repo_view(&self) -> Seq<char> {
        self.repo_id@
    }

    /// The commit id from the header.
    pub closed spec fn commit_view(&self) -> Seq<char> {
        self.commit_id@
    }

    /// The bigram frequencies.
    pub closed spec fn bigram_view(&self) -> Map<u16, u32> {
        self.bigram_frequency@
    }

    /// The bytes of `postings.bin`.
    pub closed spec fn postings(&self) -> Seq<u8> {
        self.postings_bytes@
    }

    /// The bytes of `lookup.bin`.
    pub closed spec fn lookup(&self) -> Seq<u8> {
        self.lookup_bytes@
    }

    /// The number of lookup entries the header announces.
    pub closed spec fn entry_count(&self) -> nat {
        self.lookup_entry_count as nat
    }

    /// The posting cache.
    pub closed spec fn cache(&self) -> CacheView {
        self.posting_cache@
    }

    /// The invariant: the cache is well formed and holds only posting lists
    /// that the files list, and the path index files every document.
    pub closed spec fn wf(&self) -> bool {
        &&& cache_wf(self.posting_cache@)
        &&& forall|h: u64|
            #[trigger] self.posting_cache@.map.contains_key(h) ==> listed_posting(
                self.postings_bytes@,
                self.lookup_bytes@,
                self.lookup_entry_count as nat,
                h,
                self.posting_cache@.map[h],
            )
        &&& path_index_ok(self.docs@, self.path_index@.map_values(|v: Vec<usize>| v@))
    }

    /// Loads an index from the bytes of `postings.bin` and `lookup.bin`:
    /// checks both headers and checksums, that the posting counts agree, and
    /// decodes the document and bigram tables.
    pub fn from_bytes(postings: Vec<u8>, lookup: Vec<u8>) -> (r: Result<IndexSnapshot, FastRegexError>)
        ensures
            r is Ok <==> snapshot_accepts(postings@, lookup@),
            r matches Err(e) ==> e is CorruptIndex,
            r matches Ok(s) ==> {
                &&& s.wf()
                &&& s.postings() == postings@
                &&& s.lookup() == lookup@
                &&& s.entry_count() == u32_at(lookup@, 20)
                &&& s.cache().map == Map::<u64, Seq<u32>>::empty()
                &&& s.repo_view() == spec_utf8_lossy(postings@.subrange(56, 56 + u16_at(postings@, 52)))
                &&& s.commit_view() == spec_utf8_lossy(
                    postings@.subrange(120, 120 + u16_at(postings@, 54)),
                )
                &&& parse_docs(
                    postings@,
                    u64_at(postings@, 20) as int,
                    u64_at(postings@, 28) as int,
                    u32_at(postings@, 44) as nat,
                ) matches Some(recs) && docs_decoded_from(s.docs_view(), recs)
                &&& parse_pairs(postings@, u64_at(postings@, 36) as int) matches Some(pairs)
                    && s.bigram_view() == pairs_map(pairs)
            },
    {
        let postings_header = match decode_postings_header(postings.as_slice()) {
            Ok(h) => h,
            Err(e) => {
                return Err(e);
            },
        };
        match validate_payload_checksum(postings.as_slice(), POSTINGS_HEADER_SIZE, postings_header.checksum) {
            Ok(()) => {},
            Err(e) => {
                return Err(e);
            },
        }
        let lookup_header = match decode_lookup_header(lookup.as_slice()) {
            Ok(h) => h,
            Err(e) => {
                return Err(e);
            },
        };
        match validate_payload_checksum(lookup.as_slice(), LOOKUP_HEADER_SIZE, lookup_header.checksum) {
            Ok(()) => {},
            Err(e) => {
                return Err(e);
            },
        }
        if postings_header.posting_count != lookup_header.entry_count {
            return Err(corrupt("posting_count mismatch between postings.bin and lookup.bin"));
        }
        let docs = match decode_doc_table(postings.as_slice(), &postings_header) {
            Ok(d) => d,
            Err(e) => {
                return Err(e);
            },
        };
        let bigram_frequency = match decode_bigram_table(postings.as_slice(), &postings_header) {
            Ok(m) => m,
            Err(e) => {
                return Err(e);
            },
        };
        let path_index = build_path_index(&docs);
        let posting_cache = PostingCache::new(4096);
        let s = IndexSnapshot {
            repo_id: postings_header.repo_id,
            commit_id: postings_header.commit_id,
            docs,
            bigram_frequency,
            lookup_bytes: lookup,
            postings_bytes: postings,
            lookup_entry_count: lookup_header.entry_count as usize,
            path_index,
            posting_cache,
        };
        Ok(s)
    }

    /// Lookup entry `idx`: a gram hash and the offset of its posting list.
    pub fn lookup_entry(&self, idx: usize) -> (r: Result<(u64, u64), FastRegexError>)
        ensures
            match r {
                Ok(e) => lookup_entry_at(self.lookup(), idx as int) == Some(e),
                Err(e) => lookup_entry_at(self.lookup(), idx as int) is None && e is CorruptIndex,
            },
    {
        read_lookup_entry(self.lookup_bytes.as_slice(), idx)
    }

    /// The posting list stored at `offset` of `postings.bin`.
    pub fn decode_posting(&self, offset: usize) -> (r: Result<Vec<u32>, FastRegexError>)
        ensures
            match r {
                Ok(ids) => parse_posting(self.postings(), offset as int) == Some(ids@),
                Err(e) => parse_posting(self.postings(), offset as int) is None && e is CorruptIndex,
            },
    {
        decode_posting_at(self.postings_bytes.as_slice(), offset)
    }

    /// The posting list of the gram hash `hash`, found by binary search over
    /// the lookup entries; lists read are kept in the cache.
    pub fn posting_for_hash(&mut self, hash: u64) -> (r: Result<Option<Vec<u32>>, FastRegexError>)
        requires
            old(self).wf(),
        ensures
            final(self).wf(),
            final(self).postings() == old(self).postings(),
            final(self).lookup() == old(self).lookup(),
            final(self).entry_count() == old(self).entry_count(),
            final(self).docs_view() == old(self).docs_view(),
            final(self).bigram_view() == old(self).bigram_view(),
            final(self).repo_view() == old(self).repo_view(),
            final(self).commit_view() == old(self).commit_view(),
            match r {
                Ok(Some(d)) => listed_posting(
                    old(self).postings(),
                    old(self).lookup(),
                    old(self).entry_count(),
                    hash,
                    d@,
                ),
                Ok(None) => lookup_sorted(old(self).lookup(), old(self).entry_count()) ==> !hash_listed(
                    old(self).lookup(),
                    old(self).entry_count(),
                    hash,
                ),
                Err(e) => e is CorruptIndex && (lookup_sorted(
                    old(self).lookup(),
                    old(self).entry_count(),
                ) ==> listed_unparsable(
                    old(self).postings(),
                    old(self).lookup(),
                    old(self).entry_count(),
                    hash,
                )),
            },
    {
        let ghost p = self.postings_bytes@;
        let ghost l = self.lookup_bytes@;
        let ghost count = self.lookup_entry_count as nat;
        match self.posting_cache.get(hash) {
            Some(cached) => {
                proof {
                    lemma_cache_get(old(self).posting_cache@, hash);
                }
                return Ok(Some(cached));
            },
            None => {},
        }
        proof {
            lemma_cache_get(old(self).posting_cache@, hash);
        }
        let mut low: usize = 0;
        let mut high: usize = self.lookup_entry_count;
        while low < high
            invariant
                self.wf(),
                p == self.postings_bytes@,
                l == self.lookup_bytes@,
                count == self.lookup_entry_count,
                p == old(self).postings_bytes@,
                l == old(self).lookup_bytes@,
                count == old(self).lookup_entry_count,
                self.docs@ == old(self).docs@,
                self.bigram_frequency@ == old(self).bigram_frequency@,
                self.repo_id@ == old(self).repo_id@,
                self.commit_id@ == old(self).commit_id@,
                low <= high <= count,
                lookup_sorted(l, count) ==> forall|i: int|
                    0 <= i < low ==> #[trigger] entry_hash(l, i) < hash,
                lookup_sorted(l, count) ==> forall|i: int|
                    high <= i < count ==> #[trigger] entry_hash(l, i) > hash,
            decreases high - low,
        {
            let mid = low + (high - low) / 2;
            let (mid_hash, offset) = match read_lookup_entry(self.lookup_bytes.as_slice(), mid) {
                Ok(e) => e,
                Err(e) => {
                    proof {
                        assert(lookup_entry_at(l, mid as int) is None);
                    }
                    return Err(e);
                },
            };
            assert(entry_hash(l, mid as int) == mid_hash);
            if mid_hash == hash {
                assert(entry_names(l, mid as int, hash));
                if offset > usize::MAX as u64 {
                    let plen = self.postings_bytes.len();
                    proof {
                        assert(p.len() == plen);
                        assert(parse_posting(p, entry_offset(l, mid as int) as int) is None);
                        assert(listed_unparsable(p, l, count, hash));
                    }
                    return Err(corrupt("posting offset out of bounds"));
                }
                let docs = match decode_posting_at(self.postings_bytes.as_slice(), offset as usize) {
                    Ok(d) => d,
                    Err(e) => {
                        proof {
                            assert(listed_unparsable(p, l, count, hash));
                        }
                        return Err(e);
                    },
                };
                assert(listed_posting(p, l, count, hash, docs@));
                let ghost before = self.posting_cache@;
                self.posting_cache.insert(hash, docs.clone());
                proof {
                    lemma_cache_insert(before, hash, docs@);
                    assert forall|h: u64| #[trigger] self.posting_cache@.map.contains_key(h) implies listed_posting(
                        p,
                        l,
                        count,
                        h,
                        self.posting_cache@.map[h],
                    ) by {
                        if h != hash {
                            assert(before.map.contains_key(h));
                        }
                    }
                }
                return Ok(Some(docs));
            }
            if mid_hash < hash {
                proof {
                    if lookup_sorted(l, count) {
                        assert forall|i: int| 0 <= i < mid + 1 implies #[trigger] entry_hash(l, i) < hash by {
                            if i < mid {
                                assert(entry_hash(l, i) < entry_hash(l, mid as int));
                            }
                        }
                    }
                }
                low = mid + 1;
            } else {
                proof {
                    if lookup_sorted(l, count) {
                        assert forall|i: int| mid <= i < count implies #[trigger] entry_hash(l, i) > hash by {
                            if i > mid {
                                assert(entry_hash(l, mid as int) < entry_hash(l, i));
                            }
                        }
                    }
                }
                high = mid;
            }
        }
        proof {
            if lookup_sorted(l, count) && hash_listed(l, count, hash) {
                let i = choose|i: int| #![trigger lookup_entry_at(l, i)] 0 <= i < count && entry_names(l, i, hash);
                assert(entry_hash(l, i) == hash);
            }
        }
        Ok(None)
    }

    /// The number of documents.
    pub fn doc_count(&self) -> (n: usize)
        ensures
            n == self.docs_view().len(),
    {
        self.docs.len()
    }

    /// The documents.
    pub fn docs_ref(&self) -> (d: &Vec<DocumentMeta>)
        ensures
            d@ == self.docs_view(),
    {
        &self.docs
    }

    /// The repository id.
    pub fn repo_ref(&self) -> (r: &String)
        ensures
            r@ == self.repo_view(),
    {
        &self.repo_id
    }

    /// The commit id.
    pub fn commit_ref(&self) -> (c: &String)
        ensures
            c@ == self.commit_view(),
    {
        &self.commit_id
    }

    /// The bigram frequencies.
    pub fn bigram_ref(&self) -> (m: &HashMap<u16, u32>)
        ensures
            m@ == self.bigram_view(),
    {
        &self.bigram_frequency
    }

    /// The id of the last document whose path is `path`, if any.
    pub fn doc_id_for_path(&self, path: &str) -> (r: Option<u32>)
        requires
            self.wf(),
        ensures
            r == match last_doc_with_path(self.docs_view(), path@) {
                Some(i) => Some(self.docs_view()[i].doc_id),
                None => None,
            },
    {
        let ghost idx = self.path_index@.map_values(|v: Vec<usize>| v@);
        let ghost docs = self.docs@;
        let key_bytes = path.as_bytes();
        let h = hash_gram(key_bytes);
        proof {
            lemma_last_doc_with_path(docs, path@);
        }
        let bucket = match self.path_index.get(&h) {
            Some(b) => b,
            None => {
                proof {
                    if let Some(i) = last_doc_with_path(docs, path@) {
                        assert(path_key(docs[i]) == h);
                        assert(idx.contains_key(path_key(docs[i])));
                    }
                }
                return None;
            },
        };
        assert(idx.contains_key(h) && idx[h] == bucket@);
        let mut j = bucket.len();
        while j > 0
            invariant
                self.wf(),
                idx == self.path_index@.map_values(|v: Vec<usize>| v@),
                docs == self.docs@,
                idx.contains_key(h),
                idx[h] == bucket@,
                h == spec_xxh3_64(encode_utf8(path@)),
                key_bytes@ == encode_utf8(path@),
                j <= bucket@.len(),
                forall|k: int| j <= k < bucket@.len() ==> docs[#[trigger] bucket@[k] as int].path@ != path@,
                last_doc_with_path(docs, path@) matches Some(i) ==> 0 <= i < docs.len() && docs[i].path@
                    == path@ && forall|m: int| i < m < docs.len() ==> docs[m].path@ != path@,
                last_doc_with_path(docs, path@) is None ==> forall|m: int|
                    0 <= m < docs.len() ==> docs[m].path@ != path@,
            decreases j,
        {
            let i = bucket[j - 1];
            assert(i < docs.len());
            let candidate = &self.docs[i];
            let cand_str = candidate.path.as_str();
            let cand_bytes = cand_str.as_bytes();
            assert(cand_str@ == candidate.path@);
            assert(cand_bytes@ == encode_utf8(candidate.path@));
            assert(key_bytes@ == encode_utf8(path@));
            if bytes_eq(cand_bytes, key_bytes) {
                proof {
                    encode_utf8_decode_utf8(candidate.path@);
                    encode_utf8_decode_utf8(path@);
                    assert(candidate.path@ == path@);
                    let li = last_doc_with_path(docs, path@)->0;
                    assert(last_doc_with_path(docs, path@) is Some) by {
                        if last_doc_with_path(docs, path@) is None {
                            assert(docs[i as int].path@ != path@);
                        }
                    }
                    assert(li >= i);
                    if li > i {
                        assert(path_key(docs[li]) == h);
                        assert(idx[h].contains(li as usize));
                        let t = choose|t: int| 0 <= t < idx[h].len() && idx[h][t] == li as usize;
                        if t < j - 1 {
                            assert(idx[h][t] < idx[h][j - 1]);
                        } else if t > j - 1 {
                            assert(docs[bucket@[t] as int].path@ != path@);
                        }
                        assert(false);
                    }
                    assert(self.docs_view()[li].doc_id == candidate.doc_id);
                }
                return Some(candidate.doc_id);
            }
            proof {
                if candidate.path@ == path@ {
                    assert(encode_utf8(candidate.path@) == encode_utf8(path@));
                }
            }
            j = j - 1;
        }
        proof {
            if last_doc_with_path(docs, path@) is Some {
                let li = last_doc_with_path(docs, path@)->0;
                assert(path_key(docs[li]) == h);
                assert(idx[h].contains(li as usize));
                let t = choose|t: int| 0 <= t < idx[h].len() && idx[h][t] == li as usize;
                assert(docs[li].path@ == path@);
                assert(bucket@[t] as int == li);
                assert(docs[bucket@[t] as int].path@ != path@);
                assert(false);
            }
        }
        None
    }

    /// The document with id `doc_id`, taken as its position in the table.
    pub fn doc_by_id(&self, doc_id: u32) -> (r: Option<&DocumentMeta>)
        ensures
            r == (if (doc_id as int) < self.docs_view().len() {
                Some(&self.docs_view()[doc_id as int])
            } else {
                None
            }),
    {
        let i = doc_id as usize;
        if i < self.docs.len() {
            Some(&self.docs[i])
        } else {
            None
        }
    }

    /// The ids of all documents, in table order.
    pub fn all_doc_ids(&self) -> (ids: Vec<u32>)
        ensures
            ids@ == self.docs_view().map_values(|d: DocumentMeta| d.doc_id),
    {
        let mut ids: Vec<u32> = Vec::new();
        for i in 0..self.docs.len()
            invariant
                ids@ == self.docs@.take(i as int).map_values(|d: DocumentMeta| d.doc_id),
        {
            ids.push(self.docs[i].doc_id);
            assert(self.docs@.take(i + 1).map_values(|d: DocumentMeta| d.doc_id) =~= ids@);
        }
        assert(self.docs@.take(self.docs@.len() as int) =~= self.docs@);
        ids
    }

    /// The ids of the documents that were recorded but not indexed (too
    /// large), in table order.
    pub fn unindexed_doc_ids(&self) -> (ids: Vec<u32>)
        ensures
            ids@ == unindexed_ids(self.docs_view()),
    {
        let mut ids: Vec<u32> = Vec::new();
        for i in 0..self.docs.len()
            invariant
                ids@ == unindexed_ids(self.docs@.take(i as int)),
        {
            assert(self.docs@.take(i + 1).drop_last() =~= self.docs@.take(i as int));
            if !self.docs[i].indexed {
                ids.push(self.docs[i].doc_id);
            }
        }
        assert(self.docs@.take(self.docs@.len() as int) =~= self.docs@);
        ids
    }
}

/// The ids of the documents that are not indexed, in order.
pub open spec fn unindexed_ids(docs: Seq<DocumentMeta>) -> Seq<u32>
    decreases docs.len(),
{
    if docs.len() == 0 {
        Seq::empty()
    } else if docs.last().indexed {
        unindexed_ids(docs.drop_last())
    } else {
        unindexed_ids(docs.drop_last()).push(docs.last().doc_id)
    }
}

proof fn lemma_last_doc_with_path(docs: Seq<DocumentMeta>, path: Seq<char>)
    ensures
        last_doc_with_path(docs, path) matches Some(i) ==> 0 <= i < docs.len() && docs[i].path@
            == path && forall|m: int| i < m < docs.len() ==> docs[m].path@ != path,
        last_doc_with_path(docs, path) is None ==> forall|m: int|
            0 <= m < docs.len() ==> docs[m].path@ != path,
    decreases docs.len(),
{
    if docs.len() > 0 {
        lemma_last_doc_with_path(docs.drop_last(), path);
        if docs.last().path@ != path {
            assert forall|m: int| 0 <= m < docs.len() - 1 implies docs[m] == docs.drop_last()[m] by {}
        }
    }
}

/// Files each document position under the hash of its path.
fn build_path_index(docs: &Vec<DocumentMeta>) -> (idx: HashMap<u64, Vec<usize>>)
    ensures
        path_index_ok(docs@, idx@.map_values(|v: Vec<usize>| v@)),
{
    let mut idx: HashMap<u64, Vec<usize>> = HashMap::new();
    for i in 0..docs.len()
        invariant
            forall|k: u64, j: int|
                #![trigger idx@[k]@[j]]
                idx@.contains_key(k) && 0 <= j < idx@[k]@.len() ==> idx@[k]@[j] < i && path_key(
                    docs@[idx@[k]@[j] as int],
                ) == k,
            forall|k: u64, a: int, b: int|
                #![trigger idx@[k]@[a], idx@[k]@[b]]
                idx@.contains_key(k) && 0 <= a < b < idx@[k]@.len() ==> idx@[k]@[a] < idx@[k]@[b],
            forall|m: int|
                #![trigger docs@[m]]
                0 <= m < i ==> idx@.contains_key(path_key(docs@[m])) && idx@[path_key(
                    docs@[m],
                )]@.contains(m as usize),
    {
        let h = hash_gram(docs[i].path.as_str().as_bytes());
        let mut bucket = match idx.get(&h) {
            Some(b) => b.clone(),
            None => Vec::new(),
        };
        let ghost old_idx = idx@;
        proof {
            if old_idx.contains_key(h) {
                assert(bucket@ =~= old_idx[h]@);
            }
        }
        bucket.push(i);
        idx.insert(h, bucket);
        proof {
            assert forall|m: int| #![trigger docs@[m]] 0 <= m < i + 1 implies idx@.contains_key(
                path_key(docs@[m]),
            ) && idx@[path_key(docs@[m])]@.contains(m as usize) by {
                if m < i {
                    let k = path_key(docs@[m]);
                    let t = choose|t: int| 0 <= t < old_idx[k]@.len() && old_idx[k]@[t] == m as usize;
                    assert(idx@[k]@[t] == m as usize);
                } else {
                    assert(idx@[h]@[idx@[h]@.len() - 1] == i);
                }
            }
        }
    }
    let ghost v = idx@.map_values(|v: Vec<usize>| v@);
    let n = docs.len();
    assert(docs@.len() <= usize::MAX);
    assert forall|k: u64, j: int| #![trigger v[k][j]] v.contains_key(k) && 0 <= j < v[k].len() implies v[k][j]
        < docs@.len() && path_key(docs@[v[k][j] as int]) == k by {
        assert(idx@[k]@[j] == v[k][j]);
    }
    assert forall|k: u64, a: int, b: int| #![trigger v[k][a], v[k][b]] v.contains_key(k) && 0 <= a < b < v[k].len() implies v[k][a]
        < v[k][b] by {
        assert(idx@[k]@[a] == v[k][a]);
        assert(idx@[k]@[b] == v[k][b]);
    }
    assert forall|m: int| #![trigger docs@[m]] 0 <= m < docs@.len() implies v.contains_key(path_key(docs@[m]))
        && v[path_key(docs@[m])].contains(m as usize) by {
        let k = path_key(docs@[m]);
        assert(idx@[k]@.contains(m as usize));
    }
    idx
}

/// Limits of the index builder.
#[derive(Debug, Clone, Copy)]
pub struct BuildConfig {
    pub max_span_bigrams: usize,
    pub max_grams_per_file: usize,
    pub max_covering_grams: usize,
    pub max_file_bytes: usize,
}

impl Default for BuildConfig {
    fn default() -> (cfg: Self)
        ensures
            cfg.max_span_bigrams == 24,
            cfg.max_grams_per_file == 40_000,
            cfg.max_covering_grams == 12,
            cfg.max_file_bytes == 2 * 1024 * 1024,
    {
        BuildConfig {
            max_span_bigrams: 24,
            max_grams_per_file: 40_000,
            max_covering_grams: 12,
            max_file_bytes: 2 * 1024 * 1024,
        }
    }
}

/// The sparse-gram limits that a build configuration implies.
pub open spec fn spec_sparse_config(cfg: BuildConfig) -> SparseConfig {
    SparseConfig {
        max_span_bigrams: cfg.max_span_bigrams,
        max_grams_per_text: cfg.max_grams_per_file,
        max_covering_grams: cfg.max_covering_grams,
    }
}

impl BuildConfig {
    /// The sparse-gram limits of this configuration.
    pub fn sparse_config(&self) -> (c: SparseConfig)
        ensures
            c == spec_sparse_config(*self),
    {
        SparseConfig {
            max_span_bigrams: self.max_span_bigrams,
            max_grams_per_text: self.max_grams_per_file,
            max_covering_grams: self.max_covering_grams,
        }
    }
}

/// What a build produced: how many documents and posting lists.
#[derive(Debug, Clone, Copy)]
pub struct BuildStats {
    pub doc_count: usize,
    pub posting_count: usize,
}

/// The hash of every trigram of `text`, by position.
pub open spec fn trigram_hash_seq(text: Seq<u8>) -> Seq<u64> {
    if text.len() < 3 {
        Seq::empty()
    } else {
        Seq::new((text.len() - 2) as nat, |i: int| spec_xxh3_64(text.subrange(i, i + 3)))
    }
}

/// `acc` with the hashes of `grams` added in order, stopping after the
/// addition that brings the set to `cap` hashes.
pub open spec fn add_gram_hashes(acc: Set<u64>, grams: Seq<Seq<u8>>, cap: nat) -> Set<u64>
    decreases grams.len(),
{
    if grams.len() == 0 {
        acc
    } else {
        let next = acc.insert(spec_xxh3_64(grams[0]));
        if next.len() >= cap {
            next
        } else {
            add_gram_hashes(next, grams.drop_first(), cap)
        }
    }
}

/// The gram hashes under which a text is indexed: every trigram, then the
/// sparse grams until the set reaches the per-file limit.
pub open spec fn spec_index_hashes(text: Seq<u8>, freq: Map<u16, u32>, cfg: BuildConfig) -> Set<u64> {
    add_gram_hashes(
        trigram_hash_seq(text).to_set(),
        grams_bytes(text, spec_sparse_grams(text, freq, spec_sparse_config(cfg))),
        cfg.max_grams_per_file as nat,
    )
}

proof fn lemma_add_gram_hashes_step(acc: Set<u64>, grams: Seq<Seq<u8>>, i: int, cap: nat)
    requires
        0 <= i < grams.len(),
    ensures
        ({
            let next = acc.insert(spec_xxh3_64(grams[i]));
            add_gram_hashes(acc, grams.subrange(i, grams.len() as int), cap) == if next.len() >= cap {
                next
            } else {
                add_gram_hashes(next, grams.subrange(i + 1, grams.len() as int), cap)
            }
        }),
{
    let g = grams.subrange(i, grams.len() as int);
    assert(g[0] == grams[i]);
    assert(g.drop_first() =~= grams.subrange(i + 1, grams.len() as int));
}

/// Adds `h` to the set, and to the end of the list if it is new.
fn add_distinct_hash(out: &mut HashSet<u64>, order: &mut Vec<u64>, h: u64)
    requires
        old(order)@.no_duplicates(),
        old(order)@.to_set() == old(out)@,
    ensures
        final(out)@ == old(out)@.insert(h),
        final(order)@.no_duplicates(),
        final(order)@.to_set() == final(out)@,
        final(order)@ == if old(out)@.contains(h) {
            old(order)@
        } else {
            old(order)@.push(h)
        },
{
    let ghost before = order@;
    if out.insert(h) {
        order.push(h);
        proof {
            before.lemma_push_to_set_commute(h);
            assert forall|a: int, b: int| 0 <= a < b < order@.len() implies order@[a] != order@[b] by {
                if b == order@.len() - 1 {
                    assert(before.to_set().contains(before[a]));
                }
            }
        }
    } else {
        assert(out@ =~= old(out)@.insert(h));
    }
}

/// The gram hashes of `text`, as a set and as a list without repeats in the
/// order they were first met.
pub(crate) fn index_hash_list(text: &[u8], bigram_frequency: &HashMap<u16, u32>, config: &BuildConfig) -> (r: (
    HashSet<u64>,
    Vec<u64>,
))
    ensures
        r.0@ == spec_index_hashes(text@, bigram_frequency@, *config),
        r.1@.no_duplicates(),
        r.1@.to_set() == r.0@,
{
    let mut out: HashSet<u64> = HashSet::new();
    let mut order: Vec<u64> = Vec::new();
    let ghost tri = trigram_hash_seq(text@);
    if text.len() >= 3 {
        for i in 0..text.len() - 2
            invariant
                text@.len() == text.len(),
                text.len() >= 3,
                tri == trigram_hash_seq(text@),
                out@ == tri.take(i as int).to_set(),
                order@.no_duplicates(),
                order@.to_set() == out@,
        {
            let h = hash_gram(&text[i..i + 3]);
            assert(h == tri[i as int]);
            proof {
                assert(tri.take(i + 1) =~= tri.take(i as int).push(h));
                tri.take(i as int).lemma_push_to_set_commute(h);
            }
            add_distinct_hash(&mut out, &mut order, h);
        }
        assert(tri.take(tri.len() as int) =~= tri);
    } else {
        assert(tri.to_set() =~= Set::<u64>::empty());
    }
    let sparse_cfg = config.sparse_config();
    let grams = build_all_sparse_ngrams(text, bigram_frequency, sparse_cfg);
    let ghost gs = grams_bytes(text@, spec_sparse_grams(text@, bigram_frequency@, sparse_cfg));
    let ghost cap = config.max_grams_per_file as nat;
    let ghost start = out@;
    assert(gs.subrange(0, gs.len() as int) =~= gs);
    let mut j: usize = 0;
    while j < grams.len()
        invariant_except_break
            add_gram_hashes(start, gs, cap) == add_gram_hashes(out@, gs.subrange(j as int, gs.len() as int), cap),
        invariant
            j <= grams@.len(),
            cap == config.max_grams_per_file as nat,
            grams@.map_values(|v: Vec<u8>| v@) == gs,
            out@.finite(),
            order@.no_duplicates(),
            order@.to_set() == out@,
        ensures
            out@ == add_gram_hashes(start, gs, cap),
        decreases grams@.len() - j,
    {
        let h = hash_gram(grams[j].as_slice());
        assert(h == spec_xxh3_64(gs[j as int]));
        proof {
            lemma_add_gram_hashes_step(out@, gs, j as int, cap);
        }
        add_distinct_hash(&mut out, &mut order, h);
        let n = out.len();
        assert(n == out@.len());
        if out.len() >= config.max_grams_per_file {
            break;
        }
        j += 1;
    }
    (out, order)
}

/// The gram hashes under which a text is indexed: the hash of every
/// trigram, then of the sparse grams until the per-file limit is reached.
pub fn extract_index_hashes(text: &[u8], bigram_frequency: &HashMap<u16, u32>, config: &BuildConfig) -> (out: HashSet<u64>)
    ensures
        out@ == spec_index_hashes(text@, bigram_frequency@, *config),
{
    index_hash_list(text, bigram_frequency, config).0
}

proof fn lemma_le_roundtrips()
    ensures
        forall|x: u16|
            #![trigger spec_u16_to_le_bytes(x)]
            spec_u16_to_le_bytes(x).len() == 2 && spec_u16_from_le_bytes(spec_u16_to_le_bytes(x)) == x,
        forall|x: u32|
            #![trigger spec_u32_to_le_bytes(x)]
            spec_u32_to_le_bytes(x).len() == 4 && spec_u32_from_le_bytes(spec_u32_to_le_bytes(x)) == x,
        forall|x: u64|
            #![trigger spec_u64_to_le_bytes(x)]
            spec_u64_to_le_bytes(x).len() == 8 && spec_u64_from_le_bytes(spec_u64_to_le_bytes(x)) == x,
{
    assert forall|x: u16|
        #![trigger spec_u16_to_le_bytes(x)]
        spec_u16_to_le_bytes(x).len() == 2 && spec_u16_from_le_bytes(spec_u16_to_le_bytes(x))
            == x by {
        lemma_auto_spec_u16_to_from_le_bytes();
        assert(spec_u16_to_le_bytes(x).len() == 2);
    }
    lemma_auto_spec_u32_to_from_le_bytes();
    lemma_auto_spec_u64_to_from_le_bytes();
}


proof fn lemma_add_gram_hashes_props(acc: Set<u64>, grams: Seq<Seq<u8>>, cap: nat)
    requires
        acc.finite(),
    ensures
        ({
            let r = add_gram_hashes(acc, grams, cap);
            &&& r.finite()
            &&& acc.subset_of(r)
            &&& r.len() <= if acc.len() + 1 >= cap { (acc.len() + 1) as int } else { cap as int }
            &&& forall|h: u64|
                #[trigger] r.contains(h) ==> acc.contains(h) || exists|i: int|
                    0 <= i < grams.len() && spec_xxh3_64(#[trigger] grams[i]) == h
        }),
    decreases grams.len(),
{
    if grams.len() > 0 {
        let x = spec_xxh3_64(grams[0]);
        let next = acc.insert(x);
        assert(next.len() <= acc.len() + 1);
        if next.len() < cap {
            lemma_add_gram_hashes_props(next, grams.drop_first(), cap);
            let r = add_gram_hashes(acc, grams, cap);
            assert forall|h: u64| #[trigger] r.contains(h) implies acc.contains(h) || exists|i: int|
                0 <= i < grams.len() && spec_xxh3_64(#[trigger] grams[i]) == h by {
                if !acc.contains(h) {
                    if h == x {
                        assert(spec_xxh3_64(grams[0]) == h);
                    } else {
                        assert(next.contains(h) || exists|i: int|
                            0 <= i < grams.drop_first().len() && spec_xxh3_64(#[trigger] grams.drop_first()[i]) == h);
                        if !next.contains(h) {
                            let i = choose|i: int|
                                0 <= i < grams.drop_first().len() && spec_xxh3_64(#[trigger] grams.drop_first()[i]) == h;
                            assert(grams[i + 1] == grams.drop_first()[i]);
                        }
                    }
                }
            }
        } else {
            assert forall|h: u64| #[trigger] next.contains(h) implies acc.contains(h) || exists|i: int|
                0 <= i < grams.len() && spec_xxh3_64(#[trigger] grams[i]) == h by {
                if h == x {
                    assert(spec_xxh3_64(grams[0]) == h);
                }
            }
        }
    }
}

/// What the gram hashes of a text are: each is the hash of a stretch of the
/// text of at least three bytes and at most three or `max_span_bigrams + 1`
/// bytes, whichever is more; the hash of every three-byte window is among
/// them; and there are no more of them than one past the number of
/// three-byte windows, or the per-file limit, whichever is more.
pub proof fn lemma_index_hash_laws(text: Seq<u8>, freq: Map<u16, u32>, cfg: BuildConfig)
    requires
        text.len() <= usize::MAX,
    ensures
        ({
            let hs = spec_index_hashes(text, freq, cfg);
            let longest = if cfg.max_span_bigrams + 1 >= 3 { cfg.max_span_bigrams + 1 } else { 3 };
            let windows = if text.len() >= 3 { text.len() - 2 } else { 0 };
            &&& hs.finite()
            &&& forall|h: u64|
                #[trigger] hs.contains(h) ==> exists|st: int, en: int|
                    0 <= st && st + 3 <= en <= text.len() && en - st <= longest && #[trigger] spec_xxh3_64(
                        text.subrange(st, en),
                    ) == h
            &&& forall|st: int|
                0 <= st && st + 3 <= text.len() ==> hs.contains(#[trigger] spec_xxh3_64(text.subrange(st, st + 3)))
            &&& hs.len() <= if windows + 1 >= cfg.max_grams_per_file { windows + 1 } else {
                cfg.max_grams_per_file as int
            }
        }),
{
    let tri = trigram_hash_seq(text);
    let acc = tri.to_set();
    let sg = spec_sparse_grams(text, freq, spec_sparse_config(cfg));
    let gb = grams_bytes(text, sg);
    let hs = spec_index_hashes(text, freq, cfg);
    let longest = if cfg.max_span_bigrams + 1 >= 3 { cfg.max_span_bigrams + 1 } else { 3 };
    vstd::seq_lib::seq_to_set_is_finite(tri);
    tri.lemma_cardinality_of_set();
    lemma_add_gram_hashes_props(acc, gb, cfg.max_grams_per_file as nat);
    lemma_sparse_gram_laws(text, freq, spec_sparse_config(cfg));
    assert forall|h: u64| #[trigger] hs.contains(h) implies exists|st: int, en: int|
        0 <= st && st + 3 <= en <= text.len() && en - st <= longest && #[trigger] spec_xxh3_64(text.subrange(st, en))
            == h by {
        if acc.contains(h) {
            let k = choose|k: int| 0 <= k < tri.len() && tri[k] == h;
            assert(spec_xxh3_64(text.subrange(k, k + 3)) == h);
        } else {
            let i = choose|i: int| 0 <= i < gb.len() && spec_xxh3_64(#[trigger] gb[i]) == h;
            let g = sg[i];
            assert(gram_in_span(g, text.len() as int, cfg.max_span_bigrams as int));
            assert(gb[i] == gram_bytes(text, g));
            assert(spec_xxh3_64(text.subrange(g.start as int, g.end as int)) == h);
        }
    }
    assert forall|st: int| 0 <= st && st + 3 <= text.len() implies hs.contains(
        #[trigger] spec_xxh3_64(text.subrange(st, st + 3)),
    ) by {
        assert(tri[st] == spec_xxh3_64(text.subrange(st, st + 3)));
        assert(acc.contains(tri[st]));
    }
}

} // verus!
