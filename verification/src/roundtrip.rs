use vstd::bytes::*;
use vstd::prelude::*;

use crate::index::{
    bigram_table_bytes, checksum_ok, lookup_entry_at, lookup_file_bytes, pairs_below, pairs_map,
    posting_offset, postings_file_bytes, postings_payload, snapshot_accepts, sorted_pairs,
    spec_payload_checksum, clip64, header_bytes, lookup_header_bytes, postings_header_ok, lookup_header_ok, spec_lookup_magic,
    spec_postings_magic, zeros, LookupHeader, doc_record_bytes, doc_table_bytes, entries_bytes, i64_at, pairs_bytes, parse_doc, parse_docs,
    parse_pairs, parse_posting, posting_bytes, posting_region, prepend_docs, spec_i64_to_le_bytes,
    u16_at, u32_at, u32s_bytes, u64_at, DocRecord,
};

verus! {


proof fn lemma_u16_read(b: Seq<u8>, off: int, x: u16)
    requires
        0 <= off,
        off + 2 <= b.len(),
        b.subrange(off, off + 2) == spec_u16_to_le_bytes(x),
    ensures
        u16_at(b, off) == x,
{
    lemma_auto_spec_u16_to_from_le_bytes();
    assert(spec_u16_to_le_bytes(x).len() == 2);
}

proof fn lemma_u32_read(b: Seq<u8>, off: int, x: u32)
    requires
        0 <= off,
        off + 4 <= b.len(),
        b.subrange(off, off + 4) == spec_u32_to_le_bytes(x),
    ensures
        u32_at(b, off) == x,
{
    lemma_auto_spec_u32_to_from_le_bytes();
    assert(spec_u32_to_le_bytes(x).len() == 4);
}

proof fn lemma_u64_read(b: Seq<u8>, off: int, x: u64)
    requires
        0 <= off,
        off + 8 <= b.len(),
        b.subrange(off, off + 8) == spec_u64_to_le_bytes(x),
    ensures
        u64_at(b, off) == x,
{
    lemma_auto_spec_u64_to_from_le_bytes();
}

proof fn lemma_i64_read(b: Seq<u8>, off: int, x: i64)
    requires
        0 <= off,
        off + 8 <= b.len(),
        b.subrange(off, off + 8) == spec_i64_to_le_bytes(x),
    ensures
        i64_at(b, off) == x,
{
    lemma_auto_spec_u64_to_from_le_bytes();
    assert((x as u64) as i64 == x) by (bit_vector);
}

proof fn lemma_le_lens()
    ensures
        forall|x: u16| #![trigger spec_u16_to_le_bytes(x)] spec_u16_to_le_bytes(x).len() == 2,
        forall|x: u32| #![trigger spec_u32_to_le_bytes(x)] spec_u32_to_le_bytes(x).len() == 4,
        forall|x: u64| #![trigger spec_u64_to_le_bytes(x)] spec_u64_to_le_bytes(x).len() == 8,
{
    assert forall|x: u16| #![trigger spec_u16_to_le_bytes(x)] spec_u16_to_le_bytes(x).len() == 2 by {
        lemma_auto_spec_u16_to_from_le_bytes();
    }
    lemma_auto_spec_u32_to_from_le_bytes();
    lemma_auto_spec_u64_to_from_le_bytes();
}

/// The length of one document record.
proof fn lemma_record_len(d: DocRecord)
    ensures
        doc_record_bytes(d).len() == d.path.len() + 23,
{
    lemma_le_lens();
}

/// The document table, read from the front: the first record, then the rest.
proof fn lemma_table_front(docs: Seq<DocRecord>)
    requires
        docs.len() > 0,
    ensures
        doc_table_bytes(docs) == doc_record_bytes(docs[0]) + doc_table_bytes(docs.drop_first()),
    decreases docs.len(),
{
    if docs.len() == 1 {
        assert(docs.drop_first() =~= Seq::<DocRecord>::empty());
        assert(docs.drop_last() =~= Seq::<DocRecord>::empty());
        assert(doc_table_bytes(Seq::<DocRecord>::empty()) =~= Seq::<u8>::empty());
        assert(doc_table_bytes(docs) =~= doc_record_bytes(docs[0]));
        assert(doc_record_bytes(docs[0]) + Seq::<u8>::empty() =~= doc_record_bytes(docs[0]));
    } else {
        lemma_table_front(docs.drop_last());
        assert(docs.drop_last().drop_first() =~= docs.drop_first().drop_last());
        assert(docs.drop_first().last() == docs.last());
        assert(doc_table_bytes(docs) =~= doc_record_bytes(docs[0]) + doc_table_bytes(
            docs.drop_first(),
        ));
    }
}

/// The decoder reads back a record that was written at `c`.
proof fn lemma_parse_one(b: Seq<u8>, c: int, end: int, d: DocRecord)
    requires
        0 <= c,
        c + doc_record_bytes(d).len() <= end <= b.len(),
        b.subrange(c, c + doc_record_bytes(d).len()) == doc_record_bytes(d),
        d.path.len() <= u16::MAX,
    ensures
        parse_doc(b, c, end) == Some((d, c + doc_record_bytes(d).len())),
{
    lemma_le_lens();
    let r = doc_record_bytes(d);
    let pl = d.path.len() as int;
    lemma_record_len(d);
    assert(b.subrange(c, c + 4) =~= r.subrange(0, 4));
    assert(r.subrange(0, 4) =~= spec_u32_to_le_bytes(d.doc_id));
    lemma_u32_read(b, c, d.doc_id);
    assert(b.subrange(c + 4, c + 6) =~= r.subrange(4, 6));
    assert(r.subrange(4, 6) =~= spec_u16_to_le_bytes(pl as u16));
    lemma_u16_read(b, c + 4, pl as u16);
    assert(b.subrange(c + 6, c + 6 + pl) =~= r.subrange(6, 6 + pl));
    assert(r.subrange(6, 6 + pl) =~= d.path);
    let q = c + 6 + pl;
    assert(b.subrange(q, q + 8) =~= r.subrange(6 + pl, 14 + pl));
    assert(r.subrange(6 + pl, 14 + pl) =~= spec_u64_to_le_bytes(d.size));
    lemma_u64_read(b, q, d.size);
    assert(b.subrange(q + 8, q + 16) =~= r.subrange(14 + pl, 22 + pl));
    assert(r.subrange(14 + pl, 22 + pl) =~= spec_i64_to_le_bytes(d.mtime_secs));
    lemma_i64_read(b, q + 8, d.mtime_secs);
    assert(b[q + 16] == r[22 + pl]);
    let got = DocRecord {
        doc_id: u32_at(b, c),
        path: b.subrange(c + 6, q),
        size: u64_at(b, q),
        mtime_secs: i64_at(b, q + 8),
        indexed: b[q + 16] != 0,
    };
    assert(got == d);
}

/// The decoder reads back every record of a table written at `c`.
pub proof fn lemma_parse_table(b: Seq<u8>, c: int, end: int, docs: Seq<DocRecord>)
    requires
        0 <= c,
        c + doc_table_bytes(docs).len() <= end <= b.len(),
        b.subrange(c, c + doc_table_bytes(docs).len()) == doc_table_bytes(docs),
        forall|k: int| 0 <= k < docs.len() ==> #[trigger] docs[k].path.len() <= u16::MAX,
    ensures
        parse_docs(b, c, end, docs.len()) == Some(docs),
    decreases docs.len(),
{
    if docs.len() == 0 {
        assert(parse_docs(b, c, end, 0) == Some(Seq::<DocRecord>::empty()));
        assert(docs =~= Seq::<DocRecord>::empty());
    } else {
        lemma_table_front(docs);
        let d = docs[0];
        let rest = docs.drop_first();
        let r = doc_record_bytes(d);
        let t = doc_table_bytes(rest);
        assert(b.subrange(c, c + r.len()) =~= (r + t).subrange(0, r.len() as int));
        assert((r + t).subrange(0, r.len() as int) =~= r);
        lemma_parse_one(b, c, end, d);
        assert(b.subrange(c + r.len(), c + r.len() + t.len()) =~= (r + t).subrange(
            r.len() as int,
            (r.len() + t.len()) as int,
        ));
        assert((r + t).subrange(r.len() as int, (r.len() + t.len()) as int) =~= t);
        assert forall|k: int| 0 <= k < rest.len() implies #[trigger] rest[k].path.len() <= u16::MAX by {
            assert(rest[k] == docs[k + 1]);
        }
        lemma_parse_table(b, c + r.len(), end, rest);
        assert(seq![d] + rest =~= docs);
    }
}

/// The little-endian ids, each read back at four times its position.
proof fn lemma_u32s_layout(ids: Seq<u32>)
    ensures
        u32s_bytes(ids).len() == 4 * ids.len(),
        forall|i: int|
            0 <= i < ids.len() ==> #[trigger] u32s_bytes(ids).subrange(4 * i, 4 * i + 4)
                == spec_u32_to_le_bytes(ids[i]),
    decreases ids.len(),
{
    lemma_le_lens();
    if ids.len() > 0 {
        let pre = ids.drop_last();
        lemma_u32s_layout(pre);
        let a = u32s_bytes(pre);
        let b = spec_u32_to_le_bytes(ids.last());
        assert forall|i: int| 0 <= i < ids.len() implies #[trigger] u32s_bytes(ids).subrange(
            4 * i,
            4 * i + 4,
        ) == spec_u32_to_le_bytes(ids[i]) by {
            if i < pre.len() {
                assert((a + b).subrange(4 * i, 4 * i + 4) =~= a.subrange(4 * i, 4 * i + 4));
                assert(pre[i] == ids[i]);
            } else {
                assert((a + b).subrange(4 * i, 4 * i + 4) =~= b);
            }
        }
    }
}

/// The pairs, each read back at six times its position.
proof fn lemma_pairs_layout(p: Seq<(u16, u32)>)
    ensures
        pairs_bytes(p).len() == 6 * p.len(),
        forall|i: int|
            0 <= i < p.len() ==> #[trigger] pairs_bytes(p).subrange(6 * i, 6 * i + 2)
                == spec_u16_to_le_bytes(p[i].0) && pairs_bytes(p).subrange(6 * i + 2, 6 * i + 6)
                == spec_u32_to_le_bytes(p[i].1),
    decreases p.len(),
{
    lemma_le_lens();
    if p.len() > 0 {
        let pre = p.drop_last();
        lemma_pairs_layout(pre);
        let a = pairs_bytes(pre);
        let k = spec_u16_to_le_bytes(p.last().0);
        let v = spec_u32_to_le_bytes(p.last().1);
        assert forall|i: int| 0 <= i < p.len() implies #[trigger] pairs_bytes(p).subrange(
            6 * i,
            6 * i + 2,
        ) == spec_u16_to_le_bytes(p[i].0) && pairs_bytes(p).subrange(6 * i + 2, 6 * i + 6)
            == spec_u32_to_le_bytes(p[i].1) by {
            if i < pre.len() {
                assert((a + k + v).subrange(6 * i, 6 * i + 2) =~= a.subrange(6 * i, 6 * i + 2));
                assert((a + k + v).subrange(6 * i + 2, 6 * i + 6) =~= a.subrange(6 * i + 2, 6 * i + 6));
                assert(pre[i] == p[i]);
            } else {
                assert((a + k + v).subrange(6 * i, 6 * i + 2) =~= k);
                assert((a + k + v).subrange(6 * i + 2, 6 * i + 6) =~= v);
            }
        }
    }
}

/// The lookup entries, each read back at sixteen times its position.
pub proof fn lemma_entries_layout(e: Seq<(u64, u64)>)
    ensures
        entries_bytes(e).len() == 16 * e.len(),
        forall|i: int|
            0 <= i < e.len() ==> #[trigger] entries_bytes(e).subrange(16 * i, 16 * i + 8)
                == spec_u64_to_le_bytes(e[i].0) && entries_bytes(e).subrange(16 * i + 8, 16 * i + 16)
                == spec_u64_to_le_bytes(e[i].1),
    decreases e.len(),
{
    lemma_le_lens();
    if e.len() > 0 {
        let pre = e.drop_last();
        lemma_entries_layout(pre);
        let a = entries_bytes(pre);
        let h = spec_u64_to_le_bytes(e.last().0);
        let o = spec_u64_to_le_bytes(e.last().1);
        assert forall|i: int| 0 <= i < e.len() implies #[trigger] entries_bytes(e).subrange(
            16 * i,
            16 * i + 8,
        ) == spec_u64_to_le_bytes(e[i].0) && entries_bytes(e).subrange(16 * i + 8, 16 * i + 16)
            == spec_u64_to_le_bytes(e[i].1) by {
            if i < pre.len() {
                assert((a + h + o).subrange(16 * i, 16 * i + 8) =~= a.subrange(16 * i, 16 * i + 8));
                assert((a + h + o).subrange(16 * i + 8, 16 * i + 16) =~= a.subrange(
                    16 * i + 8,
                    16 * i + 16,
                ));
                assert(pre[i] == e[i]);
            } else {
                assert((a + h + o).subrange(16 * i, 16 * i + 8) =~= h);
                assert((a + h + o).subrange(16 * i + 8, 16 * i + 16) =~= o);
            }
        }
    }
}

/// The decoder reads back a posting list written at `off`.
pub proof fn lemma_parse_posting(b: Seq<u8>, off: int, ids: Seq<u32>)
    requires
        0 <= off,
        off + posting_bytes(ids).len() <= b.len(),
        b.subrange(off, off + posting_bytes(ids).len()) == posting_bytes(ids),
        ids.len() <= u32::MAX,
    ensures
        parse_posting(b, off) == Some(ids),
{
    lemma_le_lens();
    lemma_u32s_layout(ids);
    let head = spec_u32_to_le_bytes(ids.len() as u32);
    let body = u32s_bytes(ids);
    assert(b.subrange(off, off + 4) =~= (head + body).subrange(0, 4));
    assert((head + body).subrange(0, 4) =~= head);
    lemma_u32_read(b, off, ids.len() as u32);
    assert forall|i: int| 0 <= i < ids.len() implies u32_at(b, off + 4 + 4 * i) == ids[i] by {
        assert(b.subrange(off + 4 + 4 * i, off + 4 + 4 * i + 4) =~= (head + body).subrange(
            4 + 4 * i,
            8 + 4 * i,
        ));
        assert((head + body).subrange(4 + 4 * i, 8 + 4 * i) =~= body.subrange(4 * i, 4 * i + 4));
        lemma_u32_read(b, off + 4 + 4 * i, ids[i]);
    }
    assert(Seq::new(ids.len(), |i: int| u32_at(b, off + 4 + 4 * i)) =~= ids);
}

/// The decoder reads back a bigram table written at `off`.
pub proof fn lemma_parse_pairs(b: Seq<u8>, off: int, p: Seq<(u16, u32)>)
    requires
        0 <= off,
        off + 4 + pairs_bytes(p).len() <= b.len(),
        b.subrange(off, off + 4 + pairs_bytes(p).len()) == spec_u32_to_le_bytes(p.len() as u32)
            + pairs_bytes(p),
        p.len() <= u32::MAX,
    ensures
        parse_pairs(b, off) == Some(p),
{
    lemma_le_lens();
    lemma_pairs_layout(p);
    let head = spec_u32_to_le_bytes(p.len() as u32);
    let body = pairs_bytes(p);
    assert(b.subrange(off, off + 4) =~= (head + body).subrange(0, 4));
    assert((head + body).subrange(0, 4) =~= head);
    lemma_u32_read(b, off, p.len() as u32);
    assert forall|i: int|
        0 <= i < p.len() implies u16_at(b, off + 4 + 6 * i) == p[i].0 && u32_at(b, off + 4 + 6 * i + 2)
        == p[i].1 by {
        assert(b.subrange(off + 4 + 6 * i, off + 4 + 6 * i + 2) =~= (head + body).subrange(
            4 + 6 * i,
            6 + 6 * i,
        ));
        assert((head + body).subrange(4 + 6 * i, 6 + 6 * i) =~= body.subrange(6 * i, 6 * i + 2));
        assert(b.subrange(off + 4 + 6 * i + 2, off + 4 + 6 * i + 6) =~= (head + body).subrange(
            6 + 6 * i,
            10 + 6 * i,
        ));
        assert((head + body).subrange(6 + 6 * i, 10 + 6 * i) =~= body.subrange(6 * i + 2, 6 * i + 6));
        lemma_u16_read(b, off + 4 + 6 * i, p[i].0);
        lemma_u32_read(b, off + 4 + 6 * i + 2, p[i].1);
    }
    assert(Seq::new(
        p.len(),
        |i: int| (u16_at(b, off + 4 + 6 * i), u32_at(b, off + 4 + 6 * i + 2)),
    ) =~= p);
}

/// A region of posting lists starts with the region of any of its prefixes.
proof fn lemma_region_prefix(lists: Seq<Seq<u32>>, j: int)
    requires
        0 <= j <= lists.len(),
    ensures
        posting_region(lists.take(j)).len() <= posting_region(lists).len(),
        posting_region(lists).subrange(0, posting_region(lists.take(j)).len() as int)
            == posting_region(lists.take(j)),
    decreases lists.len(),
{
    if j == lists.len() {
        assert(lists.take(j) =~= lists);
    } else {
        lemma_region_prefix(lists.drop_last(), j);
        assert(lists.drop_last().take(j) =~= lists.take(j));
        let a = posting_region(lists.drop_last());
        let b = posting_bytes(lists.last());
        assert((a + b).subrange(0, posting_region(lists.take(j)).len() as int) =~= a.subrange(
            0,
            posting_region(lists.take(j)).len() as int,
        ));
    }
}

/// List `i` of a region is written right after the lists before it.
pub proof fn lemma_region_at(lists: Seq<Seq<u32>>, i: int)
    requires
        0 <= i < lists.len(),
    ensures
        ({
            let start = posting_region(lists.take(i)).len() as int;
            &&& start + posting_bytes(lists[i]).len() <= posting_region(lists).len()
            &&& posting_region(lists).subrange(start, start + posting_bytes(lists[i]).len())
                == posting_bytes(lists[i])
        }),
{
    lemma_region_prefix(lists, i + 1);
    assert(lists.take(i + 1).drop_last() =~= lists.take(i));
    assert(lists.take(i + 1).last() == lists[i]);
    let a = posting_region(lists.take(i));
    let b = posting_bytes(lists[i]);
    let r = posting_region(lists);
    assert(r.subrange(a.len() as int, (a.len() + b.len()) as int) =~= r.subrange(
        0,
        (a.len() + b.len()) as int,
    ).subrange(a.len() as int, (a.len() + b.len()) as int));
    assert((a + b).subrange(a.len() as int, (a.len() + b.len()) as int) =~= b);
}

/// The fields of a postings header read back from the file it opens.
pub proof fn lemma_header_fields(
    checksum: u64,
    dto: u64,
    po: u64,
    bo: u64,
    dc: u32,
    pc: u32,
    repo: Seq<u8>,
    commit: Seq<u8>,
    rest: Seq<u8>,
)
    requires
        repo.len() <= 64,
        commit.len() <= 64,
    ensures
        ({
            let h = header_bytes(checksum, dto, po, bo, dc, pc, repo, commit);
            let x = h + rest;
            &&& h.len() == 256
            &&& postings_header_ok(x)
            &&& u64_at(x, 12) == checksum
            &&& u64_at(x, 20) == dto
            &&& u64_at(x, 28) == po
            &&& u64_at(x, 36) == bo
            &&& u32_at(x, 44) == dc
            &&& u32_at(x, 48) == pc
            &&& u16_at(x, 52) == repo.len()
            &&& u16_at(x, 54) == commit.len()
            &&& x.subrange(56, 56 + u16_at(x, 52)) == repo
            &&& x.subrange(120, 120 + u16_at(x, 54)) == commit
            &&& x.subrange(256, x.len() as int) == rest
        }),
{
    lemma_le_lens();
    let r = clip64(repo);
    let c = clip64(commit);
    assert(r == repo);
    assert(c == commit);
    let h = header_bytes(checksum, dto, po, bo, dc, pc, repo, commit);
    let x = h + rest;
    let p0 = spec_postings_magic();
    let p1 = p0 + spec_u32_to_le_bytes(1);
    let p2 = p1 + spec_u64_to_le_bytes(checksum);
    let p3 = p2 + spec_u64_to_le_bytes(dto);
    let p4 = p3 + spec_u64_to_le_bytes(po);
    let p5 = p4 + spec_u64_to_le_bytes(bo);
    let p6 = p5 + spec_u32_to_le_bytes(dc);
    let p7 = p6 + spec_u32_to_le_bytes(pc);
    let p8 = p7 + spec_u16_to_le_bytes(r.len() as u16);
    let p9 = p8 + spec_u16_to_le_bytes(c.len() as u16);
    let p10 = p9 + r;
    let p11 = p10 + zeros((64 - r.len()) as nat);
    let p12 = p11 + c;
    let p13 = p12 + zeros((64 - c.len()) as nat);
    assert(h == p13 + zeros(72));
    assert(h.len() == 256);
    assert(x.subrange(0, 8) =~= p0);
    assert(x.subrange(8, 12) =~= spec_u32_to_le_bytes(1));
    lemma_u32_read(x, 8, 1);
    assert(x.subrange(12, 20) =~= spec_u64_to_le_bytes(checksum));
    lemma_u64_read(x, 12, checksum);
    assert(x.subrange(20, 28) =~= spec_u64_to_le_bytes(dto));
    lemma_u64_read(x, 20, dto);
    assert(x.subrange(28, 36) =~= spec_u64_to_le_bytes(po));
    lemma_u64_read(x, 28, po);
    assert(x.subrange(36, 44) =~= spec_u64_to_le_bytes(bo));
    lemma_u64_read(x, 36, bo);
    assert(x.subrange(44, 48) =~= spec_u32_to_le_bytes(dc));
    lemma_u32_read(x, 44, dc);
    assert(x.subrange(48, 52) =~= spec_u32_to_le_bytes(pc));
    lemma_u32_read(x, 48, pc);
    assert(x.subrange(52, 54) =~= spec_u16_to_le_bytes(r.len() as u16));
    lemma_u16_read(x, 52, r.len() as u16);
    assert(x.subrange(54, 56) =~= spec_u16_to_le_bytes(c.len() as u16));
    lemma_u16_read(x, 54, c.len() as u16);
    assert(x.subrange(56, 56 + r.len() as int) =~= r);
    assert(x.subrange(120, 120 + c.len() as int) =~= c);
    assert(x.subrange(256, x.len() as int) =~= rest);
}

/// The fields of a lookup header read back from the file it opens.
pub proof fn lemma_lookup_header_fields(h: LookupHeader, rest: Seq<u8>)
    ensures
        ({
            let x = lookup_header_bytes(h) + rest;
            &&& lookup_header_bytes(h).len() == 64
            &&& lookup_header_ok(x)
            &&& u64_at(x, 12) == h.checksum
            &&& u32_at(x, 20) == h.entry_count
            &&& x.subrange(64, x.len() as int) == rest
        }),
{
    lemma_le_lens();
    let x = lookup_header_bytes(h) + rest;
    assert(x.subrange(0, 8) =~= spec_lookup_magic());
    assert(x.subrange(8, 12) =~= spec_u32_to_le_bytes(1));
    lemma_u32_read(x, 8, 1);
    assert(x.subrange(12, 20) =~= spec_u64_to_le_bytes(h.checksum));
    lemma_u64_read(x, 12, h.checksum);
    assert(x.subrange(20, 24) =~= spec_u32_to_le_bytes(h.entry_count));
    lemma_u32_read(x, 20, h.entry_count);
    assert(x.subrange(64, x.len() as int) =~= rest);
}

/// What a read gives back of a write. The loader accepts the `postings.bin`
/// and `lookup.bin` that the encoder writes for documents, posting lists
/// and bigram pairs (within the format's limits), and reads back the repo
/// and commit ids, the document records, the bigram pairs, every lookup
/// entry, and at each entry's offset the posting list written for it.
pub proof fn lemma_index_roundtrip(
    repo: Seq<u8>,
    commit: Seq<u8>,
    docs: Seq<DocRecord>,
    lists: Seq<Seq<u32>>,
    pairs: Seq<(u16, u32)>,
    hashes: Seq<u64>,
)
    requires
        repo.len() <= 64,
        commit.len() <= 64,
        forall|k: int| 0 <= k < docs.len() ==> #[trigger] docs[k].path.len() <= u16::MAX,
        docs.len() <= u32::MAX,
        lists.len() <= u32::MAX,
        pairs.len() <= u32::MAX,
        forall|i: int| 0 <= i < lists.len() ==> #[trigger] lists[i].len() <= u32::MAX,
        hashes.len() == lists.len(),
        postings_payload(docs, lists, pairs).len() + 256 <= u64::MAX,
    ensures
        ({
            let p = postings_file_bytes(repo, commit, docs, lists, pairs);
            let e = Seq::new(
                lists.len(),
                |i: int| (hashes[i], posting_offset(docs, lists, i) as u64),
            );
            let l = lookup_file_bytes(e);
            &&& snapshot_accepts(p, l)
            &&& u32_at(l, 20) == lists.len()
            &&& p.subrange(56, 56 + u16_at(p, 52)) == repo
            &&& p.subrange(120, 120 + u16_at(p, 54)) == commit
            &&& parse_docs(p, u64_at(p, 20) as int, u64_at(p, 28) as int, u32_at(p, 44) as nat)
                == Some(docs)
            &&& parse_pairs(p, u64_at(p, 36) as int) == Some(pairs)
            &&& forall|i: int|
                0 <= i < lists.len() ==> #[trigger] lookup_entry_at(l, i) == Some(e[i]) && parse_posting(
                    p,
                    e[i].1 as int,
                ) == Some(lists[i])
        }),
{
    lemma_le_lens();
    let t = doc_table_bytes(docs);
    let r = posting_region(lists);
    let b = bigram_table_bytes(pairs);
    let payload = postings_payload(docs, lists, pairs);
    assert(payload == t + r + b);
    let checksum = spec_payload_checksum(payload);
    let p = postings_file_bytes(repo, commit, docs, lists, pairs);
    lemma_header_fields(
        checksum,
        256,
        (256 + t.len()) as u64,
        (256 + t.len() + r.len()) as u64,
        docs.len() as u32,
        lists.len() as u32,
        repo,
        commit,
        payload,
    );
    assert(checksum_ok(p, 256, u64_at(p, 12)));
    let e = Seq::new(lists.len(), |i: int| (hashes[i], posting_offset(docs, lists, i) as u64));
    let eb = entries_bytes(e);
    let lh = LookupHeader { checksum: spec_payload_checksum(eb), entry_count: e.len() as u32 };
    let l = lookup_file_bytes(e);
    lemma_lookup_header_fields(lh, eb);
    assert(checksum_ok(l, 64, u64_at(l, 12)));
    // The document table.
    assert(p.subrange(256, 256 + t.len() as int) =~= t);
    lemma_parse_table(p, 256, 256 + t.len() as int, docs);
    // The bigram table.
    let bo = (256 + t.len() + r.len()) as int;
    assert(p.subrange(bo, bo + 4 + pairs_bytes(pairs).len() as int) =~= b);
    lemma_parse_pairs(p, bo, pairs);
    // The lookup entries and the posting lists they point at.
    lemma_entries_layout(e);
    assert forall|i: int|
        0 <= i < lists.len() implies #[trigger] lookup_entry_at(l, i) == Some(e[i]) && parse_posting(
        p,
        e[i].1 as int,
    ) == Some(lists[i]) by {
        assert(l.subrange(64 + 16 * i, 64 + 16 * i + 8) =~= eb.subrange(16 * i, 16 * i + 8));
        assert(l.subrange(64 + 16 * i + 8, 64 + 16 * i + 16) =~= eb.subrange(16 * i + 8, 16 * i + 16));
        lemma_u64_read(l, 64 + 16 * i, e[i].0);
        lemma_u64_read(l, 64 + 16 * i + 8, e[i].1);
        lemma_region_at(lists, i);
        lemma_region_prefix(lists, i);
        let start = posting_region(lists.take(i)).len() as int;
        let pb = posting_bytes(lists[i]);
        let off = 256 + t.len() as int + start;
        assert(off == posting_offset(docs, lists, i));
        assert(p.subrange(off, off + pb.len()) =~= r.subrange(start, start + pb.len()));
        lemma_parse_posting(p, off, lists[i]);
    }
}

/// Reading back the bigram pairs of a map, by increasing key, rebuilds the map.
pub proof fn lemma_bigram_roundtrip(m: Map<u16, u32>)
    ensures
        pairs_map(sorted_pairs(m)) == m,
        sorted_pairs(m).len() <= 65536,
{
    lemma_pairs_below(m, 65536);
    assert(pairs_map(sorted_pairs(m)) =~= m);
}

proof fn lemma_pairs_below(m: Map<u16, u32>, k: nat)
    requires
        k <= 65536,
    ensures
        forall|key: u16|
            #![trigger pairs_map(pairs_below(m, k)).contains_key(key)]
            pairs_map(pairs_below(m, k)).contains_key(key) <==> (m.contains_key(key) && key < k),
        forall|key: u16|
            #![trigger pairs_map(pairs_below(m, k))[key]]
            m.contains_key(key) && key < k ==> pairs_map(pairs_below(m, k))[key] == m[key],
        pairs_below(m, k).len() <= k,
    decreases k,
{
    if k > 0 {
        lemma_pairs_below(m, (k - 1) as nat);
        let key = (k - 1) as u16;
        assert(key as int == k - 1);
        let prev = pairs_below(m, (k - 1) as nat);
        if m.contains_key(key) {
            let cur = prev + seq![(key, m[key])];
            assert(cur.drop_last() =~= prev);
            assert(pairs_below(m, k) == cur);
            assert(pairs_map(cur) == pairs_map(prev).insert(key, m[key]));
        } else {
            assert(prev + Seq::<(u16, u32)>::empty() =~= prev);
            assert(pairs_below(m, k) == prev);
        }
    } else {
        assert(pairs_map(pairs_below(m, 0)) =~= Map::<u16, u32>::empty());
    }
}

} // verus!
