use std::collections::HashSet;
use vstd::prelude::*;

verus! {

/// The current text of a file changed since the index was built, with the
/// gram hashes under which it would be indexed.
pub struct OverlayFile {
    pub text: String,
    pub gram_hashes: HashSet<u64>,
}

/// What the overlay knows of a path: changed, or deleted.
pub enum OverlayEntry {
    Modified(OverlayFile),
    Deleted,
}

/// An overlay entry as a value: the text and hashes of a changed file, or
/// a deletion.
pub enum EntryView {
    Modified { text: Seq<char>, hashes: Set<u64> },
    Deleted,
}

impl View for OverlayEntry {
    type V = EntryView;

    open spec fn view(&self) -> EntryView {
        match self {
            OverlayEntry::Modified(f) => EntryView::Modified { text: f.text@, hashes: f.gram_hashes@ },
            OverlayEntry::Deleted => EntryView::Deleted,
        }
    }
}

/// A copy of the overlay at one moment: its generation and its entries,
/// one per path.
pub struct OverlaySnapshot {
    pub generation: u64,
    pub files: Vec<(String, OverlayEntry)>,
}

/// The entries as a map from path to entry.
pub open spec fn entries_map(files: Seq<(String, OverlayEntry)>) -> Map<Seq<char>, EntryView>
    decreases files.len(),
{
    if files.len() == 0 {
        Map::empty()
    } else {
        entries_map(files.drop_last()).insert(files.last().0@, files.last().1@)
    }
}

/// Whether no path occurs twice.
pub open spec fn distinct_paths(files: Seq<(String, OverlayEntry)>) -> bool {
    forall|i: int, j: int| 0 <= i < j < files.len() ==> #[trigger] files[i].0@ != #[trigger] files[j].0@
}

/// The changes made since the index was built, newest per path, with a
/// generation counter that every change advances.
pub struct OverlayStore {
    files: Vec<(String, OverlayEntry)>,
    generation: u64,
}

/// What an overlay store holds.
pub struct OverlayView {
    pub generation: u64,
    pub files: Map<Seq<char>, EntryView>,
}

impl View for OverlayStore {
    type V = OverlayView;

    closed spec fn view(&self) -> OverlayView {
        OverlayView { generation: self.generation, files: entries_map(self.files@) }
    }
}

/// A copy of a set of hashes.
///
/// Trusted: calls `HashSet::clone`, which copies every element; a `u64`
/// copies as itself.
#[verifier::external_body]
fn clone_hashes(s: &HashSet<u64>) -> (c: HashSet<u64>)
    ensures
        c@ == s@,
{
    s.clone()
}

impl OverlayEntry {
    /// A copy of the entry.
    pub fn duplicate(&self) -> (c: OverlayEntry)
        ensures
            c@ == self@,
    {
        match self {
            OverlayEntry::Modified(f) => OverlayEntry::Modified(
                OverlayFile { text: f.text.clone(), gram_hashes: clone_hashes(&f.gram_hashes) },
            ),
            OverlayEntry::Deleted => OverlayEntry::Deleted,
        }
    }
}

pub proof fn lemma_entries_map_get(files: Seq<(String, OverlayEntry)>, i: int)
    requires
        distinct_paths(files),
        0 <= i < files.len(),
    ensures
        entries_map(files).contains_key(files[i].0@),
        entries_map(files)[files[i].0@] == files[i].1@,
    decreases files.len(),
{
    if i < files.len() - 1 {
        assert(files.drop_last()[i] == files[i]);
        lemma_entries_map_get(files.drop_last(), i);
        assert(files[i].0@ != files.last().0@);
    }
}

pub proof fn lemma_entries_map_dom(files: Seq<(String, OverlayEntry)>)
    ensures
        forall|p: Seq<char>|
            #[trigger] entries_map(files).contains_key(p) ==> exists|i: int|
                0 <= i < files.len() && #[trigger] files[i].0@ == p,
    decreases files.len(),
{
    if files.len() > 0 {
        lemma_entries_map_dom(files.drop_last());
        assert forall|p: Seq<char>| #[trigger] entries_map(files).contains_key(p) implies exists|i: int|
            0 <= i < files.len() && #[trigger] files[i].0@ == p by {
            if p != files.last().0@ {
                assert(entries_map(files.drop_last()).contains_key(p));
                let i = choose|i: int| 0 <= i < files.drop_last().len() && #[trigger] files.drop_last()[i].0@ == p;
                assert(files[i] == files.drop_last()[i]);
            } else {
                assert(files[files.len() - 1].0@ == p);
            }
        }
    }
}

proof fn lemma_entries_map_update(files: Seq<(String, OverlayEntry)>, i: int, e: (String, OverlayEntry))
    requires
        distinct_paths(files),
        0 <= i < files.len(),
        files[i].0@ == e.0@,
    ensures
        distinct_paths(files.update(i, e)),
        entries_map(files.update(i, e)) == entries_map(files).insert(e.0@, e.1@),
{
    let u = files.update(i, e);
    assert forall|a: int, b: int| 0 <= a < b < u.len() implies #[trigger] u[a].0@ != #[trigger] u[b].0@ by {
        assert(files[a].0@ != files[b].0@);
    }
    lemma_entries_map_dom(files);
    lemma_entries_map_dom(u);
    assert forall|p: Seq<char>| #[trigger] entries_map(u).contains_key(p) <==> entries_map(files).insert(
        e.0@,
        e.1@,
    ).contains_key(p) by {
        if entries_map(u).contains_key(p) {
            let k = choose|k: int| 0 <= k < u.len() && #[trigger] u[k].0@ == p;
            if k != i {
                lemma_entries_map_get(files, k);
            }
        }
        if entries_map(files).contains_key(p) {
            let k = choose|k: int| 0 <= k < files.len() && #[trigger] files[k].0@ == p;
            lemma_entries_map_get(u, k);
        }
        if p == e.0@ {
            lemma_entries_map_get(u, i);
        }
    }
    assert forall|p: Seq<char>| #[trigger] entries_map(u).contains_key(p) implies entries_map(u)[p]
        == entries_map(files).insert(e.0@, e.1@)[p] by {
        let k = choose|k: int| 0 <= k < u.len() && #[trigger] u[k].0@ == p;
        lemma_entries_map_get(u, k);
        if k != i {
            lemma_entries_map_get(files, k);
        }
    }
    assert(entries_map(u) =~= entries_map(files).insert(e.0@, e.1@));
}

impl OverlaySnapshot {
    /// The entry of `path`, if the snapshot holds one.
    pub fn get(&self, path: &str) -> (r: Option<&OverlayEntry>)
        requires
            distinct_paths(self.files@),
        ensures
            match r {
                Some(e) => entries_map(self.files@).contains_key(path@) && e@ == entries_map(self.files@)[path@],
                None => !entries_map(self.files@).contains_key(path@),
            },
    {
        proof {
            lemma_entries_map_dom(self.files@);
        }
        for i in 0..self.files.len()
            invariant
                distinct_paths(self.files@),
                forall|k: int| 0 <= k < i ==> #[trigger] self.files@[k].0@ != path@,
                forall|p: Seq<char>|
                    #[trigger] entries_map(self.files@).contains_key(p) ==> exists|i: int|
                        0 <= i < self.files@.len() && #[trigger] self.files@[i].0@ == p,
        {
            if crate::text::str_eq(self.files[i].0.as_str(), path) {
                proof {
                    lemma_entries_map_get(self.files@, i as int);
                }
                return Some(&self.files[i].1);
            }
        }
        None
    }
}

impl OverlayStore {
    /// The invariant: no path occurs twice.
    pub closed spec fn wf(&self) -> bool {
        distinct_paths(self.files@)
    }

    /// An empty overlay at generation 0.
    pub fn new() -> (s: Self)
        ensures
            s.wf(),
            s@.generation == 0,
            s@.files == Map::<Seq<char>, EntryView>::empty(),
    {
        OverlayStore { files: Vec::new(), generation: 0 }
    }

    fn upsert(&mut self, path: String, entry: OverlayEntry)
        requires
            old(self).wf(),
        ensures
            final(self).wf(),
            final(self)@.files == old(self)@.files.insert(path@, entry@),
            final(self)@.generation == old(self)@.generation,
    {
        let mut i: usize = 0;
        while i < self.files.len()
            invariant
                self.files@ == old(self).files@,
                self.generation == old(self).generation,
                distinct_paths(self.files@),
                i <= self.files@.len(),
                forall|k: int| 0 <= k < i ==> #[trigger] self.files@[k].0@ != path@,
            decreases self.files@.len() - i,
        {
            if crate::text::str_eq(self.files[i].0.as_str(), path.as_str()) {
                let ghost before = self.files@;
                let ghost e = (path, entry);
                proof {
                    lemma_entries_map_update(before, i as int, e);
                }
                self.files.set(i, (path, entry));
                return;
            }
            i += 1;
        }
        let ghost before = self.files@;
        self.files.push((path, entry));
        proof {
            assert(self.files@.drop_last() =~= before);
            assert forall|a: int, b: int| 0 <= a < b < self.files@.len() implies #[trigger] self.files@[a].0@
                != #[trigger] self.files@[b].0@ by {
                if b < before.len() {
                    assert(before[a].0@ != before[b].0@);
                }
            }
        }
    }

    /// Records the new text of `path` with its gram hashes; advances the
    /// generation (wrapping around at the top, as an atomic counter does).
    pub fn upsert_modified(&mut self, path: String, text: String, gram_hashes: HashSet<u64>)
        requires
            old(self).wf(),
        ensures
            final(self).wf(),
            final(self)@.files == old(self)@.files.insert(
                path@,
                EntryView::Modified { text: text@, hashes: gram_hashes@ },
            ),
            final(self)@.generation == old(self)@.generation.wrapping_add(1),
    {
        self.upsert(path, OverlayEntry::Modified(OverlayFile { text, gram_hashes }));
        self.generation = self.generation.wrapping_add(1);
    }

    /// Records that `path` was deleted; advances the generation.
    pub fn upsert_deleted(&mut self, path: String)
        requires
            old(self).wf(),
        ensures
            final(self).wf(),
            final(self)@.files == old(self)@.files.insert(path@, EntryView::Deleted),
            final(self)@.generation == old(self)@.generation.wrapping_add(1),
    {
        self.upsert(path, OverlayEntry::Deleted);
        self.generation = self.generation.wrapping_add(1);
    }

    /// A copy of the overlay: its generation and every entry.
    pub fn snapshot(&self) -> (snap: OverlaySnapshot)
        requires
            self.wf(),
        ensures
            snap.generation == self@.generation,
            distinct_paths(snap.files@),
            entries_map(snap.files@) == self@.files,
    {
        let mut files: Vec<(String, OverlayEntry)> = Vec::new();
        for i in 0..self.files.len()
            invariant
                distinct_paths(self.files@),
                files@.len() == i,
                forall|k: int|
                    #![trigger files@[k]]
                    0 <= k < i ==> files@[k].0@ == self.files@[k].0@ && files@[k].1@ == self.files@[k].1@,
        {
            let ghost prev = files@;
            files.push((self.files[i].0.clone(), self.files[i].1.duplicate()));
            proof {
                assert forall|k: int|
                    #![trigger files@[k]]
                    0 <= k < i + 1 implies files@[k].0@ == self.files@[k].0@ && files@[k].1@
                        == self.files@[k].1@ by {
                    if k < i {
                        assert(files@[k] == prev[k]);
                    }
                }
            }
        }
        proof {
            assert(distinct_paths(files@)) by {
                assert forall|a: int, b: int| 0 <= a < b < files@.len() implies #[trigger] files@[a].0@
                    != #[trigger] files@[b].0@ by {
                    assert(self.files@[a].0@ != self.files@[b].0@);
                }
            }
            lemma_entries_map_same(files@, self.files@);
        }
        OverlaySnapshot { generation: self.generation, files }
    }

    /// How many paths the overlay holds.
    pub fn dirty_files(&self) -> (n: usize)
        requires
            self.wf(),
        ensures
            n == self@.files.dom().len(),
    {
        proof {
            lemma_entries_map_len(self.files@);
        }
        self.files.len()
    }
}

proof fn lemma_entries_map_same(a: Seq<(String, OverlayEntry)>, b: Seq<(String, OverlayEntry)>)
    requires
        a.len() == b.len(),
        forall|k: int| #![trigger a[k]] 0 <= k < a.len() ==> a[k].0@ == b[k].0@ && a[k].1@ == b[k].1@,
    ensures
        entries_map(a) == entries_map(b),
    decreases a.len(),
{
    if a.len() > 0 {
        assert forall|k: int| #![trigger a.drop_last()[k]] 0 <= k < a.len() - 1 implies a.drop_last()[k].0@
            == b.drop_last()[k].0@ && a.drop_last()[k].1@ == b.drop_last()[k].1@ by {
            assert(a.drop_last()[k] == a[k]);
            assert(b.drop_last()[k] == b[k]);
        }
        lemma_entries_map_same(a.drop_last(), b.drop_last());
        assert(a[a.len() - 1].0@ == b[b.len() - 1].0@);
    }
}

proof fn lemma_entries_map_len(files: Seq<(String, OverlayEntry)>)
    requires
        distinct_paths(files),
    ensures
        entries_map(files).dom().finite(),
        entries_map(files).dom().len() == files.len(),
    decreases files.len(),
{
    if files.len() > 0 {
        let pre = files.drop_last();
        assert(distinct_paths(pre)) by {
            assert forall|a: int, b: int| 0 <= a < b < pre.len() implies #[trigger] pre[a].0@
                != #[trigger] pre[b].0@ by {
                assert(files[a].0@ != files[b].0@);
            }
        }
        lemma_entries_map_len(pre);
        lemma_entries_map_dom(pre);
        assert(!entries_map(pre).contains_key(files.last().0@)) by {
            if entries_map(pre).contains_key(files.last().0@) {
                let i = choose|i: int| 0 <= i < pre.len() && #[trigger] pre[i].0@ == files.last().0@;
                assert(files[i].0@ != files[files.len() - 1].0@);
            }
        }
    }
}

} // verus!
