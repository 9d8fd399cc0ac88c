//! Point-in-time snapshots of a directory tree.
//!
//! A relative path is a sequence of byte-string components (`Vec<Vec<u8>>`),
//! expressed relative to the tree's root.  A snapshot maps each relative
//! path to the metadata captured for that entry.  It is stored as a vector
//! of entries whose paths are pairwise distinct, and abstracts to a
//! `Map<Seq<Seq<u8>>, FileMeta>`.

use vstd::prelude::*;

verus! {

/// Metadata recorded for one filesystem entry.
///
/// `size` is meaningful only for files; `modified` is a timestamp in
/// seconds, captured for information only and never compared.
#[derive(Clone, Copy, Debug, PartialEq, Eq, Structural)]
pub struct FileMeta {
    pub is_dir: bool,
    pub size: u64,
    pub modified: u64,
}

/// One snapshot entry: a relative path and the metadata captured for it.
#[derive(Debug)]
pub struct Entry {
    pub path: Vec<Vec<u8>>,
    pub meta: FileMeta,
}

/// The paths of the entries are pairwise distinct.
pub open spec fn paths_unique(s: Seq<Entry>) -> bool {
    forall|i: int, j: int|
        0 <= i < j < s.len() ==> s[i].path.deep_view() != s[j].path.deep_view()
}

/// The map a sequence of entries stands for: later entries win.
pub open spec fn snap_map(s: Seq<Entry>) -> Map<Seq<Seq<u8>>, FileMeta>
    decreases s.len(),
{
    if s.len() == 0 {
        Map::empty()
    } else {
        snap_map(s.drop_last()).insert(s.last().path.deep_view(), s.last().meta)
    }
}

/// A key is in the map exactly when some entry carries it.
pub proof fn lemma_snap_map_contains(s: Seq<Entry>, p: Seq<Seq<u8>>)
    ensures
        snap_map(s).contains_key(p) <==> (exists|i: int|
            0 <= i < s.len() && s[i].path.deep_view() == p),
    decreases s.len(),
{
    if s.len() > 0 {
        lemma_snap_map_contains(s.drop_last(), p);
        if s.last().path.deep_view() == p {
            assert(s[s.len() - 1].path.deep_view() == p);
        } else {
            if snap_map(s).contains_key(p) {
                let i = choose|i: int| 0 <= i < s.drop_last().len()
                    && s.drop_last()[i].path.deep_view() == p;
                assert(s[i].path.deep_view() == p);
            }
            if exists|i: int| 0 <= i < s.len() && s[i].path.deep_view() == p {
                let i = choose|i: int| 0 <= i < s.len() && s[i].path.deep_view() == p;
                assert(s.drop_last()[i].path.deep_view() == p);
            }
        }
    }
}

/// Under distinct paths, each entry's path maps to that entry's metadata.
pub proof fn lemma_snap_map_index(s: Seq<Entry>, i: int)
    requires
        paths_unique(s),
        0 <= i < s.len(),
    ensures
        snap_map(s).contains_key(s[i].path.deep_view()),
        snap_map(s)[s[i].path.deep_view()] == s[i].meta,
    decreases s.len(),
{
    if i == s.len() - 1 {
    } else {
        assert(paths_unique(s.drop_last())) by {
            assert(forall|a: int, b: int|
                0 <= a < b < s.drop_last().len()
                    ==> s.drop_last()[a].path.deep_view() != s.drop_last()[b].path.deep_view());
        }
        lemma_snap_map_index(s.drop_last(), i);
        assert(s.drop_last()[i] == s[i]);
        assert(s[i].path.deep_view() != s.last().path.deep_view());
    }
}

/// An immutable mapping from relative path to [`FileMeta`], built once per
/// sync pass for each of the two trees.
pub struct Snapshot {
    entries: Vec<Entry>,
}

impl View for Snapshot {
    type V = Map<Seq<Seq<u8>>, FileMeta>;

    open spec fn view(&self) -> Map<Seq<Seq<u8>>, FileMeta> {
        snap_map(self.entries_seq())
    }
}

impl Snapshot {
    /// The underlying entry sequence, in insertion order.
    pub closed spec fn entries_seq(&self) -> Seq<Entry> {
        self.entries@
    }

    /// Entry paths are pairwise distinct.
    pub open spec fn wf(&self) -> bool {
        paths_unique(self.entries_seq())
    }

    /// An empty snapshot.
    pub fn new() -> (s: Snapshot)
        ensures
            s.wf(),
            s.entries_seq().len() == 0,
            s@ == Map::<Seq<Seq<u8>>, FileMeta>::empty(),
    {
        Snapshot { entries: Vec::new() }
    }

    /// Number of entries.
    pub fn len(&self) -> (n: usize)
        ensures
            n == self.entries_seq().len(),
    {
        self.entries.len()
    }

    /// The entry at position `i`, in insertion order.
    pub fn entry_at(&self, i: usize) -> (e: &Entry)
        requires
            i < self.entries_seq().len(),
        ensures
            *e == self.entries_seq()[i as int],
    {
        &self.entries[i]
    }

    /// Whether `path` is a key of the snapshot.
    pub fn contains(&self, path: &Vec<Vec<u8>>) -> (r: bool)
        ensures
            r == self@.contains_key(path.deep_view()),
    {
        let ghost pv = path.deep_view();
        let n = self.entries.len();
        let mut i: usize = 0;
        while i < n
            invariant
                n == self.entries_seq().len(),
                0 <= i <= n,
                forall|j: int| 0 <= j < i ==> self.entries_seq()[j].path.deep_view() != pv,
                pv == path.deep_view(),
            decreases n - i,
        {
            if path_eq(&self.entries[i].path, path) {
                proof {
                    lemma_snap_map_contains(self.entries_seq(), pv);
                }
                return true;
            }
            i += 1;
        }
        proof {
            lemma_snap_map_contains(self.entries_seq(), pv);
        }
        false
    }

    /// Record a new path.  The caller keeps paths distinct; the walker
    /// guarantees this, since a tree walk yields each relative path once.
    pub fn insert(&mut self, path: Vec<Vec<u8>>, meta: FileMeta)
        requires
            old(self).wf(),
            !old(self)@.contains_key(path.deep_view()),
        ensures
            final(self).wf(),
            final(self)@ == old(self)@.insert(path.deep_view(), meta),
            final(self).entries_seq() == old(self).entries_seq().push(
                Entry { path, meta },
            ),
    {
        proof {
            lemma_snap_map_contains(self.entries_seq(), path.deep_view());
        }
        let ghost old_entries = self.entries@;
        self.entries.push(Entry { path, meta });
        proof {
            assert(self.entries@.drop_last() == old_entries);
        }
    }
}

/// For byte vectors the deep view coincides with the shallow one.
pub proof fn lemma_bytes_deep_view(v: Vec<u8>)
    ensures
        v.deep_view() == v@,
{
    assert(v.deep_view() =~= v@);
}

/// Whether two relative paths are equal, component for component.
pub fn path_eq(a: &Vec<Vec<u8>>, b: &Vec<Vec<u8>>) -> (r: bool)
    ensures
        r == (a.deep_view() == b.deep_view()),
{
    if a.len() != b.len() {
        proof {
            assert(a.deep_view().len() != b.deep_view().len());
        }
        return false;
    }
    let n = a.len();
    let mut i: usize = 0;
    while i < n
        invariant
            n == a.len() == b.len(),
            0 <= i <= n,
            forall|j: int| 0 <= j < i ==> a.deep_view()[j] == b.deep_view()[j],
        decreases n - i,
    {
        if !component_eq(&a[i], &b[i]) {
            proof {
                lemma_bytes_deep_view(a[i as int]);
                lemma_bytes_deep_view(b[i as int]);
                assert(a.deep_view()[i as int] != b.deep_view()[i as int]);
            }
            return false;
        }
        proof {
            lemma_bytes_deep_view(a[i as int]);
            lemma_bytes_deep_view(b[i as int]);
        }
        i += 1;
    }
    proof {
        assert(a.deep_view() =~= b.deep_view());
    }
    true
}

/// Whether two path components are equal, byte for byte.
pub fn component_eq(a: &Vec<u8>, b: &Vec<u8>) -> (r: bool)
    ensures
        r == (a@ == b@),
{
    if a.len() != b.len() {
        return false;
    }
    let n = a.len();
    let mut i: usize = 0;
    while i < n
        invariant
            n == a@.len() == b@.len(),
            0 <= i <= n,
            forall|j: int| 0 <= j < i ==> a@[j] == b@[j],
        decreases n - i,
    {
        if a[i] != b[i] {
            return false;
        }
        i += 1;
    }
    proof {
        assert(a@ =~= b@);
    }
    true
}

/// Copy a relative path.
pub fn clone_path(p: &Vec<Vec<u8>>) -> (r: Vec<Vec<u8>>)
    ensures
        r.deep_view() == p.deep_view(),
{
    let mut r: Vec<Vec<u8>> = Vec::new();
    let n = p.len();
    let mut i: usize = 0;
    while i < n
        invariant
            n == p.len(),
            0 <= i <= n,
            r.deep_view() == p.deep_view().take(i as int),
        decreases n - i,
    {
        let mut c: Vec<u8> = Vec::new();
        let m = p[i].len();
        let mut j: usize = 0;
        while j < m
            invariant
                i < n == p.len(),
                m == p[i as int]@.len(),
                0 <= j <= m,
                c@ == p[i as int]@.take(j as int),
            decreases m - j,
        {
            c.push(p[i][j]);
            proof {
                assert(c@ =~= p[i as int]@.take(j + 1));
            }
            j += 1;
        }
        proof {
            assert(c@ =~= p[i as int]@);
        }
        proof {
            lemma_bytes_deep_view(c);
            lemma_bytes_deep_view(p[i as int]);
        }
        let ghost r_old = r;
        r.push(c);
        proof {
            assert(r@ == r_old@.push(c));
            assert(r_old.deep_view().len() == r_old@.len());
            assert(p.deep_view().take(i as int).len() == i);
            assert(r@.len() == i + 1);
            assert forall|k: int| 0 <= k < i + 1 implies r.deep_view()[k]
                == p.deep_view().take(i + 1)[k] by {
                if k < i {
                    assert(r@[k] == r_old@[k]);
                    assert(r_old.deep_view()[k] == p.deep_view().take(i as int)[k]);
                } else {
                    assert(r@[k] == c);
                }
            }
            assert(r.deep_view() =~= p.deep_view().take(i + 1));
        }
        i += 1;
    }
    proof {
        assert(r.deep_view() =~= p.deep_view());
    }
    r
}

} // verus!
