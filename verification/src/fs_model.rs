//! A filesystem snapshot as a plain value.
//!
//! The model is a finite table of entries, each binding one path string to
//! what the filesystem holds there: a directory (with the names of its direct
//! children), a symbolic link (with its target path), or a regular file (with
//! its raw bytes). Paths are compared textually, character for character;
//! nothing is canonicalized. A directory's child list gives the names only:
//! the child's full path is the directory's path, a `/`, and the name.

use vstd::prelude::*;

verus! {

/// What the filesystem holds at one path.
pub enum EntryKind {
    /// A directory; holds the names of its direct children.
    Dir(Vec<String>),
    /// A symbolic link; holds the target path as written in the link.
    Symlink(String),
    /// A regular file; holds the raw bytes of its contents.
    File(Vec<u8>),
}

/// One path of the filesystem and what it holds.
pub struct Entry {
    /// The full path of this entry.
    pub path: String,
    /// What the filesystem holds at that path.
    pub kind: EntryKind,
}

/// A filesystem snapshot: a finite table of entries. A path that appears in
/// no entry does not exist; a metadata query on it fails.
pub struct FileSystem {
    /// The entries of the snapshot. When a path occurs twice, the first
    /// occurrence is the one seen.
    pub entries: Vec<Entry>,
}

/// The mathematical value of an [`EntryKind`], over sequences.
#[verifier::ext_equal]
pub enum EntryKindView {
    Dir(Seq<Seq<char>>),
    Symlink(Seq<char>),
    File(Seq<u8>),
}

/// The mathematical value of an [`Entry`].
#[verifier::ext_equal]
pub struct EntryView {
    pub path: Seq<char>,
    pub kind: EntryKindView,
}

/// The character sequences of a sequence of strings.
pub open spec fn path_views(v: Seq<String>) -> Seq<Seq<char>> {
    v.map_values(|s: String| s@)
}

impl View for EntryKind {
    type V = EntryKindView;

    open spec fn view(&self) -> EntryKindView {
        match self {
            EntryKind::Dir(names) => EntryKindView::Dir(path_views(names@)),
            EntryKind::Symlink(target) => EntryKindView::Symlink(target@),
            EntryKind::File(bytes) => EntryKindView::File(bytes@),
        }
    }
}

impl View for Entry {
    type V = EntryView;

    open spec fn view(&self) -> EntryView {
        EntryView { path: self.path@, kind: self.kind@ }
    }
}

impl View for FileSystem {
    type V = Seq<EntryView>;

    open spec fn view(&self) -> Seq<EntryView> {
        self.entries@.map_values(|e: Entry| e@)
    }
}

/// What the filesystem holds at path `p`: the kind of the first entry bound
/// to `p`, or `None` when no entry is. This is the model's metadata query,
/// made without following links.
pub open spec fn lookup(fs: Seq<EntryView>, p: Seq<char>) -> Option<EntryKindView>
    decreases fs.len(),
{
    if fs.len() == 0 {
        None
    } else if fs[0].path == p {
        Some(fs[0].kind)
    } else {
        lookup(fs.drop_first(), p)
    }
}

/// The length of the longest path bound by an entry (0 when there is none).
/// Recursion into a directory tree terminates because every existing child
/// path is longer than its parent's and no existing path is longer than this.
pub open spec fn max_path_len(fs: Seq<EntryView>) -> int
    decreases fs.len(),
{
    if fs.len() == 0 {
        0
    } else {
        let m = max_path_len(fs.drop_first());
        if fs[0].path.len() > m {
            fs[0].path.len() as int
        } else {
            m
        }
    }
}

/// A path that exists is no longer than the longest path of the table.
pub proof fn lemma_lookup_len(fs: Seq<EntryView>, p: Seq<char>)
    ensures
        lookup(fs, p) is Some ==> p.len() <= max_path_len(fs),
    decreases fs.len(),
{
    if fs.len() > 0 && !(fs[0].path == p) {
        lemma_lookup_len(fs.drop_first(), p);
    }
}

impl FileSystem {
    /// Looks up what the snapshot holds at `p`, without following links.
    pub fn query<'a>(&'a self, p: &String) -> (r: Option<&'a EntryKind>)
        ensures
            match r {
                Some(k) => lookup(self@, p@) == Some(k@),
                None => lookup(self@, p@) is None,
            },
    {
        let n = self.entries.len();
        proof {
            assert(self@.skip(0) =~= self@);
        }
        for i in 0..n
            invariant
                n == self.entries.len(),
                lookup(self@, p@) == lookup(self@.skip(i as int), p@),
        {
            proof {
                assert(self@.skip(i as int)[0] == self@[i as int]);
                assert(self@.skip(i as int).drop_first() =~= self@.skip(i + 1));
            }
            if self.entries[i].path == *p {
                return Some(&self.entries[i].kind);
            }
        }
        proof {
            assert(self@.skip(n as int) =~= Seq::<EntryView>::empty());
        }
        None
    }
}

} // verus!
