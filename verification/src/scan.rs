//! Listing the object files under the object directory, breadth first. The
//! caller reads each directory that the scan asks for and hands back what it
//! holds; the scan keeps the queue of directories and the files found.
use vstd::prelude::*;

use crate::cache::{cache_get_obj_path, obj_path};
use crate::text::{chars_of, replace_backslashes, replace_char, string_of, string_views};

verus! {

/// What a directory entry is.
#[derive(Clone, Copy, Debug, PartialEq, Eq, Structural)]
pub enum EntryKind {
    Directory,
    File,
    /// Neither a directory nor a regular file (such as a symbolic link).
    Other,
    /// Its type could not be read.
    Unreadable,
}

/// A directory entry: its kind, and its path where the path is valid text.
pub struct DirEntryInfo {
    pub kind: EntryKind,
    pub path: Option<String>,
}

/// The entries `v` with their paths as character sequences.
pub open spec fn entry_infos(v: Seq<DirEntryInfo>) -> Seq<(EntryKind, Option<Seq<char>>)> {
    v.map_values(|e: DirEntryInfo| (e.kind, match e.path {
        Some(p) => Some(p@),
        None => None,
    }))
}

/// The directories among the entries `es` that have a text path, in order.
pub open spec fn subdirs_of(es: Seq<(EntryKind, Option<Seq<char>>)>) -> Seq<Seq<char>>
    decreases es.len(),
{
    if es.len() == 0 {
        Seq::empty()
    } else {
        let rest = subdirs_of(es.drop_last());
        match es.last() {
            (EntryKind::Directory, Some(p)) => rest.push(p),
            _ => rest,
        }
    }
}

/// The regular files among the entries `es` that have a text path, in order,
/// with every `\` of their paths turned into `/`.
pub open spec fn files_of(es: Seq<(EntryKind, Option<Seq<char>>)>) -> Seq<Seq<char>>
    decreases es.len(),
{
    if es.len() == 0 {
        Seq::empty()
    } else {
        let rest = files_of(es.drop_last());
        match es.last() {
            (EntryKind::File, Some(p)) => rest.push(replace_char(p, '\\', '/')),
            _ => rest,
        }
    }
}

/// A breadth-first listing of the files under the object directory.
pub struct ObjScan {
    pending: Vec<String>,
    found: Vec<String>,
}

impl ObjScan {
    /// The directories still to be read, first to be read first.
    pub closed spec fn pending(&self) -> Seq<Seq<char>> {
        string_views(self.pending@)
    }

    /// The files found so far, in the order they were found.
    pub closed spec fn found(&self) -> Seq<Seq<char>> {
        string_views(self.found@)
    }

    /// A scan that starts at the object directory.
    pub fn new() -> (res: ObjScan)
        ensures
            res.pending() == seq![obj_path()],
            res.found() == Seq::<Seq<char>>::empty(),
    {
        let mut pending: Vec<String> = Vec::new();
        pending.push(cache_get_obj_path());
        let res = ObjScan { pending, found: Vec::new() };
        assert(res.pending() =~= seq![obj_path()]);
        assert(res.found() =~= Seq::<Seq<char>>::empty());
        res
    }

    /// The next directory to read, taken off the queue; none when the scan
    /// is over.
    pub fn next_folder(&mut self) -> (res: Option<String>)
        ensures
            final(self).found() == old(self).found(),
            old(self).pending().len() == 0 ==> res is None && final(self).pending() == old(self).pending(),
            old(self).pending().len() > 0 ==> (res matches Some(p) && p@ == old(self).pending()[0]
                && final(self).pending() == old(self).pending().drop_first()),
    {
        if self.pending.len() == 0 {
            None
        } else {
            let p = self.pending.remove(0);
            assert(self.pending() =~= old(self).pending().drop_first());
            Some(p)
        }
    }

    /// Takes the entries of the directory just read: its subdirectories join
    /// the end of the queue and its regular files join the files found, each
    /// in the order of the entries; other entries, and entries whose path is
    /// not valid text, are passed over.
    pub fn visit(&mut self, entries: Vec<DirEntryInfo>)
        ensures
            final(self).pending() == old(self).pending() + subdirs_of(entry_infos(entries@)),
            final(self).found() == old(self).found() + files_of(entry_infos(entries@)),
    {
        let ghost es = entry_infos(entries@);
        let mut i: usize = 0;
        assert(es.take(0) =~= Seq::<(EntryKind, Option<Seq<char>>)>::empty());
        assert(old(self).pending() + subdirs_of(es.take(0)) =~= old(self).pending());
        assert(old(self).found() + files_of(es.take(0)) =~= old(self).found());
        while i < entries.len()
            invariant
                es == entry_infos(entries@),
                i <= entries.len(),
                self.pending() == old(self).pending() + subdirs_of(es.take(i as int)),
                self.found() == old(self).found() + files_of(es.take(i as int)),
            decreases entries.len() - i,
        {
            let e = &entries[i];
            assert(es.take(i + 1).drop_last() =~= es.take(i as int));
            assert(es.take(i + 1).last() == es[i as int]);
            let ghost pend = self.pending();
            let ghost fnd = self.found();
            match (&e.kind, &e.path) {
                (EntryKind::Directory, Some(p)) => {
                    self.pending.push(p.clone());
                    assert(self.pending() =~= pend.push(p@));
                },
                (EntryKind::File, Some(p)) => {
                    let chars = chars_of(p.as_str());
                    let fixed = replace_backslashes(&chars);
                    self.found.push(string_of(&fixed));
                    assert(self.found() =~= fnd.push(replace_char(p@, '\\', '/')));
                },
                _ => {},
            }
            i += 1;
        }
        assert(es.take(i as int) =~= es);
    }

    /// The files found, in the order they were found.
    pub fn into_found(self) -> (res: Vec<String>)
        ensures
            string_views(res@) == self.found(),
    {
        self.found
    }
}

/// The files found are never written with `\`.
pub proof fn lemma_files_normalized(es: Seq<(EntryKind, Option<Seq<char>>)>)
    ensures
        forall|k: int| 0 <= k < files_of(es).len() ==> !(#[trigger] files_of(es)[k]).contains('\\'),
    decreases es.len(),
{
    if es.len() > 0 {
        lemma_files_normalized(es.drop_last());
        let rest = files_of(es.drop_last());
        match es.last() {
            (EntryKind::File, Some(p)) => {
                let q = replace_char(p, '\\', '/');
                assert(!q.contains('\\')) by {
                    if q.contains('\\') {
                        let j = choose|j: int| 0 <= j < q.len() && q[j] == '\\';
                        assert(q[j] == (if p[j] == '\\' { '/' } else { p[j] }));
                    }
                }
                assert forall|k: int| 0 <= k < files_of(es).len() implies !(#[trigger] files_of(es)[k]).contains('\\') by {
                    if k < rest.len() {
                        assert(files_of(es)[k] == rest[k]);
                    }
                }
            },
            _ => {},
        }
    }
}

} // verus!
