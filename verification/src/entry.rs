//! The files that take part in a search.

use crate::path::FilePath;
use std::collections::HashSet;
use vstd::prelude::*;

verus! {

broadcast use vstd::std_specs::hash::group_hash_axioms;

/// A regular file: its path, the same path with links and `..` resolved, which inode
/// it is, how long it is, and whether it lies on a rotational drive.
pub struct FileEntry {
    pub path: FilePath,
    pub resolved: FilePath,
    pub dev: u64,
    pub ino: u64,
    pub size: u64,
    pub on_hdd: bool,
}

/// What a file entry stands for.
pub struct FileRecord {
    pub path: Seq<u8>,
    pub resolved: Seq<u8>,
    pub dev: u64,
    pub ino: u64,
    pub size: u64,
    pub on_hdd: bool,
}

impl View for FileEntry {
    type V = FileRecord;

    open spec fn view(&self) -> FileRecord {
        FileRecord {
            path: self.path@,
            resolved: self.resolved@,
            dev: self.dev,
            ino: self.ino,
            size: self.size,
            on_hdd: self.on_hdd,
        }
    }
}

impl Clone for FileEntry {
    fn clone(&self) -> (r: Self)
        ensures
            r@ == self@,
    {
        FileEntry {
            path: self.path.clone(),
            resolved: self.resolved.clone(),
            dev: self.dev,
            ino: self.ino,
            size: self.size,
            on_hdd: self.on_hdd,
        }
    }
}

/// What entries stand for.
pub open spec fn records(s: Seq<FileEntry>) -> Seq<FileRecord> {
    Seq::new(s.len(), |i: int| s[i]@)
}

/// What the file system says of a path itself, not of what a link there points to.
pub struct FileMeta {
    pub is_file: bool,
    pub dev: u64,
    pub ino: u64,
    pub len: u64,
}

/// A path that was looked at: its absolute form, the same with links and `..`
/// resolved, and its metadata, as far as they could be had.
pub struct Probe {
    pub path: FilePath,
    pub absolute: Option<FilePath>,
    pub resolved: Option<FilePath>,
    pub meta: Option<FileMeta>,
}

/// The path that the entry for a probe has: the absolute one where there is one.
pub open spec fn path_of(probe: Probe) -> Seq<u8> {
    match probe.absolute {
        Some(path) => path@,
        None => probe.path@,
    }
}

/// The entry for a path that was looked at: there is one for a regular file of at
/// least `min_size` bytes. Its resolved path is its path where that could not be
/// resolved.
pub open spec fn entry_of(probe: Probe, min_size: u64, hdd_devs: Set<u64>) -> Option<FileRecord> {
    match probe.meta {
        Some(meta) => if meta.is_file && meta.len >= min_size {
            Some(
                FileRecord {
                    path: path_of(probe),
                    resolved: match probe.resolved {
                        Some(path) => path@,
                        None => path_of(probe),
                    },
                    dev: meta.dev,
                    ino: meta.ino,
                    size: meta.len,
                    on_hdd: hdd_devs.contains(meta.dev),
                },
            )
        } else {
            None
        },
        None => None,
    }
}

impl FileEntry {
    /// The entry for a path, if it is a regular file of at least `min_size` bytes.
    pub fn from_path(probe: Probe, min_size: u64, hdd_devs: &HashSet<u64>) -> (r: Option<Self>)
        ensures
            match r {
                Some(entry) => entry_of(probe, min_size, hdd_devs@) == Some(entry@),
                None => entry_of(probe, min_size, hdd_devs@) is None,
            },
            r is Some <==> probe.meta is Some && probe.meta->0.is_file && probe.meta->0.len
                >= min_size,
            r is Some ==> {
                &&& r->0.path@ == if probe.absolute is Some {
                    probe.absolute->0@
                } else {
                    probe.path@
                }
                &&& r->0.resolved@ == if probe.resolved is Some {
                    probe.resolved->0@
                } else {
                    r->0.path@
                }
                &&& r->0.dev == probe.meta->0.dev
                &&& r->0.ino == probe.meta->0.ino
                &&& r->0.size == probe.meta->0.len
                &&& r->0.on_hdd == hdd_devs@.contains(probe.meta->0.dev)
            },
    {
        match probe.meta {
            Some(meta) => {
                if !meta.is_file || meta.len < min_size {
                    return None;
                }
                let path = match probe.absolute {
                    Some(path) => path,
                    None => probe.path,
                };
                let resolved = match probe.resolved {
                    Some(resolved) => resolved,
                    None => path.clone(),
                };
                Some(
                    FileEntry {
                        path,
                        resolved,
                        dev: meta.dev,
                        ino: meta.ino,
                        size: meta.len,
                        on_hdd: hdd_devs.contains(&meta.dev),
                    },
                )
            },
            None => None,
        }
    }
}

/// The entries of at least `min_size` bytes, in their order.
pub open spec fn large_enough(s: Seq<FileRecord>, min_size: u64) -> Seq<FileRecord> {
    s.filter(|e: FileRecord| e.size >= min_size)
}

/// Keeps the entries of at least `min_size` bytes.
pub fn retain_min_size(files: Vec<FileEntry>, min_size: u64) -> (r: Vec<FileEntry>)
    ensures
        records(r@) == large_enough(records(files@), min_size),
        records(r@) == records(files@).filter(|e: FileRecord| e.size >= min_size),
        forall|i: int|
            0 <= i < files@.len() && (#[trigger] files@[i]).size >= min_size ==> records(
                r@,
            ).contains(files@[i]@),
        forall|i: int|
            0 <= i < r@.len() ==> (#[trigger] r@[i]).size >= min_size && records(files@).contains(
                r@[i]@,
            ),
{
    let ghost all = records(files@);
    let mut r: Vec<FileEntry> = Vec::new();
    proof {
        reveal(Seq::filter);
        assert(all.take(0) =~= Seq::empty());
        assert(records(r@) =~= large_enough(all.take(0), min_size));
    }
    for file in it: files
        invariant
            it.seq() == files@,
            all == records(files@),
            records(r@) == large_enough(all.take(it.index() as int), min_size),
    {
        let ghost n = it.index() as int;
        let ghost before = records(r@);
        proof {
            reveal(Seq::filter);
            assert(all[n] == file@);
            assert(all.take(n + 1).drop_last() =~= all.take(n));
        }
        if file.size >= min_size {
            r.push(file);
            assert(records(r@) =~= before.push(file@));
        }
    }
    assert(all.take(all.len() as int) =~= all);
    proof {
        let p = |e: FileRecord| e.size >= min_size;
        assert(large_enough(all, min_size) == all.filter(p));
        assert forall|i: int|
            0 <= i < files@.len() && (#[trigger] files@[i]).size >= min_size implies records(
            r@,
        ).contains(files@[i]@) by {
            all.lemma_filter_contains(p, i);
        }
        assert forall|i: int| 0 <= i < r@.len() implies (#[trigger] r@[i]).size >= min_size
            && records(files@).contains(r@[i]@) by {
            assert(records(r@)[i] == r@[i]@);
            all.lemma_filter_pred(p, i);
            assert(all.filter(p).contains(r@[i]@));
            all.lemma_filter_contains_rev(p, r@[i]@);
        }
    }
    r
}

} // verus!
