//! Where files are, whatever paths they are found under: two paths may name one entry of
//! one directory, through a link to a directory or through `..`.

use crate::entry::{records, FileEntry, FileRecord};
use crate::order::{
    keyed, latest, lemma_last_counts, lemma_latest_map, map_pairs, SortKey, Table,
};
use crate::path::{components, Component, FilePath, PathKey};
use crate::pipeline::path_bytes;
use vstd::prelude::*;

verus! {

/// From the paths of files to their resolved paths.
pub type PlaceTable = Table<PathKey, FilePath>;

/// The files as pairs of path and resolved path.
pub open spec fn place_pairs(files: Seq<FileRecord>) -> Seq<(Seq<Component>, Seq<u8>)> {
    Seq::new(files.len(), |i: int| (components(files[i].path), files[i].resolved))
}

/// The resolved path of a path; one that is not known stands for itself.
pub open spec fn place_of(places: PlaceTable, path: Seq<u8>) -> Seq<u8> {
    match places.find(components(path)) {
        Some(place) => place@,
        None => path,
    }
}

/// Gathers the resolved paths of the files.
pub fn resolved_places(files: &Vec<FileEntry>) -> (r: PlaceTable)
    ensures
        forall|path: Seq<u8>| #[trigger]
            place_of(r, path) == match latest(place_pairs(records(files@)), components(path)) {
                Some(place) => place,
                None => path,
            },
{
    let ghost given = place_pairs(records(files@));
    let f = Ghost(path_bytes());
    let mut pairs: Vec<(PathKey, FilePath)> = Vec::new();
    let mut i: usize = 0;
    while i < files.len()
        invariant
            i <= files@.len(),
            f@ == path_bytes(),
            given == place_pairs(records(files@)),
            pairs@.len() == i,
            forall|j: int| 0 <= j < i ==> #[trigger] map_pairs(keyed(pairs@), f@)[j] == given[j],
        decreases files@.len() - i,
    {
        let key = files[i].path.key();
        let place = files[i].resolved.clone();
        let ghost before = map_pairs(keyed(pairs@), f@);
        assert(records(files@)[i as int] == files@[i as int]@);
        pairs.push((key, place));
        assert(map_pairs(keyed(pairs@), f@) =~= before.push((key.value(), place@)));
        i = i + 1;
    }
    assert(map_pairs(keyed(pairs@), f@) =~= given);
    let ghost all = keyed(pairs@);
    let r = Table::from_pairs(pairs);
    proof {
        assert forall|path: Seq<u8>| #[trigger] place_of(r, path) == match latest(
            given,
            components(path),
        ) {
            Some(place) => place,
            None => path,
        } by {
            let k = components(path);
            assert(r.find(k) == latest(all, k));
            lemma_latest_map(all, k, f@);
        }
    }
    r
}

/// The resolved path of a path.
pub fn place(places: &PlaceTable, path: &FilePath) -> (r: FilePath)
    ensures
        r@ == place_of(*places, path@),
{
    match places.get(&path.key()) {
        Some(place) => place.clone(),
        None => path.clone(),
    }
}

/// The resolved path of a path is that of the last file that has the path; where no file
/// has it, it is not known.
pub proof fn lemma_place_is_that_of_the_file(files: Seq<FileRecord>, path: Seq<u8>, i: int)
    ensures
        0 <= i < files.len() && components(files[i].path) == components(path) && (forall|j: int|
            i < j < files.len() ==> components((#[trigger] files[j]).path) != components(path))
            ==> latest(place_pairs(files), components(path)) == Some(files[i].resolved),
        (forall|j: int|
            0 <= j < files.len() ==> components((#[trigger] files[j]).path) != components(path))
            ==> latest(place_pairs(files), components(path)) is None,
{
    let pairs = place_pairs(files);
    let k = components(path);
    lemma_last_counts(pairs, k, i);
    if forall|j: int| i < j < files.len() ==> components((#[trigger] files[j]).path) != k {
        assert forall|j: int| i < j < pairs.len() && 0 <= i implies (#[trigger] pairs[j]).0 != k by {
            assert(components(files[j].path) != k);
        }
    }
    if forall|j: int| 0 <= j < files.len() ==> components((#[trigger] files[j]).path) != k {
        assert forall|j: int| 0 <= j < pairs.len() implies (#[trigger] pairs[j]).0 != k by {
            assert(components(files[j].path) != k);
        }
    }
}

} // verus!
