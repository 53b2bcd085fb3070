//! Rotational drives: which devices are, and how many workers read from them.

use crate::entry::FileEntry;
use crate::text::{is_trimmed_char, is_white_space, trims_to};
use std::collections::HashSet;
use vstd::prelude::*;

verus! {

broadcast use vstd::std_specs::hash::group_hash_axioms;

/// A block device: what its `rotational` flag holds and its device number, as far
/// as they could be read.
pub struct BlockDevice {
    pub rotational: Option<String>,
    pub dev: Option<u64>,
}

/// Whether the flag of a device says that it rotates: it is `1`, but for white
/// space.
pub open spec fn rotates(device: BlockDevice) -> bool {
    match device.rotational {
        Some(flag) => trims_to(flag@, '1'),
        None => false,
    }
}

/// The device numbers of the rotational drives.
pub fn detect_hdd_devices(devices: &Vec<BlockDevice>) -> (r: HashSet<u64>)
    ensures
        forall|dev: u64| #[trigger]
            r@.contains(dev) <==> exists|i: int|
                0 <= i < devices@.len() && rotates(#[trigger] devices@[i]) && devices@[i].dev
                    == Some(dev),
{
    let mut hdd: HashSet<u64> = HashSet::new();
    let mut i: usize = 0;
    while i < devices.len()
        invariant
            i <= devices@.len(),
            forall|dev: u64| #[trigger]
                hdd@.contains(dev) <==> exists|j: int|
                    0 <= j < i && rotates(#[trigger] devices@[j]) && devices@[j].dev == Some(dev),
        decreases devices@.len() - i,
    {
        let device = &devices[i];
        let ghost before = hdd@;
        let rotational = match &device.rotational {
            Some(flag) => is_trimmed_char(flag.as_str(), '1'),
            None => false,
        };
        if rotational {
            if let Some(dev) = device.dev {
                hdd.insert(dev);
            }
        }
        proof {
            assert(devices@[i as int] == device);
            assert forall|dev: u64| #[trigger]
                hdd@.contains(dev) <==> exists|j: int|
                    0 <= j < i + 1 && rotates(#[trigger] devices@[j]) && devices@[j].dev == Some(
                        dev,
                    ) by {
                if before.contains(dev) {
                    let j = choose|j: int|
                        0 <= j < i && rotates(#[trigger] devices@[j]) && devices@[j].dev == Some(
                            dev,
                        );
                    assert(rotates(devices@[j]));
                }
                if hdd@.contains(dev) && !before.contains(dev) {
                    assert(rotates(devices@[i as int]));
                }
            }
        }
        i = i + 1;
    }
    hdd
}

/// The number of worker threads: what was asked for, else one for each processor,
/// else four.
pub fn worker_threads(requested: Option<usize>, processors: Option<usize>) -> (r: usize)
    ensures
        r == match (requested, processors) {
            (Some(n), _) => n,
            (None, Some(n)) => n,
            (None, None) => 4,
        },
{
    match requested {
        Some(n) => n,
        None => match processors {
            Some(n) => n,
            None => 4,
        },
    }
}

/// The number of workers that read from rotational drives at once: at most
/// `hdd_workers`, at most `workers`, and one at least.
pub fn hdd_worker_threads(workers: usize, hdd_workers: usize) -> (r: usize)
    ensures
        r == if workers == 0 || hdd_workers == 0 {
            1
        } else if hdd_workers <= workers {
            hdd_workers as int
        } else {
            workers as int
        },
{
    if workers == 0 || hdd_workers == 0 {
        1
    } else if hdd_workers <= workers {
        hdd_workers
    } else {
        workers
    }
}

/// The places, in order, of the files that are on a rotational drive, or of those
/// that are not.
pub open spec fn places_on_hdd(s: Seq<FileEntry>, on_hdd: bool) -> Seq<usize>
    decreases s.len(),
{
    if s.len() == 0 {
        Seq::empty()
    } else {
        let front = places_on_hdd(s.drop_last(), on_hdd);
        if s.last().on_hdd == on_hdd {
            front.push((s.len() - 1) as usize)
        } else {
            front
        }
    }
}

/// Tells the files on rotational drives from the others.
pub fn split_by_drive(files: &Vec<FileEntry>) -> (r: (Vec<usize>, Vec<usize>))
    ensures
        r.0@ == places_on_hdd(files@, true),
        r.1@ == places_on_hdd(files@, false),
{
    let mut hdd: Vec<usize> = Vec::new();
    let mut other: Vec<usize> = Vec::new();
    let mut i: usize = 0;
    assert(files@.take(0) =~= Seq::empty());
    while i < files.len()
        invariant
            i <= files@.len(),
            hdd@ == places_on_hdd(files@.take(i as int), true),
            other@ == places_on_hdd(files@.take(i as int), false),
        decreases files@.len() - i,
    {
        proof {
            assert(files@.take(i + 1).drop_last() =~= files@.take(i as int));
            assert(files@.take(i + 1).last() == files@[i as int]);
        }
        if files[i].on_hdd {
            hdd.push(i);
        } else {
            other.push(i);
        }
        i = i + 1;
    }
    assert(files@.take(i as int) =~= files@);
    (hdd, other)
}

/// Every file has its place in exactly one of the two lists.
pub proof fn lemma_split_by_drive(s: Seq<FileEntry>)
    requires
        s.len() <= usize::MAX,
    ensures
        forall|on_hdd: bool, i: usize| #[trigger]
            places_on_hdd(s, on_hdd).contains(i) <==> i < s.len() && s[i as int].on_hdd == on_hdd,
        places_on_hdd(s, true).len() + places_on_hdd(s, false).len() == s.len(),
    decreases s.len(),
{
    if s.len() > 0 {
        let front = s.drop_last();
        lemma_split_by_drive(front);
        assert forall|on_hdd: bool, i: usize| #[trigger]
            places_on_hdd(s, on_hdd).contains(i) <==> i < s.len() && s[i as int].on_hdd
                == on_hdd by {
            let r = places_on_hdd(s, on_hdd);
            let f = places_on_hdd(front, on_hdd);
            assert(f.contains(i) <==> i < front.len() && front[i as int].on_hdd == on_hdd);
            if r.contains(i) {
                let k = choose|k: int| 0 <= k < r.len() && r[k] == i;
                if k < f.len() {
                    assert(f[k] == i);
                }
            }
            if f.contains(i) {
                let k = choose|k: int| 0 <= k < f.len() && f[k] == i;
                assert(r[k] == i);
            }
            if i == s.len() - 1 && s.last().on_hdd == on_hdd {
                assert(r[r.len() - 1] == i);
            }
        }
    }
}

/// The places in the two lists increase.
pub proof fn lemma_drive_places_increase(s: Seq<FileEntry>, on_hdd: bool)
    requires
        s.len() <= usize::MAX,
    ensures
        forall|p: int, q: int|
            #![trigger places_on_hdd(s, on_hdd)[p], places_on_hdd(s, on_hdd)[q]]
            0 <= p < q < places_on_hdd(s, on_hdd).len() ==> places_on_hdd(s, on_hdd)[p]
                < places_on_hdd(s, on_hdd)[q],
    decreases s.len(),
{
    if s.len() > 0 {
        let front = s.drop_last();
        let f = places_on_hdd(front, on_hdd);
        let r = places_on_hdd(s, on_hdd);
        lemma_drive_places_increase(front, on_hdd);
        lemma_split_by_drive(front);
        assert forall|p: int, q: int|
            #![trigger r[p], r[q]]
            0 <= p < q < r.len() implies r[p] < r[q] by {
            if q < f.len() {
                assert(f[p] < f[q]);
            } else {
                assert(f.contains(f[p]));
            }
        }
    }
}

/// A device rotates exactly where its flag could be read and is a one with nothing but
/// white space around it.
pub proof fn lemma_rotates(device: BlockDevice)
    ensures
        rotates(device) <==> device.rotational is Some && exists|i: int|
            0 <= i < device.rotational->0@.len() && #[trigger] device.rotational->0@[i] == '1'
                && forall|j: int|
                0 <= j < device.rotational->0@.len() && j != i ==> is_white_space(
                    #[trigger] device.rotational->0@[j],
                ),
{
}

} // verus!
