//! Many archives looked at as one: a resource is found by its hash, in the
//! last archive that holds it.

use crate::archive;
use crate::archive::{depot_path_hash, ArchiveIndex};
use std::collections::HashMap;
use vstd::prelude::*;

verus! {

broadcast use vstd::std_specs::hash::group_hash_axioms;

/// The hashes of the files in an archive.
pub open spec fn hashes(index: ArchiveIndex) -> Seq<u64> {
    index.entries@.map_values(|entry: archive::ArchiveEntry| entry.name_hash)
}

/// Where the first `n` files of an archive are, over where others are.
pub open spec fn with_files(
    places: Map<u64, (usize, usize)>,
    source: usize,
    files: Seq<u64>,
    n: nat,
) -> Map<u64, (usize, usize)>
    decreases n,
{
    if n == 0 {
        places
    } else {
        with_files(places, source, files, (n - 1) as nat).insert(
            files[n - 1],
            (source, (n - 1) as usize),
        )
    }
}

/// Where the files of the first `n` archives are: archive and entry.
pub open spec fn places_of(sources: Seq<ArchiveIndex>, n: nat) -> Map<u64, (usize, usize)>
    decreases n,
{
    if n == 0 {
        Map::empty()
    } else {
        let files = hashes(sources[n - 1]);
        with_files(places_of(sources, (n - 1) as nat), (n - 1) as usize, files, files.len())
    }
}

/// An index over many archives.
#[derive(Debug)]
pub struct ArchiveSet {
    sources: Vec<ArchiveIndex>,
    locations: HashMap<u64, (usize, usize)>,
}

impl ArchiveSet {
    /// The archives that are indexed.
    pub closed spec fn archives(&self) -> Seq<ArchiveIndex> {
        self.sources@
    }

    /// Gives an archive by its place.
    pub fn archive(&self, index: usize) -> (result: &ArchiveIndex)
        requires
            index < self.archives().len(),
        ensures
            *result == self.archives()[index as int],
    {
        &self.sources[index]
    }

    /// The locations are those of the files in all archives.
    pub closed spec fn well_formed(&self) -> bool {
        self.locations@ == places_of(self.sources@, self.sources@.len())
    }

    /// Indexes archives. Of files with the same hash the last one counts.
    pub fn new(sources: Vec<ArchiveIndex>) -> (result: ArchiveSet)
        ensures
            result.well_formed(),
            result.archives() == sources@,
    {
        let mut locations: HashMap<u64, (usize, usize)> = HashMap::new();
        let mut i: usize = 0;
        while i < sources.len()
            invariant
                i <= sources@.len(),
                locations@ == places_of(sources@, i as nat),
            decreases sources@.len() - i,
        {
            let ghost files = hashes(sources@[i as int]);
            let ghost before = locations@;
            let mut k: usize = 0;
            while k < sources[i].entries.len()
                invariant
                    i < sources@.len(),
                    k <= sources@[i as int].entries@.len(),
                    files == hashes(sources@[i as int]),
                    locations@ == with_files(before, i, files, k as nat),
                decreases sources@[i as int].entries@.len() - k,
            {
                assert(files[k as int] == sources@[i as int].entries@[k as int].name_hash);
                locations.insert(sources[i].entries[k].name_hash, (i, k));
                k = k + 1;
            }
            i = i + 1;
        }
        ArchiveSet { sources, locations }
    }

    /// Finds a depot path: the archive that holds it, and the entry there.
    pub fn locate(&self, depot_path: &str) -> (result: Option<(usize, usize)>)
        requires
            self.well_formed(),
        ensures
            match result {
                Some(place) => places_of(self.archives(), self.archives().len()).dom().contains(
                    archive::depot_hash(depot_path@),
                ) && place == places_of(
                    self.archives(),
                    self.archives().len(),
                )[archive::depot_hash(depot_path@)],
                None => !places_of(self.archives(), self.archives().len()).dom().contains(
                    archive::depot_hash(depot_path@),
                ),
            },
    {
        let hash: u64 = depot_path_hash(depot_path);
        match self.locations.get(&hash) {
            Some(place) => Some(*place),
            None => None,
        }
    }
}

proof fn lemma_with_files(
    places: Map<u64, (usize, usize)>,
    source: usize,
    files: Seq<u64>,
    n: nat,
    hash: u64,
)
    requires
        n <= files.len() <= usize::MAX,
    ensures
        ({
            let all = with_files(places, source, files, n);
            if exists|k: int| 0 <= k < n && files[k] == hash {
                all.dom().contains(hash) && all[hash].0 == source && all[hash].1 < n
                    && files[all[hash].1 as int] == hash
            } else {
                all.dom().contains(hash) == places.dom().contains(hash) && all[hash]
                    == places[hash]
            }
        }),
    decreases n,
{
    if n > 0 {
        lemma_with_files(places, source, files, (n - 1) as nat, hash);
        if files[n - 1] != hash && exists|k: int| 0 <= k < n && files[k] == hash {
            let k = choose|k: int| 0 <= k < n && files[k] == hash;
            assert(0 <= k < n - 1 && files[k] == hash);
        }
        if files[n - 1] != hash && exists|k: int| 0 <= k < n - 1 && files[k] == hash {
            let k = choose|k: int| 0 <= k < n - 1 && files[k] == hash;
            assert(0 <= k < n && files[k] == hash);
        }
    }
}

/// A file in the last archive is found there, whatever the archives before it
/// hold.
pub proof fn law_last_archive_wins(sources: Seq<ArchiveIndex>, k: nat)
    requires
        0 < sources.len() <= usize::MAX,
        k < sources.last().entries@.len() <= usize::MAX,
    ensures
        ({
            let hash = sources.last().entries@[k as int].name_hash;
            let place = places_of(sources, sources.len())[hash];
            &&& places_of(sources, sources.len()).dom().contains(hash)
            &&& place.0 == sources.len() - 1
            &&& place.1 < sources.last().entries@.len()
            &&& sources.last().entries@[place.1 as int].name_hash == hash
        }),
{
    let files = hashes(sources.last());
    let hash = files[k as int];
    assert(hash == sources.last().entries@[k as int].name_hash);
    lemma_with_files(
        places_of(sources, (sources.len() - 1) as nat),
        (sources.len() - 1) as usize,
        files,
        files.len(),
        hash,
    );
    assert(0 <= k < files.len() && files[k as int] == hash);
}

} // verus!
