use vstd::prelude::*;

use crate::batch::{CacheWarning, DuplicateWarning, HashComputation};
use crate::cluster::{group_duplicates, is_grouping, near_graph, DuplicateGroup};
use crate::fingerprint::FuzzyHash;

verus! {

/// The result of a duplicate search: the groups, largest first, and the warnings.
pub struct DuplicateReport {
    pub groups: Vec<DuplicateGroup>,
    pub warnings: Vec<DuplicateWarning>,
    pub cache_warnings: Vec<CacheWarning>,
}

/// Every fingerprint belongs to an item below `n`, and no item has two.
pub open spec fn indices_fit(hashes: Seq<(usize, FuzzyHash)>, n: nat) -> bool {
    &&& forall|p: int| 0 <= p < hashes.len() ==> (#[trigger] hashes[p]).0 < n
    &&& forall|p: int, q: int|
        0 <= p < hashes.len() && 0 <= q < hashes.len() && p != q ==> (#[trigger] hashes[p]).0
            != (#[trigger] hashes[q]).0
}

/// Whether every fingerprint belongs to an item below `n`, and no item has two.
pub fn fingerprint_indices_ok(hashes: &Vec<(usize, FuzzyHash)>, n: usize) -> (r: bool)
    ensures
        r == indices_fit(hashes@, n as nat),
{
    let mut seen: Vec<Option<usize>> = Vec::new();
    let mut i: usize = 0;
    while i < n
        invariant
            i <= n,
            seen.len() == i,
            forall|k: int| 0 <= k < i ==> #[trigger] seen@[k] is None,
        decreases n - i,
    {
        seen.push(None);
        i = i + 1;
    }
    let m = hashes.len();
    let mut p: usize = 0;
    while p < m
        invariant
            m == hashes.len(),
            p <= m,
            seen.len() == n,
            forall|q: int| 0 <= q < p ==> (#[trigger] hashes@[q]).0 < n,
            forall|a: int, b: int|
                0 <= a < p && 0 <= b < p && a != b ==> (#[trigger] hashes@[a]).0
                    != (#[trigger] hashes@[b]).0,
            forall|x: int|
                0 <= x < n && #[trigger] seen@[x] is Some ==> seen@[x]->Some_0 < p
                    && hashes@[seen@[x]->Some_0 as int].0 == x,
            forall|q: int|
                0 <= q < p ==> seen@[(#[trigger] hashes@[q]).0 as int] == Some(q as usize),
        decreases m - p,
    {
        let idx = hashes[p].0;
        if idx >= n {
            return false;
        }
        match seen[idx] {
            Some(q) => {
                assert(hashes@[q as int].0 == hashes@[p as int].0);
                return false;
            },
            None => {},
        }
        seen.set(idx, Some(p));
        p = p + 1;
    }
    true
}

/// Clusters the fingerprints of a finished computation and gathers its warnings.
pub fn build_report(
    item_paths: &Vec<String>,
    computation: HashComputation,
    max_distance: u32,
    skip_same_dir: bool,
) -> (r: DuplicateReport)
    requires
        indices_fit(computation.hashes@, item_paths.len() as nat),
    ensures
        is_grouping(
            r.groups@,
            computation.hashes@,
            near_graph(item_paths@, computation.hashes@, max_distance, skip_same_dir),
        ),
        r.warnings@ == computation.warnings@,
        r.cache_warnings@ == computation.cache_warnings@,
{
    let groups = group_duplicates(item_paths, &computation.hashes, max_distance, skip_same_dir);
    DuplicateReport {
        groups,
        warnings: computation.warnings,
        cache_warnings: computation.cache_warnings,
    }
}

} // verus!
