use vstd::prelude::*;

use crate::cache::{CacheError, FileFingerprint, HashCache};
use crate::cluster::hashed_items;
use crate::fingerprint::{FuzzyHash, FuzzyHashAlgorithm};

verus! {

/// A per-item failure: the item's index and path, and what went wrong.
#[derive(Debug)]
pub struct DuplicateWarning {
    pub index: usize,
    pub path: String,
    pub message: String,
}

/// A cache failure met while handling an item; it does not decide the item's outcome.
#[derive(Debug)]
pub struct CacheWarning {
    pub index: usize,
    pub path: String,
    pub error: CacheError,
}

/// An item whose fingerprint still has to be computed.
#[derive(Debug)]
pub struct PendingItem {
    pub index: usize,
    pub path: String,
    pub stamp: Option<FileFingerprint>,
}

/// The state of a batch after the cache has been consulted.
pub struct BatchPlan {
    pub hashes: Vec<(usize, FuzzyHash)>,
    pub warnings: Vec<DuplicateWarning>,
    pub pending: Vec<PendingItem>,
}

/// The outcome of fingerprinting a batch.
pub struct HashComputation {
    pub hashes: Vec<(usize, FuzzyHash)>,
    pub warnings: Vec<DuplicateWarning>,
    pub cache_warnings: Vec<CacheWarning>,
}

pub open spec fn warning_indices(w: Seq<DuplicateWarning>) -> Seq<usize> {
    Seq::new(w.len(), |k: int| w[k].index)
}

pub open spec fn pending_indices(p: Seq<PendingItem>) -> Seq<usize> {
    Seq::new(p.len(), |k: int| p[k].index)
}

/// Every index below `n` stands in exactly one of the three lists, once.
pub open spec fn partitions(h: Seq<usize>, w: Seq<usize>, p: Seq<usize>, n: nat) -> bool {
    &&& h.no_duplicates()
    &&& w.no_duplicates()
    &&& p.no_duplicates()
    &&& h.len() + w.len() + p.len() == n
    &&& forall|k: int| 0 <= k < h.len() ==> #[trigger] h[k] < n
    &&& forall|k: int| 0 <= k < w.len() ==> #[trigger] w[k] < n
    &&& forall|k: int| 0 <= k < p.len() ==> #[trigger] p[k] < n
    &&& forall|i: usize|
        #![trigger h.contains(i)]
        #![trigger w.contains(i)]
        #![trigger p.contains(i)]
        i < n ==> h.contains(i) || w.contains(i) || p.contains(i)
    &&& forall|i: usize|
        #![trigger h.contains(i)]
        #![trigger w.contains(i)]
        #![trigger p.contains(i)]
        !(h.contains(i) && w.contains(i)) && !(h.contains(i) && p.contains(i)) && !(w.contains(i)
            && p.contains(i))
}

/// Each of the `n` items has exactly one outcome: a fingerprint or a warning.
pub open spec fn one_outcome_each(
    hashes: Seq<(usize, FuzzyHash)>,
    warnings: Seq<DuplicateWarning>,
    n: nat,
) -> bool {
    partitions(hashed_items(hashes), warning_indices(warnings), Seq::empty(), n)
}

/// Consults the cache for every item. Without a cache every item is pending. With
/// one, an item whose stamp could not be read gets a warning with that message,
/// a valid cache entry gives its fingerprint, and every other item is pending with
/// its stamp.
pub fn plan_batch(
    item_paths: &Vec<String>,
    stamps: &Vec<Result<FileFingerprint, String>>,
    algo: FuzzyHashAlgorithm,
    cache: Option<&HashCache>,
) -> (r: BatchPlan)
    requires
        cache.is_some() ==> stamps.len() == item_paths.len(),
    ensures
        partitions(
            hashed_items(r.hashes@),
            warning_indices(r.warnings@),
            pending_indices(r.pending@),
            item_paths.len() as nat,
        ),
        cache.is_none() ==> r.hashes.len() == 0 && r.warnings.len() == 0,
        forall|k: int| 0 <= k < r.hashes.len() ==> (#[trigger] r.hashes@[k]).1.algo == algo,
        forall|k: int|
            0 <= k < r.hashes.len() ==> stamps@[(#[trigger] r.hashes@[k]).0 as int] is Ok,
        forall|k: int|
            0 <= k < r.warnings.len() ==> stamps@[(#[trigger] r.warnings@[k]).index as int] == Err::<
                FileFingerprint,
                String,
            >(r.warnings@[k].message) && r.warnings@[k].path@ == item_paths@[r.warnings@[k].index as int]@,
        forall|k: int|
            0 <= k < r.pending.len() ==> (#[trigger] r.pending@[k]).path@
                == item_paths@[r.pending@[k].index as int]@,
        forall|k: int|
            0 <= k < r.pending.len() ==> match (#[trigger] r.pending@[k]).stamp {
                Some(s) => cache.is_some() && stamps@[r.pending@[k].index as int] == Ok::<
                    FileFingerprint,
                    String,
                >(s),
                None => cache.is_none(),
            },
{
    let n = item_paths.len();
    let mut hashes: Vec<(usize, FuzzyHash)> = Vec::new();
    let mut warnings: Vec<DuplicateWarning> = Vec::new();
    let mut pending: Vec<PendingItem> = Vec::new();
    let mut i: usize = 0;
    while i < n
        invariant
            n == item_paths.len(),
            cache.is_some() ==> stamps.len() == n,
            i <= n,
            partitions(
                hashed_items(hashes@),
                warning_indices(warnings@),
                pending_indices(pending@),
                i as nat,
            ),
            cache.is_none() ==> hashes.len() == 0 && warnings.len() == 0,
            forall|k: int| 0 <= k < hashes.len() ==> (#[trigger] hashes@[k]).1.algo == algo,
            forall|k: int| 0 <= k < hashes.len() ==> stamps@[(#[trigger] hashes@[k]).0 as int] is Ok,
            forall|k: int|
                0 <= k < warnings.len() ==> stamps@[(#[trigger] warnings@[k]).index as int]
                    == Err::<FileFingerprint, String>(warnings@[k].message)
                    && warnings@[k].path@ == item_paths@[warnings@[k].index as int]@,
            forall|k: int|
                0 <= k < pending.len() ==> (#[trigger] pending@[k]).path@
                    == item_paths@[pending@[k].index as int]@,
            forall|k: int|
                0 <= k < pending.len() ==> match (#[trigger] pending@[k]).stamp {
                    Some(s) => cache.is_some() && stamps@[pending@[k].index as int] == Ok::<
                        FileFingerprint,
                        String,
                    >(s),
                    None => cache.is_none(),
                },
        decreases n - i,
    {
        let ghost h0 = hashed_items(hashes@);
        let ghost w0 = warning_indices(warnings@);
        let ghost pending_before = pending_indices(pending@);
        let path = &item_paths[i];
        let mut outcome: u8 = 2;
        let mut stamp: Option<FileFingerprint> = None;
        match cache {
            Some(c) => {
                match &stamps[i] {
                    Err(msg) => {
                        warnings.push(
                            DuplicateWarning { index: i, path: path.clone(), message: msg.clone() },
                        );
                        outcome = 1;
                    },
                    Ok(s) => {
                        stamp = Some(*s);
                        match c.lookup(path.as_str(), algo, s) {
                            Some(h) => {
                                hashes.push((i, h));
                                outcome = 0;
                            },
                            None => {},
                        }
                    },
                }
            },
            None => {},
        }
        if outcome == 2 {
            pending.push(PendingItem { index: i, path: path.clone(), stamp });
        }
        proof {
            let h1 = hashed_items(hashes@);
            let w1 = warning_indices(warnings@);
            let pending_after = pending_indices(pending@);
            let iu = i as usize;
            if outcome == 0 {
                assert(h1 =~= h0.push(iu));
                assert(w1 =~= w0);
                assert(pending_after =~= pending_before);
            } else if outcome == 1 {
                assert(h1 =~= h0);
                assert(w1 =~= w0.push(iu));
                assert(pending_after =~= pending_before);
            } else {
                assert(h1 =~= h0);
                assert(w1 =~= w0);
                assert(pending_after =~= pending_before.push(iu));
            }
            lemma_partition_push(h0, w0, pending_before, i as nat, outcome);
        }
        i = i + 1;
    }
    BatchPlan { hashes, warnings, pending }
}

/// How many of the outcomes are fingerprints.
pub open spec fn ok_count(rs: Seq<Result<FuzzyHash, String>>) -> nat
    decreases rs.len(),
{
    if rs.len() == 0 {
        0
    } else {
        (if rs[0] is Ok {
            1nat
        } else {
            0nat
        }) + ok_count(rs.drop_first())
    }
}

/// `entry` is the fingerprint that some worker computed for its pending item.
pub open spec fn from_result(
    results: Seq<Result<FuzzyHash, String>>,
    pending: Seq<PendingItem>,
    entry: (usize, FuzzyHash),
) -> bool {
    exists|k: int|
        0 <= k < results.len() && #[trigger] results[k] == Ok::<FuzzyHash, String>(entry.1)
            && pending[k].index == entry.0
}

/// Every fingerprint of a finished batch carries the batch's algorithm when the cached
/// ones and the computed ones do.
pub proof fn lemma_batch_algorithm(
    cached: Seq<(usize, FuzzyHash)>,
    pending: Seq<PendingItem>,
    results: Seq<Result<FuzzyHash, String>>,
    hashes: Seq<(usize, FuzzyHash)>,
    algo: FuzzyHashAlgorithm,
)
    requires
        forall|k: int| 0 <= k < cached.len() ==> (#[trigger] cached[k]).1.algo == algo,
        forall|k: int|
            0 <= k < results.len() && (#[trigger] results[k]) is Ok ==> results[k]->Ok_0.algo
                == algo,
        cached.len() <= hashes.len(),
        hashes.subrange(0, cached.len() as int) == cached,
        forall|t: int|
            cached.len() <= t < hashes.len() ==> from_result(results, pending, #[trigger] hashes[t]),
    ensures
        forall|t: int| 0 <= t < hashes.len() ==> (#[trigger] hashes[t]).1.algo == algo,
{
    assert forall|t: int| 0 <= t < hashes.len() implies (#[trigger] hashes[t]).1.algo == algo by {
        if t < cached.len() {
            assert(hashes.subrange(0, cached.len() as int)[t] == hashes[t]);
        } else {
            assert(from_result(results, pending, hashes[t]));
            let k = choose|k: int|
                0 <= k < results.len() && #[trigger] results[k] == Ok::<FuzzyHash, String>(hashes[t].1)
                    && pending[k].index == hashes[t].0;
            assert(results[k] is Ok);
        }
    }
}

/// Some warning in `w` is for item `index` at `path`, with `message`.
pub open spec fn has_warning(
    w: Seq<DuplicateWarning>,
    index: usize,
    path: Seq<char>,
    message: Seq<char>,
) -> bool {
    exists|k: int|
        0 <= k < w.len() && (#[trigger] w[k]).index == index && w[k].path@ == path
            && w[k].message@ == message
}

/// Merges the outcomes of the pending items into the batch, `results[k]` being the
/// outcome for `plan.pending[k]`. A fingerprint is kept, and written to the cache
/// when a cache and the item's stamp are at hand; a failure becomes a warning.
pub fn finish_batch(
    plan: BatchPlan,
    results: Vec<Result<FuzzyHash, String>>,
    item_count: usize,
    cache: Option<&HashCache>,
) -> (r: HashComputation)
    requires
        partitions(
            hashed_items(plan.hashes@),
            warning_indices(plan.warnings@),
            pending_indices(plan.pending@),
            item_count as nat,
        ),
        results.len() == plan.pending.len(),
    ensures
        one_outcome_each(r.hashes@, r.warnings@, item_count as nat),
        r.hashes@.subrange(0, plan.hashes.len() as int) == plan.hashes@,
        r.hashes.len() == plan.hashes.len() + ok_count(results@),
        forall|t: int|
            plan.hashes.len() <= t < r.hashes.len() ==> from_result(
                results@,
                plan.pending@,
                #[trigger] r.hashes@[t],
            ),
        r.warnings.len() + ok_count(results@) == plan.warnings.len() + results.len(),
        r.warnings@.subrange(0, plan.warnings.len() as int) == plan.warnings@,
        forall|k: int|
            0 <= k < results.len() ==> match #[trigger] results@[k] {
                Ok(h) => r.hashes@.contains((plan.pending@[k].index, h)),
                Err(msg) => has_warning(
                    r.warnings@,
                    plan.pending@[k].index,
                    plan.pending@[k].path@,
                    msg@,
                ),
            },
{
    let ghost old_pending = plan.pending@;
    let ghost old_results = results@;
    let ghost old_hashes = plan.hashes@;
    let ghost old_warnings = plan.warnings@;
    let BatchPlan { mut hashes, mut warnings, mut pending } = plan;
    let mut cache_warnings: Vec<CacheWarning> = Vec::new();
    let mut results = results;
    while pending.len() > 0
        invariant
            results.len() == pending.len(),
            pending.len() <= old_pending.len(),
            old_results.len() == old_pending.len(),
            pending@ == old_pending.subrange(0, pending.len() as int),
            results@ == old_results.subrange(0, pending.len() as int),
            partitions(
                hashed_items(hashes@),
                warning_indices(warnings@),
                pending_indices(pending@),
                item_count as nat,
            ),
            old_hashes.len() <= hashes.len(),
            forall|t: int|
                old_hashes.len() <= t < hashes.len() ==> from_result(
                    old_results,
                    old_pending,
                    #[trigger] hashes@[t],
                ),
            hashes.len() == old_hashes.len() + ok_count(
                old_results.subrange(pending.len() as int, old_results.len() as int),
            ),
            warnings.len() + ok_count(old_results.subrange(pending.len() as int, old_results.len() as int))
                == old_warnings.len() + (old_results.len() - pending.len()),
            hashes@.subrange(0, old_hashes.len() as int) == old_hashes,
            old_warnings.len() <= warnings.len(),
            warnings@.subrange(0, old_warnings.len() as int) == old_warnings,
            forall|k: int|
                pending.len() <= k < old_results.len() ==> match #[trigger] old_results[k] {
                    Ok(h) => hashes@.contains((old_pending[k].index, h)),
                    Err(msg) => has_warning(warnings@, old_pending[k].index, old_pending[k].path@, msg@),
                },
        decreases pending.len(),
    {
        let ghost k = pending.len() - 1;
        let ghost h0 = hashes@;
        let ghost w0 = warnings@;
        let ghost pending_before = pending_indices(pending@);
        let item = pending.pop().unwrap();
        let res = results.pop().unwrap();
        proof {
            assert(item == old_pending[k]);
            assert(res == old_results[k]);
            let tail = old_results.subrange(k, old_results.len() as int);
            assert(tail.drop_first() =~= old_results.subrange(k + 1, old_results.len() as int));
            assert(tail[0] == res);
            assert(pending_indices(pending@) =~= pending_before.drop_last());
            assert(pending_before.last() == item.index);
        }
        match res {
            Ok(h) => {
                match (cache, item.stamp) {
                    (Some(c), Some(stamp)) => {
                        if (h.bits.len() as u64) <= (i64::MAX as u64) {
                            match c.store(item.path.as_str(), h.algo, &stamp, &h) {
                                Ok(()) => {},
                                Err(error) => {
                                    cache_warnings.push(
                                        CacheWarning { index: item.index, path: item.path, error },
                                    );
                                },
                            }
                        }
                    },
                    _ => {},
                }
                hashes.push((item.index, h));
                proof {
                    assert(hashed_items(hashes@) =~= hashed_items(h0).push(item.index));
                    lemma_partition_move(hashed_items(h0), warning_indices(warnings@), pending_before, item_count as nat, 0);
                    assert(hashes@[h0.len() as int] == (item.index, h));
                    assert(from_result(old_results, old_pending, hashes@[h0.len() as int]));
                    assert forall|t: int| old_hashes.len() <= t < hashes.len() implies from_result(
                        old_results,
                        old_pending,
                        #[trigger] hashes@[t],
                    ) by {
                        if t < h0.len() {
                            assert(hashes@[t] == h0[t]);
                        }
                    }
                    assert(hashes@.subrange(0, old_hashes.len() as int) =~= h0.subrange(0, old_hashes.len() as int));
                    assert forall|j: int| pending.len() <= j < old_results.len() implies match #[trigger] old_results[j] {
                        Ok(hh) => hashes@.contains((old_pending[j].index, hh)),
                        Err(msg) => has_warning(warnings@, old_pending[j].index, old_pending[j].path@, msg@),
                    } by {
                        if j > k {
                            if let Ok(hh) = old_results[j] {
                                let t = choose|t: int| 0 <= t < h0.len() && h0[t] == (old_pending[j].index, hh);
                                assert(hashes@[t] == h0[t]);
                            }
                        }
                    }
                }
            },
            Err(message) => {
                warnings.push(DuplicateWarning { index: item.index, path: item.path, message });
                proof {
                    assert(warning_indices(warnings@) =~= warning_indices(w0).push(item.index));
                    lemma_partition_move(hashed_items(hashes@), warning_indices(w0), pending_before, item_count as nat, 1);
                    assert(warnings@.subrange(0, old_warnings.len() as int) =~= w0.subrange(0, old_warnings.len() as int));
                    assert forall|j: int| pending.len() <= j < old_results.len() implies match #[trigger] old_results[j] {
                        Ok(hh) => hashes@.contains((old_pending[j].index, hh)),
                        Err(msg) => has_warning(warnings@, old_pending[j].index, old_pending[j].path@, msg@),
                    } by {
                        if j > k {
                            if let Err(msg) = old_results[j] {
                                let t = choose|t: int| 0 <= t < w0.len() && (#[trigger] w0[t]).index == old_pending[j].index && w0[t].path@ == old_pending[j].path@ && w0[t].message@ == msg@;
                                assert(warnings@[t] == w0[t]);
                            }
                        } else {
                            let t = w0.len() as int;
                            assert(warnings@[t].index == old_pending[j].index);
                        }
                    }
                }
            },
        }
    }
    proof {
        assert(old_results.subrange(0, old_results.len() as int) =~= old_results);
        assert(pending_indices(pending@) =~= Seq::<usize>::empty());
        assert(hashes@.subrange(0, old_hashes.len() as int) == old_hashes);
    }
    HashComputation { hashes, warnings, cache_warnings }
}

/// Moving the last pending index to the fingerprints (`which == 0`) or to the
/// warnings keeps the partition.
proof fn lemma_partition_move(h: Seq<usize>, w: Seq<usize>, p: Seq<usize>, n: nat, which: u8)
    requires
        partitions(h, w, p, n),
        p.len() > 0,
        which <= 1,
    ensures
        which == 0 ==> partitions(h.push(p.last()), w, p.drop_last(), n),
        which == 1 ==> partitions(h, w.push(p.last()), p.drop_last(), n),
{
    let x = p.last();
    let q = p.drop_last();
    assert(p.contains(x));
    assert(!h.contains(x));
    assert(!w.contains(x));
    assert(!q.contains(x)) by {
        if q.contains(x) {
            let k = choose|k: int| 0 <= k < q.len() && q[k] == x;
            assert(p[k] == p[p.len() - 1]);
        }
    }
    assert(q.no_duplicates());
    assert forall|y: usize| #[trigger] p.contains(y) <==> (q.contains(y) || y == x) by {
        if p.contains(y) {
            let k = choose|k: int| 0 <= k < p.len() && p[k] == y;
            if k < q.len() {
                assert(q[k] == y);
            }
        }
        if q.contains(y) {
            let k = choose|k: int| 0 <= k < q.len() && q[k] == y;
            assert(p[k] == y);
        }
    }
    lemma_push_contains(h, x);
    lemma_push_contains(w, x);
}

/// Adding the next index to one of the lists keeps the partition.
proof fn lemma_partition_push(h: Seq<usize>, w: Seq<usize>, p: Seq<usize>, n: nat, which: u8)
    requires
        partitions(h, w, p, n),
        n < usize::MAX,
        which <= 2,
    ensures
        which == 0 ==> partitions(h.push(n as usize), w, p, n + 1),
        which == 1 ==> partitions(h, w.push(n as usize), p, n + 1),
        which == 2 ==> partitions(h, w, p.push(n as usize), n + 1),
{
    let x = n as usize;
    assert(!h.contains(x)) by {
        if h.contains(x) {
            let k = choose|k: int| 0 <= k < h.len() && h[k] == x;
        }
    }
    assert(!w.contains(x)) by {
        if w.contains(x) {
            let k = choose|k: int| 0 <= k < w.len() && w[k] == x;
        }
    }
    assert(!p.contains(x)) by {
        if p.contains(x) {
            let k = choose|k: int| 0 <= k < p.len() && p[k] == x;
        }
    }
    lemma_push_contains(h, x);
    lemma_push_contains(w, x);
    lemma_push_contains(p, x);
}

proof fn lemma_push_contains(s: Seq<usize>, x: usize)
    requires
        !s.contains(x),
        s.no_duplicates(),
    ensures
        s.push(x).no_duplicates(),
        forall|y: usize| #[trigger] s.push(x).contains(y) <==> (s.contains(y) || y == x),
{
    let t = s.push(x);
    assert forall|y: usize| #[trigger] t.contains(y) <==> (s.contains(y) || y == x) by {
        if t.contains(y) {
            let k = choose|k: int| 0 <= k < t.len() && t[k] == y;
            if k < s.len() {
                assert(s[k] == y);
            }
        }
        if s.contains(y) {
            let k = choose|k: int| 0 <= k < s.len() && s[k] == y;
            assert(t[k] == y);
        }
        if y == x {
            assert(t[s.len() as int] == y);
        }
    }
    assert forall|a: int, b: int| 0 <= a < t.len() && 0 <= b < t.len() && a != b implies t[a]
        != t[b] by {
        if a == s.len() && b < s.len() {
            assert(s.contains(t[b]));
        } else if b == s.len() && a < s.len() {
            assert(s.contains(t[a]));
        }
    }
}

} // verus!
