use vstd::prelude::*;

use crate::fingerprint::{bit_distance, FuzzyHash};
use crate::graph::{connected, lemma_connected_add_edge, lemma_connected_mono, is_walk, step};
use crate::union_find::UnionFind;

verus! {

/// A set of near-duplicate items, given by their indices.
#[derive(Clone, Debug)]
pub struct DuplicateGroup {
    pub items: Vec<usize>,
}

/// Positions of `sizes` ordered by size, largest first; equal sizes keep their order.
fn order_by_size_desc(sizes: &Vec<usize>, largest: usize) -> (order: Vec<usize>)
    requires
        forall|k: int| 0 <= k < sizes.len() ==> 1 <= #[trigger] sizes@[k] <= largest,
    ensures
        order@.no_duplicates(),
        forall|j: int| 0 <= j < order.len() ==> #[trigger] order@[j] < sizes.len(),
        forall|k: usize| k < sizes.len() ==> #[trigger] order@.contains(k),
        forall|j1: int, j2: int|
            0 <= j1 < j2 < order.len() ==> sizes@[#[trigger] order@[j1] as int]
                >= sizes@[#[trigger] order@[j2] as int],
        forall|j1: int, j2: int|
            0 <= j1 < j2 < order.len() && sizes@[#[trigger] order@[j1] as int]
                == sizes@[#[trigger] order@[j2] as int] ==> order@[j1] < order@[j2],
{
    let mut order: Vec<usize> = Vec::new();
    let mut s: usize = largest;
    while s >= 1
        invariant
            s <= largest,
            forall|k: int| 0 <= k < sizes.len() ==> 1 <= #[trigger] sizes@[k] <= largest,
            order@.no_duplicates(),
            forall|j: int| 0 <= j < order.len() ==> #[trigger] order@[j] < sizes.len(),
            forall|j: int| 0 <= j < order.len() ==> sizes@[#[trigger] order@[j] as int] > s,
            forall|k: usize| k < sizes.len() && sizes@[k as int] > s ==> #[trigger] order@.contains(k),
            forall|j1: int, j2: int|
                0 <= j1 < j2 < order.len() ==> sizes@[#[trigger] order@[j1] as int]
                    >= sizes@[#[trigger] order@[j2] as int],
            forall|j1: int, j2: int|
                0 <= j1 < j2 < order.len() && sizes@[#[trigger] order@[j1] as int]
                    == sizes@[#[trigger] order@[j2] as int] ==> order@[j1] < order@[j2],
        decreases s,
    {
        let ghost before = order@;
        let mut k: usize = 0;
        while k < sizes.len()
            invariant
                1 <= s <= largest,
                k <= sizes.len(),
                forall|k: int| 0 <= k < sizes.len() ==> 1 <= #[trigger] sizes@[k] <= largest,
                before.len() <= order.len(),
                forall|j: int| 0 <= j < before.len() ==> #[trigger] order@[j] == before[j],
                forall|j: int| 0 <= j < before.len() ==> sizes@[#[trigger] before[j] as int] > s,
                forall|j: int|
                    before.len() <= j < order.len() ==> sizes@[#[trigger] order@[j] as int] == s
                        && order@[j] < k,
                order@.no_duplicates(),
                forall|j: int| 0 <= j < order.len() ==> #[trigger] order@[j] < sizes.len(),
                forall|x: usize| x < sizes.len() && sizes@[x as int] > s ==> #[trigger] before.contains(x),
                forall|x: usize| x < k && sizes@[x as int] == s ==> #[trigger] order@.contains(x),
                forall|j1: int, j2: int|
                    0 <= j1 < j2 < order.len() ==> sizes@[#[trigger] order@[j1] as int]
                        >= sizes@[#[trigger] order@[j2] as int],
                forall|j1: int, j2: int|
                    0 <= j1 < j2 < order.len() && sizes@[#[trigger] order@[j1] as int]
                        == sizes@[#[trigger] order@[j2] as int] ==> order@[j1] < order@[j2],
            decreases sizes.len() - k,
        {
            if sizes[k] == s {
                let ghost prev = order@;
                order.push(k);
                proof {
                    assert(order@[prev.len() as int] == k);
                    assert forall|x: usize| x < k + 1 && sizes@[x as int] == s implies #[trigger] order@.contains(x) by {
                        if x < k {
                            assert(prev.contains(x));
                            let j = choose|j: int| 0 <= j < prev.len() && prev[j] == x;
                            assert(order@[j] == x);
                        } else {
                            assert(order@[prev.len() as int] == x);
                        }
                    }
                    assert forall|j: int| 0 <= j < prev.len() implies #[trigger] prev[j] != k by {}
                }
            }
            k = k + 1;
        }
        proof {
            assert forall|x: usize| x < sizes.len() && sizes@[x as int] > s - 1 implies #[trigger] order@.contains(x) by {
                if sizes@[x as int] > s {
                    assert(before.contains(x));
                    let j = choose|j: int| 0 <= j < before.len() && before[j] == x;
                    assert(order@[j] == x);
                }
            }
        }
        s = s - 1;
    }
    order
}

/// Number of positions below `n` whose label is `v`.
pub open spec fn label_count(labels: Seq<usize>, v: usize, n: int) -> nat
    decreases n,
{
    if n <= 0 {
        0
    } else {
        label_count(labels, v, n - 1) + if labels[n - 1] == v { 1nat } else { 0nat }
    }
}

/// No earlier position carries the label of position `p`.
pub open spec fn first_of_label(labels: Seq<usize>, p: int) -> bool {
    forall|q: int| 0 <= q < p ==> labels[q] != labels[p]
}

proof fn lemma_label_count_bounded(labels: Seq<usize>, v: usize, n: int)
    requires
        n >= 0,
    ensures
        label_count(labels, v, n) <= n,
    decreases n,
{
    if n > 0 {
        lemma_label_count_bounded(labels, v, n - 1);
    }
}

proof fn lemma_label_count_mono(labels: Seq<usize>, v: usize, a: int, b: int)
    requires
        0 <= a <= b,
    ensures
        label_count(labels, v, a) <= label_count(labels, v, b),
    decreases b - a,
{
    if a < b {
        lemma_label_count_mono(labels, v, a, b - 1);
    }
}

pub(crate) proof fn lemma_label_count_two(labels: Seq<usize>, p: int, q: int, n: int)
    requires
        0 <= p < q < n,
        labels[p] == labels[q],
    ensures
        label_count(labels, labels[p], n) >= 2,
{
    lemma_label_count_mono(labels, labels[p], p, p + 1);
    assert(label_count(labels, labels[p], p + 1) >= 1);
    lemma_label_count_mono(labels, labels[p], p + 1, q);
    assert(label_count(labels, labels[p], q + 1) >= 2);
    lemma_label_count_mono(labels, labels[p], q + 1, n);
}

pub(crate) proof fn lemma_first_exists(labels: Seq<usize>, p: int)
    requires
        0 <= p < labels.len(),
    ensures
        exists|f: int| 0 <= f <= p && labels[f] == labels[p] && #[trigger] first_of_label(labels, f),
    decreases p,
{
    if !first_of_label(labels, p) {
        let q = choose|q: int| 0 <= q < p && labels[q] == labels[p];
        lemma_first_exists(labels, q);
        let f = choose|f: int|
            0 <= f <= q && labels[f] == labels[q] && #[trigger] first_of_label(labels, f);
        assert(0 <= f <= p && labels[f] == labels[p] && first_of_label(labels, f));
    } else {
        assert(first_of_label(labels, p));
    }
}

/// The first position of every label carried by two or more positions, with that count.
pub(crate) fn label_leaders(labels: &Vec<usize>) -> (r: (Vec<usize>, Vec<usize>))
    ensures
        r.0.len() == r.1.len(),
        forall|k: int| 0 <= k < r.0.len() ==> #[trigger] r.0@[k] < labels.len(),
        forall|k1: int, k2: int|
            0 <= k1 < k2 < r.0.len() ==> #[trigger] r.0@[k1] < #[trigger] r.0@[k2],
        forall|k: int| 0 <= k < r.0.len() ==> first_of_label(labels@, #[trigger] r.0@[k] as int),
        forall|k: int|
            0 <= k < r.1.len() ==> #[trigger] r.1@[k] == label_count(
                labels@,
                labels@[r.0@[k] as int],
                labels.len() as int,
            ) && 2 <= r.1@[k] <= labels.len(),
        forall|p: int|
            0 <= p < labels.len() && #[trigger] first_of_label(labels@, p) && label_count(
                labels@,
                labels@[p],
                labels.len() as int,
            ) >= 2 ==> exists|k: int| 0 <= k < r.0.len() && #[trigger] r.0@[k] == p,
{
    let m = labels.len();
    let mut leads: Vec<usize> = Vec::new();
    let mut sizes: Vec<usize> = Vec::new();
    let mut p: usize = 0;
    while p < m
        invariant
            m == labels.len(),
            p <= m,
            leads.len() == sizes.len(),
            forall|k: int| 0 <= k < leads.len() ==> #[trigger] leads@[k] < p,
            forall|k1: int, k2: int|
                0 <= k1 < k2 < leads.len() ==> #[trigger] leads@[k1] < #[trigger] leads@[k2],
            forall|k: int|
                0 <= k < leads.len() ==> first_of_label(labels@, #[trigger] leads@[k] as int),
            forall|k: int|
                0 <= k < sizes.len() ==> #[trigger] sizes@[k] == label_count(
                    labels@,
                    labels@[leads@[k] as int],
                    m as int,
                ) && 2 <= sizes@[k] <= m,
            forall|x: int|
                0 <= x < p && #[trigger] first_of_label(labels@, x) && label_count(
                    labels@,
                    labels@[x],
                    m as int,
                ) >= 2 ==> exists|k: int| 0 <= k < leads.len() && #[trigger] leads@[k] == x,
        decreases m - p,
    {
        let mut first = true;
        let mut size: usize = 0;
        let mut q: usize = 0;
        while q < m
            invariant
                m == labels.len(),
                p < m,
                q <= m,
                size == label_count(labels@, labels@[p as int], q as int),
                first == (forall|x: int| 0 <= x < q && x < p ==> labels@[x] != labels@[p as int]),
            decreases m - q,
        {
            proof {
                lemma_label_count_bounded(labels@, labels@[p as int], q as int);
            }
            if labels[q] == labels[p] {
                if q < p {
                    first = false;
                }
                size = size + 1;
            }
            q = q + 1;
        }
        proof {
            lemma_label_count_bounded(labels@, labels@[p as int], m as int);
        }
        if first && size >= 2 {
            let ghost old_leads = leads@;
            leads.push(p);
            sizes.push(size);
            proof {
                assert(leads@[old_leads.len() as int] == p);
                assert forall|x: int|
                    0 <= x < p + 1 && #[trigger] first_of_label(labels@, x) && label_count(
                        labels@,
                        labels@[x],
                        m as int,
                    ) >= 2 implies exists|k: int| 0 <= k < leads.len() && #[trigger] leads@[k] == x by {
                    if x < p {
                        let k = choose|k: int| 0 <= k < old_leads.len() && #[trigger] old_leads[k] == x;
                        assert(leads@[k] == x);
                    } else {
                        assert(leads@[old_leads.len() as int] == x);
                    }
                }
            }
        } else {
            proof {
                assert forall|x: int|
                    0 <= x < p + 1 && #[trigger] first_of_label(labels@, x) && label_count(
                        labels@,
                        labels@[x],
                        m as int,
                    ) >= 2 implies exists|k: int| 0 <= k < leads.len() && #[trigger] leads@[k] == x by {
                    if x == p {
                        assert(first_of_label(labels@, p as int) == first);
                    }
                }
            }
        }
        p = p + 1;
    }
    (leads, sizes)
}

/// Some group leader carries label `v`.
pub open spec fn led(labels: Seq<usize>, leaders: Seq<int>, v: usize) -> bool {
    exists|k: int| 0 <= k < leaders.len() && labels[#[trigger] leaders[k]] == v
}

/// The ids of the positions labelled `v`, in position order, with those positions.
pub(crate) fn collect_label(labels: &Vec<usize>, ids: &Vec<usize>, v: usize) -> (r: (Vec<usize>, Ghost<Seq<int>>))
    requires
        labels.len() == ids.len(),
        ids@.no_duplicates(),
    ensures
        r.0.len() == label_count(labels@, v, labels.len() as int),
        r.1@.len() == r.0.len(),
        forall|t: int|
            0 <= t < r.0.len() ==> 0 <= #[trigger] r.1@[t] < labels.len() && labels@[r.1@[t]] == v,
        forall|t: int| 0 <= t < r.0.len() ==> #[trigger] r.0@[t] == ids@[r.1@[t]],
        forall|t1: int, t2: int| 0 <= t1 < t2 < r.1@.len() ==> #[trigger] r.1@[t1] < #[trigger] r.1@[t2],
        r.0@.no_duplicates(),
        forall|q: int|
            0 <= q < labels.len() ==> (r.0@.contains(#[trigger] ids@[q]) <==> labels@[q] == v),
{
    let m = labels.len();
    let mut items: Vec<usize> = Vec::new();
    let ghost mut pos: Seq<int> = Seq::empty();
    let mut q: usize = 0;
    while q < m
        invariant
            m == labels.len(),
            m == ids.len(),
            ids@.no_duplicates(),
            q <= m,
            items.len() == label_count(labels@, v, q as int),
            pos.len() == items.len(),
            forall|t: int| 0 <= t < items.len() ==> 0 <= #[trigger] pos[t] < q && labels@[pos[t]] == v,
            forall|t: int| 0 <= t < items.len() ==> #[trigger] items@[t] == ids@[pos[t]],
            forall|t1: int, t2: int| 0 <= t1 < t2 < pos.len() ==> #[trigger] pos[t1] < #[trigger] pos[t2],
            forall|x: int| 0 <= x < q && labels@[x] == v ==> items@.contains(#[trigger] ids@[x]),
        decreases m - q,
    {
        proof {
            lemma_label_count_bounded(labels@, v, q as int);
        }
        if labels[q] == v {
            let ghost prev = items@;
            items.push(ids[q]);
            proof {
                let old_pos = pos;
                pos = pos.push(q as int);
                assert(items@[prev.len() as int] == ids@[q as int]);
                assert forall|t: int| 0 <= t < prev.len() implies #[trigger] items@[t] == prev[t]
                    && pos[t] == old_pos[t] by {}
                assert forall|t: int| 0 <= t < items.len() implies #[trigger] items@[t] == ids@[pos[t]] by {
                    if t < prev.len() {
                        assert(items@[t] == prev[t]);
                    }
                }
                assert forall|t1: int, t2: int| 0 <= t1 < t2 < pos.len() implies #[trigger] pos[t1]
                    < #[trigger] pos[t2] by {
                    if t2 < old_pos.len() {
                        assert(pos[t1] == old_pos[t1] && pos[t2] == old_pos[t2]);
                    } else {
                        assert(pos[t1] == old_pos[t1]);
                    }
                }
                assert forall|x: int| 0 <= x < q + 1 && labels@[x] == v implies items@.contains(
                    #[trigger] ids@[x],
                ) by {
                    if x < q {
                        assert(prev.contains(ids@[x]));
                        let t = choose|t: int| 0 <= t < prev.len() && prev[t] == ids@[x];
                        assert(items@[t] == ids@[x]);
                    } else {
                        assert(items@[prev.len() as int] == ids@[x]);
                    }
                }
            }
        }
        q = q + 1;
    }
    proof {
        assert forall|t1: int, t2: int| 0 <= t1 < items.len() && 0 <= t2 < items.len() && t1 != t2 implies items@[t1] != items@[t2] by {
            if t1 < t2 {
                assert(pos[t1] < pos[t2]);
            } else {
                assert(pos[t2] < pos[t1]);
            }
            assert(pos[t1] != pos[t2]);
            assert(0 <= pos[t1] < m && 0 <= pos[t2] < m);
            assert(ids@[pos[t1]] != ids@[pos[t2]]);
        }
        assert forall|x: int| 0 <= x < m implies (items@.contains(#[trigger] ids@[x]) <==> labels@[x] == v) by {
            if items@.contains(ids@[x]) {
                let t = choose|t: int| 0 <= t < items.len() && items@[t] == ids@[x];
                assert(items@[t] == ids@[pos[t]]);
                if pos[t] != x {
                    assert(ids@[pos[t]] != ids@[x]);
                }
            }
        }
    }
    (items, Ghost(pos))
}

/// Splits positions into groups of equal label, keeping only labels carried by two
/// or more positions; groups come largest first, and in order of their first
/// position among equal sizes. Returns the groups' ids and, for each, its first position.
pub(crate) fn groups_from_labels(labels: &Vec<usize>, ids: &Vec<usize>) -> (r: (Vec<DuplicateGroup>, Ghost<Seq<int>>))
    requires
        labels.len() == ids.len(),
        ids@.no_duplicates(),
    ensures
        r.1@.len() == r.0.len(),
        forall|k: int| 0 <= k < r.0.len() ==> 0 <= #[trigger] r.1@[k] < labels.len(),
        forall|k: int|
            0 <= k < r.0.len() ==> (#[trigger] r.0@[k]).items@.len() >= 2 && r.0@[k].items@.no_duplicates(),
        forall|k: int, q: int|
            0 <= k < r.0.len() && 0 <= q < labels.len() ==> ((#[trigger] r.0@[k]).items@.contains(
                #[trigger] ids@[q],
            ) <==> labels@[q] == labels@[r.1@[k]]),
        forall|k: int, t: int|
            0 <= k < r.0.len() && 0 <= t < r.0@[k].items@.len() ==> ids@.contains(#[trigger] r.0@[k].items@[t]),
        forall|k1: int, k2: int|
            0 <= k1 < r.0.len() && 0 <= k2 < r.0.len() && k1 != k2 ==> labels@[#[trigger] r.1@[k1]]
                != labels@[#[trigger] r.1@[k2]],
        forall|p: int, q: int|
            0 <= p < labels.len() && 0 <= q < labels.len() && p != q && labels@[p] == labels@[q]
                ==> #[trigger] led(labels@, r.1@, labels@[p]) && #[trigger] labels@[q] == labels@[p],
        forall|k1: int, k2: int|
            0 <= k1 < k2 < r.0.len() ==> (#[trigger] r.0@[k1]).items@.len() >= (#[trigger] r.0@[k2]).items@.len(),
        forall|k1: int, k2: int|
            0 <= k1 < k2 < r.0.len() && r.0@[k1].items@.len() == r.0@[k2].items@.len() ==> #[trigger] r.1@[k1]
                < #[trigger] r.1@[k2],
        forall|k: int| 0 <= k < r.0.len() ==> first_of_label(labels@, #[trigger] r.1@[k]),
{
    let m = labels.len();
    let (leads, sizes) = label_leaders(labels);
    let order = order_by_size_desc(&sizes, m);
    let mut out: Vec<DuplicateGroup> = Vec::new();
    let ghost mut ls: Seq<int> = Seq::empty();
    let mut j: usize = 0;
    while j < order.len()
        invariant
            m == labels.len(),
            m == ids.len(),
            ids@.no_duplicates(),
            j <= order.len(),
            leads.len() == sizes.len(),
            forall|k: int| 0 <= k < leads.len() ==> #[trigger] leads@[k] < m,
            forall|k: int|
                0 <= k < sizes.len() ==> #[trigger] sizes@[k] == label_count(
                    labels@,
                    labels@[leads@[k] as int],
                    m as int,
                ) && 2 <= sizes@[k] <= m,
            forall|i: int| 0 <= i < order.len() ==> #[trigger] order@[i] < sizes.len(),
            out.len() == j,
            ls.len() == j,
            forall|k: int| 0 <= k < j ==> #[trigger] ls[k] == leads@[order@[k] as int] as int,
            forall|k1: int, k2: int|
                0 <= k1 < k2 < leads.len() ==> #[trigger] leads@[k1] < #[trigger] leads@[k2],
            forall|k: int|
                0 <= k < leads.len() ==> first_of_label(labels@, #[trigger] leads@[k] as int),
            forall|j1: int, j2: int|
                0 <= j1 < j2 < order.len() && sizes@[#[trigger] order@[j1] as int]
                    == sizes@[#[trigger] order@[j2] as int] ==> order@[j1] < order@[j2],
            forall|k: int| 0 <= k < j ==> (#[trigger] out@[k]).items@.len() == sizes@[order@[k] as int],
            forall|k: int| 0 <= k < j ==> (#[trigger] out@[k]).items@.no_duplicates(),
            forall|k: int, q: int|
                0 <= k < j && 0 <= q < m ==> ((#[trigger] out@[k]).items@.contains(#[trigger] ids@[q])
                    <==> labels@[q] == labels@[ls[k]]),
            forall|k: int, t: int|
                0 <= k < j && 0 <= t < out@[k].items@.len() ==> ids@.contains(#[trigger] out@[k].items@[t]),
        decreases order.len() - j,
    {
        let lead = leads[order[j]];
        let (items, pos) = collect_label(labels, ids, labels[lead]);
        let ghost prev = out@;
        out.push(DuplicateGroup { items });
        proof {
            ls = ls.push(lead as int);
            assert forall|k: int, t: int|
                0 <= k < j + 1 && 0 <= t < out@[k].items@.len() implies ids@.contains(#[trigger] out@[k].items@[t]) by {
                if k == j {
                    let w = pos@[t];
                    assert(0 <= w < m && out@[k].items@[t] == ids@[w]);
                } else {
                    assert(out@[k] == prev[k]);
                    assert(out@[k].items@[t] == prev[k].items@[t]);
                }
            }
        }
        j = j + 1;
    }
    proof {
        assert forall|k1: int, k2: int|
            0 <= k1 < k2 < out.len() && out@[k1].items@.len() == out@[k2].items@.len() implies #[trigger] ls[k1]
                < #[trigger] ls[k2] by {
            assert(sizes@[order@[k1] as int] == sizes@[order@[k2] as int]);
            assert(order@[k1] < order@[k2]);
            assert(leads@[order@[k1] as int] < leads@[order@[k2] as int]);
        }
        assert forall|k1: int, k2: int|
            0 <= k1 < out.len() && 0 <= k2 < out.len() && k1 != k2 implies labels@[#[trigger] ls[k1]]
                != labels@[#[trigger] ls[k2]] by {
            assert(order@[k1] != order@[k2]);
            let a = order@[k1] as int;
            let b = order@[k2] as int;
            if a < b {
                assert(leads@[a] < leads@[b]);
                assert(first_of_label(labels@, leads@[b] as int));
            } else {
                assert(leads@[b] < leads@[a]);
                assert(first_of_label(labels@, leads@[a] as int));
            }
        }
        assert forall|p: int, q: int|
            0 <= p < m && 0 <= q < m && p != q && labels@[p] == labels@[q] implies #[trigger] led(
                labels@,
                ls,
                labels@[p],
            ) && #[trigger] labels@[q] == labels@[p] by {
            if p < q {
                lemma_label_count_two(labels@, p, q, m as int);
            } else {
                lemma_label_count_two(labels@, q, p, m as int);
            }
            lemma_first_exists(labels@, p);
            let f = choose|f: int|
                0 <= f <= p && labels@[f] == labels@[p] && #[trigger] first_of_label(labels@, f);
            let kk = choose|kk: int| 0 <= kk < leads.len() && #[trigger] leads@[kk] == f;
            assert(order@.contains(kk as usize));
            let jj = choose|jj: int| 0 <= jj < order.len() && order@[jj] == kk as usize;
            assert(ls[jj] == f);
            assert(labels@[ls[jj]] == labels@[p]);
        }
    }
    (out, Ghost(ls))
}

/// The parent directory of a path, if it has one.
pub uninterp spec fn parent_of(path: Seq<char>) -> Option<Seq<char>>;

/// Whether two paths are equal component by component.
pub uninterp spec fn same_path(a: Seq<char>, b: Seq<char>) -> bool;

/// Relies on std::path::Path::parent: the path without its final component.
#[verifier::external_body]
fn parent_dir(path: &str) -> (r: Option<String>)
    ensures
        match r {
            Some(d) => parent_of(path@) == Some(d@),
            None => parent_of(path@).is_none(),
        },
{
    std::path::Path::new(path).parent().map(|d| d.to_string_lossy().into_owned())
}

/// Relies on std::path::Path's equality, which compares paths by their components
/// and so does not depend on the order of its operands.
#[verifier::external_body]
fn paths_equal(a: &str, b: &str) -> (r: bool)
    ensures
        r == same_path(a@, b@),
        r == same_path(b@, a@),
{
    std::path::Path::new(a) == std::path::Path::new(b)
}

/// Both paths have a parent directory, and it is the same.
pub open spec fn same_dir(a: Seq<char>, b: Seq<char>) -> bool {
    match (parent_of(a), parent_of(b)) {
        (Some(x), Some(y)) => same_path(x, y),
        _ => false,
    }
}

/// Whether both paths have a parent directory and it is the same one; the order of
/// the two paths does not matter.
pub fn same_parent(a: &str, b: &str) -> (r: bool)
    ensures
        r == same_dir(a@, b@),
        r == same_dir(b@, a@),
{
    match (parent_dir(a), parent_dir(b)) {
        (Some(x), Some(y)) => paths_equal(x.as_str(), y.as_str()),
        _ => false,
    }
}

/// Positions `x < y` of `hashes` form an edge: the pair is not excluded and the
/// fingerprints are within `max_distance` of each other.
pub open spec fn near(
    paths: Seq<String>,
    hashes: Seq<(usize, FuzzyHash)>,
    max_distance: u32,
    skip_same_dir: bool,
    x: int,
    y: int,
) -> bool {
    &&& 0 <= x < y < hashes.len()
    &&& !(skip_same_dir && same_dir(paths[hashes[x].0 as int]@, paths[hashes[y].0 as int]@))
    &&& bit_distance(hashes[x].1.bits@, hashes[y].1.bits@) <= max_distance
}

/// The near-duplicate graph over positions of `hashes`.
pub open spec fn near_graph(
    paths: Seq<String>,
    hashes: Seq<(usize, FuzzyHash)>,
    max_distance: u32,
    skip_same_dir: bool,
) -> spec_fn(int, int) -> bool {
    |x: int, y: int| near(paths, hashes, max_distance, skip_same_dir, x, y)
}

/// The edges among pairs examined before pair `(p, q)`.
pub open spec fn near_before(
    paths: Seq<String>,
    hashes: Seq<(usize, FuzzyHash)>,
    max_distance: u32,
    skip_same_dir: bool,
    p: int,
    q: int,
) -> spec_fn(int, int) -> bool {
    |x: int, y: int|
        near(paths, hashes, max_distance, skip_same_dir, x, y) && (x < p || (x == p && y < q))
}

/// The item indices that carry a fingerprint.
pub open spec fn hashed_items(hashes: Seq<(usize, FuzzyHash)>) -> Seq<usize> {
    Seq::new(hashes.len(), |p: int| hashes[p].0)
}

/// Group `g` holds the item at position `p` of `hashes`.
pub open spec fn holds(g: DuplicateGroup, hashes: Seq<(usize, FuzzyHash)>, p: int) -> bool {
    g.items@.contains(hashes[p].0)
}

/// Some group holds the item at position `p`.
pub open spec fn covered(groups: Seq<DuplicateGroup>, hashes: Seq<(usize, FuzzyHash)>, p: int) -> bool {
    exists|k: int| 0 <= k < groups.len() && holds(#[trigger] groups[k], hashes, p)
}

/// `groups` are exactly the connected components of `adj` with two or more
/// members, as sets of item indices, largest first; of two groups of one size, the
/// one whose first fingerprint comes earlier comes first.
pub open spec fn is_grouping(
    groups: Seq<DuplicateGroup>,
    hashes: Seq<(usize, FuzzyHash)>,
    adj: spec_fn(int, int) -> bool,
) -> bool {
    let m = hashes.len() as int;
    &&& forall|k: int|
        0 <= k < groups.len() ==> (#[trigger] groups[k]).items@.len() >= 2
            && groups[k].items@.no_duplicates()
    &&& forall|k: int, t: int|
        0 <= k < groups.len() && 0 <= t < groups[k].items@.len() ==> hashed_items(hashes).contains(
            #[trigger] groups[k].items@[t],
        )
    &&& forall|k: int, p: int, q: int|
        0 <= k < groups.len() && 0 <= p < m && 0 <= q < m && #[trigger] holds(groups[k], hashes, p)
            && #[trigger] holds(groups[k], hashes, q) ==> connected(adj, p, q)
    &&& forall|k: int, p: int, q: int|
        0 <= k < groups.len() && 0 <= p < m && 0 <= q < m && #[trigger] holds(groups[k], hashes, p)
            && #[trigger] connected(adj, p, q) ==> holds(groups[k], hashes, q)
    &&& forall|p: int, q: int|
        0 <= p < m && 0 <= q < m && p != q && #[trigger] connected(adj, p, q) ==> covered(
            groups,
            hashes,
            p,
        )
    &&& forall|k1: int, k2: int, p: int|
        0 <= k1 < groups.len() && 0 <= k2 < groups.len() && k1 != k2 && 0 <= p < m ==> !(
        #[trigger] holds(groups[k1], hashes, p) && #[trigger] holds(groups[k2], hashes, p))
    &&& forall|k1: int, k2: int|
        0 <= k1 < k2 < groups.len() ==> (#[trigger] groups[k1]).items@.len() >= (
        #[trigger] groups[k2]).items@.len()
    &&& forall|k1: int, k2: int, q: int|
        0 <= k1 < k2 < groups.len() && groups[k1].items@.len() == groups[k2].items@.len() && 0 <= q
            < m && #[trigger] holds(groups[k2], hashes, q) ==> #[trigger] held_before(
            groups[k1],
            hashes,
            q,
        )
}

/// Group `g` holds an item at a position of `hashes` before `q`.
pub open spec fn held_before(g: DuplicateGroup, hashes: Seq<(usize, FuzzyHash)>, q: int) -> bool {
    exists|p: int| 0 <= p < q && #[trigger] holds(g, hashes, p)
}

/// Connectivity is the same under two graphs with the same edges.
proof fn lemma_same_edges(adj1: spec_fn(int, int) -> bool, adj2: spec_fn(int, int) -> bool)
    requires
        forall|x: int, y: int| #[trigger] adj1(x, y) <==> #[trigger] adj2(x, y),
    ensures
        forall|i: int, j: int| #[trigger] connected(adj1, i, j) <==> #[trigger] connected(adj2, i, j),
{
    assert forall|i: int, j: int| #[trigger] connected(adj1, i, j) <==> #[trigger] connected(adj2, i, j) by {
        if connected(adj1, i, j) {
            lemma_connected_mono(adj1, adj2, i, j);
        }
        if connected(adj2, i, j) {
            lemma_connected_mono(adj2, adj1, i, j);
        }
    }
}

/// Without edges a node is connected to itself alone.
proof fn lemma_no_edges(adj: spec_fn(int, int) -> bool, i: int, j: int)
    requires
        forall|x: int, y: int| !#[trigger] adj(x, y),
        connected(adj, i, j),
    ensures
        i == j,
{
    let w = choose|w: Seq<int>| #[trigger] is_walk(adj, w) && w[0] == i && w.last() == j;
    if w.len() > 1 {
        assert(step(adj, w, 0));
    }
}

/// Clusters the fingerprinted items: items whose fingerprints are within
/// `max_distance` are joined, unless `skip_same_dir` is set and both lie in the same
/// directory; the result holds every joined set of two or more items, largest first.
pub fn group_duplicates(
    item_paths: &Vec<String>,
    hashes: &Vec<(usize, FuzzyHash)>,
    max_distance: u32,
    skip_same_dir: bool,
) -> (r: Vec<DuplicateGroup>)
    requires
        forall|p: int| 0 <= p < hashes.len() ==> (#[trigger] hashes@[p]).0 < item_paths.len(),
        forall|p: int, q: int|
            0 <= p < hashes.len() && 0 <= q < hashes.len() && p != q ==> (#[trigger] hashes@[p]).0
                != (#[trigger] hashes@[q]).0,
    ensures
        is_grouping(r@, hashes@, near_graph(item_paths@, hashes@, max_distance, skip_same_dir)),
{
    let n = item_paths.len();
    let m = hashes.len();
    let ghost paths = item_paths@;
    let ghost hs = hashes@;
    let mut uf = UnionFind::new(n);
    proof {
        let adj0 = near_before(paths, hs, max_distance, skip_same_dir, 0, 1);
        assert forall|x: int, y: int| 0 <= x < m && 0 <= y < m implies (uf.root_of(
            #[trigger] hs[x].0 as int,
        ) == uf.root_of(#[trigger] hs[y].0 as int)) <==> connected(adj0, x, y) by {
            if connected(adj0, x, y) {
                lemma_no_edges(adj0, x, y);
            }
            if x == y {
                crate::graph::lemma_connected_refl(adj0, x);
            }
        }
    }
    let mut p: usize = 0;
    while p < m
        invariant
            n == item_paths.len(),
            m == hashes.len(),
            paths == item_paths@,
            hs == hashes@,
            p <= m,
            uf.wf(),
            uf.size() == n,
            forall|x: int| 0 <= x < hashes.len() ==> (#[trigger] hashes@[x]).0 < item_paths.len(),
            forall|x: int, y: int|
                0 <= x < hashes.len() && 0 <= y < hashes.len() && x != y ==> (
                #[trigger] hashes@[x]).0 != (#[trigger] hashes@[y]).0,
            forall|x: int, y: int|
                0 <= x < m && 0 <= y < m ==> ((uf.root_of(#[trigger] hs[x].0 as int) == uf.root_of(
                    #[trigger] hs[y].0 as int,
                )) <==> connected(
                    near_before(paths, hs, max_distance, skip_same_dir, p as int, p + 1),
                    x,
                    y,
                )),
        decreases m - p,
    {
        let mut q: usize = p + 1;
        while q < m
            invariant
                n == item_paths.len(),
                m == hashes.len(),
                paths == item_paths@,
                hs == hashes@,
                p < m,
                p + 1 <= q <= m,
                uf.wf(),
                uf.size() == n,
                forall|x: int| 0 <= x < hashes.len() ==> (#[trigger] hashes@[x]).0 < item_paths.len(),
                    forall|x: int, y: int|
                    0 <= x < m && 0 <= y < m ==> ((uf.root_of(#[trigger] hs[x].0 as int)
                        == uf.root_of(#[trigger] hs[y].0 as int)) <==> connected(
                        near_before(paths, hs, max_distance, skip_same_dir, p as int, q as int),
                        x,
                        y,
                    )),
            decreases m - q,
        {
            let ip = hashes[p].0;
            let iq = hashes[q].0;
            let excluded = skip_same_dir && same_parent(item_paths[ip].as_str(), item_paths[iq].as_str());
            let close = hashes[p].1.wide_distance(&hashes[q].1) <= max_distance as u64;
            let ghost adj1 = near_before(paths, hs, max_distance, skip_same_dir, p as int, q as int);
            let ghost adj2 = near_before(
                paths,
                hs,
                max_distance,
                skip_same_dir,
                p as int,
                q + 1,
            );
            assert((!excluded && close) == near(paths, hs, max_distance, skip_same_dir, p as int, q as int));
            if !excluded && close {
                let ghost before = uf;
                uf.union(ip, iq);
                proof {
                    assert forall|x: int, y: int| #[trigger] adj2(x, y) <==> (adj1(x, y) || (x == p
                        && y == q)) by {}
                    assert forall|x: int, y: int| 0 <= x < m && 0 <= y < m implies ((uf.root_of(
                        #[trigger] hs[x].0 as int,
                    ) == uf.root_of(#[trigger] hs[y].0 as int)) <==> connected(adj2, x, y)) by {
                        lemma_connected_add_edge(adj1, adj2, p as int, q as int, x, y);
                        assert((before.root_of(hs[y].0 as int) == before.root_of(hs[q as int].0 as int)) == connected(adj1, y, q as int));
                        assert((before.root_of(hs[q as int].0 as int) == before.root_of(hs[y].0 as int)) == connected(adj1, q as int, y));
                        assert((before.root_of(hs[y].0 as int) == before.root_of(hs[p as int].0 as int)) == connected(adj1, y, p as int));
                        assert((before.root_of(hs[p as int].0 as int) == before.root_of(hs[y].0 as int)) == connected(adj1, p as int, y));
                        assert((before.root_of(hs[x].0 as int) == before.root_of(hs[p as int].0 as int)) == connected(adj1, x, p as int));
                        assert((before.root_of(hs[x].0 as int) == before.root_of(hs[q as int].0 as int)) == connected(adj1, x, q as int));
                    }
                }
            } else {
                proof {
                    assert forall|x: int, y: int| #[trigger] adj1(x, y) <==> #[trigger] adj2(x, y) by {}
                    lemma_same_edges(adj1, adj2);
                }
            }
            q = q + 1;
        }
        proof {
            let adj1 = near_before(paths, hs, max_distance, skip_same_dir, p as int, m as int);
            let adj2 = near_before(paths, hs, max_distance, skip_same_dir, p + 1, p + 2);
            assert forall|x: int, y: int| #[trigger] adj1(x, y) <==> #[trigger] adj2(x, y) by {}
            lemma_same_edges(adj1, adj2);
        }
        p = p + 1;
    }
    proof {
        let adj1 = near_before(paths, hs, max_distance, skip_same_dir, m as int, m + 1);
        let adj2 = near_graph(paths, hs, max_distance, skip_same_dir);
        assert forall|x: int, y: int| #[trigger] adj1(x, y) <==> #[trigger] adj2(x, y) by {}
        lemma_same_edges(adj1, adj2);
    }
    let ghost adj = near_graph(paths, hs, max_distance, skip_same_dir);
    let mut labels: Vec<usize> = Vec::new();
    let mut ids: Vec<usize> = Vec::new();
    let mut x: usize = 0;
    while x < m
        invariant
            n == item_paths.len(),
            m == hashes.len(),
            hs == hashes@,
            x <= m,
            uf.wf(),
            uf.size() == n,
            labels.len() == x,
            ids.len() == x,
            forall|x: int| 0 <= x < hashes.len() ==> (#[trigger] hashes@[x]).0 < item_paths.len(),
            forall|k: int| 0 <= k < x ==> #[trigger] ids@[k] == hs[k].0,
            forall|k: int| 0 <= k < x ==> #[trigger] labels@[k] == uf.root_of(hs[k].0 as int),
            forall|a: int, b: int|
                0 <= a < m && 0 <= b < m ==> ((uf.root_of(#[trigger] hs[a].0 as int) == uf.root_of(
                    #[trigger] hs[b].0 as int,
                )) <==> connected(adj, a, b)),
        decreases m - x,
    {
        let ghost before = uf;
        let root = uf.find(hashes[x].0);
        proof {
            assert forall|i: int| #[trigger] uf.root_of(i) == before.root_of(i) by {}
        }
        labels.push(root);
        ids.push(hashes[x].0);
        x = x + 1;
    }
    proof {
        assert(ids@ =~= hashed_items(hs));
        assert forall|a: int, b: int| 0 <= a < m && 0 <= b < m && a != b implies #[trigger] ids@[a] != #[trigger] ids@[b] by {
            assert(hs[a].0 != hs[b].0);
        }
        assert forall|a: int, b: int| 0 <= a < m && 0 <= b < m implies ((#[trigger] labels@[a] == #[trigger] labels@[b]) <==> connected(adj, a, b)) by {
            assert(labels@[a] == uf.root_of(hs[a].0 as int));
            assert(labels@[b] == uf.root_of(hs[b].0 as int));
        }
    }
    let (groups, leads) = groups_from_labels(&labels, &ids);
    proof {
        let g = groups@;
        assert forall|k: int, q: int| 0 <= k < g.len() && 0 <= q < m implies #[trigger] holds(g[k], hs, q) == (labels@[q] == labels@[leads@[k]]) by {
            assert(ids@[q] == hs[q].0);
        }
        assert forall|k: int, a: int, b: int|
            0 <= k < g.len() && 0 <= a < m && 0 <= b < m && #[trigger] holds(g[k], hs, a)
                && #[trigger] holds(g[k], hs, b) implies connected(adj, a, b) by {
            assert(labels@[a] == labels@[b]);
        }
        assert forall|k: int, a: int, b: int|
            0 <= k < g.len() && 0 <= a < m && 0 <= b < m && #[trigger] holds(g[k], hs, a)
                && #[trigger] connected(adj, a, b) implies holds(g[k], hs, b) by {
            assert(labels@[a] == labels@[b]);
        }
        assert forall|a: int, b: int|
            0 <= a < m && 0 <= b < m && a != b && #[trigger] connected(adj, a, b) implies covered(g, hs, a) by {
            assert(labels@[a] == labels@[b]);
            assert(led(labels@, leads@, labels@[a]));
            let k = choose|k: int| 0 <= k < leads@.len() && labels@[#[trigger] leads@[k]] == labels@[a];
            assert(holds(g[k], hs, a));
        }
        assert forall|k1: int, k2: int, a: int|
            0 <= k1 < g.len() && 0 <= k2 < g.len() && k1 != k2 && 0 <= a < m implies !(
            #[trigger] holds(g[k1], hs, a) && #[trigger] holds(g[k2], hs, a)) by {
            assert(labels@[leads@[k1]] != labels@[leads@[k2]]);
        }
        assert forall|k1: int, k2: int, q: int|
            0 <= k1 < k2 < g.len() && g[k1].items@.len() == g[k2].items@.len() && 0 <= q < m
                && #[trigger] holds(g[k2], hs, q) implies #[trigger] held_before(g[k1], hs, q) by {
            let p = leads@[k1];
            assert(p < leads@[k2]);
            assert(labels@[q] == labels@[leads@[k2]]);
            assert(first_of_label(labels@, leads@[k2]));
            assert(leads@[k2] <= q);
            assert(holds(g[k1], hs, p));
        }
    }
    groups
}

/// The item indices of `hashes` are pairwise distinct.
pub open spec fn distinct_items(hashes: Seq<(usize, FuzzyHash)>) -> bool {
    forall|p: int, q: int|
        0 <= p < hashes.len() && 0 <= q < hashes.len() && p != q ==> (#[trigger] hashes[p]).0
            != (#[trigger] hashes[q]).0
}

/// Some group of `groups` has the same members as `g`.
pub open spec fn has_equal_group(groups: Seq<DuplicateGroup>, g: DuplicateGroup) -> bool {
    exists|k: int| 0 <= k < groups.len() && (#[trigger] groups[k]).items@.to_set() == g.items@.to_set()
}

/// Some group of `groups` has every member of `g`.
pub open spec fn has_enclosing_group(groups: Seq<DuplicateGroup>, g: DuplicateGroup) -> bool {
    exists|k: int|
        0 <= k < groups.len() && g.items@.to_set().subset_of((#[trigger] groups[k]).items@.to_set())
}

/// When connectivity under `adj1` implies it under `adj2`, group `k1` of a grouping
/// under `adj1` lies inside some group `k2` of a grouping under `adj2`.
proof fn lemma_group_inside(
    g1: Seq<DuplicateGroup>,
    g2: Seq<DuplicateGroup>,
    hashes: Seq<(usize, FuzzyHash)>,
    adj1: spec_fn(int, int) -> bool,
    adj2: spec_fn(int, int) -> bool,
    k1: int,
) -> (k2: int)
    requires
        is_grouping(g1, hashes, adj1),
        is_grouping(g2, hashes, adj2),
        forall|i: int, j: int| #[trigger] connected(adj1, i, j) ==> connected(adj2, i, j),
        0 <= k1 < g1.len(),
    ensures
        0 <= k2 < g2.len(),
        g1[k1].items@.to_set().subset_of(g2[k2].items@.to_set()),
{
    let items = g1[k1].items@;
    let m = hashes.len() as int;
    assert(hashed_items(hashes).contains(items[0]));
    assert(hashed_items(hashes).contains(items[1]));
    let a = choose|a: int| 0 <= a < m && hashed_items(hashes)[a] == items[0];
    let b = choose|b: int| 0 <= b < m && hashed_items(hashes)[b] == items[1];
    assert(items.contains(hashes[a].0));
    assert(items.contains(hashes[b].0));
    assert(holds(g1[k1], hashes, a) && holds(g1[k1], hashes, b));
    assert(connected(adj1, a, b));
    assert(connected(adj2, a, b));
    assert(a != b);
    assert(covered(g2, hashes, a));
    let k2 = choose|k2: int| 0 <= k2 < g2.len() && holds(#[trigger] g2[k2], hashes, a);
    assert forall|x: usize| g1[k1].items@.to_set().contains(x) implies g2[k2].items@.to_set().contains(x) by {
        assert(items.contains(x));
        let t = choose|t: int| 0 <= t < items.len() && items[t] == x;
        assert(hashed_items(hashes).contains(items[t]));
        let c = choose|c: int| 0 <= c < m && hashed_items(hashes)[c] == x;
        assert(holds(g1[k1], hashes, c));
        assert(connected(adj1, a, c));
        assert(connected(adj2, a, c));
        assert(holds(g2[k2], hashes, c));
    }
    k2
}

/// Clustering is determined by its inputs: any two results for the same
/// fingerprints, paths, threshold and exclusion policy have the same groups as sets.
pub proof fn lemma_grouping_determined(
    item_paths: Seq<String>,
    hashes: Seq<(usize, FuzzyHash)>,
    max_distance: u32,
    skip_same_dir: bool,
    g1: Seq<DuplicateGroup>,
    g2: Seq<DuplicateGroup>,
)
    requires
        distinct_items(hashes),
        is_grouping(g1, hashes, near_graph(item_paths, hashes, max_distance, skip_same_dir)),
        is_grouping(g2, hashes, near_graph(item_paths, hashes, max_distance, skip_same_dir)),
    ensures
        forall|k1: int| 0 <= k1 < g1.len() ==> #[trigger] has_equal_group(g2, g1[k1]),
{
    let adj = near_graph(item_paths, hashes, max_distance, skip_same_dir);
    assert forall|k1: int| 0 <= k1 < g1.len() implies #[trigger] has_equal_group(g2, g1[k1]) by {
        let k2 = lemma_group_inside(g1, g2, hashes, adj, adj, k1);
        let k1b = lemma_group_inside(g2, g1, hashes, adj, adj, k2);
        let s1 = g1[k1].items@.to_set();
        let s2 = g2[k2].items@.to_set();
        let items = g1[k1].items@;
        let m = hashes.len() as int;
        assert(hashed_items(hashes).contains(items[0]));
        let a = choose|a: int| 0 <= a < m && hashed_items(hashes)[a] == items[0];
        assert(items.contains(hashes[a].0));
        assert(s1.contains(hashes[a].0));
        assert(s2.contains(hashes[a].0));
        assert(g1[k1b].items@.to_set().contains(hashes[a].0));
        assert(g1[k1b].items@.contains(hashes[a].0));
        if k1b != k1 {
            assert(holds(g1[k1], hashes, a) && holds(g1[k1b], hashes, a));
        }
        assert(s1 =~= s2);
        assert(g2[k2].items@.to_set() == g1[k1].items@.to_set());
    }
}

/// Raising the threshold keeps every edge, so each group found at the lower
/// threshold lies inside a group found at the higher one.
pub proof fn lemma_threshold_monotone(
    item_paths: Seq<String>,
    hashes: Seq<(usize, FuzzyHash)>,
    low: u32,
    high: u32,
    skip_same_dir: bool,
    g_low: Seq<DuplicateGroup>,
    g_high: Seq<DuplicateGroup>,
)
    requires
        low <= high,
        distinct_items(hashes),
        is_grouping(g_low, hashes, near_graph(item_paths, hashes, low, skip_same_dir)),
        is_grouping(g_high, hashes, near_graph(item_paths, hashes, high, skip_same_dir)),
    ensures
        forall|x: int, y: int|
            #[trigger] near(item_paths, hashes, low, skip_same_dir, x, y) ==> near(
                item_paths,
                hashes,
                high,
                skip_same_dir,
                x,
                y,
            ),
        forall|k1: int| 0 <= k1 < g_low.len() ==> #[trigger] has_enclosing_group(g_high, g_low[k1]),
{
    let adj1 = near_graph(item_paths, hashes, low, skip_same_dir);
    let adj2 = near_graph(item_paths, hashes, high, skip_same_dir);
    assert forall|x: int, y: int| #[trigger] adj1(x, y) implies adj2(x, y) by {}
    assert forall|i: int, j: int| #[trigger] connected(adj1, i, j) implies connected(adj2, i, j) by {
        lemma_connected_mono(adj1, adj2, i, j);
    }
    assert forall|k1: int| 0 <= k1 < g_low.len() implies #[trigger] has_enclosing_group(g_high, g_low[k1]) by {
        let k2 = lemma_group_inside(g_low, g_high, hashes, adj1, adj2, k1);
        assert(g_low[k1].items@.to_set().subset_of(g_high[k2].items@.to_set()));
    }
}

} // verus!
