use vstd::prelude::*;

verus! {

/// `w[k]` and `w[k + 1]` are adjacent, in either direction.
pub open spec fn step<A>(adj: spec_fn(A, A) -> bool, w: Seq<A>, k: int) -> bool {
    adj(w[k], w[k + 1]) || adj(w[k + 1], w[k])
}

/// A non-empty sequence of nodes, each adjacent to the next.
pub open spec fn is_walk<A>(adj: spec_fn(A, A) -> bool, w: Seq<A>) -> bool {
    &&& w.len() >= 1
    &&& forall|k: int| 0 <= k < w.len() - 1 ==> #[trigger] step(adj, w, k)
}

/// Some walk leads from `i` to `j` over the (undirected) edges of `adj`.
pub open spec fn connected<A>(adj: spec_fn(A, A) -> bool, i: A, j: A) -> bool {
    exists|w: Seq<A>| #[trigger] is_walk(adj, w) && w[0] == i && w.last() == j
}

pub proof fn lemma_connected_refl<A>(adj: spec_fn(A, A) -> bool, i: A)
    ensures
        connected(adj, i, i),
{
    let w = seq![i];
    assert(is_walk(adj, w));
}

pub proof fn lemma_connected_edge<A>(adj: spec_fn(A, A) -> bool, i: A, j: A)
    requires
        adj(i, j) || adj(j, i),
    ensures
        connected(adj, i, j),
{
    let w = seq![i, j];
    assert(step(adj, w, 0));
    assert(is_walk(adj, w));
}

pub proof fn lemma_connected_sym<A>(adj: spec_fn(A, A) -> bool, i: A, j: A)
    requires
        connected(adj, i, j),
    ensures
        connected(adj, j, i),
{
    let w = choose|w: Seq<A>| #[trigger] is_walk(adj, w) && w[0] == i && w.last() == j;
    let n = w.len();
    let v = Seq::new(n, |k: int| w[n - 1 - k]);
    assert forall|k: int| 0 <= k < v.len() - 1 implies #[trigger] step(adj, v, k) by {
        assert(step(adj, w, n - 2 - k));
    }
    assert(is_walk(adj, v));
}

pub proof fn lemma_connected_trans<A>(adj: spec_fn(A, A) -> bool, i: A, j: A, k: A)
    requires
        connected(adj, i, j),
        connected(adj, j, k),
    ensures
        connected(adj, i, k),
{
    let w1 = choose|w: Seq<A>| #[trigger] is_walk(adj, w) && w[0] == i && w.last() == j;
    let w2 = choose|w: Seq<A>| #[trigger] is_walk(adj, w) && w[0] == j && w.last() == k;
    let v = w1 + w2.subrange(1, w2.len() as int);
    let n1 = w1.len() as int;
    assert forall|t: int| 0 <= t < v.len() - 1 implies #[trigger] step(adj, v, t) by {
        if t < n1 - 1 {
            assert(step(adj, w1, t));
        } else {
            assert(step(adj, w2, t - n1 + 1));
        }
    }
    assert(is_walk(adj, v));
}

/// Connectivity only grows when edges are added.
pub proof fn lemma_connected_mono<A>(
    adj1: spec_fn(A, A) -> bool,
    adj2: spec_fn(A, A) -> bool,
    i: A,
    j: A,
)
    requires
        forall|x: A, y: A| #[trigger] adj1(x, y) ==> adj2(x, y),
        connected(adj1, i, j),
    ensures
        connected(adj2, i, j),
{
    let w = choose|w: Seq<A>| #[trigger] is_walk(adj1, w) && w[0] == i && w.last() == j;
    assert forall|k: int| 0 <= k < w.len() - 1 implies #[trigger] step(adj2, w, k) by {
        assert(step(adj1, w, k));
    }
    assert(is_walk(adj2, w));
}

proof fn lemma_walk_with_edge<A>(
    adj1: spec_fn(A, A) -> bool,
    adj2: spec_fn(A, A) -> bool,
    a: A,
    b: A,
    w: Seq<A>,
)
    requires
        forall|x: A, y: A| #[trigger] adj2(x, y) <==> (adj1(x, y) || (x == a && y == b)),
        is_walk(adj2, w),
    ensures
        ({
            let i = w[0];
            let j = w.last();
            connected(adj1, i, j) || (connected(adj1, i, a) && connected(adj1, b, j)) || (
            connected(adj1, i, b) && connected(adj1, a, j))
        }),
    decreases w.len(),
{
    let i = w[0];
    let j = w.last();
    if w.len() == 1 {
        lemma_connected_refl(adj1, i);
    } else {
        let rest = w.subrange(1, w.len() as int);
        assert forall|k: int| 0 <= k < rest.len() - 1 implies #[trigger] step(adj2, rest, k) by {
            assert(step(adj2, w, k + 1));
        }
        lemma_walk_with_edge(adj1, adj2, a, b, rest);
        let m = w[1];
        assert(rest[0] == m);
        assert(rest.last() == j);
        assert(step(adj2, w, 0));
        if adj1(i, m) || adj1(m, i) {
            lemma_connected_edge(adj1, i, m);
            if connected(adj1, m, j) {
                lemma_connected_trans(adj1, i, m, j);
            } else if connected(adj1, m, a) && connected(adj1, b, j) {
                lemma_connected_trans(adj1, i, m, a);
            } else {
                lemma_connected_trans(adj1, i, m, b);
            }
        } else if i == a && m == b {
            lemma_connected_refl(adj1, a);
            if connected(adj1, m, j) {
            } else if connected(adj1, m, a) && connected(adj1, b, j) {
                lemma_connected_sym(adj1, b, a);
                lemma_connected_trans(adj1, a, b, j);
            } else {
            }
        } else {
            assert(i == b && m == a);
            lemma_connected_refl(adj1, b);
            if connected(adj1, m, j) {
            } else if connected(adj1, m, a) && connected(adj1, b, j) {
            } else {
                lemma_connected_sym(adj1, a, b);
                lemma_connected_trans(adj1, b, a, j);
            }
        }
    }
}

/// Adding the edge `(a, b)` connects exactly what was connected before, plus what
/// was connected to `a` with what was connected to `b`.
pub proof fn lemma_connected_add_edge<A>(
    adj1: spec_fn(A, A) -> bool,
    adj2: spec_fn(A, A) -> bool,
    a: A,
    b: A,
    i: A,
    j: A,
)
    requires
        forall|x: A, y: A| #[trigger] adj2(x, y) <==> (adj1(x, y) || (x == a && y == b)),
    ensures
        connected(adj2, i, j) <==> (connected(adj1, i, j) || (connected(adj1, i, a) && connected(
            adj1,
            b,
            j,
        )) || (connected(adj1, i, b) && connected(adj1, a, j))),
{
    if connected(adj2, i, j) {
        let w = choose|w: Seq<A>| #[trigger] is_walk(adj2, w) && w[0] == i && w.last() == j;
        lemma_walk_with_edge(adj1, adj2, a, b, w);
    }
    assert forall|x: A, y: A| #[trigger] adj1(x, y) implies adj2(x, y) by {}
    if connected(adj1, i, j) {
        lemma_connected_mono(adj1, adj2, i, j);
    } else if connected(adj1, i, a) && connected(adj1, b, j) {
        lemma_connected_mono(adj1, adj2, i, a);
        lemma_connected_mono(adj1, adj2, b, j);
        lemma_connected_edge(adj2, a, b);
        lemma_connected_trans(adj2, i, a, b);
        lemma_connected_trans(adj2, i, b, j);
    } else if connected(adj1, i, b) && connected(adj1, a, j) {
        lemma_connected_mono(adj1, adj2, i, b);
        lemma_connected_mono(adj1, adj2, a, j);
        lemma_connected_edge(adj2, b, a);
        lemma_connected_trans(adj2, i, b, a);
        lemma_connected_trans(adj2, i, a, j);
    }
}

/// A node connected to a different node has an edge.
pub proof fn lemma_connected_has_edge<A>(adj: spec_fn(A, A) -> bool, i: A, j: A)
    requires
        connected(adj, i, j),
        i != j,
    ensures
        exists|c: A| #![trigger adj(c, j)] #![trigger adj(j, c)] adj(c, j) || adj(j, c),
{
    let w = choose|w: Seq<A>| #[trigger] is_walk(adj, w) && w[0] == i && w.last() == j;
    assert(w.len() >= 2);
    assert(step(adj, w, w.len() - 2));
    let c = w[w.len() - 2];
    assert(adj(c, j) || adj(j, c));
}

} // verus!
