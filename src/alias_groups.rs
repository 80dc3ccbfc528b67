use vstd::prelude::*;

use crate::alias::{clone_terms, normalize_search_terms, normalized_all, push_new, views, AliasMap};
use crate::cluster::{
    collect_label, first_of_label, label_count, label_leaders, lemma_first_exists,
    lemma_label_count_two,
};
use crate::graph::{connected, lemma_connected_add_edge, lemma_connected_has_edge, lemma_connected_refl, lemma_connected_sym, is_walk, step};
use crate::text::{sort_strings, str_lt};
use crate::union_find::UnionFind;

verus! {

/// The character sequences of a list of groups.
pub open spec fn group_views(gs: Seq<Vec<String>>) -> Seq<Seq<Seq<char>>> {
    gs.map_values(|g: Vec<String>| views(g@))
}

/// A group after normalization, if two or more terms remain; otherwise empty.
pub open spec fn live(g: Seq<Seq<char>>) -> Seq<Seq<char>> {
    if normalized_all(g).len() >= 2 {
        normalized_all(g)
    } else {
        Seq::empty()
    }
}

/// The edges a normalized group contributes: from its first term to each other term.
pub open spec fn star(ns: Seq<Seq<char>>) -> Seq<(Seq<char>, Seq<char>)> {
    if ns.len() >= 2 {
        Seq::new((ns.len() - 1) as nat, |t: int| (ns[0], ns[t + 1]))
    } else {
        Seq::empty()
    }
}

/// The edges of all groups, in order.
pub open spec fn star_edges(gs: Seq<Seq<Seq<char>>>) -> Seq<(Seq<char>, Seq<char>)>
    decreases gs.len(),
{
    if gs.len() == 0 {
        Seq::empty()
    } else {
        star_edges(gs.drop_last()) + star(live(gs.last()))
    }
}

/// The alias graph of a list of groups: each term is linked to the first term of
/// every group it appears in after normalization.
pub open spec fn alias_graph(gs: Seq<Seq<Seq<char>>>) -> spec_fn(Seq<char>, Seq<char>) -> bool {
    |a: Seq<char>, b: Seq<char>| star_edges(gs).contains((a, b))
}

/// The graph of the first `k` edges.
pub open spec fn first_edges(edges: Seq<(Seq<char>, Seq<char>)>, k: int) -> spec_fn(
    Seq<char>,
    Seq<char>,
) -> bool {
    |a: Seq<char>, b: Seq<char>| edges.subrange(0, k).contains((a, b))
}

/// Some block holds `a`.
pub open spec fn in_some_block(blocks: Seq<Seq<Seq<char>>>, a: Seq<char>) -> bool {
    exists|k: int| 0 <= k < blocks.len() && (#[trigger] blocks[k]).contains(a)
}

/// `blocks` are the connected components of the alias graph of `gs` that have two or
/// more terms, each in ascending order, ordered by their first term.
pub open spec fn is_alias_partition(blocks: Seq<Seq<Seq<char>>>, gs: Seq<Seq<Seq<char>>>) -> bool {
    let adj = alias_graph(gs);
    &&& forall|k: int|
        0 <= k < blocks.len() ==> (#[trigger] blocks[k]).len() >= 2 && blocks[k].no_duplicates()
    &&& forall|k: int, i: int, j: int|
        0 <= k < blocks.len() && 0 <= i < j < blocks[k].len() ==> !str_lt(
            #[trigger] blocks[k][j],
            #[trigger] blocks[k][i],
        )
    &&& forall|k1: int, k2: int|
        0 <= k1 < k2 < blocks.len() ==> !str_lt((#[trigger] blocks[k2])[0], (#[trigger] blocks[k1])[0])
    &&& forall|k: int, a: Seq<char>, b: Seq<char>|
        0 <= k < blocks.len() && (#[trigger] blocks[k]).contains(a) && blocks[k].contains(b)
            ==> #[trigger] connected(adj, a, b)
    &&& forall|k: int, a: Seq<char>, b: Seq<char>|
        0 <= k < blocks.len() && (#[trigger] blocks[k]).contains(a) && #[trigger] connected(adj, a, b)
            ==> blocks[k].contains(b)
    &&& forall|a: Seq<char>, b: Seq<char>|
        a != b && #[trigger] connected(adj, a, b) ==> in_some_block(blocks, a)
    &&& forall|k1: int, k2: int, a: Seq<char>|
        0 <= k1 < blocks.len() && 0 <= k2 < blocks.len() && k1 != k2 ==> !(
        #[trigger] blocks[k1].contains(a) && #[trigger] blocks[k2].contains(a))
}

/// Some position of `vs` holds `a` and is labelled `v`.
pub open spec fn carries(vs: Seq<Seq<char>>, labels: Seq<usize>, v: usize, a: Seq<char>) -> bool {
    exists|i: int| 0 <= i < vs.len() && #[trigger] vs[i] == a && labels[i] == v
}

/// The position of `x` in `v`.
fn index_of(v: &Vec<String>, x: &String) -> (r: usize)
    requires
        views(v@).contains(x@),
    ensures
        r < v.len(),
        v@[r as int]@ == x@,
{
    let mut i: usize = 0;
    while i < v.len()
        invariant
            i <= v.len(),
            views(v@).contains(x@),
            forall|k: int| 0 <= k < i ==> v@[k]@ != x@,
        decreases v.len() - i,
    {
        if v[i].eq(x) {
            return i;
        }
        i = i + 1;
    }
    proof {
        let k = choose|k: int| 0 <= k < views(v@).len() && views(v@)[k] == x@;
        assert(v@[k]@ == x@);
    }
    0
}

proof fn lemma_no_edges_str(adj: spec_fn(Seq<char>, Seq<char>) -> bool, i: Seq<char>, j: Seq<char>)
    requires
        forall|x: Seq<char>, y: Seq<char>| !#[trigger] adj(x, y),
        connected(adj, i, j),
    ensures
        i == j,
{
    let w = choose|w: Seq<Seq<char>>| #[trigger] is_walk(adj, w) && w[0] == i && w.last() == j;
    if w.len() > 1 {
        assert(step(adj, w, 0));
    }
}

/// Merges groups that share a term, after normalizing each and dropping those with
/// fewer than two terms; each result is sorted, and the results are ordered by
/// their first term.
pub fn normalize_alias_groups(groups: Vec<Vec<String>>) -> (r: Vec<Vec<String>>)
    ensures
        is_alias_partition(group_views(r@), group_views(groups@)),
{
    let ghost gs = group_views(groups@);
    let mut vocab: Vec<String> = Vec::new();
    let mut pairs: Vec<(String, String)> = Vec::new();
    let mut g: usize = 0;
    while g < groups.len()
        invariant
            gs == group_views(groups@),
            g <= groups.len(),
            views(vocab@).no_duplicates(),
            pairs@.map_values(|p: (String, String)| (p.0@, p.1@)) == star_edges(gs.subrange(0, g as int)),
            forall|e: int|
                0 <= e < pairs.len() ==> views(vocab@).contains((#[trigger] pairs@[e]).0@)
                    && views(vocab@).contains(pairs@[e].1@),
        decreases groups.len() - g,
    {
        let terms = normalize_search_terms(clone_terms(&groups[g]));
        let ghost sub = gs.subrange(0, g + 1);
        proof {
            assert(sub.drop_last() =~= gs.subrange(0, g as int));
            assert(sub.last() == views(groups@[g as int]@));
            assert(views(terms@) == normalized_all(sub.last()));
        }
        if terms.len() >= 2 {
            let ghost before = pairs@.map_values(|p: (String, String)| (p.0@, p.1@));
            let ghost ns = views(terms@);
            let mut t: usize = 0;
            while t < terms.len()
                invariant
                    ns == views(terms@),
                    ns.len() >= 2,
                    t <= terms.len(),
                    views(vocab@).no_duplicates(),
                    forall|u: int| 0 <= u < t ==> views(vocab@).contains(#[trigger] ns[u]),
                    forall|e: int|
                        0 <= e < pairs.len() ==> views(vocab@).contains((#[trigger] pairs@[e]).0@)
                            && views(vocab@).contains(pairs@[e].1@),
                decreases terms.len() - t,
            {
                let ghost prev = views(vocab@);
                let added = push_new(&mut vocab, &terms[t]);
                proof {
                    let now = views(vocab@);
                    assert(views(terms@)[t as int] == terms@[t as int]@);
                    if added {
                        crate::alias::lemma_push_no_dup(prev, terms@[t as int]@);
                        assert forall|x: Seq<char>| prev.contains(x) implies now.contains(x) by {
                            let k = choose|k: int| 0 <= k < prev.len() && prev[k] == x;
                            assert(now[k] == x);
                        }
                        assert(now[prev.len() as int] == ns[t as int]);
                    }
                }
                t = t + 1;
            }
            let mut t: usize = 1;
            while t < terms.len()
                invariant
                    ns == views(terms@),
                    ns.len() >= 2,
                    1 <= t <= terms.len(),
                    forall|u: int| 0 <= u < ns.len() ==> views(vocab@).contains(#[trigger] ns[u]),
                    pairs@.map_values(|p: (String, String)| (p.0@, p.1@)) == before + star(ns).subrange(
                        0,
                        t - 1,
                    ),
                    forall|e: int|
                        0 <= e < pairs.len() ==> views(vocab@).contains((#[trigger] pairs@[e]).0@)
                            && views(vocab@).contains(pairs@[e].1@),
                decreases terms.len() - t,
            {
                let ghost prev = pairs@;
                pairs.push((terms[0].clone(), terms[t].clone()));
                proof {
                    let f = |p: (String, String)| (p.0@, p.1@);
                    assert(pairs@ == prev.push((terms@[0], terms@[t as int])));
                    assert(pairs@.map_values(f) =~= prev.map_values(f).push((ns[0], ns[t as int])));
                    assert(star(ns)[t - 1] == (ns[0], ns[t as int]));
                    assert(star(ns).subrange(0, t as int) =~= star(ns).subrange(0, t - 1).push(star(ns)[t - 1]));
                    assert(views(terms@)[0] == terms@[0]@);
                    assert(views(terms@)[t as int] == terms@[t as int]@);
                    assert(pairs@.map_values(|p: (String, String)| (p.0@, p.1@)) =~= before + star(ns).subrange(0, t as int));
                    assert(views(vocab@).contains(ns[0]));
                    assert(views(vocab@).contains(ns[t as int]));
                }
                t = t + 1;
            }
            proof {
                assert(star(ns).subrange(0, (terms.len() - 1) as int) =~= star(ns));
                assert(live(sub.last()) == ns);
            }
        } else {
            proof {
                assert(live(sub.last()) =~= Seq::<Seq<char>>::empty());
                assert(star(live(sub.last())) =~= Seq::<(Seq<char>, Seq<char>)>::empty());
            }
        }
        proof {
            assert(star_edges(sub) == star_edges(sub.drop_last()) + star(live(sub.last())));
            assert(pairs@.map_values(|p: (String, String)| (p.0@, p.1@)) =~= star_edges(sub));
        }
        g = g + 1;
    }
    proof {
        assert(gs.subrange(0, groups.len() as int) =~= gs);
    }
    let ghost edges = star_edges(gs);
    let ghost unsorted = views(vocab@);
    sort_strings(&mut vocab);
    proof {
        unsorted.lemma_multiset_has_no_duplicates();
        unsorted.to_multiset_ensures();
        views(vocab@).to_multiset_ensures();
        views(vocab@).lemma_multiset_has_no_duplicates_conv();
        assert forall|e: int| 0 <= e < pairs.len() implies views(vocab@).contains((#[trigger] pairs@[e]).0@)
            && views(vocab@).contains(pairs@[e].1@) by {
            assert(unsorted.contains(pairs@[e].0@));
            assert(unsorted.contains(pairs@[e].1@));
            assert(unsorted.to_multiset().count(pairs@[e].0@) > 0);
            assert(unsorted.to_multiset().count(pairs@[e].1@) > 0);
        }
    }
    let n = vocab.len();
    let mut uf = UnionFind::new(n);
    proof {
        let adj0 = first_edges(edges, 0);
        assert forall|x: int, y: int| 0 <= x < n && 0 <= y < n implies (uf.root_of(x) == uf.root_of(y))
            <==> connected(adj0, #[trigger] vocab@[x]@, #[trigger] vocab@[y]@) by {
            if connected(adj0, vocab@[x]@, vocab@[y]@) {
                lemma_no_edges_str(adj0, vocab@[x]@, vocab@[y]@);
                assert(views(vocab@)[x] == views(vocab@)[y]);
            }
            if x == y {
                lemma_connected_refl(adj0, vocab@[x]@);
            }
        }
    }
    let mut k: usize = 0;
    while k < pairs.len()
        invariant
            n == vocab.len(),
            uf.wf(),
            uf.size() == n,
            k <= pairs.len(),
            pairs@.map_values(|p: (String, String)| (p.0@, p.1@)) == edges,
            views(vocab@).no_duplicates(),
            forall|e: int|
                0 <= e < pairs.len() ==> views(vocab@).contains((#[trigger] pairs@[e]).0@)
                    && views(vocab@).contains(pairs@[e].1@),
            forall|x: int, y: int|
                0 <= x < n && 0 <= y < n ==> ((uf.root_of(x) == uf.root_of(y)) <==> connected(
                    first_edges(edges, k as int),
                    #[trigger] vocab@[x]@,
                    #[trigger] vocab@[y]@,
                )),
        decreases pairs.len() - k,
    {
        let a = index_of(&vocab, &pairs[k].0);
        let b = index_of(&vocab, &pairs[k].1);
        let ghost before = uf;
        uf.union(a, b);
        proof {
            let adj1 = first_edges(edges, k as int);
            let adj2 = first_edges(edges, k + 1);
            let ea = vocab@[a as int]@;
            let eb = vocab@[b as int]@;
            assert(edges[k as int] == (ea, eb));
            assert forall|x: Seq<char>, y: Seq<char>| #[trigger] adj2(x, y) <==> (adj1(x, y) || (x == ea
                && y == eb)) by {
                assert(edges.subrange(0, k + 1) =~= edges.subrange(0, k as int).push(edges[k as int]));
                if adj2(x, y) {
                    let j = choose|j: int| 0 <= j < k + 1 && #[trigger] edges.subrange(0, k + 1)[j] == (x, y);
                    if j < k {
                        assert(edges.subrange(0, k as int)[j] == (x, y));
                    }
                }
                if adj1(x, y) {
                    let j = choose|j: int| 0 <= j < k && #[trigger] edges.subrange(0, k as int)[j] == (x, y);
                    assert(edges.subrange(0, k + 1)[j] == (x, y));
                }
                if x == ea && y == eb {
                    assert(edges.subrange(0, k + 1)[k as int] == (x, y));
                }
            }
            assert forall|x: int, y: int| 0 <= x < n && 0 <= y < n implies ((uf.root_of(x)
                == uf.root_of(y)) <==> connected(adj2, #[trigger] vocab@[x]@, #[trigger] vocab@[y]@)) by {
                lemma_connected_add_edge(adj1, adj2, ea, eb, vocab@[x]@, vocab@[y]@);
                assert((before.root_of(y) == before.root_of(b as int)) == connected(adj1, vocab@[y]@, eb));
                assert((before.root_of(b as int) == before.root_of(y)) == connected(adj1, eb, vocab@[y]@));
                assert((before.root_of(y) == before.root_of(a as int)) == connected(adj1, vocab@[y]@, ea));
                assert((before.root_of(a as int) == before.root_of(y)) == connected(adj1, ea, vocab@[y]@));
                assert((before.root_of(x) == before.root_of(a as int)) == connected(adj1, vocab@[x]@, ea));
                assert((before.root_of(x) == before.root_of(b as int)) == connected(adj1, vocab@[x]@, eb));
            }
        }
        k = k + 1;
    }
    let ghost adj = alias_graph(gs);
    proof {
        let adj1 = first_edges(edges, pairs.len() as int);
        assert(edges.subrange(0, pairs.len() as int) =~= edges);
        assert forall|x: Seq<char>, y: Seq<char>| #[trigger] adj1(x, y) <==> #[trigger] adj(x, y) by {}
        assert forall|x: int, y: int| 0 <= x < n && 0 <= y < n implies ((uf.root_of(x) == uf.root_of(y))
            <==> connected(adj, #[trigger] vocab@[x]@, #[trigger] vocab@[y]@)) by {
            if connected(adj1, vocab@[x]@, vocab@[y]@) {
                crate::graph::lemma_connected_mono(adj1, adj, vocab@[x]@, vocab@[y]@);
            }
            if connected(adj, vocab@[x]@, vocab@[y]@) {
                crate::graph::lemma_connected_mono(adj, adj1, vocab@[x]@, vocab@[y]@);
            }
        }
    }
    let mut labels: Vec<usize> = Vec::new();
    let mut ids: Vec<usize> = Vec::new();
    let mut x: usize = 0;
    while x < n
        invariant
            n == vocab.len(),
            uf.wf(),
            uf.size() == n,
            x <= n,
            labels.len() == x,
            ids.len() == x,
            forall|i: int| 0 <= i < x ==> #[trigger] ids@[i] == i,
            forall|i: int| 0 <= i < x ==> #[trigger] labels@[i] == uf.root_of(i),
            forall|a: int, b: int|
                0 <= a < n && 0 <= b < n ==> ((uf.root_of(a) == uf.root_of(b)) <==> connected(
                    adj,
                    #[trigger] vocab@[a]@,
                    #[trigger] vocab@[b]@,
                )),
        decreases n - x,
    {
        let ghost before = uf;
        let root = uf.find(x);
        proof {
            assert forall|i: int| #[trigger] uf.root_of(i) == before.root_of(i) by {}
        }
        labels.push(root);
        ids.push(x);
        x = x + 1;
    }
    proof {
        assert forall|a: int, b: int| 0 <= a < n && 0 <= b < n && a != b implies #[trigger] ids@[a]
            != #[trigger] ids@[b] by {}
        assert forall|a: int, b: int| 0 <= a < n && 0 <= b < n implies ((#[trigger] labels@[a]
            == #[trigger] labels@[b]) <==> connected(adj, vocab@[a]@, vocab@[b]@)) by {
            assert(labels@[a] == uf.root_of(a));
            assert(labels@[b] == uf.root_of(b));
        }
    }
    let (leads, sizes) = label_leaders(&labels);
    let mut out: Vec<Vec<String>> = Vec::new();
    let ghost mut lead_of: Seq<int> = Seq::empty();
    let mut j: usize = 0;
    while j < leads.len()
        invariant
            n == vocab.len(),
            n == labels.len(),
            n == ids.len(),
            forall|i: int| 0 <= i < n ==> #[trigger] ids@[i] == i,
            ids@.no_duplicates(),
            j <= leads.len(),
            out.len() == j,
            lead_of.len() == j,
            forall|q: int| 0 <= q < j ==> #[trigger] lead_of[q] == leads@[q] as int,
            forall|q: int| 0 <= q < leads.len() ==> #[trigger] leads@[q] < n,
            leads.len() == sizes.len(),
            forall|q: int|
                0 <= q < leads.len() ==> first_of_label(labels@, #[trigger] leads@[q] as int),
            forall|q: int|
                0 <= q < sizes.len() ==> #[trigger] sizes@[q] == label_count(
                    labels@,
                    labels@[leads@[q] as int],
                    n as int,
                ) && 2 <= sizes@[q],
            views(vocab@).no_duplicates(),
            forall|i: int, i2: int|
                0 <= i < i2 < n ==> !str_lt(#[trigger] vocab@[i2]@, #[trigger] vocab@[i]@),
            forall|q1: int, q2: int|
                0 <= q1 < q2 < leads.len() ==> #[trigger] leads@[q1] < #[trigger] leads@[q2],
            forall|p: int|
                0 <= p < n && #[trigger] first_of_label(labels@, p) && label_count(
                    labels@,
                    labels@[p],
                    n as int,
                ) >= 2 ==> exists|q: int| 0 <= q < leads.len() && #[trigger] leads@[q] == p,
            forall|a: int, b: int|
                0 <= a < n && 0 <= b < n ==> ((#[trigger] labels@[a] == #[trigger] labels@[b])
                    <==> connected(adj, vocab@[a]@, vocab@[b]@)),
            adj == alias_graph(gs),
            pairs@.map_values(|p: (String, String)| (p.0@, p.1@)) == star_edges(gs),
            forall|e: int|
                0 <= e < pairs.len() ==> views(vocab@).contains((#[trigger] pairs@[e]).0@)
                    && views(vocab@).contains(pairs@[e].1@),
            forall|q: int| 0 <= q < j ==> views((#[trigger] out@[q])@).len() >= 2,
            forall|q: int| 0 <= q < j ==> views((#[trigger] out@[q])@).no_duplicates(),
            forall|q: int, i: int, i2: int|
                0 <= q < j && 0 <= i < i2 < out@[q].len() ==> !str_lt(
                    #[trigger] out@[q]@[i2]@,
                    #[trigger] out@[q]@[i]@,
                ),
            forall|q: int| 0 <= q < j ==> (#[trigger] out@[q])@[0]@ == vocab@[lead_of[q]]@,
            forall|q: int, a: Seq<char>|
                0 <= q < j ==> (#[trigger] views(out@[q]@).contains(a) <==> carries(
                    views(vocab@),
                    labels@,
                    labels@[lead_of[q]],
                    a,
                )),
        decreases leads.len() - j,
    {
        let lead = leads[j];
        let (positions, pos) = collect_label(&labels, &ids, labels[lead]);
        let mut block: Vec<String> = Vec::new();
        let mut t: usize = 0;
        while t < positions.len()
            invariant
                t <= positions.len(),
                block.len() == t,
                forall|u: int| 0 <= u < positions.len() ==> #[trigger] positions@[u] < vocab.len(),
                forall|u: int| 0 <= u < t ==> (#[trigger] block@[u])@ == vocab@[positions@[u] as int]@,
            decreases positions.len() - t,
        {
            block.push(vocab[positions[t]].clone());
            t = t + 1;
        }
        proof {
            let v = labels@[lead as int];
            let bv = views(block@);
            assert forall|u: int| 0 <= u < positions.len() implies #[trigger] positions@[u] == pos@[u]
                && labels@[pos@[u]] == v by {
                assert(positions@[u] == ids@[pos@[u]]);
            }
            assert forall|u: int| 0 <= u < bv.len() implies #[trigger] bv[u] == vocab@[pos@[u]]@ by {
                assert(bv[u] == block@[u]@);
            }
            assert(bv.len() == label_count(labels@, v, n as int));
            assert(label_count(labels@, v, n as int) >= 2) by {
                assert(sizes@[j as int] == label_count(labels@, labels@[leads@[j as int] as int], n as int));
            }
            assert forall|u1: int, u2: int| 0 <= u1 < bv.len() && 0 <= u2 < bv.len() && u1 != u2 implies bv[u1] != bv[u2] by {
                if u1 < u2 {
                    assert(pos@[u1] < pos@[u2]);
                } else {
                    assert(pos@[u2] < pos@[u1]);
                }
                assert(views(vocab@)[pos@[u1]] != views(vocab@)[pos@[u2]]);
            }
            assert forall|u1: int, u2: int| 0 <= u1 < u2 < block.len() implies !str_lt(
                #[trigger] block@[u2]@,
                #[trigger] block@[u1]@,
            ) by {
                assert(pos@[u1] < pos@[u2]);
                assert(block@[u1]@ == vocab@[pos@[u1]]@);
                assert(block@[u2]@ == vocab@[pos@[u2]]@);
            }
            assert(positions@.contains(ids@[lead as int]));
            let t0 = choose|t0: int| 0 <= t0 < positions.len() && positions@[t0] == ids@[lead as int];
            assert(pos@[t0] == lead);
            if t0 > 0 {
                assert(pos@[0] < pos@[t0]);
                assert(labels@[pos@[0]] == v);
                assert(first_of_label(labels@, lead as int));
            }
            assert(block@[0]@ == vocab@[lead as int]@);
            assert forall|a: Seq<char>| #[trigger] bv.contains(a) <==> carries(views(vocab@), labels@, v, a) by {
                if bv.contains(a) {
                    let u = choose|u: int| 0 <= u < bv.len() && bv[u] == a;
                    assert(views(vocab@)[pos@[u]] == a);
                }
                if carries(views(vocab@), labels@, v, a) {
                    let i = choose|i: int| 0 <= i < views(vocab@).len() && #[trigger] views(vocab@)[i] == a && labels@[i] == v;
                    assert(positions@.contains(ids@[i]));
                    let u = choose|u: int| 0 <= u < positions.len() && positions@[u] == ids@[i];
                    assert(bv[u] == a);
                }
            }
        }
        let ghost prev = out@;
        out.push(block);
        proof {
            lead_of = lead_of.push(lead as int);
            assert forall|q: int| 0 <= q < j implies #[trigger] out@[q] == prev[q] by {}
        }
        j = j + 1;
    }
    proof {
        let r = group_views(out@);
        let vv = views(vocab@);
        assert forall|q: int| 0 <= q < r.len() implies #[trigger] r[q] == views(out@[q]@) by {}
        assert forall|c: Seq<char>, b: Seq<char>| #![trigger adj(c, b)] #![trigger adj(b, c)] adj(c, b) || adj(b, c) implies vv.contains(b) by {
            let ed = pairs@.map_values(|p: (String, String)| (p.0@, p.1@));
            if adj(c, b) {
                let e = choose|e: int| 0 <= e < ed.len() && ed[e] == (c, b);
                assert(pairs@[e].1@ == b);
            } else {
                let e = choose|e: int| 0 <= e < ed.len() && ed[e] == (b, c);
                assert(pairs@[e].0@ == b);
            }
        }
        assert forall|k: int, i: int, i2: int|
            0 <= k < r.len() && 0 <= i < i2 < r[k].len() implies !str_lt(#[trigger] r[k][i2], #[trigger] r[k][i]) by {
            assert(r[k][i2] == out@[k]@[i2]@);
            assert(r[k][i] == out@[k]@[i]@);
        }
        assert forall|k1: int, k2: int| 0 <= k1 < k2 < r.len() implies !str_lt((#[trigger] r[k2])[0], (#[trigger] r[k1])[0]) by {
            assert(r[k2][0] == out@[k2]@[0]@);
            assert(r[k1][0] == out@[k1]@[0]@);
            assert(leads@[k1] < leads@[k2]);
        }
        assert forall|k: int, a: Seq<char>, b: Seq<char>|
            0 <= k < r.len() && (#[trigger] r[k]).contains(a) && r[k].contains(b) implies #[trigger] connected(adj, a, b) by {
            let v = labels@[lead_of[k]];
            assert(carries(vv, labels@, v, a));
            assert(carries(vv, labels@, v, b));
            let ia = choose|i: int| 0 <= i < vv.len() && #[trigger] vv[i] == a && labels@[i] == v;
            let ib = choose|i: int| 0 <= i < vv.len() && #[trigger] vv[i] == b && labels@[i] == v;
            assert(labels@[ia] == labels@[ib]);
        }
        assert forall|k: int, a: Seq<char>, b: Seq<char>|
            0 <= k < r.len() && (#[trigger] r[k]).contains(a) && #[trigger] connected(adj, a, b) implies r[k].contains(b) by {
            if a != b {
                let v = labels@[lead_of[k]];
                assert(carries(vv, labels@, v, a));
                let ia = choose|i: int| 0 <= i < vv.len() && #[trigger] vv[i] == a && labels@[i] == v;
                lemma_connected_has_edge(adj, a, b);
                let c = choose|c: Seq<char>| #![trigger adj(c, b)] #![trigger adj(b, c)] adj(c, b) || adj(b, c);
                assert(vv.contains(b));
                let ib = choose|i: int| 0 <= i < vv.len() && vv[i] == b;
                assert(labels@[ia] == labels@[ib]);
                assert(carries(vv, labels@, v, b));
            }
        }
        assert forall|a: Seq<char>, b: Seq<char>| a != b && #[trigger] connected(adj, a, b) implies in_some_block(r, a) by {
            lemma_connected_has_edge(adj, a, b);
            lemma_connected_sym(adj, a, b);
            lemma_connected_has_edge(adj, b, a);
            let c = choose|c: Seq<char>| #![trigger adj(c, a)] #![trigger adj(a, c)] adj(c, a) || adj(a, c);
            assert(vv.contains(a));
            let c2 = choose|c: Seq<char>| #![trigger adj(c, b)] #![trigger adj(b, c)] adj(c, b) || adj(b, c);
            assert(vv.contains(b));
            let ia = choose|i: int| 0 <= i < vv.len() && vv[i] == a;
            let ib = choose|i: int| 0 <= i < vv.len() && vv[i] == b;
            assert(labels@[ia] == labels@[ib]);
            if ia < ib {
                lemma_label_count_two(labels@, ia, ib, n as int);
            } else {
                lemma_label_count_two(labels@, ib, ia, n as int);
            }
            lemma_first_exists(labels@, ia);
            let f = choose|f: int| 0 <= f <= ia && labels@[f] == labels@[ia] && #[trigger] first_of_label(labels@, f);
            let k = choose|k: int| 0 <= k < leads.len() && #[trigger] leads@[k] == f;
            assert(lead_of[k] == f);
            assert(carries(vv, labels@, labels@[lead_of[k]], a));
            assert(r[k].contains(a));
        }
        assert forall|k1: int, k2: int, a: Seq<char>|
            0 <= k1 < r.len() && 0 <= k2 < r.len() && k1 != k2 implies !(
            #[trigger] r[k1].contains(a) && #[trigger] r[k2].contains(a)) by {
            if r[k1].contains(a) && r[k2].contains(a) {
                assert(carries(vv, labels@, labels@[lead_of[k1]], a));
                assert(carries(vv, labels@, labels@[lead_of[k2]], a));
                let i1 = choose|i: int| 0 <= i < vv.len() && #[trigger] vv[i] == a && labels@[i] == labels@[lead_of[k1]];
                let i2 = choose|i: int| 0 <= i < vv.len() && #[trigger] vv[i] == a && labels@[i] == labels@[lead_of[k2]];
                assert(i1 == i2);
                let (lo, hi) = if k1 < k2 { (k1, k2) } else { (k2, k1) };
                assert(leads@[lo] < leads@[hi]);
                assert(first_of_label(labels@, leads@[hi] as int));
            }
        }
    }
    out
}

/// Every term of a block mapped to the other terms of its block, in block order.
pub open spec fn maps_blocks(m: Seq<(Seq<char>, Seq<Seq<char>>)>, blocks: Seq<Seq<Seq<char>>>) -> bool {
    &&& forall|k: int, i: int|
        0 <= k < blocks.len() && 0 <= i < blocks[k].len() ==> crate::alias::lookup(
            m,
            #[trigger] blocks[k][i],
        ) == Some(blocks[k].remove(i))
    &&& forall|a: Seq<char>| !in_some_block(blocks, a) ==> #[trigger] crate::alias::lookup(m, a).is_none()
}

/// Maps each term of the merged groups to the other terms of its group.
pub fn alias_map_from_groups(groups: &Vec<Vec<String>>) -> (r: AliasMap)
    ensures
        exists|blocks: Seq<Seq<Seq<char>>>|
            is_alias_partition(blocks, group_views(groups@)) && #[trigger] maps_blocks(r@, blocks),
{
    let copy = clone_groups(groups);
    let blocks = normalize_alias_groups(copy);
    let ghost bs = group_views(blocks@);
    let mut out = AliasMap::new();
    let mut k: usize = 0;
    while k < blocks.len()
        invariant
            bs == group_views(blocks@),
            is_alias_partition(bs, group_views(groups@)),
            k <= blocks.len(),
            forall|k2: int, i: int|
                0 <= k2 < k && 0 <= i < bs[k2].len() ==> crate::alias::lookup(
                    out@,
                    #[trigger] bs[k2][i],
                ) == Some(bs[k2].remove(i)),
            forall|a: Seq<char>|
                !in_some_block(bs.subrange(0, k as int), a) ==> #[trigger] crate::alias::lookup(
                    out@,
                    a,
                ).is_none(),
        decreases blocks.len() - k,
    {
        let block = &blocks[k];
        let ghost bk = bs[k as int];
        assert(bk == views(block@));
        let mut i: usize = 0;
        while i < block.len()
            invariant
                bs == group_views(blocks@),
                is_alias_partition(bs, group_views(groups@)),
                k < blocks.len(),
                bk == bs[k as int],
                bk == views(block@),
                i <= block.len(),
                forall|k2: int, i2: int|
                    0 <= k2 < k && 0 <= i2 < bs[k2].len() ==> crate::alias::lookup(
                        out@,
                        #[trigger] bs[k2][i2],
                    ) == Some(bs[k2].remove(i2)),
                forall|i2: int|
                    0 <= i2 < i ==> crate::alias::lookup(out@, #[trigger] bk[i2]) == Some(bk.remove(i2)),
                forall|a: Seq<char>|
                    !in_some_block(bs.subrange(0, k as int), a) && !bk.subrange(0, i as int).contains(a)
                        ==> #[trigger] crate::alias::lookup(out@, a).is_none(),
            decreases block.len() - i,
        {
            let mut others: Vec<String> = Vec::new();
            let mut t: usize = 0;
            while t < block.len()
                invariant
                    bk == views(block@),
                    i < block.len(),
                    t <= block.len(),
                    views(others@) == bk.remove(i as int).subrange(0, if t <= i { t as int } else { t - 1 }),
                decreases block.len() - t,
            {
                if t != i {
                    let ghost prev = views(others@);
                    others.push(block[t].clone());
                    assert(views(others@) =~= prev.push(block@[t as int]@));
                }
                assert(views(others@) =~= bk.remove(i as int).subrange(0, if t + 1 <= i { t + 1 } else { t as int }));
                t = t + 1;
            }
            let ghost before = out@;
            let ghost key = bk[i as int];
            out.insert(block[i].clone(), others);
            proof {
                assert(bk.remove(i as int).subrange(0, block.len() - 1) =~= bk.remove(i as int));
                assert forall|k2: int, i2: int|
                    0 <= k2 < k && 0 <= i2 < bs[k2].len() implies crate::alias::lookup(
                        out@,
                        #[trigger] bs[k2][i2],
                    ) == Some(bs[k2].remove(i2)) by {
                    assert(bs[k as int].contains(key));
                    if bs[k2][i2] == key {
                        assert(bs[k2].contains(key));
                    }
                }
                assert forall|i2: int| 0 <= i2 < i + 1 implies crate::alias::lookup(out@, #[trigger] bk[i2]) == Some(bk.remove(i2)) by {
                    if i2 < i {
                        assert(bk[i2] != key);
                    }
                }
                assert forall|a: Seq<char>|
                    !in_some_block(bs.subrange(0, k as int), a) && !bk.subrange(0, i + 1).contains(a)
                        implies #[trigger] crate::alias::lookup(out@, a).is_none() by {
                    assert(bk.subrange(0, i + 1)[i as int] == key);
                    if bk.subrange(0, i as int).contains(a) {
                        let j = choose|j: int| 0 <= j < i && bk.subrange(0, i as int)[j] == a;
                        assert(bk.subrange(0, i + 1)[j] == a);
                    }
                }
            }
            i = i + 1;
        }
        proof {
            assert(bk.subrange(0, block.len() as int) =~= bk);
            assert forall|a: Seq<char>| !in_some_block(bs.subrange(0, k + 1), a) implies #[trigger] crate::alias::lookup(out@, a).is_none() by {
                if in_some_block(bs.subrange(0, k as int), a) {
                    let k2 = choose|k2: int| 0 <= k2 < k && (#[trigger] bs.subrange(0, k as int)[k2]).contains(a);
                    assert(bs.subrange(0, k + 1)[k2] == bs.subrange(0, k as int)[k2]);
                }
                if bk.contains(a) {
                    assert(bs.subrange(0, k + 1)[k as int] == bk);
                }
            }
        }
        k = k + 1;
    }
    proof {
        assert(bs.subrange(0, blocks.len() as int) =~= bs);
        assert(is_alias_partition(bs, group_views(groups@)) && maps_blocks(out@, bs));
    }
    out
}

/// A copy of every group.
pub fn clone_groups(groups: &Vec<Vec<String>>) -> (r: Vec<Vec<String>>)
    ensures
        group_views(r@) == group_views(groups@),
{
    let mut copy: Vec<Vec<String>> = Vec::new();
    let mut g: usize = 0;
    while g < groups.len()
        invariant
            g <= groups.len(),
            group_views(copy@) == group_views(groups@.subrange(0, g as int)),
        decreases groups.len() - g,
    {
        let ghost prev = copy@;
        copy.push(clone_terms(&groups[g]));
        assert(group_views(copy@) =~= group_views(prev).push(views(groups@[g as int]@)));
        assert(group_views(copy@) =~= group_views(groups@.subrange(0, g + 1)));
        g = g + 1;
    }
    assert(groups@.subrange(0, groups.len() as int) =~= groups@);
    copy
}

/// Whether two lists of groups hold the same strings in the same places.
pub fn groups_equal(a: &Vec<Vec<String>>, b: &Vec<Vec<String>>) -> (r: bool)
    ensures
        r == (group_views(a@) == group_views(b@)),
{
    if a.len() != b.len() {
        assert(group_views(a@).len() != group_views(b@).len());
        return false;
    }
    let mut g: usize = 0;
    while g < a.len()
        invariant
            a.len() == b.len(),
            g <= a.len(),
            forall|h: int| 0 <= h < g ==> views(a@[h]@) == views(b@[h]@),
        decreases a.len() - g,
    {
        let x = &a[g];
        let y = &b[g];
        if x.len() != y.len() {
            assert(group_views(a@)[g as int].len() != group_views(b@)[g as int].len());
            return false;
        }
        let mut t: usize = 0;
        while t < x.len()
            invariant
                x.len() == y.len(),
                g < a.len(),
                a.len() == b.len(),
                x@ == a@[g as int]@,
                y@ == b@[g as int]@,
                t <= x.len(),
                forall|u: int| 0 <= u < t ==> x@[u]@ == y@[u]@,
            decreases x.len() - t,
        {
            if !x[t].eq(&y[t]) {
                assert(group_views(a@)[g as int] == views(x@));
                assert(group_views(b@)[g as int] == views(y@));
                assert(views(x@)[t as int] == x@[t as int]@);
                assert(views(y@)[t as int] == y@[t as int]@);
                assert(group_views(a@)[g as int][t as int] != group_views(b@)[g as int][t as int]);
                return false;
            }
            t = t + 1;
        }
        assert(views(x@) =~= views(y@));
        g = g + 1;
    }
    assert(group_views(a@) =~= group_views(b@));
    true
}

/// Adds a group of terms: the groups become the merged groups of the old ones
/// together with `terms`. Returns whether that differs from the old groups merged.
pub fn merge_alias_terms(groups: &mut Vec<Vec<String>>, terms: Vec<String>) -> (r: bool)
    ensures
        is_alias_partition(group_views(final(groups)@), group_views(old(groups)@).push(views(terms@))),
        exists|before: Seq<Seq<Seq<char>>>|
            #[trigger] is_alias_partition(before, group_views(old(groups)@)) && r == (before
                != group_views(final(groups)@)),
{
    let before = normalize_alias_groups(clone_groups(groups));
    let mut all = clone_groups(groups);
    let ghost prev = all@;
    all.push(terms);
    assert(group_views(all@) =~= group_views(prev).push(views(all@[prev.len() as int]@)));
    let after = normalize_alias_groups(all);
    let changed = !groups_equal(&after, &before);
    *groups = after;
    changed
}

/// The terms of `b` that `removed` does not hold, in order.
pub open spec fn without(b: Seq<Seq<char>>, removed: Seq<Seq<char>>) -> Seq<Seq<char>>
    decreases b.len(),
{
    if b.len() == 0 {
        Seq::empty()
    } else if removed.contains(b.last()) {
        without(b.drop_last(), removed)
    } else {
        without(b.drop_last(), removed).push(b.last())
    }
}

/// Takes terms out of the groups: the groups become the old groups merged, less the
/// normalized `terms`, merged again (so that groups left with one term vanish).
/// Returns whether that differs from the old groups merged.
pub fn remove_alias_terms(groups: &mut Vec<Vec<String>>, terms: Vec<String>) -> (r: bool)
    ensures
        exists|before: Seq<Seq<Seq<char>>>|
            #[trigger] is_alias_partition(before, group_views(old(groups)@)) && is_alias_partition(
                group_views(final(groups)@),
                before.map_values(|b: Seq<Seq<char>>| without(b, normalized_all(views(terms@)))),
            ) && r == (before != group_views(final(groups)@)),
{
    let current = normalize_alias_groups(clone_groups(groups));
    let removed = normalize_search_terms(terms);
    let ghost rm = views(removed@);
    let ghost cur = group_views(current@);
    let mut filtered: Vec<Vec<String>> = Vec::new();
    let mut g: usize = 0;
    while g < current.len()
        invariant
            cur == group_views(current@),
            rm == views(removed@),
            g <= current.len(),
            group_views(filtered@) == cur.subrange(0, g as int).map_values(
                |b: Seq<Seq<char>>| without(b, rm),
            ),
        decreases current.len() - g,
    {
        let block = &current[g];
        let mut kept: Vec<String> = Vec::new();
        let mut t: usize = 0;
        while t < block.len()
            invariant
                rm == views(removed@),
                t <= block.len(),
                views(kept@) == without(views(block@).subrange(0, t as int), rm),
            decreases block.len() - t,
        {
            let ghost sub = views(block@).subrange(0, t + 1);
            assert(sub.drop_last() =~= views(block@).subrange(0, t as int));
            assert(sub.last() == block@[t as int]@);
            if !crate::alias::contains_term(&removed, &block[t]) {
                let ghost prev = views(kept@);
                kept.push(block[t].clone());
                assert(views(kept@) =~= prev.push(block@[t as int]@));
            }
            t = t + 1;
        }
        assert(views(block@).subrange(0, block.len() as int) =~= views(block@));
        let ghost prev = filtered@;
        filtered.push(kept);
        assert(cur[g as int] == views(block@));
        assert(group_views(filtered@) =~= group_views(prev).push(views(filtered@[g as int]@)));
        assert(group_views(filtered@) =~= cur.subrange(0, g + 1).map_values(
            |b: Seq<Seq<char>>| without(b, rm),
        ));
        g = g + 1;
    }
    assert(cur.subrange(0, current.len() as int) =~= cur);
    let after = normalize_alias_groups(filtered);
    let changed = !groups_equal(&after, &current);
    *groups = after;
    changed
}

} // verus!
