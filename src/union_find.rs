use vstd::prelude::*;

verus! {

/// A flat, array-backed disjoint-set forest with union by rank and path compression.
///
/// `roots` names the representative of every element; `level` is a ghost height
/// that strictly grows along parent links and bounds the walk to a root.
pub struct UnionFind {
    parent: Vec<usize>,
    rank: Vec<usize>,
    roots: Ghost<Seq<int>>,
    level: Ghost<Seq<nat>>,
    top: Ghost<nat>,
}

impl UnionFind {
    /// Number of elements.
    pub closed spec fn size(&self) -> nat {
        self.parent@.len()
    }

    /// The representative of the set that holds `i`.
    pub closed spec fn root_of(&self, i: int) -> int {
        self.roots@[i]
    }

    pub closed spec fn wf(&self) -> bool {
        let n = self.parent@.len();
        &&& self.rank@.len() == n
        &&& self.roots@.len() == n
        &&& self.level@.len() == n
        &&& forall|i: int| 0 <= i < n ==> #[trigger] self.parent@[i] < n
        &&& forall|i: int| 0 <= i < n ==> 0 <= #[trigger] self.roots@[i] < n
        &&& forall|i: int| 0 <= i < n ==> self.roots@[#[trigger] self.roots@[i]] == self.roots@[i]
        &&& forall|i: int|
            0 <= i < n ==> self.roots@[#[trigger] self.parent@[i] as int] == self.roots@[i]
        &&& forall|i: int| 0 <= i < n ==> (#[trigger] self.parent@[i] == i) == (self.roots@[i] == i)
        &&& forall|i: int|
            0 <= i < n && #[trigger] self.parent@[i] != i ==> self.level@[self.parent@[i] as int]
                > self.level@[i] && self.level@[self.roots@[i]] > self.level@[i]
        &&& forall|i: int| 0 <= i < n ==> #[trigger] self.level@[i] <= self.top@
    }

    /// `size` singleton sets.
    pub fn new(size: usize) -> (r: UnionFind)
        ensures
            r.wf(),
            r.size() == size,
            forall|i: int| 0 <= i < size ==> #[trigger] r.root_of(i) == i,
    {
        let mut parent: Vec<usize> = Vec::new();
        let mut rank: Vec<usize> = Vec::new();
        let mut i: usize = 0;
        while i < size
            invariant
                i <= size,
                parent.len() == i,
                rank.len() == i,
                forall|k: int| 0 <= k < i ==> #[trigger] parent@[k] == k,
            decreases size - i,
        {
            parent.push(i);
            rank.push(0);
            i = i + 1;
        }
        let uf = UnionFind {
            parent,
            rank,
            roots: Ghost(Seq::new(size as nat, |k: int| k)),
            level: Ghost(Seq::new(size as nat, |k: int| 0nat)),
            top: Ghost(0nat),
        };
        uf
    }

    /// The representative of `x`'s set; every node met on the way is relinked to it.
    pub fn find(&mut self, x: usize) -> (r: usize)
        requires
            old(self).wf(),
            x < old(self).size(),
        ensures
            final(self).wf(),
            final(self).size() == old(self).size(),
            r == old(self).root_of(x as int),
            forall|i: int| #[trigger] final(self).root_of(i) == old(self).root_of(i),
    {
        let ghost n = self.parent@.len();
        let mut r = x;
        while self.parent[r] != r
            invariant
                self.wf(),
                self.parent@.len() == n,
                r < n,
                self.roots@[r as int] == self.roots@[x as int],
                *self == *old(self),
            decreases self.top@ - self.level@[r as int],
        {
            r = self.parent[r];
        }
        let mut y = x;
        while y != r
            invariant
                self.wf(),
                self.parent@.len() == n,
                y < n,
                r < n,
                r == old(self).roots@[x as int],
                self.roots@ == old(self).roots@,
                self.roots@[y as int] == r,
            decreases self.top@ - self.level@[y as int],
        {
            let next = self.parent[y];
            self.parent.set(y, r);
            y = next;
        }
        r
    }

    /// Joins the sets of `a` and `b`.
    pub fn union(&mut self, a: usize, b: usize)
        requires
            old(self).wf(),
            a < old(self).size(),
            b < old(self).size(),
        ensures
            final(self).wf(),
            final(self).size() == old(self).size(),
            forall|i: int, j: int|
                0 <= i < old(self).size() && 0 <= j < old(self).size() ==> ((
                #[trigger] final(self).root_of(i) == #[trigger] final(self).root_of(j)) <==> (
                old(self).root_of(i) == old(self).root_of(j) || (old(self).root_of(i)
                    == old(self).root_of(a as int) && old(self).root_of(j) == old(self).root_of(
                    b as int,
                )) || (old(self).root_of(i) == old(self).root_of(b as int) && old(self).root_of(j)
                    == old(self).root_of(a as int)))),
    {
        let ghost s0 = self.roots@;
        let ra0 = self.find(a);
        let ghost s1 = self.roots@;
        assert forall|i: int| 0 <= i < s0.len() implies s1[i] == s0[i] by {
            assert(self.root_of(i) == old(self).root_of(i));
        }
        let rb0 = self.find(b);
        assert forall|i: int| 0 <= i < s0.len() implies self.roots@[i] == s0[i] by {
            assert(self.root_of(i) == s1[i]);
        }
        assert(self.roots@ =~= s0);
        if ra0 == rb0 {
            return;
        }
        let (ra, rb) = if self.rank[ra0] < self.rank[rb0] {
            (rb0, ra0)
        } else {
            (ra0, rb0)
        };
        let ghost mid_parent = self.parent@;
        self.parent.set(rb, ra);
        if self.rank[ra] == self.rank[rb] && self.rank[ra] < usize::MAX {
            let bumped = self.rank[ra] + 1;
            self.rank.set(ra, bumped);
        }
        let ghost old_roots = self.roots@;
        let ghost old_level = self.level@;
        let ghost old_top = self.top@;
        let ghost n = self.parent@.len();
        let ghost raised: nat = if old_level[ra as int] > old_level[rb as int] {
            old_level[ra as int]
        } else {
            old_level[rb as int] + 1
        };
        self.roots = Ghost(
            Seq::new(
                n,
                |i: int|
                    if old_roots[i] == rb as int {
                        ra as int
                    } else {
                        old_roots[i]
                    },
            ),
        );
        self.level = Ghost(old_level.update(ra as int, raised));
        self.top = Ghost(
            if self.top@ > raised {
                self.top@
            } else {
                raised
            },
        );
        proof {
            let roots = self.roots@;
            let level = self.level@;
            let parent = self.parent@;
            assert(parent == mid_parent.update(rb as int, ra));
            assert(old_roots[a as int] == ra0 && old_roots[b as int] == rb0);
            assert(old_roots[ra as int] == ra && old_roots[rb as int] == rb);
            assert forall|i: int| 0 <= i < n implies 0 <= #[trigger] roots[i] < n && roots[roots[i]]
                == roots[i] by {}
            assert forall|i: int| 0 <= i < n implies roots[#[trigger] parent[i] as int]
                == roots[i] by {
                if i != rb {
                    assert(old_roots[mid_parent[i] as int] == old_roots[i]);
                }
            }
            assert forall|i: int| 0 <= i < n implies (#[trigger] parent[i] == i) == (roots[i]
                == i) by {
                if i != rb {
                    assert((mid_parent[i] == i) == (old_roots[i] == i));
                }
            }
            assert forall|i: int| 0 <= i < n && #[trigger] parent[i] != i implies level[parent[i]
                as int] > level[i] && level[roots[i]] > level[i] by {
                if i != rb {
                    assert(mid_parent[i] != i);
                    assert(old_level[mid_parent[i] as int] > old_level[i]);
                    assert(old_level[old_roots[i]] > old_level[i]);
                }
            }
            assert forall|i: int| 0 <= i < n implies #[trigger] level[i] <= self.top@ by {
                assert(old_level[i] <= old_top);
            }
            assert(self.wf());
            assert forall|i: int, j: int| 0 <= i < n && 0 <= j < n implies ((roots[i] == roots[j])
                <==> (s0[i] == s0[j] || (s0[i] == ra0 && s0[j] == rb0) || (s0[i] == rb0 && s0[j]
                == ra0))) by {}
        }
    }
}

} // verus!
