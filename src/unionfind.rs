use vstd::prelude::*;
use vstd::set_lib::*;

verus! {

/// Disjoint sets over the elements `0..n`, with union by size and path compression.
///
/// `parents[x]` is the parent of `x`, or minus the size of its set when `x` is a root.
pub struct UnionFind {
    parents: Vec<i32>,
    group: usize,
    /// The root of each element's set.
    rep: Ghost<Seq<int>>,
    /// A rank that strictly grows from every element to its parent.
    rank: Ghost<Seq<nat>>,
}

impl UnionFind {
    /// Number of elements.
    pub closed spec fn len(&self) -> nat {
        self.parents@.len()
    }

    /// The representative of the set that holds `x`.
    pub closed spec fn root(&self, x: int) -> int {
        self.rep@[x]
    }

    /// Whether `a` and `b` lie in the same set.
    pub open spec fn same_set(&self, a: int, b: int) -> bool {
        self.root(a) == self.root(b)
    }

    /// Number of disjoint sets.
    pub closed spec fn groups(&self) -> nat {
        self.group as nat
    }

    /// How far `x` may be from its root; strictly shrinks from an element to its parent.
    pub closed spec fn height(&self, x: int) -> int {
        self.len() - self.rank@[x]
    }

    spec fn roots(&self) -> Set<int> {
        Set::new(|z: int| 0 <= z < self.len() && self.parents@[z] < 0)
    }

    spec fn members(&self, r: int) -> Set<int> {
        Set::new(|z: int| 0 <= z < self.len() && self.rep@[z] == r)
    }

    /// The internal invariant.
    #[verifier::opaque]
    pub closed spec fn wf(&self) -> bool {
        let n = self.len();
        &&& n <= i32::MAX
        &&& self.rep@.len() == n
        &&& self.rank@.len() == n
        &&& self.group as nat <= n
        &&& forall|x: int| 0 <= x < n ==> {
            let r = #[trigger] self.rep@[x];
            &&& 0 <= r < n
            &&& self.parents@[r] < 0
            &&& self.rank@[x] + self.group < n + 1
            &&& (self.parents@[x] < 0 ==> r == x && -self.parents@[x] == self.members(x).len())
            &&& (self.parents@[x] >= 0 ==> {
                &&& self.parents@[x] < n
                &&& self.rep@[self.parents@[x] as int] == r
                &&& self.rank@[self.parents@[x] as int] > self.rank@[x]
                &&& self.rank@[r] > self.rank@[x]
            })
        }
        &&& self.group == self.roots().len()
    }

    proof fn lemma_finite(&self)
        requires
            self.wf(),
        ensures
            self.roots().finite(),
            forall|r: int| #[trigger] self.members(r).finite() && self.members(r).len() <= self.len(),
    {
        reveal(UnionFind::wf);
        lemma_int_range(0, self.len() as int);
        lemma_len_subset(self.roots(), set_int_range(0, self.len() as int));
        assert forall|r: int| #[trigger] self.members(r).finite() && self.members(r).len() <= self.len() by {
            lemma_len_subset(self.members(r), set_int_range(0, self.len() as int));
        }
    }

    /// A structure of `n` singleton sets.
    pub fn new(n: usize) -> (uf: UnionFind)
        requires
            n <= i32::MAX,
        ensures
            uf.wf(),
            uf.len() == n,
            uf.groups() == n,
            forall|x: int| 0 <= x < n ==> #[trigger] uf.root(x) == x,
            forall|a: int, b: int| 0 <= a < n && 0 <= b < n ==> (uf.same_set(a, b) <==> a == b),
    {
        reveal(UnionFind::wf);
        let parents: Vec<i32> = vec![-1; n];
        let uf = UnionFind {
            parents,
            group: n,
            rep: Ghost(Seq::new(n as nat, |i: int| i)),
            rank: Ghost(Seq::new(n as nat, |i: int| 0nat)),
        };
        proof {
            assert forall|x: int| 0 <= x < n implies #[trigger] uf.members(x).len() == 1 by {
                assert(uf.members(x) =~= set![x]);
            }
            assert(uf.roots() =~= set_int_range(0, n as int));
            lemma_int_range(0, n as int);
        }
        uf
    }

    /// The representative of the set that holds `x`; shortens the path from `x` on the way.
    pub fn find(&mut self, x: usize) -> (r: i32)
        requires
            old(self).wf(),
            x < old(self).len(),
        ensures
            final(self).wf(),
            final(self).len() == old(self).len(),
            final(self).groups() == old(self).groups(),
            forall|a: int| 0 <= a < old(self).len() ==> #[trigger] final(self).root(a) == old(self).root(a),
            r == old(self).root(x as int),
            0 <= r < old(self).len(),
            old(self).same_set(r as int, x as int),
            final(self).root(r as int) == r as int,
    {
        proof {
            self.lemma_root_is_member(x as int);
        }
        self.find_rec(x)
    }

    /// The representative of an element's set lies in that set and represents itself.
    pub proof fn lemma_root_is_member(&self, x: int)
        requires
            self.wf(),
            0 <= x < self.len(),
        ensures
            0 <= self.root(x) < self.len(),
            self.root(self.root(x)) == self.root(x),
            self.same_set(self.root(x), x),
    {
        reveal(UnionFind::wf);
        let r = self.rep@[x];
        let q = self.rep@[r];
    }

    proof fn lemma_step(&self, x: int)
        requires
            self.wf(),
            0 <= x < self.len(),
        ensures
            self.len() <= i32::MAX,
            self.rep@.len() == self.len(),
            0 <= self.rep@[x] < self.len(),
            self.parents@[self.rep@[x]] < 0,
            self.parents@[x] < 0 ==> self.rep@[x] == x,
            self.parents@[x] >= 0 ==> {
                &&& self.parents@[x] < self.len()
                &&& self.rep@[self.parents@[x] as int] == self.rep@[x]
                &&& 0 <= self.height(self.parents@[x] as int) < self.height(x)
            },
    {
        reveal(UnionFind::wf);
        // instantiates the invariant at `x` and at its parent
        let q = self.rep@[x];
        if self.parents@[x] >= 0 {
            let p = self.rep@[self.parents@[x] as int];
        }
    }

    proof fn lemma_compress(mid: UnionFind, new: UnionFind, x: int, r: int)
        requires
            mid.wf(),
            0 <= x < mid.len(),
            mid.parents@[x] >= 0,
            r == mid.rep@[x],
            new.parents@ == mid.parents@.update(x, r as i32),
            new.group == mid.group,
            new.rep == mid.rep,
            new.rank == mid.rank,
        ensures
            new.wf(),
    {
        reveal(UnionFind::wf);
        assert forall|z: int| #[trigger] new.members(z) =~= mid.members(z) by {}
        assert(new.roots() =~= mid.roots());
        assert forall|y: int| 0 <= y < new.len() implies {
            let q = #[trigger] new.rep@[y];
            &&& 0 <= q < new.len()
            &&& new.parents@[q] < 0
            &&& new.rank@[y] + new.group < new.len() + 1
            &&& (new.parents@[y] < 0 ==> q == y && -new.parents@[y] == new.members(y).len())
            &&& (new.parents@[y] >= 0 ==> {
                &&& new.parents@[y] < new.len()
                &&& new.rep@[new.parents@[y] as int] == q
                &&& new.rank@[new.parents@[y] as int] > new.rank@[y]
                &&& new.rank@[q] > new.rank@[y]
            })
        } by {
            // instantiates the invariant of `mid` at `y`
            let mq = mid.rep@[y];
            if y == x {
                let mr = mid.rep@[r];
            } else if mid.parents@[y] >= 0 {
                let mp = mid.rep@[mid.parents@[y] as int];
            }
        }
    }

    fn find_rec(&mut self, x: usize) -> (r: i32)
        requires
            old(self).wf(),
            x < old(self).len(),
        ensures
            final(self).wf(),
            final(self).len() == old(self).len(),
            final(self).group == old(self).group,
            final(self).rep == old(self).rep,
            final(self).rank == old(self).rank,
            forall|a: int| 0 <= a < old(self).len() && old(self).parents@[a] < 0
                ==> #[trigger] final(self).parents@[a] == old(self).parents@[a],
            forall|a: int| 0 <= a < old(self).len() && old(self).parents@[a] >= 0
                ==> #[trigger] final(self).parents@[a] >= 0,
            r == old(self).rep@[x as int],
            0 <= r < old(self).len(),
            final(self).parents@[r as int] < 0,
        decreases old(self).height(x as int),
    {
        proof {
            self.lemma_step(x as int);
        }
        if self.parents[x] < 0 {
            x as i32
        } else {
            let p = self.parents[x] as usize;
            let r = self.find_rec(p);
            let ghost mid = *self;
            self.parents.set(x, r);
            proof {
                UnionFind::lemma_compress(mid, *self, x as int, r as int);
            }
            r
        }
    }

    /// Hangs root `ry` below root `rx`, the larger set being kept as the root.
    #[verifier::rlimit(40)]
    fn link(&mut self, rx: i32, ry: i32)
        requires
            old(self).wf(),
            0 <= rx < old(self).len(),
            0 <= ry < old(self).len(),
            rx != ry,
            old(self).parents@[rx as int] < 0,
            old(self).parents@[ry as int] < 0,
        ensures
            final(self).wf(),
            final(self).len() == old(self).len(),
            final(self).groups() == old(self).groups() - 1,
            forall|a: int|
                0 <= a < old(self).len() ==> #[trigger] final(self).root(a) == if old(self).root(a) == ry as int
                    || old(self).root(a) == rx as int {
                    final(self).root(rx as int)
                } else {
                    old(self).root(a)
                },
            final(self).root(rx as int) == rx as int || final(self).root(rx as int) == ry as int,
    {
        reveal(UnionFind::wf);
        let ghost before = *self;
        proof {
            before.lemma_finite();
            assert(before.roots().contains(rx as int));
            assert(before.roots().contains(ry as int));
            assert(before.roots().remove(rx as int).contains(ry as int));
            assert(before.roots().len() >= 2);
        }
        let (big, small) = if self.parents[rx as usize] > self.parents[ry as usize] {
            (ry as usize, rx as usize)
        } else {
            (rx as usize, ry as usize)
        };
        proof {
            assert(before.members(big as int).disjoint(before.members(small as int)));
            lemma_set_disjoint_lens(before.members(big as int), before.members(small as int));
            lemma_int_range(0, before.len() as int);
            lemma_len_subset(
                before.members(big as int) + before.members(small as int),
                set_int_range(0, before.len() as int),
            );
            // instantiates the invariant at both roots
            let wb = before.rep@[big as int];
            let ws = before.rep@[small as int];
        }
        self.group = self.group - 1;
        let sum = self.parents[big] + self.parents[small];
        self.parents.set(big, sum);
        self.parents.set(small, big as i32);
        let ghost old_rank = before.rank@;
        let ghost new_rank = if old_rank[big as int] > old_rank[small as int] {
            old_rank[big as int]
        } else {
            old_rank[small as int] + 1
        };
        self.rank = Ghost(old_rank.update(big as int, new_rank));
        self.rep = Ghost(
            Seq::new(
                before.len(),
                |z: int|
                    if before.rep@[z] == small as int {
                        big as int
                    } else {
                        before.rep@[z]
                    },
            ),
        );
        proof {
            assert(self.members(big as int) =~= before.members(big as int) + before.members(small as int));
            assert forall|z: int| z != big && z != small implies #[trigger] self.members(z) =~= before.members(z) by {}
            assert(self.roots() =~= before.roots().remove(small as int));
            assert forall|z: int| 0 <= z < self.len() implies {
                let r = #[trigger] self.rep@[z];
                &&& 0 <= r < self.len()
                &&& self.parents@[r] < 0
                &&& self.rank@[z] + self.group < self.len() + 1
                &&& (self.parents@[z] < 0 ==> r == z && -self.parents@[z] == self.members(z).len())
                &&& (self.parents@[z] >= 0 ==> {
                    &&& self.parents@[z] < self.len()
                    &&& self.rep@[self.parents@[z] as int] == r
                    &&& self.rank@[self.parents@[z] as int] > self.rank@[z]
                    &&& self.rank@[r] > self.rank@[z]
                })
            } by {
                // instantiates the invariant of `before` where it is needed
                let q = before.rep@[z];
                let bs = before.rep@[small as int];
                let bb = before.rep@[big as int];
                if before.parents@[z] >= 0 {
                    let pz = before.rep@[before.parents@[z] as int];
                    assert(self.rep@[before.parents@[z] as int] == self.rep@[z]);
                } else if z == big as int {
                    assert(self.members(z).len() == -self.parents@[z]);
                } else if z == small as int {
                    assert(self.parents@[z] >= 0);
                    assert(self.rep@[big as int] == big as int);
                } else {
                    assert(self.members(z) =~= before.members(z));
                }
            }
        }
    }

    /// Merges the sets that hold `x` and `y`.
    #[verifier::rlimit(40)]
    pub fn union(&mut self, x: usize, y: usize)
        requires
            old(self).wf(),
            x < old(self).len(),
            y < old(self).len(),
        ensures
            final(self).wf(),
            final(self).len() == old(self).len(),
            final(self).groups() == if old(self).same_set(x as int, y as int) {
                old(self).groups()
            } else {
                (old(self).groups() - 1) as nat
            },
            forall|a: int, b: int|
                0 <= a < old(self).len() && 0 <= b < old(self).len() ==> (#[trigger] final(self).same_set(a, b)
                    <==> (old(self).same_set(a, b) || (old(self).same_set(a, x as int) && old(self).same_set(b, y as int))
                    || (old(self).same_set(a, y as int) && old(self).same_set(b, x as int)))),
    {
        let ghost o = *self;
        let new_x = self.find_rec(x);
        let new_y = self.find_rec(y);
        if new_x != new_y {
            self.link(new_x, new_y);
            proof {
                assert forall|a: int, b: int| 0 <= a < o.len() && 0 <= b < o.len() implies (#[trigger] self.same_set(a, b)
                    <==> (o.same_set(a, b) || (o.same_set(a, x as int) && o.same_set(b, y as int))
                    || (o.same_set(a, y as int) && o.same_set(b, x as int)))) by {
                    // instantiates the contract of `link` at `a` and `b`
                    let fa = self.root(a);
                    let fb = self.root(b);
                }
            }
        }
    }

    /// Number of disjoint sets: at most the number of elements, and at least one when
    /// there are elements.
    pub fn group_count(&self) -> (r: usize)
        requires
            self.wf(),
        ensures
            r == self.groups(),
            r <= self.len(),
            self.len() > 0 ==> r >= 1,
    {
        proof {
            reveal(UnionFind::wf);
            self.lemma_finite();
            lemma_int_range(0, self.len() as int);
            lemma_len_subset(self.roots(), set_int_range(0, self.len() as int));
            if self.len() > 0 {
                let r0 = self.rep@[0];
                assert(self.roots().contains(r0));
            }
        }
        self.group
    }

    /// There is a single set exactly when every two elements share one.
    pub proof fn lemma_one_group(&self)
        requires
            self.wf(),
            self.len() > 0,
        ensures
            (self.groups() == 1) <==> forall|a: int, b: int|
                0 <= a < self.len() && 0 <= b < self.len() ==> #[trigger] self.same_set(a, b),
    {
        reveal(UnionFind::wf);
        self.lemma_finite();
        let r0 = self.rep@[0];
        if self.groups() == 1 {
            assert(self.roots().contains(r0));
            assert forall|a: int, b: int|
                0 <= a < self.len() && 0 <= b < self.len() implies #[trigger] self.same_set(a, b) by {
                let ra = self.rep@[a];
                let rb = self.rep@[b];
                assert(self.roots().contains(ra));
                assert(self.roots().contains(rb));
                if ra != rb {
                    assert(self.roots().remove(ra).contains(rb));
                    assert(self.roots().remove(ra).len() == 0);
                }
            }
        }
        if forall|a: int, b: int| 0 <= a < self.len() && 0 <= b < self.len() ==> #[trigger] self.same_set(a, b) {
            assert forall|z: int| self.roots().contains(z) <==> z == r0 by {
                if self.roots().contains(z) {
                    assert(self.same_set(z, 0));
                }
            }
            assert(self.roots() =~= set![r0]);
        }
    }
}

} // verus!
