use vstd::prelude::*;
use crate::eulerian::{cursors, lemma_jlets_split, lemma_map_multiset, lemma_rest_done, lemma_rest_edges, lemma_rest_lists, lemma_rest_step, list_views, rest};
use crate::unionfind::UnionFind;
use crate::rng::{choose_one, shuffle};
use crate::utils::{window, chars_of, eq_range, klets, views, same_klets_spec, string_of};

verus! {

broadcast use vstd::seq_lib::group_to_multiset_ensures;

/// A sequence used by the tests of the graph model.
pub const S1: &'static str = "AGACATAAAGTTCCGTACTGCCGGGAT";

/// The overlap multigraph of a sequence for a given `k`.
///
/// Vertex `v` is the (k-1)-symbol string that starts at position `labels[v]` of the
/// sequence; `edges[v]` lists the start positions of the k-lets whose first k-1 symbols
/// are that string, each k-let occurrence once, left to right.
pub struct EdgeOrdering {
    pub labels: Vec<usize>,
    pub edges: Vec<Vec<usize>>,
}

/// The (k-1)-symbol label that starts at position `p`.
pub open spec fn label(s: Seq<char>, k: nat, p: int) -> Seq<char> {
    window(s, p, (k - 1) as nat)
}

impl EdgeOrdering {
    /// The label of vertex `v`.
    pub open spec fn vertex(&self, s: Seq<char>, k: nat, v: int) -> Seq<char> {
        label(s, k, self.labels@[v] as int)
    }

    /// Whether some vertex lists the k-let that starts at position `e`.
    pub open spec fn holds_edge(&self, e: int) -> bool {
        exists|v: int| 0 <= v < self.edges.len() && #[trigger] self.edges@[v]@.contains(e as usize)
    }

    /// Whether this is the overlap multigraph of `s` for `k`.
    pub open spec fn models(&self, s: Seq<char>, k: nat) -> bool {
        &&& 1 <= k <= s.len()
        &&& self.labels.len() == self.edges.len()
        &&& forall|v: int| 0 <= v < self.labels.len() ==> {
            let p = #[trigger] self.labels@[v] as int;
            p <= s.len() - k || p == s.len() - (k - 1)
        }
        &&& forall|v: int, w: int|
            0 <= v < w < self.labels.len() ==> #[trigger] self.vertex(s, k, v) != #[trigger] self.vertex(s, k, w)
        &&& forall|v: int, t: int|
            0 <= v < self.edges.len() && 0 <= t < self.edges@[v].len() ==> {
                let e = #[trigger] self.edges@[v]@[t] as int;
                e <= s.len() - k && label(s, k, e) == self.vertex(s, k, v)
            }
        &&& forall|v: int, t1: int, t2: int|
            0 <= v < self.edges.len() && 0 <= t1 < t2 < self.edges@[v].len()
                ==> #[trigger] self.edges@[v]@[t1] < #[trigger] self.edges@[v]@[t2]
        &&& forall|e: int| 0 <= e <= s.len() - k ==> #[trigger] self.holds_edge(e)
        &&& exists|v: int| 0 <= v < self.labels.len() && self.vertex(s, k, v) == label(s, k, s.len() - (k - 1))
    }

    /// Number of vertices.
    pub fn len(&self) -> (r: usize)
        ensures
            r == self.labels.len(),
    {
        self.labels.len()
    }

    /// The vertex whose label is the (k-1)-symbol string at position `p`, if there is one.
    pub fn vertex_of(&self, s: &Vec<char>, k: usize, p: usize) -> (r: Option<usize>)
        requires
            1 <= k,
            p + k - 1 <= s.len(),
            forall|v: int| 0 <= v < self.labels.len() ==> #[trigger] self.labels@[v] + k - 1 <= s.len(),
        ensures
            match r {
                Some(v) => v < self.labels.len() && self.vertex(s@, k as nat, v as int) == label(s@, k as nat, p as int),
                None => forall|v: int|
                    0 <= v < self.labels.len() ==> #[trigger] self.vertex(s@, k as nat, v) != label(s@, k as nat, p as int),
            },
    {
        let mut v: usize = 0;
        while v < self.labels.len()
            invariant
                1 <= k,
                p + k - 1 <= s.len(),
                forall|w: int| 0 <= w < self.labels.len() ==> #[trigger] self.labels@[w] + k - 1 <= s.len(),
                v <= self.labels.len(),
                forall|w: int| 0 <= w < v ==> #[trigger] self.vertex(s@, k as nat, w) != label(s@, k as nat, p as int),
            decreases self.labels.len() - v,
        {
            if eq_range(s, self.labels[v], s, p, k - 1) {
                return Some(v);
            }
            v += 1;
        }
        None
    }
}

/// Builds the overlap multigraph of `s`: one vertex per distinct (k-1)-symbol string that
/// starts a k-let or ends the sequence, with its k-lets in the order they occur.
pub fn edge_ordering_chars(s: &Vec<char>, k: usize) -> (g: EdgeOrdering)
    requires
        2 <= k <= s.len(),
    ensures
        g.models(s@, k as nat),
        g.labels.len() <= s.len(),
{
    let mut g = EdgeOrdering { labels: Vec::new(), edges: Vec::new() };
    let last = s.len() - k;
    let mut e: usize = 0;
    while e <= last
        invariant
            last == s.len() - k,
            2 <= k <= s.len(),
            e <= last + 1,
            g.labels.len() == g.edges.len(),
            g.labels.len() <= e,
            forall|v: int| 0 <= v < g.labels.len() ==> #[trigger] g.labels@[v] < e,
            forall|v: int, w: int|
                0 <= v < w < g.labels.len() ==> #[trigger] g.vertex(s@, k as nat, v) != #[trigger] g.vertex(s@, k as nat, w),
            forall|v: int, t: int|
                0 <= v < g.edges.len() && 0 <= t < g.edges@[v].len() ==> {
                    let x = #[trigger] g.edges@[v]@[t] as int;
                    x < e && label(s@, k as nat, x) == g.vertex(s@, k as nat, v)
                },
            forall|v: int, t1: int, t2: int|
                0 <= v < g.edges.len() && 0 <= t1 < t2 < g.edges@[v].len()
                    ==> #[trigger] g.edges@[v]@[t1] < #[trigger] g.edges@[v]@[t2],
            forall|x: int| 0 <= x < e ==> #[trigger] g.holds_edge(x),
        decreases last + 1 - e,
    {
        let found = g.vertex_of(s, k, e);
        let ghost old_g = g;
        match found {
            Some(v) => {
                let mut list = g.edges.remove(v);
                list.push(e);
                g.edges.insert(v, list);
                proof {
                    assert(g.labels@ == old_g.labels@);
                    assert forall|w: int| 0 <= w < g.edges.len() && w != v implies #[trigger] g.edges@[w] == old_g.edges@[w] by {}
                    assert(g.edges@[v as int]@ == old_g.edges@[v as int]@.push(e));
                    assert forall|a: int, b: int|
                        0 <= a < b < g.labels.len() implies #[trigger] g.vertex(s@, k as nat, a) != #[trigger] g.vertex(s@, k as nat, b) by {
                        assert(g.vertex(s@, k as nat, a) == old_g.vertex(s@, k as nat, a));
                        assert(g.vertex(s@, k as nat, b) == old_g.vertex(s@, k as nat, b));
                    }
                    assert forall|x: int| 0 <= x < e + 1 implies #[trigger] g.holds_edge(x) by {
                        if x == e {
                            assert(g.edges@[v as int]@[g.edges@[v as int].len() - 1] == e);
                            assert(g.edges@[v as int]@.contains(x as usize));
                        } else {
                            assert(old_g.holds_edge(x));
                            let w = choose|w: int| 0 <= w < old_g.edges.len() && old_g.edges@[w]@.contains(x as usize);
                            let t = choose|t: int| 0 <= t < old_g.edges@[w]@.len() && old_g.edges@[w]@[t] == x as usize;
                            assert(g.edges@[w]@[t] == x as usize);
                            assert(g.edges@[w]@.contains(x as usize));
                        }
                    }
                }
            },
            None => {
                g.labels.push(e);
                g.edges.push(vec![e]);
                proof {
                    assert forall|a: int, b: int|
                        0 <= a < b < g.labels.len() implies #[trigger] g.vertex(s@, k as nat, a) != #[trigger] g.vertex(s@, k as nat, b) by {
                        assert(g.vertex(s@, k as nat, a) == old_g.vertex(s@, k as nat, a));
                        if b < old_g.labels.len() {
                            assert(g.vertex(s@, k as nat, b) == old_g.vertex(s@, k as nat, b));
                        }
                    }
                    assert forall|x: int| 0 <= x < e + 1 implies #[trigger] g.holds_edge(x) by {
                        if x == e {
                            assert(g.edges@[g.edges.len() - 1]@[0] == e);
                            assert(g.edges@[g.edges.len() - 1]@.contains(x as usize));
                        } else {
                            assert(old_g.holds_edge(x));
                            let w = choose|w: int| 0 <= w < old_g.edges.len() && old_g.edges@[w]@.contains(x as usize);
                            assert(g.edges@[w] == old_g.edges@[w]);
                            assert(g.edges@[w]@.contains(x as usize));
                        }
                    }
                }
            },
        }
        e += 1;
    }
    let tail = s.len() - (k - 1);
    let found = g.vertex_of(s, k, tail);
    if let Some(v) = found {
        assert(g.vertex(s@, k as nat, v as int) == label(s@, k as nat, s.len() - (k - 1)));
    } else {
        let ghost old_g = g;
        g.labels.push(tail);
        g.edges.push(Vec::new());
        proof {
            assert forall|a: int, b: int|
                0 <= a < b < g.labels.len() implies #[trigger] g.vertex(s@, k as nat, a) != #[trigger] g.vertex(s@, k as nat, b) by {
                assert(g.vertex(s@, k as nat, a) == old_g.vertex(s@, k as nat, a));
                if b < old_g.labels.len() {
                    assert(g.vertex(s@, k as nat, b) == old_g.vertex(s@, k as nat, b));
                }
            }
            assert forall|x: int| 0 <= x <= s.len() - k implies #[trigger] g.holds_edge(x) by {
                assert(old_g.holds_edge(x));
                            let w = choose|w: int| 0 <= w < old_g.edges.len() && old_g.edges@[w]@.contains(x as usize);
                assert(g.edges@[w] == old_g.edges@[w]);
                assert(g.edges@[w]@.contains(x as usize));
            }
            assert(g.vertex(s@, k as nat, g.labels.len() - 1) == label(s@, k as nat, tail as int));
        }
    }
    g
}

/// The overlap multigraph of `seq` for `k` (see [`edge_ordering_chars`]).
pub fn edge_ordering(seq: &str, k: usize) -> (g: EdgeOrdering)
    requires
        2 <= k <= seq@.len(),
    ensures
        g.models(seq@, k as nat),
        g.labels.len() <= seq@.len(),
{
    let s = chars_of(seq);
    edge_ordering_chars(&s, k)
}

/// Whether `c` holds both ends of every pair, or neither.
pub open spec fn closed_under(pairs: Seq<(usize, usize)>, c: Set<int>) -> bool {
    forall|i: int| 0 <= i < pairs.len() ==> (c.contains((#[trigger] pairs[i]).0 as int) <==> c.contains(pairs[i].1 as int))
}

/// The undirected multigraph on the vertices `0..n` with the edges `pairs` is connected
/// and not empty: no set of vertices closed under the edges splits it.
pub open spec fn connected_spec(n: nat, pairs: Seq<(usize, usize)>) -> bool {
    &&& n > 0
    &&& forall|c: Set<int>| #[trigger] closed_under(pairs, c) ==> forall|a: int, b: int|
        0 <= a < n && 0 <= b < n && #[trigger] c.contains(a) ==> #[trigger] c.contains(b)
}

/// Whether the graph on `0..n` with the edges `pairs` is connected, found with a disjoint-set
/// structure.
pub fn connected(n: usize, pairs: &Vec<(usize, usize)>) -> (r: bool)
    requires
        n <= i32::MAX,
        forall|i: int| 0 <= i < pairs.len() ==> (#[trigger] pairs@[i]).0 < n && pairs@[i].1 < n,
    ensures
        r == connected_spec(n as nat, pairs@),
{
    if n == 0 {
        return false;
    }
    let mut uf = UnionFind::new(n);
    let mut i: usize = 0;
    while i < pairs.len()
        invariant
            forall|t: int| 0 <= t < pairs.len() ==> (#[trigger] pairs@[t]).0 < n && pairs@[t].1 < n,
            uf.wf(),
            uf.len() == n,
            i <= pairs.len(),
            forall|t: int| 0 <= t < i ==> uf.same_set((#[trigger] pairs@[t]).0 as int, pairs@[t].1 as int),
            forall|c: Set<int>| #[trigger] closed_under(pairs@, c) ==> forall|a: int, b: int|
                0 <= a < n && 0 <= b < n && #[trigger] uf.same_set(a, b) ==> (c.contains(a) <==> c.contains(b)),
        decreases pairs.len() - i,
    {
        let ghost before = uf;
        let (x, y) = pairs[i];
        uf.union(x, y);
        proof {
            assert forall|t: int| 0 <= t < i + 1 implies uf.same_set((#[trigger] pairs@[t]).0 as int, pairs@[t].1 as int) by {
                if t < i {
                    assert(before.same_set(pairs@[t].0 as int, pairs@[t].1 as int));
                }
            }
            assert forall|c: Set<int>| #[trigger] closed_under(pairs@, c) implies forall|a: int, b: int|
                0 <= a < n && 0 <= b < n && #[trigger] uf.same_set(a, b) ==> (c.contains(a) <==> c.contains(b)) by {
                assert(c.contains(pairs@[i as int].0 as int) <==> c.contains(pairs@[i as int].1 as int));
                assert forall|a: int, b: int| 0 <= a < n && 0 <= b < n && #[trigger] uf.same_set(a, b) implies (c.contains(a) <==> c.contains(b)) by {
                    assert(before.same_set(a, a));
                    assert(before.same_set(b, b));
                    assert(before.same_set(x as int, x as int));
                    assert(before.same_set(y as int, y as int));
                }
            }
        }
        i += 1;
    }
    proof {
        uf.lemma_one_group();
        if uf.groups() != 1 {
            let (a, b) = choose|a: int, b: int| 0 <= a < n && 0 <= b < n && !uf.same_set(a, b);
            let c = Set::new(|z: int| 0 <= z < n && uf.same_set(z, a));
            assert forall|t: int| 0 <= t < pairs.len() implies (c.contains((#[trigger] pairs@[t]).0 as int) <==> c.contains(pairs@[t].1 as int)) by {
                assert(uf.same_set(pairs@[t].0 as int, pairs@[t].1 as int));
            }
            assert(closed_under(pairs@, c));
            assert(uf.same_set(a, a));
            assert(c.contains(a) && !c.contains(b));
        } else {
            assert forall|c: Set<int>| #[trigger] closed_under(pairs@, c) implies forall|a: int, b: int|
                0 <= a < n && 0 <= b < n && #[trigger] c.contains(a) ==> #[trigger] c.contains(b) by {
                assert forall|a: int, b: int| 0 <= a < n && 0 <= b < n && #[trigger] c.contains(a) implies #[trigger] c.contains(b) by {
                    assert(uf.same_set(a, b));
                }
            }
        }
    }
    uf.group_count() == 1
}

/// The symbols of each string slice.
pub open spec fn str_views(v: Seq<&str>) -> Seq<Seq<char>> {
    v.map_values(|x: &str| x@)
}

/// `i` is the first position of `vs` that holds `x`.
pub open spec fn is_first_index(vs: Seq<Seq<char>>, x: Seq<char>, i: int) -> bool {
    &&& 0 <= i < vs.len()
    &&& vs[i] == x
    &&& forall|j: int| 0 <= j < i ==> vs[j] != x
}

/// `pairs` joins, for each edge string, the first vertex that equals the edge without its
/// last symbol to the first vertex that equals the edge without its first symbol.
pub open spec fn endpoints(edges: Seq<Seq<char>>, vs: Seq<Seq<char>>, pairs: Seq<(usize, usize)>) -> bool {
    &&& pairs.len() == edges.len()
    &&& forall|i: int| 0 <= i < edges.len() ==> {
        &&& is_first_index(vs, edges[i].drop_last(), (#[trigger] pairs[i]).0 as int)
        &&& is_first_index(vs, edges[i].drop_first(), pairs[i].1 as int)
    }
}

/// The first vertex that equals `x[start..start + len]`.
fn first_match(vs: &Vec<Vec<char>>, x: &Vec<char>, start: usize, len: usize) -> (r: Option<usize>)
    requires
        start + len <= x.len(),
    ensures
        match r {
            Some(i) => is_first_index(views(vs@), x@.subrange(start as int, start + len), i as int),
            None => !views(vs@).contains(x@.subrange(start as int, start + len)),
        },
{
    let ghost target = x@.subrange(start as int, start + len);
    let mut i: usize = 0;
    while i < vs.len()
        invariant
            start + len <= x.len(),
            target == x@.subrange(start as int, start + len),
            i <= vs.len(),
            forall|j: int| 0 <= j < i ==> (#[trigger] views(vs@)[j]) != target,
        decreases vs.len() - i,
    {
        if vs[i].len() == len && eq_range(&vs[i], 0, x, start, len) {
            assert(vs@[i as int]@.subrange(0, len as int) =~= vs@[i as int]@);
            return Some(i);
        }
        assert(target.len() == len);
        if vs[i].len() == len {
            assert(vs@[i as int]@.subrange(0, len as int) =~= vs@[i as int]@);
        }
        assert(views(vs@)[i as int] != target);
        i += 1;
    }
    None
}

/// Whether the edges `z_graph` connect all of `vertices`, an edge joining the vertex equal
/// to its symbols but the last with the vertex equal to its symbols but the first.
pub fn check_if_connected(z_graph: &[&str], vertices: &[&str]) -> (r: bool)
    requires
        vertices@.len() <= i32::MAX,
        forall|i: int| 0 <= i < z_graph@.len() ==> {
            let e = (#[trigger] z_graph@[i])@;
            &&& e.len() >= 1
            &&& str_views(vertices@).contains(e.drop_last())
            &&& str_views(vertices@).contains(e.drop_first())
        },
    ensures
        exists|pairs: Seq<(usize, usize)>|
            endpoints(str_views(z_graph@), str_views(vertices@), pairs)
            && r == connected_spec(vertices@.len(), pairs),
{
    let mut vs: Vec<Vec<char>> = Vec::new();
    let mut j: usize = 0;
    while j < vertices.len()
        invariant
            j <= vertices@.len(),
            views(vs@) == str_views(vertices@).subrange(0, j as int),
        decreases vertices@.len() - j,
    {
        let v = chars_of(vertices[j]);
        proof {
            assert(views(vs@.push(v)) =~= views(vs@).push(v@));
        }
        vs.push(v);
        proof {
            assert(str_views(vertices@).subrange(0, j + 1) =~= str_views(vertices@).subrange(0, j as int).push(vertices@[j as int]@));
        }
        j += 1;
    }
    assert(str_views(vertices@).subrange(0, vertices@.len() as int) =~= str_views(vertices@));
    let mut pairs: Vec<(usize, usize)> = Vec::new();
    let mut i: usize = 0;
    while i < z_graph.len()
        invariant
            views(vs@) == str_views(vertices@),
            vertices@.len() <= i32::MAX,
            forall|t: int| 0 <= t < z_graph@.len() ==> {
                let e = (#[trigger] z_graph@[t])@;
                &&& e.len() >= 1
                &&& str_views(vertices@).contains(e.drop_last())
                &&& str_views(vertices@).contains(e.drop_first())
            },
            i <= z_graph@.len(),
            endpoints(str_views(z_graph@).subrange(0, i as int), str_views(vertices@), pairs@),
            forall|t: int| 0 <= t < pairs.len() ==> (#[trigger] pairs@[t]).0 < vertices@.len() && pairs@[t].1 < vertices@.len(),
        decreases z_graph@.len() - i,
    {
        let e = chars_of(z_graph[i]);
        let ghost ev = z_graph@[i as int]@;
        assert(e@.subrange(0, e.len() - 1) =~= ev.drop_last());
        assert(e@.subrange(1, e.len() as int) =~= ev.drop_first());
        let fr = first_match(&vs, &e, 0, e.len() - 1);
        let to = first_match(&vs, &e, 1, e.len() - 1);
        match (fr, to) {
            (Some(a), Some(b)) => {
                pairs.push((a, b));
            },
            _ => {
                assert(false);
                return false;
            },
        }
        proof {
            assert(str_views(z_graph@).subrange(0, i + 1) =~= str_views(z_graph@).subrange(0, i as int).push(ev));
        }
        i += 1;
    }
    assert(str_views(z_graph@).subrange(0, z_graph@.len() as int) =~= str_views(z_graph@));
    connected(vertices.len(), &pairs)
}

/// How many distinct sets of last edges the search tries before it gives up.
pub const MAX_ATTEMPTS: usize = 1000;

/// How many repeated draws of an already tried set the search tolerates in all.
pub const MAX_REPEATS: usize = 100000;

/// Why no permutation was produced.
#[derive(Debug, Clone, Copy, PartialEq, Eq)]
pub enum PermutationError {
    /// No set of last edges that connects the graph came up within the attempt budget.
    SearchExhausted,
    /// The reconstruction walk did not use every edge once and end at the final vertex.
    InvariantViolated,
}

/// The vertex labelled with the (k-1)-symbol string at position `p`.
pub open spec fn vertex_index(g: EdgeOrdering, s: Seq<char>, k: nat, p: int) -> int {
    choose|v: int| 0 <= v < g.labels.len() && g.vertex(s, k, v) == label(s, k, p)
}

/// No (k-1)-symbol string of `s` starts two k-lets: each vertex of the overlap multigraph
/// has at most one outgoing edge, so the random draws and shuffles have a single outcome.
pub open spec fn single_exits(s: Seq<char>, k: nat) -> bool {
    forall|i: int, j: int| 0 <= i < j <= s.len() - k ==> #[trigger] label(s, k, i) != #[trigger] label(s, k, j)
}

/// Each list holds exactly the k-lets of its vertex in the graph, in their original order.
pub open spec fn same_lists(g: EdgeOrdering, lists: Seq<Vec<usize>>) -> bool {
    &&& lists.len() == g.edges.len()
    &&& forall|v: int| 0 <= v < lists.len() ==> (#[trigger] lists[v])@ == g.edges@[v]@
}

/// The vertex with the label at `p` is the one `vertex_index` names.
pub proof fn lemma_vertex_index(g: EdgeOrdering, s: Seq<char>, k: nat, p: int, v: int)
    requires
        g.models(s, k),
        0 <= v < g.labels.len(),
        g.vertex(s, k, v) == label(s, k, p),
    ensures
        v == vertex_index(g, s, k, p),
{
    let w = vertex_index(g, s, k, p);
    if v != w {
        if v < w {
            assert(g.vertex(s, k, v) != g.vertex(s, k, w));
        } else {
            assert(g.vertex(s, k, w) != g.vertex(s, k, v));
        }
    }
}

/// With single exits, the vertex of the label at each k-let start `i` lists exactly `i`,
/// and no vertex lists more than one k-let.
pub proof fn lemma_forced_edges(g: EdgeOrdering, s: Seq<char>, k: nat)
    requires
        g.models(s, k),
        single_exits(s, k),
        s.len() <= usize::MAX,
    ensures
        forall|v: int| 0 <= v < g.edges.len() ==> (#[trigger] g.edges@[v]).len() <= 1,
        forall|i: int| 0 <= i <= s.len() - k ==> {
            &&& 0 <= #[trigger] vertex_index(g, s, k, i) < g.labels.len()
            &&& g.edges@[vertex_index(g, s, k, i)]@ == seq![i as usize]
        },
{
    assert forall|v: int| 0 <= v < g.edges.len() implies (#[trigger] g.edges@[v]).len() <= 1 by {
        if g.edges@[v].len() > 1 {
            let e0 = g.edges@[v]@[0];
            let e1 = g.edges@[v]@[1];
            assert(label(s, k, e0 as int) == g.vertex(s, k, v));
            assert(label(s, k, e1 as int) == g.vertex(s, k, v));
        }
    }
    assert forall|i: int| 0 <= i <= s.len() - k implies {
        &&& 0 <= #[trigger] vertex_index(g, s, k, i) < g.labels.len()
        &&& g.edges@[vertex_index(g, s, k, i)]@ == seq![i as usize]
    } by {
        assert(g.holds_edge(i));
        let w = choose|w: int| 0 <= w < g.edges.len() && g.edges@[w]@.contains(i as usize);
        let t = choose|t: int| 0 <= t < g.edges@[w]@.len() && g.edges@[w]@[t] == i as usize;
        assert(label(s, k, g.edges@[w]@[t] as int) == g.vertex(s, k, w));
        lemma_vertex_index(g, s, k, i, w);
        assert(g.edges@[w].len() <= 1);
        assert(g.edges@[w]@ =~= seq![i as usize]);
    }
}

/// With single exits, a closed set of vertices holds the vertex of the label at `i` exactly
/// when it holds `sf`, as long as every vertex but `sf` has its one k-let drawn.
proof fn lemma_chain(
    g: EdgeOrdering,
    s: Seq<char>,
    k: nat,
    draw: Seq<Option<usize>>,
    pairs: Seq<(usize, usize)>,
    sf: int,
    c: Set<int>,
    i: int,
)
    requires
        g.models(s, k),
        2 <= k,
        single_exits(s, k),
        s.len() <= usize::MAX,
        picked(&g, s, k, draw, pairs),
        draw.len() == g.labels.len(),
        forall|v: int| 0 <= v < draw.len() && v != sf && g.edges@[v].len() == 1 ==> #[trigger] draw[v] == Some(g.edges@[v]@[0]),
        sf == vertex_index(g, s, k, s.len() - (k - 1)),
        closed_under(pairs, c),
        0 <= i <= s.len() - (k - 1),
    ensures
        c.contains(vertex_index(g, s, k, i)) <==> c.contains(sf),
    decreases s.len() - (k - 1) - i,
{
    lemma_forced_edges(g, s, k);
    if i < s.len() - (k - 1) {
        lemma_chain(g, s, k, draw, pairs, sf, c, i + 1);
        let v = vertex_index(g, s, k, i);
        if v != sf {
            assert(g.edges@[v]@ == seq![i as usize]);
            assert(draw[v] == Some(i as usize));
            let x = pairs[v].1 as int;
            assert(g.vertex(s, k, x) == label(s, k, i + 1));
            lemma_vertex_index(g, s, k, i + 1, x);
            assert(pairs[v].0 == v);
            assert(c.contains(pairs[v].0 as int) <==> c.contains(pairs[v].1 as int));
        }
    }
}

/// With single exits, the last edges drawn for every vertex but `sf` connect the graph.
pub proof fn lemma_forced_connected(g: EdgeOrdering, s: Seq<char>, k: nat, draw: Seq<Option<usize>>, pairs: Seq<(usize, usize)>, sf: int)
    requires
        g.models(s, k),
        2 <= k,
        single_exits(s, k),
        s.len() <= usize::MAX,
        picked(&g, s, k, draw, pairs),
        draw.len() == g.labels.len(),
        forall|v: int| 0 <= v < draw.len() && v != sf && g.edges@[v].len() == 1 ==> #[trigger] draw[v] == Some(g.edges@[v]@[0]),
        sf == vertex_index(g, s, k, s.len() - (k - 1)),
    ensures
        connected_spec(g.labels.len() as nat, pairs),
{
    let n = g.labels.len();
    let w = choose|w: int| 0 <= w < g.labels.len() && g.vertex(s, k, w) == label(s, k, s.len() - (k - 1));
    assert(n > 0);
    assert forall|c: Set<int>| #[trigger] closed_under(pairs, c) implies forall|a: int, b: int|
        0 <= a < n && 0 <= b < n && #[trigger] c.contains(a) ==> #[trigger] c.contains(b) by {
        assert forall|v: int| 0 <= v < n implies (c.contains(v) <==> c.contains(sf)) by {
            let p = g.labels@[v] as int;
            lemma_vertex_index(g, s, k, p, v);
            lemma_chain(g, s, k, draw, pairs, sf, c, p);
        }
    }
}

/// Where the walk stands after at most `fuel` more steps from vertex `cur` with the list
/// positions `cursor`: each step leaves the current vertex by the next unused edge of its
/// list and moves to the vertex of that edge's last k-1 symbols; the walk stops early at
/// a vertex whose list is used up.
pub open spec fn walk_end(
    g: EdgeOrdering,
    s: Seq<char>,
    k: nat,
    lists: Seq<Seq<usize>>,
    cursor: Seq<int>,
    cur: int,
    fuel: nat,
) -> (Seq<int>, int)
    decreases fuel,
{
    if fuel == 0 || !(0 <= cur < cursor.len() && cur < lists.len()) || cursor[cur] >= lists[cur].len() {
        (cursor, cur)
    } else {
        let e = lists[cur][cursor[cur]];
        walk_end(g, s, k, lists, cursor.update(cur, cursor[cur] + 1), vertex_index(g, s, k, e + 1), (fuel - 1) as nat)
    }
}

/// The symbols that the walk of [`walk_end`] writes down on its way: the last symbol of
/// each edge it takes, in order.
pub open spec fn walk_symbols_from(
    g: EdgeOrdering,
    s: Seq<char>,
    k: nat,
    lists: Seq<Seq<usize>>,
    cursor: Seq<int>,
    cur: int,
    fuel: nat,
) -> Seq<char>
    decreases fuel,
{
    if fuel == 0 || !(0 <= cur < cursor.len() && cur < lists.len()) || cursor[cur] >= lists[cur].len() {
        Seq::empty()
    } else {
        let e = lists[cur][cursor[cur]];
        seq![s[e + k - 1]] + walk_symbols_from(
            g,
            s,
            k,
            lists,
            cursor.update(cur, cursor[cur] + 1),
            vertex_index(g, s, k, e + 1),
            (fuel - 1) as nat,
        )
    }
}

/// The symbols written by the walk over `lists` from the vertex of the first k-1 symbols,
/// one step per k-let at most.
pub open spec fn walk_symbols(g: EdgeOrdering, s: Seq<char>, k: nat, lists: Seq<Seq<usize>>) -> Seq<char> {
    walk_symbols_from(
        g,
        s,
        k,
        lists,
        Seq::new(lists.len(), |w: int| 0int),
        vertex_index(g, s, k, 0),
        (s.len() - k + 1) as nat,
    )
}

/// The walk over `lists` that starts at the vertex of the first k-1 symbols and may take
/// one step per k-let ends at vertex `sf` with every list used up.
pub open spec fn walk_succeeds(g: EdgeOrdering, s: Seq<char>, k: nat, lists: Seq<Seq<usize>>, sf: int) -> bool {
    let (c, v) = walk_end(
        g,
        s,
        k,
        lists,
        Seq::new(lists.len(), |w: int| 0int),
        vertex_index(g, s, k, 0),
        (s.len() - k + 1) as nat,
    );
    &&& v == sf
    &&& forall|w: int| 0 <= w < lists.len() ==> #[trigger] c[w] == lists[w].len()
}

/// The vertex labelled with the (k-1)-symbol string at `p`, which exists whenever `p`
/// starts a k-let or the final (k-1)-symbol suffix.
pub fn vertex_at(g: &EdgeOrdering, s: &Vec<char>, k: usize, p: usize) -> (v: usize)
    requires
        g.models(s@, k as nat),
        p <= s.len() - k || p == s.len() - (k - 1),
    ensures
        v < g.labels.len(),
        g.vertex(s@, k as nat, v as int) == label(s@, k as nat, p as int),
        v == vertex_index(*g, s@, k as nat, p as int),
{
    proof {
        assert forall|w: int| 0 <= w < g.labels.len() implies #[trigger] g.labels@[w] + k - 1 <= s.len() by {
            let q = g.labels@[w];
        }
    }
    match g.vertex_of(s, k, p) {
        Some(v) => {
            proof {
                let w = vertex_index(*g, s@, k as nat, p as int);
                if v as int != w {
                    if (v as int) < w {
                        assert(g.vertex(s@, k as nat, v as int) != g.vertex(s@, k as nat, w));
                    } else {
                        assert(g.vertex(s@, k as nat, w) != g.vertex(s@, k as nat, v as int));
                    }
                }
            }
            v
        },
        None => {
            // cannot happen: the label at `p` is some vertex's label
            proof {
                if p <= s.len() - k {
                    assert(g.holds_edge(p as int));
                    let w = choose|w: int| 0 <= w < g.edges.len() && g.edges@[w]@.contains(p);
                    let t = choose|t: int| 0 <= t < g.edges@[w]@.len() && g.edges@[w]@[t] == p;
                    assert(label(s@, k as nat, g.edges@[w]@[t] as int) == g.vertex(s@, k as nat, w));
                } else {
                    let w = choose|w: int| 0 <= w < g.labels.len() && g.vertex(s@, k as nat, w) == label(s@, k as nat, s.len() - (k - 1));
                    assert(g.vertex(s@, k as nat, w) != label(s@, k as nat, p as int));
                }
            }
            0
        },
    }
}

/// Whether two draws of last edges are the same.
fn same_draw(a: &Vec<Option<usize>>, b: &Vec<Option<usize>>) -> (r: bool)
    ensures
        r == (a@ == b@),
{
    if a.len() != b.len() {
        return false;
    }
    let mut i: usize = 0;
    while i < a.len()
        invariant
            a.len() == b.len(),
            i <= a.len(),
            forall|t: int| 0 <= t < i ==> a@[t] == b@[t],
        decreases a.len() - i,
    {
        let same = match (a[i], b[i]) {
            (Some(x), Some(y)) => x == y,
            (None, None) => true,
            _ => false,
        };
        if !same {
            return false;
        }
        i += 1;
    }
    assert(a@ =~= b@);
    true
}

/// Whether `draw` was tried before.
fn seen_before(seen: &Vec<Vec<Option<usize>>>, draw: &Vec<Option<usize>>) -> (r: bool)
    ensures
        r == exists|t: int| 0 <= t < seen.len() && (#[trigger] seen@[t])@ == draw@,
{
    let mut i: usize = 0;
    while i < seen.len()
        invariant
            i <= seen.len(),
            forall|t: int| 0 <= t < i ==> (#[trigger] seen@[t])@ != draw@,
        decreases seen.len() - i,
    {
        if same_draw(&seen[i], draw) {
            assert(seen@[i as int]@ == draw@);
            return true;
        }
        i += 1;
    }
    false
}

/// `pairs` is the edge set that `draw` picks: for each vertex `v` with a drawn k-let `e`,
/// the pair of `v` and the vertex labelled with the k-1 symbols after position `e`; a
/// vertex with no drawn k-let gets a self-loop, which leaves connectivity unchanged.
pub open spec fn picked(g: &EdgeOrdering, s: Seq<char>, k: nat, draw: Seq<Option<usize>>, pairs: Seq<(usize, usize)>) -> bool {
    &&& pairs.len() == draw.len()
    &&& forall|v: int| 0 <= v < draw.len() ==> match #[trigger] draw[v] {
        Some(e) => pairs[v].0 == v && pairs[v].1 < g.labels.len()
            && g.vertex(s, k, pairs[v].1 as int) == label(s, k, e + 1),
        None => pairs[v] == (v as usize, v as usize),
    }
}

/// The edge set that `draw` picks (see [`picked`]).
pub fn picked_pairs(g: &EdgeOrdering, s: &Vec<char>, k: usize, draw: &Vec<Option<usize>>) -> (pairs: Vec<(usize, usize)>)
    requires
        g.models(s@, k as nat),
        draw.len() == g.labels.len(),
        forall|v: int| 0 <= v < draw.len() ==> (#[trigger] draw@[v] matches Some(e) ==> e <= s.len() - k),
    ensures
        picked(g, s@, k as nat, draw@, pairs@),
        forall|i: int| 0 <= i < pairs.len() ==> (#[trigger] pairs@[i]).0 < g.labels.len() && pairs@[i].1 < g.labels.len(),
{
    let mut pairs: Vec<(usize, usize)> = Vec::new();
    let mut v: usize = 0;
    while v < draw.len()
        invariant
            g.models(s@, k as nat),
            draw.len() == g.labels.len(),
            forall|w: int| 0 <= w < draw.len() ==> (#[trigger] draw@[w] matches Some(e) ==> e <= s.len() - k),
            v <= draw.len(),
            pairs.len() == v,
            forall|w: int| 0 <= w < v ==> match #[trigger] draw@[w] {
                Some(e) => pairs@[w].0 == w && pairs@[w].1 < g.labels.len()
                    && g.vertex(s@, k as nat, pairs@[w].1 as int) == label(s@, k as nat, e + 1),
                None => pairs@[w] == (w as usize, w as usize),
            },
            forall|i: int| 0 <= i < pairs.len() ==> (#[trigger] pairs@[i]).0 < g.labels.len() && pairs@[i].1 < g.labels.len(),
        decreases draw.len() - v,
    {
        match draw[v] {
            Some(e) => {
                let w = vertex_at(g, s, k, e + 1);
                pairs.push((v, w));
            },
            None => {
                pairs.push((v, v));
            },
        }
        v += 1;
    }
    pairs
}

/// One random candidate last edge for every vertex but `sf`, drawn from its own edges.
fn draw_last_edges(g: &EdgeOrdering, sf: usize) -> (draw: Vec<Option<usize>>)
    requires
        g.labels.len() == g.edges.len(),
    ensures
        draw.len() == g.labels.len(),
        draw@[sf as int] is None || sf >= g.labels.len(),
        forall|v: int| 0 <= v < draw.len() ==> (#[trigger] draw@[v] matches Some(e) ==> g.edges@[v]@.contains(e)),
        forall|v: int| 0 <= v < draw.len() && v != sf ==> (#[trigger] draw@[v] is None <==> g.edges@[v].len() == 0),
{
    let mut draw: Vec<Option<usize>> = Vec::new();
    let mut v: usize = 0;
    while v < g.edges.len()
        invariant
            g.labels.len() == g.edges.len(),
            v <= g.edges.len(),
            draw.len() == v,
            sf < v ==> draw@[sf as int] is None,
            forall|w: int| 0 <= w < draw.len() ==> (#[trigger] draw@[w] matches Some(e) ==> g.edges@[w]@.contains(e)),
            forall|w: int| 0 <= w < draw.len() && w != sf ==> (#[trigger] draw@[w] is None <==> g.edges@[w].len() == 0),
        decreases g.edges.len() - v,
    {
        if v == sf {
            draw.push(None);
        } else {
            draw.push(choose_one(&g.edges[v]));
        }
        v += 1;
    }
    draw
}

/// Searches for a random set of last edges, one per vertex but `sf`, that connects the
/// graph. Every draw is random; a repeated one is not tested again. When no vertex has two
/// k-lets, the one possible draw connects the graph and is found at once.
fn search_last_edges(g: &EdgeOrdering, s: &Vec<char>, k: usize, sf: usize) -> (r: Option<Vec<Option<usize>>>)
    requires
        g.models(s@, k as nat),
        g.labels.len() <= i32::MAX,
        sf < g.labels.len(),
        sf == vertex_index(*g, s@, k as nat, s.len() - (k - 1)),
        2 <= k,
    ensures
        single_exits(s@, k as nat) ==> r is Some,
        r matches Some(draw) ==> {
            &&& draw.len() == g.labels.len()
            &&& draw@[sf as int] is None
            &&& forall|v: int| 0 <= v < draw.len() ==> (#[trigger] draw@[v] matches Some(e) ==> g.edges@[v]@.contains(e))
            &&& exists|pairs: Seq<(usize, usize)>| picked(g, s@, k as nat, draw@, pairs)
                && connected_spec(g.labels.len() as nat, pairs)
        },
{
    let mut seen: Vec<Vec<Option<usize>>> = Vec::new();
    let mut attempts: usize = MAX_ATTEMPTS;
    let mut repeats: usize = MAX_REPEATS;
    while attempts > 0 && repeats > 0
        invariant
            g.models(s@, k as nat),
            g.labels.len() <= i32::MAX,
            sf < g.labels.len(),
            sf == vertex_index(*g, s@, k as nat, s.len() - (k - 1)),
            2 <= k,
            single_exits(s@, k as nat) ==> seen.len() == 0 && attempts == MAX_ATTEMPTS && repeats == MAX_REPEATS,
        decreases attempts + repeats,
    {
        let draw = draw_last_edges(g, sf);
        if seen_before(&seen, &draw) {
            repeats -= 1;
        } else {
            proof {
                assert forall|v: int| 0 <= v < draw.len() implies (#[trigger] draw@[v] matches Some(e) ==> e <= s.len() - k) by {
                    if let Some(e) = draw@[v] {
                        let t = choose|t: int| 0 <= t < g.edges@[v]@.len() && g.edges@[v]@[t] == e;
                        let x = g.edges@[v]@[t];
                    }
                }
            }
            let pairs = picked_pairs(g, s, k, &draw);
            proof {
                if single_exits(s@, k as nat) {
                    lemma_forced_edges(*g, s@, k as nat);
                    assert forall|v: int| 0 <= v < draw.len() && v != sf && g.edges@[v].len() == 1 implies #[trigger] draw@[v] == Some(g.edges@[v]@[0]) by {
                        let e = draw@[v]->Some_0;
                        assert(g.edges@[v]@.contains(e));
                    }
                    lemma_forced_connected(*g, s@, k as nat, draw@, pairs@, sf as int);
                }
            }
            if connected(g.labels.len(), &pairs) {
                return Some(draw);
            }
            seen.push(draw);
            attempts -= 1;
        }
    }
    None
}

/// A copy of `v`.
fn copy_list(v: &Vec<usize>) -> (r: Vec<usize>)
    ensures
        r@ == v@,
{
    let mut r: Vec<usize> = Vec::new();
    let mut i: usize = 0;
    while i < v.len()
        invariant
            i <= v.len(),
            r@ == v@.subrange(0, i as int),
        decreases v.len() - i,
    {
        r.push(v[i]);
        i += 1;
    }
    assert(v@.subrange(0, v.len() as int) =~= v@);
    r
}

/// Each vertex's edges in random order, the drawn last edge of the vertex (if any) moved
/// to the end.
fn arrange_edges(g: &EdgeOrdering, draw: &Vec<Option<usize>>) -> (lists: Vec<Vec<usize>>)
    requires
        g.labels.len() == g.edges.len(),
        draw.len() == g.edges.len(),
        forall|v: int| 0 <= v < draw.len() ==> (#[trigger] draw@[v] matches Some(e) ==> g.edges@[v]@.contains(e)),
    ensures
        lists.len() == g.edges.len(),
        forall|v: int| 0 <= v < lists.len() ==> (#[trigger] lists@[v])@.to_multiset() == g.edges@[v]@.to_multiset(),
        forall|v: int| 0 <= v < lists.len() ==> (#[trigger] draw@[v] matches Some(e) ==> lists@[v].len() > 0 && lists@[v]@.last() == e),
{
    let mut lists: Vec<Vec<usize>> = Vec::new();
    let mut v: usize = 0;
    while v < g.edges.len()
        invariant
            draw.len() == g.edges.len(),
            forall|w: int| 0 <= w < draw.len() ==> (#[trigger] draw@[w] matches Some(e) ==> g.edges@[w]@.contains(e)),
            v <= g.edges.len(),
            lists.len() == v,
            forall|w: int| 0 <= w < v ==> (#[trigger] lists@[w])@.to_multiset() == g.edges@[w]@.to_multiset(),
            forall|w: int| 0 <= w < v ==> (#[trigger] draw@[w] matches Some(e) ==> lists@[w].len() > 0 && lists@[w]@.last() == e),
        decreases g.edges.len() - v,
    {
        let mut list = copy_list(&g.edges[v]);
        match draw[v] {
            Some(e) => {
                let ghost orig = list@;
                let mut pos: usize = 0;
                while pos < list.len() && list[pos] != e
                    invariant
                        list@ == orig,
                        orig.contains(e),
                        pos <= list.len(),
                        forall|t: int| 0 <= t < pos ==> list@[t] != e,
                    decreases list.len() - pos,
                {
                    pos += 1;
                }
                if pos == list.len() {
                    // cannot happen: the drawn edge is in the list
                    proof {
                        let t = choose|t: int| 0 <= t < orig.len() && orig[t] == e;
                        assert(list@[t] == e);
                    }
                    lists.push(list);
                    v += 1;
                    continue;
                }
                let picked = list.remove(pos);
                proof {
                    assert(orig.remove(pos as int) == list@);
                    assert(list@.to_multiset() =~= orig.to_multiset().remove(e));
                }
                shuffle(&mut list);
                list.push(picked);
                proof {
                    assert(orig.to_multiset().count(e) > 0);
                    assert(list@.to_multiset() =~= orig.to_multiset());
                }
            },
            None => {
                shuffle(&mut list);
            },
        }
        lists.push(list);
        v += 1;
    }
    lists
}

/// Walks the graph from the vertex of the first k-1 symbols, each time leaving the current
/// vertex by the next unused edge of its list and writing down that edge's last symbol,
/// until the current vertex has no unused edge. `None` when the walk does not end at
/// vertex `sf` with every edge used; otherwise the walk used every k-let of `s` once, so
/// the result has the length of `s` and its j-lets for every `j <= k`. When no vertex has
/// two k-lets and the lists are the graph's own, the walk retraces `s`.
pub fn walk(g: &EdgeOrdering, s: &Vec<char>, k: usize, lists: &Vec<Vec<usize>>, sf: usize) -> (r: Option<Vec<char>>)
    requires
        g.models(s@, k as nat),
        2 <= k,
        lists.len() == g.labels.len(),
        forall|v: int, t: int| 0 <= v < lists.len() && 0 <= t < lists@[v].len() ==> {
            let e = #[trigger] lists@[v]@[t];
            e <= s.len() - k && label(s@, k as nat, e as int) == g.vertex(s@, k as nat, v)
        },
        forall|v: int| 0 <= v < lists.len() ==> (#[trigger] lists@[v])@.to_multiset() == g.edges@[v]@.to_multiset(),
        sf < g.labels.len(),
        g.vertex(s@, k as nat, sf as int) == label(s@, k as nat, s.len() - (k - 1)),
    ensures
        r is Some <==> walk_succeeds(*g, s@, k as nat, list_views(lists@), sf as int),
        r matches Some(out) ==> out@ == s@.subrange(0, k - 1) + walk_symbols(*g, s@, k as nat, list_views(lists@)),
        single_exits(s@, k as nat) && same_lists(*g, lists@) ==> (r matches Some(out) && out@ == s@),
        r matches Some(out) ==> {
            &&& out.len() == s.len()
            &&& out@.subrange(0, k - 1) == s@.subrange(0, k - 1)
            &&& forall|j: nat| 1 <= j <= k ==> #[trigger] same_klets_spec(s@, out@, j)
        },
{
    let n = s.len();
    let mut out: Vec<char> = Vec::new();
    let mut i: usize = 0;
    while i < k - 1
        invariant
            k <= n == s.len(),
            i <= k - 1,
            out@ == s@.subrange(0, i as int),
        decreases k - 1 - i,
    {
        out.push(s[i]);
        i += 1;
    }
    let nv = lists.len();
    let mut cursor: Vec<usize> = vec![0; nv];
    let mut cur = vertex_at(g, s, k, 0);
    let ghost lv = list_views(lists@);
    let ghost zeros = cursors(cursor@);
    let ghost total = rest(lv, zeros, nv as int);
    let ghost mut used: Seq<usize> = Seq::empty();
    proof {
        assert(out@.subrange(out.len() - (k - 1), out.len() as int) =~= g.vertex(s@, k as nat, cur as int));
        assert(used.to_multiset().add(rest(lv, cursors(cursor@), nv as int)) =~= total);
    }
    let total_steps = n - k + 1;
    let mut steps: usize = 0;
    let ghost start = cur as int;
    assert(zeros =~= Seq::new(lv.len(), |w: int| 0int));
    proof {
        if single_exits(s@, k as nat) && same_lists(*g, lists@) {
            lemma_forced_edges(*g, s@, k as nat);
            assert(out@ =~= s@.subrange(0, k - 1 + 0));
        }
        if single_exits(s@, k as nat) && same_lists(*g, lists@) && (total_steps > 0) {
            lemma_forced_edges(*g, s@, k as nat);
            assert(lists@[cur as int]@ == seq![0usize]);
        }
    }
    while steps < total_steps && cursor[cur] < lists[cur].len()
        invariant
            walk_end(*g, s@, k as nat, lv, zeros, start, total_steps as nat)
                == walk_end(*g, s@, k as nat, lv, cursors(cursor@), cur as int, (total_steps - steps) as nat),
            out@ + walk_symbols_from(*g, s@, k as nat, lv, cursors(cursor@), cur as int, (total_steps - steps) as nat)
                == s@.subrange(0, k - 1) + walk_symbols_from(*g, s@, k as nat, lv, zeros, start, total_steps as nat),
            zeros == Seq::new(lv.len(), |w: int| 0int),
            start == vertex_index(*g, s@, k as nat, 0),
            steps <= total_steps,
            single_exits(s@, k as nat) && same_lists(*g, lists@) ==> {
                &&& cur == vertex_index(*g, s@, k as nat, steps as int)
                &&& out@ == s@.subrange(0, k - 1 + steps)
                &&& forall|v: int| 0 <= v < nv ==> #[trigger] cursor@[v] as int == if lists@[v].len() == 1
                    && lists@[v]@[0] < steps { 1int } else { 0int }
            },
            g.models(s@, k as nat),
            2 <= k,
            n == s.len(),
            total_steps == n - k + 1,
            nv == lists.len() == g.labels.len(),
            forall|v: int, t: int| 0 <= v < lists.len() && 0 <= t < lists@[v].len() ==> {
                let e = #[trigger] lists@[v]@[t];
                e <= s.len() - k && label(s@, k as nat, e as int) == g.vertex(s@, k as nat, v)
            },
            lv == list_views(lists@),
            cursor.len() == nv,
            cur < nv,
            forall|v: int| 0 <= v < nv ==> #[trigger] cursor@[v] <= lists@[v].len(),
            out.len() == k - 1 + used.len(),
            steps == used.len(),
            out@.subrange(0, k - 1) == s@.subrange(0, k - 1),
            out@.subrange(out.len() - (k - 1), out.len() as int) == g.vertex(s@, k as nat, cur as int),
            forall|t: int| 0 <= t < used.len() ==> window(out@, t, k as nat) == window(s@, #[trigger] used[t] as int, k as nat),
            used.to_multiset().add(rest(lv, cursors(cursor@), nv as int)) == total,
        decreases total_steps - steps,
    {
        let c = cursor[cur];
        let e = lists[cur][c];
        let ghost before = out@;
        let ghost old_cursor = cursor@;
        cursor.set(cur, c + 1);
        out.push(s[e + k - 1]);
        let ghost old_cur = cur;
        cur = vertex_at(g, s, k, e + 1);
        proof {
            if single_exits(s@, k as nat) && same_lists(*g, lists@) {
                lemma_forced_edges(*g, s@, k as nat);
                assert(lists@[old_cur as int]@ == seq![steps as usize]);
                assert(e == steps);
                assert(out@ =~= s@.subrange(0, k - 1 + steps + 1));
                assert forall|v: int| 0 <= v < nv implies #[trigger] cursor@[v] as int == if lists@[v].len() == 1
                    && lists@[v]@[0] < steps + 1 { 1int } else { 0int } by {
                    if v != old_cur && lists@[v].len() == 1 && lists@[v]@[0] == steps {
                        assert(lists@[v]@ == g.edges@[v]@);
                        assert(label(s@, k as nat, g.edges@[v]@[0] as int) == g.vertex(s@, k as nat, v));
                        lemma_vertex_index(*g, s@, k as nat, steps as int, v);
                    }
                }
                if steps + 1 < total_steps {
                    assert(lists@[cur as int]@ == seq![(steps + 1) as usize]);
                }
            }
            let m = before.len();
            assert(lv[old_cur as int] == lists@[old_cur as int]@);
            assert(cursors(cursor@) =~= cursors(old_cursor).update(old_cur as int, c + 1));
            let fuel = (total_steps - steps) as nat;
            assert(walk_symbols_from(*g, s@, k as nat, lv, cursors(old_cursor), old_cur as int, fuel)
                == seq![s@[e + k - 1]] + walk_symbols_from(*g, s@, k as nat, lv, cursors(cursor@), cur as int, (fuel - 1) as nat));
            assert(out@ + walk_symbols_from(*g, s@, k as nat, lv, cursors(cursor@), cur as int, (fuel - 1) as nat)
                =~= before + (seq![s@[e + k - 1]] + walk_symbols_from(*g, s@, k as nat, lv, cursors(cursor@), cur as int, (fuel - 1) as nat)));
            lemma_rest_step(lv, cursors(old_cursor), old_cur as int, nv as int);
            assert(used.push(e).to_multiset().add(rest(lv, cursors(cursor@), nv as int)) =~= total);
            assert(label(s@, k as nat, e as int) == g.vertex(s@, k as nat, old_cur as int));
            assert(window(out@, used.len() as int, k as nat) =~= window(s@, e as int, k as nat)) by {
                assert forall|y: int| 0 <= y < k implies #[trigger] out@[used.len() + y] == s@[e + y] by {
                    if y < k - 1 {
                        assert(out@[used.len() + y] == before.subrange(m - (k - 1), m as int)[y]);
                        assert(label(s@, k as nat, e as int)[y] == s@[e + y]);
                    }
                }
            }
            assert forall|t: int| 0 <= t < used.len() implies window(out@, t, k as nat) == window(before, t, k as nat) by {
                assert(window(out@, t, k as nat) =~= window(before, t, k as nat));
            }
            assert(out@.subrange(out.len() - (k - 1), out.len() as int) =~= label(s@, k as nat, e + 1)) by {
                assert(out.len() == m + 1);
                assert forall|y: int| 0 <= y < k - 1 implies #[trigger] out@[out.len() - (k - 1) + y] == s@[e + 1 + y] by {
                    if y < k - 2 {
                        assert(out@[m - (k - 1) + (y + 1)] == before[m - (k - 1) + (y + 1)]);
                        assert(before[m - (k - 1) + (y + 1)] == before.subrange(m - (k - 1), m as int)[y + 1]);
                        assert(label(s@, k as nat, e as int)[y + 1] == s@[e + 1 + y]);
                    } else {
                        assert(out@[m as int] == s@[e + k - 1]);
                    }
                }
                assert forall|y: int| 0 <= y < k - 1 implies #[trigger] out@.subrange(out.len() - (k - 1), out.len() as int)[y] == label(s@, k as nat, e + 1)[y] by {
                    assert(out@[out.len() - (k - 1) + y] == s@[e + 1 + y]);
                }
            }
            assert(out@.subrange(0, k - 1) =~= before.subrange(0, k - 1));
            used = used.push(e);
            assert forall|t: int| 0 <= t < used.len() implies window(out@, t, k as nat) == window(s@, #[trigger] used[t] as int, k as nat) by {
                if t < used.len() - 1 {
                    assert(window(out@, t, k as nat) == window(before, t, k as nat));
                }
            }
        }
        steps += 1;
    }
    proof {
        assert(lv[cur as int] == lists@[cur as int]@);
        assert(cursors(cursor@).len() == nv);
        assert(lv.len() == nv);
        assert(cursors(cursor@)[cur as int] == cursor@[cur as int] as int);
        if single_exits(s@, k as nat) && same_lists(*g, lists@) {
            lemma_forced_edges(*g, s@, k as nat);
            if steps < total_steps {
                assert(lists@[cur as int]@ == seq![steps as usize]);
            }
            assert(steps == total_steps);
            lemma_vertex_index(*g, s@, k as nat, s.len() - (k - 1), sf as int);
            assert(cur == sf);
            assert(out@ =~= s@);
            assert forall|v: int| 0 <= v < nv implies #[trigger] cursor@[v] == lists@[v].len() by {
                if lists@[v].len() == 1 {
                    assert(lists@[v]@ == g.edges@[v]@);
                    let x = g.edges@[v]@[0];
                }
            }
        }
        if steps < total_steps {
            assert(cursor@[cur as int] >= lists@[cur as int].len());
            assert(cursors(cursor@)[cur as int] >= lv[cur as int].len());
        } else {
            assert((total_steps - steps) as nat == 0);
        }
        assert(walk_end(*g, s@, k as nat, lv, cursors(cursor@), cur as int, (total_steps - steps) as nat)
            == (cursors(cursor@), cur as int));
        assert(walk_symbols_from(*g, s@, k as nat, lv, cursors(cursor@), cur as int, (total_steps - steps) as nat)
            =~= Seq::<char>::empty());
        assert(out@ =~= out@ + Seq::<char>::empty());
        assert(lv.len() == lists.len());
        assert((s@.len() - k + 1) as nat == total_steps as nat);
        assert(out@ == s@.subrange(0, k - 1) + walk_symbols(*g, s@, k as nat, list_views(lists@)));
    }
    if cur != sf {
        proof {
            assert(lv.len() == lists.len());
            assert((s@.len() - k + 1) as nat == total_steps as nat);
            assert(walk_end(*g, s@, k as nat, lv, Seq::new(lv.len(), |w: int| 0int), vertex_index(*g, s@, k as nat, 0),
                (s@.len() - k + 1) as nat) == (cursors(cursor@), cur as int));
            assert(!walk_succeeds(*g, s@, k as nat, list_views(lists@), sf as int));
        }
        return None;
    }
    let mut v: usize = 0;
    while v < nv
        invariant
            walk_end(*g, s@, k as nat, lv, zeros, start, total_steps as nat) == (cursors(cursor@), cur as int),
            zeros == Seq::new(lv.len(), |w: int| 0int),
            start == vertex_index(*g, s@, k as nat, 0),
            total_steps == n - k + 1,
            n == s.len(),
            cur == sf,
            single_exits(s@, k as nat) && same_lists(*g, lists@) ==> {
                &&& out@ == s@
                &&& forall|w: int| 0 <= w < nv ==> #[trigger] cursor@[w] == lists@[w].len()
            },
            lv == list_views(lists@),
            nv == lists.len() == cursor.len(),
            v <= nv,
            forall|w: int| 0 <= w < v ==> #[trigger] cursor@[w] == lists@[w].len(),
        decreases nv - v,
    {
        if cursor[v] != lists[v].len() {
            proof {
                assert(cursors(cursor@)[v as int] != lv[v as int].len());
                assert(walk_end(*g, s@, k as nat, lv, Seq::new(lv.len(), |w: int| 0int), vertex_index(*g, s@, k as nat, 0),
                    (s@.len() - k + 1) as nat) == (cursors(cursor@), cur as int));
                assert(walk_end(*g, s@, k as nat, lv, Seq::new(lv.len(), |w: int| 0int), vertex_index(*g, s@, k as nat, 0),
                    (s@.len() - k + 1) as nat).0[v as int] != lv[v as int].len());
                assert(!walk_succeeds(*g, s@, k as nat, list_views(lists@), sf as int));
            }
            return None;
        }
        v += 1;
    }
    proof {
        assert forall|w: int| 0 <= w < lv.len() implies #[trigger] cursors(cursor@)[w] == lv[w].len() by {
            assert(cursor@[w] == lists@[w].len());
        }
    }
    proof {
        let l = (n - k + 1) as int;
        let ev = list_views(g.edges@);
        let ids = Seq::new(l as nat, |i: int| i as usize);
        lemma_rest_done(lv, cursors(cursor@), nv as int);
        assert(used.to_multiset() =~= total);
        assert forall|w: int| 0 <= w < nv implies #[trigger] lv[w].to_multiset() == ev[w].to_multiset() by {
            assert(lists@[w]@.to_multiset() == g.edges@[w]@.to_multiset());
        }
        lemma_rest_lists(lv, ev, zeros, nv as int);
        assert(ids.no_duplicates());
        ids.lemma_multiset_has_no_duplicates();
        assert forall|x: usize| total.count(x) == ids.to_multiset().count(x) by {
            lemma_rest_edges(*g, s@, k as nat, zeros, nv as int, x);
            if (x as int) < l {
                assert(g.holds_edge(x as int));
                assert(ids[x as int] == x);
                assert(ids.to_multiset().contains(x));
            } else {
                assert forall|w: int| 0 <= w < nv implies !#[trigger] g.edges@[w]@.contains(x) by {
                    if g.edges@[w]@.contains(x) {
                        let t = choose|t: int| 0 <= t < g.edges@[w]@.len() && g.edges@[w]@[t] == x;
                        let y = g.edges@[w]@[t];
                    }
                }
                assert(!ids.contains(x));
            }
        }
        assert(total =~= ids.to_multiset());
        vstd::seq_lib::to_multiset_len(used);
        vstd::seq_lib::to_multiset_len(ids);
        assert(used.len() == l);
        let f = |e: usize| window(s@, e as int, k as nat);
        assert(klets(out@, k as nat) =~= used.map_values(f));
        assert(klets(s@, k as nat) =~= ids.map_values(f));
        lemma_map_multiset(used, ids, f);
        assert(out@.subrange(n - (k - 1), n as int) == s@.subrange(n - (k - 1), n as int));
        assert forall|j: nat| 1 <= j <= k implies #[trigger] same_klets_spec(s@, out@, j) by {
            let p = |w: Seq<char>| w.subrange(0, j as int);
            lemma_jlets_split(out@, k as nat, j);
            lemma_jlets_split(s@, k as nat, j);
            lemma_map_multiset(klets(out@, k as nat), klets(s@, k as nat), p);
            let tail = klets(s@.subrange(n - (k - 1), n as int), j);
            vstd::seq_lib::lemma_multiset_commutative(klets(out@, k as nat).map_values(p), tail);
            vstd::seq_lib::lemma_multiset_commutative(klets(s@, k as nat).map_values(p), tail);
        }
    }
    Some(out)
}

/// A random rearrangement of `seq` with the same k-lets, and the same j-lets for every
/// `j` in `1..=k`, each as often, found as a random Eulerian walk of the overlap
/// multigraph whose last exits from the vertices connect the graph.
///
/// Fails with [`PermutationError::SearchExhausted`] when no connecting set of last edges
/// came up within the attempt budget, and with [`PermutationError::InvariantViolated`]
/// when the walk stops before it has used every edge.
///
/// `debug` only asks for verbose output and does not change the outcome; the library
/// itself prints nothing.
pub fn klet_preserving_permutation(seq: &str, k: usize, debug: bool) -> (r: Result<String, PermutationError>)
    requires
        2 <= k < seq@.len(),
        seq@.len() <= i32::MAX,
    ensures
        r matches Ok(out) ==> {
            &&& out@.len() == seq@.len()
            &&& out@.subrange(0, k - 1) == seq@.subrange(0, k - 1)
            &&& forall|j: nat| 1 <= j <= k ==> #[trigger] same_klets_spec(seq@, out@, j)
        },
        single_exits(seq@, k as nat) ==> (r matches Ok(out) && out@ == seq@),
{
    let s = chars_of(seq);
    let g = edge_ordering_chars(&s, k);
    let sf = vertex_at(&g, &s, k, s.len() - (k - 1));
    let draw = match search_last_edges(&g, &s, k, sf) {
        Some(d) => d,
        None => {
            return Err(PermutationError::SearchExhausted);
        },
    };
    let lists = arrange_edges(&g, &draw);
    proof {
        assert forall|v: int, t: int| 0 <= v < lists.len() && 0 <= t < lists@[v].len() implies {
            let e = #[trigger] lists@[v]@[t];
            e <= s.len() - k && label(s@, k as nat, e as int) == g.vertex(s@, k as nat, v)
        } by {
            let e = lists@[v]@[t];
            assert(lists@[v]@.to_multiset().count(e) > 0);
            assert(g.edges@[v]@.contains(e));
            let u = choose|u: int| 0 <= u < g.edges@[v]@.len() && g.edges@[v]@[u] == e;
            let x = g.edges@[v]@[u];
        }
        if single_exits(s@, k as nat) {
            lemma_forced_edges(g, s@, k as nat);
            assert forall|v: int| 0 <= v < lists.len() implies (#[trigger] lists@[v])@ == g.edges@[v]@ by {
                vstd::seq_lib::to_multiset_len(lists@[v]@);
                vstd::seq_lib::to_multiset_len(g.edges@[v]@);
                if lists@[v].len() == 1 {
                    let e = lists@[v]@[0];
                    assert(lists@[v]@.to_multiset().count(e) > 0);
                    assert(g.edges@[v]@.contains(e));
                    assert(lists@[v]@ =~= g.edges@[v]@);
                } else {
                    assert(lists@[v]@ =~= g.edges@[v]@);
                }
            }
        }
    }
    match walk(&g, &s, k, &lists, sf) {
        Some(out) => Ok(string_of(&out)),
        None => Err(PermutationError::InvariantViolated),
    }
}

} // verus!
