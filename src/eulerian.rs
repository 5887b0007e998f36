use vstd::prelude::*;
use vstd::multiset::Multiset;
use crate::altschul::{label, EdgeOrdering};
use crate::utils::{klets, window};

verus! {

// Facts about the reconstruction walk of the overlap multigraph: the multiset of the edges
// it has not used yet, and how the j-lets of a sequence follow from its k-lets.

broadcast use vstd::seq_lib::group_to_multiset_ensures;

/// Mapping two sequences with equal multisets gives sequences with equal multisets.
pub proof fn lemma_map_multiset<A, B>(a: Seq<A>, b: Seq<A>, f: spec_fn(A) -> B)
    requires
        a.to_multiset() == b.to_multiset(),
    ensures
        a.map_values(f).to_multiset() == b.map_values(f).to_multiset(),
    decreases a.len(),
{
    vstd::seq_lib::to_multiset_len(a);
    vstd::seq_lib::to_multiset_len(b);
    if a.len() == 0 {
        assert(b.len() == 0);
        assert(a.map_values(f) =~= Seq::<B>::empty());
        assert(b.map_values(f) =~= Seq::<B>::empty());
    } else {
        let x = a.last();
        let a1 = a.drop_last();
        assert(a =~= a1.push(x));
        assert(a.to_multiset().count(x) > 0);
        assert(b.contains(x));
        let i = choose|i: int| 0 <= i < b.len() && b[i] == x;
        let b1 = b.remove(i);
        assert(b1.to_multiset() =~= a1.to_multiset());
        lemma_map_multiset(a1, b1, f);
        assert(a.map_values(f) =~= a1.map_values(f).push(f(x)));
        let mb = b.map_values(f);
        let mb1 = b1.map_values(f).insert(i, f(x));
        assert(mb.len() == mb1.len());
        assert forall|j: int| 0 <= j < mb.len() implies mb[j] == mb1[j] by {
            if j < i {
                assert(b1[j] == b[j]);
            } else if j > i {
                assert(b1[j - 1] == b[j]);
            }
        }
        assert(mb =~= mb1);
    }
}

/// The cursor positions as integers.
pub open spec fn cursors(c: Seq<usize>) -> Seq<int> {
    c.map_values(|x: usize| x as int)
}

/// The symbol lists as sequences.
pub open spec fn list_views(l: Seq<Vec<usize>>) -> Seq<Seq<usize>> {
    l.map_values(|v: Vec<usize>| v@)
}

/// The edges that the lists still hold from their cursors on, over the first `n` lists.
pub open spec fn rest(lists: Seq<Seq<usize>>, cursor: Seq<int>, n: int) -> Multiset<usize>
    decreases n,
{
    if n <= 0 {
        Multiset::empty()
    } else {
        rest(lists, cursor, n - 1).add(lists[n - 1].subrange(cursor[n - 1], lists[n - 1].len() as int).to_multiset())
    }
}

/// Moving the cursor of list `c` one step takes that list's next edge out of the rest.
pub proof fn lemma_rest_step(lists: Seq<Seq<usize>>, cursor: Seq<int>, c: int, n: int)
    requires
        0 <= c < n <= lists.len(),
        n <= cursor.len(),
        0 <= cursor[c] < lists[c].len(),
    ensures
        rest(lists, cursor, n) == rest(lists, cursor.update(c, cursor[c] + 1), n).insert(lists[c][cursor[c]]),
    decreases n,
{
    let cursor2 = cursor.update(c, cursor[c] + 1);
    if n - 1 == c {
        assert(rest(lists, cursor, n - 1) =~= rest(lists, cursor2, n - 1)) by {
            lemma_rest_same(lists, cursor, cursor2, n - 1);
        }
        let l = lists[c];
        assert(l.subrange(cursor[c], l.len() as int) =~= l.subrange(cursor[c] + 1, l.len() as int).insert(0, l[cursor[c]]));
    } else {
        lemma_rest_step(lists, cursor, c, n - 1);
        assert(cursor2[n - 1] == cursor[n - 1]);
    }
    assert(rest(lists, cursor, n) =~= rest(lists, cursor2, n).insert(lists[c][cursor[c]]));
}

proof fn lemma_rest_same(lists: Seq<Seq<usize>>, c1: Seq<int>, c2: Seq<int>, n: int)
    requires
        n <= c1.len(),
        n <= c2.len(),
        forall|v: int| 0 <= v < n ==> c1[v] == c2[v],
    ensures
        rest(lists, c1, n) == rest(lists, c2, n),
    decreases n,
{
    if n > 0 {
        lemma_rest_same(lists, c1, c2, n - 1);
    }
}

/// Nothing is left once every cursor stands at the end of its list.
pub proof fn lemma_rest_done(lists: Seq<Seq<usize>>, cursor: Seq<int>, n: int)
    requires
        n <= lists.len(),
        n <= cursor.len(),
        forall|v: int| 0 <= v < n ==> cursor[v] == lists[v].len(),
    ensures
        rest(lists, cursor, n) == Multiset::<usize>::empty(),
    decreases n,
{
    if n > 0 {
        lemma_rest_done(lists, cursor, n - 1);
        assert(lists[n - 1].subrange(cursor[n - 1], lists[n - 1].len() as int) =~= Seq::<usize>::empty());
        assert(rest(lists, cursor, n) =~= Multiset::<usize>::empty());
    }
}

/// From cursors at zero, lists with the same multisets leave the same rest.
pub proof fn lemma_rest_lists(lists: Seq<Seq<usize>>, edges: Seq<Seq<usize>>, cursor: Seq<int>, n: int)
    requires
        n <= lists.len(),
        n <= edges.len(),
        n <= cursor.len(),
        forall|v: int| 0 <= v < n ==> cursor[v] == 0,
        forall|v: int| 0 <= v < n ==> #[trigger] lists[v].to_multiset() == edges[v].to_multiset(),
    ensures
        rest(lists, cursor, n) == rest(edges, cursor, n),
    decreases n,
{
    if n > 0 {
        lemma_rest_lists(lists, edges, cursor, n - 1);
        assert(lists[n - 1].subrange(0, lists[n - 1].len() as int) =~= lists[n - 1]);
        assert(edges[n - 1].subrange(0, edges[n - 1].len() as int) =~= edges[n - 1]);
    }
}

/// No edge start occurs twice over the graph's lists: its count in the first `n` lists is
/// one when one of them holds it, else zero.
pub proof fn lemma_rest_edges(g: EdgeOrdering, s: Seq<char>, k: nat, cursor: Seq<int>, n: int, x: usize)
    requires
        g.models(s, k),
        0 <= n <= g.edges.len(),
        n <= cursor.len(),
        forall|v: int| 0 <= v < n ==> cursor[v] == 0,
    ensures
        rest(list_views(g.edges@), cursor, n).count(x)
            == if exists|v: int| 0 <= v < n && #[trigger] g.edges@[v]@.contains(x) { 1nat } else { 0nat },
    decreases n,
{
    let lists = list_views(g.edges@);
    if n > 0 {
        lemma_rest_edges(g, s, k, cursor, n - 1, x);
        let l = lists[n - 1];
        assert(l == g.edges@[n - 1]@);
        assert(l.subrange(0, l.len() as int) =~= l);
        assert(l.no_duplicates()) by {
            assert forall|i: int, j: int| 0 <= i < l.len() && 0 <= j < l.len() && i != j implies l[i] != l[j] by {
                if i < j {
                    assert(g.edges@[n - 1]@[i] < g.edges@[n - 1]@[j]);
                } else {
                    assert(g.edges@[n - 1]@[j] < g.edges@[n - 1]@[i]);
                }
            }
        }
        l.lemma_multiset_has_no_duplicates();
        if l.contains(x) {
            assert forall|v: int| 0 <= v < n - 1 implies !#[trigger] g.edges@[v]@.contains(x) by {
                if g.edges@[v]@.contains(x) {
                    let t1 = choose|t: int| 0 <= t < g.edges@[v]@.len() && g.edges@[v]@[t] == x;
                    let t2 = choose|t: int| 0 <= t < l.len() && l[t] == x;
                    assert(label(s, k, g.edges@[v]@[t1] as int) == g.vertex(s, k, v));
                    assert(label(s, k, g.edges@[n - 1]@[t2] as int) == g.vertex(s, k, n - 1));
                }
            }
        }
    }
}

/// For a sequence of length at least `k`, its j-lets (`j <= k`) are the first `j`
/// symbols of each of its k-lets, then the j-lets of its last k-1 symbols.
pub proof fn lemma_jlets_split(x: Seq<char>, k: nat, j: nat)
    requires
        1 <= j <= k <= x.len(),
    ensures
        klets(x, j) == klets(x, k).map_values(|w: Seq<char>| w.subrange(0, j as int))
            + klets(x.subrange(x.len() - (k - 1), x.len() as int), j),
{
    let l = x.len() - (k - 1);
    let tail = x.subrange(l, x.len() as int);
    let lhs = klets(x, j);
    let rhs = klets(x, k).map_values(|w: Seq<char>| w.subrange(0, j as int)) + klets(tail, j);
    assert forall|i: int| 0 <= i < lhs.len() implies lhs[i] == rhs[i] by {
        if i < l {
            assert(window(x, i, k).subrange(0, j as int) =~= window(x, i, j));
        } else {
            assert(window(tail, i - l, j) =~= window(x, i, j));
        }
    }
    assert(lhs =~= rhs);
}

} // verus!
