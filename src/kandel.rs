use vstd::prelude::*;
use crate::rng::{random_in, shuffle};
use crate::utils::{chars_of, eq_range, klets, window, same_klets_spec, string_of};
use vstd::arithmetic::div_mod::{lemma_add_mod_noop_right, lemma_mod_add_multiples_vanish, lemma_small_mod};

verus! {

broadcast use vstd::seq_lib::group_to_multiset_ensures;

/// How many random position quadruples the swap search draws before it gives up.
pub const MAX_SWAP_ATTEMPTS: usize = 5000;

/// The first k-1 symbols of `s` equal its last k-1 symbols.
pub open spec fn k_cyclic(s: Seq<char>, k: nat) -> bool {
    s.subrange(0, k - 1) == s.subrange(s.len() - (k - 1), s.len() as int)
}

/// The rotation of the k-cyclic sequence `s` at `m`: its cyclic core (the first
/// `len(s) - (k-1)` symbols) read round from position `m - 1`, for `len(s)` symbols, so
/// that the result again ends with its own first k-1 symbols.
pub open spec fn rotation(s: Seq<char>, k: nat, m: int) -> Seq<char> {
    cyclic_shift(s, k, m - 1)
}

/// The block swap at positions `a < b < c < d`: the prefix before `a`, then `s[c..d+k-1]`,
/// `s[b+k-1..c]`, `s[a..b+k-1]` and the rest from `d+k-1`.
pub open spec fn swapped(s: Seq<char>, k: nat, a: int, b: int, c: int, d: int) -> Seq<char> {
    let j = k - 1;
    s.subrange(0, a) + s.subrange(c, d + j) + s.subrange(b + j, c) + s.subrange(a, b + j) + s.subrange(
        d + j,
        s.len() as int,
    )
}

/// Whether the block swap at `a, b, c, d` applies: the positions increase, the blocks fit
/// in `s`, and the (k-1)-symbol strings at `a` and `c`, and at `b` and `d`, are equal.
pub open spec fn swap_applies(s: Seq<char>, k: nat, a: int, b: int, c: int, d: int) -> bool {
    let j = k - 1;
    &&& 0 <= a < b < c < d
    &&& b + j <= c
    &&& d + j <= s.len()
    &&& s.subrange(a, a + j) == s.subrange(c, c + j)
    &&& s.subrange(b, b + j) == s.subrange(d, d + j)
}

/// The `k` symbols of `s` from `p` on, read round its cyclic core: the first
/// `len(s) - (k-1)` symbols.
pub open spec fn cyclic_window(s: Seq<char>, k: nat, p: int) -> Seq<char> {
    Seq::new(k, |u: int| s[(p + u) % (s.len() - (k - 1))])
}

proof fn lemma_cyclic_symbol(s: Seq<char>, k: nat, i: int)
    requires
        2 <= k <= s.len(),
        k_cyclic(s, k),
        0 <= i < s.len(),
    ensures
        s[i] == s[i % (s.len() - (k - 1))],
    decreases i,
{
    let l = s.len() - (k - 1);
    if i < l {
        lemma_small_mod(i as nat, l as nat);
    } else {
        assert(s.subrange(0, k - 1)[i - l] == s.subrange(l, s.len() as int)[i - l]);
        lemma_cyclic_symbol(s, k, i - l);
        lemma_mod_add_multiples_vanish(i - l, l);
    }
}

proof fn lemma_klets_of_cyclic(s: Seq<char>, k: nat, x: Seq<char>, j: int)
    requires
        2 <= k <= s.len(),
        x.len() == s.len(),
        j >= 0,
        forall|t: int| 0 <= t < x.len() ==> #[trigger] x[t] == s[(j + t) % (s.len() - (k - 1))],
    ensures
        klets(x, k) == Seq::new((s.len() - (k - 1)) as nat, |i: int| cyclic_window(s, k, j + i)),
{
    let l = s.len() - (k - 1);
    assert forall|i: int| 0 <= i < l implies #[trigger] window(x, i, k) == cyclic_window(s, k, j + i) by {
        assert forall|u: int| 0 <= u < k implies window(x, i, k)[u] == cyclic_window(s, k, j + i)[u] by {
            assert(x[i + u] == s[(j + (i + u)) % l]);
            assert(j + (i + u) == (j + i) + u);
        }
        assert(window(x, i, k) =~= cyclic_window(s, k, j + i));
    }
    assert(klets(x, k) =~= Seq::new(l as nat, |i: int| cyclic_window(s, k, j + i)));
}

proof fn lemma_rotated_windows(s: Seq<char>, k: nat, j: int)
    requires
        2 <= k <= s.len(),
        j >= 0,
    ensures
        Seq::new((s.len() - (k - 1)) as nat, |i: int| cyclic_window(s, k, j + i)).to_multiset()
            == Seq::new((s.len() - (k - 1)) as nat, |i: int| cyclic_window(s, k, 0 + i)).to_multiset(),
{
    let l = s.len() - (k - 1);
    let a = Seq::new(l as nat, |i: int| cyclic_window(s, k, 0 + i));
    let b = Seq::new(l as nat, |i: int| cyclic_window(s, k, j + i));
    let jj = j % l;
    assert(0 <= jj < l);
    assert forall|p: int| #![trigger cyclic_window(s, k, p)] p >= 0 implies cyclic_window(s, k, p) == cyclic_window(s, k, p % l) by {
        assert forall|u: int| 0 <= u < k implies #[trigger] ((p + u) % l) == (p % l + u) % l by {
            lemma_add_mod_noop_right(u, p, l);
            assert(u + p == p + u);
            assert(u + p % l == p % l + u);
        }
        assert(cyclic_window(s, k, p) =~= cyclic_window(s, k, p % l));
    }
    assert forall|i: int| 0 <= i < l implies #[trigger] b[i] == (a.subrange(jj, l) + a.subrange(0, jj))[i] by {
        lemma_add_mod_noop_right(i, j, l);
        assert(i + j == j + i);
        if i < l - jj {
            lemma_small_mod((i + jj) as nat, l as nat);
            assert(cyclic_window(s, k, j + i) == cyclic_window(s, k, (j + i) % l));
            assert(cyclic_window(s, k, jj + i) == cyclic_window(s, k, (jj + i) % l));
            assert(a[jj + i] == cyclic_window(s, k, 0 + (jj + i)));
        } else {
            lemma_mod_add_multiples_vanish(jj + i - l, l);
            lemma_small_mod((jj + i - l) as nat, l as nat);
            assert(cyclic_window(s, k, j + i) == cyclic_window(s, k, (j + i) % l));
            assert(a[i - (l - jj)] == cyclic_window(s, k, 0 + (i - (l - jj))));
            assert(i - (l - jj) == jj + i - l);
        }
    }
    assert(b =~= a.subrange(jj, l) + a.subrange(0, jj));
    vstd::seq_lib::lemma_seq_union_to_multiset_commutative(a.subrange(jj, l), a.subrange(0, jj));
    assert(a.subrange(0, jj) + a.subrange(jj, l) =~= a);
}

/// A cyclic shift of the core of a k-cyclic sequence keeps its length and its k-lets,
/// each as often, and is k-cyclic again.
pub proof fn lemma_shift_keeps_klets(s: Seq<char>, k: nat, j: int)
    requires
        2 <= k <= s.len(),
        k_cyclic(s, k),
        j >= 0,
    ensures
        cyclic_shift(s, k, j).len() == s.len(),
        same_klets_spec(s, cyclic_shift(s, k, j), k),
        k_cyclic(cyclic_shift(s, k, j), k),
{
    let l = s.len() - (k - 1);
    let r = cyclic_shift(s, k, j);
    assert forall|t: int| 0 <= t < s.len() implies #[trigger] s[t] == s[(0 + t) % l] by {
        lemma_cyclic_symbol(s, k, t);
    }
    lemma_klets_of_cyclic(s, k, s, 0);
    lemma_klets_of_cyclic(s, k, r, j);
    lemma_rotated_windows(s, k, j);
    assert forall|t: int| 0 <= t < k - 1 implies r.subrange(0, k - 1)[t] == #[trigger] r.subrange(l, s.len() as int)[t] by {
        lemma_mod_add_multiples_vanish(j + t, l);
        assert(j + (l + t) == l + (j + t));
    }
    assert(r.subrange(0, k - 1) =~= r.subrange(l, s.len() as int));
}

/// Rotating a k-cyclic sequence at any point keeps its length and its k-lets, each as
/// often, and the result is k-cyclic again.
pub proof fn lemma_rotation_keeps_klets(s: Seq<char>, k: nat, m: int)
    requires
        2 <= k <= m <= s.len(),
        k_cyclic(s, k),
    ensures
        rotation(s, k, m).len() == s.len(),
        same_klets_spec(s, rotation(s, k, m), k),
        k_cyclic(rotation(s, k, m), k),
{
    lemma_shift_keeps_klets(s, k, m - 1);
}

proof fn lemma_swapped_symbol(s: Seq<char>, k: nat, a: int, b: int, c: int, d: int, q: int)
    requires
        k >= 1,
        swap_applies(s, k, a, b, c, d),
        0 <= q < s.len(),
    ensures
        swapped(s, k, a, b, c, d).len() == s.len(),
        swapped(s, k, a, b, c, d)[q] == if q < a {
            s[q]
        } else if q < a + (d + (k - 1) - c) {
            s[c + q - a]
        } else if q < a + d - b {
            s[b + (k - 1) + q - (a + d + (k - 1) - c)]
        } else if q < d + (k - 1) {
            s[a + q - (a + d - b)]
        } else {
            s[q]
        },
{
    let j = k - 1;
    let p0 = s.subrange(0, a);
    let p1 = s.subrange(c, d + j);
    let p2 = s.subrange(b + j, c);
    let p3 = s.subrange(a, b + j);
    let p4 = s.subrange(d + j, s.len() as int);
    let x01 = p0 + p1;
    let x012 = x01 + p2;
    let x0123 = x012 + p3;
    assert(swapped(s, k, a, b, c, d) == x0123 + p4);
    if q < d + j {
        if q < a + d - b {
            if q < a + (d + j - c) {
                assert(x0123[q] == x012[q]);
                assert(x012[q] == x01[q]);
            } else {
                assert(x0123[q] == x012[q]);
            }
        }
    }
}

/// The four-point block swap keeps the first and the last k-1 symbols of `s`.
pub proof fn lemma_swap_keeps_ends(s: Seq<char>, k: nat, a: int, b: int, c: int, d: int)
    requires
        k >= 1,
        swap_applies(s, k, a, b, c, d),
    ensures
        swapped(s, k, a, b, c, d).len() == s.len(),
        swapped(s, k, a, b, c, d).subrange(0, k - 1) == s.subrange(0, k - 1),
        swapped(s, k, a, b, c, d).subrange(s.len() - (k - 1), s.len() as int) == s.subrange(s.len() - (k - 1), s.len() as int),
{
    let j = k - 1;
    let n = s.len() as int;
    let r = swapped(s, k, a, b, c, d);
    lemma_swapped_symbol(s, k, a, b, c, d, 0);
    assert forall|q: int| 0 <= q < j implies #[trigger] r[q] == s[q] by {
        lemma_swapped_symbol(s, k, a, b, c, d, q);
        if q >= a {
            assert(s.subrange(a, a + j)[q - a] == s.subrange(c, c + j)[q - a]);
        }
    }
    assert forall|q: int| n - j <= q < n implies #[trigger] r[q] == s[q] by {
        lemma_swapped_symbol(s, k, a, b, c, d, q);
        if q < d + j {
            assert(s.subrange(b, b + j)[q - d] == s.subrange(d, d + j)[q - d]);
        }
    }
    assert(r.subrange(0, j as int) =~= s.subrange(0, j as int));
    assert(r.subrange(n - j, n) =~= s.subrange(n - j, n));
}

/// The four-point block swap keeps the length and the k-lets of `s`, each as often.
pub proof fn lemma_swap_keeps_klets(s: Seq<char>, k: nat, a: int, b: int, c: int, d: int)
    requires
        k >= 1,
        swap_applies(s, k, a, b, c, d),
    ensures
        swapped(s, k, a, b, c, d).len() == s.len(),
        same_klets_spec(s, swapped(s, k, a, b, c, d), k),
{
    let j = k - 1;
    let n = s.len() as int;
    let r = swapped(s, k, a, b, c, d);
    lemma_swapped_symbol(s, k, a, b, c, d, 0);
    assert forall|q: int| 0 <= q < n implies #[trigger] r[q] == if q < a {
        s[q]
    } else if q < a + (d + j - c) {
        s[c + q - a]
    } else if q < a + d - b {
        s[b + j + q - (a + d + j - c)]
    } else if q < d + j {
        s[a + q - (a + d - b)]
    } else {
        s[q]
    } by {
        lemma_swapped_symbol(s, k, a, b, c, d, q);
    }
    assert forall|t: int| 0 <= t < j implies #[trigger] s[a + t] == s[c + t] by {
        assert(s.subrange(a, a + j)[t] == s.subrange(c, c + j)[t]);
    }
    assert forall|t: int| 0 <= t < j implies #[trigger] s[b + t] == s[d + t] by {
        assert(s.subrange(b, b + j)[t] == s.subrange(d, d + j)[t]);
    }
    let l = n - j;
    let ws = klets(s, k);
    let wr = klets(r, k);
    // where each window of the result comes from in `s`
    let src = |p: int|
        if p < a {
            p
        } else if p < a + (d - c) {
            c + p - a
        } else if p < a + d - b {
            b + p - (a + d - c)
        } else if p < d {
            a + p - (a + d - b)
        } else {
            p
        };
    assert forall|p: int| 0 <= p < l implies #[trigger] window(r, p, k) == window(s, src(p), k) by {
        assert forall|y: int| 0 <= y < k implies #[trigger] r[p + y] == s[src(p) + y] by {
            let q = p + y;
            assert(r[q] == if q < a {
                s[q]
            } else if q < a + (d + j - c) {
                s[c + q - a]
            } else if q < a + d - b {
                s[b + j + q - (a + d + j - c)]
            } else if q < d + j {
                s[a + q - (a + d - b)]
            } else {
                s[q]
            });
            if p < a {
                if q >= a {
                    assert(s[a + (q - a)] == s[c + (q - a)]);
                }
            } else if p < a + (d - c) {
            } else if p < a + d - b {
                let x = p - (a + d - c);
                if q < a + (d + j - c) {
                    assert(s[b + (x + y)] == s[d + (x + y)]);
                } else if q >= a + d - b {
                    let z = x + y - (c - b);
                    assert(s[a + z] == s[c + z]);
                }
            } else if p < d {
            } else {
                if q < d + j {
                    assert(s[b + (q - d)] == s[d + (q - d)]);
                }
            }
        }
        let sp = src(p);
        assert(0 <= sp && sp + k <= n);
        assert forall|y: int| 0 <= y < k implies window(r, p, k)[y] == window(s, sp, k)[y] by {
            assert(r[p + y] == s[sp + y]);
        }
        assert(window(r, p, k) =~= window(s, sp, k));
    }
    let rhs = ws.subrange(0, a) + ws.subrange(c, d) + ws.subrange(b, c) + ws.subrange(a, b) + ws.subrange(d, l);
    assert forall|p: int| 0 <= p < l implies #[trigger] wr[p] == rhs[p] by {
        assert(wr[p] == window(r, p, k));
        assert(ws[src(p)] == window(s, src(p), k));
    }
    assert(wr =~= rhs);
    let w0 = ws.subrange(0, a);
    let w1 = ws.subrange(a, b);
    let w2 = ws.subrange(b, c);
    let w3 = ws.subrange(c, d);
    let w4 = ws.subrange(d, l);
    assert(ws =~= w0 + w1 + w2 + w3 + w4);
    vstd::seq_lib::lemma_multiset_commutative(w0 + w1 + w2 + w3, w4);
    vstd::seq_lib::lemma_multiset_commutative(w0 + w1 + w2, w3);
    vstd::seq_lib::lemma_multiset_commutative(w0 + w1, w2);
    vstd::seq_lib::lemma_multiset_commutative(w0, w1);
    vstd::seq_lib::lemma_multiset_commutative(w0 + w3 + w2 + w1, w4);
    vstd::seq_lib::lemma_multiset_commutative(w0 + w3 + w2, w1);
    vstd::seq_lib::lemma_multiset_commutative(w0 + w3, w2);
    vstd::seq_lib::lemma_multiset_commutative(w0, w3);
    assert(ws.to_multiset() =~= wr.to_multiset());
}

/// The sequence of length `len(s)` that reads the cyclic core of `s` (its first
/// `len(s) - (k-1)` symbols) round from position `j`.
pub open spec fn cyclic_shift(s: Seq<char>, k: nat, j: int) -> Seq<char> {
    Seq::new(s.len(), |t: int| s[(j + t) % (s.len() - (k - 1))])
}

/// `x` is the rotation of `s` at some point in `k..=len(s)`.
pub open spec fn is_rotation(s: Seq<char>, k: nat, x: Seq<char>) -> bool {
    exists|m: int| k <= m <= s.len() && #[trigger] rotation(s, k, m) == x
}

/// For a k-cyclic sequence, the rotation at each point `m` in `k..=len(s)` is a cyclic
/// shift of its core, and each of the `len(s) - k + 1` shifts is the rotation at some point.
pub proof fn lemma_rotations_are_shifts(s: Seq<char>, k: nat)
    requires
        2 <= k <= s.len(),
        k_cyclic(s, k),
    ensures
        forall|m: int| k <= m <= s.len() ==> #[trigger] rotation(s, k, m) == cyclic_shift(s, k, (m - 1) % (s.len() - (k - 1))),
        forall|j: int| 0 <= j < s.len() - (k - 1) ==> is_rotation(s, k, #[trigger] cyclic_shift(s, k, j)),
{
    let l = s.len() - (k - 1);
    assert forall|m: int| k <= m <= s.len() implies #[trigger] rotation(s, k, m) == cyclic_shift(s, k, (m - 1) % l) by {
        assert forall|t: int| 0 <= t < s.len() implies rotation(s, k, m)[t] == #[trigger] cyclic_shift(s, k, (m - 1) % l)[t] by {
            lemma_add_mod_noop_right(t, m - 1, l);
            assert(t + (m - 1) == m - 1 + t);
            assert(t + (m - 1) % l == (m - 1) % l + t);
        }
        assert(rotation(s, k, m) =~= cyclic_shift(s, k, (m - 1) % l));
    }
    assert forall|j: int| 0 <= j < l implies is_rotation(s, k, #[trigger] cyclic_shift(s, k, j)) by {
        let kk = k - 1;
        let t = (j - kk) % l;
        let m = kk + t + 1;
        lemma_add_mod_noop_right(kk, j - kk, l);
        lemma_small_mod(j as nat, l as nat);
        assert((m - 1) % l == j);
        assert(rotation(s, k, m) == cyclic_shift(s, k, (m - 1) % l));
    }
}

/// The core of `s` (its first `len(s) - (k-1)` symbols) differs from each of its
/// nontrivial cyclic rotations.
pub open spec fn primitive_core(s: Seq<char>, k: nat) -> bool {
    forall|j: int| 0 < j < s.len() - (k - 1) ==> #[trigger] cyclic_shift(s, k, j) != cyclic_shift(s, k, 0)
}

/// When the core of a k-cyclic sequence is not periodic, the rotations at the points
/// `k..=len(s)` are pairwise distinct: there are exactly `len(s) - k + 1` of them.
pub proof fn lemma_rotations_distinct(s: Seq<char>, k: nat, m1: int, m2: int)
    requires
        2 <= k <= s.len(),
        k_cyclic(s, k),
        primitive_core(s, k),
        k <= m1 < m2 <= s.len(),
    ensures
        rotation(s, k, m1) != rotation(s, k, m2),
{
    let l = s.len() - (k - 1);
    let a = m1 - 1;
    let d = m2 - m1;
    if rotation(s, k, m1) == rotation(s, k, m2) {
        assert forall|t: int| 0 <= t < s.len() implies #[trigger] cyclic_shift(s, k, d)[t] == cyclic_shift(s, k, 0)[t] by {
            let tt = (t - a) % l;
            lemma_add_mod_noop_right(a, t - a, l);
            lemma_add_mod_noop_right(a + d, t - a, l);
            assert(a + (t - a) == 0 + t);
            assert(a + d + (t - a) == d + t);
            assert(0 <= tt < l);
            assert(rotation(s, k, m1)[tt] == rotation(s, k, m2)[tt]);
            assert(a + d == m2 - 1);
        }
        assert(cyclic_shift(s, k, d) =~= cyclic_shift(s, k, 0));
        assert(0 < d < l);
    }
}

/// Whether the first k-1 symbols of `seq` equal its last k-1 symbols.
pub fn is_k_cyclic(seq: &str, k: usize) -> (r: bool)
    requires
        1 <= k <= seq@.len(),
    ensures
        r == k_cyclic(seq@, k as nat),
{
    let s = chars_of(seq);
    eq_range(&s, 0, &s, s.len() - (k - 1), k - 1)
}

/// The rotation at `m` of a symbol vector (see [`rotation`]).
pub fn rotate_at(s: &Vec<char>, k: usize, m: usize) -> (r: Vec<char>)
    requires
        2 <= k <= m <= s.len(),
    ensures
        r@ == rotation(s@, k as nat, m as int),
        r.len() == s.len(),
{
    let n = s.len();
    let l = n - (k - 1);
    let mut r: Vec<char> = Vec::new();
    let mut idx: usize = (m - 1) % l;
    let mut t: usize = 0;
    while t < n
        invariant
            2 <= k <= m <= n == s.len(),
            l == n - (k - 1),
            t <= n,
            idx < l,
            idx == (m - 1 + t) % (l as int),
            r@ == Seq::new(t as nat, |u: int| s@[(m - 1 + u) % (l as int)]),
        decreases n - t,
    {
        r.push(s[idx]);
        proof {
            lemma_add_mod_noop_right(1, m - 1 + t, l as int);
            if idx + 1 < l {
                lemma_small_mod((idx + 1) as nat, l as nat);
            } else {
                lemma_mod_add_multiples_vanish(0, l as int);
            }
            assert(1 + (m - 1 + t) == m - 1 + (t + 1));
            assert(r@ =~= Seq::new((t + 1) as nat, |u: int| s@[(m - 1 + u) % (l as int)]));
        }
        idx = if idx + 1 == l { 0 } else { idx + 1 };
        t += 1;
    }
    assert(r@ =~= rotation(s@, k as nat, m as int));
    r
}

/// The rotation of the k-cyclic `seq` at `m`, or at a point drawn uniformly from
/// `k..=len(seq)` when `m` is `None`.
pub fn random_rotation(seq: &str, k: usize, m: Option<usize>) -> (r: String)
    requires
        2 <= k <= seq@.len(),
        k_cyclic(seq@, k as nat),
        m matches Some(m) ==> k <= m <= seq@.len(),
    ensures
        r@.len() == seq@.len(),
        same_klets_spec(seq@, r@, k as nat),
        k_cyclic(r@, k as nat),
        m matches Some(m) ==> r@ == rotation(seq@, k as nat, m as int),
        m is None ==> exists|p: int| k <= p <= seq@.len() && r@ == rotation(seq@, k as nat, p),
{
    let s = chars_of(seq);
    let point = match m {
        Some(p) => p,
        None => random_in(k, s.len()),
    };
    proof {
        lemma_rotation_keeps_klets(s@, k as nat, point as int);
    }
    string_of(&rotate_at(&s, k, point))
}

/// The block swap at `a, b, c, d` (see [`swapped`]) when it applies, else `None`.
pub fn swap_blocks(s: &Vec<char>, k: usize, a: usize, b: usize, c: usize, d: usize) -> (r: Option<Vec<char>>)
    requires
        k >= 1,
    ensures
        r is Some <==> swap_applies(s@, k as nat, a as int, b as int, c as int, d as int),
        r matches Some(x) ==> x@ == swapped(s@, k as nat, a as int, b as int, c as int, d as int),
        r matches Some(x) ==> x.len() == s.len() && same_klets_spec(s@, x@, k as nat),
        r matches Some(x) ==> k_cyclic(x@, k as nat) == k_cyclic(s@, k as nat),
{
    let j = k - 1;
    if !(a < b && b < c && c < d) || c - b < j || s.len() < j || d > s.len() - j {
        return None;
    }
    if !eq_range(s, a, s, c, j) || !eq_range(s, b, s, d, j) {
        return None;
    }
    let mut r: Vec<char> = Vec::new();
    append_range(&mut r, s, 0, a);
    append_range(&mut r, s, c, d + j);
    append_range(&mut r, s, b + j, c);
    append_range(&mut r, s, a, b + j);
    append_range(&mut r, s, d + j, s.len());
    proof {
        lemma_swap_keeps_klets(s@, k as nat, a as int, b as int, c as int, d as int);
        lemma_swap_keeps_ends(s@, k as nat, a as int, b as int, c as int, d as int);
    }
    Some(r)
}

/// Appends `s[from..to]` to `r`.
fn append_range(r: &mut Vec<char>, s: &Vec<char>, from: usize, to: usize)
    requires
        from <= to <= s.len(),
    ensures
        final(r)@ == old(r)@ + s@.subrange(from as int, to as int),
{
    let ghost start = r@;
    let mut i: usize = from;
    while i < to
        invariant
            from <= i <= to <= s.len(),
            r@ == start + s@.subrange(from as int, i as int),
        decreases to - i,
    {
        r.push(s[i]);
        i += 1;
    }
}

/// The four smallest of `v[0..4]` in increasing order.
fn sorted_four(v: &Vec<usize>) -> (r: (usize, usize, usize, usize))
    requires
        v.len() >= 4,
    ensures
        r.0 <= r.1 <= r.2 <= r.3,
        seq![r.0, r.1, r.2, r.3].to_multiset() == v@.subrange(0, 4).to_multiset(),
{
    let mut w: Vec<usize> = Vec::new();
    w.push(v[0]);
    w.push(v[1]);
    w.push(v[2]);
    w.push(v[3]);
    assert(w@ =~= v@.subrange(0, 4));
    let mut i: usize = 1;
    while i < 4
        invariant
            w.len() == 4,
            1 <= i <= 4,
            w@.to_multiset() == v@.subrange(0, 4).to_multiset(),
            forall|x: int, y: int| 0 <= x < y < i ==> w@[x] <= w@[y],
        decreases 4 - i,
    {
        let mut j: usize = i;
        while j > 0 && w[j - 1] > w[j]
            invariant
                w.len() == 4,
                1 <= i < 4,
                j <= i,
                w@.to_multiset() == v@.subrange(0, 4).to_multiset(),
                forall|x: int, y: int| 0 <= x < y <= i && y != j ==> w@[x] <= w@[y],
                forall|x: int, y: int| 0 <= x < j && j < y <= i ==> w@[x] <= w@[y],
            decreases j,
        {
            let lo = w[j];
            let hi = w[j - 1];
            let ghost before = w@;
            w.set(j - 1, lo);
            w.set(j, hi);
            proof {
                assert(w@ =~= before.update(j - 1, lo).update(j as int, hi));
                lemma_swap_multiset(before, j - 1, j as int);
            }
            j -= 1;
        }
        i += 1;
    }
    assert(seq![w[0], w[1], w[2], w[3]] =~= w@);
    (w[0], w[1], w[2], w[3])
}

proof fn lemma_swap_multiset(s: Seq<usize>, i: int, j: int)
    requires
        0 <= i < j < s.len(),
    ensures
        s.update(i, s[j]).update(j, s[i]).to_multiset() == s.to_multiset(),
{
    let t = s.update(i, s[j]);
    assert(t.to_multiset() == s.to_multiset().remove(s[i]).insert(s[j]));
    assert(t.update(j, s[i]).to_multiset() == t.to_multiset().remove(t[j]).insert(s[i]));
    assert(s.update(i, s[j]).update(j, s[i]).to_multiset() =~= s.to_multiset());
}

/// One random four-point block swap of `seq`: four distinct positions are drawn from
/// `0..len(seq) - k + 3` and sorted; `None` unless the swap at them applies.
pub fn markov_transition(seq: &str, k: usize) -> (r: Option<String>)
    requires
        k >= 1,
    ensures
        r matches Some(x) ==> exists|a: int, b: int, c: int, d: int|
            swap_applies(seq@, k as nat, a, b, c, d) && x@ == #[trigger] swapped(seq@, k as nat, a, b, c, d),
        r matches Some(x) ==> x@.len() == seq@.len() && same_klets_spec(seq@, x@, k as nat),
{
    let s = chars_of(seq);
    match random_swap(&s, k) {
        Some(x) => Some(string_of(&x)),
        None => None,
    }
}

fn random_swap(s: &Vec<char>, k: usize) -> (r: Option<Vec<char>>)
    requires
        k >= 1,
    ensures
        r matches Some(x) ==> exists|a: int, b: int, c: int, d: int|
            swap_applies(s@, k as nat, a, b, c, d) && x@ == #[trigger] swapped(s@, k as nat, a, b, c, d),
        r matches Some(x) ==> x.len() == s.len() && same_klets_spec(s@, x@, k as nat),
        r matches Some(x) ==> k_cyclic(x@, k as nat) == k_cyclic(s@, k as nat),
{
    let n = s.len();
    if n < k || n - k > usize::MAX - 3 {
        return None;
    }
    let count = n - k + 3;
    let mut positions: Vec<usize> = Vec::new();
    let mut p: usize = 0;
    while p < count
        invariant
            p <= count,
            positions@ == Seq::new(p as nat, |i: int| i as usize),
        decreases count - p,
    {
        positions.push(p);
        assert(positions@ =~= Seq::new((p + 1) as nat, |i: int| i as usize));
        p += 1;
    }
    shuffle(&mut positions);
    if positions.len() < 4 {
        return None;
    }
    let (a, b, c, d) = sorted_four(&positions);
    swap_blocks(s, k, a, b, c, d)
}

/// `base` is where the swap search starts from `seq`: `seq` itself, or, for a k-cyclic
/// `seq`, one of its rotations.
pub open spec fn swap_start(seq: Seq<char>, k: nat, base: Seq<char>) -> bool {
    base == seq || (k_cyclic(seq, k) && is_rotation(seq, k, base))
}

/// A rearrangement of `seq` with the same length and the same k-lets, each as often.
///
/// A k-cyclic `seq` is first rotated at a random point. Then four-point block swaps are
/// drawn, up to [`MAX_SWAP_ATTEMPTS`] times, until one applies; when none does, the
/// (possibly rotated) sequence is returned.
pub fn swap_algorithm(seq: &str, k: usize) -> (r: String)
    requires
        2 <= k < seq@.len(),
    ensures
        r@.len() == seq@.len(),
        same_klets_spec(seq@, r@, k as nat),
        k_cyclic(r@, k as nat) == k_cyclic(seq@, k as nat),
        swap_start(seq@, k as nat, r@) || exists|base: Seq<char>, a: int, b: int, c: int, d: int|
            swap_start(seq@, k as nat, base) && swap_applies(base, k as nat, a, b, c, d)
                && r@ == #[trigger] swapped(base, k as nat, a, b, c, d),
{
    let s = chars_of(seq);
    let start = if eq_range(&s, 0, &s, s.len() - (k - 1), k - 1) {
        let m = random_in(k, s.len());
        proof {
            lemma_rotation_keeps_klets(s@, k as nat, m as int);
        }
        rotate_at(&s, k, m)
    } else {
        chars_of(seq)
    };
    assert(swap_start(seq@, k as nat, start@));
    assert(k_cyclic(start@, k as nat) == k_cyclic(seq@, k as nat));
    let mut candidate: Option<Vec<char>> = None;
    let mut attempt: usize = 0;
    while attempt < MAX_SWAP_ATTEMPTS && candidate.is_none()
        invariant
            k >= 1,
            candidate matches Some(x) ==> {
                &&& x.len() == start.len()
                &&& same_klets_spec(start@, x@, k as nat)
                &&& k_cyclic(x@, k as nat) == k_cyclic(start@, k as nat)
                &&& exists|a: int, b: int, c: int, d: int|
                    swap_applies(start@, k as nat, a, b, c, d) && x@ == #[trigger] swapped(start@, k as nat, a, b, c, d)
            },
        decreases MAX_SWAP_ATTEMPTS - attempt,
    {
        candidate = random_swap(&start, k);
        attempt += 1;
    }
    let out = match candidate {
        Some(x) => x,
        None => start,
    };
    string_of(&out)
}

/// The transform of Kandel et al. that is not provided yet: it returns `seq` unchanged.
pub fn kandel(seq: &str) -> (r: &str)
    ensures
        r@ == seq@,
{
    seq
}

} // verus!
