use vstd::prelude::*;
use itertools::Itertools;
use crate::rng::shuffle;
use crate::utils::{chars_of, eq_range, string_of, views};

verus! {

broadcast use vstd::seq_lib::group_to_multiset_ensures;

/// The four nucleotide symbols, in the order the split words are tried.
pub open spec fn nucleotides() -> Seq<char> {
    seq!['A', 'C', 'G', 'T']
}

/// Every word of length `len` over `alpha`, in lexicographic order of the symbols'
/// positions in `alpha` (the last position varies fastest).
pub open spec fn words(alpha: Seq<char>, len: nat) -> Seq<Seq<char>>
    decreases len,
{
    if len == 0 {
        seq![Seq::empty()]
    } else {
        let prev = words(alpha, (len - 1) as nat);
        Seq::new(alpha.len(), |i: int| prev.map_values(|w: Seq<char>| seq![alpha[i]] + w)).flatten()
    }
}

/// The pieces of `t[start..]` between the occurrences of `w` that a left-to-right scan from
/// position `i` finds, occurrences never overlapping.
pub open spec fn split_from(t: Seq<char>, w: Seq<char>, start: int, i: int) -> Seq<Seq<char>>
    decreases t.len() - i,
{
    if w.len() == 0 || i < 0 || i + w.len() > t.len() {
        seq![t.subrange(start, t.len() as int)]
    } else if t.subrange(i, i + w.len()) == w {
        seq![t.subrange(start, i)] + split_from(t, w, i + w.len(), i + w.len())
    } else {
        split_from(t, w, start, i + 1)
    }
}

/// `t` split at every occurrence of the non-empty `w`, as `str::split` does.
pub open spec fn split_spec(t: Seq<char>, w: Seq<char>) -> Seq<Seq<char>> {
    split_from(t, w, 0, 0)
}

/// The pieces joined, with `w` between every two.
pub open spec fn join(w: Seq<char>, parts: Seq<Seq<char>>) -> Seq<char>
    decreases parts.len(),
{
    if parts.len() == 0 {
        Seq::empty()
    } else if parts.len() == 1 {
        parts[0]
    } else {
        join(w, parts.drop_last()) + w + parts.last()
    }
}

/// `w` cuts `s` into more than two pieces.
pub open spec fn splits(s: Seq<char>, w: Seq<char>) -> bool {
    split_spec(s, w).len() > 2
}

/// `perm` orders `0..m`.
pub open spec fn is_permutation(perm: Seq<usize>, m: nat) -> bool {
    perm.to_multiset() == Seq::new(m, |i: int| i as usize).to_multiset()
}

/// `s` split at `w`, the inner pieces put in the order `perm`, joined again by `w`.
pub open spec fn regrouped(s: Seq<char>, w: Seq<char>, perm: Seq<usize>) -> Seq<char> {
    let parts = split_spec(s, w);
    let m = (parts.len() - 2) as nat;
    join(w, seq![parts[0]] + Seq::new(m, |t: int| parts[1 + perm[t]]) + seq![parts.last()])
}

/// The total length of the pieces.
pub open spec fn total_len(parts: Seq<Seq<char>>) -> nat
    decreases parts.len(),
{
    if parts.len() == 0 {
        0
    } else {
        total_len(parts.drop_last()) + parts.last().len()
    }
}

proof fn lemma_total_len_one(x: Seq<char>)
    ensures
        total_len(seq![x]) == x.len(),
{
    assert(seq![x].drop_last() =~= Seq::<Seq<char>>::empty());
    assert(total_len(Seq::<Seq<char>>::empty()) == 0);
}

proof fn lemma_total_len_concat(a: Seq<Seq<char>>, b: Seq<Seq<char>>)
    ensures
        total_len(a + b) == total_len(a) + total_len(b),
    decreases b.len(),
{
    if b.len() > 0 {
        lemma_total_len_concat(a, b.drop_last());
        assert((a + b).drop_last() =~= a + b.drop_last());
    } else {
        assert(a + b =~= a);
    }
}

proof fn lemma_total_len_multiset(a: Seq<Seq<char>>, b: Seq<Seq<char>>)
    requires
        a.to_multiset() == b.to_multiset(),
    ensures
        total_len(a) == total_len(b),
    decreases a.len(),
{
    vstd::seq_lib::to_multiset_len(a);
    vstd::seq_lib::to_multiset_len(b);
    if a.len() > 0 {
        let x = a.last();
        let a1 = a.drop_last();
        assert(a =~= a1.push(x));
        assert(a.to_multiset().count(x) > 0);
        assert(b.contains(x));
        let i = choose|i: int| 0 <= i < b.len() && b[i] == x;
        let b1 = b.remove(i);
        assert(b1.to_multiset() =~= a1.to_multiset());
        lemma_total_len_multiset(a1, b1);
        let b0 = b.subrange(0, i);
        let b2 = b.subrange(i + 1, b.len() as int);
        assert(b =~= b0 + seq![x] + b2);
        assert(b1 =~= b0 + b2);
        lemma_total_len_concat(b0 + seq![x], b2);
        lemma_total_len_concat(b0, seq![x]);
        lemma_total_len_concat(b0, b2);
        assert(seq![x].drop_last() =~= Seq::<Seq<char>>::empty());
        lemma_total_len_one(x);
        assert(a.drop_last() == a1);
        assert(total_len(a) == total_len(a1) + x.len());
    }
}

proof fn lemma_join_len(w: Seq<char>, parts: Seq<Seq<char>>)
    requires
        parts.len() >= 1,
    ensures
        join(w, parts).len() == total_len(parts) + (parts.len() - 1) * w.len(),
    decreases parts.len(),
{
    if parts.len() == 1 {
        assert(parts =~= seq![parts[0]]);
        lemma_total_len_one(parts[0]);
        assert(((parts.len() - 1) * w.len()) == 0);
    } else {
        let dl = parts.drop_last();
        lemma_join_len(w, dl);
        let n: int = parts.len() - 1;
        let wl: int = w.len() as int;
        assert((n - 1) * wl + wl == n * wl) by (nonlinear_arith);
        assert(join(w, parts) == join(w, dl) + w + parts.last());
        assert(total_len(parts) == total_len(dl) + parts.last().len());
        assert(dl.len() - 1 == n - 1);
    }
}

proof fn lemma_split_from_len(t: Seq<char>, w: Seq<char>, start: int, i: int)
    requires
        w.len() >= 1,
        0 <= start <= i <= t.len(),
    ensures
        split_from(t, w, start, i).len() >= 1,
        total_len(split_from(t, w, start, i)) + (split_from(t, w, start, i).len() - 1) * w.len() == t.len() - start,
    decreases t.len() - i,
{
    let r = split_from(t, w, start, i);
    if i + w.len() > t.len() {
        assert(r == seq![t.subrange(start, t.len() as int)]);
        assert(r.drop_last() =~= Seq::<Seq<char>>::empty());
        lemma_total_len_one(t.subrange(start, t.len() as int));
        assert((r.len() - 1) * w.len() == 0) by (nonlinear_arith) requires r.len() == 1;
    } else if t.subrange(i, i + w.len()) == w {
        let rest = split_from(t, w, i + w.len(), i + w.len());
        lemma_split_from_len(t, w, i + w.len(), i + w.len());
        let head = seq![t.subrange(start, i)];
        lemma_total_len_concat(head, rest);
        assert(head.drop_last() =~= Seq::<Seq<char>>::empty());
        lemma_total_len_one(t.subrange(start, i));
        assert(r == head + rest);
        let m = rest.len();
        assert(m * w.len() == (m - 1) * w.len() + w.len()) by (nonlinear_arith) requires m >= 1;
    } else {
        lemma_split_from_len(t, w, start, i + 1);
    }
}

/// Regrouping keeps the length of `s`.
pub proof fn lemma_regrouped_len(s: Seq<char>, w: Seq<char>, perm: Seq<usize>)
    requires
        w.len() >= 1,
        splits(s, w),
        is_permutation(perm, (split_spec(s, w).len() - 2) as nat),
        split_spec(s, w).len() <= usize::MAX,
    ensures
        regrouped(s, w, perm).len() == s.len(),
{
    let parts = split_spec(s, w);
    let m = (parts.len() - 2) as nat;
    let ids = Seq::new(m, |i: int| i as usize);
    vstd::seq_lib::to_multiset_len(perm);
    vstd::seq_lib::to_multiset_len(ids);
    assert forall|x: int| 0 <= x < m implies #[trigger] perm[x] < m by {
        assert(perm.to_multiset().count(perm[x]) > 0);
        assert(ids.contains(perm[x]));
    }
    let f = |j: usize| parts[1 + j];
    let mid = Seq::new(m, |t: int| parts[1 + perm[t]]);
    let inner = parts.subrange(1, parts.len() - 1);
    assert(mid =~= perm.map_values(f));
    assert(inner =~= ids.map_values(f));
    crate::eulerian::lemma_map_multiset(perm, ids, f);
    lemma_total_len_multiset(mid, inner);
    let first = seq![parts[0]];
    let last = seq![parts.last()];
    let pieces = first + mid + last;
    lemma_total_len_concat(first + mid, last);
    lemma_total_len_concat(first, mid);
    lemma_total_len_concat(first + inner, last);
    lemma_total_len_concat(first, inner);
    assert(parts =~= first + inner + last);
    lemma_join_len(w, pieces);
    lemma_split_from_len(s, w, 0, 0);
}

/// Relies on itertools' `multi_cartesian_product` over `len` copies of the alphabet: every
/// word of length `len`, in lexicographic order.
#[verifier::external_body]
fn words_over(alpha: &Vec<char>, len: usize) -> (r: Vec<Vec<char>>)
    requires
        len >= 1,
    ensures
        views(r@) == words(alpha@, len as nat),
{
    std::iter::repeat(alpha.iter().copied()).take(len).multi_cartesian_product().collect()
}

/// A copy of `t[from..to]`.
fn copy_range(t: &Vec<char>, from: usize, to: usize) -> (r: Vec<char>)
    requires
        from <= to <= t.len(),
    ensures
        r@ == t@.subrange(from as int, to as int),
{
    let mut r: Vec<char> = Vec::new();
    let mut i: usize = from;
    while i < to
        invariant
            from <= i <= to <= t.len(),
            r@ == t@.subrange(from as int, i as int),
        decreases to - i,
    {
        r.push(t[i]);
        i += 1;
    }
    r
}

/// `t` split at every occurrence of `w` found from left to right.
pub fn split_on(t: &Vec<char>, w: &Vec<char>) -> (r: Vec<Vec<char>>)
    requires
        w.len() >= 1,
    ensures
        views(r@) == split_spec(t@, w@),
{
    let mut parts: Vec<Vec<char>> = Vec::new();
    let mut start: usize = 0;
    let mut i: usize = 0;
    assert(w@.subrange(0, w.len() as int) =~= w@);
    while i <= t.len() && w.len() <= t.len() - i
        invariant
            w.len() >= 1,
            w@.subrange(0, w.len() as int) == w@,
            start <= i <= t.len(),
            views(parts@) + split_from(t@, w@, start as int, i as int) == split_spec(t@, w@),
        decreases t.len() - i,
    {
        let ghost before = views(parts@);
        if eq_range(t, i, w, 0, w.len()) {
            let piece = copy_range(t, start, i);
            parts.push(piece);
            proof {
                assert(views(parts@) =~= before.push(piece@));
                assert(before.push(piece@) + split_from(t@, w@, (i + w.len()) as int, (i + w.len()) as int)
                    =~= before + (seq![piece@] + split_from(t@, w@, (i + w.len()) as int, (i + w.len()) as int)));
            }
            i = i + w.len();
            start = i;
        } else {
            i = i + 1;
        }
    }
    let ghost before = views(parts@);
    let piece = copy_range(t, start, t.len());
    parts.push(piece);
    proof {
        assert(views(parts@) =~= before.push(piece@));
        assert(before + seq![piece@] =~= before.push(piece@));
    }
    parts
}

/// The pieces joined, with `w` between every two.
pub fn join_with(w: &Vec<char>, parts: &Vec<Vec<char>>) -> (r: Vec<char>)
    ensures
        r@ == join(w@, views(parts@)),
{
    let mut r: Vec<char> = Vec::new();
    if parts.len() == 0 {
        return r;
    }
    let first = &parts[0];
    let mut t: usize = 0;
    while t < first.len()
        invariant
            t <= first.len(),
            r@ == first@.subrange(0, t as int),
        decreases first.len() - t,
    {
        r.push(first[t]);
        t += 1;
    }
    assert(views(parts@).subrange(0, 1).drop_last() =~= Seq::<Seq<char>>::empty());
    assert(r@ == join(w@, views(parts@).subrange(0, 1)));
    let mut i: usize = 1;
    while i < parts.len()
        invariant
            1 <= i <= parts.len(),
            r@ == join(w@, views(parts@).subrange(0, i as int)),
        decreases parts.len() - i,
    {
        let ghost before = r@;
        let mut t: usize = 0;
        while t < w.len()
            invariant
                t <= w.len(),
                r@ == before + w@.subrange(0, t as int),
            decreases w.len() - t,
        {
            r.push(w[t]);
            t += 1;
        }
        let ghost mid = r@;
        let piece = &parts[i];
        let mut t: usize = 0;
        while t < piece.len()
            invariant
                t <= piece.len(),
                r@ == mid + piece@.subrange(0, t as int),
            decreases piece.len() - t,
        {
            r.push(piece[t]);
            t += 1;
        }
        proof {
            let vs = views(parts@).subrange(0, i + 1);
            assert(vs.drop_last() =~= views(parts@).subrange(0, i as int));
            assert(w@.subrange(0, w.len() as int) =~= w@);
            assert(piece@.subrange(0, piece.len() as int) =~= piece@);
        }
        i += 1;
    }
    assert(views(parts@).subrange(0, parts.len() as int) =~= views(parts@));
    r
}

/// `s` split at every occurrence of `w`, the inner pieces put in the order `perm`, and
/// joined again by `w` (see [`regrouped`]).
pub fn regroup(s: &Vec<char>, w: &Vec<char>, perm: &Vec<usize>) -> (r: Vec<char>)
    requires
        w.len() >= 1,
        splits(s@, w@),
        is_permutation(perm@, (split_spec(s@, w@).len() - 2) as nat),
    ensures
        r@ == regrouped(s@, w@, perm@),
        r@.len() == s@.len(),
{
    let parts = split_on(s, w);
    proof {
        assert(views(parts@).len() == parts.len());
        lemma_regrouped_len(s@, w@, perm@);
    }
    let m = parts.len() - 2;
    let ghost order = perm@;
    proof {
        assert forall|x: int| 0 <= x < perm.len() implies #[trigger] perm@[x] < m by {
            assert(perm@.to_multiset().count(perm@[x]) > 0);
            assert(Seq::new(m as nat, |y: int| y as usize).contains(perm@[x]));
        }
        vstd::seq_lib::to_multiset_len(perm@);
        vstd::seq_lib::to_multiset_len(Seq::new(m as nat, |y: int| y as usize));
    }
    let mut pieces: Vec<Vec<char>> = Vec::new();
    pieces.push(copy_range(&parts[0], 0, parts[0].len()));
    let mut t: usize = 0;
    while t < m
        invariant
            m == parts.len() - 2,
            parts.len() > 2,
            perm.len() == m,
            forall|x: int| 0 <= x < m ==> #[trigger] perm@[x] < m,
            t <= m,
            pieces.len() == t + 1,
            pieces@[0]@ == parts@[0]@,
            forall|x: int| 1 <= x <= t ==> (#[trigger] pieces@[x])@ == parts@[1 + perm@[x - 1]]@,
        decreases m - t,
    {
        let o = perm[t];
        pieces.push(copy_range(&parts[1 + o], 0, parts[1 + o].len()));
        t += 1;
    }
    let last = parts.len() - 1;
    pieces.push(copy_range(&parts[last], 0, parts[last].len()));
    let out = join_with(w, &pieces);
    proof {
        let pv = split_spec(s@, w@);
        assert(views(parts@) == pv);
        assert(parts@[0]@.subrange(0, parts@[0].len() as int) =~= parts@[0]@);
        assert(parts@[last as int]@.subrange(0, parts@[last as int].len() as int) =~= parts@[last as int]@);
        let rhs = seq![pv[0]] + Seq::new(m as nat, |x: int| pv[1 + perm@[x]]) + seq![pv.last()];
        assert forall|x: int| 0 <= x < m + 2 implies #[trigger] views(pieces@)[x] == rhs[x] by {
            if 1 <= x <= m {
                assert(pieces@[x]@ == parts@[1 + perm@[x - 1]]@);
                assert(rhs[x] == pv[1 + perm@[x - 1]]);
            } else if x == 0 {
                assert(rhs[x] == pv[0]);
            } else {
                assert(rhs[x] == pv.last());
            }
        }
        assert(views(pieces@) =~= rhs);
    }
    out
}

/// Split-and-shuffle permutation: `seq` is split at every occurrence of the first
/// (k-1)-word over A, C, G, T (in lexicographic order) that cuts it into more than two
/// pieces; the inner pieces are shuffled and the whole joined again by that word.
pub fn method_r(seq: &str, k: usize) -> (r: String)
    requires
        k >= 2,
        exists|i: int| 0 <= i < words(nucleotides(), (k - 1) as nat).len()
            && #[trigger] splits(seq@, words(nucleotides(), (k - 1) as nat)[i]),
    ensures
        r@.len() == seq@.len(),
        exists|i: int, perm: Seq<usize>| {
            &&& 0 <= i < words(nucleotides(), (k - 1) as nat).len()
            &&& #[trigger] splits(seq@, words(nucleotides(), (k - 1) as nat)[i])
            &&& forall|j: int| 0 <= j < i ==> !splits(seq@, #[trigger] words(nucleotides(), (k - 1) as nat)[j])
            &&& is_permutation(perm, (split_spec(seq@, words(nucleotides(), (k - 1) as nat)[i]).len() - 2) as nat)
            &&& #[trigger] regrouped(seq@, words(nucleotides(), (k - 1) as nat)[i], perm) == r@
        },
{
    let s = chars_of(seq);
    let alpha: Vec<char> = vec!['A', 'C', 'G', 'T'];
    assert(alpha@ =~= nucleotides());
    let ws = words_over(&alpha, k - 1);
    let ghost wv = words(nucleotides(), (k - 1) as nat);
    let mut i: usize = 0;
    while i < ws.len()
        invariant
            views(ws@) == wv,
            wv == words(nucleotides(), (k - 1) as nat),
            i <= ws.len(),
            forall|j: int| 0 <= j < i ==> !splits(seq@, #[trigger] wv[j]),
            s@ == seq@,
        decreases ws.len() - i,
    {
        assert(wv[i as int] == ws@[i as int]@);
        if ws[i].len() >= 1 {
            let parts = split_on(&s, &ws[i]);
            if parts.len() > 2 {
                let m = parts.len() - 2;
                let mut order: Vec<usize> = Vec::new();
                let mut t: usize = 0;
                while t < m
                    invariant
                        t <= m,
                        order@ == Seq::new(t as nat, |x: int| x as usize),
                    decreases m - t,
                {
                    order.push(t);
                    assert(order@ =~= Seq::new((t + 1) as nat, |x: int| x as usize));
                    t += 1;
                }
                shuffle(&mut order);
                let out = regroup(&s, &ws[i], &order);
                proof {
                    assert(splits(seq@, wv[i as int]));
                }
                return string_of(&out);
            }
        }
        i += 1;
    }
    // cannot happen: `requires` names a word that splits `seq`
    proof {
        let j = choose|j: int| 0 <= j < wv.len() && #[trigger] splits(seq@, wv[j]);
        assert(!splits(seq@, wv[j]));
    }
    string_of(&s)
}

} // verus!
