use vstd::prelude::*;
use vstd::string::*;

verus! {

broadcast use vstd::seq_lib::group_to_multiset_ensures;

/// The length-`k` window of `s` that starts at position `i`.
pub open spec fn window(s: Seq<char>, i: int, k: nat) -> Seq<char> {
    s.subrange(i, i + k)
}

/// All overlapping length-`k` windows of `s`, left to right (none when `k > |s|`).
pub open spec fn klets(s: Seq<char>, k: nat) -> Seq<Seq<char>> {
    if k <= s.len() {
        Seq::new((s.len() - k + 1) as nat, |i: int| window(s, i, k))
    } else {
        Seq::empty()
    }
}

/// Consecutive non-overlapping chunks of `step` symbols; the last one may be shorter.
pub open spec fn chunks(s: Seq<char>, step: nat) -> Seq<Seq<char>>
    decreases s.len(),
{
    if s.len() == 0 || step == 0 {
        Seq::empty()
    } else if s.len() <= step {
        seq![s]
    } else {
        seq![s.subrange(0, step as int)] + chunks(s.subrange(step as int, s.len() as int), step)
    }
}

/// Two sequences have the same length and the same multiset of length-`k` substrings.
pub open spec fn same_klets_spec(s1: Seq<char>, s2: Seq<char>, k: nat) -> bool {
    s1.len() == s2.len() && klets(s1, k).to_multiset() == klets(s2, k).to_multiset()
}

/// Two sequences have the same length and the same multiset of non-overlapping chunks.
pub open spec fn same_klons_spec(s1: Seq<char>, s2: Seq<char>, k: nat) -> bool {
    s1.len() == s2.len() && chunks(s1, k).to_multiset() == chunks(s2, k).to_multiset()
}

/// The symbols of each vector.
pub open spec fn views(v: Seq<Vec<char>>) -> Seq<Seq<char>> {
    v.map_values(|x: Vec<char>| x@)
}

/// The symbols of each string.
pub open spec fn string_views(v: Seq<String>) -> Seq<Seq<char>> {
    v.map_values(|x: String| x@)
}

/// Every sequence has the same k-lets as itself.
pub proof fn lemma_same_klets_reflexive(s: Seq<char>, k: nat)
    ensures
        same_klets_spec(s, s, k),
{
}

/// The symbols of `s`, one per element.
pub fn chars_of(s: &str) -> (r: Vec<char>)
    ensures
        r@ == s@,
{
    let n = s.unicode_len();
    let mut r: Vec<char> = Vec::new();
    let mut i: usize = 0;
    while i < n
        invariant
            n == s@.len(),
            i <= n,
            r@ == s@.subrange(0, i as int),
        decreases n - i,
    {
        r.push(s.get_char(i));
        i += 1;
    }
    r
}

/// Whether `x[i..i+len]` and `y[j..j+len]` hold the same symbols.
pub fn eq_range(x: &Vec<char>, i: usize, y: &Vec<char>, j: usize, len: usize) -> (r: bool)
    requires
        i + len <= x.len(),
        j + len <= y.len(),
    ensures
        r == (x@.subrange(i as int, i + len) == y@.subrange(j as int, j + len)),
{
    let mut t: usize = 0;
    while t < len
        invariant
            t <= len,
            i + len <= x.len(),
            j + len <= y.len(),
            x@.subrange(i as int, i + t) == y@.subrange(j as int, j + t),
        decreases len - t,
    {
        if x[i + t] != y[j + t] {
            assert(x@.subrange(i as int, i + len)[t as int] != y@.subrange(j as int, j + len)[t as int]);
            return false;
        }
        assert(x@.subrange(i as int, i + t + 1) =~= x@.subrange(i as int, i + t).push(x[i + t]));
        assert(y@.subrange(j as int, j + t + 1) =~= y@.subrange(j as int, j + t).push(y[j + t]));
        t += 1;
    }
    true
}

fn eq_chars(x: &Vec<char>, y: &Vec<char>) -> (r: bool)
    ensures
        r == (x@ == y@),
{
    if x.len() != y.len() {
        return false;
    }
    let r = eq_range(x, 0, y, 0, x.len());
    assert(x@.subrange(0, x.len() as int) =~= x@);
    assert(y@.subrange(0, y.len() as int) =~= y@);
    r
}

/// How many elements of `v` equal `x`.
fn count_of(x: &Vec<char>, v: &Vec<Vec<char>>) -> (c: usize)
    ensures
        c == views(v@).to_multiset().count(x@),
{
    let ghost vs = views(v@);
    let mut c: usize = 0;
    let mut i: usize = 0;
    while i < v.len()
        invariant
            vs == views(v@),
            i <= v.len(),
            c <= i,
            c == vs.subrange(0, i as int).to_multiset().count(x@),
        decreases v.len() - i,
    {
        proof {
            assert(vs.subrange(0, i + 1) =~= vs.subrange(0, i as int).push(vs[i as int]));
        }
        if eq_chars(&v[i], x) {
            c += 1;
        }
        i += 1;
    }
    assert(vs.subrange(0, v.len() as int) =~= vs);
    c
}

/// Whether the two lists hold each item equally often.
pub fn same_frequencies(a: &Vec<Vec<char>>, b: &Vec<Vec<char>>) -> (r: bool)
    ensures
        r == (views(a@).to_multiset() == views(b@).to_multiset()),
{
    let ghost ma = views(a@).to_multiset();
    let ghost mb = views(b@).to_multiset();
    let mut i: usize = 0;
    while i < a.len()
        invariant
            i <= a.len(),
            ma == views(a@).to_multiset(),
            mb == views(b@).to_multiset(),
            forall|t: int| 0 <= t < i ==> ma.count(#[trigger] views(a@)[t]) == mb.count(views(a@)[t]),
        decreases a.len() - i,
    {
        if count_of(&a[i], a) != count_of(&a[i], b) {
            return false;
        }
        i += 1;
    }
    let mut j: usize = 0;
    while j < b.len()
        invariant
            j <= b.len(),
            ma == views(a@).to_multiset(),
            mb == views(b@).to_multiset(),
            forall|t: int| 0 <= t < a.len() ==> ma.count(#[trigger] views(a@)[t]) == mb.count(views(a@)[t]),
            forall|t: int| 0 <= t < j ==> ma.count(#[trigger] views(b@)[t]) == mb.count(views(b@)[t]),
        decreases b.len() - j,
    {
        if count_of(&b[j], a) != count_of(&b[j], b) {
            return false;
        }
        j += 1;
    }
    proof {
        assert forall|x: Seq<char>| ma.count(x) == mb.count(x) by {
            if ma.count(x) > 0 {
                let t = choose|t: int| 0 <= t < views(a@).len() && views(a@)[t] == x;
                assert(ma.count(views(a@)[t]) == mb.count(views(a@)[t]));
            } else if mb.count(x) > 0 {
                let t = choose|t: int| 0 <= t < views(b@).len() && views(b@)[t] == x;
                assert(ma.count(views(b@)[t]) == mb.count(views(b@)[t]));
            }
        }
        assert(ma =~= mb);
    }
    true
}

/// The overlapping length-`k` windows of `s` (none when `k > |s|`).
pub fn windows_of(s: &Vec<char>, k: usize) -> (r: Vec<Vec<char>>)
    ensures
        views(r@) == klets(s@, k as nat),
{
    let mut r: Vec<Vec<char>> = Vec::new();
    if k > s.len() {
        assert(views(r@) =~= klets(s@, k as nat));
        return r;
    }
    let last = s.len() - k;
    let mut i: usize = 0;
    loop
        invariant_except_break
            i <= last,
            r.len() == i,
            forall|t: int| 0 <= t < i ==> (#[trigger] r@[t])@ == window(s@, t, k as nat),
        invariant
            last == s.len() - k,
            k <= s.len(),
        ensures
            r.len() == last + 1,
            forall|t: int| 0 <= t <= last ==> (#[trigger] r@[t])@ == window(s@, t, k as nat),
        decreases last - i,
    {
        let mut w: Vec<char> = Vec::new();
        let mut t: usize = 0;
        while t < k
            invariant
                i <= last,
                last == s.len() - k,
                t <= k,
                w@ == s@.subrange(i as int, i + t),
            decreases k - t,
        {
            w.push(s[i + t]);
            t += 1;
        }
        r.push(w);
        if i == last {
            break;
        }
        i += 1;
    }
    assert(views(r@) =~= klets(s@, k as nat));
    r
}

/// The non-overlapping chunks of `s` of `step` symbols, the last one possibly shorter.
pub fn chunks_of(s: &Vec<char>, step: usize) -> (r: Vec<Vec<char>>)
    requires
        step > 0,
    ensures
        views(r@) == chunks(s@, step as nat),
{
    let mut r: Vec<Vec<char>> = Vec::new();
    let mut pos: usize = 0;
    assert(s@.subrange(0, s.len() as int) =~= s@);
    assert(views(r@) + chunks(s@, step as nat) =~= chunks(s@, step as nat));
    while pos < s.len()
        invariant
            step > 0,
            pos <= s.len(),
            views(r@) + chunks(s@.subrange(pos as int, s.len() as int), step as nat) == chunks(s@, step as nat),
        decreases s.len() - pos,
    {
        let end: usize = if s.len() - pos <= step { s.len() } else { pos + step };
        let mut w: Vec<char> = Vec::new();
        let mut t: usize = pos;
        while t < end
            invariant
                pos <= t <= end <= s.len(),
                w@ == s@.subrange(pos as int, t as int),
            decreases end - t,
        {
            w.push(s[t]);
            t += 1;
        }
        proof {
            let rest = s@.subrange(pos as int, s.len() as int);
            assert(rest.subrange(0, (end - pos) as int) =~= w@);
            assert(views(r@.push(w)) =~= views(r@).push(w@));
            if end == s.len() {
                assert(rest =~= w@);
                assert(s@.subrange(s.len() as int, s.len() as int) =~= Seq::<char>::empty());
                assert(views(r@).push(w@) + Seq::<Seq<char>>::empty() =~= views(r@) + seq![rest]);
            } else {
                assert(rest.subrange(step as int, rest.len() as int) =~= s@.subrange(end as int, s.len() as int));
                assert(views(r@).push(w@) + chunks(s@.subrange(end as int, s.len() as int), step as nat)
                    =~= views(r@) + (seq![w@] + chunks(s@.subrange(end as int, s.len() as int), step as nat)));
            }
        }
        r.push(w);
        pos = end;
    }
    proof {
        assert(chunks(s@.subrange(pos as int, s.len() as int), step as nat) =~= Seq::<Seq<char>>::empty());
        assert(views(r@) + Seq::<Seq<char>>::empty() =~= views(r@));
    }
    r
}

fn to_strings(v: &Vec<Vec<char>>) -> (r: Vec<String>)
    ensures
        string_views(r@) == views(v@),
{
    let mut r: Vec<String> = Vec::new();
    let mut i: usize = 0;
    while i < v.len()
        invariant
            i <= v.len(),
            r.len() == i,
            forall|t: int| 0 <= t < i ==> (#[trigger] r@[t])@ == v@[t]@,
        decreases v.len() - i,
    {
        r.push(string_of(&v[i]));
        i += 1;
    }
    assert(string_views(r@) =~= views(v@));
    r
}

/// Relies on String::push: appends one char at the end.
#[verifier::external_body]
fn push_char(s: &mut String, c: char)
    ensures
        final(s)@ == old(s)@.push(c),
{
    s.push(c)
}

/// A string holding the symbols of `v`, in order.
pub fn string_of(v: &Vec<char>) -> (r: String)
    ensures
        r@ == v@,
{
    let mut r = String::new();
    let mut i: usize = 0;
    while i < v.len()
        invariant
            i <= v.len(),
            r@ == v@.subrange(0, i as int),
        decreases v.len() - i,
    {
        push_char(&mut r, v[i]);
        i += 1;
    }
    r
}

/// Splits `seq` into consecutive non-overlapping blocks of `step` symbols:
/// "ABCDEFG", 3 gives "ABC", "DEF", "G".
pub fn each_step(seq: &str, step: usize) -> (r: Vec<String>)
    requires
        step > 0,
    ensures
        string_views(r@) == chunks(seq@, step as nat),
{
    let s = chars_of(seq);
    to_strings(&chunks_of(&s, step))
}

/// All overlapping blocks of `step` symbols of `seq`, left to right:
/// "ABCDEFG", 3 gives "ABC", "BCD", "CDE", "DEF", "EFG".
pub fn each_cons(seq: &str, step: usize) -> (r: Vec<String>)
    requires
        step <= seq@.len(),
    ensures
        string_views(r@) == klets(seq@, step as nat),
{
    let s = chars_of(seq);
    to_strings(&windows_of(&s, step))
}

/// Whether the two symbol vectors have equal length and the same length-`k` substrings,
/// each as often.
pub fn same_klets_chars(s1: &Vec<char>, s2: &Vec<char>, k: usize) -> (r: bool)
    ensures
        r == same_klets_spec(s1@, s2@, k as nat),
{
    s1.len() == s2.len() && same_frequencies(&windows_of(s1, k), &windows_of(s2, k))
}

/// Whether `s1` and `s2` have equal length and the same length-`k` substrings, each as often.
pub fn same_klets(s1: &str, s2: &str, k: usize) -> (r: bool)
    ensures
        r == same_klets_spec(s1@, s2@, k as nat),
{
    same_klets_chars(&chars_of(s1), &chars_of(s2), k)
}

/// Whether `s1` and `s2` have equal length and the same non-overlapping blocks of `k`
/// symbols, each as often.
pub fn same_klons(s1: &str, s2: &str, k: usize) -> (r: bool)
    requires
        k > 0,
    ensures
        r == same_klons_spec(s1@, s2@, k as nat),
{
    let a = chars_of(s1);
    let b = chars_of(s2);
    a.len() == b.len() && same_frequencies(&chunks_of(&a, k), &chunks_of(&b, k))
}

} // verus!
