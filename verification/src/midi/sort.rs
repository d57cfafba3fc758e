//! Stable ordering of keyed records.
//!
//! Records carry a primary key and their input position; ordering by the
//! pair makes every key distinct, so the sorted result is unique and equal
//! to a stable sort by the primary key alone.

use vstd::multiset::Multiset;
use vstd::prelude::*;

verus! {

broadcast use vstd::seq_lib::group_to_multiset_ensures, vstd::seq_lib::lemma_multiset_commutative;

/// Lexicographic order on `(primary key, input position)`.
pub open spec fn key_le<T>(a: (u128, usize, T), b: (u128, usize, T)) -> bool {
    a.0 < b.0 || (a.0 == b.0 && a.1 <= b.1)
}

/// `s` is ordered by `(primary key, input position)`.
pub open spec fn sorted_by_key<T>(s: Seq<(u128, usize, T)>) -> bool {
    forall|i: int, j: int| 0 <= i < j < s.len() ==> key_le(#[trigger] s[i], #[trigger] s[j])
}

fn le<T: Copy>(a: &(u128, usize, T), b: &(u128, usize, T)) -> (r: bool)
    ensures
        r == key_le(*a, *b),
{
    a.0 < b.0 || (a.0 == b.0 && a.1 <= b.1)
}

fn merge<T: Copy>(a: Vec<(u128, usize, T)>, b: Vec<(u128, usize, T)>) -> (r: Vec<(u128, usize, T)>)
    requires
        sorted_by_key(a@),
        sorted_by_key(b@),
    ensures
        sorted_by_key(r@),
        r@.to_multiset() == a@.to_multiset().add(b@.to_multiset()),
{
    let mut r: Vec<(u128, usize, T)> = Vec::new();
    let mut i: usize = 0;
    let mut j: usize = 0;
    proof {
        assert(a@.take(0) =~= Seq::<(u128, usize, T)>::empty());
        assert(b@.take(0) =~= Seq::<(u128, usize, T)>::empty());
    }
    while i < a.len() || j < b.len()
        invariant
            i <= a.len(),
            j <= b.len(),
            sorted_by_key(a@),
            sorted_by_key(b@),
            sorted_by_key(r@),
            r@.len() == i + j,
            r@.to_multiset() == a@.take(i as int).to_multiset().add(b@.take(j as int).to_multiset()),
            r@.len() > 0 && i < a.len() ==> key_le(r@.last(), a@[i as int]),
            r@.len() > 0 && j < b.len() ==> key_le(r@.last(), b@[j as int]),
        decreases a.len() + b.len() - i - j,
    {
        let take_a = j >= b.len() || (i < a.len() && le(&a[i], &b[j]));
        if take_a {
            let x = a[i];
            proof {
                assert(a@.take(i + 1) =~= a@.take(i as int).push(x));
            }
            r.push(x);
            i = i + 1;
        } else {
            let x = b[j];
            proof {
                assert(b@.take(j + 1) =~= b@.take(j as int).push(x));
            }
            r.push(x);
            j = j + 1;
        }
    }
    proof {
        assert(a@.take(a.len() as int) =~= a@);
        assert(b@.take(b.len() as int) =~= b@);
    }
    r
}

/// Sorts `v` by `(primary key, input position)`.
pub fn sort_by_key<T: Copy>(v: Vec<(u128, usize, T)>) -> (r: Vec<(u128, usize, T)>)
    ensures
        sorted_by_key(r@),
        r@.to_multiset() == v@.to_multiset(),
    decreases v.len(),
{
    let n = v.len();
    if n <= 1 {
        return v;
    }
    let mid = n / 2;
    let mut left: Vec<(u128, usize, T)> = Vec::new();
    let mut right: Vec<(u128, usize, T)> = Vec::new();
    let mut k: usize = 0;
    while k < n
        invariant
            n == v.len(),
            mid == n / 2,
            k <= n,
            k <= mid ==> left@ =~= v@.take(k as int) && right@.len() == 0,
            k > mid ==> left@ =~= v@.take(mid as int) && right@ =~= v@.subrange(mid as int, k as int),
        decreases n - k,
    {
        if k < mid {
            left.push(v[k]);
        } else {
            right.push(v[k]);
        }
        k = k + 1;
    }
    proof {
        assert(v@ =~= left@ + right@);
    }
    let sl = sort_by_key(left);
    let sr = sort_by_key(right);
    merge(sl, sr)
}

/// Each record tagged with its position.
pub open spec fn tagged<T>(s: Seq<(u128, T)>) -> Seq<(u128, usize, T)> {
    Seq::new(s.len(), |i: int| (s[i].0, i as usize, s[i].1))
}

/// `r` is `s` ordered by key, records of equal key kept in their order.
pub open spec fn is_stable_order<T>(r: Seq<(u128, usize, T)>, s: Seq<(u128, T)>) -> bool {
    &&& sorted_by_key(r)
    &&& r.to_multiset() == tagged(s).to_multiset()
}

/// The stable ordering of `s` by key (unique, see `lemma_stable_order_unique`).
pub open spec fn stable_order<T>(s: Seq<(u128, T)>) -> Seq<(u128, usize, T)> {
    choose|r: Seq<(u128, usize, T)>| is_stable_order(r, s)
}

/// Records of the multiset are told apart by their position tag.
pub open spec fn positions_distinct<T>(m: Multiset<(u128, usize, T)>) -> bool {
    forall|x: (u128, usize, T), y: (u128, usize, T)|
        #![trigger m.count(x), m.count(y)]
        m.count(x) > 0 && m.count(y) > 0 && x.1 == y.1 ==> x == y
}

proof fn lemma_tagged_distinct<T>(s: Seq<(u128, T)>)
    requires
        s.len() <= usize::MAX + 1,
    ensures
        positions_distinct(tagged(s).to_multiset()),
{
    let t = tagged(s);
    assert forall|x: (u128, usize, T), y: (u128, usize, T)|
        #![trigger t.to_multiset().count(x), t.to_multiset().count(y)]
        t.to_multiset().count(x) > 0 && t.to_multiset().count(y) > 0 && x.1 == y.1 implies x == y by {
        assert(t.contains(x));
        assert(t.contains(y));
        let i = choose|i: int| 0 <= i < t.len() && t[i] == x;
        let j = choose|j: int| 0 <= j < t.len() && t[j] == y;
        assert(i == j);
    }
}

proof fn lemma_first_is_least<T>(r: Seq<(u128, usize, T)>, y: (u128, usize, T))
    requires
        sorted_by_key(r),
        r.len() > 0,
        r.to_multiset().count(y) > 0,
    ensures
        key_le(r[0], y),
{
    assert(r.contains(y));
    let j = choose|j: int| 0 <= j < r.len() && r[j] == y;
    if j > 0 {
        assert(key_le(r[0], r[j]));
    }
}

/// Two key orderings of the same records are the same sequence.
pub proof fn lemma_order_unique<T>(r1: Seq<(u128, usize, T)>, r2: Seq<(u128, usize, T)>)
    requires
        sorted_by_key(r1),
        sorted_by_key(r2),
        r1.to_multiset() == r2.to_multiset(),
        positions_distinct(r1.to_multiset()),
    ensures
        r1 == r2,
    decreases r1.len(),
{
    assert(r1.len() == r2.len()) by {
        vstd::seq_lib::to_multiset_len(r1);
        vstd::seq_lib::to_multiset_len(r2);
    }
    if r1.len() > 0 {
        let x = r1[0];
        let y = r2[0];
        assert(r1.contains(x));
        assert(r2.contains(y));
        lemma_first_is_least(r1, y);
        lemma_first_is_least(r2, x);
        assert(x == y);
        let d1 = r1.drop_first();
        let d2 = r2.drop_first();
        assert(r1.remove(0) =~= d1);
        assert(r2.remove(0) =~= d2);
        assert(d1.to_multiset() == r1.to_multiset().remove(x));
        assert(d2.to_multiset() == r2.to_multiset().remove(y));
        assert(sorted_by_key(d1)) by {
            assert forall|i: int, j: int| 0 <= i < j < d1.len() implies key_le(#[trigger] d1[i], #[trigger] d1[j]) by {
                assert(key_le(r1[i + 1], r1[j + 1]));
            }
        }
        assert(sorted_by_key(d2)) by {
            assert forall|i: int, j: int| 0 <= i < j < d2.len() implies key_le(#[trigger] d2[i], #[trigger] d2[j]) by {
                assert(key_le(r2[i + 1], r2[j + 1]));
            }
        }
        assert(positions_distinct(d1.to_multiset())) by {
            assert forall|a: (u128, usize, T), b: (u128, usize, T)|
                #![trigger d1.to_multiset().count(a), d1.to_multiset().count(b)]
                d1.to_multiset().count(a) > 0 && d1.to_multiset().count(b) > 0 && a.1 == b.1 implies a == b by {
                assert(r1.to_multiset().count(a) > 0);
                assert(r1.to_multiset().count(b) > 0);
            }
        }
        lemma_order_unique(d1, d2);
        assert(r1 =~= r2) by {
            assert forall|i: int| 0 <= i < r1.len() implies r1[i] == r2[i] by {
                if i > 0 {
                    assert(r1[i] == d1[i - 1]);
                    assert(r2[i] == d2[i - 1]);
                }
            }
        }
    }
}

/// The stable ordering of a sequence is unique.
pub proof fn lemma_stable_order_unique<T>(r1: Seq<(u128, usize, T)>, r2: Seq<(u128, usize, T)>, s: Seq<(u128, T)>)
    requires
        s.len() <= usize::MAX + 1,
        is_stable_order(r1, s),
        is_stable_order(r2, s),
    ensures
        r1 == r2,
{
    lemma_tagged_distinct(s);
    lemma_order_unique(r1, r2);
}

/// `x` inserted into the ordered `r` after every record not above it.
pub open spec fn insert_ordered<T>(r: Seq<(u128, usize, T)>, x: (u128, usize, T)) -> Seq<(u128, usize, T)>
    decreases r.len(),
{
    if r.len() == 0 {
        seq![x]
    } else if key_le(x, r[0]) {
        seq![x] + r
    } else {
        seq![r[0]] + insert_ordered(r.drop_first(), x)
    }
}

/// Insertion ordering of `s`.
pub open spec fn insertion_order<T>(s: Seq<(u128, usize, T)>) -> Seq<(u128, usize, T)>
    decreases s.len(),
{
    if s.len() == 0 {
        seq![]
    } else {
        insert_ordered(insertion_order(s.drop_last()), s.last())
    }
}

proof fn lemma_insert_ordered<T>(r: Seq<(u128, usize, T)>, x: (u128, usize, T))
    requires
        sorted_by_key(r),
    ensures
        sorted_by_key(insert_ordered(r, x)),
        insert_ordered(r, x).to_multiset() == r.to_multiset().insert(x),
    decreases r.len(),
{
    if r.len() == 0 {
        assert(seq![x] =~= Seq::<(u128, usize, T)>::empty().push(x));
    } else if key_le(x, r[0]) {
        let q = seq![x] + r;
        assert(sorted_by_key(q)) by {
            assert forall|i: int, j: int| 0 <= i < j < q.len() implies key_le(#[trigger] q[i], #[trigger] q[j]) by {
                if i > 0 {
                    assert(key_le(r[i - 1], r[j - 1]));
                } else if j > 1 {
                    assert(key_le(r[0], r[j - 1]));
                }
            }
        }
        vstd::seq_lib::lemma_multiset_commutative(seq![x], r);
        assert(seq![x] =~= Seq::<(u128, usize, T)>::empty().push(x));
    } else {
        let d = r.drop_first();
        assert(sorted_by_key(d)) by {
            assert forall|i: int, j: int| 0 <= i < j < d.len() implies key_le(#[trigger] d[i], #[trigger] d[j]) by {
                assert(key_le(r[i + 1], r[j + 1]));
            }
        }
        lemma_insert_ordered(d, x);
        let rest = insert_ordered(d, x);
        let q = seq![r[0]] + rest;
        assert(r =~= seq![r[0]] + d);
        vstd::seq_lib::lemma_multiset_commutative(seq![r[0]], d);
        vstd::seq_lib::lemma_multiset_commutative(seq![r[0]], rest);
        assert(sorted_by_key(q)) by {
            assert forall|i: int, j: int| 0 <= i < j < q.len() implies key_le(#[trigger] q[i], #[trigger] q[j]) by {
                if i == 0 {
                    let y = rest[j - 1];
                    assert(rest.to_multiset().count(y) > 0) by {
                        assert(rest.contains(y));
                    }
                    if y != x {
                        assert(d.to_multiset().count(y) > 0);
                        assert(d.contains(y));
                        let k = choose|k: int| 0 <= k < d.len() && d[k] == y;
                        assert(key_le(r[0], r[k + 1]));
                    }
                }
            }
        }
    }
}

proof fn lemma_insertion_order<T>(s: Seq<(u128, usize, T)>)
    ensures
        sorted_by_key(insertion_order(s)),
        insertion_order(s).to_multiset() == s.to_multiset(),
    decreases s.len(),
{
    if s.len() > 0 {
        lemma_insertion_order(s.drop_last());
        lemma_insert_ordered(insertion_order(s.drop_last()), s.last());
        assert(s =~= s.drop_last().push(s.last()));
    }
}

/// Every sequence has a stable ordering.
pub proof fn lemma_stable_order_exists<T>(s: Seq<(u128, T)>)
    ensures
        is_stable_order(stable_order(s), s),
{
    lemma_insertion_order(tagged(s));
    assert(is_stable_order(insertion_order(tagged(s)), s));
}

/// The stable ordering holds the same records as the tagged sequence.
pub proof fn lemma_stable_order_len<T>(s: Seq<(u128, T)>)
    ensures
        stable_order(s).len() == s.len(),
{
    lemma_stable_order_exists(s);
    vstd::seq_lib::to_multiset_len(stable_order(s));
    vstd::seq_lib::to_multiset_len(tagged(s));
}

/// Every record of a stable ordering is one of the tagged records.
pub proof fn lemma_order_member<T>(r: Seq<(u128, usize, T)>, s: Seq<(u128, T)>, k: int)
    requires
        is_stable_order(r, s),
        0 <= k < r.len(),
    ensures
        exists|i: int| 0 <= i < s.len() && r[k] == #[trigger] tagged(s)[i],
{
    assert(r.contains(r[k]));
    assert(r.to_multiset().count(r[k]) > 0);
    assert(tagged(s).contains(r[k]));
}

/// Mapping two sequences with the same records gives sequences with the
/// same records.
pub proof fn lemma_map_multiset<A, B>(r: Seq<A>, q: Seq<A>, f: spec_fn(A) -> B)
    requires
        r.to_multiset() == q.to_multiset(),
    ensures
        r.map_values(f).to_multiset() == q.map_values(f).to_multiset(),
    decreases r.len(),
{
    vstd::seq_lib::to_multiset_len(r);
    vstd::seq_lib::to_multiset_len(q);
    if r.len() > 0 {
        let x = r[0];
        assert(r.contains(x));
        assert(r.to_multiset().count(x) > 0);
        assert(q.to_multiset().count(x) > 0);
        assert(q.contains(x));
        let k = choose|k: int| 0 <= k < q.len() && q[k] == x;
        let rd = r.drop_first();
        let qr = q.remove(k);
        assert(r.remove(0) =~= rd);
        assert(rd.to_multiset() == qr.to_multiset());
        lemma_map_multiset(rd, qr, f);
        assert(q.map_values(f).remove(k) =~= qr.map_values(f));
        assert(q.map_values(f)[k] == f(x));
        assert(r.map_values(f) =~= seq![f(x)] + rd.map_values(f));
        vstd::seq_lib::lemma_multiset_commutative(seq![f(x)], rd.map_values(f));
        assert(seq![f(x)] =~= Seq::<B>::empty().push(f(x)));
        let mq = q.map_values(f).to_multiset();
        assert(mq.count(f(x)) > 0) by {
            assert(q.map_values(f).contains(f(x)));
        }
        assert(mq.remove(f(x)).insert(f(x)) =~= mq);
    }
}

/// Moves record tag `i` past a record inserted at position `k`.
pub open spec fn shift_tag<T>(e: (u128, usize, T), k: int) -> (u128, usize, T) {
    (e.0, (if (e.1 as int) < k { e.1 as int } else { e.1 + 1 }) as usize, e.2)
}

/// A record whose key is below that of every record before it and at most
/// that of every record after it comes first in a stable ordering, ahead
/// of the stable ordering of the others.
pub proof fn lemma_stable_order_min_first<T>(a: Seq<(u128, T)>, x: (u128, T), b: Seq<(u128, T)>)
    requires
        a.len() + 1 + b.len() <= usize::MAX + 1,
        forall|i: int| 0 <= i < a.len() ==> x.0 < (#[trigger] a[i]).0,
        forall|i: int| 0 <= i < b.len() ==> x.0 <= (#[trigger] b[i]).0,
    ensures
        stable_order(a + seq![x] + b).map_values(|r: (u128, usize, T)| r.2) == seq![x.1] + stable_order(
            a + b,
        ).map_values(|r: (u128, usize, T)| r.2),
{
    let s = a + seq![x] + b;
    let s2 = a + b;
    let k = a.len() as int;
    lemma_stable_order_exists(s2);
    lemma_stable_order_exists(s);
    let r2 = stable_order(s2);
    let sh = |e: (u128, usize, T)| shift_tag(e, k);
    let e0: (u128, usize, T) = (x.0, k as usize, x.1);
    let r = seq![e0] + r2.map_values(sh);
    vstd::seq_lib::to_multiset_len(r2);
    vstd::seq_lib::to_multiset_len(tagged(s2));
    // Each record of r2 is a tagged record of s2.
    assert forall|j: int| 0 <= j < r2.len() implies {
        let e = #[trigger] r2[j];
        &&& 0 <= e.1 < s2.len()
        &&& e.0 == s2[e.1 as int].0
        &&& e.2 == s2[e.1 as int].1
    } by {
        lemma_order_member(r2, s2, j);
        let m = choose|m: int| 0 <= m < s2.len() && r2[j] == #[trigger] tagged(s2)[m];
        assert(tagged(s2)[m] == (s2[m].0, m as usize, s2[m].1));
    }
    assert(sorted_by_key(r)) by {
        assert forall|i: int, j: int| 0 <= i < j < r.len() implies key_le(#[trigger] r[i], #[trigger] r[j]) by {
            let ej = r2[j - 1];
            assert(r[j] == shift_tag(ej, k));
            if i == 0 {
                assert(r[i] == e0);
                if (ej.1 as int) < k {
                    assert(s2[ej.1 as int] == a[ej.1 as int]);
                } else {
                    assert(s2[ej.1 as int] == b[ej.1 - k]);
                }
            } else {
                let ei = r2[i - 1];
                assert(r[i] == shift_tag(ei, k));
                assert(key_le(ei, ej));
            }
        }
    }
    assert(r.to_multiset() == tagged(s).to_multiset()) by {
        let ts = tagged(s2).map_values(sh);
        lemma_map_multiset(r2, tagged(s2), sh);
        let t1 = ts.take(k);
        let t2 = ts.skip(k);
        assert(tagged(s) =~= t1 + seq![e0] + t2) by {
            assert forall|i: int| 0 <= i < s.len() implies #[trigger] tagged(s)[i] == (t1 + seq![e0] + t2)[i] by {
                if i < k {
                    assert(ts[i] == shift_tag(tagged(s2)[i], k));
                } else if i > k {
                    assert(ts[i - 1] == shift_tag(tagged(s2)[i - 1], k));
                }
            }
        }
        assert(ts =~= t1 + t2);
        assert(r.to_multiset() =~= tagged(s).to_multiset());
    }
    lemma_stable_order_unique(r, stable_order(s), s);
    let strip = |e: (u128, usize, T)| e.2;
    assert(r.map_values(strip) =~= seq![x.1] + r2.map_values(strip));
}

/// Records already in key order are their own stable ordering.
pub proof fn lemma_stable_order_sorted<T>(s: Seq<(u128, T)>)
    requires
        s.len() <= usize::MAX + 1,
        forall|i: int, j: int| 0 <= i < j < s.len() ==> (#[trigger] s[i]).0 <= (#[trigger] s[j]).0,
    ensures
        stable_order(s) == tagged(s),
{
    let t = tagged(s);
    assert(sorted_by_key(t)) by {
        assert forall|i: int, j: int| 0 <= i < j < t.len() implies key_le(#[trigger] t[i], #[trigger] t[j]) by {
            assert(t[i] == (s[i].0, i as usize, s[i].1));
            assert(t[j] == (s[j].0, j as usize, s[j].1));
        }
    }
    assert(is_stable_order(t, s));
    lemma_stable_order_exists(s);
    lemma_stable_order_unique(t, stable_order(s), s);
}

/// Orders `v` by key, records of equal key kept in their order.
pub fn stable_sort<T: Copy>(v: &Vec<(u128, T)>) -> (r: Vec<(u128, usize, T)>)
    ensures
        r@ == stable_order(v@),
        is_stable_order(r@, v@),
{
    let mut t: Vec<(u128, usize, T)> = Vec::new();
    let mut i: usize = 0;
    while i < v.len()
        invariant
            i <= v.len(),
            t@ =~= tagged(v@).take(i as int),
        decreases v.len() - i,
    {
        let (k, x) = v[i];
        t.push((k, i, x));
        i = i + 1;
    }
    proof {
        assert(tagged(v@).take(v.len() as int) =~= tagged(v@));
    }
    let r = sort_by_key(t);
    proof {
        assert(is_stable_order(r@, v@));
        let c = stable_order(v@);
        assert(is_stable_order(c, v@));
        lemma_stable_order_unique(r@, c, v@);
    }
    r
}

} // verus!
