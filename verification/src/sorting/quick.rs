use vstd::prelude::*;
use core::cmp::Ordering;
use vstd::laws_cmp::{
    obeys_cmp, obeys_cmp_ord, obeys_cmp_partial_ord, obeys_partial_cmp_spec_properties,
};
use vstd::laws_eq::obeys_eq_spec_properties;
use vstd::std_specs::cmp::{OrdSpec, PartialEqSpec, PartialOrdSpec};
use crate::randomization::lcg_random::shuffle_list;

verus! {

broadcast use vstd::seq_lib::group_to_multiset_ensures, vstd::multiset::group_multiset_axioms;

/// `a` comes no later than `b` in the order of the type.
pub open spec fn leq<T: Ord>(a: T, b: T) -> bool {
    a.cmp_spec(&b) != Ordering::Greater
}

// The number of positions of the window `[lo, hi]`.
spec fn window_size(lo: int, hi: int) -> int {
    if lo <= hi {
        hi - lo + 1
    } else {
        0
    }
}

// What the laws of a well-behaved `Ord` give: the executable
// comparison agrees with its specification, and that specification
// behaves as a total order.
pub proof fn lemma_cmp_props<T: Ord>()
    requires
        obeys_cmp::<T>(),
    ensures
        T::obeys_cmp_spec(),
        forall|a: T, b: T| #[trigger] leq(a, b) || #[trigger] leq(b, a),
        forall|a: T, b: T, c: T| #[trigger] leq(a, b) && #[trigger] leq(b, c) ==> leq(a, c),
        forall|a: T, b: T| (#[trigger] a.cmp_spec(&b) == Ordering::Less) <==> !leq(b, a),
{
    reveal(obeys_cmp_partial_ord);
    reveal(obeys_cmp_ord);
    reveal(obeys_partial_cmp_spec_properties);
    reveal(obeys_eq_spec_properties);
    assert forall|a: T, b: T| (#[trigger] a.cmp_spec(&b) == Ordering::Less) <==> !leq(b, a) by {
        if a.cmp_spec(&b) == Ordering::Less {
            assert(a.partial_cmp_spec(&b) == Some(Ordering::Less));
            assert(b.partial_cmp_spec(&a) == Some(Ordering::Greater));
            assert(b.cmp_spec(&a) == Ordering::Greater);
        } else if a.cmp_spec(&b) == Ordering::Equal {
            assert(a.partial_cmp_spec(&b) == Some(Ordering::Equal));
            assert(a.eq_spec(&b));
            assert(b.eq_spec(&a));
            assert(b.partial_cmp_spec(&a) == Some(Ordering::Equal));
            assert(b.cmp_spec(&a) == Ordering::Equal);
        } else {
            assert(a.partial_cmp_spec(&b) == Some(Ordering::Greater));
            assert(b.partial_cmp_spec(&a) == Some(Ordering::Less));
            assert(b.cmp_spec(&a) == Ordering::Less);
        }
    }
    assert forall|a: T, b: T| #[trigger] leq(a, b) || #[trigger] leq(b, a) by {
        if a.cmp_spec(&b) == Ordering::Greater {
            assert(a.partial_cmp_spec(&b) == Some(Ordering::Greater));
            assert(b.partial_cmp_spec(&a) == Some(Ordering::Less));
            assert(b.cmp_spec(&a) == Ordering::Less);
        }
    }
    assert forall|a: T, b: T, c: T|
        #[trigger] leq(a, b) && #[trigger] leq(b, c) implies leq(a, c) by {
        if a.cmp_spec(&c) == Ordering::Greater {
            assert(c.cmp_spec(&a) == Ordering::Less);
            assert(c.partial_cmp_spec(&a) == Some(Ordering::Less));
            match (a.cmp_spec(&b), b.cmp_spec(&c)) {
                (Ordering::Less, Ordering::Less) => {
                    assert(a.partial_cmp_spec(&b) == Some(Ordering::Less));
                    assert(b.partial_cmp_spec(&c) == Some(Ordering::Less));
                    assert(a.partial_cmp_spec(&c) == Some(Ordering::Less));
                },
                (Ordering::Less, Ordering::Equal) => {
                    assert(a.partial_cmp_spec(&b) == Some(Ordering::Less));
                    assert(a.partial_cmp_spec(&c) == Some(Ordering::Less)) by {
                        assert(b.eq_spec(&c));
                        assert(c.eq_spec(&b));
                        assert(c.partial_cmp_spec(&b) == Some(Ordering::Equal));
                        assert(c.partial_cmp_spec(&a) == Some(Ordering::Less));
                        assert(a.partial_cmp_spec(&c) == Some(Ordering::Greater));
                        assert(b.partial_cmp_spec(&a) == Some(Ordering::Greater));
                        assert(a.partial_cmp_spec(&b) == Some(Ordering::Less));
                        assert(false) by {
                            assert(c.partial_cmp_spec(&a) == Some(Ordering::Less));
                            assert(a.partial_cmp_spec(&b) == Some(Ordering::Less));
                            assert(c.partial_cmp_spec(&b) == Some(Ordering::Less));
                        }
                    }
                },
                (Ordering::Equal, Ordering::Less) => {
                    assert(b.partial_cmp_spec(&c) == Some(Ordering::Less));
                    assert(c.partial_cmp_spec(&a) == Some(Ordering::Less));
                    assert(b.partial_cmp_spec(&a) == Some(Ordering::Less)) by {
                        assert(b.partial_cmp_spec(&c) == Some(Ordering::Less));
                        assert(c.partial_cmp_spec(&a) == Some(Ordering::Less));
                    }
                    assert(a.partial_cmp_spec(&b) == Some(Ordering::Greater));
                    assert(a.eq_spec(&b));
                    assert(a.partial_cmp_spec(&b) == Some(Ordering::Equal));
                    assert(false);
                },
                (Ordering::Equal, Ordering::Equal) => {
                    assert(a.eq_spec(&b) && b.eq_spec(&c));
                    assert(a.eq_spec(&c));
                    assert(a.partial_cmp_spec(&c) == Some(Ordering::Equal));
                    assert(a.cmp_spec(&c) == Ordering::Equal);
                },
                _ => {},
            }
        }
    }
}

// Writing one position of a sequence exchanges one occurrence.
pub proof fn lemma_to_multiset_update<A>(s: Seq<A>, i: int, v: A)
    requires
        0 <= i < s.len(),
    ensures
        s.update(i, v).to_multiset() =~= s.to_multiset().remove(s[i]).insert(v),
    decreases s.len(),
{
    s.to_multiset_ensures();
    let t = s.update(i, v);
    t.to_multiset_ensures();
    let pre = s.drop_last();
    pre.to_multiset_ensures();
    if i == s.len() - 1 {
        assert(t =~= pre.push(v));
        assert(s =~= pre.push(s[i]));
        assert(pre.push(v).to_multiset() =~= pre.to_multiset().insert(v));
        assert(pre.push(s[i]).to_multiset() =~= pre.to_multiset().insert(s[i]));
    } else {
        assert(t =~= pre.update(i, v).push(s.last()));
        assert(s =~= pre.push(s.last()));
        lemma_to_multiset_update(pre, i, v);
        pre.update(i, v).to_multiset_ensures();
        assert(pre.update(i, v).push(s.last()).to_multiset() =~= pre.update(
            i,
            v,
        ).to_multiset().insert(s.last()));
        assert(pre[i] == s[i]);
    }
}

/// Swapping two positions of a sequence keeps its multiset of
/// elements.
pub proof fn lemma_swap_multiset<A>(s: Seq<A>, i: int, j: int)
    requires
        0 <= i < s.len(),
        0 <= j < s.len(),
    ensures
        s.update(i, s[j]).update(j, s[i]).to_multiset() =~= s.to_multiset(),
{
    s.to_multiset_ensures();
    if i != j {
        lemma_to_multiset_update(s, i, s[j]);
        lemma_to_multiset_update(s.update(i, s[j]), j, s[i]);
        assert(s.update(i, s[j])[j] == s[j]);
        assert(s.to_multiset().contains(s[i])) by {
            assert(s.contains(s[i]));
        }
        assert(s.to_multiset().contains(s[j])) by {
            assert(s.contains(s[j]));
        }
    } else {
        assert(s.update(i, s[j]).update(j, s[i]) =~= s);
    }
}

// A swap inside a window keeps the window's multiset of elements.
proof fn lemma_swap_inside<A>(s: Seq<A>, lo: int, hi: int, i: int, j: int)
    requires
        0 <= lo <= i <= hi,
        lo <= j <= hi,
        hi < s.len(),
    ensures
        s.update(i, s[j]).update(j, s[i]).subrange(lo, hi + 1).to_multiset() == s.subrange(
            lo,
            hi + 1,
        ).to_multiset(),
{
    let sub = s.subrange(lo, hi + 1);
    assert(s.update(i, s[j]).update(j, s[i]).subrange(lo, hi + 1) =~= sub.update(
        i - lo,
        sub[j - lo],
    ).update(j - lo, sub[i - lo]));
    lemma_swap_multiset(sub, i - lo, j - lo);
}

fn less<T: Ord + Copy>(v: &T, w: &T) -> (r: bool)
    ensures
        obeys_cmp::<T>() ==> r == (v.cmp_spec(w) == Ordering::Less),
{
    proof {
        reveal(obeys_cmp_ord);
    }
    match v.cmp(w) {
        Ordering::Less => true,
        _ => false,
    }
}

fn exch<T: Ord + Copy>(a: &mut Vec<T>, i: usize, j: usize)
    requires
        i < old(a)@.len(),
        j < old(a)@.len(),
    ensures
        final(a)@ == old(a)@.update(i as int, old(a)@[j as int]).update(
            j as int,
            old(a)@[i as int],
        ),
{
    if i != j {
        let t = a[i];
        a[i] = a[j];
        a[j] = t;
        assert(a@ =~= old(a)@.update(i as int, old(a)@[j as int]).update(
            j as int,
            old(a)@[i as int],
        ));
    } else {
        assert(a@ =~= old(a)@.update(i as int, old(a)@[j as int]).update(
            j as int,
            old(a)@[i as int],
        ));
    }
}

// Partition the window `[lo, hi]` around its first element. The pivot
// ends at the returned index, with nothing greater before it and
// nothing smaller after it inside the window.
fn partition<T: Ord + Copy>(a: &mut Vec<T>, lo: usize, hi: usize) -> (j: usize)
    requires
        lo < hi < old(a)@.len(),
    ensures
        lo <= j <= hi,
        final(a)@.len() == old(a)@.len(),
        forall|m: int| 0 <= m < lo ==> final(a)@[m] == old(a)@[m],
        forall|m: int| hi < m < old(a)@.len() ==> final(a)@[m] == old(a)@[m],
        final(a)@.subrange(lo as int, hi + 1).to_multiset() == old(a)@.subrange(
            lo as int,
            hi + 1,
        ).to_multiset(),
        final(a)@[j as int] == old(a)@[lo as int],
        obeys_cmp::<T>() ==> forall|m: int|
            lo <= m <= hi ==> ((m < j ==> leq(#[trigger] final(a)@[m], final(a)@[j as int])) && (m
                > j ==> leq(final(a)@[j as int], final(a)@[m]))),
{
    let ghost orig = a@;
    let n = a.len();
    let mut i = lo;
    let mut j = hi + 1;
    let v = a[lo];
    loop
        invariant_except_break
            lo < hi < a@.len(),
            a@.len() == orig.len(),
            a@.len() == n,
            lo <= i < j,
            lo < j <= hi + 1,
            a@[lo as int] == v,
            forall|m: int| 0 <= m < lo ==> a@[m] == orig[m],
            forall|m: int| hi < m < orig.len() ==> a@[m] == orig[m],
            a@.subrange(lo as int, hi + 1).to_multiset() == orig.subrange(
                lo as int,
                hi + 1,
            ).to_multiset(),
            obeys_cmp::<T>() ==> forall|m: int| lo < m <= i ==> leq(#[trigger] a@[m], v),
            obeys_cmp::<T>() ==> forall|m: int| j <= m <= hi ==> leq(v, #[trigger] a@[m]),
        ensures
            lo < hi < a@.len(),
            a@.len() == orig.len(),
            lo <= j <= hi,
            a@[lo as int] == v,
            forall|m: int| 0 <= m < lo ==> a@[m] == orig[m],
            forall|m: int| hi < m < orig.len() ==> a@[m] == orig[m],
            a@.subrange(lo as int, hi + 1).to_multiset() == orig.subrange(
                lo as int,
                hi + 1,
            ).to_multiset(),
            obeys_cmp::<T>() ==> forall|m: int| lo < m <= j ==> leq(#[trigger] a@[m], v),
            obeys_cmp::<T>() ==> forall|m: int| j < m <= hi ==> leq(v, #[trigger] a@[m]),
        decreases j - i,
    {
        proof {
            if obeys_cmp::<T>() {
                lemma_cmp_props::<T>();
            }
        }
        let ghost snap = a@;
        i += 1;
        let ghost i1 = i;
        while i < hi && less(&a[i], &v)
            invariant
                lo < hi < a@.len(),
                lo < i <= hi + 1,
                i1 <= i,
                a@ == snap,
                a@[lo as int] == v,
                obeys_cmp::<T>() ==> forall|m: int| lo < m < i ==> leq(#[trigger] a@[m], v),
            decreases hi - i,
        {
            proof {
                if obeys_cmp::<T>() {
                    lemma_cmp_props::<T>();
                }
            }
            i += 1;
        }
        j -= 1;
        let ghost j1 = j;
        while j > lo && less(&v, &a[j])
            invariant
                lo < hi < a@.len(),
                lo <= j <= hi,
                j <= j1,
                a@ == snap,
                a@[lo as int] == v,
                obeys_cmp::<T>() ==> forall|m: int| j < m <= hi ==> leq(v, #[trigger] a@[m]),
            decreases j,
        {
            proof {
                if obeys_cmp::<T>() {
                    lemma_cmp_props::<T>();
                }
            }
            j -= 1;
        }
        proof {
            if obeys_cmp::<T>() {
                if i < hi {
                    assert(!(a@[i as int].cmp_spec(&v) == Ordering::Less));
                    assert(leq(v, a@[i as int]));
                }
                if j > lo {
                    assert(!(v.cmp_spec(&a@[j as int]) == Ordering::Less));
                    assert(leq(a@[j as int], v));
                }
            }
        }
        if i >= j {
            proof {
                if obeys_cmp::<T>() {
                    assert forall|m: int| lo < m <= j implies leq(#[trigger] a@[m], v) by {
                        if m < i {
                        } else {
                            assert(m == i && m == j);
                            assert(j > lo);
                        }
                    }
                }
            }
            break ;
        }
        let ghost before = a@;
        exch(a, i, j);
        proof {
            lemma_swap_inside(before, lo as int, hi as int, i as int, j as int);
            if obeys_cmp::<T>() {
                assert(leq(a@[i as int], v));
                assert(leq(v, a@[j as int]));
            }
        }
    }
    let ghost before = a@;
    exch(a, lo, j);
    proof {
        lemma_swap_inside(before, lo as int, hi as int, lo as int, j as int);
        if obeys_cmp::<T>() {
            lemma_cmp_props::<T>();
            assert(a@[j as int] == v);
            assert forall|m: int|
                lo <= m <= hi implies ((m < j ==> leq(#[trigger] a@[m], a@[j as int])) && (m > j
                ==> leq(a@[j as int], a@[m]))) by {
                if m < j {
                    if m == lo {
                        assert(a@[m] == before[j as int]);
                        assert(leq(before[j as int], v));
                    } else {
                        assert(a@[m] == before[m]);
                        assert(leq(before[m], v));
                    }
                } else if m > j {
                    assert(a@[m] == before[m]);
                    assert(leq(v, before[m]));
                }
            }
        }
        assert(a@.subrange(lo as int, hi + 1).to_multiset() == orig.subrange(
            lo as int,
            hi + 1,
        ).to_multiset());
    }
    j
}

// Sort the window `[lo, hi]` in place.
fn q_sort<T: Ord + Copy>(a: &mut Vec<T>, lo: usize, hi: usize)
    requires
        lo >= hi || hi < old(a)@.len(),
    ensures
        final(a)@.len() == old(a)@.len(),
        forall|m: int| 0 <= m < lo ==> final(a)@[m] == old(a)@[m],
        forall|m: int| hi < m < old(a)@.len() ==> final(a)@[m] == old(a)@[m],
        lo <= hi < old(a)@.len() ==> final(a)@.subrange(lo as int, hi + 1).to_multiset() == old(
            a,
        )@.subrange(lo as int, hi + 1).to_multiset(),
        obeys_cmp::<T>() ==> forall|x: int, y: int|
            lo <= x < y <= hi && y < old(a)@.len() ==> leq(
                #[trigger] final(a)@[x],
                #[trigger] final(a)@[y],
            ),
    decreases window_size(lo as int, hi as int),
{
    if hi <= lo {
        return ;
    }
    let n = a.len();
    proof {
        if obeys_cmp::<T>() {
            lemma_cmp_props::<T>();
        }
    }
    let ghost orig = a@;
    let j = partition(a, lo, hi);
    let ghost mid = a@;
    if j > 0 {
        q_sort(a, lo, j - 1);
    }
    let ghost left = a@;
    proof {
        if j > 0 && lo <= j - 1 {
            lemma_window_ms_transfer(mid, left, lo as int, j - 1 as int, hi as int);
        }
    }
    q_sort(a, j + 1, hi);
    proof {
        let fin = a@;
        // the pivot position is untouched by both recursive sorts
        assert(fin[j as int] == mid[j as int]);
        if j + 1 > hi {
            assert(fin =~= left);
        }
        // window multiset bookkeeping
        if j > 0 && lo <= (j - 1) as int {
            lemma_window_ms_chain(orig, mid, left, fin, lo as int, j as int, hi as int);
        } else {
            assert(left =~= mid);
            lemma_window_ms_chain_right(orig, mid, left, fin, lo as int, j as int, hi as int);
        }
        // each side of the pivot keeps its values through the two
        // recursive sorts
        assert(fin.subrange(lo as int, j as int) =~= left.subrange(lo as int, j as int));
        if j >= 1 && lo <= (j - 1) as int {
            assert(left.subrange(lo as int, j as int).to_multiset() == mid.subrange(
                lo as int,
                j as int,
            ).to_multiset());
        } else if j >= 1 {
            assert(left.subrange(lo as int, j as int) =~= mid.subrange(lo as int, j as int));
        }
        assert(left.subrange(j + 1, hi + 1) =~= mid.subrange(j + 1, hi + 1));
        if j + 1 <= hi {
            assert(fin.subrange(j + 1, hi + 1).to_multiset() == mid.subrange(
                j + 1,
                hi + 1,
            ).to_multiset());
        }
        if obeys_cmp::<T>() {
            assert forall|x: int, y: int|
                lo <= x < y <= hi && y < orig.len() implies leq(
                #[trigger] a@[x],
                #[trigger] a@[y],
            ) by {
                let p = mid[j as int];
                // every element left of the pivot is at most the pivot
                if x < j {
                    lemma_window_member_leq(mid, a@, lo as int, j as int, hi as int, x);
                }
                if y < j {
                    lemma_window_member_leq(mid, a@, lo as int, j as int, hi as int, y);
                }
                if x > j {
                    lemma_window_member_geq(mid, a@, lo as int, j as int, hi as int, x);
                }
                if y > j {
                    lemma_window_member_geq(mid, a@, lo as int, j as int, hi as int, y);
                }
            }
        }
    }
}

// After sorting inside `[lo, m]`, the values of the window `[lo, hi]`
// are unchanged as a multiset.
proof fn lemma_window_ms_transfer<A>(s1: Seq<A>, s2: Seq<A>, lo: int, m: int, hi: int)
    requires
        0 <= lo <= m <= hi < s1.len(),
        s1.len() == s2.len(),
        s2.subrange(lo, m + 1).to_multiset() == s1.subrange(lo, m + 1).to_multiset(),
        forall|k: int| m < k < s1.len() ==> s2[k] == s1[k],
        forall|k: int| 0 <= k < lo ==> s2[k] == s1[k],
    ensures
        s2.subrange(lo, hi + 1).to_multiset() == s1.subrange(lo, hi + 1).to_multiset(),
{
    assert(s1.subrange(lo, hi + 1) =~= s1.subrange(lo, m + 1) + s1.subrange(m + 1, hi + 1));
    assert(s2.subrange(lo, hi + 1) =~= s2.subrange(lo, m + 1) + s2.subrange(m + 1, hi + 1));
    assert(s2.subrange(m + 1, hi + 1) =~= s1.subrange(m + 1, hi + 1));
    vstd::seq_lib::lemma_multiset_commutative(s1.subrange(lo, m + 1), s1.subrange(m + 1, hi + 1));
    vstd::seq_lib::lemma_multiset_commutative(s2.subrange(lo, m + 1), s2.subrange(m + 1, hi + 1));
}

proof fn lemma_window_ms_chain<A>(
    orig: Seq<A>,
    mid: Seq<A>,
    left: Seq<A>,
    fin: Seq<A>,
    lo: int,
    j: int,
    hi: int,
)
    requires
        0 <= lo <= j <= hi < orig.len(),
        orig.len() == mid.len() == left.len() == fin.len(),
        mid.subrange(lo, hi + 1).to_multiset() == orig.subrange(lo, hi + 1).to_multiset(),
        left.subrange(lo, hi + 1).to_multiset() == mid.subrange(lo, hi + 1).to_multiset(),
        j + 1 <= hi ==> fin.subrange(j + 1, hi + 1).to_multiset() == left.subrange(
            j + 1,
            hi + 1,
        ).to_multiset(),
        j + 1 > hi ==> fin == left,
        forall|k: int| 0 <= k <= j ==> fin[k] == left[k],
        forall|k: int| hi < k < orig.len() ==> fin[k] == left[k],
    ensures
        fin.subrange(lo, hi + 1).to_multiset() == orig.subrange(lo, hi + 1).to_multiset(),
{
    if j + 1 > hi {
        assert(fin.subrange(lo, hi + 1) =~= left.subrange(lo, hi + 1));
    } else {
        assert(fin.subrange(lo, hi + 1) =~= fin.subrange(lo, j + 1) + fin.subrange(j + 1, hi + 1));
        assert(left.subrange(lo, hi + 1) =~= left.subrange(lo, j + 1) + left.subrange(
            j + 1,
            hi + 1,
        ));
        assert(fin.subrange(lo, j + 1) =~= left.subrange(lo, j + 1));
        vstd::seq_lib::lemma_multiset_commutative(
            fin.subrange(lo, j + 1),
            fin.subrange(j + 1, hi + 1),
        );
        vstd::seq_lib::lemma_multiset_commutative(
            left.subrange(lo, j + 1),
            left.subrange(j + 1, hi + 1),
        );
    }
}

proof fn lemma_window_ms_chain_right<A>(
    orig: Seq<A>,
    mid: Seq<A>,
    left: Seq<A>,
    fin: Seq<A>,
    lo: int,
    j: int,
    hi: int,
)
    requires
        0 <= lo <= j <= hi < orig.len(),
        orig.len() == mid.len() == left.len() == fin.len(),
        mid.subrange(lo, hi + 1).to_multiset() == orig.subrange(lo, hi + 1).to_multiset(),
        left == mid,
        j + 1 <= hi ==> fin.subrange(j + 1, hi + 1).to_multiset() == left.subrange(
            j + 1,
            hi + 1,
        ).to_multiset(),
        j + 1 > hi ==> fin == left,
        forall|k: int| 0 <= k <= j ==> fin[k] == left[k],
        forall|k: int| hi < k < orig.len() ==> fin[k] == left[k],
    ensures
        fin.subrange(lo, hi + 1).to_multiset() == orig.subrange(lo, hi + 1).to_multiset(),
{
    lemma_window_ms_chain(orig, mid, left, fin, lo, j, hi);
}

// An element that ends up left of the pivot was left of the pivot
// when the window was partitioned, so it is at most the pivot.
proof fn lemma_window_member_leq<T: Ord>(
    mid: Seq<T>,
    fin: Seq<T>,
    lo: int,
    j: int,
    hi: int,
    x: int,
)
    requires
        obeys_cmp::<T>(),
        0 <= lo <= j <= hi < mid.len(),
        mid.len() == fin.len(),
        lo <= x < j,
        j >= 1 ==> fin.subrange(lo, j).to_multiset() == mid.subrange(lo, j).to_multiset(),
        forall|m: int| lo <= m < j ==> leq(#[trigger] mid[m], mid[j]),
    ensures
        leq(fin[x], mid[j]),
{
    assert(fin.subrange(lo, j).contains(fin[x])) by {
        assert(fin.subrange(lo, j)[x - lo] == fin[x]);
    }
    fin.subrange(lo, j).to_multiset_ensures();
    mid.subrange(lo, j).to_multiset_ensures();
    assert(fin.subrange(lo, j).to_multiset().count(fin[x]) > 0);
    assert(mid.subrange(lo, j).to_multiset().count(fin[x]) > 0);
    assert(mid.subrange(lo, j).contains(fin[x]));
    let m = choose|m: int|
        0 <= m < mid.subrange(lo, j).len() && #[trigger] mid.subrange(lo, j)[m] == fin[x];
    assert(mid[m + lo] == fin[x]);
}

proof fn lemma_window_member_geq<T: Ord>(
    mid: Seq<T>,
    fin: Seq<T>,
    lo: int,
    j: int,
    hi: int,
    x: int,
)
    requires
        obeys_cmp::<T>(),
        0 <= lo <= j <= hi < mid.len(),
        mid.len() == fin.len(),
        j < x <= hi,
        j + 1 <= hi ==> fin.subrange(j + 1, hi + 1).to_multiset() == mid.subrange(
            j + 1,
            hi + 1,
        ).to_multiset(),
        forall|m: int| j < m <= hi ==> leq(mid[j], #[trigger] mid[m]),
    ensures
        leq(mid[j], fin[x]),
{
    assert(fin.subrange(j + 1, hi + 1).contains(fin[x])) by {
        assert(fin.subrange(j + 1, hi + 1)[x - (j + 1)] == fin[x]);
    }
    fin.subrange(j + 1, hi + 1).to_multiset_ensures();
    mid.subrange(j + 1, hi + 1).to_multiset_ensures();
    assert(fin.subrange(j + 1, hi + 1).to_multiset().count(fin[x]) > 0);
    assert(mid.subrange(j + 1, hi + 1).to_multiset().count(fin[x]) > 0);
    assert(mid.subrange(j + 1, hi + 1).contains(fin[x]));
    let m = choose|m: int|
        0 <= m < mid.subrange(j + 1, hi + 1).len() && #[trigger] mid.subrange(j + 1, hi + 1)[m]
            == fin[x];
    assert(mid[m + j + 1] == fin[x]);
}

/// Sorts a given vector using quicksort: the result holds the same
/// elements, in ascending order whenever the element type's order
/// obeys the usual laws.
pub fn sort<T: Ord + Copy>(a: &mut Vec<T>)
    ensures
        final(a)@.len() == old(a)@.len(),
        final(a)@.to_multiset() == old(a)@.to_multiset(),
        obeys_cmp::<T>() ==> forall|x: int, y: int|
            0 <= x < y < final(a)@.len() ==> leq(#[trigger] final(a)@[x], #[trigger] final(a)@[y]),
{
    if a.len() <= 1 {
        return ;
    }
    let hi = a.len() - 1;
    q_sort(a, 0, hi);
    proof {
        assert(a@.subrange(0, hi + 1) =~= a@);
        assert(old(a)@.subrange(0, hi + 1) =~= old(a)@);
    }
}

/// Shuffles the vector before running quicksort.
pub fn sort_shuffle<T: Ord + Copy>(a: &mut Vec<T>)
    ensures
        final(a)@.len() == old(a)@.len(),
        final(a)@.to_multiset() == old(a)@.to_multiset(),
        obeys_cmp::<T>() ==> forall|x: int, y: int|
            0 <= x < y < final(a)@.len() ==> leq(#[trigger] final(a)@[x], #[trigger] final(a)@[y]),
{
    shuffle_list(a);
    sort(a);
}

/// Shuffles the vector before running quickselect.
pub fn select_shuffle<T: Ord + Copy>(a: &mut Vec<T>, k: usize) -> (val: T)
    requires
        k < old(a)@.len(),
    ensures
        final(a)@.len() == old(a)@.len(),
        final(a)@.to_multiset() == old(a)@.to_multiset(),
        val == final(a)@[k as int],
        obeys_cmp::<T>() ==> forall|i: int|
            0 <= i < final(a)@.len() ==> ((i < k ==> leq(
                #[trigger] final(a)@[i],
                final(a)@[k as int],
            )) && (i > k ==> leq(final(a)@[k as int], final(a)@[i]))),
{
    shuffle_list(a);
    select(a, k)
}

/// Finds the element that position `k` of the vector would hold if it
/// were sorted. The vector is permuted in place and the returned value
/// ends at position `k`, with nothing greater before it and nothing
/// smaller after it whenever the order obeys the usual laws.
pub fn select<T: Ord + Copy>(a: &mut Vec<T>, k: usize) -> (val: T)
    requires
        k < old(a)@.len(),
    ensures
        final(a)@.len() == old(a)@.len(),
        final(a)@.to_multiset() == old(a)@.to_multiset(),
        val == final(a)@[k as int],
        obeys_cmp::<T>() ==> forall|i: int|
            0 <= i < final(a)@.len() ==> ((i < k ==> leq(
                #[trigger] final(a)@[i],
                final(a)@[k as int],
            )) && (i > k ==> leq(final(a)@[k as int], final(a)@[i]))),
{
    proof {
        if obeys_cmp::<T>() {
            lemma_cmp_props::<T>();
        }
    }
    let ghost orig = a@;
    let mut lo: usize = 0;
    let mut hi: usize = a.len() - 1;

    while hi > lo
        invariant_except_break
            orig == old(a)@,
            lo <= k <= hi < a@.len(),
            a@.len() == orig.len(),
            a@.to_multiset() == orig.to_multiset(),
            obeys_cmp::<T>() ==> forall|x: int, y: int|
                0 <= x < lo <= y < a@.len() ==> leq(#[trigger] a@[x], #[trigger] a@[y]),
            obeys_cmp::<T>() ==> forall|x: int, y: int|
                lo <= x <= hi < y < a@.len() ==> leq(#[trigger] a@[x], #[trigger] a@[y]),
        ensures
            orig == old(a)@,
            lo == k && hi == k && k < a@.len(),
            a@.len() == orig.len(),
            a@.to_multiset() == orig.to_multiset(),
            obeys_cmp::<T>() ==> forall|x: int, y: int|
                0 <= x < lo <= y < a@.len() ==> leq(#[trigger] a@[x], #[trigger] a@[y]),
            obeys_cmp::<T>() ==> forall|x: int, y: int|
                lo <= x <= hi < y < a@.len() ==> leq(#[trigger] a@[x], #[trigger] a@[y]),
        decreases hi - lo,
    {
        let ghost pre = a@;
        let i = partition(a, lo, hi);
        proof {
            lemma_select_window(pre, a@, lo as int, i as int, hi as int);
            if obeys_cmp::<T>() {
                lemma_cmp_props::<T>();
                assert forall|x: int, y: int|
                    0 <= x < lo <= y < a@.len() implies leq(#[trigger] a@[x], #[trigger] a@[y]) by {
                    assert(a@[x] == pre[x]);
                    if y <= hi {
                        lemma_select_member(pre, a@, lo as int, hi as int, y);
                        let m = choose|m: int| lo <= m <= hi && (#[trigger] pre[m]) == a@[y];
                        assert(leq(pre[x], pre[m]));
                    } else {
                        assert(a@[y] == pre[y]);
                        assert(leq(pre[x], pre[y]));
                    }
                }
                assert forall|x: int, y: int|
                    lo <= x <= hi < y < a@.len() implies leq(#[trigger] a@[x], #[trigger] a@[y]) by {
                    assert(a@[y] == pre[y]);
                    lemma_select_member_rev(pre, a@, lo as int, hi as int, x);
                    let m = choose|m: int| lo <= m <= hi && (#[trigger] pre[m]) == a@[x];
                    assert(leq(pre[m], pre[y]));
                }
            }
        }
        if i > k {
            let ghost hi0 = hi as int;
            hi = i - 1;
            proof {
                if obeys_cmp::<T>() {
                    assert forall|x: int, y: int|
                        lo <= x <= hi < y < a@.len() implies leq(
                        #[trigger] a@[x],
                        #[trigger] a@[y],
                    ) by {
                        assert(leq(a@[x], a@[i as int]));
                        if y < i {
                        } else if y == i {
                        } else if y <= hi0 {
                            assert(leq(a@[i as int], a@[y]));
                        } else {
                            assert(leq(a@[i as int], a@[y]));
                        }
                    }
                }
            }
        } else if i < k {
            lo = i + 1;
            proof {
                if obeys_cmp::<T>() {
                    assert forall|x: int, y: int|
                        0 <= x < lo <= y < a@.len() implies leq(
                        #[trigger] a@[x],
                        #[trigger] a@[y],
                    ) by {
                        if x < i {
                            assert(leq(a@[x], a@[i as int]));
                            assert(leq(a@[i as int], a@[y]));
                        } else if x == i {
                            assert(leq(a@[i as int], a@[y]));
                        }
                    }
                }
            }
        } else {
            let r = a[i];
            proof {
                if obeys_cmp::<T>() {
                    assert forall|m: int|
                        0 <= m < a@.len() implies ((m < k ==> leq(
                        #[trigger] a@[m],
                        a@[k as int],
                    )) && (m > k ==> leq(a@[k as int], a@[m]))) by {
                        if m < lo {
                            assert(leq(a@[m], a@[k as int]));
                        } else if m > hi {
                            assert(leq(a@[k as int], a@[m]));
                        } else if m < k {
                            assert(leq(a@[m], a@[i as int]));
                        } else if m > k {
                            assert(leq(a@[i as int], a@[m]));
                        }
                    }
                }
            }
            return r;
        }
    }
    let r = a[lo];
    proof {
        if obeys_cmp::<T>() {
            assert forall|m: int|
                0 <= m < a@.len() implies ((m < k ==> leq(#[trigger] a@[m], a@[k as int])) && (m
                > k ==> leq(a@[k as int], a@[m]))) by {
                if m < k {
                    assert(leq(a@[m], a@[k as int]));
                } else if m > k {
                    assert(leq(a@[k as int], a@[m]));
                }
            }
        }
    }
    r
}

// The whole vector keeps its multiset when a window of it does.
proof fn lemma_select_window<A>(pre: Seq<A>, post: Seq<A>, lo: int, i: int, hi: int)
    requires
        0 <= lo <= i <= hi < pre.len(),
        pre.len() == post.len(),
        forall|m: int| 0 <= m < lo ==> post[m] == pre[m],
        forall|m: int| hi < m < pre.len() ==> post[m] == pre[m],
        post.subrange(lo, hi + 1).to_multiset() == pre.subrange(lo, hi + 1).to_multiset(),
    ensures
        post.to_multiset() == pre.to_multiset(),
{
    assert(pre =~= pre.subrange(0, lo) + pre.subrange(lo, hi + 1) + pre.subrange(
        hi + 1,
        pre.len() as int,
    ));
    assert(post =~= post.subrange(0, lo) + post.subrange(lo, hi + 1) + post.subrange(
        hi + 1,
        post.len() as int,
    ));
    assert(post.subrange(0, lo) =~= pre.subrange(0, lo));
    assert(post.subrange(hi + 1, post.len() as int) =~= pre.subrange(hi + 1, pre.len() as int));
    vstd::seq_lib::lemma_multiset_commutative(
        pre.subrange(0, lo) + pre.subrange(lo, hi + 1),
        pre.subrange(hi + 1, pre.len() as int),
    );
    vstd::seq_lib::lemma_multiset_commutative(pre.subrange(0, lo), pre.subrange(lo, hi + 1));
    vstd::seq_lib::lemma_multiset_commutative(
        post.subrange(0, lo) + post.subrange(lo, hi + 1),
        post.subrange(hi + 1, post.len() as int),
    );
    vstd::seq_lib::lemma_multiset_commutative(post.subrange(0, lo), post.subrange(lo, hi + 1));
    assert((pre.subrange(0, lo) + pre.subrange(lo, hi + 1)).to_multiset() == (post.subrange(0, lo)
        + post.subrange(lo, hi + 1)).to_multiset());
}

// An element of the window after partitioning was in the window
// before, so the bounds that held of every window element still hold
// of it.
proof fn lemma_select_member<T: Ord>(pre: Seq<T>, post: Seq<T>, lo: int, hi: int, y: int)
    requires
        obeys_cmp::<T>(),
        0 <= lo <= y <= hi < pre.len(),
        pre.len() == post.len(),
        post.subrange(lo, hi + 1).to_multiset() == pre.subrange(lo, hi + 1).to_multiset(),
    ensures
        exists|m: int| lo <= m <= hi && (#[trigger] pre[m]) == post[y],
{
    assert(post.subrange(lo, hi + 1).contains(post[y])) by {
        assert(post.subrange(lo, hi + 1)[y - lo] == post[y]);
    }
    post.subrange(lo, hi + 1).to_multiset_ensures();
    pre.subrange(lo, hi + 1).to_multiset_ensures();
    assert(post.subrange(lo, hi + 1).to_multiset().count(post[y]) > 0);
    assert(pre.subrange(lo, hi + 1).to_multiset().count(post[y]) > 0);
    assert(pre.subrange(lo, hi + 1).contains(post[y]));
    let m = choose|m: int|
        0 <= m < pre.subrange(lo, hi + 1).len() && #[trigger] pre.subrange(lo, hi + 1)[m]
            == post[y];
    assert(pre[m + lo] == post[y]);
}

proof fn lemma_select_member_rev<T: Ord>(pre: Seq<T>, post: Seq<T>, lo: int, hi: int, x: int)
    requires
        obeys_cmp::<T>(),
        0 <= lo <= x <= hi < pre.len(),
        pre.len() == post.len(),
        post.subrange(lo, hi + 1).to_multiset() == pre.subrange(lo, hi + 1).to_multiset(),
    ensures
        exists|m: int| lo <= m <= hi && (#[trigger] pre[m]) == post[x],
{
    lemma_select_member(pre, post, lo, hi, x);
}

} // verus!
