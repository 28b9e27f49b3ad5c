//! Stable sorting by a numeric place.

use vstd::prelude::*;

verus! {

/// A value with a place in an ordering.
pub trait Placed: Sized {
    /// The place of the value: smaller places come first.
    spec fn place(&self) -> int;
}

/// A value that can tell its place.
pub trait Ranked: Placed {
    /// The place as a number.
    fn rank(&self) -> (r: u128)
        ensures
            r == self.place(),
    ;
}

/// No later element has a smaller place than an earlier one.
pub open spec fn in_order<T: Placed>(s: Seq<T>) -> bool {
    forall|i: int, j: int| 0 <= i <= j < s.len() ==> s[i].place() <= s[j].place()
}

/// The elements of `s` at place `k`, in the order in which `s` has them.
pub open spec fn at_place<T: Placed>(s: Seq<T>, k: int) -> Seq<T> {
    s.filter(|x: T| x.place() == k)
}

/// `after` is `before` sorted by place, elements of one place in their old order.
pub open spec fn stable_sort_of<T: Placed>(before: Seq<T>, after: Seq<T>) -> bool {
    &&& in_order(after)
    &&& after.to_multiset() == before.to_multiset()
    &&& forall|k: int| #[trigger] at_place(after, k) == at_place(before, k)
}

/// Inserting `x` in front of the first element whose place is not smaller sorts `x` followed by
/// what was sorted already.
proof fn lemma_insert<T: Placed>(tail: Seq<T>, sorted: Seq<T>, x: T, p: int)
    requires
        stable_sort_of(tail, sorted),
        0 <= p <= sorted.len(),
        forall|i: int| 0 <= i < p ==> (#[trigger] sorted[i]).place() < x.place(),
        p < sorted.len() ==> sorted[p].place() >= x.place(),
    ensures
        stable_sort_of(seq![x] + tail, sorted.insert(p, x)),
{
    let after = sorted.insert(p, x);
    let a = sorted.subrange(0, p);
    let b = sorted.subrange(p, sorted.len() as int);
    assert(sorted =~= a + b);
    assert(after =~= (a + seq![x]) + b);
    assert forall|k: int| #[trigger] at_place(after, k) == at_place(seq![x] + tail, k) by {
        let f = |y: T| y.place() == k;
        Seq::filter_distributes_over_add(a, b, f);
        Seq::filter_distributes_over_add(a + seq![x], b, f);
        Seq::filter_distributes_over_add(a, seq![x], f);
        Seq::filter_distributes_over_add(seq![x], tail, f);
        assert(at_place(sorted, k) == at_place(tail, k));
        assert(seq![x].drop_last() =~= Seq::<T>::empty());
        reveal_with_fuel(Seq::filter, 2);
        if x.place() == k {
            assert forall|i: int| 0 <= i < a.len() implies !f(#[trigger] a[i]) by {
                assert(a[i] == sorted[i]);
            }
            a.lemma_all_neg_filter_empty(f);
            assert(a.filter(f) =~= Seq::<T>::empty());
            assert(seq![x].filter(f) =~= seq![x]);
            assert(after.filter(f) =~= seq![x] + b.filter(f));
        } else {
            assert(seq![x].filter(f) =~= Seq::<T>::empty());
            assert(after.filter(f) =~= a.filter(f) + b.filter(f));
        }
    }
    vstd::seq_lib::to_multiset_insert(sorted, p, x);
    vstd::seq_lib::to_multiset_insert(tail, 0, x);
    assert(tail.insert(0, x) =~= seq![x] + tail);
}

/// Two stable sorts of one sequence are the same sequence.
proof fn lemma_same_classes<T: Placed>(a: Seq<T>, b: Seq<T>)
    requires
        in_order(a),
        in_order(b),
        forall|k: int| #[trigger] at_place(a, k) == at_place(b, k),
    ensures
        a == b,
    decreases a.len(),
{
    reveal(Seq::filter);
    if a.len() == 0 {
        if b.len() > 0 {
            let k = b.last().place();
            assert(at_place(a, k) == at_place(b, k));
            assert(at_place(b, k).last() == b.last());
            assert(at_place(a, k).len() == 0);
            assert(at_place(b, k).len() > 0);
        }
        assert(a =~= b);
    } else {
        let k = a.last().place();
        assert(at_place(a, k).len() > 0);
        assert(at_place(a, k) == at_place(b, k));
        if b.len() == 0 {
            assert(at_place(b, k).len() == 0);
        }
        let m = b.last().place();
        assert(at_place(b, m).len() > 0);
        assert(at_place(a, m) == at_place(b, m));
        lemma_class_member(b, k);
        lemma_class_member(a, m);
        assert(k == m);
        assert(at_place(a, k).last() == a.last());
        assert(at_place(b, k).last() == b.last());
        let a1 = a.drop_last();
        let b1 = b.drop_last();
        assert forall|j: int| #[trigger] at_place(a1, j) == at_place(b1, j) by {
            assert(at_place(a, j) == at_place(b, j));
            if j == k {
                assert(at_place(a, k).drop_last() =~= at_place(a1, k));
                assert(at_place(b, k).drop_last() =~= at_place(b1, k));
            } else {
                assert(at_place(a, j) == at_place(a1, j));
                assert(at_place(b, j) == at_place(b1, j));
            }
        }
        lemma_same_classes(a1, b1);
        assert(a =~= a1.push(a.last()));
        assert(b =~= b1.push(b.last()));
    }
}

/// A class that is not empty has a member in the sequence.
proof fn lemma_class_member<T: Placed>(s: Seq<T>, k: int)
    requires
        at_place(s, k).len() > 0,
    ensures
        exists|i: int| 0 <= i < s.len() && (#[trigger] s[i]).place() == k,
    decreases s.len(),
{
    reveal(Seq::filter);
    if s.len() > 0 {
        if s.last().place() == k {
            assert(s[s.len() - 1].place() == k);
        } else {
            lemma_class_member(s.drop_last(), k);
            let i = choose|i: int|
                0 <= i < s.drop_last().len() && (#[trigger] s.drop_last()[i]).place() == k;
            assert(s[i].place() == k);
        }
    }
}

/// How many leading elements of `s` have a place below `k`, from index `i` on.
spec fn below<T: Placed>(s: Seq<T>, k: int, i: int) -> int
    decreases s.len() - i,
{
    if 0 <= i < s.len() && s[i].place() < k {
        below(s, k, i + 1)
    } else {
        i
    }
}

proof fn lemma_below<T: Placed>(s: Seq<T>, k: int, i: int)
    requires
        0 <= i <= s.len(),
        forall|j: int| 0 <= j < i ==> (#[trigger] s[j]).place() < k,
    ensures
        i <= below(s, k, i) <= s.len(),
        forall|j: int| 0 <= j < below(s, k, i) ==> (#[trigger] s[j]).place() < k,
        below(s, k, i) < s.len() ==> s[below(s, k, i)].place() >= k,
    decreases s.len() - i,
{
    if i < s.len() && s[i].place() < k {
        lemma_below(s, k, i + 1);
    }
}

/// Every sequence has a stable sort.
proof fn lemma_sort_exists<T: Placed>(s: Seq<T>)
    ensures
        exists|t: Seq<T>| stable_sort_of(s, t),
    decreases s.len(),
{
    if s.len() == 0 {
        assert(stable_sort_of(s, s));
    } else {
        let tail = s.subrange(1, s.len() as int);
        lemma_sort_exists(tail);
        let t = choose|t: Seq<T>| stable_sort_of(tail, t);
        let x = s[0];
        lemma_below(t, x.place(), 0);
        let p = below(t, x.place(), 0);
        lemma_insert(tail, t, x, p);
        assert(seq![x] + tail =~= s);
        assert(stable_sort_of(s, t.insert(p, x)));
    }
}

/// The stable sort of a sequence.
pub closed spec fn sorted<T: Placed>(s: Seq<T>) -> Seq<T> {
    choose|t: Seq<T>| stable_sort_of(s, t)
}

/// `sorted` gives the one stable sort there is.
pub proof fn lemma_sorted<T: Placed>(s: Seq<T>)
    ensures
        stable_sort_of(s, sorted(s)),
        forall|t: Seq<T>| stable_sort_of(s, t) ==> t == sorted(s),
{
    lemma_sort_exists(s);
    assert forall|t: Seq<T>| stable_sort_of(s, t) implies t == sorted(s) by {
        assert forall|k: int| #[trigger] at_place(t, k) == at_place(sorted(s), k) by {
            assert(at_place(t, k) == at_place(s, k));
            assert(at_place(sorted(s), k) == at_place(s, k));
        }
        lemma_same_classes(t, sorted(s));
    }
}

/// Sorting keeps what there is.
pub proof fn lemma_sorted_contains<T: Placed>(s: Seq<T>, x: T)
    ensures
        sorted(s).contains(x) <==> s.contains(x),
{
    lemma_sorted(s);
    vstd::seq_lib::to_multiset_contains(sorted(s), x);
    vstd::seq_lib::to_multiset_contains(s, x);
}

/// Sorts `items` by place; elements of one place stay in their order.
pub fn stable_sort<T: Ranked>(items: Vec<T>) -> (out: Vec<T>)
    ensures
        stable_sort_of(items@, out@),
        out@ == sorted(items@),
{
    let mut rest: Vec<T> = items;
    let mut out: Vec<T> = Vec::new();
    let ghost all = rest@;
    assert(all.subrange(all.len() as int, all.len() as int) =~= Seq::<T>::empty());
    while rest.len() > 0
        invariant
            rest@.len() <= all.len(),
            rest@ == all.subrange(0, rest@.len() as int),
            stable_sort_of(all.subrange(rest@.len() as int, all.len() as int), out@),
        decreases rest@.len(),
    {
        let ghost tail = all.subrange(rest@.len() as int, all.len() as int);
        let popped: Option<T> = rest.pop();
        if let Some(x) = popped {
            let key: u128 = x.rank();
            let mut p: usize = 0;
            while p < out.len() && out[p].rank() < key
                invariant
                    p <= out@.len(),
                    key == x.place(),
                    forall|i: int| 0 <= i < p ==> (#[trigger] out@[i]).place() < key,
                decreases out@.len() - p,
            {
                p = p + 1;
            }
            proof {
                lemma_insert(tail, out@, x, p as int);
                assert(seq![x] + tail =~= all.subrange(rest@.len() as int, all.len() as int));
                assert(rest@ =~= all.subrange(0, rest@.len() as int));
            }
            out.insert(p, x);
        }
    }
    proof {
        assert(all.subrange(0, all.len() as int) =~= all);
        lemma_sorted(all);
    }
    out
}

/// Sorting and then mapping is mapping and then sorting, where the map keeps every place.
pub proof fn lemma_sorted_map<T: Placed, U: Placed>(s: Seq<T>, f: spec_fn(T) -> U)
    requires
        forall|x: T| (#[trigger] f(x)).place() == x.place(),
    ensures
        sorted(s).map_values(f) == sorted(s.map_values(f)),
{
    let a = sorted(s).map_values(f);
    let b = sorted(s.map_values(f));
    lemma_sorted(s);
    lemma_sorted(s.map_values(f));
    assert forall|k: int| #[trigger] at_place(a, k) == at_place(b, k) by {
        lemma_class_map(sorted(s), f, k);
        lemma_class_map(s, f, k);
        assert(at_place(sorted(s), k) == at_place(s, k));
        assert(at_place(b, k) == at_place(s.map_values(f), k));
    }
    assert(in_order(a)) by {
        assert forall|i: int, j: int| 0 <= i <= j < a.len() implies a[i].place() <= a[j].place() by {
            assert(sorted(s)[i].place() <= sorted(s)[j].place());
        }
    }
    lemma_same_classes(a, b);
}

proof fn lemma_class_map<T: Placed, U: Placed>(s: Seq<T>, f: spec_fn(T) -> U, k: int)
    requires
        forall|x: T| (#[trigger] f(x)).place() == x.place(),
    ensures
        at_place(s.map_values(f), k) == at_place(s, k).map_values(f),
    decreases s.len(),
{
    reveal(Seq::filter);
    if s.len() == 0 {
        assert(at_place(s.map_values(f), k) =~= at_place(s, k).map_values(f));
    } else {
        lemma_class_map(s.drop_last(), f, k);
        assert(s.map_values(f).drop_last() =~= s.drop_last().map_values(f));
        assert(s.map_values(f).last() == f(s.last()));
        assert(at_place(s.map_values(f), k) =~= at_place(s, k).map_values(f));
    }
}

} // verus!
