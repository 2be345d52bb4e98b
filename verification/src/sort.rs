//! Insertion sort in place, for any element type with `<`.

use std::cmp::Ordering;
use vstd::std_specs::cmp::PartialOrdSpec;
use vstd::prelude::*;

verus! {

/// Whether `x` is less than `y` by the order of `T`.
pub open spec fn spec_less<T: PartialOrd>(x: T, y: T) -> bool {
    x.partial_cmp_spec(&y) == Some(Ordering::Less)
}

/// Whether `<` on `T` computes `spec_less` and orders `T` in ranks: of two
/// elements at most one is less than the other, and "not less than" carries
/// over from one pair to the next.
pub open spec fn spec_weak_order<T: PartialOrd>() -> bool {
    &&& T::obeys_partial_cmp_spec()
    &&& forall|x: T, y: T| #[trigger] spec_less(x, y) ==> !spec_less(y, x)
    &&& forall|x: T, y: T, z: T|
        !(#[trigger] spec_less(y, x)) && !(#[trigger] spec_less(z, y)) ==> !spec_less(z, x)
}

/// Whether no element of `s` is less than one that stands before it.
pub open spec fn spec_sorted<T: PartialOrd>(s: Seq<T>) -> bool {
    forall|i: int, j: int| 0 <= i < j < s.len() ==> !spec_less(#[trigger] s[j], #[trigger] s[i])
}

/// Where `x` goes into `s`: behind the last element that it is not less
/// than, so behind its equals.
pub open spec fn spec_insert_at<T: PartialOrd>(s: Seq<T>, x: T) -> int
    decreases s.len(),
{
    if s.len() == 0 || !spec_less(x, s.last()) {
        s.len() as int
    } else {
        spec_insert_at(s.drop_last(), x)
    }
}

/// The elements of `s` sorted, equals in the order in which they stood:
/// each element in turn goes into what was sorted before it.
pub open spec fn spec_sort<T: PartialOrd>(s: Seq<T>) -> Seq<T>
    decreases s.len(),
{
    if s.len() == 0 {
        s
    } else {
        let front = spec_sort(s.drop_last());
        front.insert(spec_insert_at(front, s.last()), s.last())
    }
}

/// Sorting keeps the length.
pub proof fn lemma_sort_len<T: PartialOrd>(s: Seq<T>)
    ensures
        spec_sort(s).len() == s.len(),
    decreases s.len(),
{
    if s.len() > 0 {
        lemma_sort_len(s.drop_last());
        lemma_insert_at_bounds(spec_sort(s.drop_last()), s.last());
    }
}

/// The place of `x` lies within `s` or at its end; `x` is less than every
/// element from there on, and not less than the one before.
pub proof fn lemma_insert_at_bounds<T: PartialOrd>(s: Seq<T>, x: T)
    ensures
        0 <= spec_insert_at(s, x) <= s.len(),
        forall|k: int| spec_insert_at(s, x) <= k < s.len() ==> spec_less(x, #[trigger] s[k]),
        spec_insert_at(s, x) > 0 ==> !spec_less(x, s[spec_insert_at(s, x) - 1]),
    decreases s.len(),
{
    if s.len() > 0 && spec_less(x, s.last()) {
        let front = s.drop_last();
        lemma_insert_at_bounds(front, x);
        assert forall|k: int| spec_insert_at(s, x) <= k < s.len() implies spec_less(
            x,
            #[trigger] s[k],
        ) by {
            if k < front.len() {
                assert(spec_less(x, front[k]));
            }
        }
    }
}

/// The place of `x` is the only one of which both hold.
pub proof fn lemma_insert_at_found<T: PartialOrd>(s: Seq<T>, x: T, at: int)
    requires
        0 <= at <= s.len(),
        forall|k: int| at <= k < s.len() ==> spec_less(x, #[trigger] s[k]),
        at > 0 ==> !spec_less(x, s[at - 1]),
    ensures
        spec_insert_at(s, x) == at,
    decreases s.len(),
{
    if at < s.len() {
        let front = s.drop_last();
        assert(spec_less(x, s[s.len() - 1]));
        assert forall|k: int| at <= k < front.len() implies spec_less(x, #[trigger] front[k]) by {
            assert(spec_less(x, s[k]));
        }
        lemma_insert_at_found(front, x, at);
    }
}

/// A sorted sequence stays sorted when `x` goes in at its place.
pub proof fn lemma_insert_keeps_sorted<T: PartialOrd>(s: Seq<T>, x: T)
    requires
        spec_weak_order::<T>(),
        spec_sorted(s),
    ensures
        spec_sorted(s.insert(spec_insert_at(s, x), x)),
{
    let at = spec_insert_at(s, x);
    let out = s.insert(at, x);
    lemma_insert_at_bounds(s, x);
    assert forall|i: int, j: int| 0 <= i < j < out.len() implies !spec_less(
        #[trigger] out[j],
        #[trigger] out[i],
    ) by {
        if j == at {
            // out[i] = s[i] stands before the place
            assert(!spec_less(x, s[at - 1]));
            if i < at - 1 {
                assert(!spec_less(s[at - 1], s[i]));
            }
        } else if i == at {
            assert(spec_less(x, s[j - 1]));
        } else if j < at {
            assert(!spec_less(s[j], s[i]));
        } else if i < at {
            assert(!spec_less(s[j - 1], s[i]));
        } else {
            assert(!spec_less(s[j - 1], s[i - 1]));
        }
    }
}

/// What was sorted is sorted.
pub proof fn lemma_sort_sorted<T: PartialOrd>(s: Seq<T>)
    requires
        spec_weak_order::<T>(),
    ensures
        spec_sorted(spec_sort(s)),
    decreases s.len(),
{
    if s.len() > 0 {
        lemma_sort_sorted(s.drop_last());
        lemma_insert_keeps_sorted(spec_sort(s.drop_last()), s.last());
    }
}

/// Sorting keeps the elements, each as often as it stood.
pub proof fn lemma_sort_permutes<T: PartialOrd>(s: Seq<T>)
    ensures
        spec_sort(s).to_multiset() == s.to_multiset(),
    decreases s.len(),
{
    broadcast use vstd::seq_lib::to_multiset_insert;
    broadcast use vstd::seq_lib::to_multiset_build;

    if s.len() > 0 {
        let front = spec_sort(s.drop_last());
        lemma_sort_permutes(s.drop_last());
        lemma_insert_at_bounds(front, s.last());
        assert(s.drop_last().push(s.last()) =~= s);
    }
}

/// Swapping two elements keeps what the sequence holds.
pub proof fn lemma_swap_keeps_multiset<T>(s: Seq<T>, i: int, j: int)
    requires
        0 <= i < s.len(),
        0 <= j < s.len(),
    ensures
        s.update(i, s[j]).update(j, s[i]).to_multiset() == s.to_multiset(),
{
    broadcast use vstd::seq_lib::to_multiset_update;
    broadcast use vstd::seq_lib::to_multiset_contains;
    broadcast use vstd::multiset::group_multiset_axioms;

    let mid = s.update(i, s[j]);
    assert(s.contains(s[i]));
    assert(s.contains(s[j]));
    assert(mid.update(j, s[i]).to_multiset() =~= s.to_multiset());
}

/// The machine integers are ordered in ranks by `<`.
pub proof fn lemma_integers_weak_order()
    ensures
        spec_weak_order::<u8>(),
        spec_weak_order::<u16>(),
        spec_weak_order::<u32>(),
        spec_weak_order::<u64>(),
        spec_weak_order::<u128>(),
        spec_weak_order::<usize>(),
        spec_weak_order::<i8>(),
        spec_weak_order::<i16>(),
        spec_weak_order::<i32>(),
        spec_weak_order::<i64>(),
        spec_weak_order::<i128>(),
        spec_weak_order::<isize>(),
{
}

/// Sorts `a` in place by `<`, moving each element down past the elements
/// that it is less than.
pub fn insertion_sort<T: PartialOrd + Copy>(a: &mut [T])
    ensures
        final(a)@.len() == old(a)@.len(),
        final(a)@.to_multiset() == old(a)@.to_multiset(),
        spec_weak_order::<T>() ==> spec_sorted(final(a)@),
        spec_weak_order::<T>() ==> final(a)@ == spec_sort(old(a)@),
{
    let n = a.len();
    let mut i: usize = 0;
    while i < n
        invariant
            i <= n,
            n == a@.len(),
            a@.len() == old(a)@.len(),
            a@.to_multiset() == old(a)@.to_multiset(),
            spec_weak_order::<T>() ==> a@.take(i as int) == spec_sort(old(a)@.take(i as int)),
            spec_weak_order::<T>() ==> a@.skip(i as int) == old(a)@.skip(i as int),
        decreases n - i,
    {
        let ghost sorted = a@.take(i as int);
        let ghost x = a@[i as int];
        let ghost settled = false;
        proof {
            if spec_weak_order::<T>() {
                lemma_sort_sorted(old(a)@.take(i as int));
                lemma_sort_len(old(a)@.take(i as int));
                assert(a@.take(i + 1) =~= sorted.insert(i as int, x));
                assert(a@.skip(i + 1) =~= a@.skip(i as int).skip(1));
                assert(old(a)@.skip(i + 1) =~= old(a)@.skip(i as int).skip(1));
                assert(x == a@.skip(i as int)[0]);
            }
        }
        let mut j: usize = i;
        while j >= 1
            invariant
                j <= i,
                i < n,
                n == a@.len(),
                a@.len() == old(a)@.len(),
                a@.to_multiset() == old(a)@.to_multiset(),
                sorted.len() == i,
                spec_weak_order::<T>() ==> spec_sorted(sorted),
                spec_weak_order::<T>() ==> a@.skip(i + 1) == old(a)@.skip(i + 1),
                spec_weak_order::<T>() && settled ==> a@.take(i + 1) == sorted.insert(
                    spec_insert_at(sorted, x),
                    x,
                ) && spec_sorted(a@.take(i + 1)),
                spec_weak_order::<T>() && !settled ==> a@.take(i + 1) == sorted.insert(
                    j as int,
                    x,
                ),
                spec_weak_order::<T>() && !settled ==> forall|k: int|
                    j <= k < i ==> spec_less(x, #[trigger] sorted[k]),
            decreases j,
        {
            let ghost before = a@;
            proof {
                if spec_weak_order::<T>() {
                    let front = before.take(i + 1);
                    assert(front[j as int] == before[j as int]);
                    assert(front[j - 1] == before[j - 1]);
                    if settled {
                        assert(!spec_less(front[j as int], front[j - 1]));
                    }
                }
            }
            if a[j] < a[j - 1] {
                let upper = a[j];
                let lower = a[j - 1];
                a[j] = lower;
                a[j - 1] = upper;
                proof {
                    lemma_swap_keeps_multiset(before, j as int, j - 1);
                    assert(a@ =~= before.update(j as int, before[j - 1]).update(
                        j - 1,
                        before[j as int],
                    ));
                    if spec_weak_order::<T>() {
                        assert(spec_less(before[j as int], before[j - 1]));
                        assert(!settled);
                        let front = before.take(i + 1);
                        let moved = sorted.insert(j - 1, x);
                        assert(front == sorted.insert(j as int, x));
                        assert(a@.take(i + 1).len() == moved.len());
                        assert forall|k: int| 0 <= k <= i implies a@.take(i + 1)[k]
                            == moved[k] by {
                            assert(before[k] == front[k]);
                        }
                        assert(a@.take(i + 1) =~= moved);
                        assert(a@.skip(i + 1) =~= before.skip(i + 1));
                    }
                }
            } else {
                proof {
                    if spec_weak_order::<T>() && !settled {
                        lemma_insert_at_found(sorted, x, j as int);
                        lemma_insert_keeps_sorted(sorted, x);
                        settled = true;
                    }
                }
            }
            j = j - 1;
        }
        proof {
            if spec_weak_order::<T>() {
                if !settled {
                    lemma_insert_at_found(sorted, x, 0);
                }
                let upto = old(a)@.take(i + 1);
                assert(upto.drop_last() =~= old(a)@.take(i as int));
                assert(upto.last() == x);
            }
        }
        i = i + 1;
    }
    proof {
        assert(a@.take(n as int) =~= a@);
        assert(old(a)@.take(n as int) =~= old(a)@);
        if spec_weak_order::<T>() {
            lemma_sort_sorted(old(a)@);
        }
    }
}

} // verus!
