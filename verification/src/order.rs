//! Stable sorting of values by a key that is strictly and totally ordered.

use vstd::prelude::*;

verus! {

/// Values that are ordered by a key.
pub trait SortKey: Sized {
    /// The key type.
    type Key;

    /// The key by which a value is ordered.
    spec fn sort_key(&self) -> Self::Key;

    /// The strict order of keys.
    spec fn key_lt(a: Self::Key, b: Self::Key) -> bool;

    /// The order of keys is a strict total order.
    proof fn lemma_key_order(a: Self::Key, b: Self::Key, c: Self::Key)
        ensures
            !Self::key_lt(a, a),
            Self::key_lt(a, b) && Self::key_lt(b, c) ==> Self::key_lt(a, c),
            Self::key_lt(a, b) || Self::key_lt(b, a) || a == b,
    ;

    /// Whether this value comes strictly before `other`.
    fn comes_before(&self, other: &Self) -> (r: bool)
        ensures
            r == Self::key_lt(self.sort_key(), other.sort_key()),
    ;
}

/// The values of a sequence are in ascending order of their keys.
pub open spec fn sorted_by_key<T: SortKey>(s: Seq<T>) -> bool {
    forall|i: int, j: int|
        0 <= i < j < s.len() ==> !T::key_lt(#[trigger] s[j].sort_key(), #[trigger] s[i].sort_key())
}

/// The values of `s` whose key is `k`, in order.
pub open spec fn key_class<T: SortKey>(s: Seq<T>, k: T::Key) -> Seq<T>
    decreases s.len(),
{
    if s.len() == 0 {
        Seq::empty()
    } else if s.last().sort_key() == k {
        key_class(s.drop_last(), k).push(s.last())
    } else {
        key_class(s.drop_last(), k)
    }
}

/// Inserting `x` before values of greater keys only adds it at the end of its key's class.
proof fn lemma_key_class_insert<T: SortKey>(r: Seq<T>, j: int, x: T, k: T::Key)
    requires
        0 <= j <= r.len(),
        forall|b: int| j <= b < r.len() ==> T::key_lt(x.sort_key(), #[trigger] r[b].sort_key()),
    ensures
        key_class(r.insert(j, x), k) == if k == x.sort_key() {
            key_class(r, k).push(x)
        } else {
            key_class(r, k)
        },
    decreases r.len(),
{
    let ri = r.insert(j, x);
    if j == r.len() {
        assert(ri.drop_last() =~= r);
        assert(ri.last() == x);
    } else {
        let d = r.drop_last();
        let last = r.last();
        T::lemma_key_order(x.sort_key(), last.sort_key(), x.sort_key());
        assert(T::key_lt(x.sort_key(), r[r.len() - 1].sort_key()));
        lemma_key_class_insert(d, j, x, k);
        assert(ri.drop_last() =~= d.insert(j, x));
        assert(ri.last() == last);
        assert(r.drop_last() == d);
    }
}

/// Sorts values in ascending order of their keys.
pub fn sort_by_key<T: SortKey>(v: &mut Vec<T>)
    ensures
        final(v)@.to_multiset() == old(v)@.to_multiset(),
        sorted_by_key(final(v)@),
        forall|k: T::Key| #[trigger] key_class(final(v)@, k) == key_class(old(v)@, k),
{
    broadcast use vstd::seq_lib::group_to_multiset_ensures, vstd::multiset::group_multiset_axioms;

    let ghost initial = v@;
    let mut source: Vec<T> = Vec::new();
    std::mem::swap(v, &mut source);
    let mut stack: Vec<T> = Vec::new();
    assert(source@ =~= initial.take(initial.len() as int));
    while source.len() > 0
        invariant
            source@.to_multiset().add(stack@.to_multiset()) == initial.to_multiset(),
            source@.len() + stack@.len() == initial.len(),
            source@ == initial.take(source@.len() as int),
            forall|t: int| 0 <= t < stack@.len() ==> #[trigger] stack@[t] == initial[initial.len() - 1 - t],
        decreases source@.len(),
    {
        let ghost s0 = source@;
        let ghost t0 = stack@;
        let x = source.pop().unwrap();
        assert(s0 =~= source@.push(x));
        proof {
            vstd::seq_lib::to_multiset_build(source@, x);
            vstd::seq_lib::to_multiset_build(t0, x);
        }
        stack.push(x);
        assert(x == initial[s0.len() - 1]);
        assert(source@ =~= initial.take(source@.len() as int));
        assert(s0.to_multiset() == source@.to_multiset().insert(x));
        assert(stack@.to_multiset() == t0.to_multiset().insert(x));
        assert(source@.to_multiset().add(stack@.to_multiset()) =~= s0.to_multiset().add(
            t0.to_multiset(),
        ));
    }
    let mut result: Vec<T> = Vec::new();
    assert forall|k: T::Key| #[trigger] key_class(result@, k) == key_class(initial.take(0), k) by {
        assert(result@ =~= Seq::<T>::empty());
        assert(initial.take(0) =~= Seq::<T>::empty());
    }
    while stack.len() > 0
        invariant
            result@.to_multiset().add(stack@.to_multiset()) == initial.to_multiset(),
            sorted_by_key(result@),
            stack@.len() <= initial.len(),
            forall|t: int| 0 <= t < stack@.len() ==> #[trigger] stack@[t] == initial[initial.len() - 1 - t],
            forall|k: T::Key| #[trigger] key_class(result@, k) == key_class(initial.take(initial.len() - stack@.len()), k),
        decreases stack@.len(),
    {
        let ghost s0 = stack@;
        let ghost res0 = result@;
        let x = stack.pop().unwrap();
        assert(s0 =~= stack@.push(x));
        proof {
            vstd::seq_lib::to_multiset_build(stack@, x);
        }
        assert(s0.to_multiset() == stack@.to_multiset().insert(x));
        let mut j = result.len();
        while j > 0 && x.comes_before(&result[j - 1])
            invariant
                j <= result@.len(),
                forall|k: int| j <= k < result@.len() ==> T::key_lt(x.sort_key(), #[trigger] result@[k].sort_key()),
            decreases j,
        {
            j = j - 1;
        }
        let ghost r0 = result@;
        proof {
            assert forall|k: int| 0 <= k < j implies !T::key_lt(x.sort_key(), #[trigger] r0[k].sort_key()) by {
                T::lemma_key_order(r0[k].sort_key(), r0[j - 1].sort_key(), x.sort_key());
                T::lemma_key_order(x.sort_key(), r0[k].sort_key(), r0[j - 1].sort_key());
                T::lemma_key_order(r0[k].sort_key(), x.sort_key(), r0[j - 1].sort_key());
            }
        }
        result.insert(j, x);
        proof {
            let n = initial.len() - s0.len();
            assert(x == s0[s0.len() - 1]);
            assert(x == initial[n]);
            assert(initial.take(n + 1).drop_last() =~= initial.take(n));
            assert(initial.take(n + 1).last() == x);
            assert forall|k: T::Key| #[trigger] key_class(result@, k) == key_class(initial.take(initial.len() - stack@.len()), k) by {
                lemma_key_class_insert(r0, j as int, x, k);
                assert(result@ == r0.insert(j as int, x));
                assert(initial.len() - stack@.len() == n + 1);
            }
            assert forall|t: int| 0 <= t < stack@.len() implies #[trigger] stack@[t] == initial[initial.len() - 1 - t] by {
                assert(stack@[t] == s0[t]);
            }
            let r1 = result@;
            vstd::seq_lib::to_multiset_insert(r0, j as int, x);
            assert(r1.to_multiset() == r0.to_multiset().insert(x));
            assert(result@.to_multiset().add(stack@.to_multiset()) =~= res0.to_multiset().add(
                s0.to_multiset(),
            ));
            assert(r1 == r0.insert(j as int, x));
            assert forall|a: int, b: int| 0 <= a < b < r1.len() implies !T::key_lt(#[trigger] r1[b].sort_key(), #[trigger] r1[a].sort_key()) by {
                if a < j && b < j {
                    assert(r1[a] == r0[a] && r1[b] == r0[b]);
                } else if a < j && b == j {
                    assert(r1[a] == r0[a]);
                    T::lemma_key_order(x.sort_key(), r0[a].sort_key(), x.sort_key());
                } else if a < j && b > j {
                    assert(r1[a] == r0[a] && r1[b] == r0[b - 1]);
                } else if a == j {
                    assert(r1[b] == r0[b - 1]);
                    T::lemma_key_order(x.sort_key(), r0[b - 1].sort_key(), x.sort_key());
                } else {
                    assert(r1[a] == r0[a - 1] && r1[b] == r0[b - 1]);
                }
            }
        }
    }
    assert(initial.take(initial.len() as int) =~= initial);
    *v = result;
}

/// Sequences with the same elements have the same images, element by element.
pub proof fn lemma_multiset_map<A, B>(a: Seq<A>, b: Seq<A>, f: spec_fn(A) -> B)
    requires
        a.to_multiset() == b.to_multiset(),
    ensures
        a.map_values(f).to_multiset() == b.map_values(f).to_multiset(),
    decreases a.len(),
{
    broadcast use vstd::seq_lib::group_to_multiset_ensures, vstd::multiset::group_multiset_axioms;

    if a.len() == 0 {
        vstd::seq_lib::to_multiset_len(a);
        vstd::seq_lib::to_multiset_len(b);
        assert(a.map_values(f) =~= Seq::<B>::empty());
        assert(b.map_values(f) =~= Seq::<B>::empty());
    } else {
        let x = a.last();
        let a0 = a.drop_last();
        assert(a =~= a0.push(x));
        vstd::seq_lib::to_multiset_build(a0, x);
        vstd::seq_lib::to_multiset_contains(b, x);
        assert(a.to_multiset().count(x) > 0);
        assert(b.contains(x));
        let k = choose|k: int| 0 <= k < b.len() && b[k] == x;
        let b0 = b.remove(k);
        vstd::seq_lib::to_multiset_remove(b, k);
        assert(a0.to_multiset() =~= b0.to_multiset());
        lemma_multiset_map(a0, b0, f);
        assert(a.map_values(f) =~= a0.map_values(f).push(f(x)));
        vstd::seq_lib::to_multiset_build(a0.map_values(f), f(x));
        let bm = b.map_values(f);
        assert(b0.map_values(f) =~= bm.remove(k));
        vstd::seq_lib::to_multiset_remove(bm, k);
        vstd::seq_lib::to_multiset_contains(bm, f(x));
        assert(bm[k] == f(x));
        assert(bm.to_multiset() =~= bm.remove(k).to_multiset().insert(f(x)));
    }
}

} // verus!
