//! What it means to sort a sequence stably by a total preorder, and the laws
//! that follow from it.
//!
//! A stable sort of `input` is a rearrangement that is ordered and in which
//! the items of every rank stand in the order they had in `input`. There is
//! exactly one such rearrangement, so the three conditions of
//! [`stable_sort_of`] say which sequence a sort returns.

use vstd::prelude::*;

verus! {

/// `le` relates any two items one way or the other, and is transitive.
pub open spec fn total_preorder<T>(le: spec_fn(T, T) -> bool) -> bool {
    &&& forall|a: T, b: T| #[trigger] le(a, b) || le(b, a)
    &&& forall|a: T, b: T, c: T| #[trigger] le(a, b) && #[trigger] le(b, c) ==> le(a, c)
}

/// No item of `s` stands before one that it does not precede under `le`.
pub open spec fn sorted_by<T>(s: Seq<T>, le: spec_fn(T, T) -> bool) -> bool {
    forall|i: int, j: int| 0 <= i < j < s.len() ==> le(#[trigger] s[i], #[trigger] s[j])
}

/// The test for having the rank of `x`: preceding it and being preceded by it.
pub open spec fn ranks_with<T>(le: spec_fn(T, T) -> bool, x: T) -> spec_fn(T) -> bool {
    |y: T| le(x, y) && le(y, x)
}

/// The items of `s` that have the rank of `x`, in the order they have in `s`.
pub open spec fn peers<T>(s: Seq<T>, le: spec_fn(T, T) -> bool, x: T) -> Seq<T> {
    s.filter(ranks_with(le, x))
}

/// The order opposite to `le`.
pub open spec fn flipped<T>(le: spec_fn(T, T) -> bool) -> spec_fn(T, T) -> bool {
    |a: T, b: T| le(b, a)
}

/// `out` is `input` sorted stably by `le`: the same items, in order, and the
/// items of each rank in their order of `input`.
pub open spec fn stable_sort_of<T>(out: Seq<T>, input: Seq<T>, le: spec_fn(T, T) -> bool) -> bool {
    &&& out.to_multiset() == input.to_multiset()
    &&& sorted_by(out, le)
    &&& forall|x: T| #[trigger] peers(out, le, x) == peers(input, le, x)
}

/// The peers in a sequence are the peers in all but its last item, followed
/// by the last item where that has the rank.
pub proof fn lemma_peers_last<T>(s: Seq<T>, le: spec_fn(T, T) -> bool, x: T)
    requires
        s.len() > 0,
    ensures
        peers(s, le, x) == if le(x, s.last()) && le(s.last(), x) {
            peers(s.drop_last(), le, x).push(s.last())
        } else {
            peers(s.drop_last(), le, x)
        },
{
    reveal(Seq::filter);
}

/// A sequence in which nothing has the rank of `x` holds no peers of `x`.
pub proof fn lemma_no_peers<T>(s: Seq<T>, le: spec_fn(T, T) -> bool, x: T)
    requires
        forall|k: int| 0 <= k < s.len() ==> !(le(x, #[trigger] s[k]) && le(s[k], x)),
    ensures
        peers(s, le, x) == Seq::<T>::empty(),
    decreases s.len(),
{
    reveal(Seq::filter);
    if s.len() > 0 {
        assert(!(le(x, s[s.len() - 1]) && le(s[s.len() - 1], x)));
        lemma_no_peers(s.drop_last(), le, x);
    } else {
        assert(peers(s, le, x) =~= Seq::<T>::empty());
    }
}

/// Ranks are the same under an order and under its opposite.
pub proof fn lemma_peers_flipped<T>(s: Seq<T>, le: spec_fn(T, T) -> bool, x: T)
    ensures
        peers(s, flipped(le), x) == peers(s, le, x),
    decreases s.len(),
{
    reveal(Seq::filter);
    if s.len() > 0 {
        lemma_peers_flipped(s.drop_last(), le, x);
    }
}

/// The opposite of a total preorder is a total preorder.
pub proof fn lemma_flipped_preorder<T>(le: spec_fn(T, T) -> bool)
    requires
        total_preorder(le),
    ensures
        total_preorder(flipped(le)),
{
    let ge = flipped(le);
    assert forall|a: T, b: T| #[trigger] ge(a, b) || ge(b, a) by {
        assert(le(a, b) || le(b, a));
    }
    assert forall|a: T, b: T, c: T| #[trigger] ge(a, b) && #[trigger] ge(b, c) implies ge(
        a,
        c,
    ) by {
        assert(le(c, b) && le(b, a));
    }
}

/// Two ordered sequences of one length whose items of each rank agree, in
/// order, are the same sequence.
pub proof fn lemma_sorted_peers_unique<T>(a: Seq<T>, b: Seq<T>, le: spec_fn(T, T) -> bool)
    requires
        total_preorder(le),
        sorted_by(a, le),
        sorted_by(b, le),
        a.len() == b.len(),
        forall|x: T| #[trigger] peers(a, le, x) == peers(b, le, x),
    ensures
        a == b,
    decreases a.len(),
{
    if a.len() == 0 {
        assert(a =~= b);
    } else {
        let x = a.last();
        let y = b.last();
        let a0 = a.drop_last();
        let b0 = b.drop_last();
        assert(le(x, x));
        assert(le(y, y));
        // the last item of `a` occurs in `b`, so it precedes the last of `b`
        lemma_peers_last(a, le, x);
        assert(peers(b, le, x) == peers(a, le, x));
        let kx = peers(b, le, x).len() - 1;
        assert(peers(b, le, x)[kx] == x);
        lemma_kept_is_member(b, ranks_with(le, x), kx);
        let jx = choose|j: int| 0 <= j < b.len() && b[j] == peers(b, le, x)[kx];
        assert(le(b[jx], y)) by {
            if jx < b.len() - 1 {
                assert(le(b[jx], b[b.len() - 1]));
            }
        }
        // and the other way round
        lemma_peers_last(b, le, y);
        assert(peers(a, le, y) == peers(b, le, y));
        let ky = peers(a, le, y).len() - 1;
        assert(peers(a, le, y)[ky] == y);
        lemma_kept_is_member(a, ranks_with(le, y), ky);
        let jy = choose|j: int| 0 <= j < a.len() && a[j] == peers(a, le, y)[ky];
        assert(le(a[jy], x)) by {
            if jy < a.len() - 1 {
                assert(le(a[jy], a[a.len() - 1]));
            }
        }
        assert(le(x, y) && le(y, x));
        // so both end in the same item
        lemma_peers_last(b, le, x);
        assert(peers(a0, le, x).push(x) == peers(b0, le, x).push(y));
        assert(peers(a0, le, x).push(x).last() == x);
        assert(x == y);
        assert forall|z: T| #[trigger] peers(a0, le, z) == peers(b0, le, z) by {
            lemma_peers_last(a, le, z);
            lemma_peers_last(b, le, z);
            assert(peers(a, le, z) == peers(b, le, z));
            if le(z, x) && le(x, z) {
                assert(peers(a0, le, z).push(x).drop_last() =~= peers(a0, le, z));
                assert(peers(b0, le, z).push(x).drop_last() =~= peers(b0, le, z));
            }
        }
        assert(sorted_by(a0, le)) by {
            assert forall|i: int, j: int| 0 <= i < j < a0.len() implies le(
                #[trigger] a0[i],
                #[trigger] a0[j],
            ) by {
                assert(le(a[i], a[j]));
            }
        }
        assert(sorted_by(b0, le)) by {
            assert forall|i: int, j: int| 0 <= i < j < b0.len() implies le(
                #[trigger] b0[i],
                #[trigger] b0[j],
            ) by {
                assert(le(b[i], b[j]));
            }
        }
        lemma_sorted_peers_unique(a0, b0, le);
        assert(a =~= a0.push(x));
        assert(b =~= b0.push(y));
    }
}

/// A sequence has at most one stable sort.
pub proof fn lemma_stable_sort_unique<T>(
    a: Seq<T>,
    b: Seq<T>,
    input: Seq<T>,
    le: spec_fn(T, T) -> bool,
)
    requires
        total_preorder(le),
        stable_sort_of(a, input, le),
        stable_sort_of(b, input, le),
    ensures
        a == b,
{
    a.to_multiset_ensures();
    b.to_multiset_ensures();
    assert forall|x: T| #[trigger] peers(a, le, x) == peers(b, le, x) by {
        assert(peers(a, le, x) == peers(input, le, x));
        assert(peers(b, le, x) == peers(input, le, x));
    }
    lemma_sorted_peers_unique(a, b, le);
}

/// A place for `x` in the ordered sequence `front`: everything from there on
/// comes strictly after `x`, and what stands just before does not.
pub proof fn lemma_slot<T>(front: Seq<T>, x: T, le: spec_fn(T, T) -> bool) -> (p: int)
    ensures
        0 <= p <= front.len(),
        forall|k: int| p <= k < front.len() ==> !le(#[trigger] front[k], x),
        p > 0 ==> le(front[p - 1], x),
    decreases front.len(),
{
    if front.len() == 0 {
        0
    } else if le(front.last(), x) {
        front.len() as int
    } else {
        let q = lemma_slot(front.drop_last(), x, le);
        assert forall|k: int| q <= k < front.len() implies !le(#[trigger] front[k], x) by {
            if k < front.len() - 1 {
                assert(front.drop_last()[k] == front[k]);
            }
        }
        q
    }
}

/// Every sequence has a stable sort.
pub proof fn lemma_stable_sort_exists<T>(s: Seq<T>, le: spec_fn(T, T) -> bool) -> (out: Seq<T>)
    requires
        total_preorder(le),
    ensures
        stable_sort_of(out, s, le),
    decreases s.len(),
{
    if s.len() == 0 {
        s
    } else {
        let front = lemma_stable_sort_exists(s.drop_last(), le);
        let x = s.last();
        let t = front.push(x);
        let i = front.len() as int;
        let p = lemma_slot(front, x, le);
        assert(t.take(i) =~= front);
        lemma_insertion_step(t, le, i, p);
        let out = t.remove(i).insert(p, x);
        assert(out.take(i + 1) =~= out);
        assert(out.to_multiset() == s.to_multiset()) by {
            broadcast use vstd::seq_lib::to_multiset_build;

            assert(s =~= s.drop_last().push(x));
        }
        assert forall|z: T| #[trigger] peers(out, le, z) == peers(s, le, z) by {
            assert(peers(out, le, z) == peers(t, le, z));
            lemma_peers_last(t, le, z);
            lemma_peers_last(s, le, z);
            assert(t.drop_last() =~= front);
            assert(peers(front, le, z) == peers(s.drop_last(), le, z));
        }
        out
    }
}

/// The stable sort of `s` by `le`: the one sequence that [`stable_sort_of`]
/// describes.
pub open spec fn stable_sorted<T>(s: Seq<T>, le: spec_fn(T, T) -> bool) -> Seq<T> {
    choose|out: Seq<T>| stable_sort_of(out, s, le)
}

/// The stable sort of a sequence is a stable sort of it, and the only one.
pub proof fn lemma_stable_sorted<T>(s: Seq<T>, le: spec_fn(T, T) -> bool)
    requires
        total_preorder(le),
    ensures
        stable_sort_of(stable_sorted(s, le), s, le),
        forall|out: Seq<T>| stable_sort_of(out, s, le) ==> out == stable_sorted(s, le),
{
    let witness = lemma_stable_sort_exists(s, le);
    assert forall|out: Seq<T>| stable_sort_of(out, s, le) implies out == stable_sorted(s, le) by {
        lemma_stable_sort_unique(out, stable_sorted(s, le), s, le);
    }
}

/// An ordered sequence is its own stable sort.
pub proof fn lemma_sorted_is_fixed<T>(s: Seq<T>, out: Seq<T>, le: spec_fn(T, T) -> bool)
    requires
        total_preorder(le),
        sorted_by(s, le),
        stable_sort_of(out, s, le),
    ensures
        out == s,
{
    lemma_stable_sort_unique(out, s, s, le);
}

/// Sorting by the opposite order and then by the order again gives the stable
/// sort by the order: a stable sort keeps the items of each rank in place
/// relative to one another, whichever way it runs.
pub proof fn lemma_sort_there_and_back<T>(
    input: Seq<T>,
    down: Seq<T>,
    up: Seq<T>,
    le: spec_fn(T, T) -> bool,
)
    requires
        total_preorder(le),
        stable_sort_of(down, input, flipped(le)),
        stable_sort_of(up, down, le),
    ensures
        stable_sort_of(up, input, le),
{
    assert forall|x: T| #[trigger] peers(up, le, x) == peers(input, le, x) by {
        assert(peers(up, le, x) == peers(down, le, x));
        lemma_peers_flipped(down, le, x);
        assert(peers(down, flipped(le), x) == peers(input, flipped(le), x));
        lemma_peers_flipped(input, le, x);
    }
}

/// Moving the item at `i` down to `p`, past items that all come strictly after
/// it, extends an ordered front by one item and keeps the items of every rank
/// in their order.
pub proof fn lemma_insertion_step<T>(s: Seq<T>, le: spec_fn(T, T) -> bool, i: int, p: int)
    requires
        total_preorder(le),
        0 <= p <= i < s.len(),
        sorted_by(s.take(i), le),
        forall|k: int| p <= k < i ==> !le(#[trigger] s[k], s[i]),
        p > 0 ==> le(s[p - 1], s[i]),
    ensures
        sorted_by(s.remove(i).insert(p, s[i]).take(i + 1), le),
        s.remove(i).insert(p, s[i]).to_multiset() == s.to_multiset(),
        forall|z: T| #[trigger]
            peers(s.remove(i).insert(p, s[i]), le, z) == peers(s, le, z),
{
    broadcast use {
        vstd::seq_lib::to_multiset_remove,
        vstd::seq_lib::to_multiset_insert,
        vstd::multiset::group_multiset_axioms,
    };

    let x = s[i];
    let t = s.remove(i).insert(p, x);
    let front = s.subrange(0, p);
    let passed = s.subrange(p, i);
    let rest = s.subrange(i + 1, s.len() as int);
    assert(s =~= front + passed + seq![x] + rest);
    assert(t =~= front + seq![x] + passed + rest);
    assert(s.remove(i).to_multiset() =~= s.to_multiset().remove(x));
    assert(t.to_multiset() =~= s.remove(i).to_multiset().insert(x));
    assert(s.to_multiset().count(x) > 0) by {
        s.to_multiset_ensures();
        assert(s.contains(x));
    }
    assert(t.to_multiset() =~= s.to_multiset());
    assert(sorted_by(t.take(i + 1), le)) by {
        let u = t.take(i + 1);
        assert forall|a: int, b: int| 0 <= a < b < u.len() implies le(
            #[trigger] u[a],
            #[trigger] u[b],
        ) by {
            if b < p {
                assert(le(s.take(i)[a], s.take(i)[b]));
            } else if b == p {
                // u[a] is in the front, which ends at or before s[p - 1]
                if a < p - 1 {
                    assert(le(s.take(i)[a], s.take(i)[p - 1]));
                }
                assert(le(s[a], s[p - 1]) || a == p - 1);
                assert(le(s[p - 1], x));
            } else if a < p {
                assert(u[b] == s[b - 1]);
                assert(le(s.take(i)[a], s.take(i)[b - 1]));
            } else if a == p {
                assert(u[b] == s[b - 1]);
                assert(!le(s[b - 1], x));
                assert(le(x, s[b - 1]) || le(s[b - 1], x));
            } else {
                assert(u[a] == s[a - 1]);
                assert(u[b] == s[b - 1]);
                assert(le(s.take(i)[a - 1], s.take(i)[b - 1]));
            }
        }
    }
    assert forall|z: T| #[trigger] peers(t, le, z) == peers(s, le, z) by {
        let keep = ranks_with(le, z);
        Seq::filter_distributes_over_add(front, passed, keep);
        Seq::filter_distributes_over_add(front + passed, seq![x], keep);
        Seq::filter_distributes_over_add(front + passed + seq![x], rest, keep);
        Seq::filter_distributes_over_add(front, seq![x], keep);
        Seq::filter_distributes_over_add(front + seq![x], passed, keep);
        Seq::filter_distributes_over_add(front + seq![x] + passed, rest, keep);
        if le(z, x) && le(x, z) {
            assert forall|k: int| 0 <= k < passed.len() implies !(le(z, #[trigger] passed[k])
                && le(passed[k], z)) by {
                assert(passed[k] == s[p + k]);
                assert(!le(s[p + k], x));
                if le(passed[k], z) {
                    assert(le(passed[k], z) && le(z, x));
                }
            }
            lemma_no_peers(passed, le, z);
            assert(peers(front, le, z) + peers(seq![x], le, z) + Seq::<T>::empty() =~= peers(
                front,
                le,
                z,
            ) + Seq::<T>::empty() + peers(seq![x], le, z));
        } else {
            assert forall|k: int| 0 <= k < seq![x].len() implies !(le(z, #[trigger] seq![x][k])
                && le(seq![x][k], z)) by {}
            lemma_no_peers(seq![x], le, z);
            assert(peers(front, le, z) + Seq::<T>::empty() + peers(passed, le, z) =~= peers(
                front,
                le,
                z,
            ) + peers(passed, le, z) + Seq::<T>::empty());
        }
    }
}

/// Where a merge of the ordered sequences `a` and `b` stands when `out` is
/// what it has put out, and `a` from `i` on and `b` from `j` on are still to
/// come: what is put out and what is to come hold the items of `a` and `b`,
/// those of each rank in the order in which `a` followed by `b` has them, and
/// what is put out is ordered and goes before what is to come.
pub open spec fn merging<T>(
    out: Seq<T>,
    a: Seq<T>,
    b: Seq<T>,
    i: int,
    j: int,
    le: spec_fn(T, T) -> bool,
) -> bool {
    &&& 0 <= i <= a.len()
    &&& 0 <= j <= b.len()
    &&& (out + a.skip(i) + b.skip(j)).to_multiset() == (a + b).to_multiset()
    &&& forall|z: T| #[trigger] peers(out + a.skip(i) + b.skip(j), le, z) == peers(a + b, le, z)
    &&& sorted_by(out + a.skip(i), le)
    &&& sorted_by(out + b.skip(j), le)
}

/// A merge starts with nothing put out.
pub proof fn lemma_merging_start<T>(a: Seq<T>, b: Seq<T>, le: spec_fn(T, T) -> bool)
    requires
        sorted_by(a, le),
        sorted_by(b, le),
    ensures
        merging(Seq::<T>::empty(), a, b, 0, 0, le),
{
    let out = Seq::<T>::empty();
    assert(out + a.skip(0) =~= a);
    assert(out + b.skip(0) =~= b);
    assert(out + a.skip(0) + b.skip(0) =~= a + b);
}

/// A merge may put out the next item of `a` where it does not come after the
/// next item of `b`, or where `b` is used up.
pub proof fn lemma_merging_left<T>(
    out: Seq<T>,
    a: Seq<T>,
    b: Seq<T>,
    i: int,
    j: int,
    le: spec_fn(T, T) -> bool,
)
    requires
        total_preorder(le),
        merging(out, a, b, i, j, le),
        i < a.len(),
        j < b.len() ==> le(a[i], b[j]),
    ensures
        merging(out.push(a[i]), a, b, i + 1, j, le),
{
    let more = out.push(a[i]);
    let with_a = out + a.skip(i);
    let with_b = out + b.skip(j);
    assert(more + a.skip(i + 1) =~= with_a);
    assert(more + a.skip(i + 1) + b.skip(j) =~= out + a.skip(i) + b.skip(j));
    let next = more + b.skip(j);
    assert forall|x: int, y: int| 0 <= x < y < next.len() implies le(
        #[trigger] next[x],
        #[trigger] next[y],
    ) by {
        let n = out.len() as int;
        if y < n {
            assert(le(with_b[x], with_b[y]));
        } else if y == n {
            assert(le(with_a[x], with_a[n]));
        } else if x < n {
            assert(le(with_b[x], with_b[y - 1]));
        } else if x == n {
            assert(next[y] == b[j + (y - n - 1)]);
            assert(le(a[i], b[j]));
            if y > n + 1 {
                assert(le(with_b[n], with_b[y - 1]));
                assert(le(a[i], b[j]) && le(b[j], next[y]));
            }
        } else {
            assert(le(with_b[x - 1], with_b[y - 1]));
        }
    }
}

/// A merge may put out the next item of `b` where the next item of `a` comes
/// strictly after it, or where `a` is used up.
pub proof fn lemma_merging_right<T>(
    out: Seq<T>,
    a: Seq<T>,
    b: Seq<T>,
    i: int,
    j: int,
    le: spec_fn(T, T) -> bool,
)
    requires
        total_preorder(le),
        merging(out, a, b, i, j, le),
        j < b.len(),
        i < a.len() ==> !le(a[i], b[j]),
    ensures
        merging(out.push(b[j]), a, b, i, j + 1, le),
{
    let more = out.push(b[j]);
    let with_a = out + a.skip(i);
    let with_b = out + b.skip(j);
    let all = out + a.skip(i) + b.skip(j);
    let p = out.len() as int;
    let pos = p + (a.len() - i);
    assert(all.take(pos) =~= with_a);
    assert(all[pos] == b[j]);
    assert forall|k: int| p <= k < pos implies !le(#[trigger] all[k], all[pos]) by {
        assert(all[k] == a[i + (k - p)]);
        if k > p {
            assert(le(with_a[p], with_a[k]));
            if le(all[k], b[j]) {
                assert(le(a[i], all[k]) && le(all[k], b[j]));
            }
        }
    }
    if p > 0 {
        assert(le(with_b[p - 1], with_b[p]));
        assert(all[p - 1] == with_b[p - 1]);
    }
    lemma_insertion_step(all, le, pos, p);
    let moved = all.remove(pos).insert(p, b[j]);
    assert(moved =~= more + a.skip(i) + b.skip(j + 1));
    assert(moved.take(pos + 1) =~= more + a.skip(i));
    assert(more + b.skip(j + 1) =~= with_b);
    assert forall|z: T| #[trigger]
        peers(more + a.skip(i) + b.skip(j + 1), le, z) == peers(a + b, le, z) by {
        assert(peers(moved, le, z) == peers(all, le, z));
        assert(peers(all, le, z) == peers(a + b, le, z));
    }
}

/// When both sequences are used up, what the merge has put out is the stable
/// sort of the first followed by the second.
pub proof fn lemma_merging_end<T>(out: Seq<T>, a: Seq<T>, b: Seq<T>, le: spec_fn(T, T) -> bool)
    requires
        merging(out, a, b, a.len() as int, b.len() as int, le),
    ensures
        stable_sort_of(out, a + b, le),
{
    assert(out + a.skip(a.len() as int) =~= out);
    assert(out + a.skip(a.len() as int) + b.skip(b.len() as int) =~= out);
    assert forall|z: T| #[trigger] peers(out, le, z) == peers(a + b, le, z) by {
        assert(peers(out + a.skip(a.len() as int) + b.skip(b.len() as int), le, z) == peers(
            a + b,
            le,
            z,
        ));
    }
}

/// The stable sort of two stable sorts put one after the other is the stable
/// sort of what they were made from, put one after the other.
pub proof fn lemma_sorted_halves<T>(
    out: Seq<T>,
    left: Seq<T>,
    right: Seq<T>,
    a: Seq<T>,
    b: Seq<T>,
    le: spec_fn(T, T) -> bool,
)
    requires
        stable_sort_of(left, a, le),
        stable_sort_of(right, b, le),
        stable_sort_of(out, left + right, le),
    ensures
        stable_sort_of(out, a + b, le),
{
    vstd::seq_lib::lemma_multiset_commutative(left, right);
    vstd::seq_lib::lemma_multiset_commutative(a, b);
    assert forall|z: T| #[trigger] peers(out, le, z) == peers(a + b, le, z) by {
        Seq::filter_distributes_over_add(left, right, ranks_with(le, z));
        Seq::filter_distributes_over_add(a, b, ranks_with(le, z));
        assert(peers(left, le, z) == peers(a, le, z));
        assert(peers(right, le, z) == peers(b, le, z));
        assert(peers(out, le, z) == peers(left + right, le, z));
    }
}

/// The order that goes by `first` and, among items that `first` ranks alike,
/// by `then`.
pub open spec fn refined<T>(first: spec_fn(T, T) -> bool, then: spec_fn(T, T) -> bool) -> spec_fn(
    T,
    T,
) -> bool {
    |a: T, b: T| first(a, b) && (first(b, a) ==> then(a, b))
}

/// The order under which all items rank alike.
pub open spec fn indifferent<T>() -> spec_fn(T, T) -> bool {
    |a: T, b: T| true
}

/// An order refined by another is a total preorder where both are.
pub proof fn lemma_refined_preorder<T>(first: spec_fn(T, T) -> bool, then: spec_fn(T, T) -> bool)
    requires
        total_preorder(first),
        total_preorder(then),
    ensures
        total_preorder(refined(first, then)),
{
    let le = refined(first, then);
    assert forall|a: T, b: T| #[trigger] le(a, b) || le(b, a) by {
        assert(first(a, b) || first(b, a));
        assert(then(a, b) || then(b, a));
    }
    assert forall|a: T, b: T, c: T| #[trigger] le(a, b) && #[trigger] le(b, c) implies le(
        a,
        c,
    ) by {
        assert(first(a, b) && first(b, c));
        if first(c, a) {
            assert(first(c, a) && first(a, b));
            assert(first(b, c) && first(c, a));
            assert(then(a, b) && then(b, c));
        }
    }
}

/// What a filter keeps satisfies the test and comes from the sequence.
pub proof fn lemma_kept_is_member<T>(s: Seq<T>, keep: spec_fn(T) -> bool, k: int)
    requires
        0 <= k < s.filter(keep).len(),
    ensures
        keep(s.filter(keep)[k]),
        exists|j: int| 0 <= j < s.len() && s[j] == s.filter(keep)[k],
    decreases s.len(),
{
    reveal(Seq::filter);
    if s.len() > 0 {
        let shorter = s.drop_last();
        if k < shorter.filter(keep).len() {
            lemma_kept_is_member(shorter, keep, k);
            let j = choose|j: int| 0 <= j < shorter.len() && shorter[j] == shorter.filter(keep)[k];
            assert(s[j] == s.filter(keep)[k]);
        } else {
            assert(s[s.len() - 1] == s.filter(keep)[k]);
        }
    }
}

/// Two items that a filter keeps stand in what it keeps in the order they
/// have in the sequence.
pub proof fn lemma_kept_in_order<T>(s: Seq<T>, keep: spec_fn(T) -> bool, i: int, j: int)
    requires
        0 <= i < j < s.len(),
        keep(s[i]),
        keep(s[j]),
    ensures
        exists|a: int, b: int|
            0 <= a < b < s.filter(keep).len() && s.filter(keep)[a] == s[i] && s.filter(keep)[b]
                == s[j],
    decreases s.len(),
{
    reveal(Seq::filter);
    let shorter = s.drop_last();
    if j < s.len() - 1 {
        lemma_kept_in_order(shorter, keep, i, j);
        let (a, b) = choose|a: int, b: int|
            0 <= a < b < shorter.filter(keep).len() && shorter.filter(keep)[a] == shorter[i]
                && shorter.filter(keep)[b] == shorter[j];
        assert(s.filter(keep)[a] == s[i] && s.filter(keep)[b] == s[j]);
    } else {
        lemma_kept_has(shorter, keep, i);
        let a = choose|a: int| 0 <= a < shorter.filter(keep).len() && shorter.filter(keep)[a]
            == shorter[i];
        let b = s.filter(keep).len() - 1;
        assert(s.filter(keep)[a] == s[i] && s.filter(keep)[b] == s[j]);
    }
}

/// An item that passes the test is among what the filter keeps.
pub proof fn lemma_kept_has<T>(s: Seq<T>, keep: spec_fn(T) -> bool, i: int)
    requires
        0 <= i < s.len(),
        keep(s[i]),
    ensures
        exists|a: int| 0 <= a < s.filter(keep).len() && s.filter(keep)[a] == s[i],
    decreases s.len(),
{
    reveal(Seq::filter);
    let shorter = s.drop_last();
    if i < s.len() - 1 {
        lemma_kept_has(shorter, keep, i);
        let a = choose|a: int| 0 <= a < shorter.filter(keep).len() && shorter.filter(keep)[a]
            == shorter[i];
        assert(s.filter(keep)[a] == s[i]);
    } else {
        assert(s.filter(keep)[s.filter(keep).len() - 1] == s[i]);
    }
}

/// What a filter keeps of an ordered sequence is ordered.
pub proof fn lemma_kept_sorted<T>(s: Seq<T>, keep: spec_fn(T) -> bool, le: spec_fn(T, T) -> bool)
    requires
        sorted_by(s, le),
    ensures
        sorted_by(s.filter(keep), le),
    decreases s.len(),
{
    reveal(Seq::filter);
    if s.len() > 0 {
        let shorter = s.drop_last();
        assert(sorted_by(shorter, le)) by {
            assert forall|i: int, j: int| 0 <= i < j < shorter.len() implies le(
                #[trigger] shorter[i],
                #[trigger] shorter[j],
            ) by {
                assert(le(s[i], s[j]));
            }
        }
        lemma_kept_sorted(shorter, keep, le);
        let kept = s.filter(keep);
        assert forall|a: int, b: int| 0 <= a < b < kept.len() implies le(
            #[trigger] kept[a],
            #[trigger] kept[b],
        ) by {
            if b < shorter.filter(keep).len() {
                assert(le(shorter.filter(keep)[a], shorter.filter(keep)[b]));
            } else {
                lemma_kept_is_member(shorter, keep, a);
                let j = choose|j: int| 0 <= j < shorter.len() && shorter[j] == shorter.filter(
                    keep,
                )[a];
                assert(le(s[j], s[s.len() - 1]));
            }
        }
    }
}

/// Filtering by one test and then by another keeps what passes both.
pub proof fn lemma_filter_twice<T>(
    s: Seq<T>,
    both: spec_fn(T) -> bool,
    one: spec_fn(T) -> bool,
    other: spec_fn(T) -> bool,
)
    requires
        forall|y: T| #[trigger] both(y) == (one(y) && other(y)),
    ensures
        s.filter(both) == s.filter(one).filter(other),
    decreases s.len(),
{
    reveal(Seq::filter);
    if s.len() > 0 {
        lemma_filter_twice(s.drop_last(), both, one, other);
        assert(both(s.last()) == (one(s.last()) && other(s.last())));
        if one(s.last()) {
            let kept = s.drop_last().filter(one);
            assert(kept.push(s.last()).drop_last() =~= kept);
        }
    }
}

/// The peers under a refined order are the peers under both orders.
pub proof fn lemma_peers_refined<T>(
    s: Seq<T>,
    first: spec_fn(T, T) -> bool,
    then: spec_fn(T, T) -> bool,
    z: T,
)
    ensures
        peers(s, refined(first, then), z) == peers(s, first, z).filter(ranks_with(then, z)),
        peers(s, refined(first, then), z) == peers(s, then, z).filter(ranks_with(first, z)),
{
    let both = ranks_with(refined(first, then), z);
    let one = ranks_with(first, z);
    let other = ranks_with(then, z);
    assert forall|y: T| #[trigger] both(y) == (one(y) && other(y)) by {}
    assert forall|y: T| #[trigger] both(y) == (other(y) && one(y)) by {}
    lemma_filter_twice(s, both, one, other);
    lemma_filter_twice(s, both, other, one);
}

/// Sorting by one order and then by another is sorting by the second order
/// refined by the first: the sort that comes last counts most, and because it
/// is stable the earlier sort decides among the items it ranks alike.
pub proof fn lemma_sort_twice<T>(
    input: Seq<T>,
    mid: Seq<T>,
    out: Seq<T>,
    first: spec_fn(T, T) -> bool,
    then: spec_fn(T, T) -> bool,
)
    requires
        total_preorder(first),
        total_preorder(then),
        stable_sort_of(mid, input, then),
        stable_sort_of(out, mid, first),
    ensures
        stable_sort_of(out, input, refined(first, then)),
{
    let le = refined(first, then);
    assert forall|i: int, j: int| 0 <= i < j < out.len() implies le(
        #[trigger] out[i],
        #[trigger] out[j],
    ) by {
        assert(first(out[i], out[j]));
        if first(out[j], out[i]) {
            let x = out[i];
            let keep = ranks_with(first, x);
            assert(first(x, x));
            lemma_kept_in_order(out, keep, i, j);
            let (a, b) = choose|a: int, b: int|
                0 <= a < b < out.filter(keep).len() && out.filter(keep)[a] == out[i] && out.filter(
                    keep,
                )[b] == out[j];
            assert(peers(out, first, x) == peers(mid, first, x));
            lemma_kept_sorted(mid, keep, then);
            assert(then(mid.filter(keep)[a], mid.filter(keep)[b]));
        }
    }
    assert forall|z: T| #[trigger] peers(out, le, z) == peers(input, le, z) by {
        lemma_peers_refined(out, first, then, z);
        lemma_peers_refined(mid, first, then, z);
        lemma_peers_refined(input, first, then, z);
        assert(peers(out, first, z) == peers(mid, first, z));
        assert(peers(mid, then, z) == peers(input, then, z));
    }
}

/// Under the order that ranks all items alike every sequence is its own
/// stable sort.
pub proof fn lemma_sort_indifferent<T>(s: Seq<T>)
    ensures
        total_preorder(indifferent::<T>()),
        stable_sorted(s, indifferent::<T>()) == s,
{
    let le = indifferent::<T>();
    assert forall|a: T, b: T| #[trigger] le(a, b) || le(b, a) by {}
    assert forall|a: T, b: T, c: T| #[trigger] le(a, b) && #[trigger] le(b, c) implies le(
        a,
        c,
    ) by {}
    assert(stable_sort_of(s, s, le));
    lemma_stable_sorted(s, le);
}

/// Whether `a` comes at or before `b` in dictionary order by byte values: at
/// the first place where they differ `a` holds the smaller byte, or `a` ends
/// first.
pub open spec fn lex_le(a: Seq<u8>, b: Seq<u8>) -> bool
    decreases a.len(),
{
    if a.len() == 0 {
        true
    } else if b.len() == 0 {
        false
    } else if a[0] != b[0] {
        a[0] < b[0]
    } else {
        lex_le(a.drop_first(), b.drop_first())
    }
}

/// Of two byte strings one comes at or before the other.
pub proof fn lemma_lex_total(a: Seq<u8>, b: Seq<u8>)
    ensures
        lex_le(a, b) || lex_le(b, a),
    decreases a.len(),
{
    if a.len() > 0 && b.len() > 0 && a[0] == b[0] {
        lemma_lex_total(a.drop_first(), b.drop_first());
    }
}

/// Dictionary order is transitive.
pub proof fn lemma_lex_transitive(a: Seq<u8>, b: Seq<u8>, c: Seq<u8>)
    requires
        lex_le(a, b),
        lex_le(b, c),
    ensures
        lex_le(a, c),
    decreases a.len(),
{
    if a.len() > 0 && b.len() > 0 && c.len() > 0 && a[0] == b[0] && b[0] == c[0] {
        lemma_lex_transitive(a.drop_first(), b.drop_first(), c.drop_first());
    }
}

/// Whether `a` comes at or before `b` in dictionary order.
pub fn bytes_le(a: &[u8], b: &[u8]) -> (r: bool)
    ensures
        r == lex_le(a@, b@),
{
    let mut i: usize = 0;
    assert(a@.skip(0) =~= a@);
    assert(b@.skip(0) =~= b@);
    while i < a.len() && i < b.len() && a[i] == b[i]
        invariant
            i <= a.len(),
            i <= b.len(),
            lex_le(a@, b@) == lex_le(a@.skip(i as int), b@.skip(i as int)),
        decreases a.len() - i,
    {
        assert(a@.skip(i as int).drop_first() =~= a@.skip(i + 1));
        assert(b@.skip(i as int).drop_first() =~= b@.skip(i + 1));
        i += 1;
    }
    if i == a.len() {
        true
    } else if i == b.len() {
        false
    } else {
        a[i] < b[i]
    }
}

} // verus!
