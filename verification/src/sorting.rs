//! The sequential core: the specification of sorting, the two-way merge, and
//! sequential merge sort.

use vstd::prelude::*;

verus! {

use vstd::multiset::Multiset;

/// A sequence is sorted in non-decreasing order.
pub open spec fn is_sorted(s: Seq<usize>) -> bool {
    forall|i: int, j: int| 0 <= i <= j < s.len() ==> s[i] <= s[j]
}

/// The merge of two sequences: repeatedly emit the smaller front element,
/// taking the left one on ties, so the result is stable with respect to
/// left-before-right on equal keys.
pub open spec fn merge_seqs(a: Seq<usize>, b: Seq<usize>) -> Seq<usize>
    decreases a.len() + b.len(),
{
    if a.len() == 0 {
        b
    } else if b.len() == 0 {
        a
    } else if a[0] <= b[0] {
        seq![a[0]] + merge_seqs(a.drop_first(), b)
    } else {
        seq![b[0]] + merge_seqs(a, b.drop_first())
    }
}

/// Sequential merge sort at the specification level: split at the midpoint,
/// sort each half, merge the sorted halves.
pub open spec fn sort_seq(s: Seq<usize>) -> Seq<usize>
    decreases s.len(),
{
    if s.len() <= 1 {
        s
    } else {
        merge_seqs(
            sort_seq(s.take(s.len() as int / 2)),
            sort_seq(s.skip(s.len() as int / 2)),
        )
    }
}

/// Merging with an empty sequence on either side returns the other side
/// unchanged.
pub proof fn lemma_merge_seqs_empty(a: Seq<usize>, b: Seq<usize>)
    ensures
        merge_seqs(a, Seq::<usize>::empty()) == a,
        merge_seqs(Seq::<usize>::empty(), b) == b,
{
}

/// The merge of two sequences has the length of both together.
pub proof fn lemma_merge_seqs_len(a: Seq<usize>, b: Seq<usize>)
    ensures
        merge_seqs(a, b).len() == a.len() + b.len(),
    decreases a.len() + b.len(),
{
    if a.len() == 0 || b.len() == 0 {
    } else if a[0] <= b[0] {
        lemma_merge_seqs_len(a.drop_first(), b);
    } else {
        lemma_merge_seqs_len(a, b.drop_first());
    }
}

/// The merge of two sequences holds exactly the elements of both: its
/// multiset is the multiset union of the inputs.
pub proof fn lemma_merge_seqs_multiset(a: Seq<usize>, b: Seq<usize>)
    ensures
        merge_seqs(a, b).to_multiset() == a.to_multiset().add(b.to_multiset()),
    decreases a.len() + b.len(),
{
    broadcast use vstd::seq_lib::group_to_multiset_ensures;
    broadcast use vstd::multiset::group_multiset_axioms;

    if a.len() == 0 {
        assert(a.to_multiset() =~= Multiset::<usize>::empty());
        assert(merge_seqs(a, b).to_multiset() =~= a.to_multiset().add(b.to_multiset()));
    } else if b.len() == 0 {
        assert(b.to_multiset() =~= Multiset::<usize>::empty());
        assert(merge_seqs(a, b).to_multiset() =~= a.to_multiset().add(b.to_multiset()));
    } else if a[0] <= b[0] {
        lemma_merge_seqs_multiset(a.drop_first(), b);
        lemma_head_tail_multiset(a);
        vstd::seq_lib::lemma_multiset_commutative(seq![a[0]], merge_seqs(a.drop_first(), b));
        assert(merge_seqs(a, b).to_multiset() =~= a.to_multiset().add(b.to_multiset()));
    } else {
        lemma_merge_seqs_multiset(a, b.drop_first());
        lemma_head_tail_multiset(b);
        vstd::seq_lib::lemma_multiset_commutative(seq![b[0]], merge_seqs(a, b.drop_first()));
        assert(merge_seqs(a, b).to_multiset() =~= a.to_multiset().add(b.to_multiset()));
    }
}

/// A non-empty sequence holds its first element and then its tail.
proof fn lemma_head_tail_multiset(s: Seq<usize>)
    requires
        s.len() > 0,
    ensures
        s.to_multiset() == seq![s[0]].to_multiset().add(s.drop_first().to_multiset()),
{
    assert(s =~= seq![s[0]] + s.drop_first());
    vstd::seq_lib::lemma_multiset_commutative(seq![s[0]], s.drop_first());
}

/// The merge of two sorted sequences is sorted.
pub proof fn lemma_merge_seqs_sorted(a: Seq<usize>, b: Seq<usize>)
    requires
        is_sorted(a),
        is_sorted(b),
    ensures
        is_sorted(merge_seqs(a, b)),
    decreases a.len() + b.len(),
{
    broadcast use vstd::seq_lib::group_to_multiset_ensures;
    broadcast use vstd::multiset::group_multiset_axioms;

    if a.len() == 0 || b.len() == 0 {
    } else if a[0] <= b[0] {
        assert(is_sorted(a.drop_first()));
        lemma_merge_seqs_sorted(a.drop_first(), b);
        lemma_merge_seqs_multiset(a.drop_first(), b);
        let rest = merge_seqs(a.drop_first(), b);
        let m = seq![a[0]] + rest;
        assert forall|k: int| 0 <= k < rest.len() implies a[0] <= rest[k] by {
            assert(rest.contains(rest[k]));
            assert(rest.to_multiset().count(rest[k]) > 0);
            if a.drop_first().to_multiset().count(rest[k]) > 0 {
                assert(a.drop_first().contains(rest[k]));
                let i = choose|i: int| 0 <= i < a.drop_first().len()
                    && a.drop_first()[i] == rest[k];
                assert(a[i + 1] == rest[k]);
            } else {
                assert(b.to_multiset().count(rest[k]) > 0);
                assert(b.contains(rest[k]));
                let i = choose|i: int| 0 <= i < b.len() && b[i] == rest[k];
                assert(b[0] <= b[i]);
            }
        }
        assert forall|i: int, j: int| 0 <= i <= j < m.len() implies m[i] <= m[j] by {
            if 0 < i {
                assert(m[i] == rest[i - 1] && m[j] == rest[j - 1]);
            } else if 0 < j {
                assert(m[j] == rest[j - 1]);
            }
        }
    } else {
        assert(is_sorted(b.drop_first()));
        lemma_merge_seqs_sorted(a, b.drop_first());
        lemma_merge_seqs_multiset(a, b.drop_first());
        let rest = merge_seqs(a, b.drop_first());
        let m = seq![b[0]] + rest;
        assert forall|k: int| 0 <= k < rest.len() implies b[0] <= rest[k] by {
            assert(rest.contains(rest[k]));
            assert(rest.to_multiset().count(rest[k]) > 0);
            if a.to_multiset().count(rest[k]) > 0 {
                assert(a.contains(rest[k]));
                let i = choose|i: int| 0 <= i < a.len() && a[i] == rest[k];
                assert(a[0] <= a[i]);
            } else {
                assert(b.drop_first().to_multiset().count(rest[k]) > 0);
                assert(b.drop_first().contains(rest[k]));
                let i = choose|i: int| 0 <= i < b.drop_first().len()
                    && b.drop_first()[i] == rest[k];
                assert(b[i + 1] == rest[k]);
            }
        }
        assert forall|i: int, j: int| 0 <= i <= j < m.len() implies m[i] <= m[j] by {
            if 0 < i {
                assert(m[i] == rest[i - 1] && m[j] == rest[j - 1]);
            } else if 0 < j {
                assert(m[j] == rest[j - 1]);
            }
        }
    }
}

/// Sequential merge sort returns a sorted permutation of its input: the
/// result is sorted non-decreasing and holds exactly the input's elements.
pub proof fn lemma_sort_seq_correct(s: Seq<usize>)
    ensures
        is_sorted(sort_seq(s)),
        sort_seq(s).to_multiset() == s.to_multiset(),
        sort_seq(s).len() == s.len(),
    decreases s.len(),
{
    broadcast use vstd::seq_lib::group_to_multiset_ensures;
    broadcast use vstd::multiset::group_multiset_axioms;

    if s.len() <= 1 {
    } else {
        let mid = s.len() as int / 2;
        let left = s.take(mid);
        let right = s.skip(mid);
        lemma_sort_seq_correct(left);
        lemma_sort_seq_correct(right);
        lemma_merge_seqs_sorted(sort_seq(left), sort_seq(right));
        lemma_merge_seqs_multiset(sort_seq(left), sort_seq(right));
        lemma_merge_seqs_len(sort_seq(left), sort_seq(right));
        assert(s =~= left + right);
        vstd::seq_lib::lemma_multiset_commutative(left, right);
        assert(sort_seq(s).to_multiset() =~= s.to_multiset());
    }
}

/// Two sorted sequences with the same elements are the same sequence.
pub proof fn lemma_sorted_multiset_unique(a: Seq<usize>, b: Seq<usize>)
    requires
        is_sorted(a),
        is_sorted(b),
        a.to_multiset() == b.to_multiset(),
    ensures
        a == b,
{
    let leq = |x: usize, y: usize| x <= y;
    assert(vstd::relations::sorted_by(a, leq));
    assert(vstd::relations::sorted_by(b, leq));
    assert(vstd::relations::total_ordering(leq));
    vstd::seq_lib::lemma_sorted_unique(a, b, leq);
    assert(a =~= b);
}

/// Sorting is idempotent: an already-sorted sequence is returned unchanged.
pub proof fn lemma_sort_seq_idempotent(s: Seq<usize>)
    requires
        is_sorted(s),
    ensures
        sort_seq(s) == s,
{
    lemma_sort_seq_correct(s);
    lemma_sorted_multiset_unique(sort_seq(s), s);
}

/// Combine two sequences, each already sorted in non-decreasing order, into
/// one sorted sequence holding all elements of both, stable with respect to
/// left-before-right on equal keys.
pub fn merge(left: Vec<usize>, right: Vec<usize>) -> (merged: Vec<usize>)
    ensures
        merged@ == merge_seqs(left@, right@),
        merged@.len() == left@.len() + right@.len(),
        merged@.to_multiset() == left@.to_multiset().add(right@.to_multiset()),
        is_sorted(left@) && is_sorted(right@) ==> is_sorted(merged@),
{
    let mut merged: Vec<usize> = Vec::new();
    let mut i: usize = 0;
    let mut j: usize = 0;

    proof {
        assert(left@.skip(0) =~= left@);
        assert(right@.skip(0) =~= right@);
    }

    while i < left.len() && j < right.len()
        invariant
            i <= left@.len(),
            j <= right@.len(),
            merge_seqs(left@, right@) == merged@ + merge_seqs(
                left@.skip(i as int),
                right@.skip(j as int),
            ),
        decreases left@.len() - i + right@.len() - j,
    {
        let ghost la = left@.skip(i as int);
        let ghost rb = right@.skip(j as int);
        if left[i] <= right[j] {
            proof {
                assert(la.drop_first() =~= left@.skip(i + 1));
                assert((merged@ + (seq![la[0]] + merge_seqs(la.drop_first(), rb)))
                    =~= (merged@.push(left@[i as int]) + merge_seqs(
                    left@.skip(i + 1),
                    rb,
                )));
            }
            merged.push(left[i]);
            i = i + 1;
        } else {
            proof {
                assert(rb.drop_first() =~= right@.skip(j + 1));
                assert((merged@ + (seq![rb[0]] + merge_seqs(la, rb.drop_first())))
                    =~= (merged@.push(right@[j as int]) + merge_seqs(
                    la,
                    right@.skip(j + 1),
                )));
            }
            merged.push(right[j]);
            j = j + 1;
        }
    }

    proof {
        lemma_merge_seqs_empty(left@.skip(i as int), right@.skip(j as int));
        if i == left@.len() {
            assert(left@.skip(i as int) =~= Seq::<usize>::empty());
        } else {
            assert(right@.skip(j as int) =~= Seq::<usize>::empty());
        }
        assert(merge_seqs(left@, right@) == merged@ + (left@.skip(i as int) + right@.skip(
            j as int,
        )));
    }

    while i < left.len()
        invariant
            i <= left@.len(),
            j <= right@.len(),
            i == left@.len() || j == right@.len(),
            merge_seqs(left@, right@) == merged@ + (left@.skip(i as int) + right@.skip(j as int)),
        decreases left@.len() - i,
    {
        proof {
            assert((merged@ + (left@.skip(i as int) + right@.skip(j as int)))
                =~= (merged@.push(left@[i as int]) + (left@.skip(i + 1) + right@.skip(j as int))));
        }
        merged.push(left[i]);
        i = i + 1;
    }

    while j < right.len()
        invariant
            i == left@.len(),
            j <= right@.len(),
            merge_seqs(left@, right@) == merged@ + (left@.skip(i as int) + right@.skip(j as int)),
        decreases right@.len() - j,
    {
        proof {
            assert((merged@ + (left@.skip(i as int) + right@.skip(j as int)))
                =~= (merged@.push(right@[j as int]) + (left@.skip(i as int) + right@.skip(
                j + 1,
            ))));
        }
        merged.push(right[j]);
        j = j + 1;
    }

    proof {
        assert(left@.skip(i as int) + right@.skip(j as int) =~= Seq::<usize>::empty());
        assert(merged@ =~= merged@ + Seq::<usize>::empty());
        lemma_merge_seqs_len(left@, right@);
        lemma_merge_seqs_multiset(left@, right@);
        if is_sorted(left@) && is_sorted(right@) {
            lemma_merge_seqs_sorted(left@, right@);
        }
    }

    merged
}

/// Copy the elements of `v` at positions `from..to` into a new vector.
pub fn copy_range(v: &Vec<usize>, from: usize, to: usize) -> (r: Vec<usize>)
    requires
        from <= to <= v@.len(),
    ensures
        r@ == v@.subrange(from as int, to as int),
{
    let mut r: Vec<usize> = Vec::new();
    let mut k: usize = from;
    proof {
        assert(r@ =~= v@.subrange(from as int, from as int));
    }
    while k < to
        invariant
            from <= k <= to <= v@.len(),
            r@ == v@.subrange(from as int, k as int),
        decreases to - k,
    {
        proof {
            assert(v@.subrange(from as int, k + 1) =~= v@.subrange(from as int, k as int).push(
                v@[k as int],
            ));
        }
        r.push(v[k]);
        k = k + 1;
    }
    r
}

/// Sort a non-empty sequence by recursive merge sort: split at the midpoint
/// (`floor(n / 2)`), sort each half, merge the sorted halves. Returns the
/// same elements in non-decreasing order; a sequence of length one is
/// returned unchanged.
pub fn merge_sort(array: Vec<usize>) -> (sorted: Vec<usize>)
    requires
        array@.len() >= 1,
    ensures
        sorted@ == sort_seq(array@),
    decreases array@.len(),
{
    if array.len() == 1 {
        return array;
    }
    let mid = array.len() / 2;
    let left = merge_sort(copy_range(&array, 0, mid));
    let right = merge_sort(copy_range(&array, mid, array.len()));
    proof {
        assert(array@.subrange(0, mid as int) =~= array@.take(mid as int));
        assert(array@.subrange(mid as int, array@.len() as int) =~= array@.skip(mid as int));
    }
    merge(left, right)
}

/// Sort one job: the task each worker runs. An empty job is already sorted
/// and is returned unchanged.
pub fn sort_chunk(chunk: Vec<usize>) -> (sorted: Vec<usize>)
    ensures
        sorted@ == sort_seq(chunk@),
{
    if chunk.len() == 0 {
        chunk
    } else {
        merge_sort(chunk)
    }
}

} // verus!
