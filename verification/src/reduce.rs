//! The reduction tree: pairwise merging of the sorted partial results until
//! one fully sorted sequence remains.

use vstd::prelude::*;

verus! {

use vstd::multiset::Multiset;
use crate::parallel::spec_is_pow2;
use crate::sorting::copy_range;
use crate::sorting::is_sorted;
use crate::sorting::merge;

/// The views of a sequence of vectors.
pub open spec fn seq_views(s: Seq<Vec<usize>>) -> Seq<Seq<usize>> {
    s.map_values(|v: Vec<usize>| v@)
}

/// All elements held by a sequence of sequences, gathered into one multiset.
pub open spec fn elems_of(ss: Seq<Seq<usize>>) -> Multiset<usize>
    decreases ss.len(),
{
    if ss.len() == 0 {
        Multiset::empty()
    } else {
        elems_of(ss.drop_last()).add(ss.last().to_multiset())
    }
}

/// Appending one sequence adds exactly its elements.
pub proof fn lemma_elems_of_push(ss: Seq<Seq<usize>>, x: Seq<usize>)
    ensures
        elems_of(ss.push(x)) == elems_of(ss).add(x.to_multiset()),
{
    assert(ss.push(x).drop_last() =~= ss);
    assert(ss.push(x).last() == x);
}

/// The elements of a concatenation are the elements of both parts.
pub proof fn lemma_elems_of_append(a: Seq<Seq<usize>>, b: Seq<Seq<usize>>)
    ensures
        elems_of(a + b) == elems_of(a).add(elems_of(b)),
    decreases b.len(),
{
    broadcast use vstd::multiset::group_multiset_axioms;

    if b.len() == 0 {
        assert(a + b =~= a);
        assert(elems_of(a + b) =~= elems_of(a).add(elems_of(b)));
    } else {
        assert((a + b).drop_last() =~= a + b.drop_last());
        assert((a + b).last() == b.last());
        lemma_elems_of_append(a, b.drop_last());
        assert(elems_of(a + b) =~= elems_of(a).add(elems_of(b)));
    }
}

/// A single sequence holds exactly its own elements.
pub proof fn lemma_elems_of_singleton(x: Seq<usize>)
    ensures
        elems_of(seq![x]) == x.to_multiset(),
{
    broadcast use vstd::multiset::group_multiset_axioms;

    assert(seq![x].len() == 1);
    assert(seq![x].last() == x);
    assert(seq![x].drop_last() =~= Seq::<Seq<usize>>::empty());
    assert(elems_of(Seq::<Seq<usize>>::empty()) == Multiset::<usize>::empty());
    assert(elems_of(seq![x]) == elems_of(seq![x].drop_last()).add(seq![x].last().to_multiset()));
    assert(elems_of(seq![x]) =~= x.to_multiset());
}

/// Taking one sequence out removes exactly its elements.
pub proof fn lemma_elems_of_remove(ss: Seq<Seq<usize>>, k: int)
    requires
        0 <= k < ss.len(),
    ensures
        elems_of(ss) == elems_of(ss.remove(k)).add(ss[k].to_multiset()),
{
    broadcast use vstd::multiset::group_multiset_axioms;

    assert(ss =~= (ss.take(k) + seq![ss[k]]) + ss.skip(k + 1));
    assert(ss.remove(k) =~= ss.take(k) + ss.skip(k + 1));
    lemma_elems_of_append(ss.take(k) + seq![ss[k]], ss.skip(k + 1));
    lemma_elems_of_append(ss.take(k), seq![ss[k]]);
    lemma_elems_of_append(ss.take(k), ss.skip(k + 1));
    lemma_elems_of_singleton(ss[k]);
    assert(elems_of(ss) =~= elems_of(ss.remove(k)).add(ss[k].to_multiset()));
}

/// Reordering the sequences does not change which elements they hold.
pub proof fn lemma_elems_of_permutation(a: Seq<Seq<usize>>, b: Seq<Seq<usize>>)
    requires
        a.to_multiset() == b.to_multiset(),
    ensures
        elems_of(a) == elems_of(b),
    decreases a.len(),
{
    broadcast use vstd::seq_lib::group_to_multiset_ensures;
    broadcast use vstd::multiset::group_multiset_axioms;

    if a.len() == 0 {
        assert(b.to_multiset().len() == 0);
        assert(b.len() == 0);
    } else {
        let x = a.last();
        assert(a.contains(x));
        assert(a.to_multiset().count(x) > 0);
        assert(b.contains(x));
        let k = choose|k: int| 0 <= k < b.len() && b[k] == x;
        assert(a.drop_last() =~= a.remove(a.len() - 1));
        assert(a.remove(a.len() - 1).to_multiset() == a.to_multiset().remove(x));
        assert(b.remove(k).to_multiset() == b.to_multiset().remove(x));
        lemma_elems_of_permutation(a.drop_last(), b.remove(k));
        lemma_elems_of_remove(b, k);
    }
}

/// Replacing each sequence by one with the same elements leaves the whole
/// unchanged.
pub proof fn lemma_elems_of_pointwise(a: Seq<Seq<usize>>, b: Seq<Seq<usize>>)
    requires
        a.len() == b.len(),
        forall|i: int|
            0 <= i < a.len() ==> (#[trigger] a[i]).to_multiset() == b[i].to_multiset(),
    ensures
        elems_of(a) == elems_of(b),
    decreases a.len(),
{
    broadcast use vstd::multiset::group_multiset_axioms;

    if a.len() > 0 {
        lemma_elems_of_pointwise(a.drop_last(), b.drop_last());
        assert(a.last() == a[a.len() - 1]);
        assert(elems_of(a) =~= elems_of(b));
    }
}

/// The reduction tree. Given sorted partial results whose count is a power
/// of two, repeatedly pair result `i` with result `count - 1 - i` (mirror
/// pairing), merge each pair, and halve the count, until exactly one result
/// remains: one sorted sequence holding every element of every input run.
pub fn reduce_sorted_runs(runs: Vec<Vec<usize>>) -> (out: Vec<usize>)
    requires
        runs@.len() >= 1,
        spec_is_pow2(runs@.len()),
        forall|i: int| 0 <= i < runs@.len() ==> is_sorted((#[trigger] runs@[i])@),
    ensures
        is_sorted(out@),
        out@.to_multiset() == elems_of(seq_views(runs@)),
{
    let ghost total = elems_of(seq_views(runs@));
    let mut bufs = runs;
    while bufs.len() > 1
        invariant
            bufs@.len() >= 1,
            spec_is_pow2(bufs@.len()),
            forall|i: int| 0 <= i < bufs@.len() ==> is_sorted((#[trigger] bufs@[i])@),
            elems_of(seq_views(bufs@)) == total,
        decreases bufs@.len(),
    {
        let count = bufs.len();
        let half = count / 2;
        proof {
            assert(count % 2 == 0 && spec_is_pow2((count / 2) as nat));
        }
        let mut aux: Vec<Vec<usize>> = Vec::new();
        let ghost gv = seq_views(bufs@);
        proof {
            assert(seq_views(aux@) =~= Seq::<Seq<usize>>::empty());
            assert(gv.take(0) =~= Seq::<Seq<usize>>::empty());
            assert(gv.skip(count as int) =~= Seq::<Seq<usize>>::empty());
            assert(elems_of(seq_views(aux@)) =~= elems_of(gv.take(0)).add(
                elems_of(gv.skip(count as int)),
            ));
        }
        let mut i: usize = 0;
        while i < half
            invariant
                i <= half,
                half == count / 2,
                count % 2 == 0,
                2 <= count,
                bufs@.len() == count,
                gv == seq_views(bufs@),
                forall|t: int| 0 <= t < bufs@.len() ==> is_sorted((#[trigger] bufs@[t])@),
                aux@.len() == i,
                forall|t: int| 0 <= t < i ==> is_sorted((#[trigger] aux@[t])@),
                elems_of(seq_views(aux@)) == elems_of(gv.take(i as int)).add(
                    elems_of(gv.skip(count - i)),
                ),
            decreases half - i,
        {
            let left = copy_range(&bufs[i], 0, bufs[i].len());
            let back = count - 1 - i;
            let right = copy_range(&bufs[back], 0, bufs[back].len());
            proof {
                assert(left@ =~= gv[i as int]);
                assert(right@ =~= gv[back as int]);
            }
            let m = merge(left, right);
            let ghost prev = seq_views(aux@);
            aux.push(m);
            proof {
                assert(seq_views(aux@) =~= prev.push(m@));
                lemma_elems_of_push(prev, m@);
                assert(gv.take(i + 1) =~= gv.take(i as int).push(gv[i as int]));
                lemma_elems_of_push(gv.take(i as int), gv[i as int]);
                assert(gv.skip(count - i - 1) =~= seq![gv[back as int]] + gv.skip(count - i));
                lemma_elems_of_append(seq![gv[back as int]], gv.skip(count - i));
                lemma_elems_of_singleton(gv[back as int]);
                broadcast use vstd::multiset::group_multiset_axioms;

                assert(elems_of(seq_views(aux@)) =~= elems_of(gv.take(i + 1)).add(
                    elems_of(gv.skip(count - i - 1)),
                ));
            }
            i = i + 1;
        }
        proof {
            assert(gv.take(half as int) + gv.skip(half as int) =~= gv);
            assert(count - half == half);
            lemma_elems_of_append(gv.take(half as int), gv.skip(half as int));
            assert(elems_of(seq_views(aux@)) == total);
        }
        bufs = aux;
    }
    let ghost gfinal = seq_views(bufs@);
    let out = match bufs.pop() {
        Some(v) => v,
        None => Vec::new(),
    };
    proof {
        assert(gfinal =~= seq![out@]);
        lemma_elems_of_singleton(out@);
    }
    out
}

} // verus!
