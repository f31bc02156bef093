//! The places of what is wanted in a list.

use vstd::prelude::*;

verus! {

/// The places where `hits` is true, in order.
pub open spec fn places(hits: Seq<bool>) -> Seq<usize>
    decreases hits.len(),
{
    if hits.len() == 0 {
        Seq::empty()
    } else if hits.last() {
        places(hits.drop_last()).push((hits.len() - 1) as usize)
    } else {
        places(hits.drop_last())
    }
}

/// The places of a beginning are the beginning of the places.
pub proof fn lemma_places_prefix(h: Seq<bool>, k: int)
    requires
        0 <= k <= h.len(),
    ensures
        places(h.take(k)).len() <= places(h).len(),
        places(h).take(places(h.take(k)).len() as int) == places(h.take(k)),
    decreases h.len(),
{
    let p = places(h.take(k));
    if k == h.len() {
        assert(h.take(k) =~= h);
        assert(p.take(p.len() as int) =~= p);
    } else {
        lemma_places_prefix(h.drop_last(), k);
        assert(h.drop_last().take(k) =~= h.take(k));
        assert(places(h).take(p.len() as int) =~= places(h.drop_last()).take(p.len() as int));
    }
}

/// The places are those of the hits, all of them, from the first to the last.
pub proof fn law_places(h: Seq<bool>)
    requires
        h.len() <= usize::MAX,
    ensures
        forall|i: int| 0 <= i < places(h).len() ==> (#[trigger] places(h)[i]) < h.len() && h[places(
            h,
        )[i] as int],
        forall|i: int, j: int|
            0 <= i < j < places(h).len() ==> #[trigger] places(h)[i] < #[trigger] places(h)[j],
        forall|k: int| 0 <= k < h.len() && h[k] ==> places(h).contains(k as usize),
    decreases h.len(),
{
    if h.len() > 0 {
        let front = h.drop_last();
        law_places(front);
        let p = places(front);
        let q = places(h);
        assert forall|k: int| 0 <= k < h.len() && h[k] implies q.contains(k as usize) by {
            if k < front.len() {
                assert(front[k]);
                let i = choose|i: int| 0 <= i < p.len() && p[i] == k as usize;
                assert(q[i] == k as usize);
            } else {
                assert(q[q.len() - 1] == k as usize);
            }
        }
    }
}

/// The places where `hits` is true, in order.
pub fn list_places(hits: &Vec<bool>) -> (r: Vec<usize>)
    ensures
        r@ == places(hits@),
{
    let mut r: Vec<usize> = Vec::new();
    let mut i: usize = 0;
    assert(hits@.take(0).len() == 0);
    while i < hits.len()
        invariant
            i <= hits@.len(),
            r@ == places(hits@.take(i as int)),
        decreases hits@.len() - i,
    {
        assert(hits@.take(i + 1).drop_last() =~= hits@.take(i as int));
        assert(hits@.take(i + 1).last() == hits@[i as int]);
        if hits[i] {
            r.push(i);
        }
        i = i + 1;
    }
    assert(hits@.take(i as int) =~= hits@);
    r
}

} // verus!
