use vstd::prelude::*;
use rand::Rng;
use crate::random::random_below;

verus! {

/// `items` with the entries at `a` and `b` exchanged.
pub open spec fn exchanged<T>(items: Seq<T>, a: int, b: int) -> Seq<T> {
    items.update(a, items[b]).update(b, items[a])
}

/// The outcome of the shuffling pass when its random picks are `picks`: step
/// `k` (counted from zero) exchanges the entry at `k + 1` with the one at
/// `picks[k]`.
pub open spec fn shuffled_by<T>(items: Seq<T>, picks: Seq<usize>) -> Seq<T>
    decreases picks.len(),
{
    if picks.len() == 0 {
        items
    } else {
        exchanged(shuffled_by(items, picks.drop_last()), picks.len() as int, picks.last() as int)
    }
}

/// The picks that a pass over `len` items can draw: one for each index from 1
/// to `len - 2`, none of them beyond its index.
pub open spec fn picks_fit(len: nat, picks: Seq<usize>) -> bool {
    &&& picks.len() == if len >= 2 {
        len - 2
    } else {
        0
    }
    &&& forall|k: int| 0 <= k < picks.len() ==> #[trigger] picks[k] <= k + 1
}

/// Whatever the picks, the pass rearranges the items without adding or
/// losing one, and leaves the last item where it was.
pub proof fn lemma_shuffled_by_rearranges<T>(items: Seq<T>, picks: Seq<usize>)
    requires
        picks.len() == 0 || picks.len() + 2 <= items.len(),
        forall|k: int| 0 <= k < picks.len() ==> #[trigger] picks[k] <= k + 1,
    ensures
        shuffled_by(items, picks).len() == items.len(),
        shuffled_by(items, picks).to_multiset() == items.to_multiset(),
        items.len() > 0 ==> shuffled_by(items, picks).last() == items.last(),
    decreases picks.len(),
{
    if picks.len() > 0 {
        let earlier = picks.drop_last();
        assert forall|k: int| 0 <= k < earlier.len() implies #[trigger] earlier[k] <= k + 1 by {
            assert(earlier[k] == picks[k]);
        }
        lemma_shuffled_by_rearranges(items, earlier);
        let before = shuffled_by(items, earlier);
        let a = picks.len() as int;
        let b = picks.last() as int;
        assert(picks[picks.len() - 1] <= picks.len());
        lemma_exchanged_rearranges(before, a, b);
    }
}

/// Exchanging two entries keeps the multiset of entries.
pub proof fn lemma_exchanged_rearranges<T>(items: Seq<T>, a: int, b: int)
    requires
        0 <= a < items.len(),
        0 <= b < items.len(),
    ensures
        exchanged(items, a, b).len() == items.len(),
        exchanged(items, a, b).to_multiset() == items.to_multiset(),
{
    broadcast use vstd::seq_lib::group_to_multiset_ensures;

    let middle = items.update(a, items[b]);
    assert(middle.to_multiset() == items.to_multiset().insert(items[b]).remove(items[a]));
    assert(exchanged(items, a, b).to_multiset() == middle.to_multiset().insert(items[a]).remove(
        middle[b],
    ));
    assert(items.to_multiset().count(items[a]) > 0);
    assert(items.to_multiset().count(items[b]) > 0);
    assert(exchanged(items, a, b).to_multiset() =~= items.to_multiset());
}

/// Draws the picks of one shuffling pass over `len` items: for each index
/// `i` from 1 to `len - 2`, in that order, a random index in `0..=i`.
pub fn draw_picks<R: Rng>(rng: &mut R, len: usize) -> (picks: Vec<usize>)
    ensures
        picks_fit(len as nat, picks@),
{
    let mut picks: Vec<usize> = Vec::new();
    if len < 2 {
        return picks;
    }
    let mut i: usize = 1;
    while i < len - 1
        invariant
            1 <= i <= len - 1,
            picks@.len() == i - 1,
            forall|k: int| 0 <= k < picks@.len() ==> #[trigger] picks@[k] <= k + 1,
        decreases len - i,
    {
        let pick: usize = random_below(rng, i + 1);
        picks.push(pick);
        i += 1;
    }
    picks
}

/// Carries out a shuffling pass with the given picks.
pub fn apply_picks<T: Copy>(items: Vec<T>, picks: &Vec<usize>) -> (result: Vec<T>)
    requires
        picks_fit(items@.len(), picks@),
    ensures
        result@ == shuffled_by(items@, picks@),
{
    let ghost given = items@;
    let mut items = items;
    let mut k: usize = 0;
    while k < picks.len()
        invariant
            k <= picks.len(),
            picks_fit(given.len(), picks@),
            items@ == shuffled_by(given, picks@.take(k as int)),
            items@.len() == given.len(),
        decreases picks.len() - k,
    {
        let i: usize = k + 1;
        let j: usize = picks[k];
        let at_i: T = items[i];
        let at_j: T = items[j];
        items.set(i, at_j);
        items.set(j, at_i);
        k += 1;
        proof {
            assert(picks@.take(k as int).drop_last() =~= picks@.take(k - 1));
            assert(picks@.take(k as int).last() == j);
        }
    }
    assert(picks@.take(k as int) =~= picks@);
    items
}

/// Rearranges `items` at random: for each index `i` from 1 to `len - 2` the
/// item at `i` changes places with the item at a random index in `0..=i`.
/// The pass stops one index short of the end: the last item is never moved,
/// so the orders that come out are not all equally likely.
pub fn shuffle<R: Rng, T: Copy>(rng: &mut R, items: Vec<T>) -> (result: Vec<T>)
    ensures
        exists|picks: Seq<usize>|
            picks_fit(items@.len(), picks) && result@ == #[trigger] shuffled_by(items@, picks),
        result@.len() == items@.len(),
        result@.to_multiset() == items@.to_multiset(),
        items@.len() > 0 ==> result@.last() == items@.last(),
{
    let picks = draw_picks(rng, items.len());
    proof {
        lemma_shuffled_by_rearranges(items@, picks@);
    }
    apply_picks(items, &picks)
}

} // verus!
