//! What holds of the picture that a replay gives.

use vstd::prelude::*;
use vstd::seq_lib::to_multiset_remove;
use crate::history::{HistoryView, Stroke, in_order, reach};
use crate::history_laws::law_reach;
use crate::replay::{collected, ordered, placed, picture_of};

verus! {

/// A stroke that is put in its place among strokes in order leaves them in
/// order, and is the only stroke that came to them.
pub proof fn law_placed(sorted: Seq<Stroke>, stroke: Stroke)
    requires
        in_order(sorted),
    ensures
        in_order(placed(sorted, stroke)),
        placed(sorted, stroke).to_multiset() == sorted.to_multiset().insert(stroke),
        placed(sorted, stroke).len() == sorted.len() + 1,
{
    let n = reach(sorted, stroke.ts) as int;
    let after = placed(sorted, stroke);
    law_reach(sorted, stroke.ts);
    assert forall|i: int, j: int| 0 <= i <= j < after.len() implies (#[trigger] after[i]).ts.spec_le(
        (#[trigger] after[j]).ts,
    ) by {
        if i < n && j == n {
            assert(after[i] == sorted[i]);
        } else if i == n && j > n {
            assert(after[j] == sorted[j - 1]);
            assert(sorted[n].ts.spec_le(sorted[j - 1].ts));
        } else if i < n && j > n {
            assert(after[i] == sorted[i]);
            assert(after[j] == sorted[j - 1]);
        } else if i < n && j < n {
            assert(after[i] == sorted[i]);
            assert(after[j] == sorted[j]);
        } else if i > n {
            assert(after[i] == sorted[i - 1]);
            assert(after[j] == sorted[j - 1]);
        }
    }
    assert(after.remove(n) =~= sorted);
    to_multiset_remove(after, n);
    assert(after[n] == stroke);
    after.to_multiset_ensures();
    assert(after.contains(stroke));
    assert(after.to_multiset() =~= sorted.to_multiset().insert(stroke));
}

/// The strokes of a picture are in the order of their times, and they are
/// the strokes that were collected, each as often as it was collected.
pub proof fn law_ordered(items: Seq<Stroke>)
    ensures
        in_order(ordered(items)),
        ordered(items).to_multiset() == items.to_multiset(),
        ordered(items).len() == items.len(),
    decreases items.len(),
{
    if items.len() == 0 {
        assert(items =~= Seq::<Stroke>::empty());
    } else {
        let front = items.drop_last();
        law_ordered(front);
        law_placed(ordered(front), items.last());
        front.to_multiset_ensures();
        assert(front.push(items.last()) =~= items);
    }
}

/// A replay shows, in the order of their times, the strokes that the
/// histories show, and no other.
pub proof fn law_replay(histories: Seq<HistoryView>)
    ensures
        in_order(picture_of(histories)),
        picture_of(histories).to_multiset() == collected(histories).to_multiset(),
{
    law_ordered(collected(histories));
}

/// A stroke that is not before any of those collected so far comes last in
/// the picture: strokes of one time stay in the order in which they were
/// collected.
pub proof fn law_ties_keep_order(items: Seq<Stroke>, stroke: Stroke)
    requires
        forall|i: int| 0 <= i < items.len() ==> (#[trigger] items[i]).ts.spec_le(stroke.ts),
    ensures
        ordered(items.push(stroke)) == ordered(items).push(stroke),
{
    let sorted = ordered(items);
    law_ordered(items);
    law_reach(sorted, stroke.ts);
    let n = reach(sorted, stroke.ts);
    if n < sorted.len() {
        let late = sorted[n as int];
        sorted.to_multiset_ensures();
        items.to_multiset_ensures();
        assert(sorted.contains(late));
        assert(sorted.to_multiset().count(late) > 0);
        assert(items.to_multiset().count(late) > 0);
        assert(items.contains(late));
        let k = choose|k: int| 0 <= k < items.len() && items[k] == late;
        assert(items[k].ts.spec_le(stroke.ts));
    }
    assert(items.push(stroke).drop_last() =~= items);
    assert(sorted.insert(n as int, stroke) =~= sorted.push(stroke));
}

} // verus!
