//! What holds of a history whatever was done to it.

use vstd::prelude::*;
use crate::history::{HistoryView, Stroke, Timestamp, in_order, reach};

verus! {

/// One thing that can be done to a history.
pub enum Step {
    Add(Stroke),
    Undo,
    Redo,
    Clear,
}

/// The history after one step.
pub open spec fn step(history: HistoryView, s: Step) -> HistoryView {
    match s {
        Step::Add(stroke) => history.added(stroke),
        Step::Undo => history.undone(),
        Step::Redo => history.redone(),
        Step::Clear => HistoryView::empty(),
    }
}

/// The history after the steps, taken in turn.
pub open spec fn run(history: HistoryView, steps: Seq<Step>) -> HistoryView
    decreases steps.len(),
{
    if steps.len() == 0 {
        history
    } else {
        step(run(history, steps.drop_last()), steps.last())
    }
}

/// Whether each stroke is later than the one before it.
pub open spec fn rising(strokes: Seq<Stroke>) -> bool {
    forall|i: int, j: int|
        0 <= i < j < strokes.len() ==> (#[trigger] strokes[i]).ts.nanos < (
        #[trigger] strokes[j]).ts.nanos
}

/// Whatever is done to a history that starts with no stroke, its cursor
/// stands within its chain.
pub proof fn law_cursor_within_chain(steps: Seq<Step>)
    ensures
        run(HistoryView::empty(), steps).wf(),
    decreases steps.len(),
{
    if steps.len() > 0 {
        law_cursor_within_chain(steps.drop_last());
    }
}

/// A new stroke follows the strokes in effect and nothing follows it: the
/// strokes that were undone are gone, the cursor stands on the new stroke,
/// and an undo leads back to the strokes that were in effect.
pub proof fn law_add_overwrites(history: HistoryView, stroke: Stroke)
    requires
        history.wf(),
    ensures
        history.added(stroke).wf(),
        history.added(stroke).strokes.len() == history.cursor + 1,
        history.added(stroke).strokes.last() == stroke,
        history.added(stroke).strokes.drop_last() == history.done(),
        history.added(stroke).done() == history.added(stroke).strokes,
        !history.added(stroke).can_redo(),
        history.added(stroke).last_timestamp() == stroke.ts,
        history.added(stroke).undone().done() == history.done(),
{
    let after = history.added(stroke);
    assert(after.strokes.drop_last() =~= history.done());
    assert(after.done() =~= after.strokes);
    assert(after.undone().done() =~= history.done());
}

/// An undo that moved is taken back by a redo, and a redo that moved by an
/// undo.
pub proof fn law_undo_and_redo_are_inverse(history: HistoryView)
    requires
        history.wf(),
    ensures
        history.can_undo() ==> history.undone().redone() == history,
        history.can_redo() ==> history.redone().undone() == history,
        !history.can_undo() ==> history.undone() == history,
        !history.can_redo() ==> history.redone() == history,
        history.undone().wf(),
        history.redone().wf(),
        history.undone().strokes == history.strokes,
        history.redone().strokes == history.strokes,
{
}

/// The time of a history is that of the last stroke in effect, and the
/// epoch where no stroke is in effect: in a history with no stroke, and
/// after every stroke was undone.
pub proof fn law_last_timestamp(history: HistoryView)
    requires
        history.wf(),
    ensures
        history.done().len() > 0 ==> history.last_timestamp() == history.done().last().ts,
        history.done().len() == 0 ==> history.last_timestamp() == Timestamp::spec_epoch(),
        HistoryView::empty().last_timestamp() == Timestamp::spec_epoch(),
{
}

/// A cleared history has no stroke: nothing to undo, nothing to redo,
/// nothing to show.
pub proof fn law_cleared_is_empty()
    ensures
        HistoryView::empty().wf(),
        HistoryView::empty().strokes.len() == 0,
        !HistoryView::empty().can_undo(),
        !HistoryView::empty().can_redo(),
        HistoryView::empty().shown().len() == 0,
{
}

/// `reach` counts a prefix: it is no more than the length, every stroke
/// before it is not after the limit, and the stroke at it, if there is one,
/// is.
pub proof fn law_reach(strokes: Seq<Stroke>, limit: Timestamp)
    ensures
        reach(strokes, limit) <= strokes.len(),
        forall|i: int| 0 <= i < reach(strokes, limit) ==> (#[trigger] strokes[i]).ts.spec_le(limit),
        reach(strokes, limit) < strokes.len() ==> !strokes[reach(strokes, limit) as int].ts.spec_le(
            limit,
        ),
    decreases strokes.len(),
{
    if strokes.len() > 0 && strokes[0].ts.spec_le(limit) {
        let rest = strokes.skip(1);
        law_reach(rest, limit);
        assert forall|i: int| 0 <= i < reach(strokes, limit) implies (#[trigger] strokes[i]).ts.spec_le(
            limit,
        ) by {
            if i > 0 {
                assert(strokes[i] == rest[i - 1]);
            }
        }
        if reach(strokes, limit) < strokes.len() {
            assert(strokes[reach(strokes, limit) as int] == rest[reach(rest, limit) as int]);
        }
    }
}

/// What a history shows is a run of strokes from its head, none of them
/// after the history's time.
pub proof fn law_shown_is_bounded(history: HistoryView)
    ensures
        history.shown().len() <= history.strokes.len(),
        history.shown() == history.strokes.take(history.shown().len() as int),
        forall|i: int|
            0 <= i < history.shown().len() ==> (#[trigger] history.shown()[i]).ts.spec_le(
                history.last_timestamp(),
            ),
{
    law_reach(history.strokes, history.last_timestamp());
}

/// Where no stroke of a chain is earlier than the one before it, the
/// history shows every stroke in effect.
pub proof fn law_shown_covers_done(history: HistoryView)
    requires
        history.wf(),
        in_order(history.strokes),
    ensures
        history.cursor <= history.shown().len(),
        history.done() == history.shown().take(history.cursor as int),
{
    let limit = history.last_timestamp();
    law_reach(history.strokes, limit);
    let n = reach(history.strokes, limit);
    if n < history.cursor {
        assert(history.strokes[n as int].ts.spec_le(history.strokes[history.cursor - 1].ts));
    }
    assert(history.done() =~= history.shown().take(history.cursor as int));
}

/// Where each stroke of a chain is later than the one before it, and the
/// first is later than the epoch, the history shows the strokes in effect
/// and no other.
pub proof fn law_shown_is_done(history: HistoryView)
    requires
        history.wf(),
        rising(history.strokes),
        history.strokes.len() > 0 ==> history.strokes[0].ts.nanos > Timestamp::spec_epoch().nanos,
    ensures
        history.shown() == history.done(),
{
    let limit = history.last_timestamp();
    law_reach(history.strokes, limit);
    let n = reach(history.strokes, limit);
    if history.cursor == 0 {
        if n > 0 {
            assert(history.strokes[0].ts.spec_le(limit));
        }
    } else if n < history.cursor {
        if n < history.cursor - 1 {
            assert(history.strokes[n as int].ts.nanos < history.strokes[history.cursor - 1].ts.nanos);
        }
    }
    if history.cursor > 0 && n > history.cursor {
        assert(history.strokes[history.cursor - 1].ts.nanos < history.strokes[history.cursor as int].ts.nanos);
        assert(history.strokes[history.cursor as int].ts.spec_le(limit));
    }
    assert(history.shown() =~= history.done());
}

} // verus!
