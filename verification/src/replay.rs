//! One picture from the histories of all users: the strokes that each
//! history shows, in the order of their times.
//!
//! Strokes of equal time keep the order in which they were collected: the
//! order of the histories, and within a history the order of the chain.

use vstd::prelude::*;
use crate::history::{History, HistoryView, Line, Stroke, reach, strokes_of};

verus! {

/// `sorted` with `stroke` put behind every stroke from the front that is
/// not after it.
pub open spec fn placed(sorted: Seq<Stroke>, stroke: Stroke) -> Seq<Stroke> {
    sorted.insert(reach(sorted, stroke.ts) as int, stroke)
}

/// The strokes of `items`, each put in its place in turn.
pub open spec fn ordered(items: Seq<Stroke>) -> Seq<Stroke>
    decreases items.len(),
{
    if items.len() == 0 {
        Seq::empty()
    } else {
        placed(ordered(items.drop_last()), items.last())
    }
}

/// The strokes that the histories show, one history after the other.
pub open spec fn collected(histories: Seq<HistoryView>) -> Seq<Stroke>
    decreases histories.len(),
{
    if histories.len() == 0 {
        Seq::empty()
    } else {
        collected(histories.drop_last()) + histories.last().shown()
    }
}

/// The histories as values.
pub open spec fn views_of(histories: Seq<&History>) -> Seq<HistoryView> {
    Seq::new(histories.len(), |i: int| histories[i]@)
}

/// The picture that the histories give.
pub open spec fn picture_of(histories: Seq<HistoryView>) -> Seq<Stroke> {
    ordered(collected(histories))
}

/// Puts `line` into `lines` behind every line from the front that is not
/// after it.
fn place<'a>(lines: &mut Vec<&'a Line>, line: &'a Line)
    ensures
        strokes_of(final(lines)@) == placed(strokes_of(old(lines)@), line.stroke()),
{
    let ts = line.timestamp();
    let mut at: usize = 0;
    proof {
        assert(strokes_of(lines@).skip(0) =~= strokes_of(lines@));
    }
    while at < lines.len() && lines[at].timestamp().le(ts)
        invariant
            at <= lines@.len(),
            lines@ == old(lines)@,
            ts == line.stroke().ts,
            reach(strokes_of(lines@), ts) == at + reach(strokes_of(lines@).skip(at as int), ts),
        decreases lines@.len() - at,
    {
        proof {
            let rest = strokes_of(lines@).skip(at as int);
            assert(rest[0] == lines@[at as int].stroke());
            assert(rest.skip(1) =~= strokes_of(lines@).skip(at + 1));
        }
        at += 1;
    }
    proof {
        let rest = strokes_of(lines@).skip(at as int);
        if at < lines@.len() {
            assert(rest[0] == lines@[at as int].stroke());
        }
        assert(reach(rest, ts) == 0);
    }
    lines.insert(at, line);
    assert(strokes_of(lines@) =~= strokes_of(old(lines)@).insert(at as int, line.stroke()));
}

/// The strokes that the histories show, in the order of their times.
pub fn replay<'a>(histories: &Vec<&'a History>) -> (picture: Vec<&'a Line>)
    requires
        forall|i: int| 0 <= i < histories@.len() ==> (#[trigger] histories@[i]).wf(),
    ensures
        strokes_of(picture@) == picture_of(views_of(histories@)),
{
    let mut picture: Vec<&Line> = Vec::new();
    let ghost views = views_of(histories@);
    let mut h: usize = 0;
    proof {
        assert(views.take(0) =~= Seq::<HistoryView>::empty());
        assert(strokes_of(picture@) =~= Seq::<Stroke>::empty());
    }
    while h < histories.len()
        invariant
            h <= histories@.len(),
            views == views_of(histories@),
            forall|i: int| 0 <= i < histories@.len() ==> (#[trigger] histories@[i]).wf(),
            strokes_of(picture@) == ordered(collected(views.take(h as int))),
        decreases histories@.len() - h,
    {
        let lines = histories[h].shown();
        let ghost before = collected(views.take(h as int));
        let ghost shown = strokes_of(lines@);
        let mut i: usize = 0;
        proof {
            assert(shown.take(0) =~= Seq::<Stroke>::empty());
            assert(before + shown.take(0) =~= before);
        }
        while i < lines.len()
            invariant
                i <= lines@.len(),
                shown == strokes_of(lines@),
                strokes_of(picture@) == ordered(before + shown.take(i as int)),
            decreases lines@.len() - i,
        {
            place(&mut picture, lines[i]);
            proof {
                let grown = before + shown.take(i + 1);
                assert(grown.drop_last() =~= before + shown.take(i as int));
                assert(grown.last() == lines@[i as int].stroke());
            }
            i += 1;
        }
        proof {
            let upto = views.take(h + 1);
            assert(shown.take(lines@.len() as int) =~= shown);
            assert(upto.drop_last() =~= views.take(h as int));
            assert(upto.last() == histories@[h as int]@);
        }
        h += 1;
    }
    assert(views.take(histories@.len() as int) =~= views);
    picture
}

} // verus!
