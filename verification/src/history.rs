//! The strokes of one user: a chain that grows at a cursor and can be walked
//! back and forth.
//!
//! The chain is owned from its head; every stroke owns its successor. The
//! cursor says how many strokes, counted from the head, are in effect: it
//! stands on the last of them, or before the first stroke when it is zero.
//! Strokes behind the cursor are those that were undone; they are dropped
//! when a new stroke is added at the cursor.

use vstd::prelude::*;
use std::time::SystemTime;
use vstd::slice::slice_to_vec;
use crate::json::{stroke_json, stroke_text};

verus! {

/// A point in time, in nanoseconds from the Unix epoch.
#[derive(Clone, Copy, PartialEq, Eq, Structural, Debug)]
pub struct Timestamp {
    pub nanos: i128,
}

impl Timestamp {
    /// The epoch: the time of a history whose cursor is before the first
    /// stroke.
    pub open spec fn spec_epoch() -> Timestamp {
        Timestamp { nanos: 0 }
    }

    #[verifier::when_used_as_spec(spec_epoch)]
    pub fn epoch() -> (t: Timestamp)
        ensures
            t == Self::spec_epoch(),
    {
        Timestamp { nanos: 0 }
    }

    /// The time that a clock reading stands for. A reading is a distance
    /// from the epoch in nanoseconds: `Ok` of a time at or after the epoch,
    /// `Err` of a time before it. A distance beyond the range of the
    /// timestamp counts as the farthest time in that direction.
    pub open spec fn spec_from_reading(reading: Result<u128, u128>) -> Timestamp {
        match reading {
            Ok(after) => Timestamp {
                nanos: if after <= i128::MAX {
                    after as i128
                } else {
                    i128::MAX
                },
            },
            Err(before) => Timestamp {
                nanos: if before <= i128::MAX {
                    (-before) as i128
                } else {
                    (-i128::MAX) as i128
                },
            },
        }
    }

    #[verifier::when_used_as_spec(spec_from_reading)]
    pub fn from_reading(reading: Result<u128, u128>) -> (t: Timestamp)
        ensures
            t == Self::spec_from_reading(reading),
    {
        match reading {
            Ok(after) => {
                if after <= i128::MAX as u128 {
                    Timestamp { nanos: after as i128 }
                } else {
                    Timestamp { nanos: i128::MAX }
                }
            },
            Err(before) => {
                if before <= i128::MAX as u128 {
                    Timestamp { nanos: -(before as i128) }
                } else {
                    Timestamp { nanos: -i128::MAX }
                }
            },
        }
    }

    /// The time on the wall clock: the time that the clock's reading stands
    /// for, whatever the reading is.
    pub fn now() -> (t: Timestamp)
        ensures
            exists|reading: Result<u128, u128>| t == Self::spec_from_reading(reading),
    {
        let reading = clock_reading();
        Timestamp::from_reading(reading)
    }

    /// Whether this time is not after `other`.
    pub open spec fn spec_le(self, other: Timestamp) -> bool {
        self.nanos <= other.nanos
    }

    #[verifier::when_used_as_spec(spec_le)]
    pub fn le(self, other: Timestamp) -> (b: bool)
        ensures
            b == self.spec_le(other),
    {
        self.nanos <= other.nanos
    }
}

/// `SystemTime::now()`, as the distance of the clock's reading from the Unix
/// epoch in nanoseconds: `Ok` of a reading at or after the epoch, `Err` of
/// one before it. Nothing is claimed of the reading.
#[verifier::external_body]
fn clock_reading() -> (reading: Result<u128, u128>) {
    match SystemTime::now().duration_since(SystemTime::UNIX_EPOCH) {
        Ok(after) => Ok(after.as_nanos()),
        Err(before) => Err(before.duration().as_nanos()),
    }
}

/// What a stroke is made of.
pub struct Stroke {
    pub ts: Timestamp,
    pub color: u32,
    pub points: Seq<(i32, i32)>,
}

impl Stroke {
    /// The stroke made at `ts` with the given colour and points.
    pub open spec fn of(ts: Timestamp, color: u32, points: Seq<(i32, i32)>) -> Stroke {
        Stroke { ts, color, points }
    }
}

/// A stroke in a chain. It does not change once it is made; only its link
/// to the next stroke does.
pub struct Line {
    ts: Timestamp,
    next: Option<Box<Line>>,
    color: u32,
    points: Vec<(i32, i32)>,
}

/// The strokes of a chain, from the given link on.
pub closed spec fn chain(link: Option<Box<Line>>) -> Seq<Stroke>
    decreases link,
{
    match link {
        None => Seq::empty(),
        Some(line) => seq![line.stroke()] + chain(line.next),
    }
}

impl Line {
    /// The stroke that this line records.
    pub closed spec fn stroke(&self) -> Stroke {
        Stroke { ts: self.ts, color: self.color, points: self.points@ }
    }

    /// The strokes that follow this one in its chain.
    pub closed spec fn rest(&self) -> Seq<Stroke> {
        chain(self.next)
    }

    /// The stroke as JSON text: an object with the colour and the points.
    pub fn as_json(&self) -> (text: Vec<u8>)
        ensures
            text@ == stroke_json(self.stroke().color, self.stroke().points),
    {
        stroke_text(self.color, &self.points)
    }

    /// The stroke that follows this one, if there is one.
    pub fn next(&self) -> (following: Option<&Line>)
        ensures
            match following {
                Some(line) => self.rest().len() > 0 && line.stroke() == self.rest()[0]
                    && line.rest() == self.rest().skip(1),
                None => self.rest().len() == 0,
            },
    {
        match &self.next {
            Some(line) => {
                assert(line.rest() =~= self.rest().skip(1));
                Some(&**line)
            },
            None => None,
        }
    }

    /// When the stroke was made.
    pub fn timestamp(&self) -> (ts: Timestamp)
        ensures
            ts == self.stroke().ts,
    {
        self.ts
    }

    /// A copy of the stroke's points.
    pub fn points(&self) -> (points: Vec<(i32, i32)>)
        ensures
            points@ == self.stroke().points,
    {
        slice_to_vec(self.points.as_slice())
    }

    /// The stroke's colour.
    pub fn color(&self) -> (color: u32)
        ensures
            color == self.stroke().color,
    {
        self.color
    }
}

/// Puts `line` in the place of the stroke at `depth` and of all that follow
/// it.
fn graft(link: &mut Option<Box<Line>>, depth: usize, line: Line)
    requires
        depth <= chain(*old(link)).len(),
        line.rest().len() == 0,
    ensures
        chain(*final(link)) == chain(*old(link)).take(depth as int).push(line.stroke()),
{
    let ghost whole = link;
    let ghost before = chain(*link);
    let mut at: &mut Option<Box<Line>> = link;
    let mut k: usize = 0;
    proof {
        assert(chain(*at) =~= before.skip(0));
        assert(before.take(0) + chain(*final(at)) =~= chain(*final(at)));
    }
    while k < depth
        invariant
            k <= depth <= before.len(),
            chain(*at) == before.skip(k as int),
            chain(*final(whole)) == before.take(k as int) + chain(*final(at)),
        decreases depth - k,
    {
        let ghost here = at;
        match at {
            Some(node) => {
                proof {
                    assert(chain(node.next) =~= chain(*here).skip(1));
                    assert(chain(*here).skip(1) =~= before.skip(k + 1));
                }
                at = &mut node.next;
                proof {
                    assert(chain(*final(here)) =~= seq![chain(*here)[0]] + chain(*final(at)));
                    assert(before.take(k as int) + (seq![chain(*here)[0]] + chain(*final(at)))
                        =~= before.take(k + 1) + chain(*final(at)));
                }
            },
            None => {},
        }
        k = k + 1;
    }
    *at = Some(Box::new(line));
    proof {
        assert(chain(*at) =~= seq![line.stroke()]);
        assert(before.take(depth as int) + seq![line.stroke()] =~= before.take(
            depth as int,
        ).push(line.stroke()));
    }
}

/// How many strokes from the front of `strokes` are not after `limit`: the
/// index of the first stroke that is after it, or the length where there is
/// none.
pub open spec fn reach(strokes: Seq<Stroke>, limit: Timestamp) -> nat
    decreases strokes.len(),
{
    if strokes.len() == 0 || !strokes[0].ts.spec_le(limit) {
        0
    } else {
        1 + reach(strokes.skip(1), limit)
    }
}

/// Whether no stroke is earlier than one that precedes it.
pub open spec fn in_order(strokes: Seq<Stroke>) -> bool {
    forall|i: int, j: int|
        0 <= i <= j < strokes.len() ==> (#[trigger] strokes[i]).ts.spec_le(
            (#[trigger] strokes[j]).ts,
        )
}

/// The strokes that the lines record.
pub open spec fn strokes_of(lines: Seq<&Line>) -> Seq<Stroke> {
    Seq::new(lines.len(), |i: int| lines[i].stroke())
}

/// A history as a value: the strokes of the chain from its head, and the
/// number of them that are in effect.
pub struct HistoryView {
    pub strokes: Seq<Stroke>,
    pub cursor: nat,
}

impl HistoryView {
    /// The cursor stands within the chain.
    pub open spec fn wf(self) -> bool {
        self.cursor <= self.strokes.len()
    }

    /// The history with no stroke.
    pub open spec fn empty() -> HistoryView {
        HistoryView { strokes: Seq::empty(), cursor: 0 }
    }

    /// The strokes that are in effect: those up to the cursor.
    pub open spec fn done(self) -> Seq<Stroke> {
        self.strokes.take(self.cursor as int)
    }

    /// The history after `stroke` was drawn: it follows the strokes in
    /// effect, the cursor stands on it, and what was undone is gone.
    pub open spec fn added(self, stroke: Stroke) -> HistoryView {
        HistoryView { strokes: self.done().push(stroke), cursor: self.cursor + 1 }
    }

    /// Whether there is a stroke to undo.
    pub open spec fn can_undo(self) -> bool {
        self.cursor > 0
    }

    /// Whether there is a stroke to redo.
    pub open spec fn can_redo(self) -> bool {
        self.cursor < self.strokes.len()
    }

    /// The history after an undo: the cursor one stroke back, or where it
    /// was when it is before the first stroke.
    pub open spec fn undone(self) -> HistoryView {
        if self.can_undo() {
            HistoryView { strokes: self.strokes, cursor: (self.cursor - 1) as nat }
        } else {
            self
        }
    }

    /// The history after a redo: the cursor one stroke on, or where it was
    /// when it is on the last stroke.
    pub open spec fn redone(self) -> HistoryView {
        if self.can_redo() {
            HistoryView { strokes: self.strokes, cursor: self.cursor + 1 }
        } else {
            self
        }
    }

    /// The time of the stroke under the cursor, or the epoch when the
    /// cursor is before the first stroke.
    pub open spec fn last_timestamp(self) -> Timestamp {
        if self.cursor == 0 {
            Timestamp::spec_epoch()
        } else {
            self.strokes[self.cursor - 1].ts
        }
    }

    /// The strokes that a replay shows: those from the head up to the
    /// first one that is after the time of the stroke under the cursor.
    pub open spec fn shown(self) -> Seq<Stroke> {
        self.strokes.take(reach(self.strokes, self.last_timestamp()) as int)
    }
}

/// The strokes of one user.
pub struct History {
    head: Option<Box<Line>>,
    current: usize,
}

impl History {
    /// The history as a value.
    pub closed spec fn view(&self) -> HistoryView {
        HistoryView { strokes: chain(self.head), cursor: self.current as nat }
    }

    /// The history's invariant: the cursor stands within the chain, and the
    /// chain is no longer than a machine can count.
    pub open spec fn wf(&self) -> bool {
        self@.wf() && self@.strokes.len() <= usize::MAX
    }

    /// A history with no stroke.
    pub fn new() -> (history: History)
        ensures
            history.wf(),
            history@ == HistoryView::empty(),
    {
        History { head: None, current: 0 }
    }

    /// Records a stroke made at `ts`. It follows the stroke under the
    /// cursor, or becomes the head when the cursor is before the first
    /// stroke; the strokes that were undone are dropped, and the cursor
    /// moves onto the new stroke.
    pub fn add_at(&mut self, ts: Timestamp, points: &[(i32, i32)], color: u32)
        requires
            old(self).wf(),
            old(self)@.cursor < usize::MAX,
        ensures
            final(self).wf(),
            final(self)@ == old(self)@.added(Stroke::of(ts, color, points@)),
    {
        let line = Line { ts, next: None, color, points: slice_to_vec(points) };
        graft(&mut self.head, self.current, line);
        self.current = self.current + 1;
    }

    /// Records a stroke made now, as `add_at` does for the time on the wall
    /// clock.
    pub fn add(&mut self, points: &[(i32, i32)], color: u32)
        requires
            old(self).wf(),
            old(self)@.cursor < usize::MAX,
        ensures
            final(self).wf(),
            exists|ts: Timestamp|
                final(self)@ == old(self)@.added(#[trigger] Stroke::of(ts, color, points@)),
    {
        let ts = Timestamp::now();
        self.add_at(ts, points, color);
    }

    /// Moves the cursor one stroke back and says whether it moved.
    pub fn undo(&mut self) -> (moved: bool)
        requires
            old(self).wf(),
        ensures
            final(self).wf(),
            moved == old(self)@.can_undo(),
            final(self)@ == old(self)@.undone(),
    {
        if self.current > 0 {
            self.current = self.current - 1;
            true
        } else {
            false
        }
    }

    /// The link that leads to the stroke at `depth`.
    fn link_at(&self, depth: usize) -> (link: &Option<Box<Line>>)
        requires
            depth <= self@.strokes.len(),
        ensures
            chain(*link) == self@.strokes.skip(depth as int),
    {
        let mut at: &Option<Box<Line>> = &self.head;
        let mut k: usize = 0;
        assert(chain(*at) =~= self@.strokes.skip(0));
        while k < depth
            invariant
                k <= depth <= self@.strokes.len(),
                chain(*at) == self@.strokes.skip(k as int),
            decreases depth - k,
        {
            match at {
                Some(line) => {
                    assert(chain(line.next) =~= chain(*at).skip(1));
                    assert(chain(*at).skip(1) =~= self@.strokes.skip(k + 1));
                    at = &line.next;
                },
                None => {},
            }
            k = k + 1;
        }
        at
    }

    /// Moves the cursor one stroke on and says whether it moved.
    pub fn redo(&mut self) -> (moved: bool)
        requires
            old(self).wf(),
        ensures
            final(self).wf(),
            moved == old(self)@.can_redo(),
            final(self)@ == old(self)@.redone(),
    {
        let more = self.link_at(self.current).is_some();
        assert(more == (self@.strokes.skip(self.current as int).len() > 0));
        if more {
            self.current = self.current + 1;
            true
        } else {
            false
        }
    }

    /// Drops every stroke and says whether there was any.
    pub fn clear(&mut self) -> (cleared: bool)
        requires
            old(self).wf(),
        ensures
            final(self).wf(),
            cleared == (old(self)@.strokes.len() > 0),
            final(self)@ == HistoryView::empty(),
    {
        let cleared = self.head.is_some();
        self.head = None;
        self.current = 0;
        cleared
    }

    /// The first stroke of the chain, if there is one: the place from which
    /// the chain is read.
    pub fn head(&self) -> (first: Option<&Line>)
        ensures
            match first {
                Some(line) => self@.strokes.len() > 0 && line.stroke() == self@.strokes[0]
                    && line.rest() == self@.strokes.skip(1),
                None => self@.strokes.len() == 0,
            },
    {
        match &self.head {
            Some(line) => {
                assert(line.rest() =~= self@.strokes.skip(1));
                Some(&**line)
            },
            None => None,
        }
    }

    /// Number of strokes in effect.
    pub fn cursor(&self) -> (n: usize)
        ensures
            n == self@.cursor,
    {
        self.current
    }

    /// The stroke under the cursor, if the cursor is not before the first
    /// stroke.
    pub fn current(&self) -> (under: Option<&Line>)
        requires
            self.wf(),
        ensures
            match under {
                Some(line) => self@.cursor > 0 && line.stroke() == self@.strokes[self@.cursor - 1]
                    && line.rest() == self@.strokes.skip(self@.cursor as int),
                None => self@.cursor == 0,
            },
    {
        if self.current == 0 {
            None
        } else {
            match self.link_at(self.current - 1) {
                Some(line) => {
                    assert(self@.strokes.skip(self.current - 1)[0] == line.stroke());
                    assert(line.rest() =~= self@.strokes.skip(self.current - 1).skip(1));
                    assert(self@.strokes.skip(self.current - 1).skip(1) =~= self@.strokes.skip(
                        self.current as int,
                    ));
                    Some(&**line)
                },
                None => None,
            }
        }
    }

    /// The time of the stroke under the cursor, or the epoch when the
    /// cursor is before the first stroke. Strokes up to this time are the
    /// ones that a replay shows.
    pub fn last_timestamp(&self) -> (t: Timestamp)
        requires
            self.wf(),
        ensures
            t == self@.last_timestamp(),
    {
        match self.current() {
            Some(line) => line.ts,
            None => Timestamp::epoch(),
        }
    }

    /// The strokes that a replay shows, read from the head: each stroke
    /// that is not after the time of the stroke under the cursor, up to the
    /// first one that is.
    pub fn shown(&self) -> (lines: Vec<&Line>)
        requires
            self.wf(),
        ensures
            strokes_of(lines@) == self@.shown(),
    {
        let last = self.last_timestamp();
        let mut lines: Vec<&Line> = Vec::new();
        let mut at: &Option<Box<Line>> = &self.head;
        proof {
            assert(chain(*at) =~= self@.strokes.skip(0));
            assert(strokes_of(lines@) =~= self@.strokes.take(0));
        }
        loop
            invariant
                lines@.len() <= self@.strokes.len(),
                chain(*at) == self@.strokes.skip(lines@.len() as int),
                strokes_of(lines@) == self@.strokes.take(lines@.len() as int),
                reach(self@.strokes, last) == lines@.len() + reach(chain(*at), last),
            ensures
                strokes_of(lines@) == self@.strokes.take(reach(self@.strokes, last) as int),
            decreases self@.strokes.len() - lines@.len(),
        {
            match at {
                Some(line) => {
                    if !line.ts.le(last) {
                        break ;
                    }
                    proof {
                        let k = lines@.len() as int;
                        assert(chain(line.next) =~= chain(*at).skip(1));
                        assert(chain(*at).skip(1) =~= self@.strokes.skip(k + 1));
                        assert(line.stroke() == self@.strokes[k]);
                        assert(strokes_of(lines@.push(&**line)) =~= self@.strokes.take(k + 1));
                    }
                    lines.push(&**line);
                    at = &line.next;
                },
                None => {
                    break ;
                },
            }
        }
        lines
    }
}

} // verus!
