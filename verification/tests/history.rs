use whiteboard::history::{History, Line, Timestamp};

fn at(nanos: i128) -> Timestamp {
    Timestamp { nanos }
}

fn times(history: &History) -> Vec<i128> {
    let mut out = Vec::new();
    let mut line: Option<&Line> = history.head();
    while let Some(l) = line {
        out.push(l.timestamp().nanos);
        line = l.next();
    }
    out
}

fn abc() -> History {
    let mut history = History::new();
    history.add_at(at(1), &[(0, 0), (1, 1)], 0xff0000);
    history.add_at(at(2), &[(2, 2)], 0x00ff00);
    history.add_at(at(3), &[(3, 3)], 0x0000ff);
    history
}

#[test]
fn new_history_has_no_stroke() {
    let history = History::new();
    assert!(history.head().is_none());
    assert!(history.current().is_none());
    assert_eq!(history.last_timestamp(), Timestamp::epoch());
    assert!(history.shown().is_empty());
}

#[test]
fn add_appends_and_moves_the_cursor() {
    let history = abc();
    assert_eq!(times(&history), vec![1, 2, 3]);
    assert_eq!(history.last_timestamp(), at(3));
    let current = history.current().unwrap();
    assert_eq!(current.timestamp(), at(3));
    assert_eq!(current.color(), 0x0000ff);
    assert_eq!(current.points(), vec![(3, 3)]);
    assert!(current.next().is_none());
}

#[test]
fn first_stroke_becomes_the_head() {
    let mut history = History::new();
    history.add_at(at(5), &[(1, 2), (3, 4)], 7);
    let head = history.head().unwrap();
    assert_eq!(head.timestamp(), at(5));
    assert_eq!(head.color(), 7);
    assert_eq!(head.points(), vec![(1, 2), (3, 4)]);
    assert!(head.next().is_none());
    assert_eq!(history.last_timestamp(), at(5));
}

#[test]
fn two_undos_then_redo_then_add_discards_the_rest() {
    let mut history = abc();
    assert!(history.undo());
    assert!(history.undo());
    assert_eq!(history.current().unwrap().timestamp(), at(1));
    assert_eq!(times(&history), vec![1, 2, 3]);
    assert!(history.redo());
    assert_eq!(history.current().unwrap().timestamp(), at(2));
    assert!(history.undo());
    assert_eq!(history.current().unwrap().timestamp(), at(1));
    history.add_at(at(4), &[(4, 4)], 0x404040);
    assert_eq!(times(&history), vec![1, 4]);
    let first = history.head().unwrap();
    let successor = first.next().unwrap();
    assert_eq!(successor.timestamp(), at(4));
    assert_eq!(successor.color(), 0x404040);
    assert!(successor.next().is_none());
    assert_eq!(history.current().unwrap().timestamp(), at(4));
    assert!(!history.redo());
}

#[test]
fn undo_stops_before_the_first_stroke() {
    let mut history = abc();
    assert!(history.undo());
    assert!(history.undo());
    assert!(history.undo());
    assert!(history.current().is_none());
    assert_eq!(history.last_timestamp(), Timestamp::epoch());
    assert!(!history.undo());
    assert!(history.current().is_none());
    assert_eq!(times(&history), vec![1, 2, 3]);
}

#[test]
fn undo_of_an_empty_history_does_nothing() {
    let mut history = History::new();
    assert!(!history.undo());
    assert!(history.head().is_none());
}

#[test]
fn redo_from_before_the_first_stroke_goes_to_the_head() {
    let mut history = abc();
    assert!(history.undo());
    assert!(history.undo());
    assert!(history.undo());
    assert!(history.redo());
    assert_eq!(history.current().unwrap().timestamp(), at(1));
    assert_eq!(history.last_timestamp(), at(1));
}

#[test]
fn redo_stops_at_the_end_of_the_chain() {
    let mut history = abc();
    assert!(!history.redo());
    assert!(history.undo());
    assert!(history.redo());
    assert!(!history.redo());
    assert_eq!(history.last_timestamp(), at(3));
}

#[test]
fn redo_of_an_empty_history_does_nothing() {
    let mut history = History::new();
    assert!(!history.redo());
    assert!(history.head().is_none());
    assert!(history.current().is_none());
}

#[test]
fn add_after_undoing_everything_starts_a_new_chain() {
    let mut history = abc();
    assert!(history.undo());
    assert!(history.undo());
    assert!(history.undo());
    history.add_at(at(9), &[(9, 9)], 9);
    assert_eq!(times(&history), vec![9]);
    assert_eq!(history.head().unwrap().color(), 9);
    assert_eq!(history.last_timestamp(), at(9));
    assert!(!history.redo());
}

#[test]
fn last_timestamp_follows_the_cursor() {
    let mut history = abc();
    assert_eq!(history.last_timestamp(), at(3));
    history.undo();
    assert_eq!(history.last_timestamp(), at(2));
    history.undo();
    assert_eq!(history.last_timestamp(), at(1));
    history.undo();
    assert_eq!(history.last_timestamp(), at(0));
    history.redo();
    assert_eq!(history.last_timestamp(), at(1));
}

#[test]
fn last_timestamp_is_the_epoch_after_clear() {
    let mut history = abc();
    assert!(history.clear());
    assert_eq!(history.last_timestamp(), Timestamp::epoch());
    assert_eq!(Timestamp::epoch(), at(0));
}

#[test]
fn clear_of_an_empty_history_returns_false() {
    let mut history = History::new();
    assert!(!history.clear());
    assert!(history.head().is_none());
}

#[test]
fn clear_drops_every_stroke() {
    let mut history = abc();
    assert!(history.clear());
    assert!(history.head().is_none());
    assert!(history.current().is_none());
    assert!(!history.undo());
    assert!(!history.redo());
    assert!(!history.clear());
}

#[test]
fn clear_after_undoing_everything_still_clears() {
    let mut history = abc();
    history.undo();
    history.undo();
    history.undo();
    assert!(history.clear());
    assert!(history.head().is_none());
    assert!(!history.redo());
}

#[test]
fn shown_stops_at_the_first_later_stroke() {
    let mut history = abc();
    assert_eq!(history.shown().len(), 3);
    history.undo();
    let shown: Vec<i128> = history.shown().iter().map(|l| l.timestamp().nanos).collect();
    assert_eq!(shown, vec![1, 2]);
    history.undo();
    history.undo();
    assert!(history.shown().is_empty());
}

#[test]
fn shown_includes_undone_strokes_of_the_same_time() {
    let mut history = History::new();
    history.add_at(at(1), &[(0, 0)], 1);
    history.add_at(at(1), &[(1, 1)], 2);
    history.add_at(at(2), &[(2, 2)], 3);
    history.undo();
    history.undo();
    let shown: Vec<u32> = history.shown().iter().map(|l| l.color()).collect();
    assert_eq!(shown, vec![1, 2]);
}

#[test]
fn shown_stops_at_a_stroke_out_of_order() {
    let mut history = History::new();
    history.add_at(at(5), &[(0, 0)], 1);
    history.add_at(at(9), &[(1, 1)], 2);
    history.add_at(at(6), &[(2, 2)], 3);
    let shown: Vec<u32> = history.shown().iter().map(|l| l.color()).collect();
    assert_eq!(shown, vec![1]);
}

#[test]
fn add_stamps_the_stroke_with_the_clock() {
    let before = Timestamp::now();
    let mut history = History::new();
    history.add(&[(1, 1)], 5);
    let after = Timestamp::now();
    let stamped = history.last_timestamp();
    assert!(before.le(stamped));
    assert!(stamped.le(after));
    assert!(Timestamp::epoch().le(stamped));
    assert_ne!(stamped, Timestamp::epoch());
    assert_eq!(history.head().unwrap().color(), 5);
    assert_eq!(history.head().unwrap().points(), vec![(1, 1)]);
}

#[test]
fn add_extends_from_the_cursor() {
    let mut history = History::new();
    history.add(&[(1, 1)], 1);
    history.add(&[(2, 2)], 2);
    history.undo();
    history.add(&[(3, 3)], 3);
    let colors: Vec<u32> = {
        let mut out = Vec::new();
        let mut line = history.head();
        while let Some(l) = line {
            out.push(l.color());
            line = l.next();
        }
        out
    };
    assert_eq!(colors, vec![1, 3]);
}

#[test]
fn readings_become_timestamps() {
    assert_eq!(Timestamp::from_reading(Ok(0)), at(0));
    assert_eq!(Timestamp::from_reading(Ok(1_500)), at(1_500));
    assert_eq!(Timestamp::from_reading(Err(1_500)), at(-1_500));
    assert_eq!(Timestamp::from_reading(Err(0)), at(0));
    assert_eq!(Timestamp::from_reading(Ok(i128::MAX as u128)), at(i128::MAX));
    assert_eq!(Timestamp::from_reading(Ok(i128::MAX as u128 + 1)), at(i128::MAX));
    assert_eq!(Timestamp::from_reading(Ok(u128::MAX)), at(i128::MAX));
    assert_eq!(Timestamp::from_reading(Err(u128::MAX)), at(-i128::MAX));
}

#[test]
fn timestamps_compare_by_their_distance_from_the_epoch() {
    assert!(at(1).le(at(1)));
    assert!(at(1).le(at(2)));
    assert!(!at(2).le(at(1)));
    assert!(at(-1).le(at(0)));
}
