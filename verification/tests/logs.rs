use mesopotamia::events::{EventKind, EventLog, EVENT_CAP};
use mesopotamia::history::{push_capped, WINDOW};
use std::collections::VecDeque;

#[test]
fn event_log_counts_every_push() {
    let mut log: EventLog<(u64, EventKind)> = EventLog::default();
    log.push((1, EventKind::Starved));
    log.push((2, EventKind::Departed));
    assert_eq!(log.total, 2);
    assert_eq!(log.recent.len(), 2);
    assert_eq!(log.recent[0], (1, EventKind::Starved));
    assert_eq!(log.recent[1], (2, EventKind::Departed));
}

#[test]
fn event_log_drops_the_oldest_past_the_cap() {
    let mut log: EventLog<usize> = EventLog::default();
    for i in 0..EVENT_CAP + 5 {
        log.push(i);
    }
    assert_eq!(log.recent.len(), EVENT_CAP);
    assert_eq!(log.total, (EVENT_CAP + 5) as u64);
    assert_eq!(*log.recent.front().unwrap(), 5);
    assert_eq!(*log.recent.back().unwrap(), EVENT_CAP + 4);
}

#[test]
fn history_window_rolls() {
    let mut buf: VecDeque<u32> = VecDeque::new();
    for i in 0..(WINDOW as u32 + 3) {
        push_capped(&mut buf, i);
        assert!(buf.len() <= WINDOW);
    }
    assert_eq!(buf.len(), WINDOW);
    assert_eq!(*buf.front().unwrap(), 3);
    assert_eq!(*buf.back().unwrap(), WINDOW as u32 + 2);
}

#[test]
fn history_window_keeps_short_series_whole() {
    let mut buf: VecDeque<i8> = VecDeque::new();
    push_capped(&mut buf, -1);
    push_capped(&mut buf, 4);
    assert_eq!(buf, VecDeque::from(vec![-1, 4]));
}

#[test]
fn cursor_reader_sees_every_event_once() {
    let mut log: EventLog<usize> = EventLog::default();
    let mut cursor: u64 = 0;
    let mut seen: Vec<usize> = Vec::new();
    let mut next = 0usize;
    // Bursts of varying size, each at most a window's worth, between reads.
    for burst in [0usize, 3, 1, EVENT_CAP, 17, EVENT_CAP - 1, 2] {
        for _ in 0..burst {
            log.push(next);
            next += 1;
        }
        let start = log.unseen_start(cursor);
        seen.extend(log.recent.iter().skip(start).copied());
        cursor = log.total;
    }
    assert_eq!(seen, (0..next).collect::<Vec<usize>>());
}

#[test]
fn unseen_start_bounds() {
    let mut log: EventLog<u8> = EventLog::default();
    assert_eq!(log.unseen_start(0), 0);
    for _ in 0..10 {
        log.push(7);
    }
    assert_eq!(log.unseen_start(10), 10);
    assert_eq!(log.unseen_start(12), 10);
    assert_eq!(log.unseen_start(4), 4);
    assert_eq!(log.unseen_start(0), 0);
    for _ in 0..EVENT_CAP {
        log.push(9);
    }
    // More arrived than the window keeps: the reader gets the whole window.
    assert_eq!(log.unseen_start(5), 0);
    assert_eq!(log.unseen_start(log.total - 3), EVENT_CAP - 3);
}
