use ntwk_tester::codec::{OscArg, OscMsg};
use ntwk_tester::history::HistoryBuffer;

fn msg(n: i32) -> OscMsg {
    OscMsg {
        addr: b"/n".to_vec(),
        args: vec![OscArg::Int(n)],
    }
}

fn nth(snapshot: &[OscMsg], i: usize) -> i32 {
    match snapshot[i].args[0] {
        OscArg::Int(n) => n,
        _ => panic!("expected an int argument"),
    }
}

#[test]
fn starts_empty() {
    let h = HistoryBuffer::new();
    assert_eq!(h.len(), 0);
    assert!(h.snapshot().is_empty());
}

#[test]
fn capacity_is_min_of_appends_and_seven() {
    for n in 0..10 {
        let mut h = HistoryBuffer::new();
        for i in 0..n {
            h.append(msg(i));
        }
        assert_eq!(h.len() as i32, n.min(7));
    }
}

#[test]
fn retains_the_seven_most_recent() {
    let mut h = HistoryBuffer::new();
    for i in 0..10 {
        h.append(msg(i));
    }
    let s = h.snapshot();
    assert_eq!(s.len(), 7);
    for i in 0..7 {
        assert_eq!(nth(&s, i), 3 + i as i32);
    }
}

#[test]
fn eviction_removes_only_the_oldest() {
    let mut h = HistoryBuffer::new();
    for i in 0..7 {
        h.append(msg(i));
    }
    assert_eq!(h.len(), 7);
    h.append(msg(100));
    let s = h.snapshot();
    assert_eq!(s.len(), 7);
    // Entries 1..=6 keep their relative order; only entry 0 is gone.
    for i in 0..6 {
        assert_eq!(nth(&s, i), 1 + i as i32);
    }
    assert_eq!(nth(&s, 6), 100);
}

#[test]
fn snapshot_is_a_copy() {
    let mut h = HistoryBuffer::new();
    h.append(msg(1));
    let s = h.snapshot();
    h.append(msg(2));
    assert_eq!(s.len(), 1);
    assert_eq!(h.len(), 2);
    assert_eq!(nth(&s, 0), 1);
}
