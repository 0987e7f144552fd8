use ntwk_tester::codec::{decode, encode_message, OscArg, Packet};
use ntwk_tester::history::HistoryBuffer;
use ntwk_tester::pump::{ingest, IngestOutcome, SharedHistory};

fn datagram(path: &[u8], vals: &[f32]) -> Vec<u8> {
    let bits: Vec<u32> = vals.iter().map(|v| v.to_bits()).collect();
    encode_message(&path.to_vec(), &bits).unwrap()
}

#[test]
fn message_is_appended() {
    let mut h = HistoryBuffer::new();
    let out = ingest(&mut h, &datagram(b"/a", &[1.0]));
    assert_eq!(out, IngestOutcome::Appended);
    assert_eq!(h.len(), 1);
}

#[test]
fn bundle_is_dropped_without_error() {
    let mut h = HistoryBuffer::new();
    let mut bundle = b"#bundle\0".to_vec();
    bundle.extend_from_slice(&[0, 0, 0, 0, 0, 0, 0, 1]);
    let out = ingest(&mut h, &bundle);
    assert_eq!(out, IngestOutcome::BundleDropped);
    assert_eq!(h.len(), 0);
}

#[test]
fn corrupt_datagram_does_not_stop_the_receiver() {
    let mut h = HistoryBuffer::new();
    // A valid message first.
    assert_eq!(ingest(&mut h, &datagram(b"/ok", &[1.0])), IngestOutcome::Appended);
    // Truncated and corrupted datagrams are discarded...
    assert_eq!(ingest(&mut h, &vec![47, 97, 98]), IngestOutcome::DecodeFailed);
    assert_eq!(ingest(&mut h, &vec![0, 1, 2, 3, 4, 5]), IngestOutcome::DecodeFailed);
    assert_eq!(h.len(), 1);
    // ...and the next valid datagram is still processed correctly.
    assert_eq!(ingest(&mut h, &datagram(b"/next", &[2.0])), IngestOutcome::Appended);
    let s = h.snapshot();
    assert_eq!(s.len(), 2);
    assert_eq!(s[1].addr, b"/next".to_vec());
}

#[test]
fn shared_history_snapshot_never_exceeds_capacity() {
    let shared = SharedHistory::new();
    for i in 0..20 {
        let out = shared.ingest(&datagram(b"/s", &[i as f32]));
        assert_eq!(out, IngestOutcome::Appended);
        let s = shared.snapshot();
        assert!(s.len() <= 7);
        assert_eq!(s.len(), usize::min(i + 1, 7));
    }
}

#[test]
fn shared_history_drops_bundles_and_garbage() {
    let shared = SharedHistory::new();
    let mut bundle = b"#bundle\0".to_vec();
    bundle.extend_from_slice(&[0; 8]);
    assert_eq!(shared.ingest(&bundle), IngestOutcome::BundleDropped);
    assert_eq!(shared.ingest(&vec![1, 2, 3]), IngestOutcome::DecodeFailed);
    assert_eq!(shared.snapshot().len(), 0);
}

#[test]
fn end_to_end_tick() {
    // Config: send path "/test", two parameters with defaults 0.5 and 0.2.
    let path = b"/test".to_vec();
    let params: Vec<f32> = vec![0.5, 0.2];

    // One tick encodes the current parameter values.
    let bits: Vec<u32> = params.iter().map(|v| v.to_bits()).collect();
    let wire = encode_message(&path, &bits).unwrap();

    // The receiver decodes the datagram back into an inbound message.
    let msg = match decode(&wire) {
        Ok(Packet::Message(m)) => m,
        other => panic!("expected a message, got {:?}", other),
    };
    assert_eq!(msg.addr, b"/test".to_vec());
    assert_eq!(msg.args.len(), 2);
    match (&msg.args[0], &msg.args[1]) {
        (OscArg::Float(a), OscArg::Float(b)) => {
            assert!((f32::from_bits(*a) - 0.5).abs() < 1e-7);
            assert!((f32::from_bits(*b) - 0.2).abs() < 1e-7);
        }
        _ => panic!("expected float arguments"),
    }

    // Appending it to an empty history yields length 1.
    let mut h = HistoryBuffer::new();
    h.append(msg);
    assert_eq!(h.len(), 1);
}
