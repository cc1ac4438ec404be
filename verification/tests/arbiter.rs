use bluetooth_offload::arbiter::Arbiter;
use bluetooth_offload::data::IsoData;

fn pkt(handle: u16, seq: u16, payload: Vec<u8>) -> IsoData {
    IsoData::new(handle, seq, payload)
}

#[test]
fn credit_bound_holds() {
    // buffer of two: a third packet waits until an acknowledgment
    let mut a = Arbiter::new(64, 2);
    a.add_connection(0x10);
    a.push_incoming(&pkt(0x10, 0, vec![1]));
    a.push_incoming(&pkt(0x10, 1, vec![2]));
    a.push_incoming(&pkt(0x10, 2, vec![3]));
    assert!(a.pull().is_some());
    assert!(a.pull().is_some());
    assert!(a.pull().is_none());
    a.set_completed(0x10, 1);
    assert!(a.pull().is_some());
    assert!(a.pull().is_none());
}

#[test]
fn audio_wins_over_incoming() {
    let mut a = Arbiter::new(64, 4);
    a.add_connection(0x10);
    a.add_connection(0x20);
    a.push_incoming(&pkt(0x10, 0, vec![0xaa]));
    a.push_audio(&pkt(0x20, 0, vec![0xbb]));
    let (h1, b1) = a.pull().unwrap();
    assert_eq!(h1, 0x20);
    assert_eq!(b1, pkt(0x20, 0, vec![0xbb]).to_bytes());
    let (h2, _) = a.pull().unwrap();
    assert_eq!(h2, 0x10);
}

#[test]
fn fifo_order_within_a_producer() {
    let mut a = Arbiter::new(64, 8);
    a.add_connection(0x10);
    for i in 0..4u16 {
        a.push_incoming(&pkt(0x10, i, vec![i as u8]));
    }
    for i in 0..4u16 {
        let (_, b) = a.pull().unwrap();
        assert_eq!(b, pkt(0x10, i, vec![i as u8]).to_bytes());
    }
}

#[test]
fn disconnect_drops_queued_packets() {
    let mut a = Arbiter::new(64, 1);
    a.add_connection(0x10);
    a.add_connection(0x20);
    a.push_incoming(&pkt(0x10, 0, vec![1]));
    a.push_incoming(&pkt(0x10, 1, vec![2]));
    a.push_incoming(&pkt(0x20, 0, vec![3]));
    assert!(a.pull().is_some());  // 0x10 seq 0, buffer now full
    a.remove_connection(0x10);  // frees its credit, drops its queue
    let (h, b) = a.pull().unwrap();
    assert_eq!(h, 0x20);
    assert_eq!(b, pkt(0x20, 0, vec![3]).to_bytes());
    assert!(a.pull().is_none());
}

#[test]
fn unknown_handle_pushes_are_dropped() {
    let mut a = Arbiter::new(64, 4);
    a.add_connection(0x10);
    a.push_incoming(&pkt(0x99, 0, vec![1]));
    a.push_audio(&pkt(0x99, 1, vec![2]));
    assert!(a.pull().is_none());
    assert!(!a.is_tracked(0x99));
    assert!(a.is_tracked(0x10));
}

#[test]
fn over_crediting_saturates_at_zero() {
    let mut a = Arbiter::new(64, 1);
    a.add_connection(0x10);
    a.push_incoming(&pkt(0x10, 0, vec![1]));
    assert!(a.pull().is_some());
    a.set_completed(0x10, 5);
    a.push_incoming(&pkt(0x10, 1, vec![2]));
    assert!(a.pull().is_some());
    assert!(a.pull().is_none());
    assert_eq!(a.max_buf_len(), 64);
}
