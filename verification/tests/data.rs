use bluetooth_offload::data::{IsoData, IsoSduFragment};

#[test]
fn test_iso_data() {
    let dump = [
        0x60, 0x60, 0x80, 0x00, 0x4d, 0xc8, 0xd0, 0x2f, 0x19, 0x03, 0x78, 0x00, 0x00, 0x00, 0x00,
        0x00, 0x00, 0x00, 0x00, 0x00, 0x00, 0x00, 0x00, 0x00, 0x00, 0x00, 0x00, 0x00, 0x00, 0x00,
        0x00, 0x00, 0x00, 0x00, 0x00, 0x00, 0x00, 0x00, 0x00, 0x00, 0x00, 0x00, 0x00, 0x00, 0x00,
        0x00, 0x00, 0x00, 0x00, 0x00, 0x00, 0x00, 0x00, 0x00, 0x00, 0x00, 0x00, 0x00, 0x00, 0x00,
        0x00, 0x00, 0x00, 0x00, 0x00, 0x00, 0x00, 0x00, 0x00, 0x00, 0x00, 0x00, 0x00, 0x00, 0x00,
        0x00, 0x00, 0x00, 0x00, 0x00, 0x00, 0x00, 0x00, 0x00, 0x00, 0x00, 0x00, 0x00, 0x00, 0x00,
        0x00, 0x00, 0x00, 0x00, 0x00, 0x00, 0x00, 0x00, 0x00, 0x00, 0x00, 0x00, 0x00, 0x00, 0x00,
        0x00, 0x00, 0x00, 0x00, 0x00, 0x00, 0x00, 0x00, 0x00, 0x00, 0x00, 0x00, 0x00, 0x00, 0x00,
        0x00, 0x00, 0x00, 0x00, 0xe0, 0x93, 0xe5, 0x28, 0x34, 0x00, 0x00, 0x04,
    ];
    let Some(pkt) = IsoData::from_bytes(&dump) else { panic!() };
    assert_eq!(pkt.connection_handle, 0x060);

    let IsoSduFragment::First { ref hdr, is_last } = pkt.sdu_fragment else { panic!() };
    assert_eq!(hdr.timestamp, Some(802_211_917));
    assert_eq!(hdr.sequence_number, 793);
    assert_eq!(hdr.sdu_length, 120);
    assert!(is_last);

    assert_eq!(
        pkt.payload,
        [
            0x00, 0x00, 0x00, 0x00, 0x00, 0x00, 0x00, 0x00, 0x00, 0x00, 0x00, 0x00, 0x00, 0x00,
            0x00, 0x00, 0x00, 0x00, 0x00, 0x00, 0x00, 0x00, 0x00, 0x00, 0x00, 0x00, 0x00, 0x00,
            0x00, 0x00, 0x00, 0x00, 0x00, 0x00, 0x00, 0x00, 0x00, 0x00, 0x00, 0x00, 0x00, 0x00,
            0x00, 0x00, 0x00, 0x00, 0x00, 0x00, 0x00, 0x00, 0x00, 0x00, 0x00, 0x00, 0x00, 0x00,
            0x00, 0x00, 0x00, 0x00, 0x00, 0x00, 0x00, 0x00, 0x00, 0x00, 0x00, 0x00, 0x00, 0x00,
            0x00, 0x00, 0x00, 0x00, 0x00, 0x00, 0x00, 0x00, 0x00, 0x00, 0x00, 0x00, 0x00, 0x00,
            0x00, 0x00, 0x00, 0x00, 0x00, 0x00, 0x00, 0x00, 0x00, 0x00, 0x00, 0x00, 0x00, 0x00,
            0x00, 0x00, 0x00, 0x00, 0x00, 0x00, 0x00, 0x00, 0x00, 0x00, 0x00, 0x00, 0x00, 0x00,
            0xe0, 0x93, 0xe5, 0x28, 0x34, 0x00, 0x00, 0x04
        ]
    );
    assert_eq!(pkt.to_bytes(), &dump[..]);
}

#[test]
fn iso_data_new_round_trips() {
    let pkt = IsoData::new(0x456, 7, vec![0x11, 0x22, 0x33]);
    let bytes = pkt.to_bytes();
    assert_eq!(bytes, [0x56, 0x24, 0x07, 0x00, 0x07, 0x00, 0x03, 0x00, 0x11, 0x22, 0x33]);
    let Some(back) = IsoData::from_bytes(&bytes) else { panic!() };
    assert_eq!(back.connection_handle, 0x456);
    let IsoSduFragment::First { ref hdr, is_last } = back.sdu_fragment else { panic!() };
    assert!(is_last);
    assert_eq!(hdr.timestamp, None);
    assert_eq!(hdr.sequence_number, 7);
    assert_eq!(hdr.sdu_length, 3);
    assert_eq!(back.payload, [0x11, 0x22, 0x33]);
}

#[test]
fn iso_data_continuation_round_trips() {
    // continuation fragment, last, two payload bytes
    let dump = [0x60, 0x30, 0x02, 0x00, 0xaa, 0xbb];
    let Some(pkt) = IsoData::from_bytes(&dump) else { panic!() };
    assert_eq!(pkt.connection_handle, 0x060);
    let IsoSduFragment::Continue { is_last } = pkt.sdu_fragment else { panic!() };
    assert!(is_last);
    assert_eq!(pkt.payload, [0xaa, 0xbb]);
    assert_eq!(pkt.to_bytes(), &dump[..]);
}

#[test]
fn truncated_iso_data_is_rejected() {
    assert!(IsoData::from_bytes(&[0x60, 0x60]).is_none());
    assert!(IsoData::from_bytes(&[0x60, 0x60, 0x08, 0x00, 0x00]).is_none());
}
