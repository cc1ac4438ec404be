use bluetooth_offload::command::OpCode;
use bluetooth_offload::event::{Event, EventToBytes, ReturnParameters};
use bluetooth_offload::status::Status;

#[test]
fn test_disconnection_complete() {
    let dump = [0x05, 0x04, 0x00, 0x60, 0x00, 0x16];
    let Ok(Event::DisconnectionComplete(e)) = Event::from_bytes(&dump) else { panic!() };
    assert_eq!(e.status, Status::Success);
    assert_eq!(e.connection_handle, 0x60);
    assert_eq!(e.reason, 0x16);
    assert_eq!(e.to_bytes(), &dump[..]);
}

#[test]
fn test_command_complete() {
    let dump = [0x0e, 0x04, 0x01, 0x03, 0x0c, 0x00];
    let Ok(Event::CommandComplete(e)) = Event::from_bytes(&dump) else { panic!() };
    assert_eq!(e.num_hci_command_packets, 1);
    assert_eq!(e.to_bytes(), &dump[..]);
}

#[test]
fn test_command_status() {
    let dump = [0x0f, 0x04, 0x00, 0x01, 0x01, 0x04];
    let Ok(Event::CommandStatus(e)) = Event::from_bytes(&dump) else { panic!() };
    assert_eq!(e.status, Status::Success);
    assert_eq!(e.num_hci_command_packets, 1);
    assert_eq!(e.opcode, OpCode::from(0x01, 0x001));
    assert_eq!(e.to_bytes(), &dump[..]);
}

#[test]
fn test_number_of_completed_packets() {
    let dump = [0x13, 0x09, 0x02, 0x40, 0x00, 0x01, 0x00, 0x41, 0x00, 0x01, 0x00];
    let Ok(Event::NumberOfCompletedPackets(e)) = Event::from_bytes(&dump) else { panic!() };
    assert_eq!(e.handles.len(), 2);
    assert_eq!(e.handles[0].connection_handle, 0x40);
    assert_eq!(e.handles[0].num_completed_packets, 1);
    assert_eq!(e.handles[1].connection_handle, 0x41);
    assert_eq!(e.handles[1].num_completed_packets, 1);
    assert_eq!(e.to_bytes(), &dump[..]);
}

#[test]
fn test_le_cis_established() {
    let dump = [
        0x3e, 0x1d, 0x19, 0x00, 0x60, 0x00, 0x40, 0x2c, 0x00, 0x40, 0x2c, 0x00, 0xd0, 0x8b, 0x01,
        0x60, 0x7a, 0x00, 0x02, 0x02, 0x06, 0x02, 0x00, 0x05, 0x01, 0x78, 0x00, 0x00, 0x00, 0x10,
        0x00,
    ];
    let Ok(Event::LeCisEstablished(e)) = Event::from_bytes(&dump) else { panic!() };
    assert_eq!(e.status, Status::Success);
    assert_eq!(e.connection_handle, 0x60);
    assert_eq!(e.cig_sync_delay, 11_328);
    assert_eq!(e.cis_sync_delay, 11_328);
    assert_eq!(e.transport_latency_c_to_p, 101_328);
    assert_eq!(e.transport_latency_p_to_c, 31_328);
    assert_eq!(e.phy_c_to_p, 0x02);
    assert_eq!(e.phy_p_to_c, 0x02);
    assert_eq!(e.nse, 6);
    assert_eq!(e.bn_c_to_p, 2);
    assert_eq!(e.bn_p_to_c, 0);
    assert_eq!(e.ft_c_to_p, 5);
    assert_eq!(e.ft_p_to_c, 1);
    assert_eq!(e.max_pdu_c_to_p, 120);
    assert_eq!(e.max_pdu_p_to_c, 0);
    assert_eq!(e.iso_interval, 16);
    assert_eq!(e.to_bytes(), &dump[..]);
}

#[test]
fn test_le_create_big_complete() {
    let dump = [
        0x3e, 0x17, 0x1b, 0x00, 0x00, 0x46, 0x50, 0x00, 0x66, 0x9e, 0x00, 0x02, 0x0f, 0x03, 0x00,
        0x05, 0x78, 0x00, 0x18, 0x00, 0x02, 0x00, 0x04, 0x01, 0x04,
    ];
    let Ok(Event::LeCreateBigComplete(e)) = Event::from_bytes(&dump) else { panic!() };
    assert_eq!(e.status, Status::Success);
    assert_eq!(e.big_handle, 0x00);
    assert_eq!(e.big_sync_delay, 20_550);
    assert_eq!(e.big_transport_latency, 40_550);
    assert_eq!(e.phy, 0x02);
    assert_eq!(e.nse, 15);
    assert_eq!(e.bn, 3);
    assert_eq!(e.pto, 0);
    assert_eq!(e.irc, 5);
    assert_eq!(e.max_pdu, 120);
    assert_eq!(e.iso_interval, 24);
    assert_eq!(e.bis_handles.len(), 2);
    assert_eq!(e.bis_handles[0], 0x400);
    assert_eq!(e.bis_handles[1], 0x401);
    assert_eq!(e.to_bytes(), &dump[..]);
}

#[test]
fn test_le_terminate_big_complete() {
    let dump = [0x3e, 0x03, 0x1c, 0x00, 0x16];
    let Ok(Event::LeTerminateBigComplete(e)) = Event::from_bytes(&dump) else { panic!() };
    assert_eq!(e.big_handle, 0x00);
    assert_eq!(e.reason, 0x16);
    assert_eq!(e.to_bytes(), &dump[..]);
}

#[test]
fn unknown_event_parses_to_unknown() {
    let dump = [0x21, 0x02, 0xaa, 0xbb];
    let Ok(Event::Unknown(c)) = Event::from_bytes(&dump) else { panic!() };
    assert_eq!(c.primary_byte(), 0x21);
    assert_eq!(c.sub_byte(), None);
}

#[test]
fn unknown_event_tolerates_trailing_bytes() {
    // bytes after the declared length are ignored on the passthrough path
    let dump = [0x21, 0x02, 0xaa, 0xbb, 0xcc];
    let Ok(Event::Unknown(c)) = Event::from_bytes(&dump) else { panic!() };
    assert_eq!(c.primary_byte(), 0x21);
    assert_eq!(c.sub_byte(), None);

    let meta = [0x3e, 0x01, 0x42, 0x99];
    let Ok(Event::Unknown(c)) = Event::from_bytes(&meta) else { panic!() };
    assert_eq!(c.primary_byte(), 0x3e);
    assert_eq!(c.sub_byte(), Some(0x42));
}

#[test]
fn recognized_event_with_trailing_bytes_is_refused() {
    // a recognized packet must be exactly its serialization
    let dump = [0x05, 0x04, 0x00, 0x60, 0x00, 0x16, 0xaa];
    assert!(matches!(Event::from_bytes(&dump), Err(Some(_))));
}

#[test]
fn unknown_return_parameters_are_carried() {
    // a Command Complete answering an opcode the codec does not know
    let dump = [0x0e, 0x05, 0x01, 0x01, 0x04, 0xaa, 0xbb];
    let Ok(Event::CommandComplete(e)) = Event::from_bytes(&dump) else { panic!() };
    let ReturnParameters::Unknown(op) = e.return_parameters else { panic!() };
    assert_eq!(op, OpCode::from_u16(0x0401));
}

#[test]
fn broken_event_framing_is_rejected() {
    assert!(matches!(Event::from_bytes(&[0x05]), Err(None)));
    assert!(matches!(Event::from_bytes(&[0x05, 0x04, 0x00]), Err(None)));
    // recognized code whose body does not parse: unknown status value
    assert!(matches!(Event::from_bytes(&[0x05, 0x04, 0x99, 0x60, 0x00, 0x16]), Err(Some(_))));
}
