use bluetooth_offload::data::IsoSduFragment;
use bluetooth_offload::hal::{HalError, HalLifecycle, HalState};
use bluetooth_offload::proxy::StreamConfiguration;
use bluetooth_offload::service::{audio_packet, OffloadService, ServiceError};

fn config(n: i32) -> StreamConfiguration {
    StreamConfiguration { iso_interval_us: n, sdu_interval_us: n, max_sdu_size: n, flush_timeout: n }
}

#[test]
fn active_streams_are_replayed_in_order() {
    let mut s = OffloadService::new();
    s.start_stream(0x123, config(1));
    s.start_stream(0x456, config(2));
    s.start_stream(0x123, config(3));
    assert_eq!(s.replay(), vec![(0x123, config(3)), (0x456, config(2))]);
    s.stop_stream(0x123);
    assert_eq!(s.replay(), vec![(0x456, config(2))]);
    s.reset();
    assert_eq!(s.replay(), vec![]);
}

#[test]
fn client_packet_is_validated_and_built() {
    let d = audio_packet(0x123, 7, vec![0x11, 0x22], 16).unwrap();
    assert_eq!(d.connection_handle, 0x123);
    assert_eq!(d.payload, [0x11, 0x22]);
    let IsoSduFragment::First { hdr, is_last } = d.sdu_fragment else { panic!() };
    assert!(is_last);
    assert_eq!(hdr.timestamp, None);
    assert_eq!(hdr.sequence_number, 7);
    assert_eq!(hdr.sdu_length, 2);
    assert_eq!(hdr.status, 0);
}

#[test]
fn client_packet_rejections() {
    assert_eq!(audio_packet(-1, 0, vec![], 16).unwrap_err(), ServiceError::IllegalArgument);
    assert_eq!(audio_packet(0x1000, 0, vec![], 16).unwrap_err(), ServiceError::IllegalArgument);
    assert_eq!(audio_packet(1, -1, vec![], 16).unwrap_err(), ServiceError::IllegalArgument);
    assert_eq!(audio_packet(1, 0x10000, vec![], 16).unwrap_err(), ServiceError::IllegalArgument);
    assert_eq!(audio_packet(1, 0, vec![0; 17], 16).unwrap_err(), ServiceError::PayloadTooLarge);
}

#[test]
fn hal_lifecycle() {
    let mut h = HalLifecycle::new();
    assert_eq!(h.may_send(), Err(HalError::IllegalState));
    assert_eq!(h.initialize(), Ok(()));
    assert_eq!(h.may_send(), Ok(()));
    assert_eq!(h.initialize(), Err(HalError::AlreadyInitialized));
    assert_eq!(h.may_send(), Ok(()));
    h.initialization_complete(false);
    assert_eq!(h.may_send(), Err(HalError::IllegalState));
    assert_eq!(h.initialize(), Ok(()));
    h.client_died();
    assert_eq!(h.may_send(), Err(HalError::IllegalState));
    assert_eq!(h.initialize(), Ok(()));
    h.close();
    assert_eq!(h.may_send(), Err(HalError::IllegalState));
    let _ = HalState::Closed;
}
