use bluetooth_offload::command::{
    CodingFormat, CommandToBytes, LeCodecId, LeDataPathDirection, LeSetupIsoDataPath,
};
use bluetooth_offload::data::IsoData;
use bluetooth_offload::event::{
    CommandComplete, Event, EventToBytes, LeCisEstablished, LeTerminateBigComplete,
    NumberOfCompletedPackets, NumberOfCompletedPacketsHandle, ReturnParameters,
};
use bluetooth_offload::command::{LeReadBufferSizeV2Complete, LeSetCigParametersComplete,
    LeCisInCigParameters, LeSetCigParameters, ResetComplete};
use bluetooth_offload::proxy::{ProxyFault, ProxyState};
use bluetooth_offload::status::Status;

fn setup_path(handle: u16, id: u8, direction: LeDataPathDirection) -> Vec<u8> {
    LeSetupIsoDataPath {
        connection_handle: handle,
        data_path_direction: direction,
        data_path_id: id,
        codec_id: LeCodecId {
            coding_format: CodingFormat::Transparent,
            company_id: 0,
            vendor_id: 0,
        },
        controller_delay: 0,
        codec_configuration: vec![],
    }
    .to_bytes()
}

fn session(p: &mut ProxyState, iso_count: u8) {
    let reset = CommandComplete {
        num_hci_command_packets: 0,
        return_parameters: ReturnParameters::Reset(ResetComplete { status: Status::Success }),
    }
    .to_bytes();
    p.in_evt(&reset).unwrap();
    let v2 = CommandComplete {
        num_hci_command_packets: 0,
        return_parameters: ReturnParameters::LeReadBufferSizeV2(LeReadBufferSizeV2Complete {
            status: Status::Success,
            le_acl_data_packet_length: 0,
            total_num_le_acl_data_packets: 0,
            iso_data_packet_length: 16,
            total_num_iso_data_packets: iso_count,
        }),
    }
    .to_bytes();
    p.in_evt(&v2).unwrap();
}

fn establish(p: &mut ProxyState, handles: Vec<u16>, sdu_interval: u32) {
    let cig = LeSetCigParameters {
        cig_id: 1,
        sdu_interval_c_to_p: sdu_interval,
        sdu_interval_p_to_c: sdu_interval,
        worst_case_sca: 0,
        packing: 0,
        framing: 0,
        max_transport_latency_c_to_p: 0,
        max_transport_latency_p_to_c: 0,
        cis: handles
            .iter()
            .enumerate()
            .map(|(i, _)| LeCisInCigParameters {
                cis_id: i as u8,
                max_sdu_c_to_p: 120,
                max_sdu_p_to_c: 120,
                phy_c_to_p: 0,
                phy_p_to_c: 0,
                rtn_c_to_p: 0,
                rtn_p_to_c: 0,
            })
            .collect(),
    }
    .to_bytes();
    p.out_cmd(&cig).unwrap();
    let complete = CommandComplete {
        num_hci_command_packets: 0,
        return_parameters: ReturnParameters::LeSetCigParameters(LeSetCigParametersComplete {
            status: Status::Success,
            cig_id: 1,
            connection_handles: handles,
        }),
    }
    .to_bytes();
    p.in_evt(&complete).unwrap();
}

fn cis_established(handle: u16, iso_interval: u16) -> Vec<u8> {
    LeCisEstablished {
        status: Status::Success,
        connection_handle: handle,
        cig_sync_delay: 0,
        cis_sync_delay: 0,
        transport_latency_c_to_p: 0,
        transport_latency_p_to_c: 0,
        phy_c_to_p: 2,
        phy_p_to_c: 2,
        nse: 0,
        bn_c_to_p: 2,
        bn_p_to_c: 2,
        ft_c_to_p: 1,
        ft_p_to_c: 1,
        max_pdu_c_to_p: 10,
        max_pdu_p_to_c: 0,
        iso_interval,
    }
    .to_bytes()
}

#[test]
fn offload_setup_with_output_direction_is_refused() {
    let mut p = ProxyState::new();
    session(&mut p, 2);
    establish(&mut p, vec![0x123], 10_000);
    p.in_evt(&cis_established(0x123, 16)).unwrap();
    let cmd = setup_path(0x123, 0x19, LeDataPathDirection::Output);
    assert_eq!(p.out_cmd(&cmd).unwrap_err(), ProxyFault::NotInput);
}

#[test]
fn offload_setup_for_unknown_stream_is_refused() {
    let mut p = ProxyState::new();
    session(&mut p, 2);
    let cmd = setup_path(0x999, 0x19, LeDataPathDirection::Input);
    assert_eq!(p.out_cmd(&cmd).unwrap_err(), ProxyFault::UnknownStream);
}

#[test]
fn cig_completion_with_wrong_handle_count_is_refused() {
    let mut p = ProxyState::new();
    session(&mut p, 2);
    establish(&mut p, vec![0x123], 10_000);
    let complete = CommandComplete {
        num_hci_command_packets: 0,
        return_parameters: ReturnParameters::LeSetCigParameters(LeSetCigParametersComplete {
            status: Status::Success,
            cig_id: 1,
            connection_handles: vec![0x123, 0x456],
        }),
    }
    .to_bytes();
    assert_eq!(p.in_evt(&complete).unwrap_err(), ProxyFault::HandleCountMismatch);
}

#[test]
fn unsupported_framing_is_refused() {
    let mut p = ProxyState::new();
    session(&mut p, 2);
    // ISO interval 20 ms is no multiple of a 9 ms SDU interval
    establish(&mut p, vec![0x123], 9_000);
    assert_eq!(p.in_evt(&cis_established(0x123, 16)).unwrap_err(), ProxyFault::FramingUnsupported);
}

#[test]
fn establishment_before_buffer_size_is_refused() {
    let mut p = ProxyState::new();
    let reset = CommandComplete {
        num_hci_command_packets: 0,
        return_parameters: ReturnParameters::Reset(ResetComplete { status: Status::Success }),
    }
    .to_bytes();
    p.in_evt(&reset).unwrap();
    establish(&mut p, vec![0x123], 10_000);
    assert_eq!(p.in_evt(&cis_established(0x123, 16)).unwrap_err(), ProxyFault::NoArbiter);
}

#[test]
fn terminating_an_unknown_big_is_refused() {
    let mut p = ProxyState::new();
    session(&mut p, 2);
    let terminate = LeTerminateBigComplete { big_handle: 0x10, reason: 0 }.to_bytes();
    assert_eq!(p.in_evt(&terminate).unwrap_err(), ProxyFault::UnknownBig);
}

#[test]
fn malformed_outgoing_iso_is_refused() {
    let mut p = ProxyState::new();
    session(&mut p, 2);
    assert_eq!(p.out_iso(&[0x60]).unwrap_err(), ProxyFault::MalformedIso);
}

#[test]
fn oversized_outgoing_iso_is_refused() {
    let mut p = ProxyState::new();
    session(&mut p, 2);  // controller buffer of 16 bytes
    establish(&mut p, vec![0x123], 10_000);
    p.in_evt(&cis_established(0x123, 16)).unwrap();
    let big_packet = IsoData::new(0x123, 0, vec![0; 64]).to_bytes();
    assert_eq!(p.out_iso(&big_packet).unwrap_err(), ProxyFault::PayloadTooLarge);
}

#[test]
fn overlong_completion_rewrite_is_refused() {
    // only reachable through the typed interface: on the wire such an
    // event would not fit its one-byte length
    let mut p = ProxyState::new();
    session(&mut p, 2);
    let handles = (0..64u16)
        .map(|h| NumberOfCompletedPacketsHandle { connection_handle: h, num_completed_packets: 1 })
        .collect();
    let e = Event::NumberOfCompletedPackets(NumberOfCompletedPackets { handles });
    assert_eq!(p.handle_event(e).unwrap_err(), ProxyFault::EventTooLong);
}
