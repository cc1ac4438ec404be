use bluetooth_offload::command::{
    CodingFormat, CommandToBytes, LeCisInCigParameters, LeCodecId, LeCreateBig,
    LeReadBufferSizeV2Complete, LeRemoveCigComplete, LeSetCigParameters, LeCreateCis,
    LeSetCigParametersComplete, LeSetupIsoDataPath, LeDataPathDirection, LeIsoDataPathComplete,
    ResetComplete,
};
use bluetooth_offload::data::IsoData;
use bluetooth_offload::event::{
    CommandComplete, DisconnectionComplete, EventToBytes, LeCisEstablished, LeCreateBigComplete,
    LeTerminateBigComplete, NumberOfCompletedPackets, NumberOfCompletedPacketsHandle,
    ReturnParameters,
};
use bluetooth_offload::proxy::{CmdAction, EvtAction, Notice, ProxyState};
use bluetooth_offload::status::Status;

/// Records what the proxy hands the transport: commands and events to
/// forward, ISO packets the arbiter released, and notices for the client.
#[derive(Default)]
struct Sink {
    out_cmd: Vec<Vec<u8>>,
    in_evt: Vec<Vec<u8>>,
    out_iso: Vec<Vec<u8>>,
    notices: Vec<Notice>,
}

fn drain(p: &mut ProxyState, sink: &mut Sink) {
    while let Some((_h, bytes)) = p.pull_iso() {
        sink.out_iso.push(bytes);
    }
}

fn out_cmd(p: &mut ProxyState, sink: &mut Sink, data: &[u8]) {
    match p.out_cmd(data).unwrap() {
        CmdAction::Forward => sink.out_cmd.push(data.to_vec()),
        CmdAction::ForwardRewritten(b) => sink.out_cmd.push(b),
    }
    drain(p, sink);
}

fn in_evt(p: &mut ProxyState, sink: &mut Sink, data: &[u8]) {
    let out = p.in_evt(data).unwrap();
    match out.action {
        EvtAction::Forward => sink.in_evt.push(data.to_vec()),
        EvtAction::ForwardRewritten(b) => sink.in_evt.push(b),
        EvtAction::Suppress => (),
    }
    for n in out.notices {
        sink.notices.push(n);
    }
    drain(p, sink);
}

fn out_iso(p: &mut ProxyState, sink: &mut Sink, data: &[u8]) {
    p.out_iso(data).unwrap();
    drain(p, sink);
}

fn push_audio(p: &mut ProxyState, sink: &mut Sink, d: &IsoData) {
    p.push_audio_iso(d).unwrap();
    drain(p, sink);
}

fn reset_complete() -> Vec<u8> {
    CommandComplete {
        num_hci_command_packets: 0,
        return_parameters: ReturnParameters::Reset(ResetComplete { status: Status::Success }),
    }
    .to_bytes()
}

fn buffer_size_v2(iso_len: u16, iso_count: u8) -> Vec<u8> {
    CommandComplete {
        num_hci_command_packets: 0,
        return_parameters: ReturnParameters::LeReadBufferSizeV2(LeReadBufferSizeV2Complete {
            status: Status::Success,
            le_acl_data_packet_length: 0,
            total_num_le_acl_data_packets: 0,
            iso_data_packet_length: iso_len,
            total_num_iso_data_packets: iso_count,
        }),
    }
    .to_bytes()
}

fn set_cig(cig_id: u8, max_sdu: &[u16]) -> Vec<u8> {
    LeSetCigParameters {
        cig_id,
        sdu_interval_c_to_p: 10_000,
        sdu_interval_p_to_c: 10_000,
        worst_case_sca: 0,
        packing: 0,
        framing: 0,
        max_transport_latency_c_to_p: 0,
        max_transport_latency_p_to_c: 0,
        cis: max_sdu
            .iter()
            .enumerate()
            .map(|(i, &m)| LeCisInCigParameters {
                cis_id: i as u8,
                max_sdu_c_to_p: m,
                max_sdu_p_to_c: m,
                phy_c_to_p: 0,
                phy_p_to_c: 0,
                rtn_c_to_p: 0,
                rtn_p_to_c: 0,
            })
            .collect(),
    }
    .to_bytes()
}

fn set_cig_complete(cig_id: u8, handles: Vec<u16>) -> Vec<u8> {
    CommandComplete {
        num_hci_command_packets: 0,
        return_parameters: ReturnParameters::LeSetCigParameters(LeSetCigParametersComplete {
            status: Status::Success,
            cig_id,
            connection_handles: handles,
        }),
    }
    .to_bytes()
}

fn cis_established(handle: u16) -> Vec<u8> {
    LeCisEstablished {
        status: Status::Success,
        connection_handle: handle,
        cig_sync_delay: 0,
        cis_sync_delay: 0,
        transport_latency_c_to_p: 0,
        transport_latency_p_to_c: 0,
        phy_c_to_p: 0x02,
        phy_p_to_c: 0x02,
        nse: 0,
        bn_c_to_p: 2,
        bn_p_to_c: 2,
        ft_c_to_p: 1,
        ft_p_to_c: 1,
        max_pdu_c_to_p: 10,
        max_pdu_p_to_c: 0,
        iso_interval: 20_000 / 1250,
    }
    .to_bytes()
}

fn setup_data_path(handle: u16, data_path_id: u8) -> Vec<u8> {
    LeSetupIsoDataPath {
        connection_handle: handle,
        data_path_direction: LeDataPathDirection::Input,
        data_path_id,
        codec_id: LeCodecId {
            coding_format: CodingFormat::Transparent,
            company_id: 0,
            vendor_id: 0,
        },
        controller_delay: 0,
        codec_configuration: vec![],
    }
    .to_bytes()
}

fn setup_data_path_complete(handle: u16) -> Vec<u8> {
    CommandComplete {
        num_hci_command_packets: 0,
        return_parameters: ReturnParameters::LeSetupIsoDataPath(LeIsoDataPathComplete {
            status: Status::Success,
            connection_handle: handle,
        }),
    }
    .to_bytes()
}

fn ncp(entries: &[(u16, u16)]) -> Vec<u8> {
    NumberOfCompletedPackets {
        handles: entries
            .iter()
            .map(|&(h, n)| NumberOfCompletedPacketsHandle {
                connection_handle: h,
                num_completed_packets: n,
            })
            .collect(),
    }
    .to_bytes()
}

fn disconnect(handle: u16) -> Vec<u8> {
    DisconnectionComplete { status: Status::Success, connection_handle: handle, reason: 0 }
        .to_bytes()
}

#[test]
fn cig() {
    let mut p = ProxyState::new();
    let mut sink = Sink::default();

    in_evt(&mut p, &mut sink, &reset_complete());
    in_evt(&mut p, &mut sink, &buffer_size_v2(16, 2));
    out_cmd(&mut p, &mut sink, &set_cig(0x01, &[120, 150]));
    in_evt(&mut p, &mut sink, &set_cig_complete(0x01, vec![0x123, 0x456]));
    in_evt(&mut p, &mut sink, &cis_established(0x456));
    out_cmd(&mut p, &mut sink, &setup_data_path(0x456, 0));
    in_evt(&mut p, &mut sink, &setup_data_path_complete(0x456));
    assert!(sink.notices.iter().all(|n| !matches!(n, Notice::StartStream(..))));

    out_iso(&mut p, &mut sink, &IsoData::new(0x456, 0, vec![0x00, 0x11]).to_bytes());
    out_iso(&mut p, &mut sink, &IsoData::new(0x456, 1, vec![]).to_bytes());
    assert_eq!(sink.out_iso.len(), 2);

    in_evt(&mut p, &mut sink, &ncp(&[(0x456, 1)]));
    out_iso(&mut p, &mut sink, &IsoData::new(0x456, 2, vec![0x22]).to_bytes());
    assert_eq!(sink.out_iso.len(), 3);

    in_evt(&mut p, &mut sink, &cis_established(0x123));
    in_evt(&mut p, &mut sink, &ncp(&[(0x456, 1)]));
    out_iso(&mut p, &mut sink, &IsoData::new(0x123, 0, vec![]).to_bytes());
    assert_eq!(sink.out_iso.len(), 4);

    in_evt(&mut p, &mut sink, &disconnect(0x456));
    out_iso(&mut p, &mut sink, &IsoData::new(0x456, 3, vec![0x33]).to_bytes());
    out_iso(&mut p, &mut sink, &IsoData::new(0x123, 1, vec![0x11, 0x22]).to_bytes());
    assert_eq!(sink.out_iso.len(), 5);

    assert_eq!(sink.out_cmd.len(), 2);
    assert_eq!(sink.in_evt.len(), 9);
}

#[test]
fn big() {
    let mut p = ProxyState::new();
    let mut sink = Sink::default();

    in_evt(&mut p, &mut sink, &reset_complete());
    in_evt(&mut p, &mut sink, &buffer_size_v2(16, 2));
    out_cmd(
        &mut p,
        &mut sink,
        &LeCreateBig {
            big_handle: 0x10,
            advertising_handle: 0,
            num_bis: 2,
            sdu_interval: 10_000,
            max_sdu: 120,
            max_transport_latency: 0,
            rtn: 5,
            phy: 0x02,
            packing: 0,
            framing: 0,
            encryption: 0,
            broadcast_code: vec![0u8; 16],
        }
        .to_bytes(),
    );
    in_evt(
        &mut p,
        &mut sink,
        &LeCreateBigComplete {
            status: Status::Success,
            big_handle: 0x10,
            big_sync_delay: 0,
            big_transport_latency: 0,
            phy: 0x02,
            nse: 0,
            bn: 2,
            pto: 0,
            irc: 0,
            max_pdu: 10,
            iso_interval: 20_000 / 1250,
            bis_handles: vec![0x123, 0x456],
        }
        .to_bytes(),
    );
    out_cmd(&mut p, &mut sink, &setup_data_path(0x123, 0));
    in_evt(&mut p, &mut sink, &setup_data_path_complete(0x123));
    out_cmd(&mut p, &mut sink, &setup_data_path(0x456, 0));
    in_evt(&mut p, &mut sink, &setup_data_path_complete(0x456));

    out_iso(&mut p, &mut sink, &IsoData::new(0x456, 0, vec![0x00, 0x11]).to_bytes());
    out_iso(&mut p, &mut sink, &IsoData::new(0x456, 1, vec![]).to_bytes());
    assert_eq!(sink.out_iso.len(), 2);

    in_evt(&mut p, &mut sink, &ncp(&[(0x456, 2)]));
    out_iso(&mut p, &mut sink, &IsoData::new(0x123, 0, vec![0x22, 0x33]).to_bytes());
    out_iso(&mut p, &mut sink, &IsoData::new(0x456, 2, vec![]).to_bytes());
    assert_eq!(sink.out_iso.len(), 4);

    in_evt(&mut p, &mut sink, &ncp(&[(0x456, 1), (0x123, 1)]));
    out_iso(&mut p, &mut sink, &IsoData::new(0x123, 1, vec![0x44]).to_bytes());
    out_iso(&mut p, &mut sink, &IsoData::new(0x123, 2, vec![0x55, 0x66]).to_bytes());
    assert_eq!(sink.out_iso.len(), 6);

    in_evt(&mut p, &mut sink, &ncp(&[(0x123, 2)]));
    out_iso(&mut p, &mut sink, &IsoData::new(0x123, 3, vec![]).to_bytes());
    out_iso(&mut p, &mut sink, &IsoData::new(0x123, 4, vec![]).to_bytes());
    assert_eq!(sink.out_iso.len(), 8);

    assert_eq!(sink.out_cmd.len(), 3);
    assert_eq!(sink.in_evt.len(), 8);
}

#[test]
fn merge() {
    let mut p = ProxyState::new();
    let mut sink = Sink::default();

    in_evt(&mut p, &mut sink, &reset_complete());
    in_evt(&mut p, &mut sink, &buffer_size_v2(16, 2));
    out_cmd(&mut p, &mut sink, &set_cig(0x01, &[120, 150]));
    in_evt(&mut p, &mut sink, &set_cig_complete(0x01, vec![0x123, 0x456]));

    // Establish CIS 0x123, using the software offload path
    // Establish CIS 0x456, using the HCI (stack) path

    in_evt(&mut p, &mut sink, &cis_established(0x123));
    in_evt(&mut p, &mut sink, &cis_established(0x456));
    out_cmd(&mut p, &mut sink, &setup_data_path(0x123, 0x19));
    in_evt(&mut p, &mut sink, &setup_data_path_complete(0x123));
    out_cmd(&mut p, &mut sink, &setup_data_path(0x456, 0));
    in_evt(&mut p, &mut sink, &setup_data_path_complete(0x456));

    assert_eq!(sink.out_cmd.len(), 3);
    assert_eq!(sink.in_evt.len(), 7);
    // the offload setup went downstream with its path id rewritten to HCI
    assert_eq!(sink.out_cmd[1], setup_data_path(0x123, 0));
    sink.out_cmd.clear();
    sink.in_evt.clear();

    // Send 2 packets on 0x123: sent to the controller, filling the FIFO

    push_audio(&mut p, &mut sink, &IsoData::new(0x123, 1, vec![0x44]));
    push_audio(&mut p, &mut sink, &IsoData::new(0x123, 2, vec![0x55, 0x66]));
    assert_eq!(sink.out_iso.len(), 2);

    // Send 2 packets on 0x456: buffered, the controller FIFO is full

    out_iso(&mut p, &mut sink, &IsoData::new(0x456, 1, vec![0x11]).to_bytes());
    out_iso(&mut p, &mut sink, &IsoData::new(0x456, 2, vec![0x22, 0x33]).to_bytes());
    assert_eq!(sink.out_iso.len(), 2);

    // Acknowledge packet 1 on 0x123: the acknowledgment is filtered and
    // packet 1 on 0x456 is transmitted

    in_evt(&mut p, &mut sink, &ncp(&[(0x123, 1)]));
    assert_eq!(sink.in_evt.len(), 0);
    assert_eq!(sink.out_iso.len(), 3);
    assert_eq!(sink.out_iso[2], IsoData::new(0x456, 1, vec![0x11]).to_bytes());

    // Link 0x123 disconnects (implicitly acknowledging packet 2 on 0x123):
    // packet 2 on 0x456 is transmitted

    in_evt(&mut p, &mut sink, &disconnect(0x123));
    assert_eq!(sink.out_iso.len(), 4);
    assert_eq!(sink.out_iso[3], IsoData::new(0x456, 2, vec![0x22, 0x33]).to_bytes());

    // Send packets and acknowledge packets 1 and 2 on 0x456. Connection
    // 0x123 is disconnected, so its pushes are ignored; packets 3 and 4 on
    // 0x456 are sent and packet 5 is buffered.

    out_iso(&mut p, &mut sink, &IsoData::new(0x456, 3, vec![0x33]).to_bytes());
    push_audio(&mut p, &mut sink, &IsoData::new(0x123, 3, vec![0x33]));
    push_audio(&mut p, &mut sink, &IsoData::new(0x123, 4, vec![0x44, 0x55]));
    out_iso(&mut p, &mut sink, &IsoData::new(0x456, 4, vec![0x44, 0x55]).to_bytes());
    out_iso(&mut p, &mut sink, &IsoData::new(0x456, 5, vec![0x55, 0x66]).to_bytes());
    assert_eq!(sink.out_iso.len(), 4);

    in_evt(&mut p, &mut sink, &ncp(&[(0x456, 2)]));
    assert_eq!(sink.in_evt.pop(), Some(ncp(&[(0x456, 2)])));
    assert_eq!(sink.in_evt.len(), 1);
    sink.in_evt.clear();
    assert_eq!(sink.out_iso.len(), 6);
    assert_eq!(sink.out_iso[4], IsoData::new(0x456, 3, vec![0x33]).to_bytes());
    assert_eq!(sink.out_iso[5], IsoData::new(0x456, 4, vec![0x44, 0x55]).to_bytes());

    // Re-establish CIS 0x123, using the software offload path

    in_evt(&mut p, &mut sink, &cis_established(0x123));
    out_cmd(&mut p, &mut sink, &setup_data_path(0x123, 0x19));
    in_evt(&mut p, &mut sink, &setup_data_path_complete(0x123));

    // Acknowledge packets 3 and 4 on 0x456: packet 5 on 0x456 is sent

    in_evt(&mut p, &mut sink, &ncp(&[(0x456, 2)]));
    assert_eq!(sink.in_evt.pop(), Some(ncp(&[(0x456, 2)])));
    assert_eq!(sink.out_iso.len(), 7);
    assert_eq!(sink.out_iso[6], IsoData::new(0x456, 5, vec![0x55, 0x66]).to_bytes());
    sink.out_cmd.clear();
    sink.in_evt.clear();

    // Acknowledge packet 5 on 0x456: the controller FIFO is now empty

    in_evt(&mut p, &mut sink, &ncp(&[(0x456, 1)]));
    assert_eq!(sink.in_evt.pop(), Some(ncp(&[(0x456, 1)])));

    // Send one packet on each CIS and acknowledge both: CIS 0x123 is
    // removed from the forwarded completion event

    out_iso(&mut p, &mut sink, &IsoData::new(0x123, 0, vec![]).to_bytes());
    push_audio(&mut p, &mut sink, &IsoData::new(0x456, 6, vec![0x66, 0x77]));
    assert_eq!(sink.out_iso.len(), 9);
    for pkt in &sink.out_iso[7..9] {
        assert!(
            *pkt == IsoData::new(0x123, 0, vec![]).to_bytes()
                || *pkt == IsoData::new(0x456, 6, vec![0x66, 0x77]).to_bytes()
        );
    }

    in_evt(&mut p, &mut sink, &ncp(&[(0x456, 1), (0x123, 1)]));
    assert_eq!(sink.in_evt.pop(), Some(ncp(&[(0x456, 1)])));
}

#[test]
fn offload_setup_reports_stream_start_and_stop() {
    let mut p = ProxyState::new();
    let mut sink = Sink::default();

    in_evt(&mut p, &mut sink, &reset_complete());
    in_evt(&mut p, &mut sink, &buffer_size_v2(16, 2));
    assert_eq!(sink.notices, vec![Notice::ArbiterReset]);
    out_cmd(&mut p, &mut sink, &set_cig(0x01, &[120, 150]));
    in_evt(&mut p, &mut sink, &set_cig_complete(0x01, vec![0x123, 0x456]));
    in_evt(&mut p, &mut sink, &cis_established(0x123));
    out_cmd(&mut p, &mut sink, &setup_data_path(0x123, 0x19));
    in_evt(&mut p, &mut sink, &setup_data_path_complete(0x123));

    // the established stream reports its parameters to the offload client
    assert_eq!(sink.notices.len(), 2);
    let Notice::StartStream(h, config) = sink.notices[1] else { panic!() };
    assert_eq!(h, 0x123);
    assert_eq!(config.iso_interval_us, 20_000);
    assert_eq!(config.sdu_interval_us, 10_000);
    assert_eq!(config.max_sdu_size, 120);
    assert_eq!(config.flush_timeout, 1);

    // removing the data path reports the stop
    let remove = bluetooth_offload::command::LeRemoveIsoDataPath {
        connection_handle: 0x123,
        data_path_direction: 1,
    }
    .to_bytes();
    out_cmd(&mut p, &mut sink, &remove);
    let complete = CommandComplete {
        num_hci_command_packets: 0,
        return_parameters: ReturnParameters::LeRemoveIsoDataPath(LeIsoDataPathComplete {
            status: Status::Success,
            connection_handle: 0x123,
        }),
    }
    .to_bytes();
    in_evt(&mut p, &mut sink, &complete);
    assert_eq!(sink.notices.len(), 3);
    assert_eq!(sink.notices[2], Notice::StopStream(0x123));
}

#[test]
fn remove_cig_drops_the_group() {
    let mut p = ProxyState::new();
    let mut sink = Sink::default();

    in_evt(&mut p, &mut sink, &reset_complete());
    in_evt(&mut p, &mut sink, &buffer_size_v2(16, 2));
    out_cmd(&mut p, &mut sink, &set_cig(0x01, &[120]));
    let remove_complete = CommandComplete {
        num_hci_command_packets: 0,
        return_parameters: ReturnParameters::LeRemoveCig(LeRemoveCigComplete {
            status: Status::Success,
            cig_id: 0x01,
        }),
    }
    .to_bytes();
    in_evt(&mut p, &mut sink, &remove_complete);
    // the CIG is gone: its completion and any CIS establishment for its
    // handles are protocol violations
    assert!(p.in_evt(&set_cig_complete(0x01, vec![0x123])).is_err());
    assert!(p.in_evt(&cis_established(0x123)).is_err());
}

#[test]
fn terminate_big_unregisters_all_streams() {
    let mut p = ProxyState::new();
    let mut sink = Sink::default();

    in_evt(&mut p, &mut sink, &reset_complete());
    in_evt(&mut p, &mut sink, &buffer_size_v2(16, 4));
    out_cmd(
        &mut p,
        &mut sink,
        &LeCreateBig {
            big_handle: 0x10,
            advertising_handle: 0,
            num_bis: 2,
            sdu_interval: 10_000,
            max_sdu: 120,
            max_transport_latency: 0,
            rtn: 5,
            phy: 0x02,
            packing: 0,
            framing: 0,
            encryption: 0,
            broadcast_code: vec![0u8; 16],
        }
        .to_bytes(),
    );
    in_evt(
        &mut p,
        &mut sink,
        &LeCreateBigComplete {
            status: Status::Success,
            big_handle: 0x10,
            big_sync_delay: 0,
            big_transport_latency: 0,
            phy: 0x02,
            nse: 0,
            bn: 2,
            pto: 0,
            irc: 0,
            max_pdu: 10,
            iso_interval: 20_000 / 1250,
            bis_handles: vec![0x123, 0x456],
        }
        .to_bytes(),
    );
    out_iso(&mut p, &mut sink, &IsoData::new(0x123, 0, vec![0x01]).to_bytes());
    assert_eq!(sink.out_iso.len(), 1);

    let terminate = LeTerminateBigComplete { big_handle: 0x10, reason: 0x16 }.to_bytes();
    in_evt(&mut p, &mut sink, &terminate);

    // both BIS handles are gone: pushes for them are silently dropped
    out_iso(&mut p, &mut sink, &IsoData::new(0x123, 1, vec![0x02]).to_bytes());
    out_iso(&mut p, &mut sink, &IsoData::new(0x456, 0, vec![0x03]).to_bytes());
    assert_eq!(sink.out_iso.len(), 1);
}

#[test]
fn create_cis_command_passes_through() {
    let mut p = ProxyState::new();
    let mut sink = Sink::default();
    let cmd = LeCreateCis {
        connection_handles: vec![bluetooth_offload::command::CisAclConnectionHandle {
            cis: 0x60,
            acl: 0x40,
        }],
    }
    .to_bytes();
    out_cmd(&mut p, &mut sink, &cmd);
    assert_eq!(sink.out_cmd, vec![cmd]);
}
