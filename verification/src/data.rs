//! HCI ISO data packets.
//!
//! An ISO data packet is a packed first word (12-bit connection handle,
//! 2-bit packet-boundary flag, 1-bit timestamp flag), a 14-bit data length,
//! an SDU header on first fragments, and the payload. The declared data
//! length equals the SDU-header bytes plus the payload bytes. Every decoded
//! packet re-serializes to the exact bytes it was parsed from.

use vstd::prelude::*;

use crate::reader::Reader;
use crate::wire::{le16, le32, val16, val32};
use crate::wire::{lemma_val16_le16, lemma_val32_le32};
use crate::writer::Writer;

verus! {

/// Exchange of isochronous data between the host and the controller.
#[derive(Debug)]
pub struct IsoData {
    /// Handle of the CIS or BIS the packet belongs to (12 bits).
    pub connection_handle: u16,
    /// Where this packet stands in the fragmentation of its SDU.
    pub sdu_fragment: IsoSduFragment,
    /// The payload bytes.
    pub payload: Vec<u8>,
}

/// Fragmentation indication of the SDU.
#[derive(Debug)]
pub enum IsoSduFragment {
    /// First fragment of an SDU.
    First {
        /// The SDU header carried on first fragments.
        hdr: IsoSduHeader,
        /// Whether this fragment is also the last.
        is_last: bool,
    },
    /// Continuation fragment of an SDU.
    Continue {
        /// Whether this fragment is the last.
        is_last: bool,
    },
}

/// SDU header carried on first fragments.
#[derive(Debug)]
pub struct IsoSduHeader {
    /// Timestamp in microseconds, where the packet carries one.
    pub timestamp: Option<u32>,
    /// Sequence number of the SDU.
    pub sequence_number: u16,
    /// Total length of the SDU over all its fragments (12 bits).
    pub sdu_length: u16,
    /// Delivery status; zero means valid data (2 bits).
    pub status: u16,
}

/// The packet-boundary flag of a fragment: first/continuation in the low
/// bit pair position, last-fragment in the high one.
pub open spec fn pb_flag(frag: &IsoSduFragment) -> u16 {
    match *frag {
        IsoSduFragment::First { hdr: _, is_last } => if is_last {
            0b10
        } else {
            0b00
        },
        IsoSduFragment::Continue { is_last } => if is_last {
            0b11
        } else {
            0b01
        },
    }
}

/// The timestamp flag of a fragment: one when a first fragment carries one.
pub open spec fn ts_flag(frag: &IsoSduFragment) -> u16 {
    match *frag {
        IsoSduFragment::First { ref hdr, .. } => if hdr.timestamp is Some {
            1
        } else {
            0
        },
        IsoSduFragment::Continue { .. } => 0,
    }
}

/// How many bytes the SDU header of a fragment occupies.
pub open spec fn sdu_header_len(frag: &IsoSduFragment) -> int {
    match *frag {
        IsoSduFragment::First { ref hdr, .. } => if hdr.timestamp is Some {
            8
        } else {
            4
        },
        IsoSduFragment::Continue { .. } => 0,
    }
}

/// The wire bytes of the SDU header of a fragment.
pub open spec fn sdu_header_bytes(frag: &IsoSduFragment) -> Seq<u8> {
    match *frag {
        IsoSduFragment::First { ref hdr, .. } => (match hdr.timestamp {
            Option::Some(t) => le32(t),
            Option::None => Seq::empty(),
        }) + le16(hdr.sequence_number) + le16((hdr.sdu_length + hdr.status * 0x4000) as u16),
        IsoSduFragment::Continue { .. } => Seq::empty(),
    }
}

/// The SDU header of a first fragment is well formed.
pub open spec fn sdu_fragment_wf(frag: &IsoSduFragment) -> bool {
    match *frag {
        IsoSduFragment::First { ref hdr, .. } => hdr.sdu_length < 0x1000 && hdr.status < 4,
        IsoSduFragment::Continue { .. } => true,
    }
}

impl IsoData {
    /// The fields fit their bitfields and the declared length fits 14 bits.
    pub open spec fn wf(&self) -> bool {
        &&& self.connection_handle < 0x1000
        &&& sdu_fragment_wf(&self.sdu_fragment)
        &&& sdu_header_len(&self.sdu_fragment) + self.payload@.len() < 0x4000
    }

    /// The exact bytes of this packet on the wire.
    pub open spec fn spec_bytes(&self) -> Seq<u8> {
        le16(
            (self.connection_handle + pb_flag(&self.sdu_fragment) * 0x1000 + ts_flag(
                &self.sdu_fragment,
            ) * 0x4000) as u16,
        ) + le16((sdu_header_len(&self.sdu_fragment) + self.payload@.len()) as u16)
            + sdu_header_bytes(&self.sdu_fragment) + self.payload@
    }

    /// New ISO data packet carrying one complete SDU without a timestamp.
    pub fn new(connection_handle: u16, sequence_number: u16, data: Vec<u8>) -> (r: IsoData)
        requires
            connection_handle < 0x1000,
            data@.len() < 0x1000,
        ensures
            r.wf(),
            r.connection_handle == connection_handle,
            r.payload@ == data@,
            r.sdu_fragment == (IsoSduFragment::First {
                hdr: IsoSduHeader {
                    timestamp: None,
                    sequence_number,
                    sdu_length: data@.len() as u16,
                    status: 0,
                },
                is_last: true,
            }),
    {
        let sdu_length = data.len() as u16;
        IsoData {
            connection_handle,
            sdu_fragment: IsoSduFragment::First {
                hdr: IsoSduHeader { timestamp: None, sequence_number, sdu_length, status: 0 },
                is_last: true,
            },
            payload: data,
        }
    }

    /// Output the HCI ISO data packet.
    pub fn to_bytes(&self) -> (r: Vec<u8>)
        requires
            self.wf(),
        ensures
            r@ == self.spec_bytes(),
    {
        let mut w = Writer::new(Vec::new());
        let (pb, ts): (u16, u16) = match &self.sdu_fragment {
            IsoSduFragment::First { hdr, is_last } => {
                let ts: u16 = match hdr.timestamp {
                    Some(_) => 1,
                    None => 0,
                };
                (if *is_last {
                    0b10
                } else {
                    0b00
                }, ts)
            },
            IsoSduFragment::Continue { is_last } => (
                if *is_last {
                    0b11
                } else {
                    0b01
                },
                0,
            ),
        };
        w.write_u16(self.connection_handle + pb * 0x1000 + ts * 0x4000);
        let hdr_len: usize = match &self.sdu_fragment {
            IsoSduFragment::First { hdr, .. } => match hdr.timestamp {
                Some(_) => 8,
                None => 4,
            },
            IsoSduFragment::Continue { .. } => 0,
        };
        w.write_u16((hdr_len + self.payload.len()) as u16);
        match &self.sdu_fragment {
            IsoSduFragment::First { hdr, .. } => {
                match hdr.timestamp {
                    Some(t) => w.write_u32(t),
                    None => (),
                }
                w.write_u16(hdr.sequence_number);
                w.write_u16(hdr.sdu_length + hdr.status * 0x4000);
            },
            IsoSduFragment::Continue { .. } => (),
        }
        w.put(self.payload.as_slice());
        let r = w.into_vec();
        proof {
            assert(r@ =~= self.spec_bytes());
        }
        r
    }

    /// Read an HCI ISO data packet.
    ///
    /// A packet that decodes is exactly the serialization of the value it
    /// decodes to: the reserved bits are zero and the declared data length
    /// covers the SDU header and the payload to the end of the input.
    pub fn from_bytes(data: &[u8]) -> (res: Option<IsoData>)
        ensures
            match res {
                Some(p) => p.wf() && p.spec_bytes() == data@,
                None => forall|p: IsoData| p.wf() ==> p.spec_bytes() != data@,
            },
    {
        let mut r = Reader::new(data);
        let w1 = match r.read_u16() {
            Some(v) => v,
            None => {
                proof {
                assert forall|p: IsoData| p.wf() implies p.spec_bytes() != data@ by {
                    if p.spec_bytes() == data@ {
                        lemma_match_header(p, data@);
                    }
                }
            }
            return None;
            },
        };
        let connection_handle = w1 % 0x1000;
        let pb = (w1 / 0x1000) % 4;
        let ts = (w1 / 0x4000) % 2;
        if w1 / 0x8000 != 0 {
            proof {
                assert forall|p: IsoData| p.wf() implies p.spec_bytes() != data@ by {
                    if p.spec_bytes() == data@ {
                        lemma_match_header(p, data@);
                    }
                }
            }
            return None;
        }
        let w2 = match r.read_u16() {
            Some(v) => v,
            None => {
                proof {
                assert forall|p: IsoData| p.wf() implies p.spec_bytes() != data@ by {
                    if p.spec_bytes() == data@ {
                        lemma_match_header(p, data@);
                    }
                }
            }
            return None;
            },
        };
        let data_len = w2 % 0x4000;
        if w2 / 0x4000 != 0 {
            proof {
                assert forall|p: IsoData| p.wf() implies p.spec_bytes() != data@ by {
                    if p.spec_bytes() == data@ {
                        lemma_match_header(p, data@);
                    }
                }
            }
            return None;
        }
        let sdu_fragment = if pb == 0b00 || pb == 0b10 {
            let timestamp = if ts == 1 {
                match r.read_u32() {
                    Some(t) => Some(t),
                    None => {
                        proof {
                            assert forall|p: IsoData| p.wf() implies p.spec_bytes() != data@ by {
                                if p.spec_bytes() == data@ {
                                    lemma_match_header(p, data@);
                                }
                            }
                        }
                        return None;
                    },
                }
            } else {
                None
            };
            let sequence_number = match r.read_u16() {
                Some(v) => v,
                None => {
                    return None;
                },
            };
            let w3 = match r.read_u16() {
                Some(v) => v,
                None => {
                    return None;
                },
            };
            let sdu_length = w3 % 0x1000;
            if (w3 / 0x1000) % 4 != 0 {
                proof {
                    assert forall|p: IsoData| p.wf() implies p.spec_bytes() != data@ by {
                        if p.spec_bytes() == data@ {
                            lemma_match_header(p, data@);
                        }
                    }
                }
                return None;
            }
            let status = w3 / 0x4000;
            IsoSduFragment::First {
                hdr: IsoSduHeader { timestamp, sequence_number, sdu_length, status },
                is_last: pb == 0b10,
            }
        } else {
            if ts != 0 {
                proof {
                    assert forall|p: IsoData| p.wf() implies p.spec_bytes() != data@ by {
                        if p.spec_bytes() == data@ {
                            lemma_match_header(p, data@);
                        }
                    }
                }
                return None;
            }
            IsoSduFragment::Continue { is_last: pb == 0b11 }
        };
        let hdr_len: usize = match &sdu_fragment {
            IsoSduFragment::First { hdr, .. } => match hdr.timestamp {
                Some(_) => 8,
                None => 4,
            },
            IsoSduFragment::Continue { .. } => 0,
        };
        if (data_len as usize) < hdr_len {
            proof {
                assert forall|p: IsoData| p.wf() implies p.spec_bytes() != data@ by {
                    if p.spec_bytes() == data@ {
                        lemma_match_header(p, data@);
                    }
                }
            }
            return None;
        }
        let payload = match r.read_vec(data_len as usize - hdr_len) {
            Some(v) => v,
            None => {
                proof {
                assert forall|p: IsoData| p.wf() implies p.spec_bytes() != data@ by {
                    if p.spec_bytes() == data@ {
                        lemma_match_header(p, data@);
                    }
                }
            }
            return None;
            },
        };
        if r.remaining() != 0 {
            proof {
                assert forall|p: IsoData| p.wf() implies p.spec_bytes() != data@ by {
                    if p.spec_bytes() == data@ {
                        lemma_match_header(p, data@);
                    }
                }
            }
            return None;
        }
        let res = IsoData { connection_handle, sdu_fragment, payload };
        proof {
            assert(w1 == res.connection_handle + pb_flag(&res.sdu_fragment) * 0x1000 + ts_flag(
                &res.sdu_fragment,
            ) * 0x4000) by {
                assert(w1 % 0x1000 + ((w1 / 0x1000) % 4) * 0x1000 + ((w1 / 0x4000) % 2) * 0x4000
                    + (w1 / 0x8000) * 0x8000 == w1) by (bit_vector);
            }
            assert(w2 == sdu_header_len(&res.sdu_fragment) + res.payload@.len());
            assert(res.spec_bytes() =~= data@);
        }
        Some(res)
    }
}


/// Unpacking the packed first word of a packet recovers its fields.
pub proof fn lemma_word_unpack(w: u16, h: u16, pb: u16, ts: u16)
    requires
        h < 0x1000,
        pb < 4,
        ts < 2,
        w == h + pb * 0x1000 + ts * 0x4000,
    ensures
        w % 0x1000 == h,
        (w / 0x1000) % 4 == pb,
        (w / 0x4000) % 2 == ts,
        w / 0x8000 == 0,
{
    assert(w % 0x1000 == h && (w / 0x1000) % 4 == pb && (w / 0x4000) % 2 == ts && w / 0x8000
        == 0) by (bit_vector)
        requires
            h < 0x1000,
            pb < 4,
            ts < 2,
            w == h + pb * 0x1000 + ts * 0x4000,
    ;
}

/// Unpacking the packed SDU-header word recovers its fields, with the
/// reserved bits zero.
pub proof fn lemma_sdu_word_unpack(w: u16, sdu: u16, status: u16)
    requires
        sdu < 0x1000,
        status < 4,
        w == sdu + status * 0x4000,
    ensures
        w % 0x1000 == sdu,
        (w / 0x1000) % 4 == 0,
        w / 0x4000 == status,
{
    assert(w % 0x1000 == sdu && (w / 0x1000) % 4 == 0 && w / 0x4000 == status) by (bit_vector)
        requires
            sdu < 0x1000,
            status < 4,
            w == sdu + status * 0x4000,
    ;
}

/// What every serialization carries at fixed offsets: its length, the
/// packed first word, the declared data length, and on first fragments
/// the SDU header fields.
pub proof fn lemma_spec_bytes_fields(p: IsoData)
    requires
        p.wf(),
    ensures
        p.spec_bytes().len() == 4 + sdu_header_len(&p.sdu_fragment) + p.payload@.len(),
        val16(p.spec_bytes()[0], p.spec_bytes()[1]) == p.connection_handle + pb_flag(
            &p.sdu_fragment,
        ) * 0x1000 + ts_flag(&p.sdu_fragment) * 0x4000,
        val16(p.spec_bytes()[2], p.spec_bytes()[3]) == sdu_header_len(&p.sdu_fragment)
            + p.payload@.len(),
        p.sdu_fragment matches IsoSduFragment::First { hdr, .. } ==> {
            let b = p.spec_bytes();
            let t = sdu_header_len(&p.sdu_fragment) - 4;
            &&& (hdr.timestamp matches Option::Some(tv) ==> val32(b[4], b[5], b[6], b[7]) == tv)
            &&& val16(b[4 + t], b[5 + t]) == hdr.sequence_number
            &&& val16(b[6 + t], b[7 + t]) == (hdr.sdu_length + hdr.status * 0x4000) as u16
        },
{
    let b = p.spec_bytes();
    let w1: u16 = (p.connection_handle + pb_flag(&p.sdu_fragment) * 0x1000 + ts_flag(
        &p.sdu_fragment,
    ) * 0x4000) as u16;
    let w2: u16 = (sdu_header_len(&p.sdu_fragment) + p.payload@.len()) as u16;
    lemma_val16_le16(w1);
    lemma_val16_le16(w2);
    assert(b[0] == le16(w1)[0] && b[1] == le16(w1)[1]);
    assert(b[2] == le16(w2)[0] && b[3] == le16(w2)[1]);
    match p.sdu_fragment {
        IsoSduFragment::First { hdr, .. } => {
            let t = sdu_header_len(&p.sdu_fragment) - 4;
            let w3: u16 = (hdr.sdu_length + hdr.status * 0x4000) as u16;
            lemma_val16_le16(hdr.sequence_number);
            lemma_val16_le16(w3);
            match hdr.timestamp {
                Option::Some(tv) => {
                    lemma_val32_le32(tv);
                    assert(b[4] == le32(tv)[0] && b[5] == le32(tv)[1] && b[6] == le32(tv)[2] && b[7]
                        == le32(tv)[3]);
                    assert(b[4 + t] == le16(hdr.sequence_number)[0] && b[5 + t] == le16(
                        hdr.sequence_number,
                    )[1]);
                    assert(b[6 + t] == le16(w3)[0] && b[7 + t] == le16(w3)[1]);
                },
                Option::None => {
                    assert(b[4 + t] == le16(hdr.sequence_number)[0] && b[5 + t] == le16(
                        hdr.sequence_number,
                    )[1]);
                    assert(b[6 + t] == le16(w3)[0] && b[7 + t] == le16(w3)[1]);
                },
            }
        },
        IsoSduFragment::Continue { .. } => {},
    }
}


/// A well-formed packet whose serialization is the input pins every
/// header field the parser reads, at the offsets it reads them.
proof fn lemma_match_header(p: IsoData, data: Seq<u8>)
    requires
        p.wf(),
        p.spec_bytes() == data,
    ensures
        data.len() == 4 + sdu_header_len(&p.sdu_fragment) + p.payload@.len(),
        val16(data[0], data[1]) == p.connection_handle + pb_flag(&p.sdu_fragment) * 0x1000
            + ts_flag(&p.sdu_fragment) * 0x4000,
        val16(data[0], data[1]) % 0x1000 == p.connection_handle,
        (val16(data[0], data[1]) / 0x1000) % 4 == pb_flag(&p.sdu_fragment),
        (val16(data[0], data[1]) / 0x4000) % 2 == ts_flag(&p.sdu_fragment),
        val16(data[0], data[1]) / 0x8000 == 0,
        val16(data[2], data[3]) == sdu_header_len(&p.sdu_fragment) + p.payload@.len(),
        val16(data[2], data[3]) / 0x4000 == 0,
        p.sdu_fragment matches IsoSduFragment::First { hdr, .. } ==> {
            let t = sdu_header_len(&p.sdu_fragment) - 4;
            &&& val16(data[6 + t], data[7 + t]) % 0x1000 == hdr.sdu_length
            &&& (val16(data[6 + t], data[7 + t]) / 0x1000) % 4 == 0
            &&& val16(data[6 + t], data[7 + t]) / 0x4000 == hdr.status
        },
{
    lemma_spec_bytes_fields(p);
    let w1: u16 = (p.connection_handle + pb_flag(&p.sdu_fragment) * 0x1000 + ts_flag(
        &p.sdu_fragment,
    ) * 0x4000) as u16;
    lemma_word_unpack(
        w1,
        p.connection_handle,
        pb_flag(&p.sdu_fragment),
        ts_flag(&p.sdu_fragment),
    );
    match p.sdu_fragment {
        IsoSduFragment::First { hdr, .. } => {
            let w3: u16 = (hdr.sdu_length + hdr.status * 0x4000) as u16;
            lemma_sdu_word_unpack(w3, hdr.sdu_length, hdr.status);
        },
        IsoSduFragment::Continue { .. } => {},
    }
}

} // verus!
