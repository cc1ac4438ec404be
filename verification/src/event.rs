//! HCI events.
//!
//! An event packet is a one-byte event code, a one-byte parameter length,
//! then the parameters; an LE Meta event carries a one-byte subcode as the
//! first parameter. Decoding checks that the declared length covers exactly
//! the rest of the packet; encoding back-patches the length byte. Every
//! recognized packet re-serializes to the exact bytes it was parsed from.

use vstd::prelude::*;

use crate::command::{
    LeIsoDataPathComplete, LeRemoveCigComplete, LeReadBufferSizeV1Complete,
    LeReadBufferSizeV2Complete, LeSetCigParametersComplete, OpCode, ResetComplete,
    CommandOpCode, LeReadBufferSizeV1, LeReadBufferSizeV2, LeRemoveCig, LeRemoveIsoDataPath,
    LeSetCigParameters, LeSetupIsoDataPath, Reset,
};
use crate::reader::{encodes_prefix, Read, Reader};
use crate::status::{status_code, Status};
use crate::wire::{le16, le24, val16};
use crate::writer::{lemma_seq_wire_bytes_index, lemma_seq_wire_bytes_len,
    lemma_seq_wire_bytes_push, seq_wf, seq_wire_bytes, Write, Writer};

verus! {

/// HCI event packet framing: event code, one-byte parameter length, then
/// for an LE Meta event the subcode, then the parameters.
pub open spec fn event_packet(code: u8, sub: Option<u8>, params: Seq<u8>) -> Seq<u8> {
    match sub {
        Option::None => seq![code, params.len() as u8] + params,
        Option::Some(s) => seq![code, (params.len() + 1) as u8, s] + params,
    }
}

/// Code of an HCI event: a primary code, and for LE Meta events (primary
/// code 0x3e) a subcode naming the event under it.
#[derive(Debug, Clone, Copy, PartialEq)]
pub struct Code(u8, Option<u8>);

impl Code {
    /// The primary event code.
    pub closed spec fn primary(&self) -> u8 {
        self.0
    }

    /// The LE Meta subcode, for events under the LE Meta code.
    pub closed spec fn sub(&self) -> Option<u8> {
        self.1
    }

    /// The primary event code.
    pub fn primary_byte(&self) -> (r: u8)
        ensures
            r == self.primary(),
    {
        self.0
    }

    /// The LE Meta subcode, for events under the LE Meta code.
    pub fn sub_byte(&self) -> (r: Option<u8>)
        ensures
            r == self.sub(),
    {
        self.1
    }
}

/// The code pair under which an event is framed.
pub trait EventCode {
    /// The primary event code.
    spec fn spec_code() -> u8;

    /// The LE Meta subcode, where the event is an LE Meta event.
    spec fn spec_subcode() -> Option<u8>;

    /// The code as a value.
    fn code() -> (c: Code)
        ensures
            c.primary() == Self::spec_code(),
            c.sub() == Self::spec_subcode(),
    ;
}

/// Frame an event body under its code: code, back-patched length, subcode
/// where there is one, body.
pub trait EventToBytes: EventCode + Write + Sized {
    /// Output the HCI event packet.
    fn to_bytes(&self) -> (r: Vec<u8>)
        requires
            self.wf(),
            self.wire_bytes().len() + (if Self::spec_subcode() is Some {
                1int
            } else {
                0int
            }) <= 255,
        ensures
            r@ == event_packet(Self::spec_code(), Self::spec_subcode(), self.wire_bytes()),
    {
        let mut w = Writer::new(Vec::new());
        let code = Self::code();
        w.write_u8(code.primary_byte());
        w.write_u8(0);
        match code.sub_byte() {
            Some(s) => w.write_u8(s),
            None => (),
        }
        self.write(&mut w);
        let n = w.len();
        w.set(1, (n - 2) as u8);
        let r = w.into_vec();
        proof {
            assert(r@ =~= event_packet(Self::spec_code(), Self::spec_subcode(), self.wire_bytes()));
        }
        r
    }
}

/// HCI event, one variant per recognized code.
#[derive(Debug)]
pub enum Event {
    /// Disconnection Complete
    DisconnectionComplete(DisconnectionComplete),
    /// Command Complete
    CommandComplete(CommandComplete),
    /// Command Status
    CommandStatus(CommandStatus),
    /// Number Of Completed Packets
    NumberOfCompletedPackets(NumberOfCompletedPackets),
    /// LE CIS Established
    LeCisEstablished(LeCisEstablished),
    /// LE Create BIG Complete
    LeCreateBigComplete(LeCreateBigComplete),
    /// LE Terminate BIG Complete
    LeTerminateBigComplete(LeTerminateBigComplete),
    /// Unrecognized event, carrying its code for passthrough
    Unknown(Code),
}

/// Whether a code pair names a recognized event.
pub open spec fn recognized_event(code: u8, sub: Option<u8>) -> bool {
    ||| (code == <DisconnectionComplete as EventCode>::spec_code() && sub is None)
    ||| (code == <CommandComplete as EventCode>::spec_code() && sub is None)
    ||| (code == <CommandStatus as EventCode>::spec_code() && sub is None)
    ||| (code == <NumberOfCompletedPackets as EventCode>::spec_code() && sub is None)
    ||| (code == 0x3e && sub == <LeCisEstablished as EventCode>::spec_subcode())
    ||| (code == 0x3e && sub == <LeCreateBigComplete as EventCode>::spec_subcode())
    ||| (code == 0x3e && sub == <LeTerminateBigComplete as EventCode>::spec_subcode())
}

impl Event {
    /// The primary code this event is framed under.
    pub open spec fn prim_of(&self) -> u8 {
        match *self {
            Event::DisconnectionComplete(ref e) => <DisconnectionComplete as EventCode>::spec_code(),
            Event::CommandComplete(ref e) => <CommandComplete as EventCode>::spec_code(),
            Event::CommandStatus(ref e) => <CommandStatus as EventCode>::spec_code(),
            Event::NumberOfCompletedPackets(ref e) => <NumberOfCompletedPackets as EventCode>::spec_code(),
            Event::LeCisEstablished(ref e) => <LeCisEstablished as EventCode>::spec_code(),
            Event::LeCreateBigComplete(ref e) => <LeCreateBigComplete as EventCode>::spec_code(),
            Event::LeTerminateBigComplete(ref e) => <LeTerminateBigComplete as EventCode>::spec_code(),
            Event::Unknown(c) => c.primary(),
        }
    }

    /// The subcode this event is framed under, where there is one.
    pub open spec fn sub_of(&self) -> Option<u8> {
        match *self {
            Event::DisconnectionComplete(ref e) => <DisconnectionComplete as EventCode>::spec_subcode(),
            Event::CommandComplete(ref e) => <CommandComplete as EventCode>::spec_subcode(),
            Event::CommandStatus(ref e) => <CommandStatus as EventCode>::spec_subcode(),
            Event::NumberOfCompletedPackets(ref e) => <NumberOfCompletedPackets as EventCode>::spec_subcode(),
            Event::LeCisEstablished(ref e) => <LeCisEstablished as EventCode>::spec_subcode(),
            Event::LeCreateBigComplete(ref e) => <LeCreateBigComplete as EventCode>::spec_subcode(),
            Event::LeTerminateBigComplete(ref e) => <LeTerminateBigComplete as EventCode>::spec_subcode(),
            Event::Unknown(c) => c.sub(),
        }
    }

    /// The event body is well formed.
    pub open spec fn body_wf(&self) -> bool {
        match *self {
            Event::DisconnectionComplete(ref e) => e.wf(),
            Event::CommandComplete(ref e) => e.wf(),
            Event::CommandStatus(ref e) => e.wf(),
            Event::NumberOfCompletedPackets(ref e) => e.wf(),
            Event::LeCisEstablished(ref e) => e.wf(),
            Event::LeCreateBigComplete(ref e) => e.wf(),
            Event::LeTerminateBigComplete(ref e) => e.wf(),
            Event::Unknown(_) => false,
        }
    }

    /// The wire bytes of the event body (the parameters after any subcode).
    pub open spec fn body_bytes(&self) -> Seq<u8> {
        match *self {
            Event::DisconnectionComplete(ref e) => e.wire_bytes(),
            Event::CommandComplete(ref e) => e.wire_bytes(),
            Event::CommandStatus(ref e) => e.wire_bytes(),
            Event::NumberOfCompletedPackets(ref e) => e.wire_bytes(),
            Event::LeCisEstablished(ref e) => e.wire_bytes(),
            Event::LeCreateBigComplete(ref e) => e.wire_bytes(),
            Event::LeTerminateBigComplete(ref e) => e.wire_bytes(),
            Event::Unknown(_) => Seq::empty(),
        }
    }

    /// A recognized event that can be re-serialized as a packet.
    pub open spec fn wf(&self) -> bool {
        self.body_wf() && self.body_bytes().len() + (if self.sub_of() is Some {
            1int
        } else {
            0int
        }) <= 255
    }

    /// The full packet bytes of a recognized event.
    pub open spec fn spec_bytes(&self) -> Seq<u8> {
        event_packet(self.prim_of(), self.sub_of(), self.body_bytes())
    }

    /// Read an HCI event packet.
    ///
    /// A recognized packet decodes to the value whose serialization is the
    /// input, byte for byte, and every such packet decodes. An
    /// unrecognized code under sound framing is carried as `Unknown`, with
    /// trailing bytes after the declared length tolerated; a Command
    /// Complete answering an unrecognized opcode carries it as `Unknown`
    /// return parameters. `Err(Some(code))` reports a recognized code
    /// whose packet is not the serialization of any well-formed event;
    /// `Err(None)` a header whose declared length outruns the input, or an
    /// LE Meta event without a subcode.
    pub fn from_bytes(data: &[u8]) -> (res: Result<Event, Option<Code>>)
        ensures
            match res {
                Ok(e) => data@.len() >= 2 && 2 + data@[1] <= data@.len() && (e matches
                Event::Unknown(c) ==> c.primary() == data@[0] && !recognized_event(
                    c.primary(),
                    c.sub(),
                ) && (data@[0] == 0x3e ==> data@.len() >= 3 && c.sub() == Some(data@[2])) && (
                data@[0] != 0x3e ==> c.sub() is None)) && (!(e matches Event::Unknown(_))
                    && e.body_wf() ==> e.wf() && e.spec_bytes() == data@) && (!(e matches
                Event::Unknown(_)) && !e.body_wf() ==> (e matches Event::CommandComplete(cc)
                    && (cc.return_parameters matches ReturnParameters::Unknown(op)
                    && !recognized_rp_opcode(op.value()) && data@.len() >= 5 && op.value()
                    == val16(data@[3], data@[4])))) && (!(e matches Event::Unknown(_))
                    && !e.body_wf() ==> (forall|e2: Event|
                    !(e2 matches Event::Unknown(_)) && e2.wf() ==> #[trigger] e2.spec_bytes()
                        != data@)),
                Err(err) => match err {
                    Some(c) => data@.len() >= 2 && 2 + data@[1] <= data@.len() && c.primary()
                        == data@[0] && recognized_event(c.primary(), c.sub()) && (forall|e2: Event|
                        !(e2 matches Event::Unknown(_)) && e2.wf() ==> #[trigger] e2.spec_bytes()
                            != data@),
                    None => data@.len() < 2 || 2 + data@[1] > data@.len() || (data@[0] == 0x3e
                        && data@[1] == 0),
                },
            },
    {
        let mut r = Reader::new(data);
        let code_byte = match r.read_u8() {
            Some(v) => v,
            None => {
                return Err(None);
            },
        };
        let len = match r.read_u8() {
            Some(v) => v,
            None => {
                return Err(None);
            },
        };
        if r.remaining() < len as usize {
            return Err(None);
        }
        let code = if code_byte == 0x3e {
            if len == 0 {
                return Err(None);
            }
            let sub = match r.read_u8() {
                Some(v) => v,
                None => {
                    proof {
                        assert(false);
                    }
                    return Err(None);
                },
            };
            Code(code_byte, Some(sub))
        } else {
            Code(code_byte, None)
        };
        match Self::dispatch_read(code, &mut r) {
            Some(e) => {
                match e {
                    Event::Unknown(_) => Ok(e),
                    Event::CommandComplete(cc) => {
                        match cc.return_parameters {
                            ReturnParameters::Unknown(_) => {
                                let e = Event::CommandComplete(cc);
                                proof {
                                    assert forall|e2: Event|
                                        !(e2 matches Event::Unknown(_)) && e2.wf()
                                            implies #[trigger] e2.spec_bytes() != data@ by {
                                        if e2.spec_bytes() == data@ {
                                            lemma_event_matches(e2, data@);
                                        }
                                    }
                                }
                                Ok(e)
                            },
                            _ => {
                                let e = Event::CommandComplete(cc);
                                if r.remaining() == 0 && data.len() == 2 + len as usize {
                                    proof {
                                        assert(e.spec_bytes() =~= data@);
                                    }
                                    Ok(e)
                                } else {
                                    proof {
                                        assert forall|e2: Event|
                                            !(e2 matches Event::Unknown(_)) && e2.wf()
                                                implies #[trigger] e2.spec_bytes() != data@ by {
                                            if e2.spec_bytes() == data@ {
                                                lemma_event_matches(e2, data@);
                                            }
                                        }
                                    }
                                    Err(Some(code))
                                }
                            },
                        }
                    },
                    _ => {
                        if r.remaining() == 0 && data.len() == 2 + len as usize {
                            proof {
                                assert(e.spec_bytes() =~= data@);
                            }
                            Ok(e)
                        } else {
                            proof {
                                assert forall|e2: Event|
                                    !(e2 matches Event::Unknown(_)) && e2.wf()
                                        implies #[trigger] e2.spec_bytes() != data@ by {
                                    if e2.spec_bytes() == data@ {
                                        lemma_event_matches(e2, data@);
                                    }
                                }
                            }
                            Err(Some(code))
                        }
                    },
                }
            },
            None => {
                proof {
                    assert forall|e2: Event|
                        !(e2 matches Event::Unknown(_)) && e2.wf() implies #[trigger] e2.spec_bytes()
                            != data@ by {
                        if e2.spec_bytes() == data@ {
                            lemma_event_matches(e2, data@);
                        }
                    }
                }
                Err(Some(code))
            },
        }
    }

    /// Parse the body of a recognized code; an unrecognized one gives
    /// `Unknown`. A success returns the one well-formed event of that code
    /// whose body stands at the cursor, and a failure means there is none.
    fn dispatch_read(code: Code, r: &mut Reader) -> (res: Option<Event>)
        requires
            old(r).wf(),
        ensures
            final(r).wf(),
            final(r).bytes() == old(r).bytes(),
            match res {
                Some(e) => {
                    &&& (e matches Event::Unknown(c) ==> c == code && !recognized_event(
                        code.primary(),
                        code.sub(),
                    ) && final(r).position() == old(r).position())
                    &&& (!(e matches Event::Unknown(_)) && e.body_wf() ==> recognized_event(
                        code.primary(),
                        code.sub(),
                    ) && e.prim_of() == code.primary() && e.sub_of() == code.sub()
                        && final(r).position() == old(r).position() + e.body_bytes().len()
                        && final(r).position() <= old(r).bytes().len() && e.body_bytes() == old(r).bytes().subrange(old(r).position(), final(r).position()) && (forall|e2: Event|
                        !(e2 matches Event::Unknown(_)) && e2.wf() && e2.prim_of()
                            == code.primary() && e2.sub_of() == code.sub()
                            && #[trigger] evt_body_prefix(old(r).bytes(), old(r).position(), e2)
                            ==> e2.body_bytes() == e.body_bytes()))
                    &&& (!(e matches Event::Unknown(_)) && !e.body_wf() ==> code.primary() == 0x0e
                        && code.sub() is None && (e matches
                        Event::CommandComplete(cc) && (cc.return_parameters matches
                    ReturnParameters::Unknown(op) && !recognized_rp_opcode(op.value())
                        && final(r).position() == old(r).bytes().len() && old(r).position() + 3
                        <= old(r).bytes().len() && op.value() == val16(
                        old(r).bytes()[old(r).position() + 1],
                        old(r).bytes()[old(r).position() + 2],
                    ))) && (forall|e2: Event|
                        !(e2 matches Event::Unknown(_)) && e2.wf() && e2.prim_of()
                            == code.primary() && e2.sub_of() == code.sub()
                            && #[trigger] evt_body_prefix(old(r).bytes(), old(r).position(), e2)
                            ==> false))
                },
                None => recognized_event(code.primary(), code.sub()) && (forall|e2: Event|
                    !(e2 matches Event::Unknown(_)) && e2.wf() && e2.prim_of() == code.primary()
                        && e2.sub_of() == code.sub() ==> !#[trigger] evt_body_prefix(
                        old(r).bytes(),
                        old(r).position(),
                        e2,
                    )),
            },
    {
        let ghost p0 = r.position();
        let ghost bytes = r.bytes();
        let p = code.primary_byte();
        let sb = code.sub_byte();
        proof {
            lemma_evt_dispatch_variant(code, bytes, p0);
        }
        match (p, sb) {
            (0x05, Option::None) => {
                let res = match <DisconnectionComplete as Read>::read(r) {
                    Some(x) => Some(Event::DisconnectionComplete(x)),
                    None => None,
                };
                res
            },
            (0x0e, Option::None) => {
                let res = match CommandComplete::read_body(r) {
                    Some(x) => Some(Event::CommandComplete(x)),
                    None => None,
                };
                res
            },
            (0x0f, Option::None) => {
                let res = match <CommandStatus as Read>::read(r) {
                    Some(x) => Some(Event::CommandStatus(x)),
                    None => None,
                };
                res
            },
            (0x13, Option::None) => {
                let res = match <NumberOfCompletedPackets as Read>::read(r) {
                    Some(x) => Some(Event::NumberOfCompletedPackets(x)),
                    None => None,
                };
                res
            },
            (0x3e, Option::Some(0x19)) => {
                let res = match <LeCisEstablished as Read>::read(r) {
                    Some(x) => Some(Event::LeCisEstablished(x)),
                    None => None,
                };
                res
            },
            (0x3e, Option::Some(0x1b)) => {
                let res = match <LeCreateBigComplete as Read>::read(r) {
                    Some(x) => Some(Event::LeCreateBigComplete(x)),
                    None => None,
                };
                res
            },
            (0x3e, Option::Some(0x1c)) => {
                let res = match <LeTerminateBigComplete as Read>::read(r) {
                    Some(x) => Some(Event::LeTerminateBigComplete(x)),
                    None => None,
                };
                res
            },
            _ => Some(Event::Unknown(code)),
        }
    }
}

/// Whether an event's body bytes stand at a position of the input, with
/// arbitrary bytes allowed after them.
pub open spec fn evt_body_prefix(bytes: Seq<u8>, pos: int, e: Event) -> bool {
    pos + e.body_bytes().len() <= bytes.len() && bytes.subrange(
        pos,
        pos + e.body_bytes().len(),
    ) == e.body_bytes()
}

/// An event whose body stands at a position stands there as its own
/// variant's encoding: matching codes pin the variant, and the body bytes
/// are the inner value's encoding.
proof fn lemma_evt_dispatch_variant(code: Code, bytes: Seq<u8>, pos: int)
    ensures
        forall|e2: Event|
            !(e2 matches Event::Unknown(_)) && e2.wf() && e2.prim_of() == code.primary()
                && e2.sub_of() == code.sub() && #[trigger] evt_body_prefix(bytes, pos, e2)
                ==> evt_inner_prefix(bytes, pos, e2),
{
    assert forall|e2: Event|
        !(e2 matches Event::Unknown(_)) && e2.wf() && e2.prim_of() == code.primary()
            && e2.sub_of() == code.sub() && #[trigger] evt_body_prefix(bytes, pos, e2)
            implies evt_inner_prefix(bytes, pos, e2) by {
        match e2 {
            Event::DisconnectionComplete(inner) => {
                assert(encodes_prefix(bytes, pos, inner));
            },
            Event::CommandComplete(inner) => {
                assert(encodes_prefix(bytes, pos, inner));
            },
            Event::CommandStatus(inner) => {
                assert(encodes_prefix(bytes, pos, inner));
            },
            Event::NumberOfCompletedPackets(inner) => {
                assert(encodes_prefix(bytes, pos, inner));
            },
            Event::LeCisEstablished(inner) => {
                assert(encodes_prefix(bytes, pos, inner));
            },
            Event::LeCreateBigComplete(inner) => {
                assert(encodes_prefix(bytes, pos, inner));
            },
            Event::LeTerminateBigComplete(inner) => {
                assert(encodes_prefix(bytes, pos, inner));
            },
            Event::Unknown(_) => {},
        }
    }
}

/// The inner value of a recognized event stands encoded at a position.
pub open spec fn evt_inner_prefix(bytes: Seq<u8>, pos: int, e: Event) -> bool {
    match e {
        Event::DisconnectionComplete(inner) => encodes_prefix(bytes, pos, inner),
        Event::CommandComplete(inner) => encodes_prefix(bytes, pos, inner),
        Event::CommandStatus(inner) => encodes_prefix(bytes, pos, inner),
        Event::NumberOfCompletedPackets(inner) => encodes_prefix(bytes, pos, inner),
        Event::LeCisEstablished(inner) => encodes_prefix(bytes, pos, inner),
        Event::LeCreateBigComplete(inner) => encodes_prefix(bytes, pos, inner),
        Event::LeTerminateBigComplete(inner) => encodes_prefix(bytes, pos, inner),
        Event::Unknown(_) => false,
    }
}

/// From a whole-packet match, the body stands at its offset: the declared
/// length byte covers the subcode and the body, and the packet ends with
/// the body.
pub proof fn lemma_event_matches(e2: Event, data: Seq<u8>)
    requires
        !(e2 matches Event::Unknown(_)),
        e2.wf(),
        e2.spec_bytes() == data,
    ensures
        data.len() >= 2,
        data[0] == e2.prim_of(),
        e2.sub_of() matches Some(sb) ==> data.len() >= 3 && data[2] == sb && data[1]
            == e2.body_bytes().len() + 1 && data.len() == 3 + e2.body_bytes().len()
            && evt_body_prefix(data, 3, e2),
        e2.sub_of() is None ==> data[1] == e2.body_bytes().len() && data.len() == 2
            + e2.body_bytes().len() && evt_body_prefix(data, 2, e2),
        recognized_event(e2.prim_of(), e2.sub_of()),
        2 + data[1] == data.len(),
{
    match e2.sub_of() {
        Option::Some(sb) => {
            assert(data.subrange(3, 3 + e2.body_bytes().len() as int) =~= e2.body_bytes());
        },
        Option::None => {
            assert(data.subrange(2, 2 + e2.body_bytes().len() as int) =~= e2.body_bytes());
        },
    }
}

/// Command return parameters, one variant per recognized opcode, framed
/// inside a Command Complete event behind the opcode they answer.
#[derive(Debug)]
pub enum ReturnParameters {
    /// Reset
    Reset(ResetComplete),
    /// LE Read Buffer Size (version 1)
    LeReadBufferSizeV1(LeReadBufferSizeV1Complete),
    /// LE Read Buffer Size (version 2)
    LeReadBufferSizeV2(LeReadBufferSizeV2Complete),
    /// LE Set CIG Parameters
    LeSetCigParameters(LeSetCigParametersComplete),
    /// LE Remove CIG
    LeRemoveCig(LeRemoveCigComplete),
    /// LE Setup ISO Data Path
    LeSetupIsoDataPath(LeIsoDataPathComplete),
    /// LE Remove ISO Data Path
    LeRemoveIsoDataPath(LeIsoDataPathComplete),
    /// Unrecognized opcode, carrying it for passthrough
    Unknown(OpCode),
}

/// Whether an opcode value names recognized return parameters.
pub open spec fn recognized_rp_opcode(v: u16) -> bool {
    ||| v == <Reset as CommandOpCode>::spec_opcode()
    ||| v == <LeReadBufferSizeV1 as CommandOpCode>::spec_opcode()
    ||| v == <LeReadBufferSizeV2 as CommandOpCode>::spec_opcode()
    ||| v == <LeSetCigParameters as CommandOpCode>::spec_opcode()
    ||| v == <LeRemoveCig as CommandOpCode>::spec_opcode()
    ||| v == <LeSetupIsoDataPath as CommandOpCode>::spec_opcode()
    ||| v == <LeRemoveIsoDataPath as CommandOpCode>::spec_opcode()
}

impl Write for ReturnParameters {
    open spec fn wf(&self) -> bool {
        match *self {
            ReturnParameters::Reset(ref p) => p.wf(),
            ReturnParameters::LeReadBufferSizeV1(ref p) => p.wf(),
            ReturnParameters::LeReadBufferSizeV2(ref p) => p.wf(),
            ReturnParameters::LeSetCigParameters(ref p) => p.wf(),
            ReturnParameters::LeRemoveCig(ref p) => p.wf(),
            ReturnParameters::LeSetupIsoDataPath(ref p) => p.wf(),
            ReturnParameters::LeRemoveIsoDataPath(ref p) => p.wf(),
            ReturnParameters::Unknown(_) => false,
        }
    }

    open spec fn wire_bytes(&self) -> Seq<u8> {
        match *self {
            ReturnParameters::Reset(ref p) => le16(<Reset as CommandOpCode>::spec_opcode())
                + p.wire_bytes(),
            ReturnParameters::LeReadBufferSizeV1(ref p) => le16(
                <LeReadBufferSizeV1 as CommandOpCode>::spec_opcode(),
            ) + p.wire_bytes(),
            ReturnParameters::LeReadBufferSizeV2(ref p) => le16(
                <LeReadBufferSizeV2 as CommandOpCode>::spec_opcode(),
            ) + p.wire_bytes(),
            ReturnParameters::LeSetCigParameters(ref p) => le16(
                <LeSetCigParameters as CommandOpCode>::spec_opcode(),
            ) + p.wire_bytes(),
            ReturnParameters::LeRemoveCig(ref p) => le16(
                <LeRemoveCig as CommandOpCode>::spec_opcode(),
            ) + p.wire_bytes(),
            ReturnParameters::LeSetupIsoDataPath(ref p) => le16(
                <LeSetupIsoDataPath as CommandOpCode>::spec_opcode(),
            ) + p.wire_bytes(),
            ReturnParameters::LeRemoveIsoDataPath(ref p) => le16(
                <LeRemoveIsoDataPath as CommandOpCode>::spec_opcode(),
            ) + p.wire_bytes(),
            ReturnParameters::Unknown(_) => Seq::empty(),
        }
    }

    fn write(&self, w: &mut Writer) {
        match self {
            ReturnParameters::Reset(p) => {
                <Reset as CommandOpCode>::opcode().write(w);
                p.write(w);
            },
            ReturnParameters::LeReadBufferSizeV1(p) => {
                <LeReadBufferSizeV1 as CommandOpCode>::opcode().write(w);
                p.write(w);
            },
            ReturnParameters::LeReadBufferSizeV2(p) => {
                <LeReadBufferSizeV2 as CommandOpCode>::opcode().write(w);
                p.write(w);
            },
            ReturnParameters::LeSetCigParameters(p) => {
                <LeSetCigParameters as CommandOpCode>::opcode().write(w);
                p.write(w);
            },
            ReturnParameters::LeRemoveCig(p) => {
                <LeRemoveCig as CommandOpCode>::opcode().write(w);
                p.write(w);
            },
            ReturnParameters::LeSetupIsoDataPath(p) => {
                <LeSetupIsoDataPath as CommandOpCode>::opcode().write(w);
                p.write(w);
            },
            ReturnParameters::LeRemoveIsoDataPath(p) => {
                <LeRemoveIsoDataPath as CommandOpCode>::opcode().write(w);
                p.write(w);
            },
            ReturnParameters::Unknown(_) => {
                proof {
                    assert(false);
                }
            },
        }
        assert(w@ =~= old(w)@ + self.wire_bytes());
    }
}

impl ReturnParameters {
    /// Parse return parameters: the answered opcode, then its trailer. A
    /// success returns the one well-formed value standing at the cursor,
    /// and a failure means there is none. An unrecognized opcode absorbs
    /// the rest of the input as passthrough, carrying the opcode it saw.
    fn read_body(r: &mut Reader) -> (res: Option<ReturnParameters>)
        requires
            old(r).wf(),
        ensures
            final(r).wf(),
            final(r).bytes() == old(r).bytes(),
            match res {
                Some(rp) => {
                    &&& (rp matches ReturnParameters::Unknown(op) ==> !recognized_rp_opcode(
                        op.value(),
                    ) && final(r).position() == old(r).bytes().len() && old(r).position() + 2
                        <= old(r).bytes().len() && op.value() == val16(
                        old(r).bytes()[old(r).position()],
                        old(r).bytes()[old(r).position() + 1],
                    ) && (forall|rp2: ReturnParameters|
                        rp2.wf() ==> !#[trigger] encodes_prefix(
                            old(r).bytes(),
                            old(r).position(),
                            rp2,
                        )))
                    &&& (!(rp matches ReturnParameters::Unknown(_)) ==> rp.wf() && final(r).position() == old(r).position() + rp.wire_bytes().len() && final(r).position() <= old(r).bytes().len() && rp.wire_bytes() == old(r).bytes().subrange(old(r).position(), final(r).position()) && (forall|
                        rp2: ReturnParameters,
                    |
                        rp2.wf() && #[trigger] encodes_prefix(
                            old(r).bytes(),
                            old(r).position(),
                            rp2,
                        ) ==> rp2.wire_bytes() == rp.wire_bytes()))
                },
                None => forall|rp2: ReturnParameters|
                    rp2.wf() ==> !#[trigger] encodes_prefix(old(r).bytes(), old(r).position(), rp2),
            },
    {
        let ghost p0 = r.position();
        let ghost bytes = r.bytes();
        let opv = match r.read_u16() {
            Some(v) => v,
            None => {
                proof {
                    assert forall|rp2: ReturnParameters| rp2.wf() implies !encodes_prefix(
                        bytes,
                        p0,
                        rp2,
                    ) by {
                        if encodes_prefix(bytes, p0, rp2) {
                            lemma_rp_shape(rp2, bytes, p0);
                        }
                    }
                }
                return None;
            },
        };
        let reset_op = <Reset as CommandOpCode>::opcode();
        let v1_op = <LeReadBufferSizeV1 as CommandOpCode>::opcode();
        let v2_op = <LeReadBufferSizeV2 as CommandOpCode>::opcode();
        let cig_op = <LeSetCigParameters as CommandOpCode>::opcode();
        let rm_cig_op = <LeRemoveCig as CommandOpCode>::opcode();
        let setup_op = <LeSetupIsoDataPath as CommandOpCode>::opcode();
        let rm_iso_op = <LeRemoveIsoDataPath as CommandOpCode>::opcode();
        proof {
            assert forall|rp2: ReturnParameters|
                rp2.wf() && #[trigger] encodes_prefix(bytes, p0, rp2) implies rp_op_value(rp2)
                == opv && rp_inner_prefix(bytes, p0 + 2, rp2) by {
                lemma_rp_shape(rp2, bytes, p0);
            }
        }
        let res = if opv == reset_op.as_u16() {
            let x = match <ResetComplete as Read>::read(r) {
                Some(x) => x,
                None => {
                    return None;
                },
            };
            ReturnParameters::Reset(x)
        } else if opv == v1_op.as_u16() {
            let x = match <LeReadBufferSizeV1Complete as Read>::read(r) {
                Some(x) => x,
                None => {
                    return None;
                },
            };
            ReturnParameters::LeReadBufferSizeV1(x)
        } else if opv == v2_op.as_u16() {
            let x = match <LeReadBufferSizeV2Complete as Read>::read(r) {
                Some(x) => x,
                None => {
                    return None;
                },
            };
            ReturnParameters::LeReadBufferSizeV2(x)
        } else if opv == cig_op.as_u16() {
            let x = match <LeSetCigParametersComplete as Read>::read(r) {
                Some(x) => x,
                None => {
                    return None;
                },
            };
            ReturnParameters::LeSetCigParameters(x)
        } else if opv == rm_cig_op.as_u16() {
            let x = match <LeRemoveCigComplete as Read>::read(r) {
                Some(x) => x,
                None => {
                    return None;
                },
            };
            ReturnParameters::LeRemoveCig(x)
        } else if opv == setup_op.as_u16() {
            let x = match <LeIsoDataPathComplete as Read>::read(r) {
                Some(x) => x,
                None => {
                    return None;
                },
            };
            ReturnParameters::LeSetupIsoDataPath(x)
        } else if opv == rm_iso_op.as_u16() {
            let x = match <LeIsoDataPathComplete as Read>::read(r) {
                Some(x) => x,
                None => {
                    return None;
                },
            };
            ReturnParameters::LeRemoveIsoDataPath(x)
        } else {
            let n = r.remaining();
            let _ = r.get(n);
            return Some(ReturnParameters::Unknown(OpCode::from_u16(opv)));
        };
        proof {
            assert(res.wire_bytes() =~= bytes.subrange(p0, r.position()));
        }
        Some(res)
    }
}

/// The opcode value a return-parameters value answers.
pub open spec fn rp_op_value(rp: ReturnParameters) -> u16 {
    match rp {
        ReturnParameters::Reset(_) => <Reset as CommandOpCode>::spec_opcode(),
        ReturnParameters::LeReadBufferSizeV1(_) => <LeReadBufferSizeV1 as CommandOpCode>::spec_opcode(),
        ReturnParameters::LeReadBufferSizeV2(_) => <LeReadBufferSizeV2 as CommandOpCode>::spec_opcode(),
        ReturnParameters::LeSetCigParameters(_) => <LeSetCigParameters as CommandOpCode>::spec_opcode(),
        ReturnParameters::LeRemoveCig(_) => <LeRemoveCig as CommandOpCode>::spec_opcode(),
        ReturnParameters::LeSetupIsoDataPath(_) => <LeSetupIsoDataPath as CommandOpCode>::spec_opcode(),
        ReturnParameters::LeRemoveIsoDataPath(_) => <LeRemoveIsoDataPath as CommandOpCode>::spec_opcode(),
        ReturnParameters::Unknown(op) => op.value(),
    }
}

/// The trailer of a well-formed return-parameters value stands encoded
/// right after its opcode.
pub open spec fn rp_inner_prefix(bytes: Seq<u8>, pos: int, rp: ReturnParameters) -> bool {
    match rp {
        ReturnParameters::Reset(inner) => encodes_prefix(bytes, pos, inner),
        ReturnParameters::LeReadBufferSizeV1(inner) => encodes_prefix(bytes, pos, inner),
        ReturnParameters::LeReadBufferSizeV2(inner) => encodes_prefix(bytes, pos, inner),
        ReturnParameters::LeSetCigParameters(inner) => encodes_prefix(bytes, pos, inner),
        ReturnParameters::LeRemoveCig(inner) => encodes_prefix(bytes, pos, inner),
        ReturnParameters::LeSetupIsoDataPath(inner) => encodes_prefix(bytes, pos, inner),
        ReturnParameters::LeRemoveIsoDataPath(inner) => encodes_prefix(bytes, pos, inner),
        ReturnParameters::Unknown(_) => false,
    }
}

/// A well-formed return-parameters value standing at a position starts
/// with its recognized opcode, followed by its trailer's encoding.
proof fn lemma_rp_shape(rp2: ReturnParameters, bytes: Seq<u8>, pos: int)
    requires
        0 <= pos,
        rp2.wf(),
        encodes_prefix(bytes, pos, rp2),
    ensures
        rp2.wire_bytes().len() >= 2,
        pos + 2 <= bytes.len(),
        val16(bytes[pos], bytes[pos + 1]) == rp_op_value(rp2),
        recognized_rp_opcode(rp_op_value(rp2)),
        rp_inner_prefix(bytes, pos + 2, rp2),
{
    crate::wire::lemma_val16_le16(rp_op_value(rp2));
    assert(bytes[pos] == bytes.subrange(pos, pos + rp2.wire_bytes().len())[0]);
    assert(bytes[pos + 1] == bytes.subrange(pos, pos + rp2.wire_bytes().len())[1]);
    match rp2 {
        ReturnParameters::Reset(inner) => {
            assert forall|j: int|
                0 <= j < inner.wire_bytes().len() implies bytes[pos + 2 + j]
                == inner.wire_bytes()[j] by {
                assert(bytes.subrange(pos, pos + rp2.wire_bytes().len())[2 + j]
                    == rp2.wire_bytes()[2 + j]);
            }
            assert(bytes.subrange(pos + 2, pos + 2 + inner.wire_bytes().len() as int)
                =~= inner.wire_bytes());
        },
        ReturnParameters::LeReadBufferSizeV1(inner) => {
            assert forall|j: int|
                0 <= j < inner.wire_bytes().len() implies bytes[pos + 2 + j]
                == inner.wire_bytes()[j] by {
                assert(bytes.subrange(pos, pos + rp2.wire_bytes().len())[2 + j]
                    == rp2.wire_bytes()[2 + j]);
            }
            assert(bytes.subrange(pos + 2, pos + 2 + inner.wire_bytes().len() as int)
                =~= inner.wire_bytes());
        },
        ReturnParameters::LeReadBufferSizeV2(inner) => {
            assert forall|j: int|
                0 <= j < inner.wire_bytes().len() implies bytes[pos + 2 + j]
                == inner.wire_bytes()[j] by {
                assert(bytes.subrange(pos, pos + rp2.wire_bytes().len())[2 + j]
                    == rp2.wire_bytes()[2 + j]);
            }
            assert(bytes.subrange(pos + 2, pos + 2 + inner.wire_bytes().len() as int)
                =~= inner.wire_bytes());
        },
        ReturnParameters::LeSetCigParameters(inner) => {
            assert forall|j: int|
                0 <= j < inner.wire_bytes().len() implies bytes[pos + 2 + j]
                == inner.wire_bytes()[j] by {
                assert(bytes.subrange(pos, pos + rp2.wire_bytes().len())[2 + j]
                    == rp2.wire_bytes()[2 + j]);
            }
            assert(bytes.subrange(pos + 2, pos + 2 + inner.wire_bytes().len() as int)
                =~= inner.wire_bytes());
        },
        ReturnParameters::LeRemoveCig(inner) => {
            assert forall|j: int|
                0 <= j < inner.wire_bytes().len() implies bytes[pos + 2 + j]
                == inner.wire_bytes()[j] by {
                assert(bytes.subrange(pos, pos + rp2.wire_bytes().len())[2 + j]
                    == rp2.wire_bytes()[2 + j]);
            }
            assert(bytes.subrange(pos + 2, pos + 2 + inner.wire_bytes().len() as int)
                =~= inner.wire_bytes());
        },
        ReturnParameters::LeSetupIsoDataPath(inner) => {
            assert forall|j: int|
                0 <= j < inner.wire_bytes().len() implies bytes[pos + 2 + j]
                == inner.wire_bytes()[j] by {
                assert(bytes.subrange(pos, pos + rp2.wire_bytes().len())[2 + j]
                    == rp2.wire_bytes()[2 + j]);
            }
            assert(bytes.subrange(pos + 2, pos + 2 + inner.wire_bytes().len() as int)
                =~= inner.wire_bytes());
        },
        ReturnParameters::LeRemoveIsoDataPath(inner) => {
            assert forall|j: int|
                0 <= j < inner.wire_bytes().len() implies bytes[pos + 2 + j]
                == inner.wire_bytes()[j] by {
                assert(bytes.subrange(pos, pos + rp2.wire_bytes().len())[2 + j]
                    == rp2.wire_bytes()[2 + j]);
            }
            assert(bytes.subrange(pos + 2, pos + 2 + inner.wire_bytes().len() as int)
                =~= inner.wire_bytes());
        },
        ReturnParameters::Unknown(_) => {},
    }
}

// Disconnection Complete

/// 7.7.5 Disconnection Complete event.
#[derive(Debug)]
pub struct DisconnectionComplete {
    /// Outcome of the disconnection.
    pub status: Status,
    /// Handle of the connection that ended.
    pub connection_handle: u16,
    /// Reason the connection ended.
    pub reason: u8,
}

impl EventCode for DisconnectionComplete {
    open spec fn spec_code() -> u8 {
        0x05
    }

    open spec fn spec_subcode() -> Option<u8> {
        None
    }

    fn code() -> (c: Code) {
        Code(0x05, None)
    }
}

impl Write for DisconnectionComplete {
    open spec fn wf(&self) -> bool {
        true
    }

    open spec fn wire_bytes(&self) -> Seq<u8> {
        seq![status_code(self.status)] + le16(self.connection_handle) + seq![self.reason]
    }

    fn write(&self, w: &mut Writer) {
        w.write_u8(self.status.code());
        w.write_u16(self.connection_handle);
        w.write_u8(self.reason);
        assert(w@ =~= old(w)@ + self.wire_bytes());
    }
}

impl Read for DisconnectionComplete {
    #[verifier::rlimit(50)]
    fn read(r: &mut Reader) -> (res: Option<Self>) {
        let ghost p0 = r.position();
        let ghost bytes = r.bytes();
        let ghost pk0 = r.position();
        let status = match <Status as Read>::read(r) {
            Some(x) => x,
            None => {
                proof {
                    assert forall|v2: DisconnectionComplete| v2.wf() implies !encodes_prefix(
                        bytes,
                        p0,
                        v2,
                    ) by {
                        if encodes_prefix(bytes, p0, v2) {
                            assert(pk0 == p0 + 0);
                            assert forall|j: int|
                                0 <= j < v2.status.wire_bytes().len() implies bytes[pk0 + j]
                                == v2.status.wire_bytes()[j] by {
                                assert(bytes.subrange(p0, p0 + v2.wire_bytes().len())[0 + j]
                                    == v2.wire_bytes()[0 + j]);
                            }
                            assert(bytes.subrange(
                                pk0,
                                pk0 + v2.status.wire_bytes().len(),
                            ) =~= v2.status.wire_bytes());
                            assert(encodes_prefix(bytes, pk0, v2.status));
                        }
                    }
                }
                return None;
            },
        };
        let ghost pk1 = r.position();
        let connection_handle = match r.read_u16() {
            Some(x) => x,
            None => {
                proof {
                    assert forall|v2: DisconnectionComplete| v2.wf() implies !encodes_prefix(
                        bytes,
                        p0,
                        v2,
                    ) by {
                        if encodes_prefix(bytes, p0, v2) {
                            assert(v2.wire_bytes().len() == 4);
                        }
                    }
                }
                return None;
            },
        };
        let ghost pk2 = r.position();
        let reason = match r.read_u8() {
            Some(x) => x,
            None => {
                proof {
                    assert forall|v2: DisconnectionComplete| v2.wf() implies !encodes_prefix(
                        bytes,
                        p0,
                        v2,
                    ) by {
                        if encodes_prefix(bytes, p0, v2) {
                            assert(v2.wire_bytes().len() == 4);
                        }
                    }
                }
                return None;
            },
        };
        let res = DisconnectionComplete { status, connection_handle, reason };
        proof {
            assert(res.wire_bytes() =~= bytes.subrange(p0, r.position()));
            assert forall|v2: DisconnectionComplete|
                v2.wf() && encodes_prefix(bytes, p0, v2) implies v2.wire_bytes()
                == res.wire_bytes() by {
                assert(v2.wire_bytes().len() == 4);
                assert(v2.wire_bytes() =~= bytes.subrange(p0, p0 + 4));
            }
        }
        Some(res)
    }
}

impl EventToBytes for DisconnectionComplete {
}

// Command Complete

/// 7.7.14 Command Complete event.
#[derive(Debug)]
pub struct CommandComplete {
    /// How many further command packets the controller accepts.
    pub num_hci_command_packets: u8,
    /// The answered opcode and its return parameters.
    pub return_parameters: ReturnParameters,
}

impl EventCode for CommandComplete {
    open spec fn spec_code() -> u8 {
        0x0e
    }

    open spec fn spec_subcode() -> Option<u8> {
        None
    }

    fn code() -> (c: Code) {
        Code(0x0e, None)
    }
}

impl Write for CommandComplete {
    open spec fn wf(&self) -> bool {
        self.return_parameters.wf()
    }

    open spec fn wire_bytes(&self) -> Seq<u8> {
        seq![self.num_hci_command_packets] + self.return_parameters.wire_bytes()
    }

    fn write(&self, w: &mut Writer) {
        w.write_u8(self.num_hci_command_packets);
        self.return_parameters.write(w);
        assert(w@ =~= old(w)@ + self.wire_bytes());
    }
}

impl EventToBytes for CommandComplete {
}

impl CommandComplete {
    /// Parse a Command Complete body; an unrecognized answered opcode is
    /// carried as `Unknown` return parameters, absorbing the rest. A
    /// success with recognized return parameters is the one well-formed
    /// body standing at the cursor, and a failure means there is none.
    fn read_body(r: &mut Reader) -> (res: Option<CommandComplete>)
        requires
            old(r).wf(),
        ensures
            final(r).wf(),
            final(r).bytes() == old(r).bytes(),
            match res {
                Some(e) => {
                    &&& (e.return_parameters matches ReturnParameters::Unknown(op)
                        ==> !recognized_rp_opcode(op.value()) && final(r).position() == old(r).bytes().len() && old(r).position() + 3 <= old(r).bytes().len() && op.value()
                        == val16(
                        old(r).bytes()[old(r).position() + 1],
                        old(r).bytes()[old(r).position() + 2],
                    ) && (forall|e2: CommandComplete|
                        e2.wf() ==> !#[trigger] encodes_prefix(
                            old(r).bytes(),
                            old(r).position(),
                            e2,
                        )))
                    &&& (!(e.return_parameters matches ReturnParameters::Unknown(_)) ==> e.wf()
                        && final(r).position() == old(r).position() + e.wire_bytes().len() && final(r).position() <= old(r).bytes().len() && e.wire_bytes() == old(r).bytes().subrange(old(r).position(), final(r).position()) && (forall|
                        e2: CommandComplete,
                    |
                        e2.wf() && #[trigger] encodes_prefix(old(r).bytes(), old(r).position(), e2)
                            ==> e2.wire_bytes() == e.wire_bytes()))
                },
                None => forall|e2: CommandComplete|
                    e2.wf() ==> !#[trigger] encodes_prefix(old(r).bytes(), old(r).position(), e2),
            },
    {
        let ghost p0 = r.position();
        let ghost bytes = r.bytes();
        let num_hci_command_packets = match r.read_u8() {
            Some(v) => v,
            None => {
                proof {
                    assert forall|e2: CommandComplete| e2.wf() implies !encodes_prefix(
                        bytes,
                        p0,
                        e2,
                    ) by {
                        if encodes_prefix(bytes, p0, e2) {
                            lemma_cc_shape(e2, bytes, p0);
                        }
                    }
                }
                return None;
            },
        };
        proof {
            assert forall|e2: CommandComplete|
                e2.wf() && #[trigger] encodes_prefix(bytes, p0, e2) implies encodes_prefix(
                bytes,
                p0 + 1,
                e2.return_parameters,
            ) && e2.return_parameters.wf() by {
                lemma_cc_shape(e2, bytes, p0);
            }
        }
        let return_parameters = match ReturnParameters::read_body(r) {
            Some(v) => v,
            None => {
                return None;
            },
        };
        let res = CommandComplete { num_hci_command_packets, return_parameters };
        match res.return_parameters {
            ReturnParameters::Unknown(_) => Some(res),
            _ => {
                proof {
                    assert(res.wire_bytes() =~= bytes.subrange(p0, r.position()));
                }
                Some(res)
            },
        }
    }
}

/// A well-formed Command Complete body standing at a position carries its
/// well-formed return parameters right after the command-count byte.
proof fn lemma_cc_shape(e2: CommandComplete, bytes: Seq<u8>, pos: int)
    requires
        0 <= pos,
        e2.wf(),
        encodes_prefix(bytes, pos, e2),
    ensures
        e2.wire_bytes().len() >= 3,
        encodes_prefix(bytes, pos + 1, e2.return_parameters),
        e2.return_parameters.wf(),
{
    lemma_rp_wire_len(e2.return_parameters);
    assert forall|j: int|
        0 <= j < e2.return_parameters.wire_bytes().len() implies bytes[pos + 1 + j]
        == e2.return_parameters.wire_bytes()[j] by {
        assert(bytes.subrange(pos, pos + e2.wire_bytes().len())[1 + j] == e2.wire_bytes()[1 + j]);
    }
    assert(bytes.subrange(
        pos + 1,
        pos + 1 + e2.return_parameters.wire_bytes().len() as int,
    ) =~= e2.return_parameters.wire_bytes());
}

/// Well-formed return parameters occupy at least their opcode.
proof fn lemma_rp_wire_len(rp: ReturnParameters)
    requires
        rp.wf(),
    ensures
        rp.wire_bytes().len() >= 2,
{
}

// Command Status

/// 7.7.15 Command Status event.
#[derive(Debug)]
pub struct CommandStatus {
    /// Outcome of the command so far.
    pub status: Status,
    /// How many further command packets the controller accepts.
    pub num_hci_command_packets: u8,
    /// The opcode the status answers.
    pub opcode: OpCode,
}

impl EventCode for CommandStatus {
    open spec fn spec_code() -> u8 {
        0x0f
    }

    open spec fn spec_subcode() -> Option<u8> {
        None
    }

    fn code() -> (c: Code) {
        Code(0x0f, None)
    }
}

impl Write for CommandStatus {
    open spec fn wf(&self) -> bool {
        self.opcode.wf()
    }

    open spec fn wire_bytes(&self) -> Seq<u8> {
        seq![status_code(self.status)] + seq![self.num_hci_command_packets] + self.opcode.wire_bytes()
    }

    fn write(&self, w: &mut Writer) {
        w.write_u8(self.status.code());
        w.write_u8(self.num_hci_command_packets);
        self.opcode.write(w);
        assert(w@ =~= old(w)@ + self.wire_bytes());
    }
}

impl Read for CommandStatus {
    #[verifier::rlimit(50)]
    fn read(r: &mut Reader) -> (res: Option<Self>) {
        let ghost p0 = r.position();
        let ghost bytes = r.bytes();
        let ghost pk0 = r.position();
        let status = match <Status as Read>::read(r) {
            Some(x) => x,
            None => {
                proof {
                    assert forall|v2: CommandStatus| v2.wf() implies !encodes_prefix(
                        bytes,
                        p0,
                        v2,
                    ) by {
                        if encodes_prefix(bytes, p0, v2) {
                            assert(pk0 == p0 + 0);
                            assert forall|j: int|
                                0 <= j < v2.status.wire_bytes().len() implies bytes[pk0 + j]
                                == v2.status.wire_bytes()[j] by {
                                assert(bytes.subrange(p0, p0 + v2.wire_bytes().len())[0 + j]
                                    == v2.wire_bytes()[0 + j]);
                            }
                            assert(bytes.subrange(
                                pk0,
                                pk0 + v2.status.wire_bytes().len(),
                            ) =~= v2.status.wire_bytes());
                            assert(encodes_prefix(bytes, pk0, v2.status));
                        }
                    }
                }
                return None;
            },
        };
        let ghost pk1 = r.position();
        let num_hci_command_packets = match r.read_u8() {
            Some(x) => x,
            None => {
                proof {
                    assert forall|v2: CommandStatus| v2.wf() implies !encodes_prefix(
                        bytes,
                        p0,
                        v2,
                    ) by {
                        if encodes_prefix(bytes, p0, v2) {
                            assert(v2.wire_bytes().len() == 4);
                        }
                    }
                }
                return None;
            },
        };
        let ghost pk2 = r.position();
        let opcode = match <OpCode as Read>::read(r) {
            Some(x) => x,
            None => {
                proof {
                    assert forall|v2: CommandStatus| v2.wf() implies !encodes_prefix(
                        bytes,
                        p0,
                        v2,
                    ) by {
                        if encodes_prefix(bytes, p0, v2) {
                            assert(pk2 == p0 + 2);
                            assert forall|j: int|
                                0 <= j < v2.opcode.wire_bytes().len() implies bytes[pk2 + j]
                                == v2.opcode.wire_bytes()[j] by {
                                assert(bytes.subrange(p0, p0 + v2.wire_bytes().len())[2 + j]
                                    == v2.wire_bytes()[2 + j]);
                            }
                            assert(bytes.subrange(
                                pk2,
                                pk2 + v2.opcode.wire_bytes().len(),
                            ) =~= v2.opcode.wire_bytes());
                            assert(encodes_prefix(bytes, pk2, v2.opcode));
                        }
                    }
                }
                return None;
            },
        };
        let res = CommandStatus { status, num_hci_command_packets, opcode };
        proof {
            assert(res.wire_bytes() =~= bytes.subrange(p0, r.position()));
            assert forall|v2: CommandStatus|
                v2.wf() && encodes_prefix(bytes, p0, v2) implies v2.wire_bytes()
                == res.wire_bytes() by {
                assert(v2.wire_bytes().len() == 4);
                assert(v2.wire_bytes() =~= bytes.subrange(p0, p0 + 4));
            }
        }
        Some(res)
    }
}

impl EventToBytes for CommandStatus {
}

// Number Of Completed Packets

/// 7.7.19 Number Of Completed Packets event.
#[derive(Debug)]
pub struct NumberOfCompletedPackets {
    /// Completion count for each connection handle.
    pub handles: Vec<NumberOfCompletedPacketsHandle>,
}

impl EventCode for NumberOfCompletedPackets {
    open spec fn spec_code() -> u8 {
        0x13
    }

    open spec fn spec_subcode() -> Option<u8> {
        None
    }

    fn code() -> (c: Code) {
        Code(0x13, None)
    }
}

impl Write for NumberOfCompletedPackets {
    open spec fn wf(&self) -> bool {
        self.handles.wf()
    }

    open spec fn wire_bytes(&self) -> Seq<u8> {
        self.handles.wire_bytes()
    }

    fn write(&self, w: &mut Writer) {
        self.handles.write(w);
        assert(w@ =~= old(w)@ + self.wire_bytes());
    }
}

impl Read for NumberOfCompletedPackets {
    #[verifier::rlimit(50)]
    fn read(r: &mut Reader) -> (res: Option<Self>) {
        let ghost p0 = r.position();
        let ghost bytes = r.bytes();
        let ghost pk0 = r.position();
        let handles = match <Vec<NumberOfCompletedPacketsHandle> as Read>::read(r) {
            Some(x) => x,
            None => {
                proof {
                    assert forall|v2: NumberOfCompletedPackets| v2.wf() implies !encodes_prefix(
                        bytes,
                        p0,
                        v2,
                    ) by {
                        if encodes_prefix(bytes, p0, v2) {
                            assert(v2.handles.wire_bytes().len() >= 1);
                            assert(pk0 == p0 + 0);
                            assert forall|j: int|
                                0 <= j < v2.handles.wire_bytes().len() implies bytes[pk0 + j]
                                == v2.handles.wire_bytes()[j] by {
                                assert(bytes.subrange(p0, p0 + v2.wire_bytes().len())[0 + j]
                                    == v2.wire_bytes()[0 + j]);
                            }
                            assert(bytes.subrange(
                                pk0,
                                pk0 + v2.handles.wire_bytes().len(),
                            ) =~= v2.handles.wire_bytes());
                            assert(encodes_prefix(bytes, pk0, v2.handles));
                        }
                    }
                }
                return None;
            },
        };
        let res = NumberOfCompletedPackets { handles };
        proof {
            assert(res.wire_bytes() =~= bytes.subrange(p0, r.position()));
            assert forall|v2: NumberOfCompletedPackets|
                v2.wf() && encodes_prefix(bytes, p0, v2) implies v2.wire_bytes()
                == res.wire_bytes() by {
                assert(pk0 == p0 + 0);
                assert forall|j: int|
                    0 <= j < v2.handles.wire_bytes().len() implies bytes[pk0 + j]
                    == v2.handles.wire_bytes()[j] by {
                    assert(bytes.subrange(p0, p0 + v2.wire_bytes().len())[0 + j]
                        == v2.wire_bytes()[0 + j]);
                }
                assert(bytes.subrange(
                    pk0,
                    pk0 + v2.handles.wire_bytes().len(),
                ) =~= v2.handles.wire_bytes());
                assert(encodes_prefix(bytes, pk0, v2.handles));
                assert(v2.handles.wire_bytes() == res.handles.wire_bytes());
                assert(v2.wire_bytes().len() == res.wire_bytes().len());
                assert(v2.wire_bytes() =~= bytes.subrange(
                    p0,
                    p0 + v2.wire_bytes().len(),
                ));
            }
        }
        Some(res)
    }
}

impl EventToBytes for NumberOfCompletedPackets {
}

/// One entry of Number Of Completed Packets.
#[derive(Debug, Clone, Copy, PartialEq, Eq, Structural)]
pub struct NumberOfCompletedPacketsHandle {
    /// Handle the completions belong to.
    pub connection_handle: u16,
    /// How many packets completed since the last report.
    pub num_completed_packets: u16,
}

impl Write for NumberOfCompletedPacketsHandle {
    open spec fn wf(&self) -> bool {
        true
    }

    open spec fn wire_bytes(&self) -> Seq<u8> {
        le16(self.connection_handle) + le16(self.num_completed_packets)
    }

    fn write(&self, w: &mut Writer) {
        w.write_u16(self.connection_handle);
        w.write_u16(self.num_completed_packets);
        assert(w@ =~= old(w)@ + self.wire_bytes());
    }
}

impl Read for NumberOfCompletedPacketsHandle {
    #[verifier::rlimit(50)]
    fn read(r: &mut Reader) -> (res: Option<Self>) {
        let ghost p0 = r.position();
        let ghost bytes = r.bytes();
        let ghost pk0 = r.position();
        let connection_handle = match r.read_u16() {
            Some(x) => x,
            None => {
                proof {
                    assert forall|v2: NumberOfCompletedPacketsHandle| v2.wf() implies !encodes_prefix(
                        bytes,
                        p0,
                        v2,
                    ) by {
                        if encodes_prefix(bytes, p0, v2) {
                            assert(v2.wire_bytes().len() == 4);
                        }
                    }
                }
                return None;
            },
        };
        let ghost pk1 = r.position();
        let num_completed_packets = match r.read_u16() {
            Some(x) => x,
            None => {
                proof {
                    assert forall|v2: NumberOfCompletedPacketsHandle| v2.wf() implies !encodes_prefix(
                        bytes,
                        p0,
                        v2,
                    ) by {
                        if encodes_prefix(bytes, p0, v2) {
                            assert(v2.wire_bytes().len() == 4);
                        }
                    }
                }
                return None;
            },
        };
        let res = NumberOfCompletedPacketsHandle { connection_handle, num_completed_packets };
        proof {
            assert(res.wire_bytes() =~= bytes.subrange(p0, r.position()));
            assert forall|v2: NumberOfCompletedPacketsHandle|
                v2.wf() && encodes_prefix(bytes, p0, v2) implies v2.wire_bytes()
                == res.wire_bytes() by {
                assert(v2.wire_bytes().len() == 4);
                assert(v2.wire_bytes() =~= bytes.subrange(p0, p0 + 4));
            }
        }
        Some(res)
    }
}

/// Length-prefixed sequence: one count byte, then each element.
impl Write for Vec<NumberOfCompletedPacketsHandle> {
    open spec fn wf(&self) -> bool {
        self@.len() <= 255 && seq_wf(self@)
    }

    open spec fn wire_bytes(&self) -> Seq<u8> {
        seq![self@.len() as u8] + seq_wire_bytes(self@)
    }

    fn write(&self, w: &mut Writer) {
        w.write_u8(self.len() as u8);
        let n = self.len();
        for i in 0..n
            invariant
                n == self@.len() <= 255,
                seq_wf(self@),
                w@ == old(w)@ + seq![n as u8] + seq_wire_bytes(self@.take(i as int)),
        {
            let ghost prefix = self@.take(i as int);
            self[i].write(w);
            proof {
                assert(self@.take(i + 1) =~= prefix.push(self@[i as int]));
                lemma_seq_wire_bytes_push(prefix, self@[i as int]);
                assert(w@ =~= old(w)@ + seq![n as u8] + seq_wire_bytes(self@.take(i + 1)));
            }
        }
        assert(self@.take(n as int) =~= self@);
        assert(w@ =~= old(w)@ + self.wire_bytes());
    }
}

impl Read for Vec<NumberOfCompletedPacketsHandle> {
    #[verifier::loop_isolation(false)]
    #[verifier::rlimit(50)]
    fn read(r: &mut Reader) -> (res: Option<Self>) {
        let ghost p0 = r.position();
        let ghost bytes = r.bytes();
        let len = match r.read_u8() {
            Some(v) => v,
            None => {
                proof {
                    assert forall|v2: Vec<NumberOfCompletedPacketsHandle>| v2.wf() implies !encodes_prefix(
                        bytes,
                        p0,
                        v2,
                    ) by {
                        if encodes_prefix(bytes, p0, v2) {
                            assert(v2.wire_bytes().len() >= 1);
                        }
                    }
                }
                return None;
            },
        };
        let ghost p1 = r.position();
        let mut v: Vec<NumberOfCompletedPacketsHandle> = Vec::new();
        for i in 0..len as usize
            invariant
                r.wf(),
                r.bytes() == bytes,
                v@.len() == i,
                seq_wf(v@),
                r.position() == p1 + 4 * i,
                seq_wire_bytes(v@) == bytes.subrange(p1, r.position()),
        {
            let ghost prefix = v@;
            let ghost p_before = r.position();
            let x = match <NumberOfCompletedPacketsHandle as Read>::read(r) {
                Some(x) => x,
                None => {
                    proof {
                        assert forall|v2: Vec<NumberOfCompletedPacketsHandle>| v2.wf() implies !encodes_prefix(
                            bytes,
                            p0,
                            v2,
                        ) by {
                            if encodes_prefix(bytes, p0, v2) {
                                assert forall|j: int|
                                    0 <= j < v2@.len() implies (#[trigger] v2@[j]).wire_bytes().len()
                                    == 4 by {}
                                lemma_seq_wire_bytes_len(v2@, 4);
                                assert(v2.wire_bytes()[0] == bytes.subrange(
                                    p0,
                                    p0 + v2.wire_bytes().len(),
                                )[0]);
                                assert(v2@.len() == len);
                                lemma_seq_wire_bytes_index(v2@, 4, i as int);
                                assert(p_before == p0 + 1 + 4 * (i as int));
                                assert forall|j: int|
                                    0 <= j < 4 implies bytes[p_before + j]
                                    == v2@[i as int].wire_bytes()[j] by {
                                    assert(bytes.subrange(p0, p0 + v2.wire_bytes().len())[1 + 4
                                        * (i as int) + j] == v2.wire_bytes()[1 + 4 * (i as int)
                                        + j]);
                                    assert(seq_wire_bytes(v2@).subrange(
                                        4 * (i as int),
                                        4 * (i as int) + 4,
                                    )[j] == seq_wire_bytes(v2@)[4 * (i as int) + j]);
                                }
                                assert(bytes.subrange(
                                    p_before,
                                    p_before + 4,
                                ) =~= v2@[i as int].wire_bytes());
                                assert(encodes_prefix(bytes, p_before, v2@[i as int]));
                            }
                        }
                    }
                    return None;
                },
            };
            v.push(x);
            proof {
                assert(v@ =~= prefix.push(x));
                lemma_seq_wire_bytes_push(prefix, x);
                assert(bytes.subrange(p1, p_before) + bytes.subrange(p_before, r.position())
                    =~= bytes.subrange(p1, r.position()));
                assert(seq_wire_bytes(v@) =~= bytes.subrange(p1, r.position()));
            }
        }
        proof {
            assert(v.wire_bytes() =~= bytes.subrange(p0, r.position()));
            assert forall|v2: Vec<NumberOfCompletedPacketsHandle>|
                v2.wf() && encodes_prefix(bytes, p0, v2) implies v2.wire_bytes()
                == v.wire_bytes() by {
                assert forall|j: int|
                    0 <= j < v2@.len() implies (#[trigger] v2@[j]).wire_bytes().len() == 4 by {}
                lemma_seq_wire_bytes_len(v2@, 4);
                assert(v2.wire_bytes()[0] == bytes.subrange(p0, p0 + v2.wire_bytes().len())[0]);
                assert(v2@.len() == len);
                assert(v2.wire_bytes() =~= bytes.subrange(p0, p0 + 1 + 4 * (len as int)));
            }
        }
        Some(v)
    }
}

// LE CIS Established

/// 7.7.65.25 LE CIS Established event.
#[derive(Debug)]
pub struct LeCisEstablished {
    /// Outcome of the establishment.
    pub status: Status,
    /// Handle of the established CIS.
    pub connection_handle: u16,
    /// CIG synchronization delay in microseconds (24 bits).
    pub cig_sync_delay: u32,
    /// CIS synchronization delay in microseconds (24 bits).
    pub cis_sync_delay: u32,
    /// Transport latency central to peripheral in microseconds (24 bits).
    pub transport_latency_c_to_p: u32,
    /// Transport latency peripheral to central in microseconds (24 bits).
    pub transport_latency_p_to_c: u32,
    /// PHY in use central to peripheral.
    pub phy_c_to_p: u8,
    /// PHY in use peripheral to central.
    pub phy_p_to_c: u8,
    /// Number of subevents.
    pub nse: u8,
    /// Burst number central to peripheral.
    pub bn_c_to_p: u8,
    /// Burst number peripheral to central.
    pub bn_p_to_c: u8,
    /// Flush timeout central to peripheral.
    pub ft_c_to_p: u8,
    /// Flush timeout peripheral to central.
    pub ft_p_to_c: u8,
    /// Largest PDU central to peripheral.
    pub max_pdu_c_to_p: u16,
    /// Largest PDU peripheral to central.
    pub max_pdu_p_to_c: u16,
    /// ISO interval in units of 1.25 milliseconds.
    pub iso_interval: u16,
}

impl EventCode for LeCisEstablished {
    open spec fn spec_code() -> u8 {
        0x3e
    }

    open spec fn spec_subcode() -> Option<u8> {
        Some(0x19)
    }

    fn code() -> (c: Code) {
        Code(0x3e, Some(0x19))
    }
}

impl Write for LeCisEstablished {
    open spec fn wf(&self) -> bool {
        self.cig_sync_delay < 0x100_0000 && self.cis_sync_delay < 0x100_0000 && self.transport_latency_c_to_p < 0x100_0000 && self.transport_latency_p_to_c < 0x100_0000
    }

    open spec fn wire_bytes(&self) -> Seq<u8> {
        seq![status_code(self.status)] + le16(self.connection_handle) + le24(self.cig_sync_delay) + le24(self.cis_sync_delay) + le24(self.transport_latency_c_to_p) + le24(self.transport_latency_p_to_c) + seq![self.phy_c_to_p] + seq![self.phy_p_to_c] + seq![self.nse] + seq![self.bn_c_to_p] + seq![self.bn_p_to_c] + seq![self.ft_c_to_p] + seq![self.ft_p_to_c] + le16(self.max_pdu_c_to_p) + le16(self.max_pdu_p_to_c) + le16(self.iso_interval)
    }

    fn write(&self, w: &mut Writer) {
        w.write_u8(self.status.code());
        w.write_u16(self.connection_handle);
        w.write_u24(self.cig_sync_delay);
        w.write_u24(self.cis_sync_delay);
        w.write_u24(self.transport_latency_c_to_p);
        w.write_u24(self.transport_latency_p_to_c);
        w.write_u8(self.phy_c_to_p);
        w.write_u8(self.phy_p_to_c);
        w.write_u8(self.nse);
        w.write_u8(self.bn_c_to_p);
        w.write_u8(self.bn_p_to_c);
        w.write_u8(self.ft_c_to_p);
        w.write_u8(self.ft_p_to_c);
        w.write_u16(self.max_pdu_c_to_p);
        w.write_u16(self.max_pdu_p_to_c);
        w.write_u16(self.iso_interval);
        assert(w@ =~= old(w)@ + self.wire_bytes());
    }
}

impl Read for LeCisEstablished {
    #[verifier::rlimit(100)]
    #[verifier::spinoff_prover]
    fn read(r: &mut Reader) -> (res: Option<Self>) {
        let ghost p0 = r.position();
        let ghost bytes = r.bytes();
        let ghost pk0 = r.position();
        let status = match <Status as Read>::read(r) {
            Some(x) => x,
            None => {
                proof {
                    assert forall|v2: LeCisEstablished| v2.wf() implies !encodes_prefix(
                        bytes,
                        p0,
                        v2,
                    ) by {
                        if encodes_prefix(bytes, p0, v2) {
                            assert(pk0 == p0 + 0);
                            assert forall|j: int|
                                0 <= j < v2.status.wire_bytes().len() implies bytes[pk0 + j]
                                == v2.status.wire_bytes()[j] by {
                                assert(bytes.subrange(p0, p0 + v2.wire_bytes().len())[0 + j]
                                    == v2.wire_bytes()[0 + j]);
                            }
                            assert(bytes.subrange(
                                pk0,
                                pk0 + v2.status.wire_bytes().len(),
                            ) =~= v2.status.wire_bytes());
                            assert(encodes_prefix(bytes, pk0, v2.status));
                        }
                    }
                }
                return None;
            },
        };
        let ghost pk1 = r.position();
        let connection_handle = match r.read_u16() {
            Some(x) => x,
            None => {
                proof {
                    assert forall|v2: LeCisEstablished| v2.wf() implies !encodes_prefix(
                        bytes,
                        p0,
                        v2,
                    ) by {
                        if encodes_prefix(bytes, p0, v2) {
                            assert(v2.wire_bytes().len() == 28);
                        }
                    }
                }
                return None;
            },
        };
        let ghost pk2 = r.position();
        let cig_sync_delay = match r.read_u24() {
            Some(x) => x,
            None => {
                proof {
                    assert forall|v2: LeCisEstablished| v2.wf() implies !encodes_prefix(
                        bytes,
                        p0,
                        v2,
                    ) by {
                        if encodes_prefix(bytes, p0, v2) {
                            assert(v2.wire_bytes().len() == 28);
                        }
                    }
                }
                return None;
            },
        };
        let ghost pk3 = r.position();
        let cis_sync_delay = match r.read_u24() {
            Some(x) => x,
            None => {
                proof {
                    assert forall|v2: LeCisEstablished| v2.wf() implies !encodes_prefix(
                        bytes,
                        p0,
                        v2,
                    ) by {
                        if encodes_prefix(bytes, p0, v2) {
                            assert(v2.wire_bytes().len() == 28);
                        }
                    }
                }
                return None;
            },
        };
        let ghost pk4 = r.position();
        let transport_latency_c_to_p = match r.read_u24() {
            Some(x) => x,
            None => {
                proof {
                    assert forall|v2: LeCisEstablished| v2.wf() implies !encodes_prefix(
                        bytes,
                        p0,
                        v2,
                    ) by {
                        if encodes_prefix(bytes, p0, v2) {
                            assert(v2.wire_bytes().len() == 28);
                        }
                    }
                }
                return None;
            },
        };
        let ghost pk5 = r.position();
        let transport_latency_p_to_c = match r.read_u24() {
            Some(x) => x,
            None => {
                proof {
                    assert forall|v2: LeCisEstablished| v2.wf() implies !encodes_prefix(
                        bytes,
                        p0,
                        v2,
                    ) by {
                        if encodes_prefix(bytes, p0, v2) {
                            assert(v2.wire_bytes().len() == 28);
                        }
                    }
                }
                return None;
            },
        };
        let ghost pk6 = r.position();
        let phy_c_to_p = match r.read_u8() {
            Some(x) => x,
            None => {
                proof {
                    assert forall|v2: LeCisEstablished| v2.wf() implies !encodes_prefix(
                        bytes,
                        p0,
                        v2,
                    ) by {
                        if encodes_prefix(bytes, p0, v2) {
                            assert(v2.wire_bytes().len() == 28);
                        }
                    }
                }
                return None;
            },
        };
        let ghost pk7 = r.position();
        let phy_p_to_c = match r.read_u8() {
            Some(x) => x,
            None => {
                proof {
                    assert forall|v2: LeCisEstablished| v2.wf() implies !encodes_prefix(
                        bytes,
                        p0,
                        v2,
                    ) by {
                        if encodes_prefix(bytes, p0, v2) {
                            assert(v2.wire_bytes().len() == 28);
                        }
                    }
                }
                return None;
            },
        };
        let ghost pk8 = r.position();
        let nse = match r.read_u8() {
            Some(x) => x,
            None => {
                proof {
                    assert forall|v2: LeCisEstablished| v2.wf() implies !encodes_prefix(
                        bytes,
                        p0,
                        v2,
                    ) by {
                        if encodes_prefix(bytes, p0, v2) {
                            assert(v2.wire_bytes().len() == 28);
                        }
                    }
                }
                return None;
            },
        };
        let ghost pk9 = r.position();
        let bn_c_to_p = match r.read_u8() {
            Some(x) => x,
            None => {
                proof {
                    assert forall|v2: LeCisEstablished| v2.wf() implies !encodes_prefix(
                        bytes,
                        p0,
                        v2,
                    ) by {
                        if encodes_prefix(bytes, p0, v2) {
                            assert(v2.wire_bytes().len() == 28);
                        }
                    }
                }
                return None;
            },
        };
        let ghost pk10 = r.position();
        let bn_p_to_c = match r.read_u8() {
            Some(x) => x,
            None => {
                proof {
                    assert forall|v2: LeCisEstablished| v2.wf() implies !encodes_prefix(
                        bytes,
                        p0,
                        v2,
                    ) by {
                        if encodes_prefix(bytes, p0, v2) {
                            assert(v2.wire_bytes().len() == 28);
                        }
                    }
                }
                return None;
            },
        };
        let ghost pk11 = r.position();
        let ft_c_to_p = match r.read_u8() {
            Some(x) => x,
            None => {
                proof {
                    assert forall|v2: LeCisEstablished| v2.wf() implies !encodes_prefix(
                        bytes,
                        p0,
                        v2,
                    ) by {
                        if encodes_prefix(bytes, p0, v2) {
                            assert(v2.wire_bytes().len() == 28);
                        }
                    }
                }
                return None;
            },
        };
        let ghost pk12 = r.position();
        let ft_p_to_c = match r.read_u8() {
            Some(x) => x,
            None => {
                proof {
                    assert forall|v2: LeCisEstablished| v2.wf() implies !encodes_prefix(
                        bytes,
                        p0,
                        v2,
                    ) by {
                        if encodes_prefix(bytes, p0, v2) {
                            assert(v2.wire_bytes().len() == 28);
                        }
                    }
                }
                return None;
            },
        };
        let ghost pk13 = r.position();
        let max_pdu_c_to_p = match r.read_u16() {
            Some(x) => x,
            None => {
                proof {
                    assert forall|v2: LeCisEstablished| v2.wf() implies !encodes_prefix(
                        bytes,
                        p0,
                        v2,
                    ) by {
                        if encodes_prefix(bytes, p0, v2) {
                            assert(v2.wire_bytes().len() == 28);
                        }
                    }
                }
                return None;
            },
        };
        let ghost pk14 = r.position();
        let max_pdu_p_to_c = match r.read_u16() {
            Some(x) => x,
            None => {
                proof {
                    assert forall|v2: LeCisEstablished| v2.wf() implies !encodes_prefix(
                        bytes,
                        p0,
                        v2,
                    ) by {
                        if encodes_prefix(bytes, p0, v2) {
                            assert(v2.wire_bytes().len() == 28);
                        }
                    }
                }
                return None;
            },
        };
        let ghost pk15 = r.position();
        let iso_interval = match r.read_u16() {
            Some(x) => x,
            None => {
                proof {
                    assert forall|v2: LeCisEstablished| v2.wf() implies !encodes_prefix(
                        bytes,
                        p0,
                        v2,
                    ) by {
                        if encodes_prefix(bytes, p0, v2) {
                            assert(v2.wire_bytes().len() == 28);
                        }
                    }
                }
                return None;
            },
        };
        let res = LeCisEstablished { status, connection_handle, cig_sync_delay, cis_sync_delay, transport_latency_c_to_p, transport_latency_p_to_c, phy_c_to_p, phy_p_to_c, nse, bn_c_to_p, bn_p_to_c, ft_c_to_p, ft_p_to_c, max_pdu_c_to_p, max_pdu_p_to_c, iso_interval };
        proof {
            assert(res.wire_bytes() =~= bytes.subrange(p0, r.position()));
            assert forall|v2: LeCisEstablished|
                v2.wf() && encodes_prefix(bytes, p0, v2) implies v2.wire_bytes()
                == res.wire_bytes() by {
                assert(v2.wire_bytes().len() == 28);
                assert(v2.wire_bytes() == bytes.subrange(p0, p0 + 28));
            }
        }
        Some(res)
    }
}

impl EventToBytes for LeCisEstablished {
}

// LE Create BIG Complete

/// 7.7.65.27 LE Create BIG Complete event.
#[derive(Debug)]
pub struct LeCreateBigComplete {
    /// Outcome of the creation.
    pub status: Status,
    /// Identifier of the BIG.
    pub big_handle: u8,
    /// BIG synchronization delay in microseconds (24 bits).
    pub big_sync_delay: u32,
    /// BIG transport latency in microseconds (24 bits).
    pub big_transport_latency: u32,
    /// PHY in use.
    pub phy: u8,
    /// Number of subevents.
    pub nse: u8,
    /// Burst number.
    pub bn: u8,
    /// Pre-transmission offset.
    pub pto: u8,
    /// Immediate repetition count.
    pub irc: u8,
    /// Largest PDU.
    pub max_pdu: u16,
    /// ISO interval in units of 1.25 milliseconds.
    pub iso_interval: u16,
    /// Connection handle of each BIS.
    pub bis_handles: Vec<u16>,
}

impl EventCode for LeCreateBigComplete {
    open spec fn spec_code() -> u8 {
        0x3e
    }

    open spec fn spec_subcode() -> Option<u8> {
        Some(0x1b)
    }

    fn code() -> (c: Code) {
        Code(0x3e, Some(0x1b))
    }
}

impl Write for LeCreateBigComplete {
    open spec fn wf(&self) -> bool {
        self.big_sync_delay < 0x100_0000 && self.big_transport_latency < 0x100_0000 && self.bis_handles.wf()
    }

    open spec fn wire_bytes(&self) -> Seq<u8> {
        seq![status_code(self.status)] + seq![self.big_handle] + le24(self.big_sync_delay) + le24(self.big_transport_latency) + seq![self.phy] + seq![self.nse] + seq![self.bn] + seq![self.pto] + seq![self.irc] + le16(self.max_pdu) + le16(self.iso_interval) + self.bis_handles.wire_bytes()
    }

    fn write(&self, w: &mut Writer) {
        w.write_u8(self.status.code());
        w.write_u8(self.big_handle);
        w.write_u24(self.big_sync_delay);
        w.write_u24(self.big_transport_latency);
        w.write_u8(self.phy);
        w.write_u8(self.nse);
        w.write_u8(self.bn);
        w.write_u8(self.pto);
        w.write_u8(self.irc);
        w.write_u16(self.max_pdu);
        w.write_u16(self.iso_interval);
        self.bis_handles.write(w);
        assert(w@ =~= old(w)@ + self.wire_bytes());
    }
}

impl Read for LeCreateBigComplete {
    #[verifier::rlimit(100)]
    fn read(r: &mut Reader) -> (res: Option<Self>) {
        let ghost p0 = r.position();
        let ghost bytes = r.bytes();
        let ghost pk0 = r.position();
        let status = match <Status as Read>::read(r) {
            Some(x) => x,
            None => {
                proof {
                    assert forall|v2: LeCreateBigComplete| v2.wf() implies !encodes_prefix(
                        bytes,
                        p0,
                        v2,
                    ) by {
                        if encodes_prefix(bytes, p0, v2) {
                            assert(v2.bis_handles.wire_bytes().len() >= 1);
                            assert(pk0 == p0 + 0);
                            assert forall|j: int|
                                0 <= j < v2.status.wire_bytes().len() implies bytes[pk0 + j]
                                == v2.status.wire_bytes()[j] by {
                                assert(bytes.subrange(p0, p0 + v2.wire_bytes().len())[0 + j]
                                    == v2.wire_bytes()[0 + j]);
                            }
                            assert(bytes.subrange(
                                pk0,
                                pk0 + v2.status.wire_bytes().len(),
                            ) =~= v2.status.wire_bytes());
                            assert(encodes_prefix(bytes, pk0, v2.status));
                        }
                    }
                }
                return None;
            },
        };
        let ghost pk1 = r.position();
        let big_handle = match r.read_u8() {
            Some(x) => x,
            None => {
                proof {
                    assert forall|v2: LeCreateBigComplete| v2.wf() implies !encodes_prefix(
                        bytes,
                        p0,
                        v2,
                    ) by {
                        if encodes_prefix(bytes, p0, v2) {
                            assert(v2.bis_handles.wire_bytes().len() >= 1);
                            assert(v2.wire_bytes().len() >= 18);
                        }
                    }
                }
                return None;
            },
        };
        let ghost pk2 = r.position();
        let big_sync_delay = match r.read_u24() {
            Some(x) => x,
            None => {
                proof {
                    assert forall|v2: LeCreateBigComplete| v2.wf() implies !encodes_prefix(
                        bytes,
                        p0,
                        v2,
                    ) by {
                        if encodes_prefix(bytes, p0, v2) {
                            assert(v2.bis_handles.wire_bytes().len() >= 1);
                            assert(v2.wire_bytes().len() >= 18);
                        }
                    }
                }
                return None;
            },
        };
        let ghost pk3 = r.position();
        let big_transport_latency = match r.read_u24() {
            Some(x) => x,
            None => {
                proof {
                    assert forall|v2: LeCreateBigComplete| v2.wf() implies !encodes_prefix(
                        bytes,
                        p0,
                        v2,
                    ) by {
                        if encodes_prefix(bytes, p0, v2) {
                            assert(v2.bis_handles.wire_bytes().len() >= 1);
                            assert(v2.wire_bytes().len() >= 18);
                        }
                    }
                }
                return None;
            },
        };
        let ghost pk4 = r.position();
        let phy = match r.read_u8() {
            Some(x) => x,
            None => {
                proof {
                    assert forall|v2: LeCreateBigComplete| v2.wf() implies !encodes_prefix(
                        bytes,
                        p0,
                        v2,
                    ) by {
                        if encodes_prefix(bytes, p0, v2) {
                            assert(v2.bis_handles.wire_bytes().len() >= 1);
                            assert(v2.wire_bytes().len() >= 18);
                        }
                    }
                }
                return None;
            },
        };
        let ghost pk5 = r.position();
        let nse = match r.read_u8() {
            Some(x) => x,
            None => {
                proof {
                    assert forall|v2: LeCreateBigComplete| v2.wf() implies !encodes_prefix(
                        bytes,
                        p0,
                        v2,
                    ) by {
                        if encodes_prefix(bytes, p0, v2) {
                            assert(v2.bis_handles.wire_bytes().len() >= 1);
                            assert(v2.wire_bytes().len() >= 18);
                        }
                    }
                }
                return None;
            },
        };
        let ghost pk6 = r.position();
        let bn = match r.read_u8() {
            Some(x) => x,
            None => {
                proof {
                    assert forall|v2: LeCreateBigComplete| v2.wf() implies !encodes_prefix(
                        bytes,
                        p0,
                        v2,
                    ) by {
                        if encodes_prefix(bytes, p0, v2) {
                            assert(v2.bis_handles.wire_bytes().len() >= 1);
                            assert(v2.wire_bytes().len() >= 18);
                        }
                    }
                }
                return None;
            },
        };
        let ghost pk7 = r.position();
        let pto = match r.read_u8() {
            Some(x) => x,
            None => {
                proof {
                    assert forall|v2: LeCreateBigComplete| v2.wf() implies !encodes_prefix(
                        bytes,
                        p0,
                        v2,
                    ) by {
                        if encodes_prefix(bytes, p0, v2) {
                            assert(v2.bis_handles.wire_bytes().len() >= 1);
                            assert(v2.wire_bytes().len() >= 18);
                        }
                    }
                }
                return None;
            },
        };
        let ghost pk8 = r.position();
        let irc = match r.read_u8() {
            Some(x) => x,
            None => {
                proof {
                    assert forall|v2: LeCreateBigComplete| v2.wf() implies !encodes_prefix(
                        bytes,
                        p0,
                        v2,
                    ) by {
                        if encodes_prefix(bytes, p0, v2) {
                            assert(v2.bis_handles.wire_bytes().len() >= 1);
                            assert(v2.wire_bytes().len() >= 18);
                        }
                    }
                }
                return None;
            },
        };
        let ghost pk9 = r.position();
        let max_pdu = match r.read_u16() {
            Some(x) => x,
            None => {
                proof {
                    assert forall|v2: LeCreateBigComplete| v2.wf() implies !encodes_prefix(
                        bytes,
                        p0,
                        v2,
                    ) by {
                        if encodes_prefix(bytes, p0, v2) {
                            assert(v2.bis_handles.wire_bytes().len() >= 1);
                            assert(v2.wire_bytes().len() >= 18);
                        }
                    }
                }
                return None;
            },
        };
        let ghost pk10 = r.position();
        let iso_interval = match r.read_u16() {
            Some(x) => x,
            None => {
                proof {
                    assert forall|v2: LeCreateBigComplete| v2.wf() implies !encodes_prefix(
                        bytes,
                        p0,
                        v2,
                    ) by {
                        if encodes_prefix(bytes, p0, v2) {
                            assert(v2.bis_handles.wire_bytes().len() >= 1);
                            assert(v2.wire_bytes().len() >= 18);
                        }
                    }
                }
                return None;
            },
        };
        let ghost pk11 = r.position();
        let bis_handles = match <Vec<u16> as Read>::read(r) {
            Some(x) => x,
            None => {
                proof {
                    assert forall|v2: LeCreateBigComplete| v2.wf() implies !encodes_prefix(
                        bytes,
                        p0,
                        v2,
                    ) by {
                        if encodes_prefix(bytes, p0, v2) {
                            assert(v2.bis_handles.wire_bytes().len() >= 1);
                            assert(pk11 == p0 + 17);
                            assert forall|j: int|
                                0 <= j < v2.bis_handles.wire_bytes().len() implies bytes[pk11 + j]
                                == v2.bis_handles.wire_bytes()[j] by {
                                assert(bytes.subrange(p0, p0 + v2.wire_bytes().len())[17 + j]
                                    == v2.wire_bytes()[17 + j]);
                            }
                            assert(bytes.subrange(
                                pk11,
                                pk11 + v2.bis_handles.wire_bytes().len(),
                            ) =~= v2.bis_handles.wire_bytes());
                            assert(encodes_prefix(bytes, pk11, v2.bis_handles));
                        }
                    }
                }
                return None;
            },
        };
        let res = LeCreateBigComplete { status, big_handle, big_sync_delay, big_transport_latency, phy, nse, bn, pto, irc, max_pdu, iso_interval, bis_handles };
        proof {
            assert(res.wire_bytes() =~= bytes.subrange(p0, r.position()));
            assert forall|v2: LeCreateBigComplete|
                v2.wf() && encodes_prefix(bytes, p0, v2) implies v2.wire_bytes()
                == res.wire_bytes() by {
                assert(pk11 == p0 + 17);
                assert forall|j: int|
                    0 <= j < v2.bis_handles.wire_bytes().len() implies bytes[pk11 + j]
                    == v2.bis_handles.wire_bytes()[j] by {
                    assert(bytes.subrange(p0, p0 + v2.wire_bytes().len())[17 + j]
                        == v2.wire_bytes()[17 + j]);
                }
                assert(bytes.subrange(
                    pk11,
                    pk11 + v2.bis_handles.wire_bytes().len(),
                ) =~= v2.bis_handles.wire_bytes());
                assert(encodes_prefix(bytes, pk11, v2.bis_handles));
                assert(v2.bis_handles.wire_bytes() == res.bis_handles.wire_bytes());
                assert(v2.wire_bytes().len() == res.wire_bytes().len());
                assert(v2.wire_bytes() =~= bytes.subrange(
                    p0,
                    p0 + v2.wire_bytes().len(),
                ));
            }
        }
        Some(res)
    }
}

impl EventToBytes for LeCreateBigComplete {
}

// LE Terminate BIG Complete

/// 7.7.65.28 LE Terminate BIG Complete event.
#[derive(Debug)]
pub struct LeTerminateBigComplete {
    /// Identifier of the terminated BIG.
    pub big_handle: u8,
    /// Reason the BIG ended.
    pub reason: u8,
}

impl EventCode for LeTerminateBigComplete {
    open spec fn spec_code() -> u8 {
        0x3e
    }

    open spec fn spec_subcode() -> Option<u8> {
        Some(0x1c)
    }

    fn code() -> (c: Code) {
        Code(0x3e, Some(0x1c))
    }
}

impl Write for LeTerminateBigComplete {
    open spec fn wf(&self) -> bool {
        true
    }

    open spec fn wire_bytes(&self) -> Seq<u8> {
        seq![self.big_handle] + seq![self.reason]
    }

    fn write(&self, w: &mut Writer) {
        w.write_u8(self.big_handle);
        w.write_u8(self.reason);
        assert(w@ =~= old(w)@ + self.wire_bytes());
    }
}

impl Read for LeTerminateBigComplete {
    #[verifier::rlimit(50)]
    fn read(r: &mut Reader) -> (res: Option<Self>) {
        let ghost p0 = r.position();
        let ghost bytes = r.bytes();
        let ghost pk0 = r.position();
        let big_handle = match r.read_u8() {
            Some(x) => x,
            None => {
                proof {
                    assert forall|v2: LeTerminateBigComplete| v2.wf() implies !encodes_prefix(
                        bytes,
                        p0,
                        v2,
                    ) by {
                        if encodes_prefix(bytes, p0, v2) {
                            assert(v2.wire_bytes().len() == 2);
                        }
                    }
                }
                return None;
            },
        };
        let ghost pk1 = r.position();
        let reason = match r.read_u8() {
            Some(x) => x,
            None => {
                proof {
                    assert forall|v2: LeTerminateBigComplete| v2.wf() implies !encodes_prefix(
                        bytes,
                        p0,
                        v2,
                    ) by {
                        if encodes_prefix(bytes, p0, v2) {
                            assert(v2.wire_bytes().len() == 2);
                        }
                    }
                }
                return None;
            },
        };
        let res = LeTerminateBigComplete { big_handle, reason };
        proof {
            assert(res.wire_bytes() =~= bytes.subrange(p0, r.position()));
            assert forall|v2: LeTerminateBigComplete|
                v2.wf() && encodes_prefix(bytes, p0, v2) implies v2.wire_bytes()
                == res.wire_bytes() by {
                assert(v2.wire_bytes().len() == 2);
                assert(v2.wire_bytes() =~= bytes.subrange(p0, p0 + 2));
            }
        }
        Some(res)
    }
}

impl EventToBytes for LeTerminateBigComplete {
}

} // verus!
