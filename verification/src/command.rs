//! HCI commands and command return parameters.
//!
//! A command packet is a 16-bit opcode, a one-byte parameter length, then
//! the parameters. Decoding checks that the declared length covers exactly
//! the rest of the packet; encoding back-patches the length byte. Every
//! recognized packet re-serializes to the exact bytes it was parsed from.

use vstd::prelude::*;

use crate::reader::{encodes_prefix, Read, Reader};
use crate::status::{status_code, Status};
use crate::wire::{le16, le24, val16};
use crate::writer::{lemma_seq_wire_bytes_index, lemma_seq_wire_bytes_len,
    lemma_seq_wire_bytes_push, seq_wf, seq_wire_bytes, Write, Writer};

verus! {

/// HCI command packet framing: opcode, one-byte body length, body.
pub open spec fn command_packet(op: u16, body: Seq<u8>) -> Seq<u8> {
    le16(op) + seq![body.len() as u8] + body
}

/// OpCode of an HCI command: a 10-bit command field (OCF) in the low bits
/// and a 6-bit group field (OGF) above it.
#[derive(Debug, Clone, Copy, PartialEq, Eq, Structural)]
pub struct OpCode(u16);

impl OpCode {
    /// The packed 16-bit value.
    pub closed spec fn value(&self) -> u16 {
        self.0
    }

    /// The packed 16-bit value, as read from or put on the wire.
    pub fn as_u16(&self) -> (r: u16)
        ensures
            r == self.value(),
    {
        self.0
    }

    /// OpCode from its packed 16-bit value.
    pub fn from_u16(v: u16) -> (r: Self)
        ensures
            r.value() == v,
    {
        OpCode(v)
    }

    /// OpCode from OpCode Group Field (OGF) and OpCode Command Field (OCF).
    pub fn from(ogf: u16, ocf: u16) -> (r: Self)
        requires
            ogf < 0x40,
            ocf < 0x400,
        ensures
            r.value() == ocf + ogf * 0x400,
    {
        OpCode(ocf + ogf * 0x400)
    }
}

impl From<u16> for OpCode {
    fn from(v: u16) -> (r: Self) {
        OpCode(v)
    }
}

impl vstd::std_specs::convert::FromSpecImpl<u16> for OpCode {
    open spec fn obeys_from_spec() -> bool {
        true
    }

    closed spec fn from_spec(v: u16) -> OpCode {
        OpCode(v)
    }
}

impl Write for OpCode {
    open spec fn wf(&self) -> bool {
        true
    }

    open spec fn wire_bytes(&self) -> Seq<u8> {
        le16(self.value())
    }

    fn write(&self, w: &mut Writer) {
        w.write_u16(self.0);
        assert(w@ =~= old(w)@ + self.wire_bytes());
    }
}

impl Read for OpCode {
    fn read(r: &mut Reader) -> (res: Option<Self>) {
        let ghost p0 = r.position();
        let ghost bytes = r.bytes();
        let v = match r.read_u16() {
            Some(v) => v,
            None => {
                proof {
                    assert forall|v2: OpCode| v2.wf() implies !encodes_prefix(
                        bytes,
                        p0,
                        v2,
                    ) by {
                        if encodes_prefix(bytes, p0, v2) {
                            assert(v2.wire_bytes().len() == 2);
                        }
                    }
                }
                return None;
            },
        };
        let res = OpCode(v);
        proof {
            assert(res.wire_bytes() =~= bytes.subrange(p0, r.position()));
            assert forall|v2: OpCode|
                v2.wf() && encodes_prefix(bytes, p0, v2) implies v2.wire_bytes()
                == res.wire_bytes() by {
                assert(v2.wire_bytes() =~= bytes.subrange(p0, p0 + 2));
            }
        }
        Some(res)
    }
}

/// The opcode under which a command is framed.
pub trait CommandOpCode {
    /// The packed 16-bit opcode value.
    spec fn spec_opcode() -> u16;

    /// The opcode as a value.
    fn opcode() -> (r: OpCode)
        ensures
            r.value() == Self::spec_opcode(),
    ;
}

/// Frame a command body under its opcode: opcode, back-patched length, body.
pub trait CommandToBytes: CommandOpCode + Write + Sized {
    /// Output the HCI command packet.
    fn to_bytes(&self) -> (r: Vec<u8>)
        requires
            self.wf(),
            self.wire_bytes().len() <= 255,
        ensures
            r@ == command_packet(Self::spec_opcode(), self.wire_bytes()),
    {
        let mut w = Writer::new(Vec::new());
        let op = Self::opcode();
        op.write(&mut w);
        w.write_u8(0);
        self.write(&mut w);
        let n = w.len();
        w.set(2, (n - 3) as u8);
        let r = w.into_vec();
        proof {
            assert(r@ =~= command_packet(Self::spec_opcode(), self.wire_bytes()));
        }
        r
    }
}

/// HCI command, one variant per recognized opcode.
#[derive(Debug)]
pub enum Command {
    /// Reset
    Reset(Reset),
    /// LE Set CIG Parameters
    LeSetCigParameters(LeSetCigParameters),
    /// LE Create CIS
    LeCreateCis(LeCreateCis),
    /// LE Remove CIG
    LeRemoveCig(LeRemoveCig),
    /// LE Create BIG
    LeCreateBig(LeCreateBig),
    /// LE Setup ISO Data Path
    LeSetupIsoDataPath(LeSetupIsoDataPath),
    /// LE Remove ISO Data Path
    LeRemoveIsoDataPath(LeRemoveIsoDataPath),
    /// Unrecognized command, carrying its opcode for passthrough
    Unknown(OpCode),
}

/// Whether an opcode value names a recognized command.
pub open spec fn recognized_opcode(v: u16) -> bool {
    ||| v == <Reset as CommandOpCode>::spec_opcode()
    ||| v == <LeSetCigParameters as CommandOpCode>::spec_opcode()
    ||| v == <LeCreateCis as CommandOpCode>::spec_opcode()
    ||| v == <LeRemoveCig as CommandOpCode>::spec_opcode()
    ||| v == <LeCreateBig as CommandOpCode>::spec_opcode()
    ||| v == <LeSetupIsoDataPath as CommandOpCode>::spec_opcode()
    ||| v == <LeRemoveIsoDataPath as CommandOpCode>::spec_opcode()
}

impl Command {
    /// The opcode value this command is framed under.
    pub open spec fn op_value(&self) -> u16 {
        match *self {
            Command::Reset(ref c) => <Reset as CommandOpCode>::spec_opcode(),
            Command::LeSetCigParameters(ref c) => <LeSetCigParameters as CommandOpCode>::spec_opcode(),
            Command::LeCreateCis(ref c) => <LeCreateCis as CommandOpCode>::spec_opcode(),
            Command::LeRemoveCig(ref c) => <LeRemoveCig as CommandOpCode>::spec_opcode(),
            Command::LeCreateBig(ref c) => <LeCreateBig as CommandOpCode>::spec_opcode(),
            Command::LeSetupIsoDataPath(ref c) => <LeSetupIsoDataPath as CommandOpCode>::spec_opcode(),
            Command::LeRemoveIsoDataPath(ref c) => <LeRemoveIsoDataPath as CommandOpCode>::spec_opcode(),
            Command::Unknown(op) => op.value(),
        }
    }

    /// The command body is well formed.
    pub open spec fn body_wf(&self) -> bool {
        match *self {
            Command::Reset(ref c) => c.wf(),
            Command::LeSetCigParameters(ref c) => c.wf(),
            Command::LeCreateCis(ref c) => c.wf(),
            Command::LeRemoveCig(ref c) => c.wf(),
            Command::LeCreateBig(ref c) => c.wf(),
            Command::LeSetupIsoDataPath(ref c) => c.wf(),
            Command::LeRemoveIsoDataPath(ref c) => c.wf(),
            Command::Unknown(_) => false,
        }
    }

    /// The wire bytes of the command body (the parameters).
    pub open spec fn body_bytes(&self) -> Seq<u8> {
        match *self {
            Command::Reset(ref c) => c.wire_bytes(),
            Command::LeSetCigParameters(ref c) => c.wire_bytes(),
            Command::LeCreateCis(ref c) => c.wire_bytes(),
            Command::LeRemoveCig(ref c) => c.wire_bytes(),
            Command::LeCreateBig(ref c) => c.wire_bytes(),
            Command::LeSetupIsoDataPath(ref c) => c.wire_bytes(),
            Command::LeRemoveIsoDataPath(ref c) => c.wire_bytes(),
            Command::Unknown(_) => Seq::empty(),
        }
    }

    /// A recognized command that can be re-serialized as a packet.
    pub open spec fn wf(&self) -> bool {
        self.body_wf() && self.body_bytes().len() <= 255
    }

    /// The full packet bytes of a recognized command.
    pub open spec fn spec_bytes(&self) -> Seq<u8> {
        command_packet(self.op_value(), self.body_bytes())
    }

    /// Read an HCI command packet.
    ///
    /// A recognized packet decodes to the value whose serialization is the
    /// input, byte for byte, and every such packet decodes. An
    /// unrecognized opcode under sound framing is carried as `Unknown`,
    /// with trailing bytes after the declared length tolerated.
    /// `Err(Some(op))` reports a recognized opcode whose packet is not the
    /// serialization of any well-formed command; `Err(None)` a header
    /// whose declared length outruns the input.
    pub fn from_bytes(data: &[u8]) -> (res: Result<Command, Option<OpCode>>)
        ensures
            match res {
                Ok(c) => data@.len() >= 3 && 3 + data@[2] <= data@.len() && (c matches
                Command::Unknown(op) ==> op.value() == val16(data@[0], data@[1])
                    && !recognized_opcode(op.value())) && (!(c matches Command::Unknown(_))
                    ==> c.wf() && c.spec_bytes() == data@),
                Err(e) => match e {
                    Some(op) => data@.len() >= 3 && 3 + data@[2] <= data@.len() && op.value()
                        == val16(data@[0], data@[1]) && recognized_opcode(op.value()) && (forall|
                        c2: Command,
                    |
                        !(c2 matches Command::Unknown(_)) && c2.wf()
                            ==> #[trigger] c2.spec_bytes() != data@),
                    None => data@.len() < 3 || 3 + data@[2] > data@.len(),
                },
            },
    {
        let mut r = Reader::new(data);
        let opv = match r.read_u16() {
            Some(v) => v,
            None => {
                return Err(None);
            },
        };
        let opcode = OpCode(opv);
        let len = match r.read_u8() {
            Some(v) => v,
            None => {
                return Err(None);
            },
        };
        if r.remaining() < len as usize {
            return Err(None);
        }
        match Self::dispatch_read(opcode, &mut r) {
            Some(c) => {
                match c {
                    Command::Unknown(_) => Ok(c),
                    _ => {
                        if r.remaining() == 0 && data.len() == 3 + len as usize {
                            proof {
                                assert(c.spec_bytes() =~= data@);
                            }
                            Ok(c)
                        } else {
                            proof {
                                assert forall|c2: Command|
                                    !(c2 matches Command::Unknown(_)) && c2.wf()
                                        implies #[trigger] c2.spec_bytes() != data@ by {
                                    if c2.spec_bytes() == data@ {
                                        lemma_command_matches(c2, data@);
                                        assert(body_prefix(data@, 3, c2));
                                    }
                                }
                            }
                            Err(Some(opcode))
                        }
                    },
                }
            },
            None => {
                proof {
                    assert forall|c2: Command|
                        !(c2 matches Command::Unknown(_)) && c2.wf()
                            implies #[trigger] c2.spec_bytes() != data@ by {
                        if c2.spec_bytes() == data@ {
                            lemma_command_matches(c2, data@);
                            assert(body_prefix(data@, 3, c2));
                        }
                    }
                }
                Err(Some(opcode))
            },
        }
    }

    /// Parse the body of a recognized opcode; an unrecognized one gives
    /// `Unknown`. A success returns the one well-formed command of that
    /// opcode whose body stands at the cursor, and a failure means there
    /// is none.
    fn dispatch_read(opcode: OpCode, r: &mut Reader) -> (res: Option<Command>)
        requires
            old(r).wf(),
        ensures
            final(r).wf(),
            final(r).bytes() == old(r).bytes(),
            match res {
                Some(c) => {
                    &&& (c matches Command::Unknown(op) ==> op == opcode && !recognized_opcode(
                        opcode.value(),
                    ) && final(r).position() == old(r).position())
                    &&& (!(c matches Command::Unknown(_)) ==> c.body_wf() && c.op_value()
                        == opcode.value() && recognized_opcode(opcode.value())
                        && final(r).position() == old(r).position() + c.body_bytes().len()
                        && final(r).position()
                        <= old(r).bytes().len() && c.body_bytes() == old(r).bytes().subrange(
                        old(r).position(),
                        final(r).position(),
                    ) && (forall|c2: Command|
                        !(c2 matches Command::Unknown(_)) && c2.wf() && c2.op_value()
                            == opcode.value() && #[trigger] body_prefix(
                            old(r).bytes(),
                            old(r).position(),
                            c2,
                        ) ==> c2.body_bytes() == c.body_bytes()))
                },
                None => recognized_opcode(opcode.value()) && (forall|c2: Command|
                    !(c2 matches Command::Unknown(_)) && c2.wf() && c2.op_value()
                        == opcode.value() ==> !#[trigger] body_prefix(
                        old(r).bytes(),
                        old(r).position(),
                        c2,
                    )),
            },
    {
        let ghost p0 = r.position();
        let ghost bytes = r.bytes();
        if opcode == <Reset as CommandOpCode>::opcode() {
            let res = match <Reset as Read>::read(r) {
                Some(x) => Some(Command::Reset(x)),
                None => None,
            };
            proof {
                lemma_dispatch_variant(opcode, bytes, p0);
            }
            res
        } else if opcode == <LeSetCigParameters as CommandOpCode>::opcode() {
            let res = match <LeSetCigParameters as Read>::read(r) {
                Some(x) => Some(Command::LeSetCigParameters(x)),
                None => None,
            };
            proof {
                lemma_dispatch_variant(opcode, bytes, p0);
            }
            res
        } else if opcode == <LeCreateCis as CommandOpCode>::opcode() {
            let res = match <LeCreateCis as Read>::read(r) {
                Some(x) => Some(Command::LeCreateCis(x)),
                None => None,
            };
            proof {
                lemma_dispatch_variant(opcode, bytes, p0);
            }
            res
        } else if opcode == <LeRemoveCig as CommandOpCode>::opcode() {
            let res = match <LeRemoveCig as Read>::read(r) {
                Some(x) => Some(Command::LeRemoveCig(x)),
                None => None,
            };
            proof {
                lemma_dispatch_variant(opcode, bytes, p0);
            }
            res
        } else if opcode == <LeCreateBig as CommandOpCode>::opcode() {
            let res = match <LeCreateBig as Read>::read(r) {
                Some(x) => Some(Command::LeCreateBig(x)),
                None => None,
            };
            proof {
                lemma_dispatch_variant(opcode, bytes, p0);
            }
            res
        } else if opcode == <LeSetupIsoDataPath as CommandOpCode>::opcode() {
            let res = match <LeSetupIsoDataPath as Read>::read(r) {
                Some(x) => Some(Command::LeSetupIsoDataPath(x)),
                None => None,
            };
            proof {
                lemma_dispatch_variant(opcode, bytes, p0);
            }
            res
        } else if opcode == <LeRemoveIsoDataPath as CommandOpCode>::opcode() {
            let res = match <LeRemoveIsoDataPath as Read>::read(r) {
                Some(x) => Some(Command::LeRemoveIsoDataPath(x)),
                None => None,
            };
            proof {
                lemma_dispatch_variant(opcode, bytes, p0);
            }
            res
        } else {
            Some(Command::Unknown(opcode))
        }
    }
}

/// Whether a command's body bytes stand at a position of the input, with
/// arbitrary bytes allowed after them.
pub open spec fn body_prefix(bytes: Seq<u8>, pos: int, c: Command) -> bool {
    pos + c.body_bytes().len() <= bytes.len() && bytes.subrange(
        pos,
        pos + c.body_bytes().len(),
    ) == c.body_bytes()
}

/// A command whose body stands at a position stands there as its own
/// variant's encoding: matching opcodes pin the variant, and the body
/// bytes are the inner value's encoding.
proof fn lemma_dispatch_variant(opcode: OpCode, bytes: Seq<u8>, pos: int)
    ensures
        forall|c2: Command|
            !(c2 matches Command::Unknown(_)) && c2.wf() && c2.op_value() == opcode.value()
                && #[trigger] body_prefix(bytes, pos, c2) ==> inner_prefix(bytes, pos, c2),
{
    assert forall|c2: Command|
        !(c2 matches Command::Unknown(_)) && c2.wf() && c2.op_value() == opcode.value()
            && #[trigger] body_prefix(bytes, pos, c2) implies inner_prefix(bytes, pos, c2) by {
        match c2 {
            Command::Reset(inner) => {
                assert(encodes_prefix(bytes, pos, inner));
            },
            Command::LeSetCigParameters(inner) => {
                assert(encodes_prefix(bytes, pos, inner));
            },
            Command::LeCreateCis(inner) => {
                assert(encodes_prefix(bytes, pos, inner));
            },
            Command::LeRemoveCig(inner) => {
                assert(encodes_prefix(bytes, pos, inner));
            },
            Command::LeCreateBig(inner) => {
                assert(encodes_prefix(bytes, pos, inner));
            },
            Command::LeSetupIsoDataPath(inner) => {
                assert(encodes_prefix(bytes, pos, inner));
            },
            Command::LeRemoveIsoDataPath(inner) => {
                assert(encodes_prefix(bytes, pos, inner));
            },
            Command::Unknown(_) => {},
        }
    }
}

/// The inner value of a recognized command stands encoded at a position.
pub open spec fn inner_prefix(bytes: Seq<u8>, pos: int, c: Command) -> bool {
    match c {
        Command::Reset(inner) => encodes_prefix(bytes, pos, inner),
        Command::LeSetCigParameters(inner) => encodes_prefix(bytes, pos, inner),
        Command::LeCreateCis(inner) => encodes_prefix(bytes, pos, inner),
        Command::LeRemoveCig(inner) => encodes_prefix(bytes, pos, inner),
        Command::LeCreateBig(inner) => encodes_prefix(bytes, pos, inner),
        Command::LeSetupIsoDataPath(inner) => encodes_prefix(bytes, pos, inner),
        Command::LeRemoveIsoDataPath(inner) => encodes_prefix(bytes, pos, inner),
        Command::Unknown(_) => false,
    }
}

/// From a whole-packet match, the body stands at its offset: the declared
/// length byte is the body's length and the packet ends with the body.
pub proof fn lemma_command_matches(c2: Command, data: Seq<u8>)
    requires
        !(c2 matches Command::Unknown(_)),
        c2.wf(),
        c2.spec_bytes() == data,
    ensures
        data.len() == 3 + c2.body_bytes().len(),
        data.len() >= 3,
        data[2] == c2.body_bytes().len() as u8,
        data[0] == le16(c2.op_value())[0],
        data[1] == le16(c2.op_value())[1],
        val16(data[0], data[1]) == c2.op_value(),
        recognized_opcode(c2.op_value()),
        body_prefix(data, 3, c2),
{
    crate::wire::lemma_val16_le16(c2.op_value());
    assert(data.subrange(3, 3 + c2.body_bytes().len() as int) =~= c2.body_bytes());
}

// Reset

/// 7.3.2 Reset command: no parameters.
#[derive(Debug)]
pub struct Reset {}

impl CommandOpCode for Reset {
    open spec fn spec_opcode() -> u16 {
        (0x003 + 0x03 * 0x400) as u16
    }

    fn opcode() -> (r: OpCode) {
        OpCode::from(0x03, 0x003)
    }
}

impl Write for Reset {
    open spec fn wf(&self) -> bool {
        true
    }

    open spec fn wire_bytes(&self) -> Seq<u8> {
        Seq::<u8>::empty()
    }

    fn write(&self, w: &mut Writer) {
        assert(w@ =~= old(w)@ + self.wire_bytes());
    }
}

impl Read for Reset {
    #[verifier::rlimit(50)]
    fn read(r: &mut Reader) -> (res: Option<Self>) {
        let ghost p0 = r.position();
        let ghost bytes = r.bytes();
        let res = Reset {  };
        proof {
            assert(res.wire_bytes() =~= bytes.subrange(p0, r.position()));
            assert forall|v2: Reset|
                v2.wf() && encodes_prefix(bytes, p0, v2) implies v2.wire_bytes()
                == res.wire_bytes() by {
                assert(v2.wire_bytes().len() == 0);
                assert(v2.wire_bytes() =~= bytes.subrange(p0, p0 + 0));
            }
        }
        Some(res)
    }
}

impl CommandToBytes for Reset {
}

/// Return parameters of Reset.
#[derive(Debug)]
pub struct ResetComplete {
    /// Outcome of the command.
    pub status: Status,
}

impl Write for ResetComplete {
    open spec fn wf(&self) -> bool {
        true
    }

    open spec fn wire_bytes(&self) -> Seq<u8> {
        seq![status_code(self.status)]
    }

    fn write(&self, w: &mut Writer) {
        w.write_u8(self.status.code());
        assert(w@ =~= old(w)@ + self.wire_bytes());
    }
}

impl Read for ResetComplete {
    #[verifier::rlimit(50)]
    fn read(r: &mut Reader) -> (res: Option<Self>) {
        let ghost p0 = r.position();
        let ghost bytes = r.bytes();
        let ghost pk0 = r.position();
        let status = match <Status as Read>::read(r) {
            Some(x) => x,
            None => {
                proof {
                    assert forall|v2: ResetComplete| v2.wf() implies !encodes_prefix(
                        bytes,
                        p0,
                        v2,
                    ) by {
                        if encodes_prefix(bytes, p0, v2) {
                            assert(pk0 == p0 + 0);
                            assert forall|j: int|
                                0 <= j < v2.status.wire_bytes().len() implies bytes[pk0 + j]
                                == v2.status.wire_bytes()[j] by {
                                assert(bytes.subrange(p0, p0 + v2.wire_bytes().len())[0 + j]
                                    == v2.wire_bytes()[0 + j]);
                            }
                            assert(bytes.subrange(
                                pk0,
                                pk0 + v2.status.wire_bytes().len(),
                            ) =~= v2.status.wire_bytes());
                            assert(encodes_prefix(bytes, pk0, v2.status));
                        }
                    }
                }
                return None;
            },
        };
        let res = ResetComplete { status };
        proof {
            assert(res.wire_bytes() =~= bytes.subrange(p0, r.position()));
            assert forall|v2: ResetComplete|
                v2.wf() && encodes_prefix(bytes, p0, v2) implies v2.wire_bytes()
                == res.wire_bytes() by {
                assert(v2.wire_bytes().len() == 1);
                assert(v2.wire_bytes() =~= bytes.subrange(p0, p0 + 1));
            }
        }
        Some(res)
    }
}

// LE Read Buffer Size

/// 7.8.2 LE Read Buffer Size command (version 1): no parameters.
#[derive(Debug)]
pub struct LeReadBufferSizeV1;

impl CommandOpCode for LeReadBufferSizeV1 {
    open spec fn spec_opcode() -> u16 {
        (0x002 + 0x08 * 0x400) as u16
    }

    fn opcode() -> (r: OpCode) {
        OpCode::from(0x08, 0x002)
    }
}

/// Return parameters of LE Read Buffer Size (version 1).
#[derive(Debug)]
pub struct LeReadBufferSizeV1Complete {
    /// Outcome of the command.
    pub status: Status,
    /// Largest LE ACL payload the controller accepts.
    pub le_acl_data_packet_length: u16,
    /// Number of LE ACL packets the controller can hold.
    pub total_num_le_acl_data_packets: u8,
}

impl Write for LeReadBufferSizeV1Complete {
    open spec fn wf(&self) -> bool {
        true
    }

    open spec fn wire_bytes(&self) -> Seq<u8> {
        seq![status_code(self.status)] + le16(self.le_acl_data_packet_length) + seq![self.total_num_le_acl_data_packets]
    }

    fn write(&self, w: &mut Writer) {
        w.write_u8(self.status.code());
        w.write_u16(self.le_acl_data_packet_length);
        w.write_u8(self.total_num_le_acl_data_packets);
        assert(w@ =~= old(w)@ + self.wire_bytes());
    }
}

impl Read for LeReadBufferSizeV1Complete {
    #[verifier::rlimit(50)]
    fn read(r: &mut Reader) -> (res: Option<Self>) {
        let ghost p0 = r.position();
        let ghost bytes = r.bytes();
        let ghost pk0 = r.position();
        let status = match <Status as Read>::read(r) {
            Some(x) => x,
            None => {
                proof {
                    assert forall|v2: LeReadBufferSizeV1Complete| v2.wf() implies !encodes_prefix(
                        bytes,
                        p0,
                        v2,
                    ) by {
                        if encodes_prefix(bytes, p0, v2) {
                            assert(pk0 == p0 + 0);
                            assert forall|j: int|
                                0 <= j < v2.status.wire_bytes().len() implies bytes[pk0 + j]
                                == v2.status.wire_bytes()[j] by {
                                assert(bytes.subrange(p0, p0 + v2.wire_bytes().len())[0 + j]
                                    == v2.wire_bytes()[0 + j]);
                            }
                            assert(bytes.subrange(
                                pk0,
                                pk0 + v2.status.wire_bytes().len(),
                            ) =~= v2.status.wire_bytes());
                            assert(encodes_prefix(bytes, pk0, v2.status));
                        }
                    }
                }
                return None;
            },
        };
        let ghost pk1 = r.position();
        let le_acl_data_packet_length = match r.read_u16() {
            Some(x) => x,
            None => {
                proof {
                    assert forall|v2: LeReadBufferSizeV1Complete| v2.wf() implies !encodes_prefix(
                        bytes,
                        p0,
                        v2,
                    ) by {
                        if encodes_prefix(bytes, p0, v2) {
                            assert(v2.wire_bytes().len() == 4);
                        }
                    }
                }
                return None;
            },
        };
        let ghost pk2 = r.position();
        let total_num_le_acl_data_packets = match r.read_u8() {
            Some(x) => x,
            None => {
                proof {
                    assert forall|v2: LeReadBufferSizeV1Complete| v2.wf() implies !encodes_prefix(
                        bytes,
                        p0,
                        v2,
                    ) by {
                        if encodes_prefix(bytes, p0, v2) {
                            assert(v2.wire_bytes().len() == 4);
                        }
                    }
                }
                return None;
            },
        };
        let res = LeReadBufferSizeV1Complete { status, le_acl_data_packet_length, total_num_le_acl_data_packets };
        proof {
            assert(res.wire_bytes() =~= bytes.subrange(p0, r.position()));
            assert forall|v2: LeReadBufferSizeV1Complete|
                v2.wf() && encodes_prefix(bytes, p0, v2) implies v2.wire_bytes()
                == res.wire_bytes() by {
                assert(v2.wire_bytes().len() == 4);
                assert(v2.wire_bytes() =~= bytes.subrange(p0, p0 + 4));
            }
        }
        Some(res)
    }
}

/// 7.8.2 LE Read Buffer Size command (version 2): no parameters.
#[derive(Debug)]
pub struct LeReadBufferSizeV2;

impl CommandOpCode for LeReadBufferSizeV2 {
    open spec fn spec_opcode() -> u16 {
        (0x060 + 0x08 * 0x400) as u16
    }

    fn opcode() -> (r: OpCode) {
        OpCode::from(0x08, 0x060)
    }
}

/// Return parameters of LE Read Buffer Size (version 2).
#[derive(Debug)]
pub struct LeReadBufferSizeV2Complete {
    /// Outcome of the command.
    pub status: Status,
    /// Largest LE ACL payload the controller accepts.
    pub le_acl_data_packet_length: u16,
    /// Number of LE ACL packets the controller can hold.
    pub total_num_le_acl_data_packets: u8,
    /// Largest ISO payload the controller accepts.
    pub iso_data_packet_length: u16,
    /// Number of ISO packets the controller can hold.
    pub total_num_iso_data_packets: u8,
}

impl Write for LeReadBufferSizeV2Complete {
    open spec fn wf(&self) -> bool {
        true
    }

    open spec fn wire_bytes(&self) -> Seq<u8> {
        seq![status_code(self.status)] + le16(self.le_acl_data_packet_length) + seq![self.total_num_le_acl_data_packets] + le16(self.iso_data_packet_length) + seq![self.total_num_iso_data_packets]
    }

    fn write(&self, w: &mut Writer) {
        w.write_u8(self.status.code());
        w.write_u16(self.le_acl_data_packet_length);
        w.write_u8(self.total_num_le_acl_data_packets);
        w.write_u16(self.iso_data_packet_length);
        w.write_u8(self.total_num_iso_data_packets);
        assert(w@ =~= old(w)@ + self.wire_bytes());
    }
}

impl Read for LeReadBufferSizeV2Complete {
    #[verifier::rlimit(50)]
    fn read(r: &mut Reader) -> (res: Option<Self>) {
        let ghost p0 = r.position();
        let ghost bytes = r.bytes();
        let ghost pk0 = r.position();
        let status = match <Status as Read>::read(r) {
            Some(x) => x,
            None => {
                proof {
                    assert forall|v2: LeReadBufferSizeV2Complete| v2.wf() implies !encodes_prefix(
                        bytes,
                        p0,
                        v2,
                    ) by {
                        if encodes_prefix(bytes, p0, v2) {
                            assert(pk0 == p0 + 0);
                            assert forall|j: int|
                                0 <= j < v2.status.wire_bytes().len() implies bytes[pk0 + j]
                                == v2.status.wire_bytes()[j] by {
                                assert(bytes.subrange(p0, p0 + v2.wire_bytes().len())[0 + j]
                                    == v2.wire_bytes()[0 + j]);
                            }
                            assert(bytes.subrange(
                                pk0,
                                pk0 + v2.status.wire_bytes().len(),
                            ) =~= v2.status.wire_bytes());
                            assert(encodes_prefix(bytes, pk0, v2.status));
                        }
                    }
                }
                return None;
            },
        };
        let ghost pk1 = r.position();
        let le_acl_data_packet_length = match r.read_u16() {
            Some(x) => x,
            None => {
                proof {
                    assert forall|v2: LeReadBufferSizeV2Complete| v2.wf() implies !encodes_prefix(
                        bytes,
                        p0,
                        v2,
                    ) by {
                        if encodes_prefix(bytes, p0, v2) {
                            assert(v2.wire_bytes().len() == 7);
                        }
                    }
                }
                return None;
            },
        };
        let ghost pk2 = r.position();
        let total_num_le_acl_data_packets = match r.read_u8() {
            Some(x) => x,
            None => {
                proof {
                    assert forall|v2: LeReadBufferSizeV2Complete| v2.wf() implies !encodes_prefix(
                        bytes,
                        p0,
                        v2,
                    ) by {
                        if encodes_prefix(bytes, p0, v2) {
                            assert(v2.wire_bytes().len() == 7);
                        }
                    }
                }
                return None;
            },
        };
        let ghost pk3 = r.position();
        let iso_data_packet_length = match r.read_u16() {
            Some(x) => x,
            None => {
                proof {
                    assert forall|v2: LeReadBufferSizeV2Complete| v2.wf() implies !encodes_prefix(
                        bytes,
                        p0,
                        v2,
                    ) by {
                        if encodes_prefix(bytes, p0, v2) {
                            assert(v2.wire_bytes().len() == 7);
                        }
                    }
                }
                return None;
            },
        };
        let ghost pk4 = r.position();
        let total_num_iso_data_packets = match r.read_u8() {
            Some(x) => x,
            None => {
                proof {
                    assert forall|v2: LeReadBufferSizeV2Complete| v2.wf() implies !encodes_prefix(
                        bytes,
                        p0,
                        v2,
                    ) by {
                        if encodes_prefix(bytes, p0, v2) {
                            assert(v2.wire_bytes().len() == 7);
                        }
                    }
                }
                return None;
            },
        };
        let res = LeReadBufferSizeV2Complete { status, le_acl_data_packet_length, total_num_le_acl_data_packets, iso_data_packet_length, total_num_iso_data_packets };
        proof {
            assert(res.wire_bytes() =~= bytes.subrange(p0, r.position()));
            assert forall|v2: LeReadBufferSizeV2Complete|
                v2.wf() && encodes_prefix(bytes, p0, v2) implies v2.wire_bytes()
                == res.wire_bytes() by {
                assert(v2.wire_bytes().len() == 7);
                assert(v2.wire_bytes() =~= bytes.subrange(p0, p0 + 7));
            }
        }
        Some(res)
    }
}

// LE Set CIG Parameters

/// 7.8.97 LE Set CIG Parameters command.
#[derive(Debug)]
pub struct LeSetCigParameters {
    /// Identifier of the CIG.
    pub cig_id: u8,
    /// SDU interval central to peripheral, in microseconds (24 bits).
    pub sdu_interval_c_to_p: u32,
    /// SDU interval peripheral to central, in microseconds (24 bits).
    pub sdu_interval_p_to_c: u32,
    /// Worst-case sleep clock accuracy.
    pub worst_case_sca: u8,
    /// Packing preference.
    pub packing: u8,
    /// Framing mode.
    pub framing: u8,
    /// Largest transport latency central to peripheral, in milliseconds.
    pub max_transport_latency_c_to_p: u16,
    /// Largest transport latency peripheral to central, in milliseconds.
    pub max_transport_latency_p_to_c: u16,
    /// Parameters of each CIS in the CIG.
    pub cis: Vec<LeCisInCigParameters>,
}

impl CommandOpCode for LeSetCigParameters {
    open spec fn spec_opcode() -> u16 {
        (0x062 + 0x08 * 0x400) as u16
    }

    fn opcode() -> (r: OpCode) {
        OpCode::from(0x08, 0x062)
    }
}

impl Write for LeSetCigParameters {
    open spec fn wf(&self) -> bool {
        self.sdu_interval_c_to_p < 0x100_0000 && self.sdu_interval_p_to_c < 0x100_0000 && self.cis.wf()
    }

    open spec fn wire_bytes(&self) -> Seq<u8> {
        seq![self.cig_id] + le24(self.sdu_interval_c_to_p) + le24(self.sdu_interval_p_to_c) + seq![self.worst_case_sca] + seq![self.packing] + seq![self.framing] + le16(self.max_transport_latency_c_to_p) + le16(self.max_transport_latency_p_to_c) + self.cis.wire_bytes()
    }

    fn write(&self, w: &mut Writer) {
        w.write_u8(self.cig_id);
        w.write_u24(self.sdu_interval_c_to_p);
        w.write_u24(self.sdu_interval_p_to_c);
        w.write_u8(self.worst_case_sca);
        w.write_u8(self.packing);
        w.write_u8(self.framing);
        w.write_u16(self.max_transport_latency_c_to_p);
        w.write_u16(self.max_transport_latency_p_to_c);
        self.cis.write(w);
        assert(w@ =~= old(w)@ + self.wire_bytes());
    }
}

impl Read for LeSetCigParameters {
    #[verifier::rlimit(50)]
    fn read(r: &mut Reader) -> (res: Option<Self>) {
        let ghost p0 = r.position();
        let ghost bytes = r.bytes();
        let ghost pk0 = r.position();
        let cig_id = match r.read_u8() {
            Some(x) => x,
            None => {
                proof {
                    assert forall|v2: LeSetCigParameters| v2.wf() implies !encodes_prefix(
                        bytes,
                        p0,
                        v2,
                    ) by {
                        if encodes_prefix(bytes, p0, v2) {
                            assert(v2.cis.wire_bytes().len() >= 1);
                            assert(v2.wire_bytes().len() >= 15);
                        }
                    }
                }
                return None;
            },
        };
        let ghost pk1 = r.position();
        let sdu_interval_c_to_p = match r.read_u24() {
            Some(x) => x,
            None => {
                proof {
                    assert forall|v2: LeSetCigParameters| v2.wf() implies !encodes_prefix(
                        bytes,
                        p0,
                        v2,
                    ) by {
                        if encodes_prefix(bytes, p0, v2) {
                            assert(v2.cis.wire_bytes().len() >= 1);
                            assert(v2.wire_bytes().len() >= 15);
                        }
                    }
                }
                return None;
            },
        };
        let ghost pk2 = r.position();
        let sdu_interval_p_to_c = match r.read_u24() {
            Some(x) => x,
            None => {
                proof {
                    assert forall|v2: LeSetCigParameters| v2.wf() implies !encodes_prefix(
                        bytes,
                        p0,
                        v2,
                    ) by {
                        if encodes_prefix(bytes, p0, v2) {
                            assert(v2.cis.wire_bytes().len() >= 1);
                            assert(v2.wire_bytes().len() >= 15);
                        }
                    }
                }
                return None;
            },
        };
        let ghost pk3 = r.position();
        let worst_case_sca = match r.read_u8() {
            Some(x) => x,
            None => {
                proof {
                    assert forall|v2: LeSetCigParameters| v2.wf() implies !encodes_prefix(
                        bytes,
                        p0,
                        v2,
                    ) by {
                        if encodes_prefix(bytes, p0, v2) {
                            assert(v2.cis.wire_bytes().len() >= 1);
                            assert(v2.wire_bytes().len() >= 15);
                        }
                    }
                }
                return None;
            },
        };
        let ghost pk4 = r.position();
        let packing = match r.read_u8() {
            Some(x) => x,
            None => {
                proof {
                    assert forall|v2: LeSetCigParameters| v2.wf() implies !encodes_prefix(
                        bytes,
                        p0,
                        v2,
                    ) by {
                        if encodes_prefix(bytes, p0, v2) {
                            assert(v2.cis.wire_bytes().len() >= 1);
                            assert(v2.wire_bytes().len() >= 15);
                        }
                    }
                }
                return None;
            },
        };
        let ghost pk5 = r.position();
        let framing = match r.read_u8() {
            Some(x) => x,
            None => {
                proof {
                    assert forall|v2: LeSetCigParameters| v2.wf() implies !encodes_prefix(
                        bytes,
                        p0,
                        v2,
                    ) by {
                        if encodes_prefix(bytes, p0, v2) {
                            assert(v2.cis.wire_bytes().len() >= 1);
                            assert(v2.wire_bytes().len() >= 15);
                        }
                    }
                }
                return None;
            },
        };
        let ghost pk6 = r.position();
        let max_transport_latency_c_to_p = match r.read_u16() {
            Some(x) => x,
            None => {
                proof {
                    assert forall|v2: LeSetCigParameters| v2.wf() implies !encodes_prefix(
                        bytes,
                        p0,
                        v2,
                    ) by {
                        if encodes_prefix(bytes, p0, v2) {
                            assert(v2.cis.wire_bytes().len() >= 1);
                            assert(v2.wire_bytes().len() >= 15);
                        }
                    }
                }
                return None;
            },
        };
        let ghost pk7 = r.position();
        let max_transport_latency_p_to_c = match r.read_u16() {
            Some(x) => x,
            None => {
                proof {
                    assert forall|v2: LeSetCigParameters| v2.wf() implies !encodes_prefix(
                        bytes,
                        p0,
                        v2,
                    ) by {
                        if encodes_prefix(bytes, p0, v2) {
                            assert(v2.cis.wire_bytes().len() >= 1);
                            assert(v2.wire_bytes().len() >= 15);
                        }
                    }
                }
                return None;
            },
        };
        let ghost pk8 = r.position();
        let cis = match <Vec<LeCisInCigParameters> as Read>::read(r) {
            Some(x) => x,
            None => {
                proof {
                    assert forall|v2: LeSetCigParameters| v2.wf() implies !encodes_prefix(
                        bytes,
                        p0,
                        v2,
                    ) by {
                        if encodes_prefix(bytes, p0, v2) {
                            assert(v2.cis.wire_bytes().len() >= 1);
                            assert(pk8 == p0 + 14);
                            assert forall|j: int|
                                0 <= j < v2.cis.wire_bytes().len() implies bytes[pk8 + j]
                                == v2.cis.wire_bytes()[j] by {
                                assert(bytes.subrange(p0, p0 + v2.wire_bytes().len())[14 + j]
                                    == v2.wire_bytes()[14 + j]);
                            }
                            assert(bytes.subrange(
                                pk8,
                                pk8 + v2.cis.wire_bytes().len(),
                            ) =~= v2.cis.wire_bytes());
                            assert(encodes_prefix(bytes, pk8, v2.cis));
                        }
                    }
                }
                return None;
            },
        };
        let res = LeSetCigParameters { cig_id, sdu_interval_c_to_p, sdu_interval_p_to_c, worst_case_sca, packing, framing, max_transport_latency_c_to_p, max_transport_latency_p_to_c, cis };
        proof {
            assert(res.wire_bytes() =~= bytes.subrange(p0, r.position()));
            assert forall|v2: LeSetCigParameters|
                v2.wf() && encodes_prefix(bytes, p0, v2) implies v2.wire_bytes()
                == res.wire_bytes() by {
                assert(pk8 == p0 + 14);
                assert forall|j: int|
                    0 <= j < v2.cis.wire_bytes().len() implies bytes[pk8 + j]
                    == v2.cis.wire_bytes()[j] by {
                    assert(bytes.subrange(p0, p0 + v2.wire_bytes().len())[14 + j]
                        == v2.wire_bytes()[14 + j]);
                }
                assert(bytes.subrange(
                    pk8,
                    pk8 + v2.cis.wire_bytes().len(),
                ) =~= v2.cis.wire_bytes());
                assert(encodes_prefix(bytes, pk8, v2.cis));
                assert(v2.cis.wire_bytes() == res.cis.wire_bytes());
                assert(v2.wire_bytes().len() == res.wire_bytes().len());
                assert(v2.wire_bytes() =~= bytes.subrange(
                    p0,
                    p0 + v2.wire_bytes().len(),
                ));
            }
        }
        Some(res)
    }
}

impl CommandToBytes for LeSetCigParameters {
}

/// Parameters of one CIS inside LE Set CIG Parameters.
#[derive(Debug)]
pub struct LeCisInCigParameters {
    /// Identifier of the CIS within its CIG.
    pub cis_id: u8,
    /// Largest SDU central to peripheral.
    pub max_sdu_c_to_p: u16,
    /// Largest SDU peripheral to central.
    pub max_sdu_p_to_c: u16,
    /// PHY preference central to peripheral.
    pub phy_c_to_p: u8,
    /// PHY preference peripheral to central.
    pub phy_p_to_c: u8,
    /// Retransmission effort central to peripheral.
    pub rtn_c_to_p: u8,
    /// Retransmission effort peripheral to central.
    pub rtn_p_to_c: u8,
}

impl Write for LeCisInCigParameters {
    open spec fn wf(&self) -> bool {
        true
    }

    open spec fn wire_bytes(&self) -> Seq<u8> {
        seq![self.cis_id] + le16(self.max_sdu_c_to_p) + le16(self.max_sdu_p_to_c) + seq![self.phy_c_to_p] + seq![self.phy_p_to_c] + seq![self.rtn_c_to_p] + seq![self.rtn_p_to_c]
    }

    fn write(&self, w: &mut Writer) {
        w.write_u8(self.cis_id);
        w.write_u16(self.max_sdu_c_to_p);
        w.write_u16(self.max_sdu_p_to_c);
        w.write_u8(self.phy_c_to_p);
        w.write_u8(self.phy_p_to_c);
        w.write_u8(self.rtn_c_to_p);
        w.write_u8(self.rtn_p_to_c);
        assert(w@ =~= old(w)@ + self.wire_bytes());
    }
}

impl Read for LeCisInCigParameters {
    #[verifier::rlimit(50)]
    fn read(r: &mut Reader) -> (res: Option<Self>) {
        let ghost p0 = r.position();
        let ghost bytes = r.bytes();
        let ghost pk0 = r.position();
        let cis_id = match r.read_u8() {
            Some(x) => x,
            None => {
                proof {
                    assert forall|v2: LeCisInCigParameters| v2.wf() implies !encodes_prefix(
                        bytes,
                        p0,
                        v2,
                    ) by {
                        if encodes_prefix(bytes, p0, v2) {
                            assert(v2.wire_bytes().len() == 9);
                        }
                    }
                }
                return None;
            },
        };
        let ghost pk1 = r.position();
        let max_sdu_c_to_p = match r.read_u16() {
            Some(x) => x,
            None => {
                proof {
                    assert forall|v2: LeCisInCigParameters| v2.wf() implies !encodes_prefix(
                        bytes,
                        p0,
                        v2,
                    ) by {
                        if encodes_prefix(bytes, p0, v2) {
                            assert(v2.wire_bytes().len() == 9);
                        }
                    }
                }
                return None;
            },
        };
        let ghost pk2 = r.position();
        let max_sdu_p_to_c = match r.read_u16() {
            Some(x) => x,
            None => {
                proof {
                    assert forall|v2: LeCisInCigParameters| v2.wf() implies !encodes_prefix(
                        bytes,
                        p0,
                        v2,
                    ) by {
                        if encodes_prefix(bytes, p0, v2) {
                            assert(v2.wire_bytes().len() == 9);
                        }
                    }
                }
                return None;
            },
        };
        let ghost pk3 = r.position();
        let phy_c_to_p = match r.read_u8() {
            Some(x) => x,
            None => {
                proof {
                    assert forall|v2: LeCisInCigParameters| v2.wf() implies !encodes_prefix(
                        bytes,
                        p0,
                        v2,
                    ) by {
                        if encodes_prefix(bytes, p0, v2) {
                            assert(v2.wire_bytes().len() == 9);
                        }
                    }
                }
                return None;
            },
        };
        let ghost pk4 = r.position();
        let phy_p_to_c = match r.read_u8() {
            Some(x) => x,
            None => {
                proof {
                    assert forall|v2: LeCisInCigParameters| v2.wf() implies !encodes_prefix(
                        bytes,
                        p0,
                        v2,
                    ) by {
                        if encodes_prefix(bytes, p0, v2) {
                            assert(v2.wire_bytes().len() == 9);
                        }
                    }
                }
                return None;
            },
        };
        let ghost pk5 = r.position();
        let rtn_c_to_p = match r.read_u8() {
            Some(x) => x,
            None => {
                proof {
                    assert forall|v2: LeCisInCigParameters| v2.wf() implies !encodes_prefix(
                        bytes,
                        p0,
                        v2,
                    ) by {
                        if encodes_prefix(bytes, p0, v2) {
                            assert(v2.wire_bytes().len() == 9);
                        }
                    }
                }
                return None;
            },
        };
        let ghost pk6 = r.position();
        let rtn_p_to_c = match r.read_u8() {
            Some(x) => x,
            None => {
                proof {
                    assert forall|v2: LeCisInCigParameters| v2.wf() implies !encodes_prefix(
                        bytes,
                        p0,
                        v2,
                    ) by {
                        if encodes_prefix(bytes, p0, v2) {
                            assert(v2.wire_bytes().len() == 9);
                        }
                    }
                }
                return None;
            },
        };
        let res = LeCisInCigParameters { cis_id, max_sdu_c_to_p, max_sdu_p_to_c, phy_c_to_p, phy_p_to_c, rtn_c_to_p, rtn_p_to_c };
        proof {
            assert(res.wire_bytes() =~= bytes.subrange(p0, r.position()));
            assert forall|v2: LeCisInCigParameters|
                v2.wf() && encodes_prefix(bytes, p0, v2) implies v2.wire_bytes()
                == res.wire_bytes() by {
                assert(v2.wire_bytes().len() == 9);
                assert(v2.wire_bytes() =~= bytes.subrange(p0, p0 + 9));
            }
        }
        Some(res)
    }
}

/// Length-prefixed sequence: one count byte, then each element.
impl Write for Vec<LeCisInCigParameters> {
    open spec fn wf(&self) -> bool {
        self@.len() <= 255 && seq_wf(self@)
    }

    open spec fn wire_bytes(&self) -> Seq<u8> {
        seq![self@.len() as u8] + seq_wire_bytes(self@)
    }

    fn write(&self, w: &mut Writer) {
        w.write_u8(self.len() as u8);
        let n = self.len();
        for i in 0..n
            invariant
                n == self@.len() <= 255,
                seq_wf(self@),
                w@ == old(w)@ + seq![n as u8] + seq_wire_bytes(self@.take(i as int)),
        {
            let ghost prefix = self@.take(i as int);
            self[i].write(w);
            proof {
                assert(self@.take(i + 1) =~= prefix.push(self@[i as int]));
                lemma_seq_wire_bytes_push(prefix, self@[i as int]);
                assert(w@ =~= old(w)@ + seq![n as u8] + seq_wire_bytes(self@.take(i + 1)));
            }
        }
        assert(self@.take(n as int) =~= self@);
        assert(w@ =~= old(w)@ + self.wire_bytes());
    }
}

impl Read for Vec<LeCisInCigParameters> {
    #[verifier::loop_isolation(false)]
    #[verifier::rlimit(50)]
    fn read(r: &mut Reader) -> (res: Option<Self>) {
        let ghost p0 = r.position();
        let ghost bytes = r.bytes();
        let len = match r.read_u8() {
            Some(v) => v,
            None => {
                proof {
                    assert forall|v2: Vec<LeCisInCigParameters>| v2.wf() implies !encodes_prefix(
                        bytes,
                        p0,
                        v2,
                    ) by {
                        if encodes_prefix(bytes, p0, v2) {
                            assert(v2.wire_bytes().len() >= 1);
                        }
                    }
                }
                return None;
            },
        };
        let ghost p1 = r.position();
        let mut v: Vec<LeCisInCigParameters> = Vec::new();
        for i in 0..len as usize
            invariant
                r.wf(),
                r.bytes() == bytes,
                v@.len() == i,
                seq_wf(v@),
                r.position() == p1 + 9 * i,
                seq_wire_bytes(v@) == bytes.subrange(p1, r.position()),
        {
            let ghost prefix = v@;
            let ghost p_before = r.position();
            let x = match <LeCisInCigParameters as Read>::read(r) {
                Some(x) => x,
                None => {
                    proof {
                        assert forall|v2: Vec<LeCisInCigParameters>| v2.wf() implies !encodes_prefix(
                            bytes,
                            p0,
                            v2,
                        ) by {
                            if encodes_prefix(bytes, p0, v2) {
                                assert forall|j: int|
                                    0 <= j < v2@.len() implies (#[trigger] v2@[j]).wire_bytes().len()
                                    == 9 by {}
                                lemma_seq_wire_bytes_len(v2@, 9);
                                assert(v2.wire_bytes()[0] == bytes.subrange(
                                    p0,
                                    p0 + v2.wire_bytes().len(),
                                )[0]);
                                assert(v2@.len() == len);
                                lemma_seq_wire_bytes_index(v2@, 9, i as int);
                                assert(p_before == p0 + 1 + 9 * (i as int));
                                assert forall|j: int|
                                    0 <= j < 9 implies bytes[p_before + j]
                                    == v2@[i as int].wire_bytes()[j] by {
                                    assert(bytes.subrange(p0, p0 + v2.wire_bytes().len())[1 + 9
                                        * (i as int) + j] == v2.wire_bytes()[1 + 9 * (i as int)
                                        + j]);
                                    assert(seq_wire_bytes(v2@).subrange(
                                        9 * (i as int),
                                        9 * (i as int) + 9,
                                    )[j] == seq_wire_bytes(v2@)[9 * (i as int) + j]);
                                }
                                assert(bytes.subrange(
                                    p_before,
                                    p_before + 9,
                                ) =~= v2@[i as int].wire_bytes());
                                assert(encodes_prefix(bytes, p_before, v2@[i as int]));
                            }
                        }
                    }
                    return None;
                },
            };
            v.push(x);
            proof {
                assert(v@ =~= prefix.push(x));
                lemma_seq_wire_bytes_push(prefix, x);
                assert(bytes.subrange(p1, p_before) + bytes.subrange(p_before, r.position())
                    =~= bytes.subrange(p1, r.position()));
                assert(seq_wire_bytes(v@) =~= bytes.subrange(p1, r.position()));
            }
        }
        proof {
            assert(v.wire_bytes() =~= bytes.subrange(p0, r.position()));
            assert forall|v2: Vec<LeCisInCigParameters>|
                v2.wf() && encodes_prefix(bytes, p0, v2) implies v2.wire_bytes()
                == v.wire_bytes() by {
                assert forall|j: int|
                    0 <= j < v2@.len() implies (#[trigger] v2@[j]).wire_bytes().len() == 9 by {}
                lemma_seq_wire_bytes_len(v2@, 9);
                assert(v2.wire_bytes()[0] == bytes.subrange(p0, p0 + v2.wire_bytes().len())[0]);
                assert(v2@.len() == len);
                assert(v2.wire_bytes() =~= bytes.subrange(p0, p0 + 1 + 9 * (len as int)));
            }
        }
        Some(v)
    }
}

/// Return parameters of LE Set CIG Parameters.
#[derive(Debug)]
pub struct LeSetCigParametersComplete {
    /// Outcome of the command.
    pub status: Status,
    /// Identifier of the CIG.
    pub cig_id: u8,
    /// Connection handle of each CIS, in the order the CIG listed them.
    pub connection_handles: Vec<u16>,
}

impl Write for LeSetCigParametersComplete {
    open spec fn wf(&self) -> bool {
        self.connection_handles.wf()
    }

    open spec fn wire_bytes(&self) -> Seq<u8> {
        seq![status_code(self.status)] + seq![self.cig_id] + self.connection_handles.wire_bytes()
    }

    fn write(&self, w: &mut Writer) {
        w.write_u8(self.status.code());
        w.write_u8(self.cig_id);
        self.connection_handles.write(w);
        assert(w@ =~= old(w)@ + self.wire_bytes());
    }
}

impl Read for LeSetCigParametersComplete {
    #[verifier::rlimit(50)]
    fn read(r: &mut Reader) -> (res: Option<Self>) {
        let ghost p0 = r.position();
        let ghost bytes = r.bytes();
        let ghost pk0 = r.position();
        let status = match <Status as Read>::read(r) {
            Some(x) => x,
            None => {
                proof {
                    assert forall|v2: LeSetCigParametersComplete| v2.wf() implies !encodes_prefix(
                        bytes,
                        p0,
                        v2,
                    ) by {
                        if encodes_prefix(bytes, p0, v2) {
                            assert(v2.connection_handles.wire_bytes().len() >= 1);
                            assert(pk0 == p0 + 0);
                            assert forall|j: int|
                                0 <= j < v2.status.wire_bytes().len() implies bytes[pk0 + j]
                                == v2.status.wire_bytes()[j] by {
                                assert(bytes.subrange(p0, p0 + v2.wire_bytes().len())[0 + j]
                                    == v2.wire_bytes()[0 + j]);
                            }
                            assert(bytes.subrange(
                                pk0,
                                pk0 + v2.status.wire_bytes().len(),
                            ) =~= v2.status.wire_bytes());
                            assert(encodes_prefix(bytes, pk0, v2.status));
                        }
                    }
                }
                return None;
            },
        };
        let ghost pk1 = r.position();
        let cig_id = match r.read_u8() {
            Some(x) => x,
            None => {
                proof {
                    assert forall|v2: LeSetCigParametersComplete| v2.wf() implies !encodes_prefix(
                        bytes,
                        p0,
                        v2,
                    ) by {
                        if encodes_prefix(bytes, p0, v2) {
                            assert(v2.connection_handles.wire_bytes().len() >= 1);
                            assert(v2.wire_bytes().len() >= 3);
                        }
                    }
                }
                return None;
            },
        };
        let ghost pk2 = r.position();
        let connection_handles = match <Vec<u16> as Read>::read(r) {
            Some(x) => x,
            None => {
                proof {
                    assert forall|v2: LeSetCigParametersComplete| v2.wf() implies !encodes_prefix(
                        bytes,
                        p0,
                        v2,
                    ) by {
                        if encodes_prefix(bytes, p0, v2) {
                            assert(v2.connection_handles.wire_bytes().len() >= 1);
                            assert(pk2 == p0 + 2);
                            assert forall|j: int|
                                0 <= j < v2.connection_handles.wire_bytes().len() implies bytes[pk2 + j]
                                == v2.connection_handles.wire_bytes()[j] by {
                                assert(bytes.subrange(p0, p0 + v2.wire_bytes().len())[2 + j]
                                    == v2.wire_bytes()[2 + j]);
                            }
                            assert(bytes.subrange(
                                pk2,
                                pk2 + v2.connection_handles.wire_bytes().len(),
                            ) =~= v2.connection_handles.wire_bytes());
                            assert(encodes_prefix(bytes, pk2, v2.connection_handles));
                        }
                    }
                }
                return None;
            },
        };
        let res = LeSetCigParametersComplete { status, cig_id, connection_handles };
        proof {
            assert(res.wire_bytes() =~= bytes.subrange(p0, r.position()));
            assert forall|v2: LeSetCigParametersComplete|
                v2.wf() && encodes_prefix(bytes, p0, v2) implies v2.wire_bytes()
                == res.wire_bytes() by {
                assert(pk2 == p0 + 2);
                assert forall|j: int|
                    0 <= j < v2.connection_handles.wire_bytes().len() implies bytes[pk2 + j]
                    == v2.connection_handles.wire_bytes()[j] by {
                    assert(bytes.subrange(p0, p0 + v2.wire_bytes().len())[2 + j]
                        == v2.wire_bytes()[2 + j]);
                }
                assert(bytes.subrange(
                    pk2,
                    pk2 + v2.connection_handles.wire_bytes().len(),
                ) =~= v2.connection_handles.wire_bytes());
                assert(encodes_prefix(bytes, pk2, v2.connection_handles));
                assert(v2.connection_handles.wire_bytes() == res.connection_handles.wire_bytes());
                assert(v2.wire_bytes().len() == res.wire_bytes().len());
                assert(v2.wire_bytes() =~= bytes.subrange(
                    p0,
                    p0 + v2.wire_bytes().len(),
                ));
            }
        }
        Some(res)
    }
}

// LE Create CIS

/// 7.8.99 LE Create CIS command.
#[derive(Debug)]
pub struct LeCreateCis {
    /// The CIS and ACL handle of each stream to create.
    pub connection_handles: Vec<CisAclConnectionHandle>,
}

impl CommandOpCode for LeCreateCis {
    open spec fn spec_opcode() -> u16 {
        (0x064 + 0x08 * 0x400) as u16
    }

    fn opcode() -> (r: OpCode) {
        OpCode::from(0x08, 0x064)
    }
}

impl Write for LeCreateCis {
    open spec fn wf(&self) -> bool {
        self.connection_handles.wf()
    }

    open spec fn wire_bytes(&self) -> Seq<u8> {
        self.connection_handles.wire_bytes()
    }

    fn write(&self, w: &mut Writer) {
        self.connection_handles.write(w);
        assert(w@ =~= old(w)@ + self.wire_bytes());
    }
}

impl Read for LeCreateCis {
    #[verifier::rlimit(50)]
    fn read(r: &mut Reader) -> (res: Option<Self>) {
        let ghost p0 = r.position();
        let ghost bytes = r.bytes();
        let ghost pk0 = r.position();
        let connection_handles = match <Vec<CisAclConnectionHandle> as Read>::read(r) {
            Some(x) => x,
            None => {
                proof {
                    assert forall|v2: LeCreateCis| v2.wf() implies !encodes_prefix(
                        bytes,
                        p0,
                        v2,
                    ) by {
                        if encodes_prefix(bytes, p0, v2) {
                            assert(v2.connection_handles.wire_bytes().len() >= 1);
                            assert(pk0 == p0 + 0);
                            assert forall|j: int|
                                0 <= j < v2.connection_handles.wire_bytes().len() implies bytes[pk0 + j]
                                == v2.connection_handles.wire_bytes()[j] by {
                                assert(bytes.subrange(p0, p0 + v2.wire_bytes().len())[0 + j]
                                    == v2.wire_bytes()[0 + j]);
                            }
                            assert(bytes.subrange(
                                pk0,
                                pk0 + v2.connection_handles.wire_bytes().len(),
                            ) =~= v2.connection_handles.wire_bytes());
                            assert(encodes_prefix(bytes, pk0, v2.connection_handles));
                        }
                    }
                }
                return None;
            },
        };
        let res = LeCreateCis { connection_handles };
        proof {
            assert(res.wire_bytes() =~= bytes.subrange(p0, r.position()));
            assert forall|v2: LeCreateCis|
                v2.wf() && encodes_prefix(bytes, p0, v2) implies v2.wire_bytes()
                == res.wire_bytes() by {
                assert(pk0 == p0 + 0);
                assert forall|j: int|
                    0 <= j < v2.connection_handles.wire_bytes().len() implies bytes[pk0 + j]
                    == v2.connection_handles.wire_bytes()[j] by {
                    assert(bytes.subrange(p0, p0 + v2.wire_bytes().len())[0 + j]
                        == v2.wire_bytes()[0 + j]);
                }
                assert(bytes.subrange(
                    pk0,
                    pk0 + v2.connection_handles.wire_bytes().len(),
                ) =~= v2.connection_handles.wire_bytes());
                assert(encodes_prefix(bytes, pk0, v2.connection_handles));
                assert(v2.connection_handles.wire_bytes() == res.connection_handles.wire_bytes());
                assert(v2.wire_bytes().len() == res.wire_bytes().len());
                assert(v2.wire_bytes() =~= bytes.subrange(
                    p0,
                    p0 + v2.wire_bytes().len(),
                ));
            }
        }
        Some(res)
    }
}

impl CommandToBytes for LeCreateCis {
}

/// One CIS / ACL connection handle pair of LE Create CIS.
#[derive(Debug)]
pub struct CisAclConnectionHandle {
    /// Handle of the CIS to establish.
    pub cis: u16,
    /// Handle of the ACL connection it belongs to.
    pub acl: u16,
}

impl Write for CisAclConnectionHandle {
    open spec fn wf(&self) -> bool {
        true
    }

    open spec fn wire_bytes(&self) -> Seq<u8> {
        le16(self.cis) + le16(self.acl)
    }

    fn write(&self, w: &mut Writer) {
        w.write_u16(self.cis);
        w.write_u16(self.acl);
        assert(w@ =~= old(w)@ + self.wire_bytes());
    }
}

impl Read for CisAclConnectionHandle {
    #[verifier::rlimit(50)]
    fn read(r: &mut Reader) -> (res: Option<Self>) {
        let ghost p0 = r.position();
        let ghost bytes = r.bytes();
        let ghost pk0 = r.position();
        let cis = match r.read_u16() {
            Some(x) => x,
            None => {
                proof {
                    assert forall|v2: CisAclConnectionHandle| v2.wf() implies !encodes_prefix(
                        bytes,
                        p0,
                        v2,
                    ) by {
                        if encodes_prefix(bytes, p0, v2) {
                            assert(v2.wire_bytes().len() == 4);
                        }
                    }
                }
                return None;
            },
        };
        let ghost pk1 = r.position();
        let acl = match r.read_u16() {
            Some(x) => x,
            None => {
                proof {
                    assert forall|v2: CisAclConnectionHandle| v2.wf() implies !encodes_prefix(
                        bytes,
                        p0,
                        v2,
                    ) by {
                        if encodes_prefix(bytes, p0, v2) {
                            assert(v2.wire_bytes().len() == 4);
                        }
                    }
                }
                return None;
            },
        };
        let res = CisAclConnectionHandle { cis, acl };
        proof {
            assert(res.wire_bytes() =~= bytes.subrange(p0, r.position()));
            assert forall|v2: CisAclConnectionHandle|
                v2.wf() && encodes_prefix(bytes, p0, v2) implies v2.wire_bytes()
                == res.wire_bytes() by {
                assert(v2.wire_bytes().len() == 4);
                assert(v2.wire_bytes() =~= bytes.subrange(p0, p0 + 4));
            }
        }
        Some(res)
    }
}

/// Length-prefixed sequence: one count byte, then each element.
impl Write for Vec<CisAclConnectionHandle> {
    open spec fn wf(&self) -> bool {
        self@.len() <= 255 && seq_wf(self@)
    }

    open spec fn wire_bytes(&self) -> Seq<u8> {
        seq![self@.len() as u8] + seq_wire_bytes(self@)
    }

    fn write(&self, w: &mut Writer) {
        w.write_u8(self.len() as u8);
        let n = self.len();
        for i in 0..n
            invariant
                n == self@.len() <= 255,
                seq_wf(self@),
                w@ == old(w)@ + seq![n as u8] + seq_wire_bytes(self@.take(i as int)),
        {
            let ghost prefix = self@.take(i as int);
            self[i].write(w);
            proof {
                assert(self@.take(i + 1) =~= prefix.push(self@[i as int]));
                lemma_seq_wire_bytes_push(prefix, self@[i as int]);
                assert(w@ =~= old(w)@ + seq![n as u8] + seq_wire_bytes(self@.take(i + 1)));
            }
        }
        assert(self@.take(n as int) =~= self@);
        assert(w@ =~= old(w)@ + self.wire_bytes());
    }
}

impl Read for Vec<CisAclConnectionHandle> {
    #[verifier::loop_isolation(false)]
    #[verifier::rlimit(50)]
    fn read(r: &mut Reader) -> (res: Option<Self>) {
        let ghost p0 = r.position();
        let ghost bytes = r.bytes();
        let len = match r.read_u8() {
            Some(v) => v,
            None => {
                proof {
                    assert forall|v2: Vec<CisAclConnectionHandle>| v2.wf() implies !encodes_prefix(
                        bytes,
                        p0,
                        v2,
                    ) by {
                        if encodes_prefix(bytes, p0, v2) {
                            assert(v2.wire_bytes().len() >= 1);
                        }
                    }
                }
                return None;
            },
        };
        let ghost p1 = r.position();
        let mut v: Vec<CisAclConnectionHandle> = Vec::new();
        for i in 0..len as usize
            invariant
                r.wf(),
                r.bytes() == bytes,
                v@.len() == i,
                seq_wf(v@),
                r.position() == p1 + 4 * i,
                seq_wire_bytes(v@) == bytes.subrange(p1, r.position()),
        {
            let ghost prefix = v@;
            let ghost p_before = r.position();
            let x = match <CisAclConnectionHandle as Read>::read(r) {
                Some(x) => x,
                None => {
                    proof {
                        assert forall|v2: Vec<CisAclConnectionHandle>| v2.wf() implies !encodes_prefix(
                            bytes,
                            p0,
                            v2,
                        ) by {
                            if encodes_prefix(bytes, p0, v2) {
                                assert forall|j: int|
                                    0 <= j < v2@.len() implies (#[trigger] v2@[j]).wire_bytes().len()
                                    == 4 by {}
                                lemma_seq_wire_bytes_len(v2@, 4);
                                assert(v2.wire_bytes()[0] == bytes.subrange(
                                    p0,
                                    p0 + v2.wire_bytes().len(),
                                )[0]);
                                assert(v2@.len() == len);
                                lemma_seq_wire_bytes_index(v2@, 4, i as int);
                                assert(p_before == p0 + 1 + 4 * (i as int));
                                assert forall|j: int|
                                    0 <= j < 4 implies bytes[p_before + j]
                                    == v2@[i as int].wire_bytes()[j] by {
                                    assert(bytes.subrange(p0, p0 + v2.wire_bytes().len())[1 + 4
                                        * (i as int) + j] == v2.wire_bytes()[1 + 4 * (i as int)
                                        + j]);
                                    assert(seq_wire_bytes(v2@).subrange(
                                        4 * (i as int),
                                        4 * (i as int) + 4,
                                    )[j] == seq_wire_bytes(v2@)[4 * (i as int) + j]);
                                }
                                assert(bytes.subrange(
                                    p_before,
                                    p_before + 4,
                                ) =~= v2@[i as int].wire_bytes());
                                assert(encodes_prefix(bytes, p_before, v2@[i as int]));
                            }
                        }
                    }
                    return None;
                },
            };
            v.push(x);
            proof {
                assert(v@ =~= prefix.push(x));
                lemma_seq_wire_bytes_push(prefix, x);
                assert(bytes.subrange(p1, p_before) + bytes.subrange(p_before, r.position())
                    =~= bytes.subrange(p1, r.position()));
                assert(seq_wire_bytes(v@) =~= bytes.subrange(p1, r.position()));
            }
        }
        proof {
            assert(v.wire_bytes() =~= bytes.subrange(p0, r.position()));
            assert forall|v2: Vec<CisAclConnectionHandle>|
                v2.wf() && encodes_prefix(bytes, p0, v2) implies v2.wire_bytes()
                == v.wire_bytes() by {
                assert forall|j: int|
                    0 <= j < v2@.len() implies (#[trigger] v2@[j]).wire_bytes().len() == 4 by {}
                lemma_seq_wire_bytes_len(v2@, 4);
                assert(v2.wire_bytes()[0] == bytes.subrange(p0, p0 + v2.wire_bytes().len())[0]);
                assert(v2@.len() == len);
                assert(v2.wire_bytes() =~= bytes.subrange(p0, p0 + 1 + 4 * (len as int)));
            }
        }
        Some(v)
    }
}

// LE Remove CIG

/// 7.8.100 LE Remove CIG command.
#[derive(Debug)]
pub struct LeRemoveCig {
    /// Identifier of the CIG to remove.
    pub cig_id: u8,
}

impl CommandOpCode for LeRemoveCig {
    open spec fn spec_opcode() -> u16 {
        (0x065 + 0x08 * 0x400) as u16
    }

    fn opcode() -> (r: OpCode) {
        OpCode::from(0x08, 0x065)
    }
}

impl Write for LeRemoveCig {
    open spec fn wf(&self) -> bool {
        true
    }

    open spec fn wire_bytes(&self) -> Seq<u8> {
        seq![self.cig_id]
    }

    fn write(&self, w: &mut Writer) {
        w.write_u8(self.cig_id);
        assert(w@ =~= old(w)@ + self.wire_bytes());
    }
}

impl Read for LeRemoveCig {
    #[verifier::rlimit(50)]
    fn read(r: &mut Reader) -> (res: Option<Self>) {
        let ghost p0 = r.position();
        let ghost bytes = r.bytes();
        let ghost pk0 = r.position();
        let cig_id = match r.read_u8() {
            Some(x) => x,
            None => {
                proof {
                    assert forall|v2: LeRemoveCig| v2.wf() implies !encodes_prefix(
                        bytes,
                        p0,
                        v2,
                    ) by {
                        if encodes_prefix(bytes, p0, v2) {
                            assert(v2.wire_bytes().len() == 1);
                        }
                    }
                }
                return None;
            },
        };
        let res = LeRemoveCig { cig_id };
        proof {
            assert(res.wire_bytes() =~= bytes.subrange(p0, r.position()));
            assert forall|v2: LeRemoveCig|
                v2.wf() && encodes_prefix(bytes, p0, v2) implies v2.wire_bytes()
                == res.wire_bytes() by {
                assert(v2.wire_bytes().len() == 1);
                assert(v2.wire_bytes() =~= bytes.subrange(p0, p0 + 1));
            }
        }
        Some(res)
    }
}

impl CommandToBytes for LeRemoveCig {
}

/// Return parameters of LE Remove CIG.
#[derive(Debug)]
pub struct LeRemoveCigComplete {
    /// Outcome of the command.
    pub status: Status,
    /// Identifier of the removed CIG.
    pub cig_id: u8,
}

impl Write for LeRemoveCigComplete {
    open spec fn wf(&self) -> bool {
        true
    }

    open spec fn wire_bytes(&self) -> Seq<u8> {
        seq![status_code(self.status)] + seq![self.cig_id]
    }

    fn write(&self, w: &mut Writer) {
        w.write_u8(self.status.code());
        w.write_u8(self.cig_id);
        assert(w@ =~= old(w)@ + self.wire_bytes());
    }
}

impl Read for LeRemoveCigComplete {
    #[verifier::rlimit(50)]
    fn read(r: &mut Reader) -> (res: Option<Self>) {
        let ghost p0 = r.position();
        let ghost bytes = r.bytes();
        let ghost pk0 = r.position();
        let status = match <Status as Read>::read(r) {
            Some(x) => x,
            None => {
                proof {
                    assert forall|v2: LeRemoveCigComplete| v2.wf() implies !encodes_prefix(
                        bytes,
                        p0,
                        v2,
                    ) by {
                        if encodes_prefix(bytes, p0, v2) {
                            assert(pk0 == p0 + 0);
                            assert forall|j: int|
                                0 <= j < v2.status.wire_bytes().len() implies bytes[pk0 + j]
                                == v2.status.wire_bytes()[j] by {
                                assert(bytes.subrange(p0, p0 + v2.wire_bytes().len())[0 + j]
                                    == v2.wire_bytes()[0 + j]);
                            }
                            assert(bytes.subrange(
                                pk0,
                                pk0 + v2.status.wire_bytes().len(),
                            ) =~= v2.status.wire_bytes());
                            assert(encodes_prefix(bytes, pk0, v2.status));
                        }
                    }
                }
                return None;
            },
        };
        let ghost pk1 = r.position();
        let cig_id = match r.read_u8() {
            Some(x) => x,
            None => {
                proof {
                    assert forall|v2: LeRemoveCigComplete| v2.wf() implies !encodes_prefix(
                        bytes,
                        p0,
                        v2,
                    ) by {
                        if encodes_prefix(bytes, p0, v2) {
                            assert(v2.wire_bytes().len() == 2);
                        }
                    }
                }
                return None;
            },
        };
        let res = LeRemoveCigComplete { status, cig_id };
        proof {
            assert(res.wire_bytes() =~= bytes.subrange(p0, r.position()));
            assert forall|v2: LeRemoveCigComplete|
                v2.wf() && encodes_prefix(bytes, p0, v2) implies v2.wire_bytes()
                == res.wire_bytes() by {
                assert(v2.wire_bytes().len() == 2);
                assert(v2.wire_bytes() =~= bytes.subrange(p0, p0 + 2));
            }
        }
        Some(res)
    }
}

// LE Create BIG

/// 7.8.103 LE Create BIG command.
#[derive(Debug)]
pub struct LeCreateBig {
    /// Identifier of the BIG.
    pub big_handle: u8,
    /// Advertising set carrying the BIG.
    pub advertising_handle: u8,
    /// Number of BIS to create.
    pub num_bis: u8,
    /// SDU interval in microseconds (24 bits).
    pub sdu_interval: u32,
    /// Largest SDU size.
    pub max_sdu: u16,
    /// Largest transport latency, in milliseconds.
    pub max_transport_latency: u16,
    /// Retransmission effort.
    pub rtn: u8,
    /// PHY preference.
    pub phy: u8,
    /// Packing preference.
    pub packing: u8,
    /// Framing mode.
    pub framing: u8,
    /// Whether the BIG is encrypted.
    pub encryption: u8,
    /// Broadcast code, exactly 16 bytes.
    pub broadcast_code: Vec<u8>,
}

impl CommandOpCode for LeCreateBig {
    open spec fn spec_opcode() -> u16 {
        (0x068 + 0x08 * 0x400) as u16
    }

    fn opcode() -> (r: OpCode) {
        OpCode::from(0x08, 0x068)
    }
}

impl Write for LeCreateBig {
    open spec fn wf(&self) -> bool {
        self.sdu_interval < 0x100_0000 && self.broadcast_code@.len() == 16
    }

    open spec fn wire_bytes(&self) -> Seq<u8> {
        seq![self.big_handle] + seq![self.advertising_handle] + seq![self.num_bis] + le24(self.sdu_interval) + le16(self.max_sdu) + le16(self.max_transport_latency) + seq![self.rtn] + seq![self.phy] + seq![self.packing] + seq![self.framing] + seq![self.encryption] + self.broadcast_code@
    }

    fn write(&self, w: &mut Writer) {
        w.write_u8(self.big_handle);
        w.write_u8(self.advertising_handle);
        w.write_u8(self.num_bis);
        w.write_u24(self.sdu_interval);
        w.write_u16(self.max_sdu);
        w.write_u16(self.max_transport_latency);
        w.write_u8(self.rtn);
        w.write_u8(self.phy);
        w.write_u8(self.packing);
        w.write_u8(self.framing);
        w.write_u8(self.encryption);
        w.put(self.broadcast_code.as_slice());
        assert(w@ =~= old(w)@ + self.wire_bytes());
    }
}

impl Read for LeCreateBig {
    #[verifier::rlimit(50)]
    fn read(r: &mut Reader) -> (res: Option<Self>) {
        let ghost p0 = r.position();
        let ghost bytes = r.bytes();
        let ghost pk0 = r.position();
        let big_handle = match r.read_u8() {
            Some(x) => x,
            None => {
                proof {
                    assert forall|v2: LeCreateBig| v2.wf() implies !encodes_prefix(
                        bytes,
                        p0,
                        v2,
                    ) by {
                        if encodes_prefix(bytes, p0, v2) {
                            assert(v2.broadcast_code@.len() == 16);
                            assert(v2.wire_bytes().len() == 31);
                        }
                    }
                }
                return None;
            },
        };
        let ghost pk1 = r.position();
        let advertising_handle = match r.read_u8() {
            Some(x) => x,
            None => {
                proof {
                    assert forall|v2: LeCreateBig| v2.wf() implies !encodes_prefix(
                        bytes,
                        p0,
                        v2,
                    ) by {
                        if encodes_prefix(bytes, p0, v2) {
                            assert(v2.broadcast_code@.len() == 16);
                            assert(v2.wire_bytes().len() == 31);
                        }
                    }
                }
                return None;
            },
        };
        let ghost pk2 = r.position();
        let num_bis = match r.read_u8() {
            Some(x) => x,
            None => {
                proof {
                    assert forall|v2: LeCreateBig| v2.wf() implies !encodes_prefix(
                        bytes,
                        p0,
                        v2,
                    ) by {
                        if encodes_prefix(bytes, p0, v2) {
                            assert(v2.broadcast_code@.len() == 16);
                            assert(v2.wire_bytes().len() == 31);
                        }
                    }
                }
                return None;
            },
        };
        let ghost pk3 = r.position();
        let sdu_interval = match r.read_u24() {
            Some(x) => x,
            None => {
                proof {
                    assert forall|v2: LeCreateBig| v2.wf() implies !encodes_prefix(
                        bytes,
                        p0,
                        v2,
                    ) by {
                        if encodes_prefix(bytes, p0, v2) {
                            assert(v2.broadcast_code@.len() == 16);
                            assert(v2.wire_bytes().len() == 31);
                        }
                    }
                }
                return None;
            },
        };
        let ghost pk4 = r.position();
        let max_sdu = match r.read_u16() {
            Some(x) => x,
            None => {
                proof {
                    assert forall|v2: LeCreateBig| v2.wf() implies !encodes_prefix(
                        bytes,
                        p0,
                        v2,
                    ) by {
                        if encodes_prefix(bytes, p0, v2) {
                            assert(v2.broadcast_code@.len() == 16);
                            assert(v2.wire_bytes().len() == 31);
                        }
                    }
                }
                return None;
            },
        };
        let ghost pk5 = r.position();
        let max_transport_latency = match r.read_u16() {
            Some(x) => x,
            None => {
                proof {
                    assert forall|v2: LeCreateBig| v2.wf() implies !encodes_prefix(
                        bytes,
                        p0,
                        v2,
                    ) by {
                        if encodes_prefix(bytes, p0, v2) {
                            assert(v2.broadcast_code@.len() == 16);
                            assert(v2.wire_bytes().len() == 31);
                        }
                    }
                }
                return None;
            },
        };
        let ghost pk6 = r.position();
        let rtn = match r.read_u8() {
            Some(x) => x,
            None => {
                proof {
                    assert forall|v2: LeCreateBig| v2.wf() implies !encodes_prefix(
                        bytes,
                        p0,
                        v2,
                    ) by {
                        if encodes_prefix(bytes, p0, v2) {
                            assert(v2.broadcast_code@.len() == 16);
                            assert(v2.wire_bytes().len() == 31);
                        }
                    }
                }
                return None;
            },
        };
        let ghost pk7 = r.position();
        let phy = match r.read_u8() {
            Some(x) => x,
            None => {
                proof {
                    assert forall|v2: LeCreateBig| v2.wf() implies !encodes_prefix(
                        bytes,
                        p0,
                        v2,
                    ) by {
                        if encodes_prefix(bytes, p0, v2) {
                            assert(v2.broadcast_code@.len() == 16);
                            assert(v2.wire_bytes().len() == 31);
                        }
                    }
                }
                return None;
            },
        };
        let ghost pk8 = r.position();
        let packing = match r.read_u8() {
            Some(x) => x,
            None => {
                proof {
                    assert forall|v2: LeCreateBig| v2.wf() implies !encodes_prefix(
                        bytes,
                        p0,
                        v2,
                    ) by {
                        if encodes_prefix(bytes, p0, v2) {
                            assert(v2.broadcast_code@.len() == 16);
                            assert(v2.wire_bytes().len() == 31);
                        }
                    }
                }
                return None;
            },
        };
        let ghost pk9 = r.position();
        let framing = match r.read_u8() {
            Some(x) => x,
            None => {
                proof {
                    assert forall|v2: LeCreateBig| v2.wf() implies !encodes_prefix(
                        bytes,
                        p0,
                        v2,
                    ) by {
                        if encodes_prefix(bytes, p0, v2) {
                            assert(v2.broadcast_code@.len() == 16);
                            assert(v2.wire_bytes().len() == 31);
                        }
                    }
                }
                return None;
            },
        };
        let ghost pk10 = r.position();
        let encryption = match r.read_u8() {
            Some(x) => x,
            None => {
                proof {
                    assert forall|v2: LeCreateBig| v2.wf() implies !encodes_prefix(
                        bytes,
                        p0,
                        v2,
                    ) by {
                        if encodes_prefix(bytes, p0, v2) {
                            assert(v2.broadcast_code@.len() == 16);
                            assert(v2.wire_bytes().len() == 31);
                        }
                    }
                }
                return None;
            },
        };
        let ghost pk11 = r.position();
        let broadcast_code = match r.read_vec(16) {
            Some(x) => x,
            None => {
                proof {
                    assert forall|v2: LeCreateBig| v2.wf() implies !encodes_prefix(
                        bytes,
                        p0,
                        v2,
                    ) by {
                        if encodes_prefix(bytes, p0, v2) {
                            assert(v2.broadcast_code@.len() == 16);
                            assert(v2.wire_bytes().len() == 31);
                        }
                    }
                }
                return None;
            },
        };
        let res = LeCreateBig { big_handle, advertising_handle, num_bis, sdu_interval, max_sdu, max_transport_latency, rtn, phy, packing, framing, encryption, broadcast_code };
        proof {
            assert(res.wire_bytes() =~= bytes.subrange(p0, r.position()));
            assert forall|v2: LeCreateBig|
                v2.wf() && encodes_prefix(bytes, p0, v2) implies v2.wire_bytes()
                == res.wire_bytes() by {
                assert(v2.broadcast_code@.len() == 16);
                assert(v2.wire_bytes().len() == 31);
                assert(v2.wire_bytes() =~= bytes.subrange(p0, p0 + 31));
            }
        }
        Some(res)
    }
}

impl CommandToBytes for LeCreateBig {
}

// LE Setup ISO Data Path

/// 7.8.109 LE Setup ISO Data Path command.
#[derive(Debug)]
pub struct LeSetupIsoDataPath {
    /// Handle of the CIS or BIS.
    pub connection_handle: u16,
    /// Direction of the path being set up.
    pub data_path_direction: LeDataPathDirection,
    /// Identifier of the data path to use.
    pub data_path_id: u8,
    /// Codec in use on the path.
    pub codec_id: LeCodecId,
    /// Controller delay in microseconds (24 bits).
    pub controller_delay: u32,
    /// Codec-specific configuration.
    pub codec_configuration: Vec<u8>,
}

impl CommandOpCode for LeSetupIsoDataPath {
    open spec fn spec_opcode() -> u16 {
        (0x06e + 0x08 * 0x400) as u16
    }

    fn opcode() -> (r: OpCode) {
        OpCode::from(0x08, 0x06e)
    }
}

impl Write for LeSetupIsoDataPath {
    open spec fn wf(&self) -> bool {
        self.data_path_direction.wf() && self.codec_id.wf() && self.controller_delay < 0x100_0000 && self.codec_configuration.wf()
    }

    open spec fn wire_bytes(&self) -> Seq<u8> {
        le16(self.connection_handle) + self.data_path_direction.wire_bytes() + seq![self.data_path_id] + self.codec_id.wire_bytes() + le24(self.controller_delay) + self.codec_configuration.wire_bytes()
    }

    fn write(&self, w: &mut Writer) {
        w.write_u16(self.connection_handle);
        self.data_path_direction.write(w);
        w.write_u8(self.data_path_id);
        self.codec_id.write(w);
        w.write_u24(self.controller_delay);
        self.codec_configuration.write(w);
        assert(w@ =~= old(w)@ + self.wire_bytes());
    }
}

impl Read for LeSetupIsoDataPath {
    #[verifier::rlimit(50)]
    fn read(r: &mut Reader) -> (res: Option<Self>) {
        let ghost p0 = r.position();
        let ghost bytes = r.bytes();
        let ghost pk0 = r.position();
        let connection_handle = match r.read_u16() {
            Some(x) => x,
            None => {
                proof {
                    assert forall|v2: LeSetupIsoDataPath| v2.wf() implies !encodes_prefix(
                        bytes,
                        p0,
                        v2,
                    ) by {
                        if encodes_prefix(bytes, p0, v2) {
                            assert(v2.codec_configuration.wire_bytes().len() >= 1);
                            assert(v2.wire_bytes().len() >= 13);
                        }
                    }
                }
                return None;
            },
        };
        let ghost pk1 = r.position();
        let data_path_direction = match <LeDataPathDirection as Read>::read(r) {
            Some(x) => x,
            None => {
                proof {
                    assert forall|v2: LeSetupIsoDataPath| v2.wf() implies !encodes_prefix(
                        bytes,
                        p0,
                        v2,
                    ) by {
                        if encodes_prefix(bytes, p0, v2) {
                            assert(v2.codec_configuration.wire_bytes().len() >= 1);
                            assert(pk1 == p0 + 2);
                            assert forall|j: int|
                                0 <= j < v2.data_path_direction.wire_bytes().len() implies bytes[pk1 + j]
                                == v2.data_path_direction.wire_bytes()[j] by {
                                assert(bytes.subrange(p0, p0 + v2.wire_bytes().len())[2 + j]
                                    == v2.wire_bytes()[2 + j]);
                            }
                            assert(bytes.subrange(
                                pk1,
                                pk1 + v2.data_path_direction.wire_bytes().len(),
                            ) =~= v2.data_path_direction.wire_bytes());
                            assert(encodes_prefix(bytes, pk1, v2.data_path_direction));
                        }
                    }
                }
                return None;
            },
        };
        let ghost pk2 = r.position();
        let data_path_id = match r.read_u8() {
            Some(x) => x,
            None => {
                proof {
                    assert forall|v2: LeSetupIsoDataPath| v2.wf() implies !encodes_prefix(
                        bytes,
                        p0,
                        v2,
                    ) by {
                        if encodes_prefix(bytes, p0, v2) {
                            assert(v2.codec_configuration.wire_bytes().len() >= 1);
                            assert(v2.wire_bytes().len() >= 13);
                        }
                    }
                }
                return None;
            },
        };
        let ghost pk3 = r.position();
        let codec_id = match <LeCodecId as Read>::read(r) {
            Some(x) => x,
            None => {
                proof {
                    assert forall|v2: LeSetupIsoDataPath| v2.wf() implies !encodes_prefix(
                        bytes,
                        p0,
                        v2,
                    ) by {
                        if encodes_prefix(bytes, p0, v2) {
                            assert(v2.codec_configuration.wire_bytes().len() >= 1);
                            assert(pk3 == p0 + 4);
                            assert forall|j: int|
                                0 <= j < v2.codec_id.wire_bytes().len() implies bytes[pk3 + j]
                                == v2.codec_id.wire_bytes()[j] by {
                                assert(bytes.subrange(p0, p0 + v2.wire_bytes().len())[4 + j]
                                    == v2.wire_bytes()[4 + j]);
                            }
                            assert(bytes.subrange(
                                pk3,
                                pk3 + v2.codec_id.wire_bytes().len(),
                            ) =~= v2.codec_id.wire_bytes());
                            assert(encodes_prefix(bytes, pk3, v2.codec_id));
                        }
                    }
                }
                return None;
            },
        };
        let ghost pk4 = r.position();
        let controller_delay = match r.read_u24() {
            Some(x) => x,
            None => {
                proof {
                    assert forall|v2: LeSetupIsoDataPath| v2.wf() implies !encodes_prefix(
                        bytes,
                        p0,
                        v2,
                    ) by {
                        if encodes_prefix(bytes, p0, v2) {
                            assert(v2.codec_configuration.wire_bytes().len() >= 1);
                            assert(v2.wire_bytes().len() >= 13);
                        }
                    }
                }
                return None;
            },
        };
        let ghost pk5 = r.position();
        let codec_configuration = match <Vec<u8> as Read>::read(r) {
            Some(x) => x,
            None => {
                proof {
                    assert forall|v2: LeSetupIsoDataPath| v2.wf() implies !encodes_prefix(
                        bytes,
                        p0,
                        v2,
                    ) by {
                        if encodes_prefix(bytes, p0, v2) {
                            assert(v2.codec_configuration.wire_bytes().len() >= 1);
                            assert(pk5 == p0 + 12);
                            assert forall|j: int|
                                0 <= j < v2.codec_configuration.wire_bytes().len() implies bytes[pk5 + j]
                                == v2.codec_configuration.wire_bytes()[j] by {
                                assert(bytes.subrange(p0, p0 + v2.wire_bytes().len())[12 + j]
                                    == v2.wire_bytes()[12 + j]);
                            }
                            assert(bytes.subrange(
                                pk5,
                                pk5 + v2.codec_configuration.wire_bytes().len(),
                            ) =~= v2.codec_configuration.wire_bytes());
                            assert(encodes_prefix(bytes, pk5, v2.codec_configuration));
                        }
                    }
                }
                return None;
            },
        };
        let res = LeSetupIsoDataPath { connection_handle, data_path_direction, data_path_id, codec_id, controller_delay, codec_configuration };
        proof {
            assert(res.wire_bytes() =~= bytes.subrange(p0, r.position()));
            assert forall|v2: LeSetupIsoDataPath|
                v2.wf() && encodes_prefix(bytes, p0, v2) implies v2.wire_bytes()
                == res.wire_bytes() by {
                assert(pk5 == p0 + 12);
                assert forall|j: int|
                    0 <= j < v2.codec_configuration.wire_bytes().len() implies bytes[pk5 + j]
                    == v2.codec_configuration.wire_bytes()[j] by {
                    assert(bytes.subrange(p0, p0 + v2.wire_bytes().len())[12 + j]
                        == v2.wire_bytes()[12 + j]);
                }
                assert(bytes.subrange(
                    pk5,
                    pk5 + v2.codec_configuration.wire_bytes().len(),
                ) =~= v2.codec_configuration.wire_bytes());
                assert(encodes_prefix(bytes, pk5, v2.codec_configuration));
                assert(v2.codec_configuration.wire_bytes() == res.codec_configuration.wire_bytes());
                assert(v2.wire_bytes().len() == res.wire_bytes().len());
                assert(v2.wire_bytes() =~= bytes.subrange(
                    p0,
                    p0 + v2.wire_bytes().len(),
                ));
            }
        }
        Some(res)
    }
}

impl CommandToBytes for LeSetupIsoDataPath {
}

/// Direction of an ISO data path.
#[derive(Debug, Clone, Copy, PartialEq, Eq, Structural)]
pub enum LeDataPathDirection {
    /// Host to controller.
    Input,
    /// Controller to host.
    Output,
}

/// The one-byte wire code of a data path direction.
pub open spec fn direction_code(d: LeDataPathDirection) -> u8 {
    match d {
        LeDataPathDirection::Input => 0x00,
        LeDataPathDirection::Output => 0x01,
    }
}

impl Write for LeDataPathDirection {
    open spec fn wf(&self) -> bool {
        true
    }

    open spec fn wire_bytes(&self) -> Seq<u8> {
        seq![direction_code(*self)]
    }

    fn write(&self, w: &mut Writer) {
        let v: u8 = match *self {
            LeDataPathDirection::Input => 0x00,
            LeDataPathDirection::Output => 0x01,
        };
        w.write_u8(v);
        assert(w@ =~= old(w)@ + self.wire_bytes());
    }
}

impl Read for LeDataPathDirection {
    fn read(r: &mut Reader) -> (res: Option<Self>) {
        let ghost p0 = r.position();
        let ghost bytes = r.bytes();
        let v = match r.read_u8() {
            Some(v) => v,
            None => {
                proof {
                    assert forall|v2: LeDataPathDirection| v2.wf() implies !encodes_prefix(
                        bytes,
                        p0,
                        v2,
                    ) by {
                        if encodes_prefix(bytes, p0, v2) {
                            assert(v2.wire_bytes().len() == 1);
                        }
                    }
                }
                return None;
            },
        };
        let res = match v {
            0x00 => LeDataPathDirection::Input,
            0x01 => LeDataPathDirection::Output,
            _ => {
                proof {
                    assert forall|v2: LeDataPathDirection| v2.wf() implies !encodes_prefix(
                        bytes,
                        p0,
                        v2,
                    ) by {
                        if encodes_prefix(bytes, p0, v2) {
                            assert(v2.wire_bytes()[0] == bytes.subrange(p0, p0 + 1)[0]);
                            assert(direction_code(v2) == 0x00 || direction_code(v2) == 0x01);
                        }
                    }
                }
                return None;
            },
        };
        proof {
            assert(res.wire_bytes() =~= bytes.subrange(p0, r.position()));
            assert forall|v2: LeDataPathDirection|
                v2.wf() && encodes_prefix(bytes, p0, v2) implies v2.wire_bytes()
                == res.wire_bytes() by {
                assert(v2.wire_bytes() =~= bytes.subrange(p0, p0 + 1));
            }
        }
        Some(res)
    }
}

/// Codec identifier inside LE Setup ISO Data Path.
#[derive(Debug)]
pub struct LeCodecId {
    /// Coding format in use.
    pub coding_format: CodingFormat,
    /// Company identifier for vendor-specific formats.
    pub company_id: u16,
    /// Vendor-assigned codec identifier.
    pub vendor_id: u16,
}

impl Write for LeCodecId {
    open spec fn wf(&self) -> bool {
        self.coding_format.wf()
    }

    open spec fn wire_bytes(&self) -> Seq<u8> {
        self.coding_format.wire_bytes() + le16(self.company_id) + le16(self.vendor_id)
    }

    fn write(&self, w: &mut Writer) {
        self.coding_format.write(w);
        w.write_u16(self.company_id);
        w.write_u16(self.vendor_id);
        assert(w@ =~= old(w)@ + self.wire_bytes());
    }
}

impl Read for LeCodecId {
    #[verifier::rlimit(50)]
    fn read(r: &mut Reader) -> (res: Option<Self>) {
        let ghost p0 = r.position();
        let ghost bytes = r.bytes();
        let ghost pk0 = r.position();
        let coding_format = match <CodingFormat as Read>::read(r) {
            Some(x) => x,
            None => {
                proof {
                    assert forall|v2: LeCodecId| v2.wf() implies !encodes_prefix(
                        bytes,
                        p0,
                        v2,
                    ) by {
                        if encodes_prefix(bytes, p0, v2) {
                            assert(pk0 == p0 + 0);
                            assert forall|j: int|
                                0 <= j < v2.coding_format.wire_bytes().len() implies bytes[pk0 + j]
                                == v2.coding_format.wire_bytes()[j] by {
                                assert(bytes.subrange(p0, p0 + v2.wire_bytes().len())[0 + j]
                                    == v2.wire_bytes()[0 + j]);
                            }
                            assert(bytes.subrange(
                                pk0,
                                pk0 + v2.coding_format.wire_bytes().len(),
                            ) =~= v2.coding_format.wire_bytes());
                            assert(encodes_prefix(bytes, pk0, v2.coding_format));
                        }
                    }
                }
                return None;
            },
        };
        let ghost pk1 = r.position();
        let company_id = match r.read_u16() {
            Some(x) => x,
            None => {
                proof {
                    assert forall|v2: LeCodecId| v2.wf() implies !encodes_prefix(
                        bytes,
                        p0,
                        v2,
                    ) by {
                        if encodes_prefix(bytes, p0, v2) {
                            assert(v2.wire_bytes().len() == 5);
                        }
                    }
                }
                return None;
            },
        };
        let ghost pk2 = r.position();
        let vendor_id = match r.read_u16() {
            Some(x) => x,
            None => {
                proof {
                    assert forall|v2: LeCodecId| v2.wf() implies !encodes_prefix(
                        bytes,
                        p0,
                        v2,
                    ) by {
                        if encodes_prefix(bytes, p0, v2) {
                            assert(v2.wire_bytes().len() == 5);
                        }
                    }
                }
                return None;
            },
        };
        let res = LeCodecId { coding_format, company_id, vendor_id };
        proof {
            assert(res.wire_bytes() =~= bytes.subrange(p0, r.position()));
            assert forall|v2: LeCodecId|
                v2.wf() && encodes_prefix(bytes, p0, v2) implies v2.wire_bytes()
                == res.wire_bytes() by {
                assert(v2.wire_bytes().len() == 5);
                assert(v2.wire_bytes() =~= bytes.subrange(p0, p0 + 5));
            }
        }
        Some(res)
    }
}

/// Coding format of a codec identifier.
#[derive(Debug, Clone, Copy, PartialEq, Eq, Structural)]
pub enum CodingFormat {
    /// u-law logarithmic coding.
    ULawLog,
    /// A-law logarithmic coding.
    ALawLog,
    /// Continuously variable slope delta coding.
    Cvsd,
    /// No transcoding.
    Transparent,
    /// Linear PCM.
    LinearPcm,
    /// Modified sub-band coding.
    MSbc,
    /// Low-complexity communication codec.
    Lc3,
    /// G.729A coding.
    G729A,
    /// Vendor-specific coding format.
    VendorSpecific,
}

/// The one-byte wire code of a coding format.
pub open spec fn coding_format_code(f: CodingFormat) -> u8 {
    match f {
        CodingFormat::ULawLog => 0x00,
        CodingFormat::ALawLog => 0x01,
        CodingFormat::Cvsd => 0x02,
        CodingFormat::Transparent => 0x03,
        CodingFormat::LinearPcm => 0x04,
        CodingFormat::MSbc => 0x05,
        CodingFormat::Lc3 => 0x06,
        CodingFormat::G729A => 0x07,
        CodingFormat::VendorSpecific => 0xff,
    }
}

impl Write for CodingFormat {
    open spec fn wf(&self) -> bool {
        true
    }

    open spec fn wire_bytes(&self) -> Seq<u8> {
        seq![coding_format_code(*self)]
    }

    fn write(&self, w: &mut Writer) {
        let v: u8 = match *self {
            CodingFormat::ULawLog => 0x00,
            CodingFormat::ALawLog => 0x01,
            CodingFormat::Cvsd => 0x02,
            CodingFormat::Transparent => 0x03,
            CodingFormat::LinearPcm => 0x04,
            CodingFormat::MSbc => 0x05,
            CodingFormat::Lc3 => 0x06,
            CodingFormat::G729A => 0x07,
            CodingFormat::VendorSpecific => 0xff,
        };
        w.write_u8(v);
        assert(w@ =~= old(w)@ + self.wire_bytes());
    }
}

impl Read for CodingFormat {
    fn read(r: &mut Reader) -> (res: Option<Self>) {
        let ghost p0 = r.position();
        let ghost bytes = r.bytes();
        let v = match r.read_u8() {
            Some(v) => v,
            None => {
                proof {
                    assert forall|v2: CodingFormat| v2.wf() implies !encodes_prefix(
                        bytes,
                        p0,
                        v2,
                    ) by {
                        if encodes_prefix(bytes, p0, v2) {
                            assert(v2.wire_bytes().len() == 1);
                        }
                    }
                }
                return None;
            },
        };
        let res = match v {
            0x00 => CodingFormat::ULawLog,
            0x01 => CodingFormat::ALawLog,
            0x02 => CodingFormat::Cvsd,
            0x03 => CodingFormat::Transparent,
            0x04 => CodingFormat::LinearPcm,
            0x05 => CodingFormat::MSbc,
            0x06 => CodingFormat::Lc3,
            0x07 => CodingFormat::G729A,
            0xff => CodingFormat::VendorSpecific,
            _ => {
                proof {
                    assert forall|v2: CodingFormat| v2.wf() implies !encodes_prefix(
                        bytes,
                        p0,
                        v2,
                    ) by {
                        if encodes_prefix(bytes, p0, v2) {
                            assert(v2.wire_bytes()[0] == bytes.subrange(p0, p0 + 1)[0]);
                            assert(coding_format_code(v2) == 0x00 || coding_format_code(v2) == 0x01 || coding_format_code(v2) == 0x02 || coding_format_code(v2) == 0x03 || coding_format_code(v2) == 0x04 || coding_format_code(v2) == 0x05 || coding_format_code(v2) == 0x06 || coding_format_code(v2) == 0x07 || coding_format_code(v2) == 0xff);
                        }
                    }
                }
                return None;
            },
        };
        proof {
            assert(res.wire_bytes() =~= bytes.subrange(p0, r.position()));
            assert forall|v2: CodingFormat|
                v2.wf() && encodes_prefix(bytes, p0, v2) implies v2.wire_bytes()
                == res.wire_bytes() by {
                assert(v2.wire_bytes() =~= bytes.subrange(p0, p0 + 1));
            }
        }
        Some(res)
    }
}

/// Return parameters of LE Setup ISO Data Path and LE Remove ISO Data Path.
#[derive(Debug)]
pub struct LeIsoDataPathComplete {
    /// Outcome of the command.
    pub status: Status,
    /// Handle of the CIS or BIS the path belongs to.
    pub connection_handle: u16,
}

impl Write for LeIsoDataPathComplete {
    open spec fn wf(&self) -> bool {
        true
    }

    open spec fn wire_bytes(&self) -> Seq<u8> {
        seq![status_code(self.status)] + le16(self.connection_handle)
    }

    fn write(&self, w: &mut Writer) {
        w.write_u8(self.status.code());
        w.write_u16(self.connection_handle);
        assert(w@ =~= old(w)@ + self.wire_bytes());
    }
}

impl Read for LeIsoDataPathComplete {
    #[verifier::rlimit(50)]
    fn read(r: &mut Reader) -> (res: Option<Self>) {
        let ghost p0 = r.position();
        let ghost bytes = r.bytes();
        let ghost pk0 = r.position();
        let status = match <Status as Read>::read(r) {
            Some(x) => x,
            None => {
                proof {
                    assert forall|v2: LeIsoDataPathComplete| v2.wf() implies !encodes_prefix(
                        bytes,
                        p0,
                        v2,
                    ) by {
                        if encodes_prefix(bytes, p0, v2) {
                            assert(pk0 == p0 + 0);
                            assert forall|j: int|
                                0 <= j < v2.status.wire_bytes().len() implies bytes[pk0 + j]
                                == v2.status.wire_bytes()[j] by {
                                assert(bytes.subrange(p0, p0 + v2.wire_bytes().len())[0 + j]
                                    == v2.wire_bytes()[0 + j]);
                            }
                            assert(bytes.subrange(
                                pk0,
                                pk0 + v2.status.wire_bytes().len(),
                            ) =~= v2.status.wire_bytes());
                            assert(encodes_prefix(bytes, pk0, v2.status));
                        }
                    }
                }
                return None;
            },
        };
        let ghost pk1 = r.position();
        let connection_handle = match r.read_u16() {
            Some(x) => x,
            None => {
                proof {
                    assert forall|v2: LeIsoDataPathComplete| v2.wf() implies !encodes_prefix(
                        bytes,
                        p0,
                        v2,
                    ) by {
                        if encodes_prefix(bytes, p0, v2) {
                            assert(v2.wire_bytes().len() == 3);
                        }
                    }
                }
                return None;
            },
        };
        let res = LeIsoDataPathComplete { status, connection_handle };
        proof {
            assert(res.wire_bytes() =~= bytes.subrange(p0, r.position()));
            assert forall|v2: LeIsoDataPathComplete|
                v2.wf() && encodes_prefix(bytes, p0, v2) implies v2.wire_bytes()
                == res.wire_bytes() by {
                assert(v2.wire_bytes().len() == 3);
                assert(v2.wire_bytes() =~= bytes.subrange(p0, p0 + 3));
            }
        }
        Some(res)
    }
}

// LE Remove ISO Data Path

/// 7.8.110 LE Remove ISO Data Path command.
#[derive(Debug)]
pub struct LeRemoveIsoDataPath {
    /// Handle of the CIS or BIS.
    pub connection_handle: u16,
    /// Bit mask of the directions to remove.
    pub data_path_direction: u8,
}

impl CommandOpCode for LeRemoveIsoDataPath {
    open spec fn spec_opcode() -> u16 {
        (0x06f + 0x08 * 0x400) as u16
    }

    fn opcode() -> (r: OpCode) {
        OpCode::from(0x08, 0x06f)
    }
}

impl Write for LeRemoveIsoDataPath {
    open spec fn wf(&self) -> bool {
        true
    }

    open spec fn wire_bytes(&self) -> Seq<u8> {
        le16(self.connection_handle) + seq![self.data_path_direction]
    }

    fn write(&self, w: &mut Writer) {
        w.write_u16(self.connection_handle);
        w.write_u8(self.data_path_direction);
        assert(w@ =~= old(w)@ + self.wire_bytes());
    }
}

impl Read for LeRemoveIsoDataPath {
    #[verifier::rlimit(50)]
    fn read(r: &mut Reader) -> (res: Option<Self>) {
        let ghost p0 = r.position();
        let ghost bytes = r.bytes();
        let ghost pk0 = r.position();
        let connection_handle = match r.read_u16() {
            Some(x) => x,
            None => {
                proof {
                    assert forall|v2: LeRemoveIsoDataPath| v2.wf() implies !encodes_prefix(
                        bytes,
                        p0,
                        v2,
                    ) by {
                        if encodes_prefix(bytes, p0, v2) {
                            assert(v2.wire_bytes().len() == 3);
                        }
                    }
                }
                return None;
            },
        };
        let ghost pk1 = r.position();
        let data_path_direction = match r.read_u8() {
            Some(x) => x,
            None => {
                proof {
                    assert forall|v2: LeRemoveIsoDataPath| v2.wf() implies !encodes_prefix(
                        bytes,
                        p0,
                        v2,
                    ) by {
                        if encodes_prefix(bytes, p0, v2) {
                            assert(v2.wire_bytes().len() == 3);
                        }
                    }
                }
                return None;
            },
        };
        let res = LeRemoveIsoDataPath { connection_handle, data_path_direction };
        proof {
            assert(res.wire_bytes() =~= bytes.subrange(p0, r.position()));
            assert forall|v2: LeRemoveIsoDataPath|
                v2.wf() && encodes_prefix(bytes, p0, v2) implies v2.wire_bytes()
                == res.wire_bytes() by {
                assert(v2.wire_bytes().len() == 3);
                assert(v2.wire_bytes() =~= bytes.subrange(p0, p0 + 3));
            }
        }
        Some(res)
    }
}

impl CommandToBytes for LeRemoveIsoDataPath {
}

} // verus!
