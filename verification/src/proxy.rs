//! LE Audio offload proxy state machine.
//!
//! The proxy watches the HCI stream between host stack and controller. It
//! records CIG and BIG group parameters from outgoing commands, builds
//! per-connection stream records from establishment events, intercepts
//! LE Setup ISO Data Path commands that name the software offload path,
//! steers ISO traffic through the transmit arbiter, and rewrites the
//! controller's Number Of Completed Packets accounting so the host stack
//! only sees completions for packets it sent itself.
//!
//! Each handler returns what the surrounding transport must do: which
//! packet to forward (unchanged, rewritten, or none) and which stream
//! lifecycle notices to deliver to the offload client. A protocol
//! violation is reported as a fault; the surrounding transport fails fast
//! on it, and recovery requires a controller reset.

use vstd::prelude::*;

use crate::arbiter::{it_count, it_index, it_total, it_tracked, Arbiter};
use crate::command::{Command, CommandToBytes, LeDataPathDirection, LeSetupIsoDataPath};
use crate::writer::Write;
use crate::data::IsoData;
use crate::event::{Event, EventToBytes, NumberOfCompletedPacketsHandle, ReturnParameters};
use crate::status::Status;

verus! {

/// The data path identifier reserved for the software offload path.
pub const DATA_PATH_ID_SOFTWARE: u8 = 0x19;

/// Whether an association list has an entry under a key.
pub open spec fn assoc_has<K, V>(m: Seq<(K, V)>, k: K) -> bool {
    exists|i: int| 0 <= i < m.len() && (#[trigger] m[i]).0 == k
}

/// The position of a key's entry in an association list.
pub open spec fn assoc_idx<K, V>(m: Seq<(K, V)>, k: K) -> int {
    choose|i: int| 0 <= i < m.len() && (#[trigger] m[i]).0 == k
}

/// The value under a key in an association list.
pub open spec fn assoc_get<K, V>(m: Seq<(K, V)>, k: K) -> V {
    m[assoc_idx(m, k)].1
}

/// Each key appears at most once.
pub open spec fn assoc_unique<K, V>(m: Seq<(K, V)>) -> bool {
    forall|i: int, j: int|
        0 <= i < j < m.len() ==> (#[trigger] m[i]).0 != (#[trigger] m[j]).0
}

/// The list with a binding replaced in place, or appended when absent.
pub open spec fn assoc_insert<K, V>(m: Seq<(K, V)>, k: K, v: V) -> Seq<(K, V)> {
    if assoc_has(m, k) {
        m.update(assoc_idx(m, k), (k, v))
    } else {
        m.push((k, v))
    }
}

/// The list with a key's binding removed, order kept.
pub open spec fn assoc_remove<K, V>(m: Seq<(K, V)>, k: K) -> Seq<(K, V)> {
    if assoc_has(m, k) {
        m.remove(assoc_idx(m, k))
    } else {
        m
    }
}

/// Parameters of a broadcast isochronous group.
#[derive(Debug)]
pub struct BigParameters {
    /// SDU interval in microseconds.
    pub sdu_interval: u32,
    /// Largest SDU size.
    pub max_sdu_size: u16,
    /// The BIS connection handles, filled in on the completion event.
    pub bis_handles: Vec<u16>,
}

/// Parameters of a connected isochronous group.
#[derive(Debug)]
pub struct CigParameters {
    /// SDU interval central to peripheral, in microseconds.
    pub sdu_interval_c_to_p: u32,
    /// SDU interval peripheral to central, in microseconds.
    pub sdu_interval_p_to_c: u32,
    /// Per-CIS parameters, handles filled in on the completion event.
    pub cis: Vec<CisParameters>,
}

/// Parameters of one CIS within its CIG.
#[derive(Debug, Clone, Copy, PartialEq, Eq, Structural)]
pub struct CisParameters {
    /// Connection handle, zero until the completion event reports it.
    pub handle: u16,
    /// Largest SDU central to peripheral.
    pub max_sdu_size_c_to_p: u16,
    /// Largest SDU peripheral to central.
    pub max_sdu_size_p_to_c: u16,
}

/// Per-connection stream record of the proxy.
#[derive(Debug, Clone, Copy, PartialEq, Eq, Structural)]
pub struct Stream {
    /// Where the stream stands in the offload lifecycle.
    pub state: StreamState,
    /// CIS or BIS parameters of the stream.
    pub iso_type: IsoType,
    /// ISO interval in microseconds.
    pub iso_interval_us: u32,
}

/// Offload lifecycle of a stream.
#[derive(Debug, Clone, Copy, PartialEq, Eq, Structural)]
pub enum StreamState {
    /// Not on the offload path.
    Disabled,
    /// Offload data path setup sent, completion pending.
    Enabling,
    /// On the offload path; its completions are hidden from the stack.
    Enabled,
}

/// Kind of an ISO stream.
#[derive(Debug, Clone, Copy, PartialEq, Eq, Structural)]
pub enum IsoType {
    /// Connected isochronous stream, with both directions.
    Cis {
        /// Central-to-peripheral direction.
        c_to_p: IsoInDirection,
        /// Peripheral-to-central direction.
        p_to_c: IsoInDirection,
    },
    /// Broadcast isochronous stream.
    Bis {
        /// Central-to-peripheral direction.
        c_to_p: IsoInDirection,
    },
}

/// One direction of an ISO stream.
#[derive(Debug, Clone, Copy, PartialEq, Eq, Structural)]
pub struct IsoInDirection {
    /// SDU interval in microseconds.
    pub sdu_interval_us: u32,
    /// Largest SDU size.
    pub max_sdu_size: u16,
    /// Flush timeout.
    pub flush_timeout: u8,
}

/// Stream parameters reported to the offload client on stream start.
#[derive(Debug, Clone, Copy, PartialEq, Eq, Structural)]
pub struct StreamConfiguration {
    /// ISO interval in microseconds.
    pub iso_interval_us: i32,
    /// SDU interval in microseconds.
    pub sdu_interval_us: i32,
    /// Largest SDU size.
    pub max_sdu_size: i32,
    /// Flush timeout.
    pub flush_timeout: i32,
}

/// A protocol violation the proxy fails fast on.
#[derive(Debug, Clone, Copy, PartialEq, Eq, Structural)]
pub enum ProxyFault {
    /// An offload data path setup whose direction is not input.
    NotInput,
    /// An event for a connection handle with no stream record.
    UnknownStream,
    /// An event for a CIG the proxy never saw set up.
    UnknownCig,
    /// An event for a BIG the proxy never saw created.
    UnknownBig,
    /// A CIG completion whose handle count differs from the stored list.
    HandleCountMismatch,
    /// The ISO interval is not a multiple of a nonzero SDU interval.
    FramingUnsupported,
    /// An ISO event arrived before the controller reported its buffers.
    NoArbiter,
    /// A connection registered at the arbiter twice.
    DuplicateConnection,
    /// An outgoing ISO packet that does not parse.
    MalformedIso,
    /// An ISO packet larger than the controller's reported buffer.
    PayloadTooLarge,
    /// A rewritten event too large to frame.
    EventTooLong,
}

/// The c-to-p direction of a stream, which start notices report.
pub open spec fn stream_c_to_p(s: Stream) -> IsoInDirection {
    match s.iso_type {
        IsoType::Cis { c_to_p, p_to_c: _ } => c_to_p,
        IsoType::Bis { c_to_p } => c_to_p,
    }
}

/// The configuration a stream-start notice carries.
pub open spec fn stream_config(s: Stream) -> StreamConfiguration {
    StreamConfiguration {
        iso_interval_us: s.iso_interval_us as i32,
        sdu_interval_us: stream_c_to_p(s).sdu_interval_us as i32,
        max_sdu_size: stream_c_to_p(s).max_sdu_size as i32,
        flush_timeout: stream_c_to_p(s).flush_timeout as i32,
    }
}

/// The first CIS entry of a CIG under a connection handle.
pub open spec fn first_cis(cis: Seq<CisParameters>, h: u16) -> int
    decreases cis.len(),
{
    if cis.len() == 0 {
        0
    } else if cis[0].handle == h {
        0
    } else {
        1 + first_cis(cis.drop_first(), h)
    }
}

/// Whether any CIS entry of a CIG carries a connection handle.
pub open spec fn cis_has(cis: Seq<CisParameters>, h: u16) -> bool {
    exists|i: int| 0 <= i < cis.len() && (#[trigger] cis[i]).handle == h
}

/// Spec view of a CIG record.
#[verifier::ext_equal]
pub struct CigView {
    /// SDU interval central to peripheral, in microseconds.
    pub sdu_interval_c_to_p: u32,
    /// SDU interval peripheral to central, in microseconds.
    pub sdu_interval_p_to_c: u32,
    /// Per-CIS parameters.
    pub cis: Seq<CisParameters>,
}

impl View for CigParameters {
    type V = CigView;

    open spec fn view(&self) -> CigView {
        CigView {
            sdu_interval_c_to_p: self.sdu_interval_c_to_p,
            sdu_interval_p_to_c: self.sdu_interval_p_to_c,
            cis: self.cis@,
        }
    }
}

/// Spec view of a BIG record.
#[verifier::ext_equal]
pub struct BigView {
    /// SDU interval in microseconds.
    pub sdu_interval: u32,
    /// Largest SDU size.
    pub max_sdu_size: u16,
    /// The BIS connection handles.
    pub bis_handles: Seq<u16>,
}

impl View for BigParameters {
    type V = BigView;

    open spec fn view(&self) -> BigView {
        BigView {
            sdu_interval: self.sdu_interval,
            max_sdu_size: self.max_sdu_size,
            bis_handles: self.bis_handles@,
        }
    }
}

/// What the transport does with the packet a command handler saw.
#[derive(Debug)]
pub enum CmdAction {
    /// Forward the original packet unchanged.
    Forward,
    /// Forward this rewritten packet instead.
    ForwardRewritten(Vec<u8>),
}

/// What the transport does with the packet an event handler saw.
#[derive(Debug)]
pub enum EvtAction {
    /// Forward the original packet unchanged.
    Forward,
    /// Consume the packet: the stack must not see it.
    Suppress,
    /// Forward this rewritten packet instead.
    ForwardRewritten(Vec<u8>),
}

/// A stream lifecycle notice for the offload client service.
#[derive(Debug, Clone, Copy, PartialEq, Eq, Structural)]
pub enum Notice {
    /// A new arbiter exists: the service adopts it and forgets its streams.
    ArbiterReset,
    /// A stream entered the offloaded state, with its configuration.
    StartStream(u16, StreamConfiguration),
    /// A stream left the offloaded state.
    StopStream(u16),
}

/// The offload proxy's recorded groups, streams, and transmit arbiter.
pub struct ProxyState {
    big: Vec<(u8, BigParameters)>,
    cig: Vec<(u8, CigParameters)>,
    stream: Vec<(u16, Stream)>,
    arbiter: Option<Arbiter>,
}

/// Two arbiters hold the same abstract state.
pub open spec fn arb_same(a: &Arbiter, b: &Arbiter) -> bool {
    &&& a.same_limits(b)
    &&& a.audio() == b.audio()
    &&& a.incoming() == b.incoming()
    &&& a.credits() == b.credits()
    &&& a.spec_total() == b.spec_total()
}

impl ProxyState {
    /// The recorded BIGs, by BIG handle.
    pub closed spec fn bigs(&self) -> Seq<(u8, BigView)> {
        self.big@.map_values(|p: (u8, BigParameters)| (p.0, p.1@))
    }

    /// The recorded CIGs, by CIG identifier.
    pub closed spec fn cigs(&self) -> Seq<(u8, CigView)> {
        self.cig@.map_values(|p: (u8, CigParameters)| (p.0, p.1@))
    }

    /// The per-connection stream records, by connection handle.
    pub closed spec fn streams(&self) -> Seq<(u16, Stream)> {
        self.stream@
    }

    /// Whether a session arbiter exists.
    pub closed spec fn has_arbiter(&self) -> bool {
        self.arbiter is Some
    }

    /// The session arbiter; meaningful while one exists.
    pub closed spec fn arb(&self) -> Arbiter {
        self.arbiter->0
    }

    /// Groups unchanged between two states.
    pub open spec fn same_groups(&self, post: &ProxyState) -> bool {
        post.bigs() == self.bigs() && post.cigs() == self.cigs()
    }

    /// Streams unchanged between two states.
    pub open spec fn same_streams(&self, post: &ProxyState) -> bool {
        post.streams() == self.streams()
    }

    /// Arbiter unchanged between two states.
    pub open spec fn same_arbiter(&self, post: &ProxyState) -> bool {
        post.has_arbiter() == self.has_arbiter() && (self.has_arbiter() ==> arb_same(
            &self.arb(),
            &post.arb(),
        ))
    }

    /// Nothing changed between two states.
    pub open spec fn unchanged(&self, post: &ProxyState) -> bool {
        self.same_groups(post) && self.same_streams(post) && self.same_arbiter(post)
    }

    /// The proxy's invariant: group and stream keys are unique, the
    /// arbiter (when present) is well formed, and no stream outlives the
    /// session that created it.
    pub open spec fn wf(&self) -> bool {
        &&& assoc_unique(self.bigs())
        &&& assoc_unique(self.cigs())
        &&& assoc_unique(self.streams())
        &&& self.has_arbiter() ==> self.arb().wf()
        &&& !self.has_arbiter() ==> self.streams().len() == 0
    }

    /// A fresh proxy: no groups, no streams, no arbiter.
    pub fn new() -> (r: ProxyState)
        ensures
            r.wf(),
            r.bigs() == Seq::<(u8, BigView)>::empty(),
            r.cigs() == Seq::<(u8, CigView)>::empty(),
            r.streams() == Seq::<(u16, Stream)>::empty(),
            !r.has_arbiter(),
    {
        let r = ProxyState { big: Vec::new(), cig: Vec::new(), stream: Vec::new(), arbiter: None };
        proof {
            assert(r.bigs() =~= Seq::<(u8, BigView)>::empty());
            assert(r.cigs() =~= Seq::<(u8, CigView)>::empty());
        }
        r
    }

    /// Find a CIG record by identifier.
    #[verifier::loop_isolation(false)]
    fn find_cig(&self, k: u8) -> (res: Option<usize>)
        requires
            self.wf(),
        ensures
            match res {
                Some(i) => i < self.cigs().len() && self.cigs()[i as int].0 == k && assoc_has(
                    self.cigs(),
                    k,
                ) && assoc_idx(self.cigs(), k) == i,
                None => !assoc_has(self.cigs(), k),
            },
    {
        let n = self.cig.len();
        for i in 0..n
            invariant
                forall|j: int| 0 <= j < i ==> (#[trigger] self.cigs()[j]).0 != k,
        {
            if self.cig[i].0 == k {
                proof {
                    lemma_assoc_idx_unique(self.cigs(), k, i as int);
                }
                return Some(i);
            }
        }
        None
    }

    /// Find a BIG record by handle.
    #[verifier::loop_isolation(false)]
    fn find_big(&self, k: u8) -> (res: Option<usize>)
        requires
            self.wf(),
        ensures
            match res {
                Some(i) => i < self.bigs().len() && self.bigs()[i as int].0 == k && assoc_has(
                    self.bigs(),
                    k,
                ) && assoc_idx(self.bigs(), k) == i,
                None => !assoc_has(self.bigs(), k),
            },
    {
        let n = self.big.len();
        for i in 0..n
            invariant
                forall|j: int| 0 <= j < i ==> (#[trigger] self.bigs()[j]).0 != k,
        {
            if self.big[i].0 == k {
                proof {
                    lemma_assoc_idx_unique(self.bigs(), k, i as int);
                }
                return Some(i);
            }
        }
        None
    }

    /// Find a stream record by connection handle.
    fn find_stream(&self, h: u16) -> (res: Option<usize>)
        requires
            assoc_unique(self.streams()),
        ensures
            match res {
                Some(i) => i < self.streams().len() && self.streams()[i as int].0 == h
                    && assoc_has(self.streams(), h) && assoc_idx(self.streams(), h) == i,
                None => !assoc_has(self.streams(), h),
            },
    {
        let n = self.stream.len();
        for i in 0..n
            invariant
                n == self.streams().len(),
                assoc_unique(self.streams()),
                forall|j: int| 0 <= j < i ==> (#[trigger] self.streams()[j]).0 != h,
        {
            if self.stream[i].0 == h {
                proof {
                    lemma_assoc_idx_unique(self.streams(), h, i as int);
                }
                return Some(i);
            }
        }
        None
    }
}

/// In a list with unique keys, the index of a key is the position where it
/// stands.
pub proof fn lemma_assoc_idx_unique<K, V>(m: Seq<(K, V)>, k: K, i: int)
    requires
        assoc_unique(m),
        0 <= i < m.len(),
        m[i].0 == k,
    ensures
        assoc_has(m, k),
        assoc_idx(m, k) == i,
{
    let j = assoc_idx(m, k);
    assert(0 <= j < m.len() && m[j].0 == k);
    if i < j {
        assert(m[i].0 != m[j].0);
    } else if j < i {
        assert(m[j].0 != m[i].0);
    }
}


/// What one command does to the proxy: record CIG or BIG parameters, or
/// intercept an offload-path setup; everything else passes through.
pub open spec fn cmd_transition(
    pre: ProxyState,
    c: Command,
    post: ProxyState,
    res: Result<CmdAction, ProxyFault>,
) -> bool {
    match c {
        Command::LeSetCigParameters(p) => {
            &&& post.cigs() == assoc_insert(
                pre.cigs(),
                p.cig_id,
                CigView {
                    sdu_interval_c_to_p: p.sdu_interval_c_to_p,
                    sdu_interval_p_to_c: p.sdu_interval_p_to_c,
                    cis: p.cis@.map_values(
                        |q: crate::command::LeCisInCigParameters| CisParameters {
                            handle: 0,
                            max_sdu_size_c_to_p: q.max_sdu_c_to_p,
                            max_sdu_size_p_to_c: q.max_sdu_p_to_c,
                        },
                    ),
                },
            )
            &&& post.bigs() == pre.bigs()
            &&& pre.same_streams(&post)
            &&& pre.same_arbiter(&post)
            &&& res matches Ok(a) && a is Forward
        },
        Command::LeCreateBig(p) => {
            &&& post.bigs() == assoc_insert(
                pre.bigs(),
                p.big_handle,
                BigView {
                    sdu_interval: p.sdu_interval,
                    max_sdu_size: p.max_sdu,
                    bis_handles: Seq::empty(),
                },
            )
            &&& post.cigs() == pre.cigs()
            &&& pre.same_streams(&post)
            &&& pre.same_arbiter(&post)
            &&& res matches Ok(a) && a is Forward
        },
        Command::LeSetupIsoDataPath(p) => {
            if p.data_path_id == DATA_PATH_ID_SOFTWARE {
                if p.data_path_direction != LeDataPathDirection::Input {
                    pre.unchanged(&post) && (res matches Err(f) && f == ProxyFault::NotInput)
                } else if !assoc_has(pre.streams(), p.connection_handle) {
                    pre.unchanged(&post) && (res matches Err(f) && f
                        == ProxyFault::UnknownStream)
                } else {
                    &&& post.streams() == assoc_insert(
                        pre.streams(),
                        p.connection_handle,
                        Stream {
                            state: StreamState::Enabling,
                            ..assoc_get(pre.streams(), p.connection_handle)
                        },
                    )
                    &&& pre.same_groups(&post)
                    &&& pre.same_arbiter(&post)
                    &&& res matches Ok(a) && a matches CmdAction::ForwardRewritten(bytes)
                        && bytes@ == Command::LeSetupIsoDataPath(
                        LeSetupIsoDataPath { data_path_id: 0, ..p },
                    ).spec_bytes()
                }
            } else {
                pre.unchanged(&post) && (res matches Ok(a) && a is Forward)
            }
        },
        _ => pre.unchanged(&post) && (res matches Ok(a) && a is Forward),
    }
}

impl ProxyState {
    /// Handle one outgoing HCI command, already decoded.
    ///
    /// LE Set CIG Parameters and LE Create BIG record their group with
    /// handles not yet known. An LE Setup ISO Data Path naming the software
    /// offload path marks the stream as enabling and is rewritten to carry
    /// the plain HCI path; its direction must be input, for a stream the
    /// proxy knows. Every other command passes through unchanged.
    pub fn handle_command(&mut self, c: Command) -> (res: Result<CmdAction, ProxyFault>)
        requires
            old(self).wf(),
            !(c matches Command::Unknown(_)) ==> c.wf(),
        ensures
            final(self).wf(),
            cmd_transition(*old(self), c, *final(self), res),
    {
        match c {
            Command::LeSetCigParameters(p) => {
                let mut cis: Vec<CisParameters> = Vec::new();
                let n = p.cis.len();
                for i in 0..n
                    invariant
                        n == p.cis@.len(),
                        cis@ == p.cis@.take(i as int).map_values(
                            |q: crate::command::LeCisInCigParameters| CisParameters {
                                handle: 0,
                                max_sdu_size_c_to_p: q.max_sdu_c_to_p,
                                max_sdu_size_p_to_c: q.max_sdu_p_to_c,
                            },
                        ),
                {
                    let ghost before = cis@;
                    cis.push(
                        CisParameters {
                            handle: 0,
                            max_sdu_size_c_to_p: p.cis[i].max_sdu_c_to_p,
                            max_sdu_size_p_to_c: p.cis[i].max_sdu_p_to_c,
                        },
                    );
                    proof {
                        assert(p.cis@.take(i + 1) =~= p.cis@.take(i as int).push(
                            p.cis@[i as int],
                        ));
                        assert(cis@ =~= p.cis@.take(i + 1).map_values(
                            |q: crate::command::LeCisInCigParameters| CisParameters {
                                handle: 0,
                                max_sdu_size_c_to_p: q.max_sdu_c_to_p,
                                max_sdu_size_p_to_c: q.max_sdu_p_to_c,
                            },
                        ));
                    }
                }
                proof {
                    assert(p.cis@.take(n as int) =~= p.cis@);
                }
                let v = CigParameters {
                    sdu_interval_c_to_p: p.sdu_interval_c_to_p,
                    sdu_interval_p_to_c: p.sdu_interval_p_to_c,
                    cis,
                };
                self.cig_insert(p.cig_id, v);
                Ok(CmdAction::Forward)
            },
            Command::LeCreateBig(p) => {
                let v = BigParameters {
                    sdu_interval: p.sdu_interval,
                    max_sdu_size: p.max_sdu,
                    bis_handles: Vec::new(),
                };
                self.big_insert(p.big_handle, v);
                Ok(CmdAction::Forward)
            },
            Command::LeSetupIsoDataPath(p) => {
                if p.data_path_id != DATA_PATH_ID_SOFTWARE {
                    return Ok(CmdAction::Forward);
                }
                if !matches!(p.data_path_direction, LeDataPathDirection::Input) {
                    return Err(ProxyFault::NotInput);
                }
                let i = match self.find_stream(p.connection_handle) {
                    Some(i) => i,
                    None => {
                        return Err(ProxyFault::UnknownStream);
                    },
                };
                let old_stream = self.stream[i].1;
                let h = self.stream[i].0;
                self.stream.set(i, (h, Stream { state: StreamState::Enabling, ..old_stream }));
                proof {
                    assert(self.streams() =~= assoc_insert(
                        old(self).streams(),
                        p.connection_handle,
                        Stream { state: StreamState::Enabling, ..old_stream },
                    ));
                }
                let rewritten = LeSetupIsoDataPath { data_path_id: 0, ..p };
                proof {
                    assert(rewritten.wire_bytes().len() == Command::LeSetupIsoDataPath(
                        p,
                    ).body_bytes().len());
                }
                let bytes = rewritten.to_bytes();
                Ok(CmdAction::ForwardRewritten(bytes))
            },
            _ => Ok(CmdAction::Forward),
        }
    }

    /// Record or replace a CIG under its identifier.
    #[verifier::loop_isolation(false)]
    fn cig_insert(&mut self, k: u8, v: CigParameters)
        requires
            old(self).wf(),
        ensures
            final(self).wf(),
            final(self).cigs() == assoc_insert(old(self).cigs(), k, v@),
            final(self).bigs() == old(self).bigs(),
            old(self).same_streams(final(self)),
            old(self).same_arbiter(final(self)),
    {
        let n = self.cig.len();
        for i in 0..n
            invariant
                *self == *old(self),
                n == self.cigs().len(),
                forall|j: int| 0 <= j < i ==> (#[trigger] self.cigs()[j]).0 != k,
        {
            if self.cig[i].0 == k {
                proof {
                    lemma_assoc_idx_unique(self.cigs(), k, i as int);
                }
                self.cig.set(i, (k, v));
                proof {
                    assert(self.cigs() =~= assoc_insert(old(self).cigs(), k, v@));
                    lemma_assoc_unique_update(old(self).cigs(), i as int, (k, v@));
                }
                return ;
            }
        }
        self.cig.push((k, v));
        proof {
            assert(!assoc_has(old(self).cigs(), k));
            assert(self.cigs() =~= assoc_insert(old(self).cigs(), k, v@));
            lemma_assoc_unique_push(old(self).cigs(), (k, v@));
        }
    }

    /// Record or replace a BIG under its handle.
    #[verifier::loop_isolation(false)]
    fn big_insert(&mut self, k: u8, v: BigParameters)
        requires
            old(self).wf(),
        ensures
            final(self).wf(),
            final(self).bigs() == assoc_insert(old(self).bigs(), k, v@),
            final(self).cigs() == old(self).cigs(),
            old(self).same_streams(final(self)),
            old(self).same_arbiter(final(self)),
    {
        let n = self.big.len();
        for i in 0..n
            invariant
                *self == *old(self),
                n == self.bigs().len(),
                forall|j: int| 0 <= j < i ==> (#[trigger] self.bigs()[j]).0 != k,
        {
            if self.big[i].0 == k {
                proof {
                    lemma_assoc_idx_unique(self.bigs(), k, i as int);
                }
                self.big.set(i, (k, v));
                proof {
                    assert(self.bigs() =~= assoc_insert(old(self).bigs(), k, v@));
                    lemma_assoc_unique_update(old(self).bigs(), i as int, (k, v@));
                }
                return ;
            }
        }
        self.big.push((k, v));
        proof {
            assert(!assoc_has(old(self).bigs(), k));
            assert(self.bigs() =~= assoc_insert(old(self).bigs(), k, v@));
            lemma_assoc_unique_push(old(self).bigs(), (k, v@));
        }
    }
}

/// Updating an entry under its own key keeps the keys unique.
pub proof fn lemma_assoc_unique_update<K, V>(m: Seq<(K, V)>, i: int, v: (K, V))
    requires
        assoc_unique(m),
        0 <= i < m.len(),
        m[i].0 == v.0,
    ensures
        assoc_unique(m.update(i, v)),
{
}

/// Appending a fresh key keeps the keys unique.
pub proof fn lemma_assoc_unique_push<K, V>(m: Seq<(K, V)>, v: (K, V))
    requires
        assoc_unique(m),
        !assoc_has(m, v.0),
    ensures
        assoc_unique(m.push(v)),
{
    assert forall|i: int, j: int|
        0 <= i < j < m.push(v).len() implies (#[trigger] m.push(v)[i]).0 != (#[trigger] m.push(
        v,
    )[j]).0 by {
        if j == m.len() {
            assert(m[i].0 != v.0);
        }
    }
}


/// One completion entry applied to the in-transit table, saturating at
/// zero; an untracked handle is ignored.
pub open spec fn sc_spec(s: Seq<(u16, usize)>, h: u16, n: usize) -> Seq<(u16, usize)> {
    if it_tracked(s, h) {
        s.update(
            it_index(s, h),
            (h, if n <= it_count(s, h) {
                (it_count(s, h) - n) as usize
            } else {
                0usize
            }),
        )
    } else {
        s
    }
}

/// The first `k` completion entries applied in order.
pub open spec fn ncp_fold(
    s: Seq<(u16, usize)>,
    entries: Seq<NumberOfCompletedPacketsHandle>,
    k: int,
) -> Seq<(u16, usize)>
    decreases k,
{
    if k <= 0 {
        s
    } else {
        sc_spec(
            ncp_fold(s, entries, k - 1),
            entries[k - 1].connection_handle,
            entries[k - 1].num_completed_packets as usize,
        )
    }
}

/// Whether a handle belongs to a stream in the offloaded (enabled) state.
pub open spec fn handle_enabled(streams: Seq<(u16, Stream)>, h: u16) -> bool {
    assoc_has(streams, h) && assoc_get(streams, h).state == StreamState::Enabled
}

/// Whether some recorded CIG's handle list carries a connection handle.
pub open spec fn some_cig_owns(cigs: Seq<(u8, CigView)>, h: u16) -> bool {
    exists|i: int| 0 <= i < cigs.len() && cis_has((#[trigger] cigs[i]).1.cis, h)
}

/// The first recorded CIG whose handle list carries a connection handle.
pub open spec fn owning_cig(cigs: Seq<(u8, CigView)>, h: u16) -> int
    decreases cigs.len(),
{
    if cigs.len() == 0 {
        0
    } else if cis_has(cigs[0].1.cis, h) {
        0
    } else {
        1 + owning_cig(cigs.drop_first(), h)
    }
}

impl ProxyState {
    /// A successful Reset completion clears the whole session.
    fn on_reset_complete(&mut self)
        ensures
            final(self).wf(),
            final(self).bigs().len() == 0,
            final(self).cigs().len() == 0,
            final(self).streams().len() == 0,
            !final(self).has_arbiter(),
    {
        self.big = Vec::new();
        self.cig = Vec::new();
        self.stream = Vec::new();
        self.arbiter = None;
        proof {
            assert(self.bigs() =~= Seq::<(u8, BigView)>::empty());
            assert(self.cigs() =~= Seq::<(u8, CigView)>::empty());
        }
    }

    /// A successful LE Read Buffer Size (version 2) completion starts a
    /// session: a fresh arbiter with the controller's reported ISO limits.
    fn on_buffer_size_v2(&mut self, iso_len: u16, iso_count: u8)
        requires
            old(self).wf(),
        ensures
            final(self).wf(),
            old(self).same_groups(final(self)),
            old(self).same_streams(final(self)),
            final(self).has_arbiter(),
            final(self).arb().spec_max_buf_len() == iso_len as usize,
            final(self).arb().spec_max_buf_count() == iso_count as usize,
            final(self).arb().credits() == Seq::<(u16, usize)>::empty(),
            final(self).arb().audio() == Seq::<(u16, Seq<u8>)>::empty(),
            final(self).arb().incoming() == Seq::<(u16, Seq<u8>)>::empty(),
    {
        self.arbiter = Some(Arbiter::new(iso_len as usize, iso_count as usize));
    }

    /// A successful LE Set CIG Parameters completion fills in the recorded
    /// CIG's connection handles, which must match its CIS list in number.
    #[verifier::loop_isolation(false)]
    fn on_cig_complete(&mut self, cig_id: u8, handles: &Vec<u16>) -> (res: Result<
        (),
        ProxyFault,
    >)
        requires
            old(self).wf(),
        ensures
            final(self).wf(),
            cig_complete_transition(*old(self), cig_id, handles@, *final(self), res),
    {
        let i = match self.find_cig(cig_id) {
            Some(i) => i,
            None => {
                return Err(ProxyFault::UnknownCig);
            },
        };
        if self.cig[i].1.cis.len() != handles.len() {
            return Err(ProxyFault::HandleCountMismatch);
        }
        let m = handles.len();
        let ghost old_view = assoc_get(old(self).cigs(), cig_id);
        let mut cis: Vec<CisParameters> = Vec::new();
        for j in 0..m
            invariant
                *self == *old(self),
                i < self.cigs().len(),
                self.cigs()[i as int].0 == cig_id,
                assoc_idx(self.cigs(), cig_id) == i,
                assoc_has(self.cigs(), cig_id),
                old_view == assoc_get(self.cigs(), cig_id),
                m == handles@.len() == old_view.cis.len(),
                cis@.len() == j,
                forall|l: int|
                    0 <= l < j ==> cis@[l] == (CisParameters {
                        handle: handles@[l],
                        ..old_view.cis[l]
                    }),
        {
            cis.push(
                CisParameters { handle: handles[j], ..self.cig[i].1.cis[j] },
            );
        }
        let v = CigParameters {
            sdu_interval_c_to_p: self.cig[i].1.sdu_interval_c_to_p,
            sdu_interval_p_to_c: self.cig[i].1.sdu_interval_p_to_c,
            cis,
        };
        proof {
            assert(v@ =~~= cig_with_handles(old_view, handles@));
        }
        self.cig.set(i, (cig_id, v));
        proof {
            assert(self.cigs() =~= assoc_insert(
                old(self).cigs(),
                cig_id,
                cig_with_handles(old_view, handles@),
            ));
            lemma_assoc_unique_update(
                old(self).cigs(),
                i as int,
                (cig_id, cig_with_handles(old_view, handles@)),
            );
        }
        Ok(())
    }

    /// A successful LE Remove CIG completion drops the recorded CIG.
    #[verifier::loop_isolation(false)]
    fn on_remove_cig(&mut self, cig_id: u8)
        requires
            old(self).wf(),
        ensures
            final(self).wf(),
            final(self).cigs() == assoc_remove(old(self).cigs(), cig_id),
            final(self).bigs() == old(self).bigs(),
            old(self).same_streams(final(self)),
            old(self).same_arbiter(final(self)),
    {
        let n = self.cig.len();
        for i in 0..n
            invariant
                *self == *old(self),
                n == self.cigs().len(),
                forall|j: int| 0 <= j < i ==> (#[trigger] self.cigs()[j]).0 != cig_id,
        {
            if self.cig[i].0 == cig_id {
                proof {
                    lemma_assoc_idx_unique(self.cigs(), cig_id, i as int);
                }
                self.cig.remove(i);
                proof {
                    assert(self.cigs() =~= assoc_remove(old(self).cigs(), cig_id));
                    lemma_assoc_unique_remove(old(self).cigs(), i as int);
                }
                return ;
            }
        }
        proof {
            assert(self.cigs() =~= assoc_remove(old(self).cigs(), cig_id));
        }
    }
}

/// A CIG view with its connection handles filled in pairwise.
pub open spec fn cig_with_handles(g: CigView, handles: Seq<u16>) -> CigView {
    CigView {
        sdu_interval_c_to_p: g.sdu_interval_c_to_p,
        sdu_interval_p_to_c: g.sdu_interval_p_to_c,
        cis: Seq::new(g.cis.len(), |i: int| CisParameters { handle: handles[i], ..g.cis[i] }),
    }
}

/// Removing an entry keeps the keys unique.
pub proof fn lemma_assoc_unique_remove<K, V>(m: Seq<(K, V)>, i: int)
    requires
        assoc_unique(m),
        0 <= i < m.len(),
    ensures
        assoc_unique(m.remove(i)),
{
    let t = m.remove(i);
    assert forall|a: int, b: int|
        0 <= a < b < t.len() implies (#[trigger] t[a]).0 != (#[trigger] t[b]).0 by {
        let a2 = if a < i {
            a
        } else {
            a + 1
        };
        let b2 = if b < i {
            b
        } else {
            b + 1
        };
        assert(t[a] == m[a2] && t[b] == m[b2]);
        assert(m[a2].0 != m[b2].0);
    }
}


impl ProxyState {
    /// An LE Setup ISO Data Path completion moves the stream it names:
    /// an enabling stream completes into the offloaded state and a start
    /// notice is owed; any other outcome leaves the stream disabled.
    #[verifier::loop_isolation(false)]
    fn on_setup_path_complete(&mut self, handle: u16, success: bool) -> (res: Result<
        Option<Notice>,
        ProxyFault,
    >)
        requires
            old(self).wf(),
        ensures
            final(self).wf(),
            setup_path_transition(*old(self), handle, success, *final(self), res),
    {
        let i = match self.find_stream(handle) {
            Some(i) => i,
            None => {
                return Err(ProxyFault::UnknownStream);
            },
        };
        let s = self.stream[i].1;
        let enabled = matches!(s.state, StreamState::Enabling) && success;
        let s2 = Stream {
            state: if enabled {
                StreamState::Enabled
            } else {
                StreamState::Disabled
            },
            ..s
        };
        self.stream.set(i, (handle, s2));
        proof {
            assert(self.streams() =~= assoc_insert(old(self).streams(), handle, s2));
            lemma_assoc_unique_update(old(self).streams(), i as int, (handle, s2));
        }
        if enabled {
            let c = match s.iso_type {
                IsoType::Cis { c_to_p, p_to_c: _ } => c_to_p,
                IsoType::Bis { c_to_p } => c_to_p,
            };
            Ok(
                Some(
                    Notice::StartStream(
                        handle,
                        StreamConfiguration {
                            iso_interval_us: s.iso_interval_us as i32,
                            sdu_interval_us: c.sdu_interval_us as i32,
                            max_sdu_size: c.max_sdu_size as i32,
                            flush_timeout: c.flush_timeout as i32,
                        },
                    ),
                ),
            )
        } else {
            Ok(None)
        }
    }

    /// A successful LE Remove ISO Data Path completion disables the stream
    /// it names; a stop notice is owed when the stream was offloaded.
    #[verifier::loop_isolation(false)]
    fn on_remove_path_complete(&mut self, handle: u16) -> (res: Result<Option<Notice>, ProxyFault>)
        requires
            old(self).wf(),
        ensures
            final(self).wf(),
            remove_path_transition(*old(self), handle, *final(self), res),
    {
        let i = match self.find_stream(handle) {
            Some(i) => i,
            None => {
                return Err(ProxyFault::UnknownStream);
            },
        };
        let s = self.stream[i].1;
        let s2 = Stream { state: StreamState::Disabled, ..s };
        self.stream.set(i, (handle, s2));
        proof {
            assert(self.streams() =~= assoc_insert(old(self).streams(), handle, s2));
            lemma_assoc_unique_update(old(self).streams(), i as int, (handle, s2));
        }
        if matches!(s.state, StreamState::Enabled) {
            Ok(Some(Notice::StopStream(handle)))
        } else {
            Ok(None)
        }
    }

    /// A successful LE CIS Established event builds the stream record from
    /// its owning CIG, validates the framing constraint, and registers the
    /// handle with the session arbiter. A handle whose CIG is unknown is a
    /// protocol violation. A handle already carrying a stream keeps its
    /// record, deliberately: replacing it would silently re-register a
    /// connection the arbiter still tracks.
    #[verifier::loop_isolation(false)]
    fn on_cis_established(&mut self, e: &crate::event::LeCisEstablished) -> (res: Result<
        (),
        ProxyFault,
    >)
        requires
            old(self).wf(),
        ensures
            final(self).wf(),
            cis_established_transition(*old(self), *e, *final(self), res),
    {
        let h = e.connection_handle;
        let n = self.cig.len();
        let mut found: Option<usize> = None;
        let mut i: usize = 0;
        while i < n
            invariant
                i <= n,
                *self == *old(self),
                n == self.cigs().len(),
                found is None,
                forall|j: int| 0 <= j < i ==> !cis_has((#[trigger] self.cigs()[j]).1.cis, h),
            decreases n - i,
        {
            if self.cig_owns(i, h) {
                found = Some(i);
                proof {
                    lemma_owning_cig(self.cigs(), h, i as int);
                }
                break ;
            }
            i = i + 1;
        }
        let gi = match found {
            Some(gi) => gi,
            None => {
                return Err(ProxyFault::UnknownCig);
            },
        };
        let iso_us: u32 = (e.iso_interval as u32) * 1250;
        let sdu_c = self.cig[gi].1.sdu_interval_c_to_p;
        let sdu_p = self.cig[gi].1.sdu_interval_p_to_c;
        if sdu_c != 0 && iso_us % sdu_c != 0 {
            return Err(ProxyFault::FramingUnsupported);
        }
        if sdu_p != 0 && iso_us % sdu_p != 0 {
            return Err(ProxyFault::FramingUnsupported);
        }
        if self.find_stream(h).is_some() {
            return Ok(());
        }
        let cm = self.cig[gi].1.cis.len();
        let mut ci: usize = 0;
        while ci < cm
            invariant
                ci <= cm,
                *self == *old(self),
                gi < self.cigs().len(),
                cm == self.cigs()[gi as int].1.cis.len(),
                cis_has(self.cigs()[gi as int].1.cis, h),
                forall|j: int| 0 <= j < ci ==> (#[trigger] self.cigs()[gi as int].1.cis[j]).handle != h,
            decreases cm - ci,
        {
            if self.cig[gi].1.cis[ci].handle == h {
                break ;
            }
            ci = ci + 1;
        }
        proof {
            lemma_first_cis(self.cigs()[gi as int].1.cis, h, ci as int);
        }
        if ci >= cm {
            proof {
                assert(false);
            }
            return Err(ProxyFault::UnknownCig);
        }
        let cisp = self.cig[gi].1.cis[ci];
        let stream = Stream {
            state: StreamState::Disabled,
            iso_interval_us: iso_us,
            iso_type: IsoType::Cis {
                c_to_p: IsoInDirection {
                    sdu_interval_us: sdu_c,
                    max_sdu_size: cisp.max_sdu_size_c_to_p,
                    flush_timeout: e.ft_c_to_p,
                },
                p_to_c: IsoInDirection {
                    sdu_interval_us: sdu_p,
                    max_sdu_size: cisp.max_sdu_size_p_to_c,
                    flush_timeout: e.ft_p_to_c,
                },
            },
        };
        proof {
            assert(stream == cis_stream_of(self.cigs()[gi as int].1, *e));
        }
        let mut arb = match self.arbiter.take() {
            Some(a) => a,
            None => {
                return Err(ProxyFault::NoArbiter);
            },
        };
        if arb.is_tracked(h) {
            self.arbiter = Some(arb);
            proof {
                assert(old(self).same_arbiter(self));
            }
            return Err(ProxyFault::DuplicateConnection);
        }
        arb.add_connection(h);
        self.arbiter = Some(arb);
        self.stream.push((h, stream));
        proof {
            lemma_assoc_unique_push(old(self).streams(), (h, stream));
        }
        Ok(())
    }

    /// Whether CIG record `i` owns connection handle `h`.
    #[verifier::loop_isolation(false)]
    fn cig_owns(&self, i: usize, h: u16) -> (r: bool)
        requires
            i < self.cigs().len(),
        ensures
            r == cis_has(self.cigs()[i as int].1.cis, h),
    {
        let m = self.cig[i].1.cis.len();
        for j in 0..m
            invariant
                i < self.cigs().len(),
                m == self.cigs()[i as int].1.cis.len(),
                forall|l: int| 0 <= l < j ==> (#[trigger] self.cigs()[i as int].1.cis[l]).handle != h,
        {
            if self.cig[i].1.cis[j].handle == h {
                return true;
            }
        }
        false
    }

    /// A successful Disconnection Complete event for a tracked stream
    /// drops the stream and frees its share of the transmit path: its
    /// queued packets are discarded and its in-transit count forgotten.
    #[verifier::loop_isolation(false)]
    fn on_disconnection(&mut self, handle: u16)
        requires
            old(self).wf(),
        ensures
            final(self).wf(),
            disconnection_transition(*old(self), handle, *final(self)),
    {
        let i = match self.find_stream(handle) {
            Some(i) => i,
            None => {
                return ;
            },
        };
        self.stream.remove(i);
        proof {
            lemma_assoc_unique_remove(old(self).streams(), i as int);
            assert(self.streams() =~= assoc_remove(old(self).streams(), handle));
        }
        let mut arb = match self.arbiter.take() {
            Some(a) => a,
            None => {
                proof {
                    assert(false);
                }
                return ;
            },
        };
        arb.remove_connection(handle);
        self.arbiter = Some(arb);
    }
}

/// What a successful CIS establishment does: with an owning CIG recorded
/// and sound framing, a fresh handle gains a stream record and an arbiter
/// registration; a handle already carrying a stream is kept as it is.
pub open spec fn cis_established_transition(
    pre: ProxyState,
    e: crate::event::LeCisEstablished,
    post: ProxyState,
    res: Result<(), ProxyFault>,
) -> bool {
    let h = e.connection_handle;
    if !some_cig_owns(pre.cigs(), h) {
        pre.unchanged(&post) && (res matches Err(f) && f == ProxyFault::UnknownCig)
    } else {
        let cig = pre.cigs()[owning_cig(pre.cigs(), h)].1;
        if !cis_framing_ok_v(cig, e) {
            pre.unchanged(&post) && (res matches Err(f) && f == ProxyFault::FramingUnsupported)
        } else if assoc_has(pre.streams(), h) {
            pre.unchanged(&post) && res matches Ok(())
        } else if !pre.has_arbiter() {
            pre.unchanged(&post) && (res matches Err(f) && f == ProxyFault::NoArbiter)
        } else if it_tracked(pre.arb().credits(), h) {
            pre.unchanged(&post) && (res matches Err(f) && f == ProxyFault::DuplicateConnection)
        } else {
            &&& post.streams() == pre.streams().push((h, cis_stream_of(cig, e)))
            &&& pre.same_groups(&post)
            &&& post.has_arbiter()
            &&& post.arb().same_limits(&pre.arb())
            &&& post.arb().audio() == pre.arb().audio()
            &&& post.arb().incoming() == pre.arb().incoming()
            &&& post.arb().credits() == pre.arb().credits().push((h, 0usize))
            &&& res matches Ok(())
        }
    }
}

/// What a successful disconnection does: a handle without a stream record
/// is ignored; otherwise its stream is dropped, its queued packets are
/// discarded, and every other handle keeps its state.
pub open spec fn disconnection_transition(pre: ProxyState, h: u16, post: ProxyState) -> bool {
    if !assoc_has(pre.streams(), h) {
        pre.unchanged(&post)
    } else {
        &&& post.streams() == assoc_remove(pre.streams(), h)
        &&& pre.same_groups(&post)
        &&& post.has_arbiter() == pre.has_arbiter()
        &&& pre.has_arbiter() ==> {
            &&& post.arb().same_limits(&pre.arb())
            &&& !it_tracked(post.arb().credits(), h)
            &&& post.arb().audio() == pre.arb().audio().filter(
                crate::arbiter::keeps_other_handles(h),
            )
            &&& post.arb().incoming() == pre.arb().incoming().filter(
                crate::arbiter::keeps_other_handles(h),
            )
            &&& forall|h2: u16|
                h2 != h ==> #[trigger] it_tracked(post.arb().credits(), h2) == it_tracked(
                    pre.arb().credits(),
                    h2,
                )
            &&& forall|h2: u16|
                h2 != h && it_tracked(pre.arb().credits(), h2) ==> #[trigger] it_count(
                    post.arb().credits(),
                    h2,
                ) == it_count(pre.arb().credits(), h2)
        }
    }
}

/// The stream record a CIS establishment builds from a CIG view.
pub open spec fn cis_stream_of(cig: CigView, e: crate::event::LeCisEstablished) -> Stream {
    let cis = cig.cis[first_cis(cig.cis, e.connection_handle)];
    Stream {
        state: StreamState::Disabled,
        iso_interval_us: (e.iso_interval * 1250) as u32,
        iso_type: IsoType::Cis {
            c_to_p: IsoInDirection {
                sdu_interval_us: cig.sdu_interval_c_to_p,
                max_sdu_size: cis.max_sdu_size_c_to_p,
                flush_timeout: e.ft_c_to_p,
            },
            p_to_c: IsoInDirection {
                sdu_interval_us: cig.sdu_interval_p_to_c,
                max_sdu_size: cis.max_sdu_size_p_to_c,
                flush_timeout: e.ft_p_to_c,
            },
        },
    }
}

/// The framing constraint of a CIG view: the ISO interval must be an
/// integer multiple of each nonzero SDU interval.
pub open spec fn cis_framing_ok_v(cig: CigView, e: crate::event::LeCisEstablished) -> bool {
    let iso_us = (e.iso_interval * 1250) as u32;
    &&& (cig.sdu_interval_c_to_p == 0 || iso_us % cig.sdu_interval_c_to_p == 0)
    &&& (cig.sdu_interval_p_to_c == 0 || iso_us % cig.sdu_interval_p_to_c == 0)
}

/// The first CIG owning a handle is the position where the search stops.
pub proof fn lemma_owning_cig(cigs: Seq<(u8, CigView)>, h: u16, i: int)
    requires
        0 <= i < cigs.len(),
        cis_has(cigs[i].1.cis, h),
        forall|j: int| 0 <= j < i ==> !cis_has((#[trigger] cigs[j]).1.cis, h),
    ensures
        some_cig_owns(cigs, h),
        owning_cig(cigs, h) == i,
    decreases i,
{
    if i == 0 {
    } else {
        assert(!cis_has(cigs[0].1.cis, h));
        lemma_owning_cig(cigs.drop_first(), h, i - 1);
    }
}

/// The first CIS entry under a handle is the position where the search
/// stops.
pub proof fn lemma_first_cis(cis: Seq<CisParameters>, h: u16, i: int)
    requires
        0 <= i <= cis.len(),
        i < cis.len() ==> cis[i].handle == h,
        i == cis.len() ==> !cis_has(cis, h),
        forall|j: int| 0 <= j < i ==> (#[trigger] cis[j]).handle != h,
    ensures
        i < cis.len() ==> first_cis(cis, h) == i,
    decreases i,
{
    if i > 0 {
        lemma_first_cis(cis.drop_first(), h, i - 1);
    }
}


/// The predicate keeping every binding whose handle is outside a set.
pub open spec fn assoc_outside<V>(hs: Seq<u16>) -> spec_fn((u16, V)) -> bool {
    |p: (u16, V)| !hs.contains(p.0)
}

/// The stream record a BIG creation builds from a BIG view.
pub open spec fn bis_stream_of(big: BigView, e: crate::event::LeCreateBigComplete) -> Stream {
    Stream {
        state: StreamState::Disabled,
        iso_interval_us: (e.iso_interval * 1250) as u32,
        iso_type: IsoType::Bis {
            c_to_p: IsoInDirection {
                sdu_interval_us: big.sdu_interval,
                max_sdu_size: big.max_sdu_size,
                flush_timeout: e.irc,
            },
        },
    }
}

/// The framing constraint of a BIG view: the ISO interval must be an
/// integer multiple of the SDU interval, which must not be zero.
pub open spec fn big_framing_ok_v(big: BigView, e: crate::event::LeCreateBigComplete) -> bool {
    big.sdu_interval != 0 && ((e.iso_interval * 1250) as u32) % big.sdu_interval == 0
}

/// Appending a fresh binding keeps every other binding in place.
pub proof fn lemma_assoc_push_facts<V>(m: Seq<(u16, V)>, v: (u16, V))
    requires
        assoc_unique(m),
        !assoc_has(m, v.0),
    ensures
        assoc_unique(m.push(v)),
        forall|k: u16|
            #[trigger] assoc_has(m.push(v), k) == (assoc_has(m, k) || k == v.0),
        forall|k: u16|
            assoc_has(m, k) ==> #[trigger] assoc_get(m.push(v), k) == assoc_get(m, k),
        assoc_get(m.push(v), v.0) == v.1,
{
    let t = m.push(v);
    assert forall|i: int, j: int|
        0 <= i < j < t.len() implies (#[trigger] t[i]).0 != (#[trigger] t[j]).0 by {
        if j == m.len() {
            assert(m[i].0 != v.0);
        }
    }
    assert forall|k: u16| #[trigger] assoc_has(t, k) == (assoc_has(m, k) || k == v.0) by {
        if assoc_has(m, k) {
            let i = assoc_idx(m, k);
            assert(t[i].0 == k);
        }
        if k == v.0 {
            assert(t[m.len() as int].0 == k);
        }
        if assoc_has(t, k) && !(assoc_has(m, k) || k == v.0) {
            let i = assoc_idx(t, k);
            if i < m.len() {
                assert(m[i].0 == k);
            }
        }
    }
    assert forall|k: u16| assoc_has(m, k) implies #[trigger] assoc_get(t, k) == assoc_get(
        m,
        k,
    ) by {
        let i = assoc_idx(m, k);
        assert(t[i].0 == k);
        let j = assoc_idx(t, k);
        assert(0 <= j < t.len() && t[j].0 == k);
        if j == m.len() {
            assert(k == v.0);
        } else {
            assert(m[j].0 == k);
            assert(i == j);
        }
    }
    assert(t[m.len() as int].0 == v.0);
    let j = assoc_idx(t, v.0);
    if j < m.len() {
        assert(m[j].0 == v.0);
    }
}

/// Appending one element extends membership by that element.
pub proof fn lemma_contains_push<A>(s: Seq<A>, x: A)
    ensures
        forall|y: A| #[trigger] s.push(x).contains(y) == (s.contains(y) || y == x),
{
    assert forall|y: A| #[trigger] s.push(x).contains(y) == (s.contains(y) || y == x) by {
        if s.contains(y) {
            let i = choose|i: int| 0 <= i < s.len() && s[i] == y;
            assert(s.push(x)[i] == y);
        }
        if y == x {
            assert(s.push(x)[s.len() as int] == y);
        }
        if s.push(x).contains(y) {
            let i = choose|i: int| 0 <= i < s.push(x).len() && s.push(x)[i] == y;
            if i < s.len() {
                assert(s[i] == y);
            }
        }
    }
}

/// A filtered association list keeps exactly the bindings outside the set,
/// each with its value.
pub proof fn lemma_filtered_assoc<V>(s: Seq<(u16, V)>, hs: Seq<u16>)
    requires
        assoc_unique(s),
    ensures
        assoc_unique(s.filter(assoc_outside(hs))),
        forall|h2: u16|
            #[trigger] assoc_has(s.filter(assoc_outside(hs)), h2) == (assoc_has(s, h2)
                && !hs.contains(h2)),
        forall|h2: u16|
            assoc_has(s, h2) && !hs.contains(h2) ==> #[trigger] assoc_get(
                s.filter(assoc_outside(hs)),
                h2,
            ) == assoc_get(s, h2),
    decreases s.len(),
{
    reveal(Seq::filter);
    let pred = assoc_outside::<V>(hs);
    let t = s.filter(pred);
    if s.len() == 0 {
        assert forall|h2: u16| !#[trigger] assoc_has(t, h2) by {
            if assoc_has(t, h2) {
                let j = assoc_idx(t, h2);
            }
        }
    } else {
        let s0 = s.drop_last();
        let t0 = s0.filter(pred);
        let last = s.last();
        lemma_filtered_assoc(s0, hs);
        assert(s[s.len() - 1] == last);
        assert forall|h2: u16| #[trigger] assoc_has(s, h2) == (assoc_has(s0, h2) || h2
            == last.0) by {
            if assoc_has(s0, h2) {
                let j = assoc_idx(s0, h2);
                assert(s[j].0 == h2);
            }
            if h2 == last.0 {
                assert(s[s.len() - 1].0 == h2);
            }
            if assoc_has(s, h2) {
                let j = assoc_idx(s, h2);
                if j < s.len() - 1 {
                    assert(s0[j].0 == h2);
                }
            }
        }
        assert forall|h2: u16|
            h2 != last.0 && assoc_has(s, h2) implies #[trigger] assoc_get(s, h2) == assoc_get(
            s0,
            h2,
        ) by {
            let j = assoc_idx(s, h2);
            assert(j < s.len() - 1);
            assert(s0[j].0 == h2);
            let j0 = assoc_idx(s0, h2);
            assert(s[j0].0 == h2);
            assert(j0 == j);
        }
        assert(assoc_get(s, last.0) == last.1) by {
            let j = assoc_idx(s, last.0);
            if j < s.len() - 1 {
                assert(s[j].0 != s[s.len() - 1].0);
            }
        }
        if pred(last) {
            assert(t == t0.push(last));
            assert(!assoc_has(t0, last.0)) by {
                if assoc_has(t0, last.0) {
                    assert(assoc_has(s0, last.0));
                    let j = assoc_idx(s0, last.0);
                    assert(s[j].0 != s[s.len() - 1].0);
                }
            }
            assert(assoc_unique(t0));
            lemma_assoc_push_facts(t0, last);
            assert forall|h2: u16|
                #[trigger] assoc_has(t, h2) == (assoc_has(s, h2) && !hs.contains(h2)) by {
                assert(assoc_has(t, h2) == (assoc_has(t0, h2) || h2 == last.0));
            }
            assert forall|h2: u16|
                assoc_has(s, h2) && !hs.contains(h2) implies #[trigger] assoc_get(t, h2)
                    == assoc_get(s, h2) by {
                if h2 == last.0 {
                    assert(assoc_get(t, h2) == last.1);
                } else {
                    assert(assoc_has(s0, h2));
                    assert(assoc_has(t0, h2));
                    assert(assoc_get(t, h2) == assoc_get(t0, h2));
                }
            }
        } else {
            assert(t == t0);
            assert(hs.contains(last.0));
        }
    }
}


/// The streams and arbiter registrations after a BIG creation processed
/// a list of BIS handles: each fresh handle carries the new stream and a
/// fresh registration; every other handle keeps its state.
pub open spec fn big_registration(
    pre: ProxyState,
    post: ProxyState,
    hs: Seq<u16>,
    st: Stream,
) -> bool {
    &&& forall|h2: u16|
        #[trigger] assoc_has(post.streams(), h2) == (assoc_has(pre.streams(), h2) || hs.contains(
            h2,
        ))
    &&& forall|h2: u16|
        assoc_has(pre.streams(), h2) ==> #[trigger] assoc_get(post.streams(), h2) == assoc_get(
            pre.streams(),
            h2,
        )
    &&& forall|h2: u16|
        !assoc_has(pre.streams(), h2) && hs.contains(h2) ==> #[trigger] assoc_get(
            post.streams(),
            h2,
        ) == st
    &&& post.has_arbiter() == pre.has_arbiter()
    &&& pre.has_arbiter() ==> {
        &&& post.arb().same_limits(&pre.arb())
        &&& post.arb().audio() == pre.arb().audio()
        &&& post.arb().incoming() == pre.arb().incoming()
        &&& forall|h2: u16|
            #[trigger] it_tracked(post.arb().credits(), h2) == (it_tracked(
                pre.arb().credits(),
                h2,
            ) || (hs.contains(h2) && !assoc_has(pre.streams(), h2)))
        &&& forall|h2: u16|
            it_tracked(pre.arb().credits(), h2) ==> #[trigger] it_count(post.arb().credits(), h2)
                == it_count(pre.arb().credits(), h2)
        &&& it_total(post.arb().credits()) == it_total(pre.arb().credits())
    }
}

/// What a successful LE Create BIG Complete does: the recorded BIG gains
/// its BIS handles; under sound framing, each fresh BIS handle gains a
/// stream record and an arbiter registration, and handles already carrying
/// a stream are kept. Each fault comes exactly on its condition: no
/// arbiter while a fresh handle needs one, or a fresh handle the arbiter
/// already tracks, which stops the registration at that handle.
pub open spec fn create_big_transition(
    pre: ProxyState,
    e: crate::event::LeCreateBigComplete,
    post: ProxyState,
    res: Result<(), ProxyFault>,
) -> bool {
    if !assoc_has(pre.bigs(), e.big_handle) {
        pre.unchanged(&post) && (res matches Err(f) && f == ProxyFault::UnknownBig)
    } else {
        let big0 = assoc_get(pre.bigs(), e.big_handle);
        let big1 = BigView {
            sdu_interval: big0.sdu_interval,
            max_sdu_size: big0.max_sdu_size,
            bis_handles: e.bis_handles@,
        };
        let st = bis_stream_of(big1, e);
        &&& post.bigs() == assoc_insert(pre.bigs(), e.big_handle, big1)
        &&& post.cigs() == pre.cigs()
        &&& if !big_framing_ok_v(big1, e) {
            pre.same_streams(&post) && pre.same_arbiter(&post) && (res matches Err(f) && f
                == ProxyFault::FramingUnsupported)
        } else {
            match res {
                Result::Err(f) => (f == ProxyFault::NoArbiter && !pre.has_arbiter()
                    && pre.same_streams(&post) && pre.same_arbiter(&post) && (exists|h: u16|
                    e.bis_handles@.contains(h) && !assoc_has(pre.streams(), h))) || (f
                    == ProxyFault::DuplicateConnection && pre.has_arbiter() && (exists|k: int|
                    0 <= k < e.bis_handles@.len() && big_registration(
                        pre,
                        post,
                        e.bis_handles@.take(k),
                        st,
                    ) && !assoc_has(pre.streams(), e.bis_handles@[k]) && !e.bis_handles@.take(
                        k,
                    ).contains(e.bis_handles@[k]) && it_tracked(
                        pre.arb().credits(),
                        e.bis_handles@[k],
                    ))),
                Result::Ok(u) => big_registration(pre, post, e.bis_handles@, st),
            }
        }
    }
}

/// What an LE Terminate BIG Complete does: the recorded BIG is dropped,
/// each of its BIS streams is removed, and their share of the transmit
/// path is freed: queued packets discarded, in-transit counts forgotten.
pub open spec fn terminate_big_transition(
    pre: ProxyState,
    e: crate::event::LeTerminateBigComplete,
    post: ProxyState,
    res: Result<(), ProxyFault>,
) -> bool {
    if !assoc_has(pre.bigs(), e.big_handle) {
        pre.unchanged(&post) && (res matches Err(f) && f == ProxyFault::UnknownBig)
    } else {
        let hs = assoc_get(pre.bigs(), e.big_handle).bis_handles;
        &&& post.bigs() == assoc_remove(pre.bigs(), e.big_handle)
        &&& post.cigs() == pre.cigs()
        &&& if hs.len() > 0 && !pre.has_arbiter() {
            pre.same_streams(&post) && pre.same_arbiter(&post) && (res matches Err(f) && f
                == ProxyFault::NoArbiter)
        } else {
            &&& post.streams() == pre.streams().filter(assoc_outside(hs))
            &&& post.has_arbiter() == pre.has_arbiter()
            &&& pre.has_arbiter() ==> {
                &&& post.arb().same_limits(&pre.arb())
                &&& forall|h2: u16| hs.contains(h2) ==> !it_tracked(post.arb().credits(), h2)
                &&& post.arb().audio() == pre.arb().audio().filter(
                    crate::arbiter::keeps_handles_outside(hs),
                )
                &&& post.arb().incoming() == pre.arb().incoming().filter(
                    crate::arbiter::keeps_handles_outside(hs),
                )
                &&& forall|h2: u16|
                    !hs.contains(h2) ==> #[trigger] it_tracked(post.arb().credits(), h2)
                        == it_tracked(pre.arb().credits(), h2)
                &&& forall|h2: u16|
                    !hs.contains(h2) && it_tracked(pre.arb().credits(), h2) ==> #[trigger] it_count(
                        post.arb().credits(),
                        h2,
                    ) == it_count(pre.arb().credits(), h2)
            }
            &&& res matches Ok(u)
        }
    }
}

impl ProxyState {
    /// A successful LE Create BIG Complete event attaches the reported BIS
    /// handles to the recorded BIG, validates the framing constraint, and
    /// gives each fresh BIS handle a stream record and an arbiter
    /// registration.
    #[verifier::loop_isolation(false)]
    #[verifier::rlimit(50)]
    fn on_create_big(&mut self, e: &crate::event::LeCreateBigComplete) -> (res: Result<
        (),
        ProxyFault,
    >)
        requires
            old(self).wf(),
        ensures
            final(self).wf(),
            create_big_transition(*old(self), *e, *final(self), res),
    {
        let gi = match self.find_big(e.big_handle) {
            Some(i) => i,
            None => {
                return Err(ProxyFault::UnknownBig);
            },
        };
        let mut hs: Vec<u16> = Vec::new();
        hs.extend_from_slice(e.bis_handles.as_slice());
        proof {
            assert(hs@ =~= e.bis_handles@);
        }
        let sdu_interval = self.big[gi].1.sdu_interval;
        let max_sdu_size = self.big[gi].1.max_sdu_size;
        let big1 = BigParameters { sdu_interval, max_sdu_size, bis_handles: hs };
        let ghost big1v = big1@;
        self.big.set(gi, (e.big_handle, big1));
        proof {
            assert(self.bigs() =~= assoc_insert(old(self).bigs(), e.big_handle, big1v));
            lemma_assoc_unique_update(old(self).bigs(), gi as int, (e.big_handle, big1v));
        }
        let iso_us: u32 = (e.iso_interval as u32) * 1250;
        if sdu_interval == 0 || iso_us % sdu_interval != 0 {
            return Err(ProxyFault::FramingUnsupported);
        }
        let st = Stream {
            state: StreamState::Disabled,
            iso_interval_us: iso_us,
            iso_type: IsoType::Bis {
                c_to_p: IsoInDirection {
                    sdu_interval_us: sdu_interval,
                    max_sdu_size,
                    flush_timeout: e.irc,
                },
            },
        };
        proof {
            assert(st == bis_stream_of(big1v, *e));
        }
        let ghost mid = *self;
        let n = e.bis_handles.len();
        for k in 0..n
            invariant
                n == e.bis_handles@.len(),
                self.wf(),
                self.bigs() == mid.bigs(),
                self.cigs() == mid.cigs(),
                self.has_arbiter() == mid.has_arbiter(),
                !mid.has_arbiter() ==> self.streams() == mid.streams(),
                forall|h2: u16|
                    #[trigger] assoc_has(self.streams(), h2) == (assoc_has(mid.streams(), h2)
                        || e.bis_handles@.take(k as int).contains(h2)),
                forall|h2: u16|
                    assoc_has(mid.streams(), h2) ==> #[trigger] assoc_get(self.streams(), h2)
                        == assoc_get(mid.streams(), h2),
                forall|h2: u16|
                    !assoc_has(mid.streams(), h2) && e.bis_handles@.take(k as int).contains(h2)
                        ==> #[trigger] assoc_get(self.streams(), h2) == st,
                mid.has_arbiter() ==> {
                    &&& self.arb().same_limits(&mid.arb())
                    &&& self.arb().audio() == mid.arb().audio()
                    &&& self.arb().incoming() == mid.arb().incoming()
                    &&& forall|h2: u16|
                        #[trigger] it_tracked(self.arb().credits(), h2) == (it_tracked(
                            mid.arb().credits(),
                            h2,
                        ) || (e.bis_handles@.take(k as int).contains(h2) && !assoc_has(
                            mid.streams(),
                            h2,
                        )))
                    &&& forall|h2: u16|
                        it_tracked(mid.arb().credits(), h2) ==> #[trigger] it_count(
                            self.arb().credits(),
                            h2,
                        ) == it_count(mid.arb().credits(), h2)
                    &&& it_total(self.arb().credits()) == it_total(mid.arb().credits())
                },
        {
            let h = e.bis_handles[k];
            let ghost prefix = e.bis_handles@.take(k as int);
            let ghost streams_at_entry = self.streams();
            proof {
                assert(e.bis_handles@.take(k + 1) =~= prefix.push(h));
                lemma_contains_push(prefix, h);
            }
            if self.find_stream(h).is_none() {
                let mut arb = match self.arbiter.take() {
                    Some(a) => a,
                    None => {
                        proof {
                            assert(e.bis_handles@.contains(h)) by {
                                assert(e.bis_handles@[k as int] == h);
                            }
                            assert(!assoc_has(old(self).streams(), h));
                        }
                        return Err(ProxyFault::NoArbiter);
                    },
                };
                if arb.is_tracked(h) {
                    self.arbiter = Some(arb);
                    proof {
                        let ghost kk = k as int;
                        assert(!e.bis_handles@.take(kk).contains(h)) by {
                            if e.bis_handles@.take(kk).contains(h) {
                                let j = choose|j: int|
                                    0 <= j < kk && e.bis_handles@.take(kk)[j] == h;
                                assert(e.bis_handles@.take(kk)[j] == e.bis_handles@[j]);
                            }
                        }
                        assert(big_registration(
                            *old(self),
                            *self,
                            e.bis_handles@.take(kk),
                            st,
                        ));
                        assert(!assoc_has(old(self).streams(), e.bis_handles@[kk]));
                        assert(it_tracked(old(self).arb().credits(), e.bis_handles@[kk]));
                    }
                    return Err(ProxyFault::DuplicateConnection);
                }
                let ghost credits_before = arb.credits();
                arb.add_connection(h);
                proof {
                    crate::arbiter::lemma_tracking_after_add(credits_before, (h, 0usize));
                }
                self.arbiter = Some(arb);
                let ghost streams_before = self.streams();
                self.stream.push((h, st));
                proof {
                    lemma_assoc_push_facts(streams_before, (h, st));
                }
            }
            proof {
                assert forall|h2: u16|
                    !assoc_has(mid.streams(), h2) && e.bis_handles@.take(k + 1).contains(h2)
                        implies #[trigger] assoc_get(self.streams(), h2) == st by {
                    if h2 != h {
                        assert(prefix.contains(h2));
                        assert(assoc_has(streams_at_entry, h2));
                        assert(assoc_get(self.streams(), h2) == assoc_get(streams_at_entry, h2));
                        assert(assoc_get(streams_at_entry, h2) == st);
                    } else {
                        assert(assoc_has(self.streams(), h2));
                    }
                }
            }
        }
        proof {
            assert(e.bis_handles@.take(n as int) =~= e.bis_handles@);
        }
        Ok(())
    }

    /// An LE Terminate BIG Complete event drops the recorded BIG, removes
    /// each of its BIS streams, and frees their share of the transmit path.
    #[verifier::loop_isolation(false)]
    #[verifier::rlimit(50)]
    fn on_terminate_big(&mut self, e: &crate::event::LeTerminateBigComplete) -> (res: Result<
        (),
        ProxyFault,
    >)
        requires
            old(self).wf(),
        ensures
            final(self).wf(),
            terminate_big_transition(*old(self), *e, *final(self), res),
    {
        let gi = match self.find_big(e.big_handle) {
            Some(i) => i,
            None => {
                return Err(ProxyFault::UnknownBig);
            },
        };
        let entry = self.big.remove(gi);
        let hs = entry.1.bis_handles;
        proof {
            assert(self.bigs() =~= assoc_remove(old(self).bigs(), e.big_handle));
            lemma_assoc_unique_remove(old(self).bigs(), gi as int);
            assert(hs@ == assoc_get(old(self).bigs(), e.big_handle).bis_handles);
        }
        if self.arbiter.is_none() {
            if hs.len() > 0 {
                return Err(ProxyFault::NoArbiter);
            }
            proof {
                assert(self.streams().len() == 0);
                assert(self.streams() =~= old(self).streams().filter(
                    assoc_outside(hs@),
                ));
            }
            return Ok(());
        }
        let mut arb = match self.arbiter.take() {
            Some(a) => a,
            None => {
                proof {
                    assert(false);
                }
                return Err(ProxyFault::NoArbiter);
            },
        };
        arb.remove_connections(&hs);
        self.arbiter = Some(arb);
        let ghost pred = assoc_outside::<Stream>(hs@);
        let n = self.stream.len();
        let mut kept: Vec<(u16, Stream)> = Vec::new();
        proof {
            assert(old(self).streams().take(0) =~= Seq::<(u16, Stream)>::empty());
            assert(kept@ =~= old(self).streams().take(0).filter(pred));
        }
        for i in 0..n
            invariant
                n == old(self).streams().len(),
                self.streams() == old(self).streams(),
                kept@ == old(self).streams().take(i as int).filter(pred),
        {
            let ghost before = kept@;
            let entry = self.stream[i];
            if !crate::arbiter::vec_contains(&hs, entry.0) {
                kept.push(entry);
            }
            proof {
                assert(old(self).streams().take(i + 1) =~= old(self).streams().take(
                    i as int,
                ).push(entry));
                Seq::lemma_filter_push(old(self).streams().take(i as int), entry, pred);
            }
        }
        proof {
            assert(old(self).streams().take(n as int) =~= old(self).streams());
        }
        self.stream = kept;
        proof {
            lemma_filtered_assoc(old(self).streams(), hs@);
        }
        Ok(())
    }
}


/// What a successful LE Set CIG Parameters completion does: the recorded
/// CIG, which must exist with as many CIS entries as reported handles,
/// gains its connection handles pairwise.
pub open spec fn cig_complete_transition(
    pre: ProxyState,
    cig_id: u8,
    handles: Seq<u16>,
    post: ProxyState,
    res: Result<(), ProxyFault>,
) -> bool {
    match res {
        Result::Ok(u) => {
            &&& assoc_has(pre.cigs(), cig_id)
            &&& assoc_get(pre.cigs(), cig_id).cis.len() == handles.len()
            &&& post.cigs() == assoc_insert(
                pre.cigs(),
                cig_id,
                cig_with_handles(assoc_get(pre.cigs(), cig_id), handles),
            )
            &&& post.bigs() == pre.bigs()
            &&& pre.same_streams(&post)
            &&& pre.same_arbiter(&post)
        },
        Result::Err(f) => pre.unchanged(&post) && (f == ProxyFault::UnknownCig && !assoc_has(
            pre.cigs(),
            cig_id,
        ) || f == ProxyFault::HandleCountMismatch && assoc_has(pre.cigs(), cig_id) && assoc_get(
            pre.cigs(),
            cig_id,
        ).cis.len() != handles.len()),
    }
}

/// What an LE Setup ISO Data Path completion does: the stream it names,
/// which must exist, completes into the offloaded state when it was
/// enabling and the command succeeded, owing a start notice; any other
/// outcome leaves it disabled.
pub open spec fn setup_path_transition(
    pre: ProxyState,
    handle: u16,
    success: bool,
    post: ProxyState,
    res: Result<Option<Notice>, ProxyFault>,
) -> bool {
    match res {
        Result::Ok(notice) => {
            let s = assoc_get(pre.streams(), handle);
            let enabled = s.state == StreamState::Enabling && success;
            &&& assoc_has(pre.streams(), handle)
            &&& post.streams() == assoc_insert(
                pre.streams(),
                handle,
                Stream {
                    state: if enabled {
                        StreamState::Enabled
                    } else {
                        StreamState::Disabled
                    },
                    ..s
                },
            )
            &&& pre.same_groups(&post)
            &&& pre.same_arbiter(&post)
            &&& notice == if enabled {
                Some(Notice::StartStream(handle, stream_config(s)))
            } else {
                None::<Notice>
            }
        },
        Result::Err(f) => pre.unchanged(&post) && f == ProxyFault::UnknownStream && !assoc_has(
            pre.streams(),
            handle,
        ),
    }
}

/// What a successful LE Remove ISO Data Path completion does: the stream
/// it names, which must exist, leaves the offload lifecycle, owing a stop
/// notice when it was offloaded.
pub open spec fn remove_path_transition(
    pre: ProxyState,
    handle: u16,
    post: ProxyState,
    res: Result<Option<Notice>, ProxyFault>,
) -> bool {
    match res {
        Result::Ok(notice) => {
            let s = assoc_get(pre.streams(), handle);
            &&& assoc_has(pre.streams(), handle)
            &&& post.streams() == assoc_insert(
                pre.streams(),
                handle,
                Stream { state: StreamState::Disabled, ..s },
            )
            &&& pre.same_groups(&post)
            &&& pre.same_arbiter(&post)
            &&& notice == if s.state == StreamState::Enabled {
                Some(Notice::StopStream(handle))
            } else {
                None::<Notice>
            }
        },
        Result::Err(f) => pre.unchanged(&post) && f == ProxyFault::UnknownStream && !assoc_has(
            pre.streams(),
            handle,
        ),
    }
}


/// The predicate keeping the completion entries the host stack must see:
/// those whose handle does not belong to an offloaded stream.
pub open spec fn retained_entry(
    streams: Seq<(u16, Stream)>,
) -> spec_fn(NumberOfCompletedPacketsHandle) -> bool {
    |it: NumberOfCompletedPacketsHandle| !handle_enabled(streams, it.connection_handle)
}

/// The packet bytes of a Number Of Completed Packets event over a list of
/// entries.
pub open spec fn ncp_bytes(entries: Seq<NumberOfCompletedPacketsHandle>) -> Seq<u8> {
    crate::event::event_packet(
        0x13,
        None,
        seq![entries.len() as u8] + crate::writer::seq_wire_bytes(entries),
    )
}

/// Each completion entry occupies four bytes on the wire.
pub proof fn lemma_ncp_wire_len(entries: Seq<NumberOfCompletedPacketsHandle>)
    ensures
        crate::writer::seq_wire_bytes(entries).len() == 4 * entries.len(),
    decreases entries.len(),
{
    if entries.len() > 0 {
        lemma_ncp_wire_len(entries.drop_first());
    }
}

/// What a Number Of Completed Packets event does: without a session it
/// passes through; with one, every entry credits the arbiter in order,
/// and the stack sees exactly the entries of non-offloaded handles, in
/// their original order: all of them unchanged, some in a rewritten
/// event, or none at all.
pub open spec fn ncp_transition(
    pre: ProxyState,
    e: crate::event::NumberOfCompletedPackets,
    post: ProxyState,
    res: Result<EvtOut, ProxyFault>,
) -> bool {
    if !pre.has_arbiter() {
        pre.unchanged(&post) && ok_forward(res)
    } else {
        &&& pre.same_groups(&post)
        &&& pre.same_streams(&post)
        &&& post.has_arbiter()
        &&& post.arb().same_limits(&pre.arb())
        &&& post.arb().audio() == pre.arb().audio()
        &&& post.arb().incoming() == pre.arb().incoming()
        &&& post.arb().credits() == ncp_fold(
            pre.arb().credits(),
            e.handles@,
            e.handles@.len() as int,
        )
        &&& {
            let retained = e.handles@.filter(retained_entry(pre.streams()));
            match res {
                Result::Ok(o) => o.notices@ == Seq::<Notice>::empty() && if retained.len() == 0 {
                    o.action is Suppress
                } else {
                    retained.len() <= 63 && (o.action matches EvtAction::ForwardRewritten(b) && b@
                        == ncp_bytes(retained))
                },
                Result::Err(f) => f == ProxyFault::EventTooLong && retained.len() > 63,
            }
        }
    }
}

/// What the transport does with an event, and which notices it owes.
#[derive(Debug)]
pub struct EvtOut {
    /// What to do with the packet.
    pub action: EvtAction,
    /// The stream lifecycle notices to deliver, in order.
    pub notices: Vec<Notice>,
}

/// The event passed through untouched, with no notices owed.
pub open spec fn ok_forward(res: Result<EvtOut, ProxyFault>) -> bool {
    res matches Ok(o) && o.action is Forward && o.notices@ == Seq::<Notice>::empty()
}

impl ProxyState {
    /// Handle a Number Of Completed Packets event: credit the arbiter for
    /// every entry, and report to the stack only the completions of
    /// packets it sent itself.
    #[verifier::loop_isolation(false)]
    #[verifier::rlimit(50)]
    fn on_ncp(&mut self, e: &crate::event::NumberOfCompletedPackets) -> (res: Result<
        EvtOut,
        ProxyFault,
    >)
        requires
            old(self).wf(),
        ensures
            final(self).wf(),
            ncp_transition(*old(self), *e, *final(self), res),
    {
        if self.arbiter.is_none() {
            return Ok(EvtOut { action: EvtAction::Forward, notices: Vec::new() });
        }
        let mut arb = match self.arbiter.take() {
            Some(a) => a,
            None => {
                proof {
                    assert(false);
                }
                return Err(ProxyFault::NoArbiter);
            },
        };
        let ghost pred = retained_entry(old(self).streams());
        let n = e.handles.len();
        let mut retained: Vec<NumberOfCompletedPacketsHandle> = Vec::new();
        proof {
            assert(e.handles@.take(0) =~= Seq::<NumberOfCompletedPacketsHandle>::empty());
            assert(retained@ =~= e.handles@.take(0).filter(pred));
        }
        for k in 0..n
            invariant
                n == e.handles@.len(),
                arb.wf(),
                arb.same_limits(&old(self).arb()),
                arb.audio() == old(self).arb().audio(),
                arb.incoming() == old(self).arb().incoming(),
                arb.credits() == ncp_fold(old(self).arb().credits(), e.handles@, k as int),
                self.streams() == old(self).streams(),
                self.bigs() == old(self).bigs(),
                self.cigs() == old(self).cigs(),
                !self.has_arbiter(),
                assoc_unique(self.streams()),
                retained@ == e.handles@.take(k as int).filter(pred),
        {
            let item = e.handles[k];
            let ghost credits_before = arb.credits();
            arb.set_completed(item.connection_handle, item.num_completed_packets as usize);
            proof {
                assert(arb.credits() == sc_spec(
                    credits_before,
                    item.connection_handle,
                    item.num_completed_packets as usize,
                ));
            }
            let ghost before = retained@;
            let keep = match self.find_stream(item.connection_handle) {
                Some(i) => !matches!(self.stream[i].1.state, StreamState::Enabled),
                None => true,
            };
            if keep {
                retained.push(item);
                proof {
                    assert(retained@ =~= before.push(item));
                }
            }
            proof {
                assert(e.handles@.take(k + 1) =~= e.handles@.take(k as int).push(item));
                Seq::lemma_filter_push(e.handles@.take(k as int), item, pred);
                assert(retained@ =~= e.handles@.take(k + 1).filter(pred));
            }
        }
        proof {
            assert(e.handles@.take(n as int) =~= e.handles@);
        }
        self.arbiter = Some(arb);
        if retained.len() == 0 {
            return Ok(EvtOut { action: EvtAction::Suppress, notices: Vec::new() });
        }
        if retained.len() > 63 {
            return Err(ProxyFault::EventTooLong);
        }
        let stack_event = crate::event::NumberOfCompletedPackets { handles: retained };
        proof {
            lemma_ncp_wire_len(stack_event.handles@);
        }
        let bytes = crate::event::EventToBytes::to_bytes(&stack_event);
        Ok(EvtOut { action: EvtAction::ForwardRewritten(bytes), notices: Vec::new() })
    }
}


/// The proxy was fully cleared.
pub open spec fn cleared(post: ProxyState) -> bool {
    post.bigs().len() == 0 && post.cigs().len() == 0 && post.streams().len() == 0
        && !post.has_arbiter()
}

/// A fresh session was opened with the controller's reported ISO limits.
pub open spec fn new_session(pre: ProxyState, iso_len: u16, iso_count: u8, post: ProxyState) -> bool {
    &&& pre.same_groups(&post)
    &&& pre.same_streams(&post)
    &&& post.has_arbiter()
    &&& post.arb().spec_max_buf_len() == iso_len as usize
    &&& post.arb().spec_max_buf_count() == iso_count as usize
    &&& post.arb().credits() == Seq::<(u16, usize)>::empty()
    &&& post.arb().audio() == Seq::<(u16, Seq<u8>)>::empty()
    &&& post.arb().incoming() == Seq::<(u16, Seq<u8>)>::empty()
}

/// The event passed through untouched, owing the given notices.
pub open spec fn ok_forward_with(res: Result<EvtOut, ProxyFault>, notices: Seq<Notice>) -> bool {
    res matches Ok(o) && o.action is Forward && o.notices@ == notices
}

/// The unit outcome carried by an event outcome.
pub open spec fn unit_of(res: Result<EvtOut, ProxyFault>) -> Result<(), ProxyFault> {
    match res {
        Result::Ok(o) => Result::Ok(()),
        Result::Err(f) => Result::Err(f),
    }
}

/// What one incoming event does to the proxy, what the stack sees of it,
/// and which stream lifecycle notices the offload client is owed.
pub open spec fn evt_transition(
    pre: ProxyState,
    e: Event,
    post: ProxyState,
    res: Result<EvtOut, ProxyFault>,
) -> bool {
    match e {
        Event::CommandComplete(cc) => match cc.return_parameters {
            ReturnParameters::Reset(p) => if p.status == Status::Success {
                cleared(post) && ok_forward(res)
            } else {
                pre.unchanged(&post) && ok_forward(res)
            },
            ReturnParameters::LeReadBufferSizeV2(p) => if p.status == Status::Success {
                new_session(pre, p.iso_data_packet_length, p.total_num_iso_data_packets, post)
                    && ok_forward_with(res, seq![Notice::ArbiterReset])
            } else {
                pre.unchanged(&post) && ok_forward(res)
            },
            ReturnParameters::LeSetCigParameters(p) => if p.status == Status::Success {
                cig_complete_transition(pre, p.cig_id, p.connection_handles@, post, unit_of(res))
                    && (res matches Ok(o) ==> ok_forward(res))
            } else {
                pre.unchanged(&post) && ok_forward(res)
            },
            ReturnParameters::LeRemoveCig(p) => if p.status == Status::Success {
                post.cigs() == assoc_remove(pre.cigs(), p.cig_id) && post.bigs() == pre.bigs()
                    && pre.same_streams(&post) && pre.same_arbiter(&post) && ok_forward(res)
            } else {
                pre.unchanged(&post) && ok_forward(res)
            },
            ReturnParameters::LeSetupIsoDataPath(p) => {
                &&& setup_path_transition(
                    pre,
                    p.connection_handle,
                    p.status == Status::Success,
                    post,
                    notice_of(res),
                )
                &&& (res matches Ok(o) ==> o.action is Forward && o.notices@ == match notice_of(
                    res,
                ) {
                    Result::Ok(Option::Some(nt)) => seq![nt],
                    _ => Seq::<Notice>::empty(),
                })
            },
            ReturnParameters::LeRemoveIsoDataPath(p) => if p.status == Status::Success {
                &&& remove_path_transition(pre, p.connection_handle, post, notice_of(res))
                &&& (res matches Ok(o) ==> o.action is Forward && o.notices@ == match notice_of(
                    res,
                ) {
                    Result::Ok(Option::Some(nt)) => seq![nt],
                    _ => Seq::<Notice>::empty(),
                })
            } else {
                pre.unchanged(&post) && ok_forward(res)
            },
            _ => pre.unchanged(&post) && ok_forward(res),
        },
        Event::LeCisEstablished(ev) => if ev.status == Status::Success {
            cis_established_transition(pre, ev, post, unit_of(res)) && (res matches Ok(o)
                ==> ok_forward(res))
        } else {
            pre.unchanged(&post) && ok_forward(res)
        },
        Event::DisconnectionComplete(ev) => if ev.status == Status::Success {
            disconnection_transition(pre, ev.connection_handle, post) && ok_forward(res)
        } else {
            pre.unchanged(&post) && ok_forward(res)
        },
        Event::LeCreateBigComplete(ev) => if ev.status == Status::Success {
            create_big_transition(pre, ev, post, unit_of(res)) && (res matches Ok(o) ==> ok_forward(
                res,
            ))
        } else {
            pre.unchanged(&post) && ok_forward(res)
        },
        Event::LeTerminateBigComplete(ev) => {
            terminate_big_transition(pre, ev, post, unit_of(res)) && (res matches Ok(o)
                ==> ok_forward(res))
        },
        Event::NumberOfCompletedPackets(ev) => ncp_transition(pre, ev, post, res),
        _ => pre.unchanged(&post) && ok_forward(res),
    }
}

/// The notice outcome carried by an event outcome.
pub open spec fn notice_of(res: Result<EvtOut, ProxyFault>) -> Result<Option<Notice>, ProxyFault> {
    match res {
        Result::Ok(o) => Result::Ok(
            if o.notices@.len() == 1 {
                Some(o.notices@[0])
            } else {
                None
            },
        ),
        Result::Err(f) => Result::Err(f),
    }
}

impl ProxyState {
    /// Handle one incoming HCI event, already decoded.
    ///
    /// Completion events drive the group records, the stream lifecycle and
    /// the session arbiter; establishment and disconnection events track
    /// the streams; a Number Of Completed Packets event credits the
    /// arbiter and is filtered down to the entries the stack owns. Every
    /// other event passes through unchanged.
    pub fn handle_event(&mut self, e: Event) -> (res: Result<EvtOut, ProxyFault>)
        requires
            old(self).wf(),
        ensures
            final(self).wf(),
            evt_transition(*old(self), e, *final(self), res),
    {
        match e {
            Event::CommandComplete(cc) => match cc.return_parameters {
                ReturnParameters::Reset(p) => {
                    if matches!(p.status, Status::Success) {
                        self.on_reset_complete();
                    }
                    Ok(EvtOut { action: EvtAction::Forward, notices: Vec::new() })
                },
                ReturnParameters::LeReadBufferSizeV2(p) => {
                    if matches!(p.status, Status::Success) {
                        self.on_buffer_size_v2(
                            p.iso_data_packet_length,
                            p.total_num_iso_data_packets,
                        );
                        let mut notices: Vec<Notice> = Vec::new();
                        notices.push(Notice::ArbiterReset);
                        proof {
                            assert(notices@ =~= seq![Notice::ArbiterReset]);
                        }
                        Ok(EvtOut { action: EvtAction::Forward, notices })
                    } else {
                        Ok(EvtOut { action: EvtAction::Forward, notices: Vec::new() })
                    }
                },
                ReturnParameters::LeSetCigParameters(p) => {
                    if matches!(p.status, Status::Success) {
                        match self.on_cig_complete(p.cig_id, &p.connection_handles) {
                            Ok(()) => Ok(
                                EvtOut { action: EvtAction::Forward, notices: Vec::new() },
                            ),
                            Err(f) => Err(f),
                        }
                    } else {
                        Ok(EvtOut { action: EvtAction::Forward, notices: Vec::new() })
                    }
                },
                ReturnParameters::LeRemoveCig(p) => {
                    if matches!(p.status, Status::Success) {
                        self.on_remove_cig(p.cig_id);
                    }
                    Ok(EvtOut { action: EvtAction::Forward, notices: Vec::new() })
                },
                ReturnParameters::LeSetupIsoDataPath(p) => {
                    match self.on_setup_path_complete(
                        p.connection_handle,
                        matches!(p.status, Status::Success),
                    ) {
                        Ok(Some(nt)) => {
                            let mut notices: Vec<Notice> = Vec::new();
                            notices.push(nt);
                            proof {
                                assert(notices@ =~= seq![nt]);
                            }
                            Ok(EvtOut { action: EvtAction::Forward, notices })
                        },
                        Ok(None) => Ok(
                            EvtOut { action: EvtAction::Forward, notices: Vec::new() },
                        ),
                        Err(f) => Err(f),
                    }
                },
                ReturnParameters::LeRemoveIsoDataPath(p) => {
                    if matches!(p.status, Status::Success) {
                        match self.on_remove_path_complete(p.connection_handle) {
                            Ok(Some(nt)) => {
                                let mut notices: Vec<Notice> = Vec::new();
                                notices.push(nt);
                                proof {
                                    assert(notices@ =~= seq![nt]);
                                }
                                Ok(EvtOut { action: EvtAction::Forward, notices })
                            },
                            Ok(None) => Ok(
                                EvtOut { action: EvtAction::Forward, notices: Vec::new() },
                            ),
                            Err(f) => Err(f),
                        }
                    } else {
                        Ok(EvtOut { action: EvtAction::Forward, notices: Vec::new() })
                    }
                },
                _ => Ok(EvtOut { action: EvtAction::Forward, notices: Vec::new() }),
            },
            Event::LeCisEstablished(ev) => {
                if matches!(ev.status, Status::Success) {
                    match self.on_cis_established(&ev) {
                        Ok(()) => Ok(EvtOut { action: EvtAction::Forward, notices: Vec::new() }),
                        Err(f) => Err(f),
                    }
                } else {
                    Ok(EvtOut { action: EvtAction::Forward, notices: Vec::new() })
                }
            },
            Event::DisconnectionComplete(ev) => {
                if matches!(ev.status, Status::Success) {
                    self.on_disconnection(ev.connection_handle);
                }
                Ok(EvtOut { action: EvtAction::Forward, notices: Vec::new() })
            },
            Event::LeCreateBigComplete(ev) => {
                if matches!(ev.status, Status::Success) {
                    match self.on_create_big(&ev) {
                        Ok(()) => Ok(EvtOut { action: EvtAction::Forward, notices: Vec::new() }),
                        Err(f) => Err(f),
                    }
                } else {
                    Ok(EvtOut { action: EvtAction::Forward, notices: Vec::new() })
                }
            },
            Event::LeTerminateBigComplete(ev) => {
                match self.on_terminate_big(&ev) {
                    Ok(()) => Ok(EvtOut { action: EvtAction::Forward, notices: Vec::new() }),
                    Err(f) => Err(f),
                }
            },
            Event::NumberOfCompletedPackets(ev) => self.on_ncp(&ev),
            _ => Ok(EvtOut { action: EvtAction::Forward, notices: Vec::new() }),
        }
    }
}


/// What pushing one outgoing ISO packet does: with a session open and the
/// packet within the controller's buffer, it joins the back of the
/// incoming queue when its handle is tracked and is silently dropped when
/// it is not.
pub open spec fn out_iso_transition(
    pre: ProxyState,
    d: IsoData,
    post: ProxyState,
    res: Result<(), ProxyFault>,
) -> bool {
    if !pre.has_arbiter() {
        pre.unchanged(&post) && (res matches Err(f) && f == ProxyFault::NoArbiter)
    } else if d.payload@.len() > pre.arb().spec_max_buf_len() {
        pre.unchanged(&post) && (res matches Err(f) && f == ProxyFault::PayloadTooLarge)
    } else {
        &&& pre.same_groups(&post)
        &&& pre.same_streams(&post)
        &&& post.has_arbiter()
        &&& post.arb().same_limits(&pre.arb())
        &&& post.arb().credits() == pre.arb().credits()
        &&& post.arb().audio() == pre.arb().audio()
        &&& it_tracked(pre.arb().credits(), d.connection_handle) ==> post.arb().incoming()
            == pre.arb().incoming().push((d.connection_handle, d.spec_bytes()))
        &&& !it_tracked(pre.arb().credits(), d.connection_handle) ==> post.arb().incoming()
            == pre.arb().incoming()
        &&& res matches Ok(u)
    }
}

/// What pushing one audio ISO packet does: the same as an outgoing push,
/// but onto the higher-priority audio queue.
pub open spec fn audio_iso_transition(
    pre: ProxyState,
    d: IsoData,
    post: ProxyState,
    res: Result<(), ProxyFault>,
) -> bool {
    if !pre.has_arbiter() {
        pre.unchanged(&post) && (res matches Err(f) && f == ProxyFault::NoArbiter)
    } else if d.payload@.len() > pre.arb().spec_max_buf_len() {
        pre.unchanged(&post) && (res matches Err(f) && f == ProxyFault::PayloadTooLarge)
    } else {
        &&& pre.same_groups(&post)
        &&& pre.same_streams(&post)
        &&& post.has_arbiter()
        &&& post.arb().same_limits(&pre.arb())
        &&& post.arb().credits() == pre.arb().credits()
        &&& post.arb().incoming() == pre.arb().incoming()
        &&& it_tracked(pre.arb().credits(), d.connection_handle) ==> post.arb().audio()
            == pre.arb().audio().push((d.connection_handle, d.spec_bytes()))
        &&& !it_tracked(pre.arb().credits(), d.connection_handle) ==> post.arb().audio()
            == pre.arb().audio()
        &&& res matches Ok(u)
    }
}

impl ProxyState {
    /// Handle one outgoing HCI command packet, as raw bytes.
    ///
    /// A packet that decodes to a recognized command is handled as that
    /// command; anything else passes through unchanged.
    pub fn out_cmd(&mut self, data: &[u8]) -> (res: Result<CmdAction, ProxyFault>)
        requires
            old(self).wf(),
        ensures
            final(self).wf(),
            (exists|c: Command|
                !(c matches Command::Unknown(_)) && c.wf() && #[trigger] c.spec_bytes() == data@
                    && cmd_transition(*old(self), c, *final(self), res)) || ((forall|c: Command|
                !(c matches Command::Unknown(_)) && c.wf() ==> #[trigger] c.spec_bytes() != data@)
                && old(self).unchanged(final(self)) && (res matches Ok(a) && a is Forward)),
    {
        match Command::from_bytes(data) {
            Ok(c) => {
                match c {
                    Command::Unknown(_) => {
                        proof {
                            assert forall|c2: Command|
                                !(c2 matches Command::Unknown(_)) && c2.wf()
                                    implies #[trigger] c2.spec_bytes() != data@ by {
                                if c2.spec_bytes() == data@ {
                                    crate::command::lemma_command_matches(c2, data@);
                                }
                            }
                        }
                        Ok(CmdAction::Forward)
                    },
                    _ => {
                        let ghost cg = c;
                        let r = self.handle_command(c);
                        proof {
                            assert(cg.spec_bytes() == data@);
                        }
                        r
                    },
                }
            },
            Err(e) => {
                proof {
                    if e is None {
                        assert forall|c2: Command|
                            !(c2 matches Command::Unknown(_)) && c2.wf()
                                implies #[trigger] c2.spec_bytes() != data@ by {
                            if c2.spec_bytes() == data@ {
                                crate::command::lemma_command_matches(c2, data@);
                            }
                        }
                    }
                }
                Ok(CmdAction::Forward)
            },
        }
    }

    /// Handle one incoming HCI event packet, as raw bytes.
    ///
    /// A packet that decodes to a recognized event is handled as that
    /// event; anything else passes through unchanged.
    pub fn in_evt(&mut self, data: &[u8]) -> (res: Result<EvtOut, ProxyFault>)
        requires
            old(self).wf(),
        ensures
            final(self).wf(),
            (exists|e: Event|
                !(e matches Event::Unknown(_)) && e.wf() && #[trigger] e.spec_bytes() == data@
                    && evt_transition(*old(self), e, *final(self), res)) || ((forall|e: Event|
                !(e matches Event::Unknown(_)) && e.wf() ==> #[trigger] e.spec_bytes() != data@)
                && old(self).unchanged(final(self)) && ok_forward(res)),
    {
        match Event::from_bytes(data) {
            Ok(e) => {
                match e {
                    Event::Unknown(_) => {
                        proof {
                            assert forall|e2: Event|
                                !(e2 matches Event::Unknown(_)) && e2.wf()
                                    implies #[trigger] e2.spec_bytes() != data@ by {
                                if e2.spec_bytes() == data@ {
                                    crate::event::lemma_event_matches(e2, data@);
                                }
                            }
                        }
                        Ok(EvtOut { action: EvtAction::Forward, notices: Vec::new() })
                    },
                    Event::CommandComplete(cc) => {
                        match cc.return_parameters {
                            ReturnParameters::Unknown(_) => Ok(
                                EvtOut { action: EvtAction::Forward, notices: Vec::new() },
                            ),
                            _ => {
                                let e2 = Event::CommandComplete(cc);
                                let ghost eg = e2;
                                let r = self.handle_event(e2);
                                proof {
                                    assert(eg.spec_bytes() == data@);
                                }
                                r
                            },
                        }
                    },
                    _ => {
                        let ghost eg = e;
                        let r = self.handle_event(e);
                        proof {
                            assert(eg.spec_bytes() == data@);
                        }
                        r
                    },
                }
            },
            Err(err) => {
                proof {
                    if err is None {
                        assert forall|e2: Event|
                            !(e2 matches Event::Unknown(_)) && e2.wf()
                                implies #[trigger] e2.spec_bytes() != data@ by {
                            if e2.spec_bytes() == data@ {
                                crate::event::lemma_event_matches(e2, data@);
                            }
                        }
                    }
                }
                Ok(EvtOut { action: EvtAction::Forward, notices: Vec::new() })
            },
        }
    }

    /// Route one outgoing ISO data packet, as raw bytes, through the
    /// arbiter's incoming queue.
    pub fn out_iso(&mut self, data: &[u8]) -> (res: Result<(), ProxyFault>)
        requires
            old(self).wf(),
        ensures
            final(self).wf(),
            (exists|d: IsoData|
                d.wf() && #[trigger] d.spec_bytes() == data@ && out_iso_transition(
                    *old(self),
                    d,
                    *final(self),
                    res,
                )) || ((forall|d: IsoData| d.wf() ==> #[trigger] d.spec_bytes() != data@) && old(
                self,
            ).unchanged(final(self)) && (res matches Err(f) && f == ProxyFault::MalformedIso)),
    {
        let d = match IsoData::from_bytes(data) {
            Some(d) => d,
            None => {
                return Err(ProxyFault::MalformedIso);
            },
        };
        let ghost dg = d;
        let r = self.push_iso(&d, false);
        proof {
            assert(dg.spec_bytes() == data@);
        }
        r
    }

    /// Queue one audio ISO packet from the offload client.
    pub fn push_audio_iso(&mut self, d: &IsoData) -> (res: Result<(), ProxyFault>)
        requires
            old(self).wf(),
            d.wf(),
        ensures
            final(self).wf(),
            audio_iso_transition(*old(self), *d, *final(self), res),
    {
        self.push_iso(d, true)
    }

    /// Queue one ISO packet on one of the two producer queues.
    fn push_iso(&mut self, d: &IsoData, audio: bool) -> (res: Result<(), ProxyFault>)
        requires
            old(self).wf(),
            d.wf(),
        ensures
            final(self).wf(),
            audio ==> audio_iso_transition(*old(self), *d, *final(self), res),
            !audio ==> out_iso_transition(*old(self), *d, *final(self), res),
    {
        let mut arb = match self.arbiter.take() {
            Some(a) => a,
            None => {
                return Err(ProxyFault::NoArbiter);
            },
        };
        if d.payload.len() > arb.max_buf_len() {
            self.arbiter = Some(arb);
            return Err(ProxyFault::PayloadTooLarge);
        }
        if audio {
            arb.push_audio(d);
        } else {
            arb.push_incoming(d);
        }
        self.arbiter = Some(arb);
        Ok(())
    }

    /// Take the next ISO packet the arbiter may send: the head of the
    /// highest-priority non-empty queue, while the credit bound leaves
    /// room; its handle's in-transit count rises by one.
    pub fn pull_iso(&mut self) -> (res: Option<(u16, Vec<u8>)>)
        requires
            old(self).wf(),
        ensures
            final(self).wf(),
            old(self).same_groups(final(self)),
            old(self).same_streams(final(self)),
            final(self).has_arbiter() == old(self).has_arbiter(),
            !old(self).has_arbiter() ==> res is None && old(self).unchanged(final(self)),
            old(self).has_arbiter() ==> final(self).arb().same_limits(&old(self).arb()) && match res {
                None => old(self).same_arbiter(final(self)) && (it_total(old(self).arb().credits())
                    >= old(self).arb().spec_max_buf_count() || (old(self).arb().audio().len() == 0
                    && old(self).arb().incoming().len() == 0)),
                Some((h, bytes)) => {
                    &&& it_total(old(self).arb().credits()) < old(self).arb().spec_max_buf_count()
                    &&& it_tracked(old(self).arb().credits(), h)
                    &&& it_total(final(self).arb().credits()) == it_total(
                        old(self).arb().credits(),
                    ) + 1
                    &&& final(self).arb().credits() == old(self).arb().credits().update(
                        it_index(old(self).arb().credits(), h),
                        (h, (it_count(old(self).arb().credits(), h) + 1) as usize),
                    )
                    &&& old(self).arb().audio().len() > 0 ==> (h, bytes@) == old(self).arb().audio()[0] && final(self).arb().audio() == old(self).arb().audio().drop_first() && final(self).arb().incoming() == old(self).arb().incoming()
                    &&& old(self).arb().audio().len() == 0 ==> old(self).arb().incoming().len() > 0
                        && (h, bytes@) == old(self).arb().incoming()[0] && final(self).arb().incoming() == old(self).arb().incoming().drop_first() && final(self).arb().audio() == old(self).arb().audio()
                },
            },
    {
        let mut arb = match self.arbiter.take() {
            Some(a) => a,
            None => {
                return None;
            },
        };
        let r = arb.pull();
        self.arbiter = Some(arb);
        r
    }

    /// Largest ISO payload the controller accepts, while a session is open.
    pub fn max_buf_len(&self) -> (r: Option<usize>)
        ensures
            match r {
                Some(n) => self.has_arbiter() && n == self.arb().spec_max_buf_len(),
                None => !self.has_arbiter(),
            },
    {
        match &self.arbiter {
            Some(a) => Some(a.max_buf_len()),
            None => None,
        }
    }
}


/// Streams and arbiter registrations are in step: while a session is
/// open, a stream record exists exactly for the handles the arbiter
/// tracks.
pub open spec fn streams_match_arbiter(s: ProxyState) -> bool {
    s.has_arbiter() ==> forall|h: u16|
        #[trigger] assoc_has(s.streams(), h) == it_tracked(s.arb().credits(), h)
}

/// Applying completion entries never changes which handles are tracked.
pub proof fn lemma_ncp_fold_tracked(
    s: Seq<(u16, usize)>,
    entries: Seq<NumberOfCompletedPacketsHandle>,
    k: int,
)
    requires
        0 <= k <= entries.len(),
    ensures
        ncp_fold(s, entries, k).len() == s.len(),
        forall|i: int| 0 <= i < s.len() ==> (#[trigger] ncp_fold(s, entries, k)[i]).0 == s[i].0,
        forall|h: u16| #[trigger] it_tracked(ncp_fold(s, entries, k), h) == it_tracked(s, h),
    decreases k,
{
    if k > 0 {
        lemma_ncp_fold_tracked(s, entries, k - 1);
        let prev = ncp_fold(s, entries, k - 1);
        let cur = ncp_fold(s, entries, k);
        assert forall|i: int| 0 <= i < s.len() implies (#[trigger] cur[i]).0 == s[i].0 by {
            assert(prev[i].0 == s[i].0);
        }
        assert forall|h: u16| #[trigger] it_tracked(cur, h) == it_tracked(s, h) by {
            if it_tracked(s, h) {
                let i = it_index(s, h);
                assert(cur[i].0 == h);
            }
            if it_tracked(cur, h) {
                let i = it_index(cur, h);
                assert(s[i].0 == h);
            }
        }
    } else {
        assert forall|h: u16| #[trigger] it_tracked(ncp_fold(s, entries, k), h) == it_tracked(
            s,
            h,
        ) by {}
    }
}

/// Every command transition keeps streams and arbiter in step.
pub proof fn lemma_sync_after_command(
    pre: ProxyState,
    c: Command,
    post: ProxyState,
    res: Result<CmdAction, ProxyFault>,
)
    requires
        pre.wf(),
        streams_match_arbiter(pre),
        cmd_transition(pre, c, post, res),
    ensures
        streams_match_arbiter(post),
{
    if post.has_arbiter() {
        assert forall|h: u16|
            #[trigger] assoc_has(post.streams(), h) == it_tracked(post.arb().credits(), h) by {
            match c {
                Command::LeSetupIsoDataPath(p) => {
                    if p.data_path_id == DATA_PATH_ID_SOFTWARE && p.data_path_direction
                        == LeDataPathDirection::Input && assoc_has(
                        pre.streams(),
                        p.connection_handle,
                    ) {
                        lemma_assoc_insert_has(pre.streams(), p.connection_handle, h);
                    }
                },
                _ => {},
            }
        }
    }
}

/// Inserting under a key leaves membership of every key as it was, except
/// that the inserted key is now present.
pub proof fn lemma_assoc_insert_has<V>(m: Seq<(u16, V)>, k: u16, h: u16)
    requires
        assoc_unique(m),
    ensures
        assoc_has(assoc_insert(m, k, assoc_get(m, k)), h) == (assoc_has(m, h) || h == k),
        forall|v: V| #[trigger] assoc_has(assoc_insert(m, k, v), h) == (assoc_has(m, h) || h == k),
{
    assert forall|v: V| #[trigger] assoc_has(assoc_insert(m, k, v), h) == (assoc_has(m, h) || h
        == k) by {
        let t = assoc_insert(m, k, v);
        if assoc_has(m, k) {
            let i = assoc_idx(m, k);
            if assoc_has(m, h) {
                let j = assoc_idx(m, h);
                assert(t[j].0 == h || (j == i && h == k));
            }
            if h == k {
                assert(t[i].0 == k);
            }
            if assoc_has(t, h) {
                let j = assoc_idx(t, h);
                assert(m[j].0 == h || (j == i && h == k));
            }
        } else {
            lemma_assoc_push_facts(m, (k, v));
        }
    }
}

/// Every event transition keeps streams and arbiter in step, except a
/// buffer-size completion that arrives while streams of an earlier
/// session still exist; the reset that precedes it rules that out.
pub proof fn lemma_sync_after_event(
    pre: ProxyState,
    e: Event,
    post: ProxyState,
    res: Result<EvtOut, ProxyFault>,
)
    requires
        pre.wf(),
        streams_match_arbiter(pre),
        evt_transition(pre, e, post, res),
        (e matches Event::CommandComplete(cc) && (cc.return_parameters matches
        ReturnParameters::LeReadBufferSizeV2(p) && p.status == Status::Success))
            ==> pre.streams().len() == 0,
    ensures
        streams_match_arbiter(post),
{
    if post.has_arbiter() {
        assert forall|h: u16|
            #[trigger] assoc_has(post.streams(), h) == it_tracked(post.arb().credits(), h) by {
            match e {
                Event::CommandComplete(cc) => match cc.return_parameters {
                    ReturnParameters::LeSetupIsoDataPath(p) => {
                        if res is Ok {
                            lemma_assoc_insert_has(pre.streams(), p.connection_handle, h);
                        }
                    },
                    ReturnParameters::LeRemoveIsoDataPath(p) => {
                        if p.status == Status::Success && res is Ok {
                            lemma_assoc_insert_has(pre.streams(), p.connection_handle, h);
                        }
                    },
                    _ => {},
                },
                Event::LeCisEstablished(ev) => {
                    if ev.status == Status::Success && some_cig_owns(
                        pre.cigs(),
                        ev.connection_handle,
                    ) {
                        lemma_owning_cig_bound(pre.cigs(), ev.connection_handle);
                        let cig = pre.cigs()[owning_cig(pre.cigs(), ev.connection_handle)].1;
                        if res is Ok && !assoc_has(pre.streams(), ev.connection_handle)
                            && pre.has_arbiter() && !it_tracked(
                            pre.arb().credits(),
                            ev.connection_handle,
                        ) && cis_framing_ok_v(cig, ev) {
                            let st = cis_stream_of(cig, ev);
                            lemma_assoc_push_facts(pre.streams(), (ev.connection_handle, st));
                            crate::arbiter::lemma_tracking_after_add(
                                pre.arb().credits(),
                                (ev.connection_handle, 0usize),
                            );
                        }
                    }
                },
                Event::DisconnectionComplete(ev) => {
                    if ev.status == Status::Success && assoc_has(
                        pre.streams(),
                        ev.connection_handle,
                    ) {
                        lemma_assoc_remove_has(pre.streams(), ev.connection_handle, h);
                    }
                },
                Event::LeTerminateBigComplete(ev) => {
                    if assoc_has(pre.bigs(), ev.big_handle) && res is Ok {
                        let hs = assoc_get(pre.bigs(), ev.big_handle).bis_handles;
                        if !(hs.len() > 0 && !pre.has_arbiter()) {
                            lemma_filtered_assoc(pre.streams(), hs);
                        }
                    }
                },
                Event::NumberOfCompletedPackets(ev) => {
                    if pre.has_arbiter() {
                        lemma_ncp_fold_tracked(
                            pre.arb().credits(),
                            ev.handles@,
                            ev.handles@.len() as int,
                        );
                    }
                },
                _ => {},
            }
        }
    }
}

/// Removing a key's binding leaves membership of every other key as it
/// was, and the removed key absent.
pub proof fn lemma_assoc_remove_has<V>(m: Seq<(u16, V)>, k: u16, h: u16)
    requires
        assoc_unique(m),
    ensures
        assoc_has(assoc_remove(m, k), h) == (assoc_has(m, h) && h != k),
{
    if assoc_has(m, k) {
        let i = assoc_idx(m, k);
        let t = m.remove(i);
        if assoc_has(m, h) && h != k {
            let j = assoc_idx(m, h);
            if j < i {
                assert(t[j].0 == h);
            } else {
                assert(t[j - 1].0 == h);
            }
        }
        if assoc_has(t, h) {
            let j = assoc_idx(t, h);
            if j < i {
                assert(m[j].0 == h);
            } else {
                assert(m[j + 1].0 == h);
            }
            if h == k {
                let j2 = if j < i {
                    j
                } else {
                    j + 1
                };
                assert(m[j2].0 == m[i].0 && j2 != i);
            }
        }
    }
}


/// When some recorded CIG owns a handle, the owning-CIG search lands on a
/// valid position that owns it.
pub proof fn lemma_owning_cig_bound(cigs: Seq<(u8, CigView)>, h: u16)
    requires
        some_cig_owns(cigs, h),
    ensures
        0 <= owning_cig(cigs, h) < cigs.len(),
        cis_has(cigs[owning_cig(cigs, h)].1.cis, h),
    decreases cigs.len(),
{
    if cigs.len() > 0 && !cis_has(cigs[0].1.cis, h) {
        assert(some_cig_owns(cigs.drop_first(), h)) by {
            let i = choose|i: int| 0 <= i < cigs.len() && cis_has((#[trigger] cigs[i]).1.cis, h);
            assert(cigs.drop_first()[i - 1] == cigs[i]);
        }
        lemma_owning_cig_bound(cigs.drop_first(), h);
    }
}

} // verus!
