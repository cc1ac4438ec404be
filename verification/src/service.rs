//! Offload client service state: the active-stream table and the checks
//! on packets the offload client sends.
//!
//! The surrounding transport owns the process-wide service object and the
//! weak reference to the session arbiter; this module holds the table of
//! streams currently reported active, and validates a client packet into
//! a typed ISO data value before it is queued.

use vstd::prelude::*;

use crate::data::{IsoData, IsoSduFragment, IsoSduHeader};
use crate::proxy::{assoc_insert, assoc_remove, assoc_unique};
use crate::proxy::StreamConfiguration;

verus! {

/// Why a client packet was rejected.
#[derive(Debug, Clone, Copy, PartialEq, Eq, Structural)]
pub enum ServiceError {
    /// The handle or sequence number is out of range.
    IllegalArgument,
    /// The payload exceeds what a single ISO packet can carry.
    PayloadTooLarge,
}

/// The streams currently reported active to the offload client.
pub struct OffloadService {
    streams: Vec<(u16, StreamConfiguration)>,
}

impl OffloadService {
    /// The active-stream table, by connection handle.
    pub closed spec fn streams(&self) -> Seq<(u16, StreamConfiguration)> {
        self.streams@
    }

    /// Each handle appears at most once.
    pub open spec fn wf(&self) -> bool {
        assoc_unique(self.streams())
    }

    /// A fresh service with no active streams.
    pub fn new() -> (r: OffloadService)
        ensures
            r.wf(),
            r.streams() == Seq::<(u16, StreamConfiguration)>::empty(),
    {
        OffloadService { streams: Vec::new() }
    }

    /// Adopt a new session: the active-stream table is cleared.
    pub fn reset(&mut self)
        ensures
            final(self).wf(),
            final(self).streams() == Seq::<(u16, StreamConfiguration)>::empty(),
    {
        self.streams = Vec::new();
    }

    /// Record a stream as active, replacing any earlier configuration.
    #[verifier::loop_isolation(false)]
    pub fn start_stream(&mut self, handle: u16, config: StreamConfiguration)
        requires
            old(self).wf(),
        ensures
            final(self).wf(),
            final(self).streams() == assoc_insert(old(self).streams(), handle, config),
    {
        let n = self.streams.len();
        for i in 0..n
            invariant
                *self == *old(self),
                n == self.streams().len(),
                forall|j: int| 0 <= j < i ==> (#[trigger] self.streams()[j]).0 != handle,
        {
            if self.streams[i].0 == handle {
                proof {
                    crate::proxy::lemma_assoc_idx_unique(self.streams(), handle, i as int);
                }
                self.streams.set(i, (handle, config));
                proof {
                    assert(self.streams() =~= assoc_insert(old(self).streams(), handle, config));
                    crate::proxy::lemma_assoc_unique_update(
                        old(self).streams(),
                        i as int,
                        (handle, config),
                    );
                }
                return ;
            }
        }
        self.streams.push((handle, config));
        proof {
            assert(self.streams() =~= assoc_insert(old(self).streams(), handle, config));
            crate::proxy::lemma_assoc_unique_push(old(self).streams(), (handle, config));
        }
    }

    /// Forget an active stream.
    #[verifier::loop_isolation(false)]
    pub fn stop_stream(&mut self, handle: u16)
        requires
            old(self).wf(),
        ensures
            final(self).wf(),
            final(self).streams() == assoc_remove(old(self).streams(), handle),
    {
        let n = self.streams.len();
        for i in 0..n
            invariant
                *self == *old(self),
                n == self.streams().len(),
                forall|j: int| 0 <= j < i ==> (#[trigger] self.streams()[j]).0 != handle,
        {
            if self.streams[i].0 == handle {
                proof {
                    crate::proxy::lemma_assoc_idx_unique(self.streams(), handle, i as int);
                }
                self.streams.remove(i);
                proof {
                    assert(self.streams() =~= assoc_remove(old(self).streams(), handle));
                    crate::proxy::lemma_assoc_unique_remove(old(self).streams(), i as int);
                }
                return ;
            }
        }
        proof {
            assert(self.streams() =~= assoc_remove(old(self).streams(), handle));
        }
    }

    /// The active streams to replay to a client that just registered its
    /// callbacks, in the order they were recorded.
    pub fn replay(&self) -> (r: Vec<(u16, StreamConfiguration)>)
        ensures
            r@ == self.streams(),
    {
        let mut r: Vec<(u16, StreamConfiguration)> = Vec::new();
        let n = self.streams.len();
        for i in 0..n
            invariant
                n == self.streams().len(),
                r@ == self.streams().take(i as int),
        {
            r.push(self.streams[i]);
            proof {
                assert(r@ =~= self.streams().take(i + 1));
            }
        }
        proof {
            assert(self.streams().take(n as int) =~= self.streams());
        }
        r
    }
}

/// Validate a packet from the offload client into a typed ISO data value:
/// the handle and sequence number must fit their fields and the payload a
/// single unframed SDU within the controller's buffer. The packet carries
/// the whole SDU, first and last, with no timestamp.
pub fn audio_packet(handle: i32, sequence_number: i32, data: Vec<u8>, max_buf_len: usize) -> (res:
    Result<IsoData, ServiceError>)
    ensures
        match res {
            Ok(d) => 0 <= handle < 0x1000 && 0 <= sequence_number <= 0xffff && data@.len()
                <= max_buf_len && data@.len() < 0x1000 && d.wf() && d.connection_handle == handle
                && d.payload@ == data@ && d.sdu_fragment == (IsoSduFragment::First {
                hdr: IsoSduHeader {
                    timestamp: None,
                    sequence_number: sequence_number as u16,
                    sdu_length: data@.len() as u16,
                    status: 0,
                },
                is_last: true,
            }),
            Err(e) => (e == ServiceError::IllegalArgument && (handle < 0 || handle > 0xfff
                || sequence_number < 0 || sequence_number > 0xffff)) || (e
                == ServiceError::PayloadTooLarge && (data@.len() > max_buf_len || data@.len()
                >= 0x1000)),
        },
{
    if handle < 0 || handle > 0xfff {
        return Err(ServiceError::IllegalArgument);
    }
    if sequence_number < 0 || sequence_number > 0xffff {
        return Err(ServiceError::IllegalArgument);
    }
    if data.len() > max_buf_len || data.len() >= 0x1000 {
        return Err(ServiceError::PayloadTooLarge);
    }
    Ok(IsoData::new(handle as u16, sequence_number as u16, data))
}

} // verus!
