//! Transmit arbiter: a bounded, credit-tracked multiplexer of ISO packets.
//!
//! The arbiter owns the sole producer-to-controller ISO path during a
//! session. Two FIFO queues feed it, in fixed priority order: audio packets
//! from the offload client, then incoming packets from the host stack. A
//! packet may leave only while the total number of packets in transit is
//! below the controller's buffer count; the audio queue always wins when
//! both are eligible. Packets for handles the arbiter does not track are
//! silently dropped.

use vstd::prelude::*;

use crate::data::IsoData;

verus! {

/// The in-transit table has at most one entry per connection handle.
pub open spec fn unique_keys(s: Seq<(u16, usize)>) -> bool {
    forall|i: int, j: int|
        0 <= i < j < s.len() ==> (#[trigger] s[i]).0 != (#[trigger] s[j]).0
}

/// Whether the in-transit table has an entry for a handle.
pub open spec fn it_tracked(s: Seq<(u16, usize)>, h: u16) -> bool {
    exists|i: int| 0 <= i < s.len() && (#[trigger] s[i]).0 == h
}

/// The position of a handle's entry in the in-transit table.
pub open spec fn it_index(s: Seq<(u16, usize)>, h: u16) -> int {
    choose|i: int| 0 <= i < s.len() && (#[trigger] s[i]).0 == h
}

/// The in-transit count of a handle.
pub open spec fn it_count(s: Seq<(u16, usize)>, h: u16) -> usize {
    s[it_index(s, h)].1
}

/// The total number of packets in transit, over all handles.
pub open spec fn it_total(s: Seq<(u16, usize)>) -> int
    decreases s.len(),
{
    if s.len() == 0 {
        0
    } else {
        it_total(s.drop_last()) + s.last().1
    }
}

/// The total is never negative.
pub proof fn lemma_it_total_nonneg(s: Seq<(u16, usize)>)
    ensures
        it_total(s) >= 0,
    decreases s.len(),
{
    if s.len() > 0 {
        lemma_it_total_nonneg(s.drop_last());
    }
}

/// Adding an entry adds its count to the total.
pub proof fn lemma_it_total_push(s: Seq<(u16, usize)>, v: (u16, usize))
    ensures
        it_total(s.push(v)) == it_total(s) + v.1,
{
    assert(s.push(v).drop_last() =~= s);
}

/// Replacing one entry moves the total by the difference of the counts.
pub proof fn lemma_it_total_update(s: Seq<(u16, usize)>, i: int, v: (u16, usize))
    requires
        0 <= i < s.len(),
    ensures
        it_total(s.update(i, v)) == it_total(s) - s[i].1 + v.1,
    decreases s.len(),
{
    if i == s.len() - 1 {
        assert(s.update(i, v).drop_last() =~= s.drop_last());
    } else {
        assert(s.update(i, v).drop_last() =~= s.drop_last().update(i, v));
        lemma_it_total_update(s.drop_last(), i, v);
    }
}

/// Removing one entry removes its count from the total.
pub proof fn lemma_it_total_remove(s: Seq<(u16, usize)>, i: int)
    requires
        0 <= i < s.len(),
    ensures
        it_total(s.remove(i)) == it_total(s) - s[i].1,
    decreases s.len(),
{
    if i == s.len() - 1 {
        assert(s.remove(i) =~= s.drop_last());
    } else {
        assert(s.remove(i).drop_last() =~= s.drop_last().remove(i));
        lemma_it_total_remove(s.drop_last(), i);
    }
}

/// No entry counts more than the total.
pub proof fn lemma_it_total_ge_elem(s: Seq<(u16, usize)>, i: int)
    requires
        0 <= i < s.len(),
    ensures
        it_total(s) >= s[i].1,
    decreases s.len(),
{
    if i == s.len() - 1 {
        lemma_it_total_nonneg(s.drop_last());
    } else {
        lemma_it_total_ge_elem(s.drop_last(), i);
    }
}

/// A transmit queue as a sequence of handle and packet bytes pairs.
pub open spec fn queue_view(q: Seq<(u16, Vec<u8>)>) -> Seq<(u16, Seq<u8>)> {
    q.map_values(|p: (u16, Vec<u8>)| (p.0, p.1@))
}

/// The predicate keeping every entry but one handle's.
pub open spec fn keeps_other_handles(h: u16) -> spec_fn((u16, Seq<u8>)) -> bool {
    |p: (u16, Seq<u8>)| p.0 != h
}

/// No entry of a queue belongs to a handle.
pub open spec fn queue_absent(q: Seq<(u16, Seq<u8>)>, h: u16) -> bool {
    forall|i: int| 0 <= i < q.len() ==> (#[trigger] q[i]).0 != h
}

/// Every entry of a queue belongs to a tracked handle.
pub open spec fn queue_tracked(q: Seq<(u16, Seq<u8>)>, s: Seq<(u16, usize)>) -> bool {
    forall|i: int| 0 <= i < q.len() ==> it_tracked(s, (#[trigger] q[i]).0)
}

/// Bounded, credit-tracked multiplexer of serialized ISO packets.
pub struct Arbiter {
    max_buf_len: usize,
    max_buf_count: usize,
    total: usize,
    audio_queue: Vec<(u16, Vec<u8>)>,
    incoming_queue: Vec<(u16, Vec<u8>)>,
    in_transit: Vec<(u16, usize)>,
}

impl Arbiter {
    /// Largest ISO payload the controller accepts, in bytes.
    pub closed spec fn spec_max_buf_len(&self) -> usize {
        self.max_buf_len
    }

    /// Number of ISO packets the controller can hold at once.
    pub closed spec fn spec_max_buf_count(&self) -> usize {
        self.max_buf_count
    }

    /// The audio (offload client) queue, highest priority.
    pub closed spec fn audio(&self) -> Seq<(u16, Seq<u8>)> {
        queue_view(self.audio_queue@)
    }

    /// The incoming (host stack) queue.
    pub closed spec fn incoming(&self) -> Seq<(u16, Seq<u8>)> {
        queue_view(self.incoming_queue@)
    }

    /// The in-transit table: per tracked handle, how many of its packets
    /// were sent to the controller and not yet acknowledged.
    pub closed spec fn credits(&self) -> Seq<(u16, usize)> {
        self.in_transit@
    }

    /// The cached total of the in-transit counts.
    pub closed spec fn spec_total(&self) -> usize {
        self.total
    }

    /// The limits are fixed for the arbiter's lifetime.
    pub open spec fn same_limits(&self, other: &Arbiter) -> bool {
        self.spec_max_buf_len() == other.spec_max_buf_len() && self.spec_max_buf_count()
            == other.spec_max_buf_count()
    }

    /// The arbiter's invariant: one entry per handle, every queued packet
    /// belongs to a tracked handle, and the credit bound holds: the total
    /// number of packets in transit never exceeds the buffer count.
    pub open spec fn wf(&self) -> bool {
        &&& unique_keys(self.credits())
        &&& self.spec_total() == it_total(self.credits())
        &&& it_total(self.credits()) <= self.spec_max_buf_count()
        &&& queue_tracked(self.audio(), self.credits())
        &&& queue_tracked(self.incoming(), self.credits())
    }

    /// A new arbiter for a session with the controller's reported limits:
    /// nothing tracked, nothing queued, nothing in transit.
    pub fn new(max_buf_len: usize, max_buf_count: usize) -> (r: Arbiter)
        ensures
            r.wf(),
            r.spec_max_buf_len() == max_buf_len,
            r.spec_max_buf_count() == max_buf_count,
            r.audio() == Seq::<(u16, Seq<u8>)>::empty(),
            r.incoming() == Seq::<(u16, Seq<u8>)>::empty(),
            r.credits() == Seq::<(u16, usize)>::empty(),
    {
        let r = Arbiter {
            max_buf_len,
            max_buf_count,
            total: 0,
            audio_queue: Vec::new(),
            incoming_queue: Vec::new(),
            in_transit: Vec::new(),
        };
        proof {
            assert(r.audio() =~= Seq::<(u16, Seq<u8>)>::empty());
            assert(r.incoming() =~= Seq::<(u16, Seq<u8>)>::empty());
        }
        r
    }

    /// Largest ISO payload the controller accepts, in bytes.
    pub fn max_buf_len(&self) -> (r: usize)
        ensures
            r == self.spec_max_buf_len(),
    {
        self.max_buf_len
    }

    /// Whether a handle is currently tracked.
    pub fn is_tracked(&self, handle: u16) -> (r: bool)
        ensures
            r == it_tracked(self.credits(), handle),
    {
        let n = self.in_transit.len();
        for i in 0..n
            invariant
                n == self.credits().len(),
            forall|j: int| 0 <= j < i ==> (#[trigger] self.credits()[j]).0 != handle,
        {
            if self.in_transit[i].0 == handle {
                return true;
            }
        }
        false
    }

    /// Start tracking a handle with no packets in transit. Registering a
    /// handle twice is a protocol violation, which the caller rules out.
    pub fn add_connection(&mut self, handle: u16)
        requires
            old(self).wf(),
            !it_tracked(old(self).credits(), handle),
        ensures
            final(self).wf(),
            final(self).same_limits(old(self)),
            final(self).credits() == old(self).credits().push((handle, 0usize)),
            final(self).audio() == old(self).audio(),
            final(self).incoming() == old(self).incoming(),
            it_total(final(self).credits()) == it_total(old(self).credits()),
    {
        proof {
            lemma_it_total_push(self.credits(), (handle, 0usize));
        }
        self.in_transit.push((handle, 0));
        proof {
            let olds = old(self).credits();
            let news = self.credits();
            assert forall|i: int| 0 <= i < olds.len() implies (#[trigger] news[i]).0 != handle by {
                assert(olds[i] == news[i]);
                assert(!it_tracked(olds, handle));
            }
            assert forall|k: int|
                0 <= k < self.audio().len() implies it_tracked(
                news,
                (#[trigger] self.audio()[k]).0,
            ) by {
                let h2 = self.audio()[k].0;
                assert(it_tracked(olds, h2));
                let j = it_index(olds, h2);
                assert(news[j].0 == h2);
            }
            assert forall|k: int|
                0 <= k < self.incoming().len() implies it_tracked(
                news,
                (#[trigger] self.incoming()[k]).0,
            ) by {
                let h2 = self.incoming()[k].0;
                assert(it_tracked(olds, h2));
                let j = it_index(olds, h2);
                assert(news[j].0 == h2);
            }
        }
    }

    /// Stop tracking a handle: drop its queued packets from both queues and
    /// forget its in-transit count, freeing that share of the buffer.
    #[verifier::loop_isolation(false)]
    pub fn remove_connection(&mut self, handle: u16)
        requires
            old(self).wf(),
        ensures
            final(self).wf(),
            final(self).same_limits(old(self)),
            !it_tracked(final(self).credits(), handle),
            final(self).audio() == old(self).audio().filter(keeps_other_handles(handle)),
            final(self).incoming() == old(self).incoming().filter(keeps_other_handles(handle)),
            forall|h2: u16|
                h2 != handle ==> #[trigger] it_tracked(final(self).credits(), h2) == it_tracked(
                    old(self).credits(),
                    h2,
                ),
            forall|h2: u16|
                h2 != handle && it_tracked(old(self).credits(), h2) ==> #[trigger] it_count(
                    final(self).credits(),
                    h2,
                ) == it_count(old(self).credits(), h2),
            it_total(final(self).credits()) <= it_total(old(self).credits()),
    {
        let ghost old_self = *self;
        self.drop_queued(handle, true);
        self.drop_queued(handle, false);
        let n = self.in_transit.len();
        for i in 0..n
            invariant
                self.wf(),
                self.same_limits(&old_self),
                n == self.credits().len(),
                self.audio() == old_self.audio().filter(keeps_other_handles(handle)),
                self.incoming() == old_self.incoming().filter(keeps_other_handles(handle)),
                self.credits() == old_self.credits(),
                forall|j: int| 0 <= j < i ==> (#[trigger] self.credits()[j]).0 != handle,
        {
            if self.in_transit[i].0 == handle {
                let c = self.in_transit[i].1;
                proof {
                    lemma_it_total_remove(self.credits(), i as int);
                    lemma_it_total_ge_elem(self.credits(), i as int);
                    lemma_it_total_nonneg(self.credits().remove(i as int));
                }
                self.total = self.total - c;
                self.in_transit.remove(i);
                proof {
                    assert forall|k: int|
                        0 <= k < self.credits().len() implies (#[trigger] self.credits()[k]).0
                        != handle by {
                        if k < i {
                        } else {
                            assert(self.credits()[k] == old_self.credits()[k + 1]);
                        }
                    }
                    assert forall|k: int|
                        0 <= k < self.audio().len() implies it_tracked(
                        self.credits(),
                        (#[trigger] self.audio()[k]).0,
                    ) by {
                        assert(self.audio()[k].0 != handle);
                        let h2 = self.audio()[k].0;
                        let j = it_index(old_self.credits(), h2);
                        assert(it_tracked(old_self.credits(), h2));
                        if j < i {
                            assert(self.credits()[j] == old_self.credits()[j]);
                        } else {
                            assert(self.credits()[j - 1] == old_self.credits()[j]);
                        }
                    }
                    assert forall|k: int|
                        0 <= k < self.incoming().len() implies it_tracked(
                        self.credits(),
                        (#[trigger] self.incoming()[k]).0,
                    ) by {
                        assert(self.incoming()[k].0 != handle);
                        let h2 = self.incoming()[k].0;
                        let j = it_index(old_self.credits(), h2);
                        assert(it_tracked(old_self.credits(), h2));
                        if j < i {
                            assert(self.credits()[j] == old_self.credits()[j]);
                        } else {
                            assert(self.credits()[j - 1] == old_self.credits()[j]);
                        }
                    }
                }
                proof {
                    lemma_tracking_after_remove(old_self.credits(), i as int, handle);
                }
                return ;
            }
        }
    }

    /// Drop every queued packet of a handle from one queue.
    #[verifier::loop_isolation(false)]
    fn drop_queued(&mut self, handle: u16, audio: bool)
        requires
            old(self).wf(),
        ensures
            final(self).wf(),
            final(self).same_limits(old(self)),
            final(self).credits() == old(self).credits(),
            audio ==> final(self).audio() == old(self).audio().filter(
                keeps_other_handles(handle),
            ) && final(self).incoming() == old(self).incoming(),
            !audio ==> final(self).incoming() == old(self).incoming().filter(
                keeps_other_handles(handle),
            ) && final(self).audio() == old(self).audio(),
    {
        broadcast use Seq::lemma_filter_push;

        let ghost old_self = *self;
        let q = if audio {
            &self.audio_queue
        } else {
            &self.incoming_queue
        };
        let n = q.len();
        let mut kept: Vec<(u16, Vec<u8>)> = Vec::new();
        let ghost old_q = if audio {
            old_self.audio()
        } else {
            old_self.incoming()
        };
        let ghost pred = keeps_other_handles(handle);
        proof {
            assert(old_q.take(0) =~= Seq::<(u16, Seq<u8>)>::empty());
            assert(queue_view(kept@) =~= old_q.take(0).filter(pred));
        }
        for i in 0..n
            invariant
                n == old_q.len(),
                audio ==> self.audio_queue@.len() == n,
                !audio ==> self.incoming_queue@.len() == n,
                audio ==> queue_view(self.audio_queue@) == old_q,
                !audio ==> queue_view(self.incoming_queue@) == old_q,
                queue_view(kept@) == old_q.take(i as int).filter(pred),
        {
            let q = if audio {
                &self.audio_queue
            } else {
                &self.incoming_queue
            };
            let ghost kept_before = queue_view(kept@);
            if q[i].0 != handle {
                let h = q[i].0;
                let mut bytes: Vec<u8> = Vec::new();
                bytes.extend_from_slice(q[i].1.as_slice());
                proof {
                    assert(bytes@ =~= old_q[i as int].1);
                }
                kept.push((h, bytes));
                proof {
                    assert(queue_view(kept@) =~= kept_before.push(old_q[i as int]));
                }
            }
            proof {
                assert(old_q.take(i + 1) =~= old_q.take(i as int).push(old_q[i as int]));
                Seq::lemma_filter_push(old_q.take(i as int), old_q[i as int], pred);
                assert(queue_view(kept@) =~= old_q.take(i + 1).filter(pred));
            }
        }
        proof {
            assert(old_q.take(n as int) =~= old_q);
        }
        if audio {
            self.audio_queue = kept;
        } else {
            self.incoming_queue = kept;
        }
        proof {
            assert forall|k: int|
                0 <= k < final(self).audio().len() implies it_tracked(
                final(self).credits(),
                (#[trigger] final(self).audio()[k]).0,
            ) by {
                if audio {
                    let elem = final(self).audio()[k];
                    assert(old_q.filter(pred).contains(elem));
                    Seq::lemma_filter_contains_rev(old_q, pred, elem);
                    let j = choose|j: int| 0 <= j < old_q.len() && old_q[j] == elem;
                    assert(it_tracked(old_self.credits(), old_q[j].0));
                }
            }
            assert forall|k: int|
                0 <= k < final(self).incoming().len() implies it_tracked(
                final(self).credits(),
                (#[trigger] final(self).incoming()[k]).0,
            ) by {
                if !audio {
                    let elem = final(self).incoming()[k];
                    assert(old_q.filter(pred).contains(elem));
                    Seq::lemma_filter_contains_rev(old_q, pred, elem);
                    let j = choose|j: int| 0 <= j < old_q.len() && old_q[j] == elem;
                    assert(it_tracked(old_self.credits(), old_q[j].0));
                }
            }
        }
    }
}

/// After removing a handle's entry, that handle is untracked and every
/// other handle keeps its tracking and its count.
pub proof fn lemma_tracking_after_remove(s: Seq<(u16, usize)>, i: int, handle: u16)
    requires
        unique_keys(s),
        0 <= i < s.len(),
        s[i].0 == handle,
    ensures
        !it_tracked(s.remove(i), handle),
        forall|h2: u16|
            h2 != handle ==> #[trigger] it_tracked(s.remove(i), h2) == it_tracked(s, h2),
        forall|h2: u16|
            h2 != handle && it_tracked(s, h2) ==> #[trigger] it_count(s.remove(i), h2) == it_count(
                s,
                h2,
            ),
{
    let t = s.remove(i);
    assert forall|k: int| 0 <= k < t.len() implies (#[trigger] t[k]).0 != handle by {
        if k < i {
        } else {
            assert(t[k] == s[k + 1]);
        }
    }
    assert forall|h2: u16| h2 != handle && it_tracked(s, h2) implies #[trigger] it_tracked(
        t,
        h2,
    ) by {
        let j = it_index(s, h2);
        if j < i {
            assert(t[j] == s[j]);
        } else {
            assert(t[j - 1] == s[j]);
        }
    }
    assert forall|h2: u16| h2 != handle && it_tracked(t, h2) implies #[trigger] it_tracked(
        s,
        h2,
    ) by {
        let j = it_index(t, h2);
        if j < i {
            assert(s[j] == t[j]);
        } else {
            assert(s[j + 1] == t[j]);
        }
    }
    assert forall|h2: u16| h2 != handle && it_tracked(s, h2) implies #[trigger] it_count(t, h2)
        == it_count(s, h2) by {
        let j = it_index(s, h2);
        assert(0 <= j < s.len() && s[j].0 == h2);
        assert(it_tracked(t, h2));
        let j2 = it_index(t, h2);
        assert(0 <= j2 < t.len() && t[j2].0 == h2);
        if j2 < i {
            assert(t[j2] == s[j2]);
            assert(s[j2].0 == h2 && s[j].0 == h2);
            assert(j2 == j);
        } else {
            assert(t[j2] == s[j2 + 1]);
            assert(s[j2 + 1].0 == h2 && s[j].0 == h2);
            assert(j2 + 1 == j);
        }
    }
}

impl Arbiter {
    /// Queue a packet from one producer: serialized, appended at the back
    /// of that producer's queue when its handle is tracked, and silently
    /// dropped when it is not.
    fn push(&mut self, audio: bool, iso_data: &IsoData)
        requires
            old(self).wf(),
            iso_data.wf(),
            iso_data.payload@.len() <= old(self).spec_max_buf_len(),
        ensures
            final(self).wf(),
            final(self).same_limits(old(self)),
            final(self).credits() == old(self).credits(),
            it_tracked(old(self).credits(), iso_data.connection_handle) ==> {
                &&& audio ==> final(self).audio() == old(self).audio().push(
                    (iso_data.connection_handle, iso_data.spec_bytes()),
                ) && final(self).incoming() == old(self).incoming()
                &&& !audio ==> final(self).incoming() == old(self).incoming().push(
                    (iso_data.connection_handle, iso_data.spec_bytes()),
                ) && final(self).audio() == old(self).audio()
            },
            !it_tracked(old(self).credits(), iso_data.connection_handle) ==> final(self).audio()
                == old(self).audio() && final(self).incoming() == old(self).incoming(),
    {
        let handle = iso_data.connection_handle;
        let data = iso_data.to_bytes();
        if self.is_tracked(handle) {
            if audio {
                self.audio_queue.push((handle, data));
                proof {
                    assert(final(self).audio() =~= old(self).audio().push(
                        (iso_data.connection_handle, iso_data.spec_bytes()),
                    ));
                }
            } else {
                self.incoming_queue.push((handle, data));
                proof {
                    assert(final(self).incoming() =~= old(self).incoming().push(
                        (iso_data.connection_handle, iso_data.spec_bytes()),
                    ));
                }
            }
        }
    }

    /// Queue a packet from the host stack (lower priority).
    pub fn push_incoming(&mut self, iso_data: &IsoData)
        requires
            old(self).wf(),
            iso_data.wf(),
            iso_data.payload@.len() <= old(self).spec_max_buf_len(),
        ensures
            final(self).wf(),
            final(self).same_limits(old(self)),
            final(self).credits() == old(self).credits(),
            final(self).audio() == old(self).audio(),
            it_tracked(old(self).credits(), iso_data.connection_handle) ==> final(self).incoming()
                == old(self).incoming().push(
                (iso_data.connection_handle, iso_data.spec_bytes()),
            ),
            !it_tracked(old(self).credits(), iso_data.connection_handle) ==> final(self).incoming()
                == old(self).incoming(),
    {
        self.push(false, iso_data);
    }

    /// Queue a packet from the offload client (higher priority).
    pub fn push_audio(&mut self, iso_data: &IsoData)
        requires
            old(self).wf(),
            iso_data.wf(),
            iso_data.payload@.len() <= old(self).spec_max_buf_len(),
        ensures
            final(self).wf(),
            final(self).same_limits(old(self)),
            final(self).credits() == old(self).credits(),
            final(self).incoming() == old(self).incoming(),
            it_tracked(old(self).credits(), iso_data.connection_handle) ==> final(self).audio()
                == old(self).audio().push((iso_data.connection_handle, iso_data.spec_bytes())),
            !it_tracked(old(self).credits(), iso_data.connection_handle) ==> final(self).audio()
                == old(self).audio(),
    {
        self.push(true, iso_data);
    }

    /// Credit completed packets back: the handle's in-transit count drops
    /// by the acknowledged number, saturating at zero; an untracked handle
    /// is ignored.
    #[verifier::loop_isolation(false)]
    pub fn set_completed(&mut self, handle: u16, num: usize)
        requires
            old(self).wf(),
        ensures
            final(self).wf(),
            final(self).same_limits(old(self)),
            final(self).audio() == old(self).audio(),
            final(self).incoming() == old(self).incoming(),
            !it_tracked(old(self).credits(), handle) ==> final(self).credits() == old(
                self,
            ).credits(),
            it_tracked(old(self).credits(), handle) ==> {
                let s = old(self).credits();
                let i = it_index(s, handle);
                let c = s[i].1;
                final(self).credits() == s.update(
                    i,
                    (handle, if num <= c {
                        (c - num) as usize
                    } else {
                        0usize
                    }),
                )
            },
            it_total(final(self).credits()) <= it_total(old(self).credits()),
    {
        let n = self.in_transit.len();
        for i in 0..n
            invariant
                *self == *old(self),
                forall|j: int| 0 <= j < i ==> (#[trigger] self.credits()[j]).0 != handle,
        {
            if self.in_transit[i].0 == handle {
                let c = self.in_transit[i].1;
                let c2: usize = if num <= c {
                    c - num
                } else {
                    0
                };
                proof {
                    lemma_it_total_update(self.credits(), i as int, (handle, c2));
                    lemma_it_total_ge_elem(self.credits(), i as int);
                    lemma_it_total_nonneg(self.credits());
                    assert(it_index(self.credits(), handle) == i);
                }
                self.total = self.total - (c - c2);
                self.in_transit.set(i, (handle, c2));
                proof {
                    lemma_update_count_tracking(old(self).credits(), i as int, (handle, c2));
                }
                return ;
            }
        }
    }

    /// Take the next eligible packet: while the credit bound leaves room,
    /// the head of the audio queue, else the head of the incoming queue;
    /// its handle's in-transit count rises by one. Nothing is eligible when
    /// the buffer is full or both queues are empty.
    #[verifier::loop_isolation(false)]
    pub fn pull(&mut self) -> (res: Option<(u16, Vec<u8>)>)
        requires
            old(self).wf(),
        ensures
            final(self).wf(),
            final(self).same_limits(old(self)),
            match res {
                None => final(self).audio() == old(self).audio() && final(self).incoming() == old(
                    self,
                ).incoming() && final(self).credits() == old(self).credits() && (it_total(
                    old(self).credits(),
                ) >= old(self).spec_max_buf_count() || (old(self).audio().len() == 0 && old(
                    self,
                ).incoming().len() == 0)),
                Some((h, bytes)) => {
                    &&& it_total(old(self).credits()) < old(self).spec_max_buf_count()
                    &&& it_tracked(old(self).credits(), h)
                    &&& it_total(final(self).credits()) == it_total(old(self).credits()) + 1
                    &&& final(self).credits() == old(self).credits().update(
                        it_index(old(self).credits(), h),
                        (h, (it_count(old(self).credits(), h) + 1) as usize),
                    )
                    &&& old(self).audio().len() > 0 ==> (h, bytes@) == old(self).audio()[0]
                        && final(self).audio() == old(self).audio().drop_first()
                        && final(self).incoming() == old(self).incoming()
                    &&& old(self).audio().len() == 0 ==> old(self).incoming().len() > 0
                        && (h, bytes@) == old(self).incoming()[0]
                        && final(self).incoming() == old(self).incoming().drop_first()
                        && final(self).audio() == old(self).audio()
                },
            },
    {
        if self.total >= self.max_buf_count {
            return None;
        }
        if self.audio_queue.len() > 0 {
            let entry = self.audio_queue.remove(0);
            let h = entry.0;
            let bytes = entry.1;
            proof {
                assert(entry == old(self).audio_queue@[0]);
                assert((h, bytes@) == old(self).audio()[0]);
                assert(self.audio() =~= old(self).audio().drop_first());
                assert(it_tracked(self.credits(), h));
            }
            self.bump(h);
            return Some((h, bytes));
        }
        if self.incoming_queue.len() > 0 {
            let entry = self.incoming_queue.remove(0);
            let h = entry.0;
            let bytes = entry.1;
            proof {
                assert(entry == old(self).incoming_queue@[0]);
                assert((h, bytes@) == old(self).incoming()[0]);
                assert(self.incoming() =~= old(self).incoming().drop_first());
                assert(it_tracked(self.credits(), h));
            }
            self.bump(h);
            return Some((h, bytes));
        }
        None
    }

    /// Count one more packet of a tracked handle as in transit.
    #[verifier::loop_isolation(false)]
    fn bump(&mut self, handle: u16)
        requires
            old(self).wf(),
            it_tracked(old(self).credits(), handle),
            it_total(old(self).credits()) < old(self).spec_max_buf_count(),
        ensures
            final(self).wf(),
            final(self).same_limits(old(self)),
            final(self).audio() == old(self).audio(),
            final(self).incoming() == old(self).incoming(),
            final(self).credits() == old(self).credits().update(
                it_index(old(self).credits(), handle),
                (handle, (it_count(old(self).credits(), handle) + 1) as usize),
            ),
            it_total(final(self).credits()) == it_total(old(self).credits()) + 1,
    {
        let n = self.in_transit.len();
        for i in 0..n
            invariant
                *self == *old(self),
                forall|j: int| 0 <= j < i ==> (#[trigger] self.credits()[j]).0 != handle,
        {
            if self.in_transit[i].0 == handle {
                let c = self.in_transit[i].1;
                proof {
                    lemma_it_total_ge_elem(self.credits(), i as int);
                    lemma_it_total_nonneg(self.credits());
                    lemma_it_total_update(self.credits(), i as int, (handle, (c + 1) as usize));
                    assert(it_index(self.credits(), handle) == i);
                }
                self.total = self.total + 1;
                self.in_transit.set(i, (handle, c + 1));
                proof {
                    lemma_update_count_tracking(old(self).credits(), i as int, (handle, (c
                        + 1) as usize));
                }
                return ;
            }
        }
        proof {
            assert(false);
        }
    }
}

/// Updating one entry in place keeps the key set and every other count.
pub proof fn lemma_update_count_tracking(s: Seq<(u16, usize)>, i: int, v: (u16, usize))
    requires
        unique_keys(s),
        0 <= i < s.len(),
        s[i].0 == v.0,
    ensures
        unique_keys(s.update(i, v)),
        forall|h2: u16| #[trigger] it_tracked(s.update(i, v), h2) == it_tracked(s, h2),
{
    let t = s.update(i, v);
    assert forall|h2: u16| it_tracked(s, h2) implies #[trigger] it_tracked(t, h2) by {
        let j = it_index(s, h2);
        assert(t[j].0 == s[j].0);
    }
    assert forall|h2: u16| it_tracked(t, h2) implies #[trigger] it_tracked(s, h2) by {
        let j = it_index(t, h2);
        assert(s[j].0 == t[j].0);
    }
}


/// Credit bound: in every well-formed arbiter state, the total number of
/// packets in transit is at most the controller's buffer count.
pub proof fn lemma_credit_bound(a: &Arbiter)
    requires
        a.wf(),
    ensures
        it_total(a.credits()) <= a.spec_max_buf_count(),
{
}

/// Drop on unknown or removed handle: a handle that is not tracked has no
/// packet queued, so no pull can emit a packet for it while it stays
/// untracked.
pub proof fn lemma_untracked_not_queued(a: &Arbiter, handle: u16)
    requires
        a.wf(),
        !it_tracked(a.credits(), handle),
    ensures
        queue_absent(a.audio(), handle),
        queue_absent(a.incoming(), handle),
{
    assert forall|i: int| 0 <= i < a.audio().len() implies (#[trigger] a.audio()[i]).0
        != handle by {
        assert(it_tracked(a.credits(), a.audio()[i].0));
    }
    assert forall|i: int| 0 <= i < a.incoming().len() implies (#[trigger] a.incoming()[i]).0
        != handle by {
        assert(it_tracked(a.credits(), a.incoming()[i].0));
    }
}

/// What one `pull` does to the two queues, as its contract states it: a
/// successful pull pops the head of the audio queue while that queue is
/// non-empty (strict priority), else the head of the incoming queue.
pub open spec fn pull_step(pre: Arbiter, post: Arbiter, res: Option<(u16, Seq<u8>)>) -> bool {
    match res {
        Option::None => post.audio() == pre.audio() && post.incoming() == pre.incoming(),
        Option::Some(p) => if pre.audio().len() > 0 {
            p == pre.audio()[0] && post.audio() == pre.audio().drop_first() && post.incoming()
                == pre.incoming()
        } else {
            pre.incoming().len() > 0 && p == pre.incoming()[0] && post.incoming()
                == pre.incoming().drop_first() && post.audio() == pre.audio()
        },
    }
}

/// A run of pulls: consecutive states related step by step by `pull_step`.
pub open spec fn pull_run(states: Seq<Arbiter>, results: Seq<Option<(u16, Seq<u8>)>>) -> bool {
    states.len() == results.len() + 1 && forall|i: int|
        0 <= i < results.len() ==> pull_step(states[i], states[i + 1], #[trigger] results[i])
}

/// How many of the first `k` steps of a run emitted from the audio queue.
pub open spec fn n_audio(states: Seq<Arbiter>, results: Seq<Option<(u16, Seq<u8>)>>, k: int) -> int
    decreases k,
{
    if k <= 0 {
        0
    } else {
        n_audio(states, results, k - 1) + if results[k - 1] is Some && states[k - 1].audio().len()
            > 0 {
            1int
        } else {
            0int
        }
    }
}

/// How many of the first `k` steps of a run emitted from the incoming queue.
pub open spec fn n_incoming(
    states: Seq<Arbiter>,
    results: Seq<Option<(u16, Seq<u8>)>>,
    k: int,
) -> int
    decreases k,
{
    if k <= 0 {
        0
    } else {
        n_incoming(states, results, k - 1) + if results[k - 1] is Some && states[k - 1].audio().len()
            == 0 {
            1int
        } else {
            0int
        }
    }
}

/// FIFO per producer. Over any run of pulls, each producer's queue only
/// loses its front: after `k` steps the audio queue is the original one
/// with its first `n_audio` entries gone, and the step that emitted the
/// `m`-th audio packet emitted exactly the `m`-th entry of the original
/// audio queue; likewise for the incoming queue. Since pushes append at the
/// back, for any producer and handle the packets leave in push order.
#[verifier::rlimit(50)]
pub proof fn lemma_fifo_emission_order(
    states: Seq<Arbiter>,
    results: Seq<Option<(u16, Seq<u8>)>>,
    k: int,
)
    requires
        pull_run(states, results),
        0 <= k <= results.len(),
    ensures
        0 <= n_audio(states, results, k) <= states[0].audio().len(),
        0 <= n_incoming(states, results, k) <= states[0].incoming().len(),
        states[k].audio() == states[0].audio().skip(n_audio(states, results, k)),
        states[k].incoming() == states[0].incoming().skip(n_incoming(states, results, k)),
        forall|j: int|
            0 <= j < k && #[trigger] results[j] is Some && states[j].audio().len() > 0
                ==> results[j]->0 == states[0].audio()[n_audio(states, results, j)],
        forall|j: int|
            0 <= j < k && #[trigger] results[j] is Some && states[j].audio().len() == 0
                ==> results[j]->0 == states[0].incoming()[n_incoming(states, results, j)],
    decreases k,
{
    if k == 0 {
        assert(states[0].audio().skip(0) =~= states[0].audio());
        assert(states[0].incoming().skip(0) =~= states[0].incoming());
    } else {
        lemma_fifo_emission_order(states, results, k - 1);
        let na = n_audio(states, results, k - 1);
        let ni = n_incoming(states, results, k - 1);
        assert(pull_step(states[k - 1], states[k], results[k - 1]));
        match results[k - 1] {
            Option::None => {},
            Option::Some(p) => {
                if states[k - 1].audio().len() > 0 {
                    assert(states[0].audio().skip(na).drop_first() =~= states[0].audio().skip(
                        na + 1,
                    ));
                    assert(p == states[0].audio()[na]);
                } else {
                    assert(states[0].incoming().skip(ni).drop_first() =~= states[0].incoming().skip(
                        ni + 1,
                    ));
                    assert(p == states[0].incoming()[ni]);
                }
            },
        }
    }
}

/// Drop on disconnect: once a handle has no packet queued on either queue,
/// a run of pulls never emits a packet for it.
pub proof fn lemma_no_emission_after_remove(
    states: Seq<Arbiter>,
    results: Seq<Option<(u16, Seq<u8>)>>,
    handle: u16,
)
    requires
        pull_run(states, results),
        queue_absent(states[0].audio(), handle),
        queue_absent(states[0].incoming(), handle),
    ensures
        forall|j: int|
            0 <= j < results.len() && #[trigger] results[j] is Some ==> (results[j]->0).0 != handle,
{
    assert forall|j: int|
        0 <= j < results.len() && #[trigger] results[j] is Some implies (results[j]->0).0
        != handle by {
        lemma_fifo_emission_order(states, results, j);
        assert(pull_step(states[j], states[j + 1], results[j]));
        if states[j].audio().len() > 0 {
            assert(results[j]->0 == states[j].audio()[0]);
            assert(states[j].audio()[0] == states[0].audio().skip(n_audio(states, results, j))[0]);
        } else {
            assert(results[j]->0 == states[j].incoming()[0]);
        }
    }
}


/// The predicate keeping every entry whose handle is outside a set.
pub open spec fn keeps_handles_outside(hs: Seq<u16>) -> spec_fn((u16, Seq<u8>)) -> bool {
    |p: (u16, Seq<u8>)| !hs.contains(p.0)
}

impl Arbiter {
    /// Stop tracking a set of handles at once: their queued packets are
    /// dropped from both queues and their in-transit counts forgotten;
    /// every other handle keeps its packets, order kept, and its count.
    #[verifier::loop_isolation(false)]
    #[verifier::rlimit(50)]
    pub fn remove_connections(&mut self, handles: &Vec<u16>)
        requires
            old(self).wf(),
        ensures
            final(self).wf(),
            final(self).same_limits(old(self)),
            forall|h2: u16| handles@.contains(h2) ==> !it_tracked(final(self).credits(), h2),
            final(self).audio() == old(self).audio().filter(keeps_handles_outside(handles@)),
            final(self).incoming() == old(self).incoming().filter(
                keeps_handles_outside(handles@),
            ),
            forall|h2: u16|
                !handles@.contains(h2) ==> #[trigger] it_tracked(final(self).credits(), h2)
                    == it_tracked(old(self).credits(), h2),
            forall|h2: u16|
                !handles@.contains(h2) && it_tracked(old(self).credits(), h2)
                    ==> #[trigger] it_count(final(self).credits(), h2) == it_count(
                    old(self).credits(),
                    h2,
                ),
            it_total(final(self).credits()) <= it_total(old(self).credits()),
    {
        self.drop_queued_set(handles, true);
        self.drop_queued_set(handles, false);
        let ghost mid = *self;
        let n = self.in_transit.len();
        let mut kept: Vec<(u16, usize)> = Vec::new();
        let mut kept_total: usize = 0;
        proof {
            assert(mid.credits().take(0) =~= Seq::<(u16, usize)>::empty());
            assert(mid.credits().skip(0) =~= mid.credits());
            assert(kept@ =~= mid.credits().take(0).filter(credit_outside(handles@)));
        }
        for i in 0..n
            invariant
                n == mid.credits().len(),
                self.credits() == mid.credits(),
                self.audio() == mid.audio(),
                self.incoming() == mid.incoming(),
                self.same_limits(&mid),
                self.spec_total() == mid.spec_total(),
                kept@ == mid.credits().take(i as int).filter(credit_outside(handles@)),
                kept_total == it_total(kept@),
                it_total(kept@) <= it_total(mid.credits().take(i as int)),
                it_total(mid.credits().take(i as int)) + it_total(
                    mid.credits().skip(i as int),
                ) == it_total(mid.credits()),
        {
            let ghost pred = credit_outside(handles@);
            let ghost before = kept@;
            let entry = self.in_transit[i];
            proof {
                assert(mid.credits().take(i + 1) =~= mid.credits().take(i as int).push(entry));
                Seq::lemma_filter_push(mid.credits().take(i as int), entry, pred);
                lemma_it_total_push(mid.credits().take(i as int), entry);
                lemma_it_total_nonneg(mid.credits().take(i as int));
                assert(mid.credits().skip(i as int).drop_first() =~= mid.credits().skip(i + 1));
                lemma_it_total_first(mid.credits().skip(i as int));
            }
            if !vec_contains(handles, entry.0) {
                proof {
                    lemma_it_total_push(before, entry);
                    lemma_it_total_le(mid.credits().take(i as int), pred);
                    lemma_it_total_nonneg(mid.credits().skip(i + 1));
                    assert(it_total(mid.credits()) <= mid.spec_max_buf_count());
                    assert(it_total(mid.credits().take(i + 1)) <= it_total(mid.credits()));
                    assert(kept_total + entry.1 <= it_total(mid.credits()));
                }
                kept_total = kept_total + entry.1;
                kept.push(entry);
            }
        }
        proof {
            assert(mid.credits().take(n as int) =~= mid.credits());
            lemma_it_total_le(mid.credits(), credit_outside(handles@));
        }
        self.in_transit = kept;
        self.total = kept_total;
        proof {
            lemma_filtered_credits(mid.credits(), handles@);
            assert forall|k: int|
                0 <= k < self.audio().len() implies it_tracked(
                self.credits(),
                (#[trigger] self.audio()[k]).0,
            ) by {
                let elem = self.audio()[k];
                assert(mid.audio().filter(keeps_handles_outside(handles@)).contains(elem));
                Seq::lemma_filter_contains_rev(mid.audio(), keeps_handles_outside(handles@), elem);
                let j = choose|j: int| 0 <= j < mid.audio().len() && mid.audio()[j] == elem;
                assert(it_tracked(mid.credits(), elem.0));
                assert(!handles@.contains(elem.0));
            }
            assert forall|k: int|
                0 <= k < self.incoming().len() implies it_tracked(
                self.credits(),
                (#[trigger] self.incoming()[k]).0,
            ) by {
                let elem = self.incoming()[k];
                assert(mid.incoming().filter(keeps_handles_outside(handles@)).contains(elem));
                Seq::lemma_filter_contains_rev(
                    mid.incoming(),
                    keeps_handles_outside(handles@),
                    elem,
                );
                let j = choose|j: int| 0 <= j < mid.incoming().len() && mid.incoming()[j] == elem;
                assert(it_tracked(mid.credits(), elem.0));
                assert(!handles@.contains(elem.0));
            }
        }
    }

    /// Drop every queued packet of a set of handles from one queue.
    #[verifier::loop_isolation(false)]
    fn drop_queued_set(&mut self, handles: &Vec<u16>, audio: bool)
        requires
            old(self).wf(),
        ensures
            final(self).wf(),
            final(self).same_limits(old(self)),
            final(self).credits() == old(self).credits(),
            final(self).spec_total() == old(self).spec_total(),
            audio ==> final(self).audio() == old(self).audio().filter(
                keeps_handles_outside(handles@),
            ) && final(self).incoming() == old(self).incoming(),
            !audio ==> final(self).incoming() == old(self).incoming().filter(
                keeps_handles_outside(handles@),
            ) && final(self).audio() == old(self).audio(),
    {
        let ghost pred = keeps_handles_outside(handles@);
        let q = if audio {
            &self.audio_queue
        } else {
            &self.incoming_queue
        };
        let n = q.len();
        let mut kept: Vec<(u16, Vec<u8>)> = Vec::new();
        let ghost old_q = if audio {
            old(self).audio()
        } else {
            old(self).incoming()
        };
        proof {
            assert(queue_view(kept@) =~= old_q.take(0).filter(pred));
        }
        for i in 0..n
            invariant
                n == old_q.len(),
                *self == *old(self),
                queue_view(kept@) == old_q.take(i as int).filter(pred),
        {
            let q = if audio {
                &self.audio_queue
            } else {
                &self.incoming_queue
            };
            let ghost kept_before = queue_view(kept@);
            if !vec_contains(handles, q[i].0) {
                let h = q[i].0;
                let mut bytes: Vec<u8> = Vec::new();
                bytes.extend_from_slice(q[i].1.as_slice());
                proof {
                    assert(bytes@ =~= old_q[i as int].1);
                }
                kept.push((h, bytes));
                proof {
                    assert(queue_view(kept@) =~= kept_before.push(old_q[i as int]));
                }
            }
            proof {
                assert(old_q.take(i + 1) =~= old_q.take(i as int).push(old_q[i as int]));
                Seq::lemma_filter_push(old_q.take(i as int), old_q[i as int], pred);
                assert(queue_view(kept@) =~= old_q.take(i + 1).filter(pred));
            }
        }
        proof {
            assert(old_q.take(n as int) =~= old_q);
        }
        if audio {
            self.audio_queue = kept;
        } else {
            self.incoming_queue = kept;
        }
        proof {
            assert forall|k: int|
                0 <= k < final(self).audio().len() implies it_tracked(
                final(self).credits(),
                (#[trigger] final(self).audio()[k]).0,
            ) by {
                if audio {
                    let elem = final(self).audio()[k];
                    assert(old_q.filter(pred).contains(elem));
                    Seq::lemma_filter_contains_rev(old_q, pred, elem);
                    let j = choose|j: int| 0 <= j < old_q.len() && old_q[j] == elem;
                    assert(it_tracked(old(self).credits(), old_q[j].0));
                }
            }
            assert forall|k: int|
                0 <= k < final(self).incoming().len() implies it_tracked(
                final(self).credits(),
                (#[trigger] final(self).incoming()[k]).0,
            ) by {
                if !audio {
                    let elem = final(self).incoming()[k];
                    assert(old_q.filter(pred).contains(elem));
                    Seq::lemma_filter_contains_rev(old_q, pred, elem);
                    let j = choose|j: int| 0 <= j < old_q.len() && old_q[j] == elem;
                    assert(it_tracked(old(self).credits(), old_q[j].0));
                }
            }
        }
    }
}

/// Whether a handle stands in a vector.
pub fn vec_contains(hs: &Vec<u16>, h: u16) -> (r: bool)
    ensures
        r == hs@.contains(h),
{
    let n = hs.len();
    for i in 0..n
        invariant
            n == hs@.len(),
            forall|j: int| 0 <= j < i ==> hs@[j] != h,
    {
        if hs[i] == h {
            return true;
        }
    }
    false
}

/// The predicate keeping every credit entry whose handle is outside a set.
pub open spec fn credit_outside(hs: Seq<u16>) -> spec_fn((u16, usize)) -> bool {
    |p: (u16, usize)| !hs.contains(p.0)
}

/// The total of a non-empty table is its first count plus the rest.
pub proof fn lemma_it_total_first(s: Seq<(u16, usize)>)
    requires
        s.len() > 0,
    ensures
        it_total(s) == s[0].1 + it_total(s.drop_first()),
    decreases s.len(),
{
    if s.len() == 1 {
        assert(s.drop_first() =~= Seq::<(u16, usize)>::empty());
        assert(s.drop_last() =~= Seq::<(u16, usize)>::empty());
        assert(s.last() == s[0]);
    } else {
        lemma_it_total_first(s.drop_last());
        assert(s.drop_first().drop_last() =~= s.drop_last().drop_first());
        assert(s.drop_first().last() == s.last());
        assert(it_total(s.drop_first()) == it_total(s.drop_first().drop_last())
            + s.drop_first().last().1);
    }
}

/// Filtering the in-transit table never raises the total.
pub proof fn lemma_it_total_le(s: Seq<(u16, usize)>, pred: spec_fn((u16, usize)) -> bool)
    ensures
        it_total(s.filter(pred)) <= it_total(s),
    decreases s.len(),
{
    reveal(Seq::filter);
    if s.len() > 0 {
        lemma_it_total_le(s.drop_last(), pred);
        if pred(s.last()) {
            lemma_it_total_push(s.drop_last().filter(pred), s.last());
        } else {
            lemma_it_total_nonneg(s.drop_last().filter(pred));
        }
    }
}

/// A filtered in-transit table keeps exactly the entries its predicate
/// admits: unique keys stay unique, excluded handles are untracked, and
/// kept handles keep their counts.
#[verifier::rlimit(50)]
pub proof fn lemma_filtered_credits(s: Seq<(u16, usize)>, hs: Seq<u16>)
    requires
        unique_keys(s),
    ensures
        unique_keys(s.filter(credit_outside(hs))),
        forall|h2: u16| hs.contains(h2) ==> !it_tracked(s.filter(credit_outside(hs)), h2),
        forall|h2: u16|
            !hs.contains(h2) ==> #[trigger] it_tracked(s.filter(credit_outside(hs)), h2)
                == it_tracked(s, h2),
        forall|h2: u16|
            !hs.contains(h2) && it_tracked(s, h2) ==> #[trigger] it_count(
                s.filter(credit_outside(hs)),
                h2,
            ) == it_count(s, h2),
    decreases s.len(),
{
    reveal(Seq::filter);
    let pred = credit_outside(hs);
    let t = s.filter(pred);
    if s.len() == 0 {
        assert forall|h2: u16| !#[trigger] it_tracked(t, h2) by {
            if it_tracked(t, h2) {
                let j = it_index(t, h2);
            }
        }
    } else {
        let s0 = s.drop_last();
        let t0 = s0.filter(pred);
        let last = s.last();
        lemma_filtered_credits(s0, hs);
        assert forall|h2: u16| it_tracked(s0, h2) implies #[trigger] it_tracked(s, h2) by {
            let j = it_index(s0, h2);
            assert(s[j].0 == h2);
        }
        assert forall|h2: u16| h2 != last.0 && it_tracked(s, h2) implies #[trigger] it_tracked(
            s0,
            h2,
        ) && it_count(s0, h2) == it_count(s, h2) by {
            let j = it_index(s, h2);
            assert(j < s.len() - 1);
            assert(s0[j].0 == h2);
            let j0 = it_index(s0, h2);
            assert(s[j0].0 == h2);
            assert(j0 == j);
        }
        assert(it_tracked(s, last.0)) by {
            assert(s[s.len() - 1].0 == last.0);
        }
        assert(it_index(s, last.0) == s.len() - 1 && it_count(s, last.0) == last.1) by {
            let j = it_index(s, last.0);
            if j < s.len() - 1 {
                assert(s[j].0 != s[s.len() - 1].0);
            }
        }
        if pred(last) {
            assert(t == t0.push(last));
            assert forall|h2: u16| it_tracked(t0, h2) implies #[trigger] it_tracked(s0, h2) by {
                if hs.contains(h2) {
                    assert(!it_tracked(t0, h2));
                }
            }
            assert(!it_tracked(t0, last.0)) by {
                if it_tracked(t0, last.0) {
                    assert(it_tracked(s0, last.0));
                    let j = it_index(s0, last.0);
                    assert(s[j].0 != s[s.len() - 1].0);
                }
            }
            assert forall|a: int, b: int|
                0 <= a < b < t.len() implies (#[trigger] t[a]).0 != (#[trigger] t[b]).0 by {
                if b == t.len() - 1 {
                    assert(t[a] == t0[a]);
                    assert(t0[a].0 == t[a].0);
                    if t[a].0 == last.0 {
                        assert(it_tracked(t0, last.0));
                    }
                } else {
                    assert(t[a] == t0[a] && t[b] == t0[b]);
                }
            }
            assert forall|h2: u16| #[trigger] it_tracked(t, h2) implies it_tracked(t0, h2) || h2
                == last.0 by {
                let j = it_index(t, h2);
                if j < t.len() - 1 {
                    assert(t0[j].0 == h2);
                }
            }
            assert forall|h2: u16| it_tracked(t0, h2) implies #[trigger] it_tracked(t, h2) by {
                let j = it_index(t0, h2);
                assert(t[j].0 == h2);
            }
            assert forall|h2: u16|
                !hs.contains(h2) && it_tracked(s, h2) implies #[trigger] it_count(t, h2)
                    == it_count(s, h2) by {
                if h2 == last.0 {
                    assert(t[t.len() - 1] == last);
                    assert(it_tracked(t, h2));
                    let j = it_index(t, h2);
                    if j < t.len() - 1 {
                        assert(t0[j].0 == h2);
                        assert(it_tracked(t0, last.0));
                    }
                    assert(t[j] == last);
                } else {
                    assert(it_tracked(s0, h2));
                    assert(it_count(s0, h2) == it_count(s, h2));
                    assert(it_tracked(t0, h2));
                    assert(it_count(t0, h2) == it_count(s0, h2));
                    let j0 = it_index(t0, h2);
                    assert(t[j0].0 == h2);
                    let j = it_index(t, h2);
                    if j < t.len() - 1 {
                        assert(t0[j].0 == h2);
                        assert(j == j0);
                    } else {
                        assert(t[j] == last);
                        assert(h2 == last.0);
                    }
                    assert(it_count(t, h2) == it_count(t0, h2));
                }
            }
            assert forall|h2: u16|
                !hs.contains(h2) implies #[trigger] it_tracked(t, h2) == it_tracked(s, h2) by {
                if h2 == last.0 {
                    assert(t[t.len() - 1] == last);
                    assert(it_tracked(t, h2));
                    assert(it_tracked(s, h2));
                } else {
                    if it_tracked(t, h2) {
                        assert(it_tracked(t0, h2));
                        assert(it_tracked(s0, h2));
                        assert(it_tracked(s, h2));
                    }
                    if it_tracked(s, h2) {
                        assert(it_tracked(s0, h2));
                        assert(it_tracked(t0, h2));
                        assert(it_tracked(t, h2));
                    }
                }
            }
            assert forall|h2: u16| hs.contains(h2) implies !it_tracked(t, h2) by {
                if it_tracked(t, h2) {
                    let j = it_index(t, h2);
                    if j < t.len() - 1 {
                        assert(t0[j].0 == h2);
                        assert(it_tracked(t0, h2));
                    } else {
                        assert(t[j] == last);
                    }
                }
            }
        } else {
            assert(t == t0);
            assert(hs.contains(last.0));
        }
    }
}

/// Every element of a filtered sequence stands somewhere in the original.
pub proof fn lemma_filter_index_map<A>(s: Seq<A>, pred: spec_fn(A) -> bool, j: int)
    requires
        0 <= j < s.filter(pred).len(),
    ensures
        exists|i: int| 0 <= i < s.len() && s[i] == s.filter(pred)[j],
{
    assert(s.filter(pred).contains(s.filter(pred)[j]));
    Seq::lemma_filter_contains_rev(s, pred, s.filter(pred)[j]);
}


/// After adding a fresh handle's entry, that handle is tracked with its
/// count and every other handle keeps its tracking and its count.
pub proof fn lemma_tracking_after_add(s: Seq<(u16, usize)>, v: (u16, usize))
    requires
        unique_keys(s),
        !it_tracked(s, v.0),
    ensures
        unique_keys(s.push(v)),
        forall|h2: u16|
            #[trigger] it_tracked(s.push(v), h2) == (it_tracked(s, h2) || h2 == v.0),
        forall|h2: u16|
            it_tracked(s, h2) ==> #[trigger] it_count(s.push(v), h2) == it_count(s, h2),
        it_count(s.push(v), v.0) == v.1,
{
    let t = s.push(v);
    assert forall|i: int, j: int|
        0 <= i < j < t.len() implies (#[trigger] t[i]).0 != (#[trigger] t[j]).0 by {
        if j == s.len() {
            assert(s[i].0 != v.0);
        }
    }
    assert forall|h2: u16| #[trigger] it_tracked(t, h2) == (it_tracked(s, h2) || h2 == v.0) by {
        if it_tracked(s, h2) {
            let i = it_index(s, h2);
            assert(t[i].0 == h2);
        }
        if h2 == v.0 {
            assert(t[s.len() as int].0 == h2);
        }
        if it_tracked(t, h2) && h2 != v.0 {
            let i = it_index(t, h2);
            if i < s.len() {
                assert(s[i].0 == h2);
            }
        }
    }
    assert forall|h2: u16| it_tracked(s, h2) implies #[trigger] it_count(t, h2) == it_count(
        s,
        h2,
    ) by {
        let i = it_index(s, h2);
        assert(t[i].0 == h2);
        let j = it_index(t, h2);
        assert(0 <= j < t.len() && t[j].0 == h2);
        if j == s.len() {
            assert(h2 == v.0);
        } else {
            assert(s[j].0 == h2);
            assert(i == j);
        }
    }
    assert(t[s.len() as int].0 == v.0);
    let j = it_index(t, v.0);
    if j < s.len() {
        assert(s[j].0 == v.0);
    }
}


/// Priority: when the audio queue is non-empty, whatever a pull emits is
/// the head of the audio queue; the incoming queue never wins over it.
pub proof fn lemma_audio_priority(pre: Arbiter, post: Arbiter, res: Option<(u16, Seq<u8>)>)
    requires
        pull_step(pre, post, res),
        pre.audio().len() > 0,
        res is Some,
    ensures
        res->0 == pre.audio()[0],
{
}

} // verus!
