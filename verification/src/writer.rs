//! Positioned little-endian byte writer.
//!
//! A `Writer` grows a byte vector; each write appends the exact little-endian
//! encoding of its value, as stated over the spec functions of [`crate::wire`].

use vstd::prelude::*;

use crate::wire::{le16, le24, le32};

verus! {

/// Serialization onto a [`Writer`]: `write` appends exactly `wire_bytes`,
/// the value's wire encoding, whenever the value is well formed (`wf`).
pub trait Write {
    /// Whether this value can be put on the wire at all.
    spec fn wf(&self) -> bool;

    /// The exact bytes this value occupies on the wire.
    spec fn wire_bytes(&self) -> Seq<u8>;

    /// Append this value's encoding.
    fn write(&self, w: &mut Writer)
        requires
            self.wf(),
        ensures
            final(w)@ == old(w)@ + self.wire_bytes(),
    ;
}

/// The concatenated encodings of a sequence of values.
pub open spec fn seq_wire_bytes<T: Write>(s: Seq<T>) -> Seq<u8>
    decreases s.len(),
{
    if s.len() == 0 {
        Seq::empty()
    } else {
        s[0].wire_bytes() + seq_wire_bytes(s.drop_first())
    }
}

/// Every element of the sequence is well formed.
pub open spec fn seq_wf<T: Write>(s: Seq<T>) -> bool {
    forall|i: int| 0 <= i < s.len() ==> #[trigger] s[i].wf()
}

/// Appending one value appends its encoding.
pub proof fn lemma_seq_wire_bytes_push<T: Write>(s: Seq<T>, x: T)
    ensures
        seq_wire_bytes(s.push(x)) == seq_wire_bytes(s) + x.wire_bytes(),
    decreases s.len(),
{
    if s.len() == 0 {
        assert(s.push(x).drop_first() =~= s);
        assert(seq_wire_bytes(s.push(x)) =~= seq_wire_bytes(s) + x.wire_bytes());
    } else {
        assert(s.push(x).drop_first() =~= s.drop_first().push(x));
        lemma_seq_wire_bytes_push(s.drop_first(), x);
        assert(seq_wire_bytes(s.push(x)) =~= seq_wire_bytes(s) + x.wire_bytes());
    }
}

/// Little-endian byte writer over a growing vector.
pub struct Writer {
    vec: Vec<u8>,
}

impl View for Writer {
    type V = Seq<u8>;

    closed spec fn view(&self) -> Seq<u8> {
        self.vec@
    }
}

impl Writer {
    /// Start writing at the end of an existing vector.
    pub fn new(vec: Vec<u8>) -> (w: Writer)
        ensures
            w@ == vec@,
    {
        Writer { vec }
    }

    /// The bytes written so far.
    pub fn into_vec(self) -> (r: Vec<u8>)
        ensures
            r@ == self@,
    {
        self.vec
    }

    /// Number of bytes written so far.
    pub fn len(&self) -> (n: usize)
        ensures
            n == self@.len(),
    {
        self.vec.len()
    }

    /// Overwrite one already-written byte (used to back-patch length fields).
    pub fn set(&mut self, i: usize, v: u8)
        requires
            i < old(self)@.len(),
        ensures
            final(self)@ == old(self)@.update(i as int, v),
    {
        self.vec.set(i, v);
    }

    /// Append a single byte.
    pub fn write_u8(&mut self, v: u8)
        ensures
            final(self)@ == old(self)@.push(v),
    {
        self.vec.push(v);
    }

    /// Append two little-endian bytes.
    pub fn write_u16(&mut self, v: u16)
        ensures
            final(self)@ == old(self)@ + le16(v),
    {
        self.vec.push((v % 0x100) as u8);
        self.vec.push((v / 0x100) as u8);
        assert(self@ =~= old(self)@ + le16(v));
    }

    /// Append three little-endian bytes of a 24-bit value.
    pub fn write_u24(&mut self, v: u32)
        requires
            v < 0x100_0000,
        ensures
            final(self)@ == old(self)@ + le24(v),
    {
        self.vec.push((v % 0x100) as u8);
        self.vec.push(((v / 0x100) % 0x100) as u8);
        self.vec.push(((v / 0x1_0000) % 0x100) as u8);
        assert(self@ =~= old(self)@ + le24(v));
    }

    /// Append four little-endian bytes.
    pub fn write_u32(&mut self, v: u32)
        ensures
            final(self)@ == old(self)@ + le32(v),
    {
        self.vec.push((v % 0x100) as u8);
        self.vec.push(((v / 0x100) % 0x100) as u8);
        self.vec.push(((v / 0x1_0000) % 0x100) as u8);
        self.vec.push((v / 0x100_0000) as u8);
        assert(self@ =~= old(self)@ + le32(v));
    }

    /// Append a run of bytes unchanged.
    pub fn put(&mut self, slice: &[u8])
        ensures
            final(self)@ == old(self)@ + slice@,
    {
        self.vec.extend_from_slice(slice);
    }
}

/// Length-prefixed byte sequence: one count byte, then the bytes themselves.
impl Write for Vec<u8> {
    open spec fn wf(&self) -> bool {
        self@.len() <= 255
    }

    open spec fn wire_bytes(&self) -> Seq<u8> {
        seq![self@.len() as u8] + self@
    }

    fn write(&self, w: &mut Writer) {
        w.write_u8(self.len() as u8);
        w.put(self.as_slice());
        assert(final(w)@ =~= old(w)@ + self.wire_bytes());
    }
}

/// Length-prefixed sequence of 16-bit values: one count byte, then each
/// element in little-endian order.
impl Write for Vec<u16> {
    open spec fn wf(&self) -> bool {
        self@.len() <= 255
    }

    open spec fn wire_bytes(&self) -> Seq<u8> {
        seq![self@.len() as u8] + seq_u16_bytes(self@)
    }

    fn write(&self, w: &mut Writer) {
        w.write_u8(self.len() as u8);
        let n = self.len();
        for i in 0..n
            invariant
                n == self@.len() <= 255,
                w@ == old(w)@ + seq![n as u8] + seq_u16_bytes(self@.take(i as int)),
        {
            let ghost prefix = self@.take(i as int);
            w.write_u16(self[i]);
            proof {
                assert(self@.take(i + 1) =~= prefix.push(self@[i as int]));
                lemma_seq_u16_bytes_push(prefix, self@[i as int]);
                assert(w@ =~= old(w)@ + seq![n as u8] + seq_u16_bytes(self@.take(i + 1)));
            }
        }
        assert(self@.take(n as int) =~= self@);
        assert(w@ =~= old(w)@ + self.wire_bytes());
    }
}

/// The concatenated little-endian encodings of a sequence of 16-bit values.
pub open spec fn seq_u16_bytes(s: Seq<u16>) -> Seq<u8>
    decreases s.len(),
{
    if s.len() == 0 {
        Seq::empty()
    } else {
        le16(s[0]) + seq_u16_bytes(s.drop_first())
    }
}

/// Appending one value appends its encoding.
pub proof fn lemma_seq_u16_bytes_push(s: Seq<u16>, x: u16)
    ensures
        seq_u16_bytes(s.push(x)) == seq_u16_bytes(s) + le16(x),
    decreases s.len(),
{
    if s.len() == 0 {
        assert(s.push(x).drop_first() =~= s);
        assert(seq_u16_bytes(s.push(x)) =~= seq_u16_bytes(s) + le16(x));
    } else {
        assert(s.push(x).drop_first() =~= s.drop_first().push(x));
        lemma_seq_u16_bytes_push(s.drop_first(), x);
        assert(seq_u16_bytes(s.push(x)) =~= seq_u16_bytes(s) + le16(x));
    }
}


/// When every element occupies `k` bytes, a sequence of `n` elements
/// occupies `k * n` bytes.
pub proof fn lemma_seq_wire_bytes_len<T: Write>(s: Seq<T>, k: int)
    requires
        forall|i: int| 0 <= i < s.len() ==> (#[trigger] s[i]).wire_bytes().len() == k,
    ensures
        seq_wire_bytes(s).len() == k * s.len(),
    decreases s.len(),
{
    if s.len() > 0 {
        assert(s[0].wire_bytes().len() == k);
        assert forall|i: int|
            0 <= i < s.drop_first().len() implies (#[trigger] s.drop_first()[i]).wire_bytes().len()
            == k by {
            assert(s.drop_first()[i] == s[i + 1]);
        }
        lemma_seq_wire_bytes_len(s.drop_first(), k);
        assert(k * s.len() == k + k * (s.len() - 1)) by (nonlinear_arith);
    }
}

/// When every element occupies `k` bytes, element `i` of the sequence
/// stands at offset `k * i` of the concatenated encoding.
pub proof fn lemma_seq_wire_bytes_index<T: Write>(s: Seq<T>, k: int, i: int)
    requires
        forall|j: int| 0 <= j < s.len() ==> (#[trigger] s[j]).wire_bytes().len() == k,
        0 <= i < s.len(),
        k >= 0,
    ensures
        k * i + k <= seq_wire_bytes(s).len(),
        seq_wire_bytes(s).subrange(k * i, k * i + k) == s[i].wire_bytes(),
    decreases i,
{
    lemma_seq_wire_bytes_len(s, k);
    assert(k * i + k == k * (i + 1)) by (nonlinear_arith);
    assert(k * (i + 1) <= k * s.len()) by (nonlinear_arith)
        requires
            k >= 0,
            i + 1 <= s.len(),
    ;
    if i == 0 {
        assert(seq_wire_bytes(s).subrange(0, k) =~= s[0].wire_bytes());
    } else {
        assert forall|j: int|
            0 <= j < s.drop_first().len() implies (#[trigger] s.drop_first()[j]).wire_bytes().len()
            == k by {
            assert(s.drop_first()[j] == s[j + 1]);
        }
        lemma_seq_wire_bytes_index(s.drop_first(), k, i - 1);
        assert(s.drop_first()[i - 1] == s[i]);
        assert(k * (i - 1) == k * i - k) by (nonlinear_arith);
        assert(seq_wire_bytes(s).subrange(k * i, k * i + k) =~= seq_wire_bytes(
            s.drop_first(),
        ).subrange(k * (i - 1), k * (i - 1) + k));
    }
}

/// A sequence of `n` 16-bit values occupies `2 * n` bytes.
pub proof fn lemma_seq_u16_bytes_len(s: Seq<u16>)
    ensures
        seq_u16_bytes(s).len() == 2 * s.len(),
    decreases s.len(),
{
    if s.len() > 0 {
        lemma_seq_u16_bytes_len(s.drop_first());
    }
}

/// Value `i` of a 16-bit sequence stands at offset `2 * i` of the
/// concatenated encoding.
pub proof fn lemma_seq_u16_bytes_index(s: Seq<u16>, i: int)
    requires
        0 <= i < s.len(),
    ensures
        2 * i + 2 <= seq_u16_bytes(s).len(),
        seq_u16_bytes(s).subrange(2 * i, 2 * i + 2) == le16(s[i]),
    decreases i,
{
    lemma_seq_u16_bytes_len(s);
    if i == 0 {
        assert(seq_u16_bytes(s).subrange(0, 2) =~= le16(s[0]));
    } else {
        lemma_seq_u16_bytes_index(s.drop_first(), i - 1);
        assert(s.drop_first()[i - 1] == s[i]);
        assert(seq_u16_bytes(s).subrange(2 * i, 2 * i + 2) =~= seq_u16_bytes(
            s.drop_first(),
        ).subrange(2 * (i - 1), 2 * (i - 1) + 2));
    }
}

} // verus!
