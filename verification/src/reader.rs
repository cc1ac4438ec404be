//! Positioned little-endian byte reader.
//!
//! A `Reader` walks a byte slice. Every successful read advances the cursor
//! by exactly the bytes consumed and returns the value those bytes encode;
//! a failed read reports that the remaining input is too short and leaves
//! the cursor unchanged.

use vstd::prelude::*;

use crate::wire::{lemma_le16_val16, lemma_le24_val24, lemma_le32_val32};
use crate::wire::{le16, le24, le32, val16, val24, val32};
use crate::writer::Write;

verus! {

/// Whether the encoding of a well-formed value stands at a position of the
/// input, with arbitrary bytes allowed after it.
pub open spec fn encodes_prefix<T: crate::writer::Write>(bytes: Seq<u8>, pos: int, v: T) -> bool {
    pos + v.wire_bytes().len() <= bytes.len() && bytes.subrange(
        pos,
        pos + v.wire_bytes().len(),
    ) == v.wire_bytes()
}

/// Deserialization from a [`Reader`]: a successful `read` consumes exactly
/// the wire encoding of the value it returns, which is well formed, and is
/// the only well-formed encoding standing at the cursor; a failed `read`
/// means no well-formed encoding stands there.
pub trait Read: crate::writer::Write + Sized {
    /// Parse one value at the cursor.
    fn read(r: &mut Reader) -> (res: Option<Self>)
        requires
            old(r).wf(),
        ensures
            final(r).wf(),
            final(r).bytes() == old(r).bytes(),
            match res {
                Some(v) => v.wf() && final(r).position() == old(r).position()
                    + v.wire_bytes().len() && final(r).position() <= old(r).bytes().len()
                    && v.wire_bytes() == old(r).bytes().subrange(
                    old(r).position(),
                    final(r).position(),
                ) && (forall|v2: Self|
                    v2.wf() && #[trigger] encodes_prefix(old(r).bytes(), old(r).position(), v2)
                        ==> v2.wire_bytes() == v.wire_bytes()),
                None => forall|v2: Self|
                    v2.wf() ==> !#[trigger] encodes_prefix(old(r).bytes(), old(r).position(), v2),
            },
    ;
}

/// Cursor over a byte slice.
pub struct Reader<'a> {
    data: &'a [u8],
    pos: usize,
}

impl<'a> Reader<'a> {
    /// The whole underlying input.
    pub closed spec fn bytes(&self) -> Seq<u8> {
        self.data@
    }

    /// The cursor: how many bytes have been consumed.
    pub closed spec fn position(&self) -> int {
        self.pos as int
    }

    /// The cursor lies within the input.
    pub open spec fn wf(&self) -> bool {
        0 <= self.position() <= self.bytes().len()
    }

    /// Start reading at the beginning of `data`.
    pub fn new(data: &'a [u8]) -> (r: Reader<'a>)
        ensures
            r.wf(),
            r.bytes() == data@,
            r.position() == 0,
    {
        Reader { data, pos: 0 }
    }

    /// How many bytes are left to read.
    pub fn remaining(&self) -> (n: usize)
        requires
            self.wf(),
        ensures
            n == self.bytes().len() - self.position(),
    {
        self.data.len() - self.pos
    }

    /// Consume the next `n` bytes and hand them out unchanged.
    pub fn get(&mut self, n: usize) -> (res: Option<&'a [u8]>)
        requires
            old(self).wf(),
        ensures
            final(self).wf(),
            final(self).bytes() == old(self).bytes(),
            match res {
                Some(s) => old(self).position() + n <= old(self).bytes().len() && final(self).position() == old(self).position() + n && s@ == old(self).bytes().subrange(
                    old(self).position(),
                    old(self).position() + n,
                ),
                None => final(self).position() == old(self).position() && old(self).position() + n
                    > old(self).bytes().len(),
            },
    {
        if n > self.data.len() - self.pos {
            return None;
        }
        let old_pos = self.pos;
        self.pos = self.pos + n;
        Some(&self.data[old_pos..self.pos])
    }

    /// Consume one byte.
    pub fn read_u8(&mut self) -> (res: Option<u8>)
        requires
            old(self).wf(),
        ensures
            final(self).wf(),
            final(self).bytes() == old(self).bytes(),
            match res {
                Some(v) => old(self).position() + 1 <= old(self).bytes().len() && final(self).position() == old(self).position() + 1 && seq![v] == old(self).bytes().subrange(old(self).position(), old(self).position() + 1) && v == old(self).bytes()[old(self).position()],
                None => final(self).position() == old(self).position() && old(self).position() + 1
                    > old(self).bytes().len(),
            },
    {
        let s = self.get(1)?;
        let v = s[0];
        proof {
            assert(seq![v] =~= old(self).bytes().subrange(
                old(self).position(),
                old(self).position() + 1,
            ));
        }
        Some(v)
    }

    /// Consume two bytes as a little-endian 16-bit value.
    pub fn read_u16(&mut self) -> (res: Option<u16>)
        requires
            old(self).wf(),
        ensures
            final(self).wf(),
            final(self).bytes() == old(self).bytes(),
            match res {
                Some(v) => old(self).position() + 2 <= old(self).bytes().len() && final(self).position() == old(self).position() + 2 && le16(v) == old(self).bytes().subrange(
                    old(self).position(),
                    old(self).position() + 2,
                ) && v == val16(
                    old(self).bytes()[old(self).position()],
                    old(self).bytes()[old(self).position() + 1],
                ),
                None => final(self).position() == old(self).position() && old(self).position() + 2
                    > old(self).bytes().len(),
            },
    {
        let s = self.get(2)?;
        let v = s[0] as u16 + s[1] as u16 * 0x100;
        proof {
            lemma_le16_val16(s@[0], s@[1]);
            assert(le16(v) =~= old(self).bytes().subrange(
                old(self).position(),
                old(self).position() + 2,
            ));
        }
        Some(v)
    }

    /// Consume three bytes as a little-endian 24-bit value in a `u32`.
    pub fn read_u24(&mut self) -> (res: Option<u32>)
        requires
            old(self).wf(),
        ensures
            final(self).wf(),
            final(self).bytes() == old(self).bytes(),
            match res {
                Some(v) => old(self).position() + 3 <= old(self).bytes().len() && final(self).position() == old(self).position() + 3 && v < 0x100_0000 && le24(v) == old(self).bytes().subrange(old(self).position(), old(self).position() + 3),
                None => final(self).position() == old(self).position() && old(self).position() + 3
                    > old(self).bytes().len(),
            },
    {
        let s = self.get(3)?;
        let v = s[0] as u32 + s[1] as u32 * 0x100 + s[2] as u32 * 0x1_0000;
        proof {
            lemma_le24_val24(s@[0], s@[1], s@[2]);
            assert(v == val24(s@[0], s@[1], s@[2]));
            assert(le24(v) =~= old(self).bytes().subrange(
                old(self).position(),
                old(self).position() + 3,
            ));
        }
        Some(v)
    }

    /// Consume four bytes as a little-endian 32-bit value.
    pub fn read_u32(&mut self) -> (res: Option<u32>)
        requires
            old(self).wf(),
        ensures
            final(self).wf(),
            final(self).bytes() == old(self).bytes(),
            match res {
                Some(v) => old(self).position() + 4 <= old(self).bytes().len() && final(self).position() == old(self).position() + 4 && le32(v) == old(self).bytes().subrange(
                    old(self).position(),
                    old(self).position() + 4,
                ),
                None => final(self).position() == old(self).position() && old(self).position() + 4
                    > old(self).bytes().len(),
            },
    {
        let s = self.get(4)?;
        let v = s[0] as u32 + s[1] as u32 * 0x100 + s[2] as u32 * 0x1_0000 + s[3] as u32
            * 0x100_0000;
        proof {
            lemma_le32_val32(s@[0], s@[1], s@[2], s@[3]);
            assert(v == val32(s@[0], s@[1], s@[2], s@[3]));
            assert(le32(v) =~= old(self).bytes().subrange(
                old(self).position(),
                old(self).position() + 4,
            ));
        }
        Some(v)
    }

    /// Consume the next `n` bytes into an owned vector.
    pub fn read_vec(&mut self, n: usize) -> (res: Option<Vec<u8>>)
        requires
            old(self).wf(),
        ensures
            final(self).wf(),
            final(self).bytes() == old(self).bytes(),
            match res {
                Some(v) => old(self).position() + n <= old(self).bytes().len() && final(self).position() == old(self).position() + n && v@ == old(self).bytes().subrange(
                    old(self).position(),
                    old(self).position() + n,
                ),
                None => final(self).position() == old(self).position() && old(self).position() + n
                    > old(self).bytes().len(),
            },
    {
        let s = self.get(n)?;
        let mut v: Vec<u8> = Vec::new();
        v.extend_from_slice(s);
        Some(v)
    }
}

/// Length-prefixed byte sequence: one count byte, then the bytes themselves.
impl Read for Vec<u8> {
    fn read(r: &mut Reader) -> (res: Option<Self>) {
        let ghost p0 = r.position();
        let ghost bytes = r.bytes();
        let len = match r.read_u8() {
            Some(v) => v,
            None => {
                proof {
                    assert forall|v2: Vec<u8>| v2.wf() implies !encodes_prefix(bytes, p0, v2) by {
                        if encodes_prefix(bytes, p0, v2) {
                            assert(v2.wire_bytes().len() >= 1);
                        }
                    }
                }
                return None;
            },
        };
        let v = match r.read_vec(len as usize) {
            Some(v) => v,
            None => {
                proof {
                    assert forall|v2: Vec<u8>| v2.wf() implies !encodes_prefix(bytes, p0, v2) by {
                        if encodes_prefix(bytes, p0, v2) {
                            assert(v2.wire_bytes()[0] == bytes.subrange(
                                p0,
                                p0 + v2.wire_bytes().len(),
                            )[0]);
                            assert(v2@.len() == len);
                        }
                    }
                }
                return None;
            },
        };
        proof {
            assert(v.wire_bytes() =~= bytes.subrange(p0, r.position()));
            assert forall|v2: Vec<u8>|
                v2.wf() && encodes_prefix(bytes, p0, v2) implies v2.wire_bytes()
                == v.wire_bytes() by {
                assert(v2.wire_bytes()[0] == bytes.subrange(p0, p0 + v2.wire_bytes().len())[0]);
                assert(v2@.len() == len);
                assert(v2.wire_bytes() =~= bytes.subrange(p0, p0 + 1 + len));
            }
        }
        Some(v)
    }
}

/// Length-prefixed sequence of 16-bit values: one count byte, then each
/// element in little-endian order.
impl Read for Vec<u16> {
    #[verifier::loop_isolation(false)]
    fn read(r: &mut Reader) -> (res: Option<Self>) {
        let ghost p0 = r.position();
        let ghost bytes = r.bytes();
        let len = match r.read_u8() {
            Some(v) => v,
            None => {
                proof {
                    assert forall|v2: Vec<u16>| v2.wf() implies !encodes_prefix(bytes, p0, v2) by {
                        if encodes_prefix(bytes, p0, v2) {
                            assert(v2.wire_bytes().len() >= 1);
                        }
                    }
                }
                return None;
            },
        };
        let ghost p1 = r.position();
        let mut v: Vec<u16> = Vec::new();
        for i in 0..len as usize
            invariant
                r.wf(),
                r.bytes() == bytes,
                v@.len() == i,
                0 <= p0,
                p1 == p0 + 1,
                p0 < bytes.len(),
                bytes[p0] == len,
                r.position() == p1 + 2 * i,
                crate::writer::seq_u16_bytes(v@) == bytes.subrange(p1, r.position()),
        {
            let ghost prefix = v@;
            let ghost p_before = r.position();
            let x = match r.read_u16() {
                Some(x) => x,
                None => {
                    proof {
                        assert forall|v2: Vec<u16>|
                            v2.wf() implies !encodes_prefix(bytes, p0, v2) by {
                            if encodes_prefix(bytes, p0, v2) {
                                crate::writer::lemma_seq_u16_bytes_len(v2@);
                                assert(v2.wire_bytes()[0] == bytes.subrange(
                                    p0,
                                    p0 + v2.wire_bytes().len(),
                                )[0]);
                                assert(v2@.len() == len);
                            }
                        }
                    }
                    return None;
                },
            };
            v.push(x);
            proof {
                assert(v@ =~= prefix.push(x));
                crate::writer::lemma_seq_u16_bytes_push(prefix, x);
                assert(bytes.subrange(p1, p_before) + bytes.subrange(p_before, r.position())
                    =~= bytes.subrange(p1, r.position()));
                assert(crate::writer::seq_u16_bytes(v@) =~= bytes.subrange(p1, r.position()));
            }
        }
        proof {
            assert(v.wire_bytes() =~= bytes.subrange(p0, r.position()));
            assert forall|v2: Vec<u16>|
                v2.wf() && encodes_prefix(bytes, p0, v2) implies v2.wire_bytes()
                == v.wire_bytes() by {
                crate::writer::lemma_seq_u16_bytes_len(v2@);
                assert(v2.wire_bytes()[0] == bytes.subrange(p0, p0 + v2.wire_bytes().len())[0]);
                assert(v2@.len() == len);
                assert(v2.wire_bytes() =~= bytes.subrange(p0, p0 + 1 + 2 * (len as int)));
            }
        }
        Some(v)
    }
}

} // verus!
