//! Bit-level output: accumulates single bits and fixed-width bit groups into
//! bytes, least-significant bit first, as the DEFLATE format packs them.

use vstd::prelude::*;

verus! {

/// The bits of one byte, least-significant bit first: the order in which
/// DEFLATE fills each output byte.
pub open spec fn byte_bits(b: u8) -> Seq<bool> {
    Seq::new(8, |i: int| (b >> (i as u8)) & 1 == 1)
}

/// The bits of a byte sequence, each byte least-significant bit first.
pub open spec fn bytes_bits(s: Seq<u8>) -> Seq<bool>
    decreases s.len(),
{
    if s.len() == 0 {
        Seq::empty()
    } else {
        bytes_bits(s.drop_last()) + byte_bits(s.last())
    }
}

pub proof fn lemma_bytes_bits_len(s: Seq<u8>)
    ensures
        bytes_bits(s).len() == 8 * s.len(),
    decreases s.len(),
{
    if s.len() > 0 {
        lemma_bytes_bits_len(s.drop_last());
    }
}

pub proof fn lemma_bytes_bits_push(s: Seq<u8>, b: u8)
    ensures
        bytes_bits(s.push(b)) == bytes_bits(s) + byte_bits(b),
{
    assert(s.push(b).drop_last() =~= s);
    assert(s.push(b).last() == b);
}

/// A field of `width` bits holding the low bits of `value`,
/// least-significant bit first: DEFLATE's order for fixed-width fields.
pub open spec fn field_bits(width: int, value: u16) -> Seq<bool> {
    Seq::new(width as nat, |i: int| (value >> (i as u16)) & 1 == 1)
}

/// A Huffman code of `len` bits, most-significant bit first: DEFLATE packs
/// Huffman codes starting from the most significant bit of the code.
pub open spec fn huff_bits(len: int, code: u16) -> Seq<bool> {
    Seq::new(len as nat, |i: int| (code >> ((len - 1 - i) as u16)) & 1 == 1)
}

/// The two bytes of a 16-bit value, little endian.
pub open spec fn u16_le_bytes(v: u16) -> Seq<u8> {
    seq![(v % 256) as u8, (v / 256) as u8]
}

/// A run of `n` zero bits.
pub open spec fn zeros(n: int) -> Seq<bool> {
    Seq::new(n as nat, |i: int| false)
}

/// How many zero bits pad a stream of length `n` to the next byte boundary.
pub open spec fn pad_len(n: int) -> int {
    if n % 8 == 0 {
        0
    } else {
        8 - n % 8
    }
}

/// Writes individual bits and bit groups into a byte-oriented sink,
/// buffering the partially filled last byte explicitly.
pub struct BitWriter {
    /// Completed output bytes.
    pub bytes: Vec<u8>,
    /// Bits of the partially filled last byte, oldest first.
    pub pending: Vec<bool>,
}

impl BitWriter {
    pub open spec fn wf(self) -> bool {
        self.pending@.len() < 8
    }

    /// Every bit handed to the writer so far, in order, including the bits
    /// of any bytes the sink held when the writer was created.
    pub open spec fn stream(self) -> Seq<bool> {
        bytes_bits(self.bytes@) + self.pending@
    }

    /// The stream ends on a byte boundary: no partially filled byte.
    pub open spec fn aligned(self) -> bool {
        self.pending@.len() == 0
    }

    pub fn new(inner: Vec<u8>) -> (r: Self)
        ensures
            r.wf(),
            r.aligned(),
            r.bytes@ == inner@,
            r.stream() == bytes_bits(inner@),
    {
        let r = BitWriter { bytes: inner, pending: Vec::new() };
        proof {
            assert(r.stream() =~= bytes_bits(r.bytes@));
        }
        r
    }

    /// Hands back the byte sink; bits of a partially filled byte are dropped.
    pub fn into_inner(self) -> (r: Vec<u8>)
        ensures
            r@ == self.bytes@,
    {
        self.bytes
    }

    pub fn as_inner_ref(&self) -> (r: &Vec<u8>)
        ensures
            r@ == self.bytes@,
    {
        &self.bytes
    }

    pub fn write_bit(&mut self, bit: bool)
        requires
            old(self).wf(),
        ensures
            final(self).wf(),
            final(self).stream() == old(self).stream().push(bit),
            final(self).bytes@.len() >= old(self).bytes@.len(),
            old(self).pending@.len() < 7 ==> final(self).pending@ == old(self).pending@.push(bit),
            old(self).pending@.len() == 7 ==> final(self).pending@.len() == 0,
    {
        self.pending.push(bit);
        if self.pending.len() == 8 {
            let byte = pack_byte(&self.pending);
            proof {
                lemma_bytes_bits_push(self.bytes@, byte);
            }
            self.bytes.push(byte);
            self.pending.clear();
            proof {
                assert(self.stream() =~= old(self).stream().push(bit));
            }
        } else {
            proof {
                assert(self.stream() =~= old(self).stream().push(bit));
            }
        }
    }

    /// Writes the low `width` bits of `value`, least-significant bit first.
    pub fn write_bits(&mut self, width: u8, value: u16)
        requires
            old(self).wf(),
            width <= 16,
        ensures
            final(self).wf(),
            final(self).stream() == old(self).stream() + field_bits(width as int, value),
    {
        let mut i: u8 = 0;
        proof {
            assert(self.stream() =~= old(self).stream() + field_bits(0, value));
        }
        while i < width
            invariant
                old(self).wf(),
                self.wf(),
                i <= width,
                width <= 16,
                self.stream() == old(self).stream() + field_bits(i as int, value),
            decreases width - i,
        {
            let bit = ((value >> (i as u16)) & 1) == 1;
            proof {
                assert(field_bits(i as int + 1, value) =~= field_bits(i as int, value).push(bit));
            }
            self.write_bit(bit);
            i = i + 1;
            proof {
                assert(self.stream() =~= old(self).stream() + field_bits(i as int, value));
            }
        }
    }

    /// Writes a Huffman code of `len` bits, most-significant bit first.
    pub fn write_huff(&mut self, len: u8, code: u16)
        requires
            old(self).wf(),
            len <= 15,
        ensures
            final(self).wf(),
            final(self).stream() == old(self).stream() + huff_bits(len as int, code),
    {
        let mut j: u8 = 0;
        proof {
            assert(self.stream() =~= old(self).stream() + huff_bits(len as int, code).take(0));
        }
        while j < len
            invariant
                old(self).wf(),
                self.wf(),
                j <= len,
                len <= 15,
                self.stream() == old(self).stream() + huff_bits(len as int, code).take(j as int),
            decreases len - j,
        {
            let sh: u16 = (len - 1 - j) as u16;
            let bit = ((code >> sh) & 1) == 1;
            proof {
                assert(huff_bits(len as int, code).take(j as int + 1) =~= huff_bits(
                    len as int,
                    code,
                ).take(j as int).push(bit));
            }
            self.write_bit(bit);
            j = j + 1;
            proof {
                assert(self.stream() =~= old(self).stream() + huff_bits(len as int, code).take(
                    j as int,
                ));
            }
        }
        proof {
            assert(huff_bits(len as int, code).take(len as int) =~= huff_bits(len as int, code));
        }
    }

    /// Pads the stream to the next byte boundary with zero bits.
    pub fn flush(&mut self)
        requires
            old(self).wf(),
        ensures
            final(self).wf(),
            final(self).aligned(),
            final(self).stream() == old(self).stream() + zeros(
                pad_len(old(self).stream().len() as int),
            ),
            final(self).stream() == bytes_bits(final(self).bytes@),
    {
        proof {
            lemma_bytes_bits_len(self.bytes@);
        }
        if self.pending.len() != 0 {
            let pad = 8 - self.pending.len();
            let ghost n0 = self.pending@.len() as int;
            let mut t: usize = 0;
            proof {
                assert(self.stream() =~= old(self).stream() + zeros(0));
            }
            while t < pad
                invariant
                    old(self).wf(),
                    self.wf(),
                    t <= pad,
                    pad == 8 - n0,
                    0 < n0 < 8,
                    t < pad ==> self.pending@.len() == n0 + t,
                    t == pad ==> self.pending@.len() == 0,
                    self.stream() == old(self).stream() + zeros(t as int),
                decreases pad - t,
            {
                self.write_bit(false);
                t = t + 1;
                proof {
                    assert(self.stream() =~= old(self).stream() + zeros(t as int));
                }
            }
            proof {
                assert(pad_len(old(self).stream().len() as int) == pad as int);
                assert(self.stream() =~= bytes_bits(self.bytes@));
            }
        } else {
            proof {
                assert(self.stream() =~= old(self).stream() + zeros(
                    pad_len(old(self).stream().len() as int),
                ));
                assert(self.stream() =~= bytes_bits(self.bytes@));
            }
        }
    }

    /// Appends one byte directly to the sink; the stream must be aligned.
    pub fn write_byte(&mut self, b: u8)
        requires
            old(self).wf(),
            old(self).aligned(),
        ensures
            final(self).wf(),
            final(self).aligned(),
            final(self).stream() == old(self).stream() + byte_bits(b),
    {
        proof {
            lemma_bytes_bits_push(self.bytes@, b);
        }
        self.bytes.push(b);
        proof {
            assert(self.stream() =~= old(self).stream() + byte_bits(b));
        }
    }

    /// Appends a 16-bit value as two bytes, little endian; the stream must be
    /// aligned.
    pub fn write_u16_le(&mut self, v: u16)
        requires
            old(self).wf(),
            old(self).aligned(),
        ensures
            final(self).wf(),
            final(self).aligned(),
            final(self).stream() == old(self).stream() + bytes_bits(u16_le_bytes(v)),
    {
        let lo: u8 = (v % 256) as u8;
        let hi: u8 = (v / 256) as u8;
        self.write_byte(lo);
        self.write_byte(hi);
        proof {
            let s = u16_le_bytes(v);
            assert(s.drop_last() =~= seq![lo]);
            assert(s.last() == hi);
            assert(seq![lo].drop_last() =~= Seq::<u8>::empty());
            assert(seq![lo].last() == lo);
            assert(bytes_bits(seq![lo]) == bytes_bits(Seq::<u8>::empty()) + byte_bits(lo));
            assert(bytes_bits(s) == bytes_bits(seq![lo]) + byte_bits(hi));
            assert(bytes_bits(Seq::<u8>::empty()) + byte_bits(lo) =~= byte_bits(lo));
            assert(bytes_bits(s) =~= byte_bits(lo) + byte_bits(hi));
            assert(self.stream() =~= old(self).stream() + bytes_bits(s));
        }
    }
}

pub proof fn lemma_prefix_index<T>(a: Seq<T>, b: Seq<T>, i: int)
    requires
        a.is_prefix_of(b),
        0 <= i < a.len(),
    ensures
        b[i] == a[i],
{
    assert(b.take(a.len() as int)[i] == b[i]);
}

pub proof fn lemma_prefix_trans<T>(a: Seq<T>, b: Seq<T>, c: Seq<T>)
    requires
        a.is_prefix_of(b),
        b.is_prefix_of(c),
    ensures
        a.is_prefix_of(c),
{
    assert(c.take(a.len() as int) =~= a);
}

/// Packs eight bits, oldest first, into one byte, least-significant bit
/// first.
fn pack_byte(p: &Vec<bool>) -> (r: u8)
    requires
        p@.len() == 8,
    ensures
        byte_bits(r) == p@,
{
    let b0: u8 = if p[0] {
        1
    } else {
        0
    };
    let b1: u8 = if p[1] {
        1
    } else {
        0
    };
    let b2: u8 = if p[2] {
        1
    } else {
        0
    };
    let b3: u8 = if p[3] {
        1
    } else {
        0
    };
    let b4: u8 = if p[4] {
        1
    } else {
        0
    };
    let b5: u8 = if p[5] {
        1
    } else {
        0
    };
    let b6: u8 = if p[6] {
        1
    } else {
        0
    };
    let b7: u8 = if p[7] {
        1
    } else {
        0
    };
    let r: u8 = b0 | (b1 << 1u8) | (b2 << 2u8) | (b3 << 3u8) | (b4 << 4u8) | (b5 << 5u8) | (b6
        << 6u8) | (b7 << 7u8);
    proof {
        assert((b0 <= 1 && b1 <= 1 && b2 <= 1 && b3 <= 1 && b4 <= 1 && b5 <= 1 && b6 <= 1 && b7
            <= 1) ==> {
            let w = b0 | (b1 << 1u8) | (b2 << 2u8) | (b3 << 3u8) | (b4 << 4u8) | (b5 << 5u8) | (
            b6 << 6u8) | (b7 << 7u8);
            &&& (w >> 0u8) & 1 == b0
            &&& (w >> 1u8) & 1 == b1
            &&& (w >> 2u8) & 1 == b2
            &&& (w >> 3u8) & 1 == b3
            &&& (w >> 4u8) & 1 == b4
            &&& (w >> 5u8) & 1 == b5
            &&& (w >> 6u8) & 1 == b6
            &&& (w >> 7u8) & 1 == b7
        }) by (bit_vector);
        assert(byte_bits(r)[0] == p@[0]);
        assert(byte_bits(r)[1] == p@[1]);
        assert(byte_bits(r)[2] == p@[2]);
        assert(byte_bits(r)[3] == p@[3]);
        assert(byte_bits(r)[4] == p@[4]);
        assert(byte_bits(r)[5] == p@[5]);
        assert(byte_bits(r)[6] == p@[6]);
        assert(byte_bits(r)[7] == p@[7]);
        assert(byte_bits(r) =~= p@);
    }
    r
}

} // verus!
