//! The block encoder and stream orchestration: how incoming bytes are
//! segmented into blocks, buffered per block, and emitted as a correctly
//! bit-aligned stream with final-block and end-of-block markers.

use vstd::prelude::*;
use crate::bits::{
    bytes_bits, field_bits, lemma_bytes_bits_len, lemma_prefix_index, lemma_prefix_trans, pad_len,
    u16_le_bytes, zeros, BitWriter,
};
use crate::symbol::{syms_bits, DynamicHuffmanCodec, FixedHuffmanCodec, HuffmanCodec, Symbol, SymbolEncoder};
use crate::lz77::{DefaultLz77Encoder, Lz77Encode};

verus! {

pub const DEFAULT_BLOCK_SIZE: usize = 1024 * 1024;

pub const MAX_NON_COMPRESSED_BLOCK_SIZE: usize = 0xFFFF;

/// The encoding every block of one stream uses, fixed when the stream's
/// options are resolved.
#[derive(Clone, Copy, Debug)]
pub enum BlockType {
    Raw,
    Fixed,
    Dynamic,
}

impl BlockType {
    /// The 2-bit code of this block type in a block header.
    pub open spec fn spec_code(self) -> u16 {
        match self {
            BlockType::Raw => 0,
            BlockType::Fixed => 1,
            BlockType::Dynamic => 2,
        }
    }

    pub fn code(self) -> (r: u16)
        ensures
            r == self.spec_code(),
    {
        match self {
            BlockType::Raw => 0,
            BlockType::Fixed => 1,
            BlockType::Dynamic => 2,
        }
    }
}

/// Configuration resolved once at construction: the block-size threshold,
/// the Huffman mode, and the optional match finder; no match finder means
/// raw (stored) blocks.
#[derive(Debug)]
pub struct EncodeOptions<E> {
    pub block_size: usize,
    pub dynamic_huffman: bool,
    pub lz77: Option<E>,
}

impl EncodeOptions<DefaultLz77Encoder> {
    pub fn new() -> (r: Self)
        ensures
            r.block_size == DEFAULT_BLOCK_SIZE,
            r.dynamic_huffman,
            r.lz77 is Some,
    {
        EncodeOptions {
            block_size: DEFAULT_BLOCK_SIZE,
            dynamic_huffman: true,
            lz77: Some(DefaultLz77Encoder::new()),
        }
    }
}

impl Default for EncodeOptions<DefaultLz77Encoder> {
    fn default() -> (r: Self)
        ensures
            r.block_size == DEFAULT_BLOCK_SIZE,
            r.dynamic_huffman,
            r.lz77 is Some,
    {
        Self::new()
    }
}

impl<E: Lz77Encode> EncodeOptions<E> {
    pub fn with_lz77(lz77: E) -> (r: Self)
        ensures
            r.block_size == DEFAULT_BLOCK_SIZE,
            r.dynamic_huffman,
            r.lz77 == Some(lz77),
    {
        EncodeOptions { block_size: DEFAULT_BLOCK_SIZE, dynamic_huffman: true, lz77: Some(lz77) }
    }

    pub fn no_compression(self) -> (r: Self)
        ensures
            (r == EncodeOptions { lz77: None::<E>, ..self }),
    {
        let mut this = self;
        this.lz77 = None;
        this
    }

    pub fn block_size(self, size: usize) -> (r: Self)
        ensures
            (r == EncodeOptions { block_size: size, ..self }),
    {
        let mut this = self;
        this.block_size = size;
        this
    }

    pub fn dynamic_huffman_codes(self) -> (r: Self)
        ensures
            (r == EncodeOptions { dynamic_huffman: true, ..self }),
    {
        let mut this = self;
        this.dynamic_huffman = true;
        this
    }

    pub fn fixed_huffman_codes(self) -> (r: Self)
        ensures
            (r == EncodeOptions { dynamic_huffman: false, ..self }),
    {
        let mut this = self;
        this.dynamic_huffman = false;
        this
    }

    /// Raw when no match finder is configured; otherwise the Huffman mode
    /// decides between fixed and dynamic.
    pub open spec fn spec_block_type(self) -> BlockType {
        if self.lz77 is None {
            BlockType::Raw
        } else if self.dynamic_huffman {
            BlockType::Dynamic
        } else {
            BlockType::Fixed
        }
    }

    /// The effective block size: clamped to the largest stored-block
    /// payload in raw mode, unchanged otherwise; a pure function with no
    /// error path.
    pub open spec fn spec_block_size(self) -> int {
        if self.lz77 is None && self.block_size > 0xFFFF {
            0xFFFF
        } else {
            self.block_size as int
        }
    }

    fn get_block_type(&self) -> (r: BlockType)
        ensures
            r == self.spec_block_type(),
    {
        if self.lz77.is_none() {
            BlockType::Raw
        } else if self.dynamic_huffman {
            BlockType::Dynamic
        } else {
            BlockType::Fixed
        }
    }

    fn get_block_size(&self) -> (r: usize)
        ensures
            r == self.spec_block_size(),
    {
        if self.lz77.is_none() && self.block_size > MAX_NON_COMPRESSED_BLOCK_SIZE {
            MAX_NON_COMPRESSED_BLOCK_SIZE
        } else {
            self.block_size
        }
    }
}

/// The threshold the cut loop compares against: the configured block size,
/// floored at one byte so that cutting a block always makes progress — at a
/// configured size of zero every operation must still run to completion.
pub open spec fn eff_size(bsize: int) -> int {
    if bsize < 1 {
        1
    } else {
        bsize
    }
}

/// The length of one stored-block payload cut from a buffer of `len` bytes:
/// everything, up to the format's 16-bit limit.
pub open spec fn stored_size(len: int) -> int {
    if len <= 0xFFFF {
        len
    } else {
        0xFFFF
    }
}

/// How many blocks a threshold-driven raw drain cuts from `len` buffered
/// bytes: one per loop round while the threshold is reached.
pub open spec fn raw_chunks(len: int, bsize: int) -> int
    recommends
        1 <= bsize <= 0xFFFF,
    decreases len,
{
    if bsize < 1 || len < bsize {
        0
    } else {
        1 + raw_chunks(len - stored_size(len), bsize)
    }
}

/// The bytes left buffered after a threshold-driven raw drain.
pub open spec fn raw_rest(len: int, bsize: int) -> int
    recommends
        1 <= bsize <= 0xFFFF,
    decreases len,
{
    if bsize < 1 || len < bsize {
        len
    } else {
        raw_rest(len - stored_size(len), bsize)
    }
}

/// The exact bits one threshold-driven raw drain emits: per round a
/// non-final header bit, the stored type code, alignment padding, LEN,
/// NLEN, and the payload chunk, while the buffered bytes reach the
/// threshold.
pub open spec fn raw_drain_bits(pre_len: int, content: Seq<u8>, bsize: int) -> Seq<bool>
    decreases content.len(),
{
    if bsize < 1 || content.len() < bsize {
        Seq::empty()
    } else {
        let size = stored_size(content.len() as int);
        let blk = seq![false] + field_bits(2, 0) + zeros(pad_len(pre_len + 3)) + bytes_bits(
            u16_le_bytes(size as u16),
        ) + bytes_bits(u16_le_bytes((0xFFFF - size) as u16)) + bytes_bits(content.take(size));
        blk + raw_drain_bits(pre_len + blk.len(), content.skip(size), bsize)
    }
}

/// The bytes still buffered after that drain.
pub open spec fn raw_drain_rest(content: Seq<u8>, bsize: int) -> Seq<u8>
    decreases content.len(),
{
    if bsize < 1 || content.len() < bsize {
        content
    } else {
        raw_drain_rest(content.skip(stored_size(content.len() as int)), bsize)
    }
}

/// The exact bits `finish` emits in raw mode: stored blocks of 65535 bytes
/// with non-final headers while more is buffered, then one final stored
/// block holding the rest, even when the rest is empty.
pub open spec fn raw_finish_bits(pre_len: int, content: Seq<u8>) -> Seq<bool>
    decreases content.len(),
{
    if content.len() <= 0xFFFF {
        seq![true] + field_bits(2, 0) + zeros(pad_len(pre_len + 3)) + bytes_bits(
            u16_le_bytes(content.len() as u16),
        ) + bytes_bits(u16_le_bytes((0xFFFF - content.len()) as u16)) + bytes_bits(content)
    } else {
        let blk = seq![false] + field_bits(2, 0) + zeros(pad_len(pre_len + 3)) + bytes_bits(
            u16_le_bytes(0xFFFF as u16),
        ) + bytes_bits(u16_le_bytes(0u16)) + bytes_bits(content.take(0xFFFF));
        blk + raw_finish_bits(pre_len + blk.len(), content.skip(0xFFFF))
    }
}

pub proof fn lemma_raw_chunks_nonneg(len: int, bsize: int)
    ensures
        raw_chunks(len, bsize) >= 0,
    decreases len,
{
    if !(bsize < 1 || len < bsize) {
        lemma_raw_chunks_nonneg(len - stored_size(len), bsize)
    }
}

/// A raw-mode drain cuts at least one block once the buffer reaches the
/// threshold.
pub proof fn lemma_raw_chunks_pos(len: int, bsize: int)
    requires
        1 <= bsize <= 0xFFFF,
        len >= bsize,
    ensures
        raw_chunks(len, bsize) >= 1,
{
    lemma_raw_chunks_nonneg(len - stored_size(len), bsize);
}

/// A stored block holds the original bytes verbatim, framed by its length
/// and the length's one's complement.
pub struct RawBuf {
    pub buf: Vec<u8>,
}

impl RawBuf {
    pub fn new() -> (r: Self)
        ensures
            r.buf@.len() == 0,
    {
        RawBuf { buf: Vec::new() }
    }

    pub fn append(&mut self, buf: &[u8])
        requires
            old(self).buf@.len() + buf@.len() <= usize::MAX,
        ensures
            final(self).buf@ == old(self).buf@ + buf@,
    {
        let mut i: usize = 0;
        proof {
            assert(self.buf@ =~= old(self).buf@ + buf@.take(0));
        }
        while i < buf.len()
            invariant
                i <= buf@.len(),
                old(self).buf@.len() + buf@.len() <= usize::MAX,
                self.buf@ == old(self).buf@ + buf@.take(i as int),
            decreases buf@.len() - i,
        {
            self.buf.push(buf[i]);
            i = i + 1;
            proof {
                assert(self.buf@ =~= old(self).buf@ + buf@.take(i as int));
            }
        }
        proof {
            assert(buf@.take(buf@.len() as int) =~= buf@);
        }
    }

    pub fn len(&self) -> (r: usize)
        ensures
            r == self.buf@.len(),
    {
        self.buf.len()
    }

    /// Writes one stored block body: byte-aligns the output, writes LEN and
    /// NLEN (LEN's one's complement) little endian, then the first
    /// `min(len, 65535)` buffered bytes verbatim; those bytes leave the
    /// buffer, and a longer buffer keeps its remainder for the next flush.
    pub fn flush(&mut self, w: &mut BitWriter)
        requires
            old(w).wf(),
        ensures
            final(w).wf(),
            final(w).aligned(),
            ({
                let size = stored_size(old(self).buf@.len() as int);
                &&& final(self).buf@ == old(self).buf@.skip(size)
                &&& final(w).stream() == old(w).stream() + zeros(
                    pad_len(old(w).stream().len() as int),
                ) + bytes_bits(u16_le_bytes(size as u16)) + bytes_bits(
                    u16_le_bytes((0xFFFF - size) as u16),
                ) + bytes_bits(old(self).buf@.take(size))
            }),
    {
        let size: usize = if self.buf.len() < MAX_NON_COMPRESSED_BLOCK_SIZE {
            self.buf.len()
        } else {
            MAX_NON_COMPRESSED_BLOCK_SIZE
        };
        w.flush();
        w.write_u16_le(size as u16);
        w.write_u16_le(0xFFFF - (size as u16));
        let ghost s0 = w.stream();
        let mut i: usize = 0;
        proof {
            assert(w.stream() =~= s0 + bytes_bits(self.buf@.take(0)));
        }
        while i < size
            invariant
                i <= size,
                size <= self.buf@.len(),
                w.wf(),
                w.aligned(),
                self.buf@ == old(self).buf@,
                w.stream() == s0 + bytes_bits(self.buf@.take(i as int)),
            decreases size - i,
        {
            w.write_byte(self.buf[i]);
            i = i + 1;
            proof {
                assert(self.buf@.take(i as int).drop_last() =~= self.buf@.take(i as int - 1));
                assert(w.stream() =~= s0 + bytes_bits(self.buf@.take(i as int)));
            }
        }
        let mut rest: Vec<u8> = Vec::new();
        let mut j: usize = size;
        while j < self.buf.len()
            invariant
                size <= j <= self.buf@.len(),
                self.buf@ == old(self).buf@,
                rest@ == self.buf@.subrange(size as int, j as int),
            decreases self.buf@.len() - j,
        {
            rest.push(self.buf[j]);
            j = j + 1;
            proof {
                assert(rest@ =~= self.buf@.subrange(size as int, j as int));
            }
        }
        proof {
            assert(rest@ =~= old(self).buf@.skip(size as int));
        }
        self.buf = rest;
        proof {
            assert(final(w).stream() =~= old(w).stream() + zeros(
                pad_len(old(w).stream().len() as int),
            ) + bytes_bits(u16_le_bytes(size as u16)) + bytes_bits(
                u16_le_bytes((0xFFFF - size) as u16),
            ) + bytes_bits(old(self).buf@.take(size as int)));
        }
    }
}

/// Every symbol is in-range and none is the end-of-block marker.
pub open spec fn valid_syms(s: Seq<Symbol>) -> bool {
    forall|i: int| 0 <= i < s.len() ==> (#[trigger] s[i]).valid() && !s[i].is_eob()
}

/// One witness that `post` extends `pre` by a complete compressed block
/// body: the codec's side table for a coder `enc`, then every symbol —
/// the `syms` already buffered, the `flushed` look-ahead the match finder
/// forced out, and the end-of-block marker — coded under `enc`.
pub open spec fn compressed_flush_witness<H: HuffmanCodec>(
    h: H,
    syms: Seq<Symbol>,
    pre: Seq<bool>,
    post: Seq<bool>,
    flushed: Seq<Symbol>,
    enc: SymbolEncoder,
    t: Seq<bool>,
) -> bool {
    &&& valid_syms(flushed)
    &&& enc.wf()
    &&& enc.covers(syms + flushed + seq![Symbol::EndOfBlock])
    &&& h.saves_table(enc, t)
    &&& post == pre + t + syms_bits(enc, syms + flushed + seq![Symbol::EndOfBlock])
}

/// `post` extends `pre` by one complete compressed block body for the
/// buffered symbols `syms` under codec `h`.
pub open spec fn compressed_flush_ok<H: HuffmanCodec>(
    h: H,
    syms: Seq<Symbol>,
    pre: Seq<bool>,
    post: Seq<bool>,
) -> bool {
    exists|flushed: Seq<Symbol>, enc: SymbolEncoder, t: Seq<bool>|
        #[trigger] compressed_flush_witness(h, syms, pre, post, flushed, enc, t)
}

/// A compressed block in the making: the match finder's symbols so far, and
/// the count of original bytes they stand for, which is what the threshold
/// compares against.
pub struct CompressBuf<H, E> {
    pub huffman: H,
    pub lz77: E,
    pub buf: Vec<Symbol>,
    pub original_size: usize,
}

impl<H: HuffmanCodec, E: Lz77Encode> CompressBuf<H, E> {
    /// Buffered symbols are in-range and the end-of-block marker is only
    /// appended at flush time.
    pub open spec fn wf(self) -> bool {
        forall|i: int|
            0 <= i < self.buf@.len() ==> (#[trigger] self.buf@[i]).valid() && !self.buf@[i].is_eob()
    }

    pub fn new(huffman: H, lz77: E) -> (r: Self)
        ensures
            r.wf(),
            r.original_size == 0,
            r.buf@.len() == 0,
    {
        CompressBuf { huffman, lz77, buf: Vec::new(), original_size: 0 }
    }

    pub fn append(&mut self, buf: &[u8])
        requires
            old(self).wf(),
            old(self).original_size + buf@.len() <= usize::MAX,
        ensures
            final(self).wf(),
            final(self).original_size == old(self).original_size + buf@.len(),
            old(self).buf@.is_prefix_of(final(self).buf@),
            forall|i: int|
                old(self).buf@.len() <= i < final(self).buf@.len()
                    ==> (#[trigger] final(self).buf@[i]).valid() && !final(self).buf@[i].is_eob(),
            final(self).huffman == old(self).huffman,
    {
        self.original_size = self.original_size + buf.len();
        let ghost pre = self.buf@;
        self.lz77.encode(buf, &mut self.buf);
        proof {
            assert forall|i: int|
                0 <= i < self.buf@.len() implies (#[trigger] self.buf@[i]).valid()
                && !self.buf@[i].is_eob() by {
                if i < pre.len() {
                    assert(self.buf@[i] == self.buf@.take(pre.len() as int)[i]);
                }
            }
        }
    }

    pub fn len(&self) -> (r: usize)
        ensures
            r == self.original_size,
    {
        self.original_size
    }

    /// Drains the block completely: flushes the match finder's look-ahead,
    /// appends the end-of-block marker, builds the Huffman coder from the
    /// accumulated symbols, writes its side table, then every symbol in
    /// arrival order.
    pub fn flush(&mut self, w: &mut BitWriter)
        requires
            old(self).wf(),
            old(w).wf(),
        ensures
            final(self).wf(),
            final(w).wf(),
            old(w).stream().is_prefix_of(final(w).stream()),
            final(self).original_size == 0,
            final(self).buf@.len() == 0,
            compressed_flush_ok(
                old(self).huffman,
                old(self).buf@,
                old(w).stream(),
                final(w).stream(),
            ),
    {
        let ghost s0 = w.stream();
        let ghost pre_syms = self.buf@;
        self.lz77.flush(&mut self.buf);
        let ghost flushed = self.buf@.skip(pre_syms.len() as int);
        proof {
            assert(self.buf@ =~= pre_syms + flushed);
            assert(valid_syms(flushed));
            assert forall|i: int|
                0 <= i < self.buf@.len() implies (#[trigger] self.buf@[i]).valid() by {
                if i < pre_syms.len() {
                    assert(self.buf@[i] == self.buf@.take(pre_syms.len() as int)[i]);
                }
            }
        }
        self.buf.push(Symbol::EndOfBlock);
        let ghost all = pre_syms + flushed + seq![Symbol::EndOfBlock];
        proof {
            assert(self.buf@ =~= all);
        }
        let enc = self.huffman.build(&self.buf);
        self.huffman.save(w, &enc);
        let ghost t = choose|t: Seq<bool>|
            w.stream() == s0 + t && #[trigger] self.huffman.saves_table(enc, t);
        let ghost s1 = w.stream();
        let mut i: usize = 0;
        proof {
            assert(w.stream() =~= s1 + syms_bits(enc, self.buf@.take(0)));
        }
        while i < self.buf.len()
            invariant
                i <= self.buf@.len(),
                w.wf(),
                enc.wf(),
                enc.covers(self.buf@),
                w.stream() == s1 + syms_bits(enc, self.buf@.take(i as int)),
            decreases self.buf@.len() - i,
        {
            enc.encode(w, self.buf[i]);
            i = i + 1;
            proof {
                assert(self.buf@.take(i as int).drop_last() =~= self.buf@.take(i as int - 1));
                assert(w.stream() =~= s1 + syms_bits(enc, self.buf@.take(i as int)));
            }
        }
        proof {
            assert(self.buf@.take(self.buf@.len() as int) =~= self.buf@);
            assert(w.stream() =~= s0 + t + syms_bits(enc, all));
            assert(compressed_flush_witness(self.huffman, pre_syms, s0, w.stream(), flushed, enc, t));
            assert(s0.is_prefix_of(w.stream())) by {
                assert(w.stream().take(s0.len() as int) =~= s0);
            }
        }
        self.buf = Vec::new();
        self.original_size = 0;
    }
}

/// The active block's buffer, shaped once by the stream's block type.
pub enum BlockBuf<E> {
    Raw(RawBuf),
    Fixed(CompressBuf<FixedHuffmanCodec, E>),
    Dynamic(CompressBuf<DynamicHuffmanCodec, E>),
}

impl<E: Lz77Encode> BlockBuf<E> {
    pub open spec fn wf(self) -> bool {
        match self {
            BlockBuf::Raw(_) => true,
            BlockBuf::Fixed(b) => b.wf(),
            BlockBuf::Dynamic(b) => b.wf(),
        }
    }

    /// The buffered length, always in original, pre-compression bytes: this
    /// is what the threshold compares against.
    pub open spec fn len_spec(self) -> int {
        match self {
            BlockBuf::Raw(b) => b.buf@.len() as int,
            BlockBuf::Fixed(b) => b.original_size as int,
            BlockBuf::Dynamic(b) => b.original_size as int,
        }
    }

    /// The bytes a raw buffer holds; empty for the compressed buffers, whose
    /// content lives in symbols.
    pub open spec fn raw_content(self) -> Seq<u8> {
        match self {
            BlockBuf::Raw(b) => b.buf@,
            _ => Seq::empty(),
        }
    }

    /// The symbols a compressed buffer holds so far.
    pub open spec fn symbols(self) -> Seq<Symbol> {
        match self {
            BlockBuf::Raw(_) => Seq::empty(),
            BlockBuf::Fixed(b) => b.buf@,
            BlockBuf::Dynamic(b) => b.buf@,
        }
    }

    /// `self` is `from` after appends: the same codec, `from`'s symbols
    /// kept in place, and only in-range non-end-of-block symbols added.
    pub open spec fn appended_from(self, from: BlockBuf<E>) -> bool {
        match from {
            BlockBuf::Raw(_) => true,
            BlockBuf::Fixed(b) => self matches BlockBuf::Fixed(b2) && b2.huffman == b.huffman
                && b.buf@.is_prefix_of(b2.buf@) && valid_syms(
                b2.buf@.skip(b.buf@.len() as int),
            ),
            BlockBuf::Dynamic(b) => self matches BlockBuf::Dynamic(b2) && b2.huffman == b.huffman
                && b.buf@.is_prefix_of(b2.buf@) && valid_syms(
                b2.buf@.skip(b.buf@.len() as int),
            ),
        }
    }

    /// `post` extends `pre` by one complete compressed block body holding
    /// this buffer's symbols — plus whatever the match finder appends on
    /// the way, for a buffer flushed after further appends.
    pub open spec fn emits_compressed_block(self, pre: Seq<bool>, post: Seq<bool>) -> bool {
        match self {
            BlockBuf::Raw(_) => true,
            BlockBuf::Fixed(b) => exists|more: Seq<Symbol>|
                #[trigger] valid_syms(more) && compressed_flush_ok(
                    b.huffman,
                    b.buf@ + more,
                    pre,
                    post,
                ),
            BlockBuf::Dynamic(b) => exists|more: Seq<Symbol>|
                #[trigger] valid_syms(more) && compressed_flush_ok(
                    b.huffman,
                    b.buf@ + more,
                    pre,
                    post,
                ),
        }
    }

    pub fn new(lz77: Option<E>, dynamic: bool) -> (r: Self)
        ensures
            r.wf(),
            r.len_spec() == 0,
            (r is Raw) == (lz77 is None),
            (r is Dynamic) == (lz77 is Some && dynamic),
            (r is Fixed) == (lz77 is Some && !dynamic),
    {
        if let Some(lz77) = lz77 {
            if dynamic {
                BlockBuf::Dynamic(CompressBuf::new(DynamicHuffmanCodec, lz77))
            } else {
                BlockBuf::Fixed(CompressBuf::new(FixedHuffmanCodec, lz77))
            }
        } else {
            BlockBuf::Raw(RawBuf::new())
        }
    }

    /// Accepts and accumulates unconditionally; never emits anything.
    pub fn append(&mut self, buf: &[u8])
        requires
            old(self).wf(),
            old(self).len_spec() + buf@.len() <= usize::MAX,
        ensures
            final(self).wf(),
            final(self).len_spec() == old(self).len_spec() + buf@.len(),
            ((*final(self)) is Raw) == ((*old(self)) is Raw),
            ((*final(self)) is Fixed) == ((*old(self)) is Fixed),
            ((*final(self)) is Dynamic) == ((*old(self)) is Dynamic),
            (*old(self)) is Raw ==> final(self).raw_content() == old(self).raw_content() + buf@,
            final(self).appended_from(*old(self)),
    {
        match self {
            BlockBuf::Raw(b) => b.append(buf),
            BlockBuf::Fixed(b) => b.append(buf),
            BlockBuf::Dynamic(b) => b.append(buf),
        }
    }

    pub fn len(&self) -> (r: usize)
        ensures
            r == self.len_spec(),
    {
        match self {
            BlockBuf::Raw(b) => b.len(),
            BlockBuf::Fixed(b) => b.len(),
            BlockBuf::Dynamic(b) => b.len(),
        }
    }

    /// Emits the buffered content as one block body. The compressed modes
    /// always drain completely; raw mode emits at most 65535 bytes and may
    /// leave a remainder, so callers loop.
    pub fn flush(&mut self, w: &mut BitWriter)
        requires
            old(self).wf(),
            old(w).wf(),
        ensures
            final(self).wf(),
            final(w).wf(),
            old(w).stream().is_prefix_of(final(w).stream()),
            ((*final(self)) is Raw) == ((*old(self)) is Raw),
            ((*final(self)) is Fixed) == ((*old(self)) is Fixed),
            ((*final(self)) is Dynamic) == ((*old(self)) is Dynamic),
            final(self).len_spec() == if (*old(self)) is Raw {
                old(self).len_spec() - stored_size(old(self).len_spec())
            } else {
                0
            },
            (*old(self)) is Raw ==> ({
                let size = stored_size(old(self).raw_content().len() as int);
                &&& final(self).raw_content() == old(self).raw_content().skip(size)
                &&& final(w).aligned()
                &&& final(w).stream() == old(w).stream() + zeros(
                    pad_len(old(w).stream().len() as int),
                ) + bytes_bits(u16_le_bytes(size as u16)) + bytes_bits(
                    u16_le_bytes((0xFFFF - size) as u16),
                ) + bytes_bits(old(self).raw_content().take(size))
            }),
            !((*old(self)) is Raw) ==> old(self).emits_compressed_block(
                old(w).stream(),
                final(w).stream(),
            ),
    {
        match self {
            BlockBuf::Raw(b) => {
                let ghost pre = w.stream();
                b.flush(w);
                proof {
                    assert(pre.is_prefix_of(w.stream())) by {
                        assert(w.stream().take(pre.len() as int) =~= pre);
                    }
                }
            },
            BlockBuf::Fixed(b) => {
                let ghost syms = b.buf@;
                b.flush(w);
                proof {
                    assert(syms + Seq::<Symbol>::empty() =~= syms);
                    assert(valid_syms(Seq::<Symbol>::empty()));
                }
            },
            BlockBuf::Dynamic(b) => {
                let ghost syms = b.buf@;
                b.flush(w);
                proof {
                    assert(syms + Seq::<Symbol>::empty() =~= syms);
                    assert(valid_syms(Seq::<Symbol>::empty()));
                }
            },
        }
    }
}

/// The bytes left buffered after a threshold-driven raw drain stay under
/// the threshold.
pub proof fn lemma_raw_rest_lt(len: int, bsize: int)
    requires
        bsize >= 1,
    ensures
        raw_rest(len, bsize) < bsize,
    decreases len,
{
    if !(len < bsize) {
        lemma_raw_rest_lt(len - stored_size(len), bsize)
    }
}

/// The segmentation state machine: buffers appended bytes and cuts a
/// non-final block whenever the buffered length reaches the threshold;
/// `finish` terminates the stream with the one final block.
pub struct Block<E> {
    pub block_type: BlockType,
    pub block_size: usize,
    pub block_buf: BlockBuf<E>,
    /// The stream positions of the final-block flags written so far; while
    /// the stream is unfinished, every one of them is a zero bit.
    pub headers: Ghost<Seq<int>>,
}

impl<E: Lz77Encode> Block<E> {
    pub open spec fn wf(self) -> bool {
        &&& (self.block_type is Raw ==> self.block_size <= 0xFFFF)
        &&& (self.block_type is Raw) == (self.block_buf is Raw)
        &&& (self.block_type is Fixed) == (self.block_buf is Fixed)
        &&& (self.block_type is Dynamic) == (self.block_buf is Dynamic)
        &&& self.block_buf.wf()
    }

    /// The recorded final-block flags all lie inside `w`'s stream and are
    /// all zero: no final block has been emitted yet.
    pub open spec fn wf_with(self, w: BitWriter) -> bool {
        forall|i: int|
            0 <= i < self.headers@.len() ==> 0 <= #[trigger] self.headers@[i] < w.stream().len()
                && !w.stream()[self.headers@[i]]
    }

    pub fn new(options: EncodeOptions<E>) -> (r: Self)
        ensures
            r.wf(),
            r.headers@ == Seq::<int>::empty(),
            r.block_buf.len_spec() == 0,
            r.block_type == options.spec_block_type(),
            r.block_size == options.spec_block_size(),
    {
        let block_type = options.get_block_type();
        let block_size = options.get_block_size();
        let dynamic = options.dynamic_huffman;
        let block_buf = BlockBuf::new(options.lz77, dynamic);
        Block { block_type, block_size, block_buf, headers: Ghost(Seq::empty()) }
    }

    /// Buffers `buf`, then cuts non-final blocks while the buffered length
    /// reaches the threshold; raw mode may need several rounds, since one
    /// stored block holds at most 65535 bytes.
    pub fn write(&mut self, w: &mut BitWriter, buf: &[u8])
        requires
            old(self).wf(),
            old(w).wf(),
            old(self).wf_with(*old(w)),
            old(self).block_buf.len_spec() + buf@.len() <= usize::MAX,
        ensures
            final(self).wf(),
            final(w).wf(),
            final(self).wf_with(*final(w)),
            old(w).stream().is_prefix_of(final(w).stream()),
            final(self).block_type == old(self).block_type,
            final(self).block_size == old(self).block_size,
            old(self).headers@.is_prefix_of(final(self).headers@),
            (buf@.len() == 0 && old(self).block_buf.len_spec() < eff_size(
                old(self).block_size as int,
            ))
                ==> (*final(w) == *old(w) && final(self).headers@ == old(self).headers@
                && final(self).block_buf.len_spec() == old(self).block_buf.len_spec()),
            !(old(self).block_type is Raw) ==> ({
                let total = old(self).block_buf.len_spec() + buf@.len();
                if total >= eff_size(old(self).block_size as int) {
                    final(self).headers@.len() == old(self).headers@.len() + 1 && final(self).block_buf.len_spec() == 0
                } else {
                    final(self).headers@ == old(self).headers@ && final(self).block_buf.len_spec()
                        == total
                }
            }),
            (!(old(self).block_type is Raw) && old(self).block_buf.len_spec() + buf@.len()
                >= eff_size(old(self).block_size as int)) ==> old(
                self,
            ).block_buf.emits_compressed_block(
                old(w).stream() + seq![false] + field_bits(2, old(self).block_type.spec_code()),
                final(w).stream(),
            ),
            old(self).block_type is Raw ==> ({
                let total = old(self).block_buf.len_spec() + buf@.len();
                final(self).headers@.len() == old(self).headers@.len() + raw_chunks(
                    total,
                    eff_size(old(self).block_size as int),
                ) && final(self).block_buf.len_spec() == raw_rest(
                    total,
                    eff_size(old(self).block_size as int),
                )
            }),
            old(self).block_type is Raw ==> ({
                let content = old(self).block_buf.raw_content() + buf@;
                &&& final(w).stream() == old(w).stream() + raw_drain_bits(
                    old(w).stream().len() as int,
                    content,
                    eff_size(old(self).block_size as int),
                )
                &&& final(self).block_buf.raw_content() == raw_drain_rest(
                    content,
                    eff_size(old(self).block_size as int),
                )
            }),
    {
        self.block_buf.append(buf);
        let ghost total = old(self).block_buf.len_spec() + buf@.len();
        let cut: usize = if self.block_size == 0 {
            1
        } else {
            self.block_size
        };
        let mut len = self.block_buf.len();
        while len >= cut
            invariant
                self.wf(),
                w.wf(),
                len == self.block_buf.len_spec(),
                self.block_type == old(self).block_type,
                self.block_size == old(self).block_size,
                old(w).stream().is_prefix_of(w.stream()),
                self.wf_with(*w),
                old(self).headers@.is_prefix_of(self.headers@),
                cut == eff_size(self.block_size as int),
                total < cut ==> (*w == *old(w) && self.headers@ == old(self).headers@
                    && len == total),
                !(self.block_type is Raw) ==> ((len == total && self.headers@ == old(
                    self,
                ).headers@ && *w == *old(w) && self.block_buf.appended_from(
                    old(self).block_buf,
                )) || (len == 0 && self.headers@.len() == old(self).headers@.len() + 1
                    && total >= cut && old(self).block_buf.emits_compressed_block(
                    old(w).stream() + seq![false] + field_bits(2, self.block_type.spec_code()),
                    w.stream(),
                ))),
                self.block_type is Raw ==> (self.headers@.len() + raw_chunks(
                    len as int,
                    cut as int,
                ) == old(self).headers@.len() + raw_chunks(total, cut as int)
                    && raw_rest(len as int, cut as int) == raw_rest(
                    total,
                    cut as int,
                )),
                self.block_type is Raw ==> ({
                    let content0 = old(self).block_buf.raw_content() + buf@;
                    &&& len == self.block_buf.raw_content().len()
                    &&& old(w).stream() + raw_drain_bits(
                        old(w).stream().len() as int,
                        content0,
                        cut as int,
                    ) == w.stream() + raw_drain_bits(
                        w.stream().len() as int,
                        self.block_buf.raw_content(),
                        cut as int,
                    )
                    &&& raw_drain_rest(content0, cut as int) == raw_drain_rest(
                        self.block_buf.raw_content(),
                        cut as int,
                    )
                }),
            decreases len,
        {
            let ghost s_pre = w.stream();
            let ghost pos = s_pre.len() as int;
            let ghost bbc = self.block_buf;
            w.write_bit(false);
            let ghost s1 = w.stream();
            let c = self.block_type.code();
            w.write_bits(2, c);
            let ghost s2 = w.stream();
            self.block_buf.flush(w);
            proof {
                assert(s_pre.is_prefix_of(s1)) by {
                    assert(s1.take(pos) =~= s_pre);
                }
                assert(s1.is_prefix_of(s2)) by {
                    assert(s2.take(s1.len() as int) =~= s1);
                }
                lemma_prefix_trans(s1, s2, w.stream());
                lemma_prefix_trans(s_pre, s1, w.stream());
                lemma_prefix_trans(old(w).stream(), s_pre, w.stream());
                assert(s1[pos] == false);
                lemma_prefix_index(s1, w.stream(), pos);
                assert forall|i: int| 0 <= i < self.headers@.len() implies 0
                    <= #[trigger] self.headers@[i] < w.stream().len() && !w.stream()[self.headers@[i]] by {
                    lemma_prefix_index(s_pre, w.stream(), self.headers@[i]);
                }
                if !(self.block_type is Raw) {
                    assert(s2 =~= old(w).stream() + seq![false] + field_bits(
                        2,
                        self.block_type.spec_code(),
                    ));
                    match old(self).block_buf {
                        BlockBuf::Fixed(b) => {
                            match bbc {
                                BlockBuf::Fixed(b2) => {
                                    let more = b2.buf@.skip(b.buf@.len() as int);
                                    assert(b2.buf@ =~= b.buf@ + more);
                                    let more2 = choose|m: Seq<Symbol>|
                                        #[trigger] valid_syms(m) && compressed_flush_ok(
                                            b2.huffman,
                                            b2.buf@ + m,
                                            s2,
                                            w.stream(),
                                        );
                                    assert(b.buf@ + (more + more2) =~= b2.buf@ + more2);
                                    assert(valid_syms(more + more2));
                                    assert(compressed_flush_ok(
                                        b.huffman,
                                        b.buf@ + (more + more2),
                                        s2,
                                        w.stream(),
                                    ));
                                },
                                _ => {},
                            }
                        },
                        BlockBuf::Dynamic(b) => {
                            match bbc {
                                BlockBuf::Dynamic(b2) => {
                                    let more = b2.buf@.skip(b.buf@.len() as int);
                                    assert(b2.buf@ =~= b.buf@ + more);
                                    let more2 = choose|m: Seq<Symbol>|
                                        #[trigger] valid_syms(m) && compressed_flush_ok(
                                            b2.huffman,
                                            b2.buf@ + m,
                                            s2,
                                            w.stream(),
                                        );
                                    assert(b.buf@ + (more + more2) =~= b2.buf@ + more2);
                                    assert(valid_syms(more + more2));
                                    assert(compressed_flush_ok(
                                        b.huffman,
                                        b.buf@ + (more + more2),
                                        s2,
                                        w.stream(),
                                    ));
                                },
                                _ => {},
                            }
                        },
                        _ => {},
                    }
                    assert(old(self).block_buf.emits_compressed_block(
                        old(w).stream() + seq![false] + field_bits(
                            2,
                            self.block_type.spec_code(),
                        ),
                        w.stream(),
                    ));
                }
                if self.block_type is Raw {
                    let c0 = bbc.raw_content();
                    let size = stored_size(c0.len() as int);
                    let blk = seq![false] + field_bits(2, 0) + zeros(pad_len(s_pre.len() as int + 3))
                        + bytes_bits(u16_le_bytes(size as u16)) + bytes_bits(
                        u16_le_bytes((0xFFFF - size) as u16),
                    ) + bytes_bits(c0.take(size));
                    assert(s1 =~= s_pre + seq![false]);
                    assert(w.stream() =~= s_pre + blk);
                    assert(raw_drain_bits(s_pre.len() as int, c0, cut as int) == blk
                        + raw_drain_bits(s_pre.len() as int + blk.len(), c0.skip(size), cut as int));
                    assert(s_pre + raw_drain_bits(s_pre.len() as int, c0, cut as int)
                        =~= w.stream() + raw_drain_bits(
                        w.stream().len() as int,
                        self.block_buf.raw_content(),
                        cut as int,
                    ));
                }
            }
            self.headers = Ghost(self.headers@.push(pos));
            proof {
                assert(old(self).headers@.is_prefix_of(self.headers@)) by {
                    assert(self.headers@.take(old(self).headers@.len() as int) =~= old(
                        self,
                    ).headers@);
                }
            }
            len = self.block_buf.len();
        }
    }

    /// Ends the stream: every remaining buffered byte is emitted — raw mode
    /// loops, since one stored block holds at most 65535 bytes, and only
    /// the last block written carries the final-block flag — then the
    /// output is padded to a byte boundary.
    pub fn finish(self, w: &mut BitWriter)
        requires
            self.wf(),
            old(w).wf(),
            self.wf_with(*old(w)),
        ensures
            final(w).wf(),
            final(w).aligned(),
            old(w).stream().is_prefix_of(final(w).stream()),
            forall|i: int|
                0 <= i < self.headers@.len() ==> !final(w).stream()[#[trigger] self.headers@[i]],
            self.block_type is Raw ==> final(w).stream() == old(w).stream() + raw_finish_bits(
                old(w).stream().len() as int,
                self.block_buf.raw_content(),
            ),
            !(self.block_type is Raw) ==> (exists|mid: Seq<bool>|
                #[trigger] self.block_buf.emits_compressed_block(
                    old(w).stream() + seq![true] + field_bits(2, self.block_type.spec_code()),
                    mid,
                ) && final(w).stream() == mid + zeros(pad_len(mid.len() as int))),
            exists|ps: Seq<int>|
                {
                    &&& ps.len() >= 1
                    &&& (forall|i: int|
                        0 <= i < ps.len() ==> old(w).stream().len() <= #[trigger] ps[i] < final(w).stream().len())
                    &&& (forall|i: int| 0 <= i < ps.len() - 1 ==> !final(w).stream()[#[trigger] ps[i]])
                    &&& final(w).stream()[ps[ps.len() - 1]]
                },
    {
        let ghost orig = self;
        let mut this = self;
        let is_raw = match this.block_type {
            BlockType::Raw => true,
            _ => false,
        };
        let ghost mut ps = Seq::<int>::empty();
        if is_raw {
            let mut len = this.block_buf.len();
            while len > 0xFFFF
                invariant
                    this.wf(),
                    this.block_type is Raw,
                    w.wf(),
                    len == this.block_buf.len_spec(),
                    len <= orig.block_buf.len_spec(),
                    orig.block_buf.len_spec() <= 0xFFFF ==> (*w == *old(w) && this.block_buf
                        == orig.block_buf),
                    old(w).stream() + raw_finish_bits(
                        old(w).stream().len() as int,
                        orig.block_buf.raw_content(),
                    ) == w.stream() + raw_finish_bits(
                        w.stream().len() as int,
                        this.block_buf.raw_content(),
                    ),
                    old(w).stream().is_prefix_of(w.stream()),
                    this.wf_with(*w),
                    this.headers@ == self.headers@,
                    forall|i: int|
                        0 <= i < ps.len() ==> old(w).stream().len() <= #[trigger] ps[i]
                            < w.stream().len() && !w.stream()[ps[i]],
                decreases len,
            {
                let ghost s_pre = w.stream();
                let ghost pos = s_pre.len() as int;
                let ghost bbr = this.block_buf;
                w.write_bit(false);
                let ghost s1 = w.stream();
                w.write_bits(2, 0);
                let ghost s2 = w.stream();
                this.block_buf.flush(w);
                proof {
                    assert(s_pre.is_prefix_of(s1)) by {
                        assert(s1.take(pos) =~= s_pre);
                    }
                    assert(s1.is_prefix_of(s2)) by {
                        assert(s2.take(s1.len() as int) =~= s1);
                    }
                    lemma_prefix_trans(s1, s2, w.stream());
                    lemma_prefix_trans(s_pre, s1, w.stream());
                    lemma_prefix_trans(old(w).stream(), s_pre, w.stream());
                    assert(s1[pos] == false);
                    lemma_prefix_index(s1, w.stream(), pos);
                    assert forall|i: int| 0 <= i < this.headers@.len() implies 0
                        <= #[trigger] this.headers@[i] < w.stream().len()
                        && !w.stream()[this.headers@[i]] by {
                        lemma_prefix_index(s_pre, w.stream(), this.headers@[i]);
                    }
                    assert forall|i: int| 0 <= i < ps.len() implies old(w).stream().len()
                        <= #[trigger] ps[i] < w.stream().len() && !w.stream()[ps[i]] by {
                        lemma_prefix_index(s_pre, w.stream(), ps[i]);
                    }
                    ps = ps.push(pos);
                    let c0 = bbr.raw_content();
                    let blk = seq![false] + field_bits(2, 0) + zeros(
                        pad_len(s_pre.len() as int + 3),
                    ) + bytes_bits(u16_le_bytes(0xFFFF as u16)) + bytes_bits(
                        u16_le_bytes(0u16),
                    ) + bytes_bits(c0.take(0xFFFF));
                    assert(s1 =~= s_pre + seq![false]);
                    assert(w.stream() =~= s_pre + blk);
                    assert(raw_finish_bits(s_pre.len() as int, c0) == blk + raw_finish_bits(
                        s_pre.len() as int + blk.len(),
                        c0.skip(0xFFFF),
                    ));
                    assert(s_pre + raw_finish_bits(s_pre.len() as int, c0) =~= w.stream()
                        + raw_finish_bits(
                        w.stream().len() as int,
                        this.block_buf.raw_content(),
                    ));
                }
                len = this.block_buf.len();
            }
        }
        let ghost s_pre = w.stream();
        let ghost fpos = s_pre.len() as int;
        let ghost bbf = this.block_buf;
        w.write_bit(true);
        let ghost s1 = w.stream();
        let c = this.block_type.code();
        w.write_bits(2, c);
        let ghost s2 = w.stream();
        this.block_buf.flush(w);
        let ghost s3 = w.stream();
        let ghost w3 = *w;
        w.flush();
        proof {
            assert(s_pre.is_prefix_of(s1)) by {
                assert(s1.take(fpos) =~= s_pre);
            }
            assert(s1.is_prefix_of(s2)) by {
                assert(s2.take(s1.len() as int) =~= s1);
            }
            assert(s3.is_prefix_of(w.stream())) by {
                assert(w.stream().take(s3.len() as int) =~= s3);
            }
            lemma_prefix_trans(s1, s2, s3);
            lemma_prefix_trans(s1, s3, w.stream());
            lemma_prefix_trans(s_pre, s1, w.stream());
            lemma_prefix_trans(old(w).stream(), s_pre, w.stream());
            assert(s1[fpos] == true);
            lemma_prefix_index(s1, w.stream(), fpos);
            assert forall|i: int| 0 <= i < this.headers@.len() implies !w.stream()[#[trigger] this.headers@[i]] by {
                lemma_prefix_index(s_pre, w.stream(), this.headers@[i]);
            }
            assert forall|i: int| 0 <= i < ps.len() implies old(w).stream().len()
                <= #[trigger] ps[i] < w.stream().len() && !w.stream()[ps[i]] by {
                lemma_prefix_index(s_pre, w.stream(), ps[i]);
            }
            if !(this.block_type is Raw) {
                assert(bbf == self.block_buf);
                assert(s2 =~= old(w).stream() + seq![true] + field_bits(
                    2,
                    this.block_type.spec_code(),
                ));
                assert(self.block_buf.emits_compressed_block(
                    old(w).stream() + seq![true] + field_bits(2, this.block_type.spec_code()),
                    s3,
                ));
                assert(w.stream() == s3 + zeros(pad_len(s3.len() as int)));
            }
            if this.block_type is Raw {
                let c0 = bbf.raw_content();
                assert(c0.len() <= 0xFFFF);
                assert(s1 =~= s_pre + seq![true]);
                assert(c0.take(c0.len() as int) =~= c0);
                assert(w3.stream() =~= bytes_bits(w3.bytes@));
                lemma_bytes_bits_len(w3.bytes@);
                assert(pad_len(s3.len() as int) == 0);
                assert(w.stream() =~= s3);
                assert(raw_finish_bits(s_pre.len() as int, c0) == seq![true] + field_bits(2, 0)
                    + zeros(pad_len(s_pre.len() as int + 3)) + bytes_bits(
                    u16_le_bytes(c0.len() as u16),
                ) + bytes_bits(u16_le_bytes((0xFFFF - c0.len()) as u16)) + bytes_bits(c0));
                assert(w.stream() =~= s_pre + raw_finish_bits(s_pre.len() as int, c0));
                assert(w.stream() =~= old(w).stream() + raw_finish_bits(
                    old(w).stream().len() as int,
                    orig.block_buf.raw_content(),
                ));
            }
            let qs = ps.push(fpos);
            assert(qs.len() >= 1);
            assert(forall|i: int|
                0 <= i < qs.len() ==> old(w).stream().len() <= #[trigger] qs[i]
                    < w.stream().len());
            assert(forall|i: int| 0 <= i < qs.len() - 1 ==> !w.stream()[#[trigger] qs[i]]);
            assert(w.stream()[qs[qs.len() - 1]]);
        }
    }
}

/// The public streaming surface: owns the bit writer and the active block,
/// accepts byte writes, and is consumed by `finish`, which hands the sink
/// back.
pub struct Encoder<E> {
    pub writer: BitWriter,
    pub block: Block<E>,
}

impl Encoder<DefaultLz77Encoder> {
    /// An encoder over `inner` with the default options: dynamic Huffman
    /// codes and the default match finder.
    pub fn new(inner: Vec<u8>) -> (r: Self)
        ensures
            r.wf(),
            r.writer.bytes@ == inner@,
            r.buffered() == 0,
            r.headers().len() == 0,
    {
        Self::with_options(inner, EncodeOptions::new())
    }
}

impl<E: Lz77Encode> Encoder<E> {
    pub open spec fn wf(self) -> bool {
        &&& self.writer.wf()
        &&& self.block.wf()
        &&& self.block.wf_with(self.writer)
        &&& self.block.block_buf.len_spec() < eff_size(self.block.block_size as int)
    }

    /// Every bit written so far, including the bytes the sink already held.
    pub open spec fn stream(self) -> Seq<bool> {
        self.writer.stream()
    }

    /// The buffered length of the block in the making, in original bytes.
    pub open spec fn buffered(self) -> int {
        self.block.block_buf.len_spec()
    }

    /// The stream positions of the final-block flags of the blocks cut so
    /// far; all zero bits until `finish`.
    pub open spec fn headers(self) -> Seq<int> {
        self.block.headers@
    }

    pub open spec fn block_type_spec(self) -> BlockType {
        self.block.block_type
    }

    pub open spec fn block_size_spec(self) -> int {
        self.block.block_size as int
    }

    pub fn with_options(inner: Vec<u8>, options: EncodeOptions<E>) -> (r: Self)
        ensures
            r.wf(),
            r.writer.bytes@ == inner@,
            r.writer.aligned(),
            r.buffered() == 0,
            r.headers().len() == 0,
            r.block_type_spec() == options.spec_block_type(),
            r.block_size_spec() == options.spec_block_size(),
    {
        Encoder { writer: BitWriter::new(inner), block: Block::new(options) }
    }

    pub fn as_inner_ref(&self) -> (r: &Vec<u8>)
        ensures
            r@ == self.writer.bytes@,
    {
        self.writer.as_inner_ref()
    }

    /// The buffered length of the block in the making, in original bytes.
    pub fn buffered_len(&self) -> (r: usize)
        ensures
            r == self.buffered(),
    {
        self.block.block_buf.len()
    }

    /// Borrows the sink mutably, for advanced composition; a caller that
    /// changes already-written bytes is on its own.
    pub fn as_inner_mut(&mut self) -> (r: &mut Vec<u8>)
        ensures
            *r == old(self).writer.bytes,
            final(self).writer.bytes == *final(r),
            final(self).writer.pending == old(self).writer.pending,
            final(self).block == old(self).block,
    {
        &mut self.writer.bytes
    }

    /// Hands the sink back without finishing: buffered data and the bits of
    /// a partial byte are dropped, as nothing marked the stream finished.
    pub fn into_inner(self) -> (r: Vec<u8>)
        ensures
            r@ == self.writer.bytes@,
    {
        self.writer.into_inner()
    }

    /// Writes the whole buffer — never a short write — and cuts non-final
    /// blocks while the buffered length reaches the threshold.
    pub fn write(&mut self, buf: &[u8]) -> (n: usize)
        requires
            old(self).wf(),
            old(self).buffered() + buf@.len() <= usize::MAX,
        ensures
            final(self).wf(),
            n == buf@.len(),
            old(self).stream().is_prefix_of(final(self).stream()),
            final(self).block_type_spec() == old(self).block_type_spec(),
            final(self).block_size_spec() == old(self).block_size_spec(),
            old(self).headers().is_prefix_of(final(self).headers()),
            buf@.len() == 0 ==> final(self).stream() == old(self).stream() && final(self).headers()
                == old(self).headers() && final(self).buffered() == old(self).buffered(),
            !(old(self).block_type_spec() is Raw) ==> ({
                let total = old(self).buffered() + buf@.len();
                if total >= eff_size(old(self).block_size_spec()) {
                    final(self).headers().len() == old(self).headers().len() + 1 && final(self).buffered() == 0
                } else {
                    final(self).headers() == old(self).headers() && final(self).buffered() == total
                }
            }),
            old(self).block_type_spec() is Raw ==> ({
                let total = old(self).buffered() + buf@.len();
                final(self).headers().len() == old(self).headers().len() + raw_chunks(
                    total,
                    eff_size(old(self).block_size_spec()),
                ) && final(self).buffered() == raw_rest(total, eff_size(old(self).block_size_spec()))
            }),
            (!(old(self).block_type_spec() is Raw) && old(self).buffered() + buf@.len()
                >= eff_size(old(self).block_size_spec())) ==> old(
                self,
            ).block.block_buf.emits_compressed_block(
                old(self).stream() + seq![false] + field_bits(
                    2,
                    old(self).block_type_spec().spec_code(),
                ),
                final(self).stream(),
            ),
            old(self).block_type_spec() is Raw ==> ({
                let content = old(self).block.block_buf.raw_content() + buf@;
                &&& final(self).stream() == old(self).stream() + raw_drain_bits(
                    old(self).stream().len() as int,
                    content,
                    eff_size(old(self).block_size_spec()),
                )
                &&& final(self).block.block_buf.raw_content() == raw_drain_rest(
                    content,
                    eff_size(old(self).block_size_spec()),
                )
            }),
    {
        self.block.write(&mut self.writer, buf);
        proof {
            if self.block.block_type is Raw {
                lemma_raw_rest_lt(
                    old(self).buffered() + buf@.len() as int,
                    eff_size(self.block.block_size as int),
                );
            }
        }
        buf.len()
    }

    /// Ends the stream: emits the final block (raw mode may need several
    /// stored blocks; only the last one carries the final-block flag),
    /// drains every buffered byte, byte-aligns the output, and hands the
    /// sink back. Exactly one of the stream's block headers carries the
    /// final-block flag: the last one.
    pub fn finish(self) -> (out: Vec<u8>)
        requires
            self.wf(),
        ensures
            ({
                let bits = bytes_bits(out@);
                &&& self.stream().is_prefix_of(bits)
                &&& (forall|i: int|
                    0 <= i < self.headers().len() ==> !bits[#[trigger] self.headers()[i]])
                &&& (self.block_type_spec() is Raw ==> bits == self.stream() + raw_finish_bits(
                    self.stream().len() as int,
                    self.block.block_buf.raw_content(),
                ))
                &&& (!(self.block_type_spec() is Raw) ==> (exists|mid: Seq<bool>|
                    #[trigger] self.block.block_buf.emits_compressed_block(
                        self.stream() + seq![true] + field_bits(
                            2,
                            self.block_type_spec().spec_code(),
                        ),
                        mid,
                    ) && bits == mid + zeros(pad_len(mid.len() as int))))
                &&& (exists|ps: Seq<int>|
                    {
                        &&& ps.len() >= 1
                        &&& (forall|i: int|
                            0 <= i < ps.len() ==> self.stream().len() <= #[trigger] ps[i]
                                < bits.len())
                        &&& (forall|i: int| 0 <= i < ps.len() - 1 ==> !bits[#[trigger] ps[i]])
                        &&& bits[ps[ps.len() - 1]]
                    })
            }),
    {
        let ghost me = self;
        let Encoder { writer, block } = self;
        let mut writer = writer;
        block.finish(&mut writer);
        proof {
            assert(writer.stream() =~= bytes_bits(writer.bytes@));
            if me.block_type_spec() is Raw {
                assert(me.block.block_buf.len_spec() <= 0xFFFF);
            } else {
                let hdr = me.stream() + seq![true] + field_bits(
                    2,
                    me.block_type_spec().spec_code(),
                );
                let mid = choose|m: Seq<bool>|
                    #[trigger] me.block.block_buf.emits_compressed_block(hdr, m)
                        && writer.stream() == m + zeros(pad_len(m.len() as int));
                assert(me.block.block_buf.emits_compressed_block(hdr, mid));
            }
        }
        let out = writer.into_inner();
        out
    }
}

} // verus!
