//! The compressed-stream alphabet and its Huffman coders.
//!
//! A compressed DEFLATE block is a sequence of symbols: literal bytes,
//! back-references, and one end-of-block marker. Each symbol is written as a
//! Huffman code from the literal/length alphabet (288 symbols), for
//! back-references followed by extra bits, a distance code (30 symbols) and
//! its extra bits.

use vstd::prelude::*;
use vstd::arithmetic::power2::{pow2, lemma_pow2_unfold, lemma_pow2_strictly_increases, lemma2_to64};
use crate::bits::{field_bits, huff_bits, lemma_prefix_trans, BitWriter};

verus! {

/// The literal/length alphabet index for a match length (3..=258).
pub open spec fn len_sym(l: int) -> int {
    if l <= 10 {
        254 + l
    } else if l == 258 {
        285
    } else if l <= 18 {
        265 + (l - 11) / 2
    } else if l <= 34 {
        269 + (l - 19) / 4
    } else if l <= 66 {
        273 + (l - 35) / 8
    } else if l <= 130 {
        277 + (l - 67) / 16
    } else {
        281 + (l - 131) / 32
    }
}

/// How many extra bits follow the length code for a match length.
pub open spec fn len_extra(l: int) -> int {
    if l <= 10 || l == 258 {
        0
    } else if l <= 18 {
        1
    } else if l <= 34 {
        2
    } else if l <= 66 {
        3
    } else if l <= 130 {
        4
    } else {
        5
    }
}

/// The value carried by the extra bits for a match length.
pub open spec fn len_extra_val(l: int) -> int {
    if l <= 10 || l == 258 {
        0
    } else if l <= 18 {
        (l - 11) % 2
    } else if l <= 34 {
        (l - 19) % 4
    } else if l <= 66 {
        (l - 35) % 8
    } else if l <= 130 {
        (l - 67) % 16
    } else {
        (l - 131) % 32
    }
}

/// The distance alphabet index for a back-reference distance (1..=32768).
pub open spec fn dist_sym(d: int) -> int {
    if d <= 4 {
        d - 1
    } else if d <= 8 {
        4 + (d - 5) / 2
    } else if d <= 16 {
        6 + (d - 9) / 4
    } else if d <= 32 {
        8 + (d - 17) / 8
    } else if d <= 64 {
        10 + (d - 33) / 16
    } else if d <= 128 {
        12 + (d - 65) / 32
    } else if d <= 256 {
        14 + (d - 129) / 64
    } else if d <= 512 {
        16 + (d - 257) / 128
    } else if d <= 1024 {
        18 + (d - 513) / 256
    } else if d <= 2048 {
        20 + (d - 1025) / 512
    } else if d <= 4096 {
        22 + (d - 2049) / 1024
    } else if d <= 8192 {
        24 + (d - 4097) / 2048
    } else if d <= 16384 {
        26 + (d - 8193) / 4096
    } else {
        28 + (d - 16385) / 8192
    }
}

/// How many extra bits follow the distance code.
pub open spec fn dist_extra(d: int) -> int {
    if d <= 4 {
        0
    } else if d <= 8 {
        1
    } else if d <= 16 {
        2
    } else if d <= 32 {
        3
    } else if d <= 64 {
        4
    } else if d <= 128 {
        5
    } else if d <= 256 {
        6
    } else if d <= 512 {
        7
    } else if d <= 1024 {
        8
    } else if d <= 2048 {
        9
    } else if d <= 4096 {
        10
    } else if d <= 8192 {
        11
    } else if d <= 16384 {
        12
    } else {
        13
    }
}

/// The value carried by the extra bits for a distance.
pub open spec fn dist_extra_val(d: int) -> int {
    if d <= 4 {
        0
    } else if d <= 8 {
        (d - 5) % 2
    } else if d <= 16 {
        (d - 9) % 4
    } else if d <= 32 {
        (d - 17) % 8
    } else if d <= 64 {
        (d - 33) % 16
    } else if d <= 128 {
        (d - 65) % 32
    } else if d <= 256 {
        (d - 129) % 64
    } else if d <= 512 {
        (d - 257) % 128
    } else if d <= 1024 {
        (d - 513) % 256
    } else if d <= 2048 {
        (d - 1025) % 512
    } else if d <= 4096 {
        (d - 2049) % 1024
    } else if d <= 8192 {
        (d - 4097) % 2048
    } else if d <= 16384 {
        (d - 8193) % 4096
    } else {
        (d - 16385) % 8192
    }
}

pub proof fn lemma_len_sym_range(l: int)
    requires
        3 <= l <= 258,
    ensures
        257 <= len_sym(l) <= 285,
{
}

pub proof fn lemma_dist_sym_range(d: int)
    requires
        1 <= d <= 32768,
    ensures
        0 <= dist_sym(d) <= 29,
{
}

/// The length code, its extra-bit count and extra-bit value for a match
/// length.
pub fn length_code(length: u16) -> (r: (u16, u8, u16))
    requires
        3 <= length <= 258,
    ensures
        r.0 == len_sym(length as int),
        r.1 == len_extra(length as int),
        r.2 == len_extra_val(length as int),
        257 <= r.0 <= 285,
        r.1 <= 5,
{
    if length <= 10 {
        (254 + length, 0, 0)
    } else if length == 258 {
        (285, 0, 0)
    } else if length <= 18 {
        (265 + (length - 11) / 2, 1, (length - 11) % 2)
    } else if length <= 34 {
        (269 + (length - 19) / 4, 2, (length - 19) % 4)
    } else if length <= 66 {
        (273 + (length - 35) / 8, 3, (length - 35) % 8)
    } else if length <= 130 {
        (277 + (length - 67) / 16, 4, (length - 67) % 16)
    } else {
        (281 + (length - 131) / 32, 5, (length - 131) % 32)
    }
}

/// The distance code, its extra-bit count and extra-bit value for a
/// back-reference distance.
pub fn dist_code(distance: u16) -> (r: (u16, u8, u16))
    requires
        1 <= distance <= 32768,
    ensures
        r.0 == dist_sym(distance as int),
        r.1 == dist_extra(distance as int),
        r.2 == dist_extra_val(distance as int),
        r.0 <= 29,
        r.1 <= 13,
{
    if distance <= 4 {
        (distance - 1, 0, 0)
    } else if distance <= 8 {
        (4 + (distance - 5) / 2, 1, (distance - 5) % 2)
    } else if distance <= 16 {
        (6 + (distance - 9) / 4, 2, (distance - 9) % 4)
    } else if distance <= 32 {
        (8 + (distance - 17) / 8, 3, (distance - 17) % 8)
    } else if distance <= 64 {
        (10 + (distance - 33) / 16, 4, (distance - 33) % 16)
    } else if distance <= 128 {
        (12 + (distance - 65) / 32, 5, (distance - 65) % 32)
    } else if distance <= 256 {
        (14 + (distance - 129) / 64, 6, (distance - 129) % 64)
    } else if distance <= 512 {
        (16 + (distance - 257) / 128, 7, (distance - 257) % 128)
    } else if distance <= 1024 {
        (18 + (distance - 513) / 256, 8, (distance - 513) % 256)
    } else if distance <= 2048 {
        (20 + (distance - 1025) / 512, 9, (distance - 1025) % 512)
    } else if distance <= 4096 {
        (22 + (distance - 2049) / 1024, 10, (distance - 2049) % 1024)
    } else if distance <= 8192 {
        (24 + (distance - 4097) / 2048, 11, (distance - 4097) % 2048)
    } else if distance <= 16384 {
        (26 + (distance - 8193) / 4096, 12, (distance - 8193) % 4096)
    } else {
        (28 + (distance - 16385) / 8192, 13, (distance - 16385) % 8192)
    }
}

/// One symbol of a compressed block.
#[derive(Clone, Copy, Debug)]
pub enum Symbol {
    /// A literal byte.
    Literal(u8),
    /// A back-reference: repeat `length` bytes starting `distance` bytes
    /// back.
    Share { length: u16, distance: u16 },
    /// The end-of-block marker, written exactly once, last.
    EndOfBlock,
}

impl Symbol {
    /// The symbol's fields lie in the ranges the format can express.
    pub open spec fn valid(self) -> bool {
        match self {
            Symbol::Literal(_) => true,
            Symbol::Share { length, distance } => 3 <= length <= 258 && 1 <= distance <= 32768,
            Symbol::EndOfBlock => true,
        }
    }

    pub open spec fn is_eob(self) -> bool {
        self is EndOfBlock
    }

    /// The symbol's index in the literal/length alphabet.
    pub open spec fn lit_index(self) -> int {
        match self {
            Symbol::Literal(b) => b as int,
            Symbol::Share { length, .. } => len_sym(length as int),
            Symbol::EndOfBlock => 256,
        }
    }
}

/// A built symbol coder: code lengths and canonical codes for the
/// literal/length alphabet and the distance alphabet.
pub struct SymbolEncoder {
    pub lit_lens: Vec<u8>,
    pub lit_codes: Vec<u16>,
    pub dist_lens: Vec<u8>,
    pub dist_codes: Vec<u16>,
}

impl SymbolEncoder {
    pub open spec fn wf(self) -> bool {
        &&& self.lit_lens@.len() == 288
        &&& self.lit_codes@.len() == 288
        &&& self.dist_lens@.len() == 30
        &&& self.dist_codes@.len() == 30
        &&& forall|i: int| 0 <= i < 288 ==> #[trigger] self.lit_lens@[i] <= 15
        &&& forall|i: int| 0 <= i < 30 ==> #[trigger] self.dist_lens@[i] <= 15
    }

    /// The coder holds a code for every code this symbol needs.
    pub open spec fn usable(self, s: Symbol) -> bool {
        &&& s.valid()
        &&& self.lit_lens@[s.lit_index()] >= 1
        &&& (s matches Symbol::Share { distance, .. } ==> self.dist_lens@[dist_sym(
            distance as int,
        )] >= 1)
    }

    pub open spec fn covers(self, syms: Seq<Symbol>) -> bool {
        forall|i: int| 0 <= i < syms.len() ==> self.usable(#[trigger] syms[i])
    }

    /// The exact bits this coder emits for one symbol.
    pub open spec fn sym_bits(self, s: Symbol) -> Seq<bool> {
        match s {
            Symbol::Literal(b) => huff_bits(
                self.lit_lens@[b as int] as int,
                self.lit_codes@[b as int],
            ),
            Symbol::EndOfBlock => huff_bits(self.lit_lens@[256] as int, self.lit_codes@[256]),
            Symbol::Share { length, distance } => {
                let li = len_sym(length as int);
                let di = dist_sym(distance as int);
                huff_bits(self.lit_lens@[li] as int, self.lit_codes@[li]) + field_bits(
                    len_extra(length as int),
                    len_extra_val(length as int) as u16,
                ) + huff_bits(self.dist_lens@[di] as int, self.dist_codes@[di]) + field_bits(
                    dist_extra(distance as int),
                    dist_extra_val(distance as int) as u16,
                )
            },
        }
    }

    /// Writes one symbol's code, and for back-references the extra bits and
    /// the distance code, to the bit sink.
    pub fn encode(&self, w: &mut BitWriter, s: Symbol)
        requires
            old(w).wf(),
            self.wf(),
            self.usable(s),
        ensures
            final(w).wf(),
            final(w).stream() == old(w).stream() + self.sym_bits(s),
    {
        match s {
            Symbol::Literal(b) => {
                let i = b as usize;
                w.write_huff(self.lit_lens[i], self.lit_codes[i]);
            },
            Symbol::EndOfBlock => {
                w.write_huff(self.lit_lens[256], self.lit_codes[256]);
            },
            Symbol::Share { length, distance } => {
                proof {
                    lemma_len_sym_range(length as int);
                    lemma_dist_sym_range(distance as int);
                }
                let (lc, le, lv) = length_code(length);
                w.write_huff(self.lit_lens[lc as usize], self.lit_codes[lc as usize]);
                w.write_bits(le, lv);
                let (dc, de, dv) = dist_code(distance);
                w.write_huff(self.dist_lens[dc as usize], self.dist_codes[dc as usize]);
                w.write_bits(de, dv);
                proof {
                    assert(w.stream() =~= old(w).stream() + self.sym_bits(s));
                }
            },
        }
    }
}

fn u64_zeros(n: usize) -> (v: Vec<u64>)
    ensures
        v@.len() == n,
        forall|i: int| 0 <= i < n ==> v@[i] == 0,
{
    let mut v: Vec<u64> = Vec::new();
    let mut i: usize = 0;
    while i < n
        invariant
            v@.len() == i,
            i <= n,
            forall|j: int| 0 <= j < i ==> v@[j] == 0,
        decreases n - i,
    {
        v.push(0);
        i = i + 1;
    }
    v
}

/// Assigns the canonical code bits for a set of code lengths, smallest codes
/// to the shortest lengths, in symbol order within one length, as the format
/// prescribes.
fn canonical_codes(lens: &Vec<u8>) -> (codes: Vec<u16>)
    requires
        lens@.len() <= 288,
        forall|i: int| 0 <= i < lens@.len() ==> #[trigger] lens@[i] <= 15,
    ensures
        codes@.len() == lens@.len(),
{
    let mut bl_count = u64_zeros(16);
    let mut i: usize = 0;
    while i < lens.len()
        invariant
            i <= lens@.len() <= 288,
            bl_count@.len() == 16,
            forall|t: int| 0 <= t < 16 ==> #[trigger] bl_count@[t] <= i,
            forall|t: int| 0 <= t < lens@.len() ==> #[trigger] lens@[t] <= 15,
        decreases lens@.len() - i,
    {
        let l = lens[i] as usize;
        bl_count[l] = bl_count[l] + 1;
        i = i + 1;
    }
    // symbols with length zero get no code and must not shift the bases
    bl_count[0] = 0;
    let mut next_code = u64_zeros(16);
    let mut code: u64 = 0;
    let mut bits: usize = 1;
    proof {
        lemma2_to64();
    }
    while bits < 16
        invariant
            next_code@.len() == 16,
            bl_count@.len() == 16,
            1 <= bits <= 16,
            code <= (pow2(bits as nat) - 1) * 576,
            forall|t: int| 0 <= t < 16 ==> #[trigger] bl_count@[t] <= 288,
            forall|t: int| 0 <= t < 16 ==> #[trigger] next_code@[t] <= 0x4000000,
        decreases 16 - bits,
    {
        proof {
            lemma2_to64();
            if bits < 15 {
                lemma_pow2_strictly_increases(bits as nat, 15);
            }
            lemma_pow2_unfold((bits + 1) as nat);
        }
        code = (code + bl_count[bits - 1]) * 2;
        next_code[bits] = code;
        bits = bits + 1;
    }
    let mut codes: Vec<u16> = Vec::new();
    let mut i: usize = 0;
    while i < lens.len()
        invariant
            codes@.len() == i,
            i <= lens@.len() <= 288,
            next_code@.len() == 16,
            forall|t: int| 0 <= t < lens@.len() ==> #[trigger] lens@[t] <= 15,
            forall|t: int| 0 <= t < 16 ==> #[trigger] next_code@[t] <= 0x4000000 + i,
        decreases lens@.len() - i,
    {
        let l = lens[i] as usize;
        if l == 0 {
            codes.push(0);
        } else {
            let c = next_code[l];
            codes.push((c % 32768) as u16);
            next_code[l] = c + 1;
        }
        i = i + 1;
    }
    codes
}

/// Chooses code lengths for an alphabet from its symbol frequencies: every
/// symbol that occurs gets a code, the most frequent symbols get the shorter
/// of the two lengths used, and the lengths always describe a well-formed
/// prefix code.
fn assign_lengths(freqs: &Vec<u64>) -> (lens: Vec<u8>)
    requires
        2 <= freqs@.len() <= 288,
    ensures
        lens@.len() == freqs@.len(),
        forall|i: int| 0 <= i < lens@.len() ==> #[trigger] lens@[i] <= 15,
        forall|i: int| 0 <= i < freqs@.len() && freqs@[i] > 0 ==> #[trigger] lens@[i] >= 1,
{
    let n = freqs.len();
    let mut sel: Vec<bool> = Vec::new();
    let mut m: usize = 0;
    let mut i: usize = 0;
    while i < n
        invariant
            sel@.len() == i,
            i <= n == freqs@.len(),
            m <= i,
            forall|j: int| 0 <= j < i ==> #[trigger] sel@[j] == (freqs@[j] > 0),
        decreases n - i,
    {
        if freqs[i] > 0 {
            m = m + 1;
            sel.push(true);
        } else {
            sel.push(false);
        }
        i = i + 1;
    }
    // a prefix code needs at least two distinct codes; pad with absent
    // symbols so the code stays complete
    if m < 2 {
        if !sel[0] {
            sel[0] = true;
            m = m + 1;
        }
    }
    if m < 2 {
        if !sel[1] {
            sel[1] = true;
            m = m + 1;
        }
    }
    // the smallest power of two that covers the selected symbols: all codes
    // get length k, except that the excess e = p - m most frequent symbols
    // get length k - 1, which keeps the code complete
    let mut k: usize = 1;
    let mut p: usize = 2;
    proof {
        lemma2_to64();
    }
    while p < m
        invariant
            1 <= k <= 9,
            p == pow2(k as nat),
            m <= freqs@.len() + 2,
            freqs@.len() <= 288,
            p == 2 || p < 2 * m,
        decreases 2 * m - p,
    {
        proof {
            lemma2_to64();
            assert(k <= 8) by {
                if k == 9 {
                    assert(p == 512);
                }
            }
            lemma_pow2_unfold((k + 1) as nat);
        }
        k = k + 1;
        p = p * 2;
    }
    let e: usize = p - m;
    let mut lens: Vec<u8> = Vec::new();
    let mut i: usize = 0;
    while i < n
        invariant
            lens@.len() == i,
            i <= n == freqs@.len(),
            sel@.len() == n,
            1 <= k <= 9,
            forall|j: int| 0 <= j < n && freqs@[j] > 0 ==> #[trigger] sel@[j],
            forall|j: int| 0 <= j < i ==> #[trigger] lens@[j] == (if sel@[j] {
                k as u8
            } else {
                0u8
            }),
        decreases n - i,
    {
        if sel[i] {
            lens.push(k as u8);
        } else {
            lens.push(0);
        }
        i = i + 1;
    }
    if k >= 2 {
        let mut slot: usize = 0;
        while slot < e
            invariant
                lens@.len() == n,
                sel@.len() == n,
                n == freqs@.len(),
                2 <= k <= 9,
                forall|j: int| 0 <= j < n && freqs@[j] > 0 ==> #[trigger] sel@[j],
                forall|j: int| 0 <= j < n && sel@[j] ==> 1 <= #[trigger] lens@[j] <= 15,
                forall|j: int| 0 <= j < n && !sel@[j] ==> #[trigger] lens@[j] == 0,
            decreases e - slot,
        {
            let mut best: usize = n;
            let mut bestf: u64 = 0;
            let mut j: usize = 0;
            while j < n
                invariant
                    j <= n,
                    lens@.len() == n,
                    sel@.len() == n,
                    n == freqs@.len(),
                    best == n || (best < n && sel@[best as int] && lens@[best as int] == k as u8),
                    k <= 9,
                decreases n - j,
            {
                if sel[j] && lens[j] == k as u8 && (best == n || freqs[j] > bestf) {
                    best = j;
                    bestf = freqs[j];
                }
                j = j + 1;
            }
            if best == n {
                break ;
            }
            lens[best] = (k - 1) as u8;
            slot = slot + 1;
        }
    }
    lens
}

/// The format's permuted transmission order of the code-length alphabet.
pub open spec fn clen_order_spec(i: int) -> int {
    if i == 0 {
        16
    } else if i == 1 {
        17
    } else if i == 2 {
        18
    } else if i == 3 {
        0
    } else if i == 4 {
        8
    } else if i == 5 {
        7
    } else if i == 6 {
        9
    } else if i == 7 {
        6
    } else if i == 8 {
        10
    } else if i == 9 {
        5
    } else if i == 10 {
        11
    } else if i == 11 {
        4
    } else if i == 12 {
        12
    } else if i == 13 {
        3
    } else if i == 14 {
        13
    } else if i == 15 {
        2
    } else if i == 16 {
        14
    } else if i == 17 {
        1
    } else {
        15
    }
}

fn clen_order(i: usize) -> (r: usize)
    requires
        i < 19,
    ensures
        r < 19,
        r == clen_order_spec(i as int),
{
    match i {
        0 => 16,
        1 => 17,
        2 => 18,
        3 => 0,
        4 => 8,
        5 => 7,
        6 => 9,
        7 => 6,
        8 => 10,
        9 => 5,
        10 => 11,
        11 => 4,
        12 => 12,
        13 => 3,
        14 => 13,
        15 => 2,
        16 => 14,
        17 => 1,
        _ => 15,
    }
}

/// The concatenated bits of a symbol sequence under one coder.
pub open spec fn syms_bits(enc: SymbolEncoder, syms: Seq<Symbol>) -> Seq<bool>
    decreases syms.len(),
{
    if syms.len() == 0 {
        Seq::empty()
    } else {
        syms_bits(enc, syms.drop_last()) + enc.sym_bits(syms.last())
    }
}

/// The 3-bit code-length-code lengths, transmitted in the format's permuted
/// order, for the first `n` entries of that order.
pub open spec fn clen_bits(ml: Seq<u8>, n: int) -> Seq<bool>
    decreases n,
{
    if n <= 0 {
        Seq::empty()
    } else {
        clen_bits(ml, n - 1) + field_bits(3, ml[clen_order_spec(n - 1)] as u16)
    }
}

/// A run of code lengths, each coded with the code-length code.
pub open spec fn coded_lens_bits(vals: Seq<u8>, ml: Seq<u8>, mc: Seq<u16>) -> Seq<bool>
    decreases vals.len(),
{
    if vals.len() == 0 {
        Seq::empty()
    } else {
        coded_lens_bits(vals.drop_last(), ml, mc) + huff_bits(
            ml[vals.last() as int] as int,
            mc[vals.last() as int],
        )
    }
}

/// The shape of a dynamic block's transmitted side table: how many
/// literal/length and distance code lengths are sent, and the code-length
/// code that codes them.
pub struct DynTableLayout {
    pub nlit: int,
    pub ndist: int,
    pub nclen: int,
    pub meta_lens: Seq<u8>,
    pub meta_codes: Seq<u16>,
}

impl DynTableLayout {
    /// The counts are in the format's ranges and everything cut off past
    /// them is a zero length.
    pub open spec fn wf(self, enc: SymbolEncoder) -> bool {
        &&& 257 <= self.nlit <= 288
        &&& 1 <= self.ndist <= 30
        &&& 4 <= self.nclen <= 19
        &&& self.meta_lens.len() == 19
        &&& self.meta_codes.len() == 19
        &&& (forall|v: int| 0 <= v < 19 ==> #[trigger] self.meta_lens[v] <= 15)
        &&& (forall|j: int| self.nlit <= j < 288 ==> enc.lit_lens@[j] == 0)
        &&& (forall|j: int| self.ndist <= j < 30 ==> enc.dist_lens@[j] == 0)
        &&& (forall|j: int| self.nclen <= j < 19 ==> self.meta_lens[clen_order_spec(j)] == 0)
    }

    /// The transmitted bits: the three counts, the code-length code in the
    /// permuted order, then the literal/length and distance code lengths of
    /// the coder, each coded with the code-length code.
    pub open spec fn bits(self, enc: SymbolEncoder) -> Seq<bool> {
        field_bits(5, (self.nlit - 257) as u16) + field_bits(5, (self.ndist - 1) as u16)
            + field_bits(4, (self.nclen - 4) as u16) + clen_bits(self.meta_lens, self.nclen)
            + coded_lens_bits(enc.lit_lens@.take(self.nlit), self.meta_lens, self.meta_codes)
            + coded_lens_bits(enc.dist_lens@.take(self.ndist), self.meta_lens, self.meta_codes)
    }
}

/// Builds a symbol coder for a block's symbols, and writes whatever side
/// table the decoder needs to rebuild it.
pub trait HuffmanCodec: Sized {
    /// Which side-table bits `save` may write for a given coder.
    spec fn saves_table(&self, enc: SymbolEncoder, t: Seq<bool>) -> bool;

    fn build(&self, symbols: &Vec<Symbol>) -> (enc: SymbolEncoder)
        requires
            forall|i: int| 0 <= i < symbols@.len() ==> (#[trigger] symbols@[i]).valid(),
        ensures
            enc.wf(),
            enc.covers(symbols@),
    ;

    fn save(&self, w: &mut BitWriter, enc: &SymbolEncoder)
        requires
            old(w).wf(),
            enc.wf(),
        ensures
            final(w).wf(),
            exists|t: Seq<bool>|
                final(w).stream() == old(w).stream() + t && #[trigger] self.saves_table(*enc, t),
    ;
}

/// The fixed Huffman coder: code lengths mandated by the format, so no side
/// table is written.
pub struct FixedHuffmanCodec;

/// The dynamic Huffman coder: code lengths chosen per block from the block's
/// own symbol frequencies; the code-length table itself is written to the
/// stream, coded with a second, transmitted code.
pub struct DynamicHuffmanCodec;

impl HuffmanCodec for FixedHuffmanCodec {
    /// The fixed tables are mandated by the format: nothing is transmitted.
    open spec fn saves_table(&self, enc: SymbolEncoder, t: Seq<bool>) -> bool {
        t == Seq::<bool>::empty()
    }

    fn build(&self, symbols: &Vec<Symbol>) -> (enc: SymbolEncoder) {
        let mut lit_lens: Vec<u8> = Vec::new();
        let mut i: usize = 0;
        while i < 288
            invariant
                lit_lens@.len() == i,
                i <= 288,
                forall|j: int| 0 <= j < i ==> 7 <= #[trigger] lit_lens@[j] <= 9,
            decreases 288 - i,
        {
            if i < 144 {
                lit_lens.push(8);
            } else if i < 256 {
                lit_lens.push(9);
            } else if i < 280 {
                lit_lens.push(7);
            } else {
                lit_lens.push(8);
            }
            i = i + 1;
        }
        let mut dist_lens: Vec<u8> = Vec::new();
        let mut i: usize = 0;
        while i < 30
            invariant
                dist_lens@.len() == i,
                i <= 30,
                forall|j: int| 0 <= j < i ==> #[trigger] dist_lens@[j] == 5,
            decreases 30 - i,
        {
            dist_lens.push(5);
            i = i + 1;
        }
        let lit_codes = canonical_codes(&lit_lens);
        let dist_codes = canonical_codes(&dist_lens);
        let enc = SymbolEncoder { lit_lens, lit_codes, dist_lens, dist_codes };
        proof {
            assert forall|i: int| 0 <= i < symbols@.len() implies enc.usable(
                #[trigger] symbols@[i],
            ) by {
                match symbols@[i] {
                    Symbol::Share { length, distance } => {
                        lemma_len_sym_range(length as int);
                        lemma_dist_sym_range(distance as int);
                    },
                    _ => {},
                }
            }
        }
        enc
    }

    fn save(&self, w: &mut BitWriter, enc: &SymbolEncoder) {
        proof {
            assert(w.stream() =~= w.stream() + Seq::<bool>::empty());
            assert(self.saves_table(*enc, Seq::<bool>::empty()));
        }
    }
}

impl HuffmanCodec for DynamicHuffmanCodec {
    /// The transmitted side table lays out the coder's own code lengths
    /// under some well-formed layout.
    open spec fn saves_table(&self, enc: SymbolEncoder, t: Seq<bool>) -> bool {
        exists|h: DynTableLayout| #[trigger] h.wf(enc) && t == h.bits(enc)
    }

    fn build(&self, symbols: &Vec<Symbol>) -> (enc: SymbolEncoder) {
        let mut lit_f = u64_zeros(288);
        let mut dist_f = u64_zeros(30);
        let mut i: usize = 0;
        while i < symbols.len()
            invariant
                i <= symbols@.len(),
                lit_f@.len() == 288,
                dist_f@.len() == 30,
                forall|t: int| 0 <= t < symbols@.len() ==> (#[trigger] symbols@[t]).valid(),
                forall|t: int| 0 <= t < 288 ==> #[trigger] lit_f@[t] <= i,
                forall|t: int| 0 <= t < 30 ==> #[trigger] dist_f@[t] <= i,
                forall|t: int|
                    0 <= t < i ==> lit_f@[(#[trigger] symbols@[t]).lit_index()] >= 1,
                forall|t: int|
                    0 <= t < i ==> ((#[trigger] symbols@[t]) matches Symbol::Share {
                        distance,
                        ..
                    } ==> dist_f@[dist_sym(distance as int)] >= 1),
            decreases symbols@.len() - i,
        {
            match symbols[i] {
                Symbol::Literal(b) => {
                    let x = b as usize;
                    lit_f[x] = lit_f[x] + 1;
                },
                Symbol::EndOfBlock => {
                    lit_f[256] = lit_f[256] + 1;
                },
                Symbol::Share { length, distance } => {
                    proof {
                        lemma_len_sym_range(length as int);
                        lemma_dist_sym_range(distance as int);
                    }
                    let (lc, _le, _lv) = length_code(length);
                    let x = lc as usize;
                    lit_f[x] = lit_f[x] + 1;
                    let (dc, _de, _dv) = dist_code(distance);
                    let y = dc as usize;
                    dist_f[y] = dist_f[y] + 1;
                },
            }
            i = i + 1;
        }
        let lit_lens = assign_lengths(&lit_f);
        let dist_lens = assign_lengths(&dist_f);
        let lit_codes = canonical_codes(&lit_lens);
        let dist_codes = canonical_codes(&dist_lens);
        let enc = SymbolEncoder { lit_lens, lit_codes, dist_lens, dist_codes };
        proof {
            assert forall|t: int| 0 <= t < symbols@.len() implies enc.usable(
                #[trigger] symbols@[t],
            ) by {
                match symbols@[t] {
                    Symbol::Share { length, distance } => {
                        lemma_len_sym_range(length as int);
                        lemma_dist_sym_range(distance as int);
                    },
                    _ => {},
                }
            }
        }
        enc
    }

    fn save(&self, w: &mut BitWriter, enc: &SymbolEncoder) {
        // how many literal/length and distance code lengths to transmit:
        // trailing zero lengths are cut, down to the format's minimums
        let mut nlit: usize = 288;
        while nlit > 257 && enc.lit_lens[nlit - 1] == 0
            invariant
                257 <= nlit <= 288,
                enc.wf(),
                forall|j: int| nlit <= j < 288 ==> enc.lit_lens@[j] == 0,
            decreases nlit,
        {
            nlit = nlit - 1;
        }
        let mut ndist: usize = 30;
        while ndist > 1 && enc.dist_lens[ndist - 1] == 0
            invariant
                1 <= ndist <= 30,
                enc.wf(),
                forall|j: int| ndist <= j < 30 ==> enc.dist_lens@[j] == 0,
            decreases ndist,
        {
            ndist = ndist - 1;
        }
        // frequencies of the transmitted length values; the run-length
        // metacodes 16..18 are not used, each length is sent literally
        let mut meta_f = u64_zeros(19);
        let mut i: usize = 0;
        while i < nlit
            invariant
                meta_f@.len() == 19,
                i <= nlit <= 288,
                enc.wf(),
                forall|t: int| 0 <= t < 19 ==> #[trigger] meta_f@[t] <= i,
            decreases nlit - i,
        {
            let v = enc.lit_lens[i] as usize;
            meta_f[v] = meta_f[v] + 1;
            i = i + 1;
        }
        let mut i: usize = 0;
        while i < ndist
            invariant
                meta_f@.len() == 19,
                i <= ndist <= 30,
                enc.wf(),
                forall|t: int| 0 <= t < 19 ==> #[trigger] meta_f@[t] <= 288 + i,
            decreases ndist - i,
        {
            let v = enc.dist_lens[i] as usize;
            meta_f[v] = meta_f[v] + 1;
            i = i + 1;
        }
        let meta_lens = assign_lengths(&meta_f);
        let meta_codes = canonical_codes(&meta_lens);
        // one past the last nonzero code-length code, in the format's
        // permuted order; at least the format's minimum of four
        let mut hi: usize = 0;
        let mut i: usize = 0;
        while i < 19
            invariant
                hi <= i <= 19,
                meta_lens@.len() == 19,
                forall|j: int| hi <= j < i ==> meta_lens@[clen_order_spec(j)] == 0,
            decreases 19 - i,
        {
            if meta_lens[clen_order(i)] != 0 {
                hi = i + 1;
            }
            i = i + 1;
        }
        let nclen: usize = if hi < 4 {
            4
        } else {
            hi
        };
        let ghost s0 = w.stream();
        w.write_bits(5, (nlit - 257) as u16);
        w.write_bits(5, (ndist - 1) as u16);
        w.write_bits(4, (nclen - 4) as u16);
        let ghost s_hdr = w.stream();
        let mut i: usize = 0;
        proof {
            assert(w.stream() =~= s_hdr + clen_bits(meta_lens@, 0));
        }
        while i < nclen
            invariant
                w.wf(),
                i <= nclen <= 19,
                meta_lens@.len() == 19,
                forall|t: int| 0 <= t < 19 ==> #[trigger] meta_lens@[t] <= 15,
                w.stream() == s_hdr + clen_bits(meta_lens@, i as int),
            decreases nclen - i,
        {
            w.write_bits(3, meta_lens[clen_order(i)] as u16);
            i = i + 1;
            proof {
                assert(w.stream() =~= s_hdr + clen_bits(meta_lens@, i as int));
            }
        }
        let ghost s_clen = w.stream();
        // the literal/length lengths, then the distance lengths, each coded
        // with the code-length code
        let mut i: usize = 0;
        proof {
            assert(enc.lit_lens@.take(nlit as int).take(0) =~= Seq::<u8>::empty());
            assert(w.stream() =~= s_clen + coded_lens_bits(
                enc.lit_lens@.take(0),
                meta_lens@,
                meta_codes@,
            ));
        }
        while i < nlit
            invariant
                w.wf(),
                i <= nlit <= 288,
                enc.wf(),
                meta_lens@.len() == 19,
                meta_codes@.len() == 19,
                forall|t: int| 0 <= t < 19 ==> #[trigger] meta_lens@[t] <= 15,
                w.stream() == s_clen + coded_lens_bits(
                    enc.lit_lens@.take(i as int),
                    meta_lens@,
                    meta_codes@,
                ),
            decreases nlit - i,
        {
            let v = enc.lit_lens[i] as usize;
            w.write_huff(meta_lens[v], meta_codes[v]);
            i = i + 1;
            proof {
                assert(enc.lit_lens@.take(i as int).drop_last() =~= enc.lit_lens@.take(
                    i as int - 1,
                ));
                assert(w.stream() =~= s_clen + coded_lens_bits(
                    enc.lit_lens@.take(i as int),
                    meta_lens@,
                    meta_codes@,
                ));
            }
        }
        let ghost s_lit = w.stream();
        let mut i: usize = 0;
        proof {
            assert(w.stream() =~= s_lit + coded_lens_bits(
                enc.dist_lens@.take(0),
                meta_lens@,
                meta_codes@,
            ));
        }
        while i < ndist
            invariant
                w.wf(),
                i <= ndist <= 30,
                enc.wf(),
                meta_lens@.len() == 19,
                meta_codes@.len() == 19,
                forall|t: int| 0 <= t < 19 ==> #[trigger] meta_lens@[t] <= 15,
                w.stream() == s_lit + coded_lens_bits(
                    enc.dist_lens@.take(i as int),
                    meta_lens@,
                    meta_codes@,
                ),
            decreases ndist - i,
        {
            let v = enc.dist_lens[i] as usize;
            w.write_huff(meta_lens[v], meta_codes[v]);
            i = i + 1;
            proof {
                assert(enc.dist_lens@.take(i as int).drop_last() =~= enc.dist_lens@.take(
                    i as int - 1,
                ));
                assert(w.stream() =~= s_lit + coded_lens_bits(
                    enc.dist_lens@.take(i as int),
                    meta_lens@,
                    meta_codes@,
                ));
            }
        }
        proof {
            let h = DynTableLayout {
                nlit: nlit as int,
                ndist: ndist as int,
                nclen: nclen as int,
                meta_lens: meta_lens@,
                meta_codes: meta_codes@,
            };
            assert(h.wf(*enc));
            assert(enc.lit_lens@.take(nlit as int) =~= enc.lit_lens@.take(h.nlit));
            assert(enc.dist_lens@.take(ndist as int) =~= enc.dist_lens@.take(h.ndist));
            assert(w.stream() =~= old(w).stream() + h.bits(*enc));
            assert(self.saves_table(*enc, h.bits(*enc)));
        }
    }
}

} // verus!
