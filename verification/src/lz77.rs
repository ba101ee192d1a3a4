//! The match-finder interface, its code alphabet, and the sink adapter that
//! turns match-finder codes into block symbols.

use vstd::prelude::*;
use crate::symbol::Symbol;

verus! {

/// A code emitted by a match finder: a literal byte, or a back-reference to
/// a run already emitted within the sliding window.
#[derive(Clone, Copy, Debug)]
pub enum Code {
    Literal(u8),
    Pointer { length: u16, backward_distance: u16 },
}

impl Code {
    pub open spec fn valid(self) -> bool {
        match self {
            Code::Literal(_) => true,
            Code::Pointer { length, backward_distance } => 3 <= length <= 258 && 1
                <= backward_distance <= 32768,
        }
    }

    pub open spec fn to_symbol(self) -> Symbol {
        match self {
            Code::Literal(b) => Symbol::Literal(b),
            Code::Pointer { length, backward_distance } => Symbol::Share {
                length,
                distance: backward_distance,
            },
        }
    }
}

/// Translates one match-finder code into a block symbol, one to one, and
/// appends it to the block's symbol accumulator, preserving emission order.
pub fn consume(sink: &mut Vec<Symbol>, code: Code)
    requires
        code.valid(),
    ensures
        final(sink)@ == old(sink)@.push(code.to_symbol()),
{
    let symbol = match code {
        Code::Literal(b) => Symbol::Literal(b),
        Code::Pointer { length, backward_distance } => Symbol::Share {
            length,
            distance: backward_distance,
        },
    };
    sink.push(symbol);
}

/// A pluggable match finder. It consumes bytes and pushes the symbols that
/// stand for them, in decoding order; it may retain unresolved look-ahead
/// until `flush`. Every symbol it emits is in-range for the format, and the
/// end-of-block marker is never its to emit.
pub trait Lz77Encode: Sized {
    /// Consumes `buf`, appending zero or more symbols to `sink`.
    fn encode(&mut self, buf: &[u8], sink: &mut Vec<Symbol>)
        ensures
            old(sink)@.is_prefix_of(final(sink)@),
            forall|i: int|
                old(sink)@.len() <= i < final(sink)@.len()
                    ==> (#[trigger] final(sink)@[i]).valid() && !final(sink)@[i].is_eob(),
    ;

    /// Forces any retained look-ahead out as symbols; called once before a
    /// block is cut.
    fn flush(&mut self, sink: &mut Vec<Symbol>)
        ensures
            old(sink)@.is_prefix_of(final(sink)@),
            forall|i: int|
                old(sink)@.len() <= i < final(sink)@.len()
                    ==> (#[trigger] final(sink)@[i]).valid() && !final(sink)@[i].is_eob(),
    ;
}

/// The default match finder: it emits every byte as a literal and retains no
/// look-ahead. A literal-only code stream is always valid, and the Huffman
/// stage still compresses skewed byte distributions; a back-reference
/// searcher can be plugged in through `Lz77Encode` instead.
#[derive(Debug)]
pub struct DefaultLz77Encoder;

impl DefaultLz77Encoder {
    pub fn new() -> (r: Self) {
        DefaultLz77Encoder
    }
}

impl Lz77Encode for DefaultLz77Encoder {
    fn encode(&mut self, buf: &[u8], sink: &mut Vec<Symbol>) {
        let mut i: usize = 0;
        proof {
            assert(sink@.take(sink@.len() as int) =~= sink@);
        }
        while i < buf.len()
            invariant
                i <= buf@.len(),
                old(sink)@.is_prefix_of(sink@),
                forall|j: int|
                    old(sink)@.len() <= j < sink@.len() ==> (#[trigger] sink@[j]).valid()
                        && !sink@[j].is_eob(),
            decreases buf@.len() - i,
        {
            consume(sink, Code::Literal(buf[i]));
            proof {
                assert(sink@.take(old(sink)@.len() as int) =~= old(sink)@);
            }
            i = i + 1;
        }
    }

    fn flush(&mut self, sink: &mut Vec<Symbol>) {
        proof {
            assert(sink@.take(sink@.len() as int) =~= sink@);
        }
    }
}

} // verus!
