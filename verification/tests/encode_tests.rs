use libflate::encode::EncodeOptions;
use libflate::encode::Encoder;
use libflate::lz77::DefaultLz77Encoder;
use libflate::lz77::Lz77Encode;
use libflate::symbol::Symbol;

/// A match finder for strictly periodic data: once a full period has been
/// seen, the rest is emitted as back-references to `period` bytes back.
struct PeriodicLz77 {
    period: usize,
    seen: usize,
}

impl Lz77Encode for PeriodicLz77 {
    fn encode(&mut self, buf: &[u8], sink: &mut Vec<Symbol>) {
        let mut i = 0;
        while i < buf.len() {
            if self.seen >= self.period && buf.len() - i >= 3 {
                let len = (buf.len() - i).min(258);
                sink.push(Symbol::Share { length: len as u16, distance: self.period as u16 });
                i += len;
                self.seen += len;
            } else {
                sink.push(Symbol::Literal(buf[i]));
                i += 1;
                self.seen += 1;
            }
        }
    }

    fn flush(&mut self, _sink: &mut Vec<Symbol>) {}
}

fn encode_raw(data: &[u8], block_size: usize) -> Vec<u8> {
    let opts = EncodeOptions::new().no_compression().block_size(block_size);
    let mut enc = Encoder::with_options(Vec::new(), opts);
    enc.write(data);
    enc.finish()
}

fn encode_fixed(data: &[u8], block_size: usize) -> Vec<u8> {
    let opts = EncodeOptions::new().fixed_huffman_codes().block_size(block_size);
    let mut enc = Encoder::with_options(Vec::new(), opts);
    enc.write(data);
    enc.finish()
}

fn encode_dynamic(data: &[u8], block_size: usize) -> Vec<u8> {
    let opts = EncodeOptions::new().dynamic_huffman_codes().block_size(block_size);
    let mut enc = Encoder::with_options(Vec::new(), opts);
    enc.write(data);
    enc.finish()
}

fn decode(data: &[u8]) -> Vec<u8> {
    miniz_oxide::inflate::decompress_to_vec(data).expect("stream must decode")
}

fn sample_data() -> Vec<u8> {
    let mut v = Vec::new();
    let text = b"the quick brown fox jumps over the lazy dog; ";
    while v.len() < 70000 {
        let i = v.len();
        v.push(text[i % text.len()] ^ ((i / 3001) as u8));
    }
    v
}

#[test]
fn round_trip_raw_all_block_sizes() {
    let data = sample_data();
    for bs in [1usize, 7, 1024, 65536, 1 << 20] {
        let out = encode_raw(&data, bs);
        assert_eq!(decode(&out), data, "raw mode, block size {}", bs);
    }
}

#[test]
fn round_trip_fixed_all_block_sizes() {
    let data = sample_data();
    for bs in [1usize, 7, 1024, 65536, 1 << 20] {
        let out = encode_fixed(&data, bs);
        assert_eq!(decode(&out), data, "fixed mode, block size {}", bs);
    }
}

#[test]
fn round_trip_dynamic_all_block_sizes() {
    let data = sample_data();
    for bs in [1usize, 7, 1024, 65536, 1 << 20] {
        let out = encode_dynamic(&data, bs);
        assert_eq!(decode(&out), data, "dynamic mode, block size {}", bs);
    }
}

#[test]
fn round_trip_empty_all_modes() {
    assert_eq!(decode(&encode_raw(b"", 1024)), b"");
    assert_eq!(decode(&encode_fixed(b"", 1024)), b"");
    assert_eq!(decode(&encode_dynamic(b"", 1024)), b"");
}

#[test]
fn empty_raw_stream_exact_bytes() {
    // one final stored block: header byte 0x01, LEN = 0, NLEN = 0xFFFF
    let out = encode_raw(b"", 1024);
    assert_eq!(out, vec![0x01, 0x00, 0x00, 0xFF, 0xFF]);
}

#[test]
fn empty_fixed_stream_exact_bytes() {
    // final flag, type 01, then the 7-bit end-of-block code 0000000
    let out = encode_fixed(b"", 1024);
    assert_eq!(out, vec![0x03, 0x00]);
}

#[test]
fn raw_split_blocks_over_65535() {
    let data = sample_data();
    assert!(data.len() > 65535);
    let out = encode_raw(&data, 1 << 20);
    assert_eq!(decode(&out), data);

    // walk the stored blocks: each begins byte-aligned with a header byte,
    // LEN and NLEN little endian, then LEN payload bytes
    let mut pos = 0usize;
    let mut blocks = 0usize;
    let mut finals = 0usize;
    let mut payload = Vec::new();
    while pos < out.len() {
        let header = out[pos];
        assert!(header == 0x00 || header == 0x01, "stored-block header byte");
        let len = u16::from_le_bytes([out[pos + 1], out[pos + 2]]);
        let nlen = u16::from_le_bytes([out[pos + 3], out[pos + 4]]);
        assert_eq!(nlen, !len, "NLEN must be the one's complement of LEN");
        payload.extend_from_slice(&out[pos + 5..pos + 5 + len as usize]);
        blocks += 1;
        if header == 0x01 {
            finals += 1;
            assert_eq!(pos + 5 + len as usize, out.len(), "final block is last");
        }
        pos += 5 + len as usize;
    }
    assert!(blocks > 1, "an input over 65535 bytes needs several stored blocks");
    assert_eq!(finals, 1, "exactly one block carries the final flag");
    assert_eq!(payload, data, "stored payloads hold the input verbatim");
}

#[test]
fn write_empty_changes_nothing() {
    let opts = EncodeOptions::new().block_size(64);
    let mut enc = Encoder::with_options(Vec::new(), opts);
    assert_eq!(enc.write(b""), 0);
    assert_eq!(enc.as_inner_ref().len(), 0);
    enc.write(b"hello");
    let emitted = enc.as_inner_ref().len();
    assert_eq!(enc.write(b""), 0);
    assert_eq!(enc.as_inner_ref().len(), emitted);
    assert_eq!(decode(&enc.finish()), b"hello");
}

#[test]
fn threshold_boundary_dynamic() {
    // one byte short of the threshold: nothing is emitted yet
    let opts = EncodeOptions::new().block_size(16);
    let mut enc = Encoder::with_options(Vec::new(), opts);
    enc.write(&[7u8; 15]);
    assert_eq!(enc.as_inner_ref().len(), 0, "below the threshold no block is cut");
    // the sixteenth byte triggers exactly one block
    enc.write(&[7u8; 1]);
    assert!(enc.as_inner_ref().len() > 0, "reaching the threshold cuts a block");
    let after_first = enc.as_inner_ref().len();
    // again one byte short: still nothing new
    enc.write(&[9u8; 15]);
    assert_eq!(enc.as_inner_ref().len(), after_first);
    let out = enc.finish();
    assert_eq!(decode(&out), [vec![7u8; 16], vec![9u8; 15]].concat());
}

#[test]
fn buffered_length_tracks_pending_bytes() {
    let opts = EncodeOptions::new().block_size(100);
    let mut enc = Encoder::with_options(Vec::new(), opts);
    assert_eq!(enc.buffered_len(), 0);
    enc.write(b"abcdef");
    assert_eq!(enc.buffered_len(), 6);
    enc.write(&[0u8; 94]);
    assert_eq!(enc.buffered_len(), 0, "the cut block empties the buffer");
}

#[test]
fn threshold_boundary_exact_append() {
    let opts = EncodeOptions::new().block_size(16);
    let mut enc = Encoder::with_options(Vec::new(), opts);
    enc.write(&[1u8; 16]);
    assert!(enc.as_inner_ref().len() > 0, "exactly the threshold cuts a block");
    assert_eq!(decode(&enc.finish()), vec![1u8; 16]);
}

#[test]
fn dynamic_not_larger_than_fixed_on_skewed_input() {
    let data = vec![0x61u8; 10000];
    let fixed = encode_fixed(&data, 1 << 20);
    let dynamic = encode_dynamic(&data, 1 << 20);
    assert_eq!(decode(&fixed), data);
    assert_eq!(decode(&dynamic), data);
    assert!(
        dynamic.len() <= fixed.len(),
        "dynamic codes must not lose to fixed on a one-byte alphabet: {} > {}",
        dynamic.len(),
        fixed.len()
    );
}

#[test]
fn scenario_hundred_thousand_a_dynamic() {
    let data = vec![0x41u8; 100000];
    let opts = EncodeOptions::new().block_size(1024);
    let mut enc = Encoder::with_options(Vec::new(), opts);
    // stream the input in small writes so several blocks are cut
    for chunk in data.chunks(1000) {
        enc.write(chunk);
    }
    let out = enc.finish();
    assert_eq!(decode(&out), data);
    assert!(
        out.len() * 5 < data.len(),
        "a one-byte alphabet must compress well: {} bytes out",
        out.len()
    );
}

#[test]
fn many_small_writes_roundtrip() {
    let data = sample_data();
    let opts = EncodeOptions::new().fixed_huffman_codes().block_size(997);
    let mut enc = Encoder::with_options(Vec::new(), opts);
    for chunk in data.chunks(61) {
        assert_eq!(enc.write(chunk), chunk.len());
    }
    assert_eq!(decode(&enc.finish()), data);
}

#[test]
fn encoder_new_defaults_roundtrip() {
    let data = sample_data();
    let mut enc = Encoder::new(Vec::new());
    enc.write(&data);
    assert_eq!(decode(&enc.finish()), data);
}

#[test]
fn with_lz77_explicit_match_finder() {
    let data = b"abcabcabcabc".to_vec();
    let opts = EncodeOptions::with_lz77(DefaultLz77Encoder::new()).block_size(4);
    let mut enc = Encoder::with_options(Vec::new(), opts);
    enc.write(&data);
    assert_eq!(decode(&enc.finish()), data);
}

#[test]
fn options_builders_set_fields() {
    let opts = EncodeOptions::new();
    assert_eq!(opts.block_size, 1024 * 1024);
    assert!(opts.dynamic_huffman);
    assert!(opts.lz77.is_some());
    let opts: EncodeOptions<DefaultLz77Encoder> = Default::default();
    assert_eq!(opts.block_size, 1024 * 1024);
    assert!(opts.dynamic_huffman);
    let opts = EncodeOptions::new().fixed_huffman_codes().block_size(333);
    assert_eq!(opts.block_size, 333);
    assert!(!opts.dynamic_huffman);
    let opts = EncodeOptions::<DefaultLz77Encoder>::new().no_compression();
    assert!(opts.lz77.is_none());
}

#[test]
fn sink_is_handed_back_with_existing_content() {
    let mut sink = Vec::new();
    sink.push(0xAAu8);
    let opts = EncodeOptions::new().no_compression();
    let mut enc = Encoder::with_options(sink, opts);
    enc.write(b"xyz");
    let out = enc.finish();
    assert_eq!(out[0], 0xAA, "pre-existing sink bytes stay in place");
    assert_eq!(decode(&out[1..]), b"xyz");
}

#[test]
fn into_inner_returns_sink() {
    let opts = EncodeOptions::new().no_compression().block_size(4);
    let mut enc = Encoder::with_options(Vec::new(), opts);
    enc.write(b"0123456789");
    // the threshold was crossed, so one stored block holding the whole run
    // is already committed: header, LEN, NLEN, ten payload bytes
    let committed = enc.into_inner();
    assert_eq!(committed.len(), 15);
}

#[test]
fn as_inner_mut_borrows_sink() {
    let opts = EncodeOptions::new().no_compression();
    let mut enc = Encoder::with_options(Vec::new(), opts);
    enc.write(b"ab");
    let inner = enc.as_inner_mut();
    assert_eq!(inner.len(), 0, "below the threshold nothing is committed");
    drop(enc);
}

#[test]
fn raw_block_size_clamped_to_format_limit() {
    // a raw threshold above 65535 behaves as 65535
    let data = vec![5u8; 70000];
    let out = encode_raw(&data, usize::MAX);
    assert_eq!(decode(&out), data);
    let len0 = u16::from_le_bytes([out[1], out[2]]);
    assert_eq!(len0, 65535, "first stored block is cut at the 16-bit limit");
}

#[test]
fn back_references_roundtrip_fixed_and_dynamic() {
    let pattern: Vec<u8> = (0..1000u32).map(|i| (i * 17 % 251) as u8).collect();
    let mut data = Vec::new();
    while data.len() < 50000 {
        data.extend_from_slice(&pattern);
    }
    data.truncate(50123);
    for dynamic in [false, true] {
        let opts = EncodeOptions::with_lz77(PeriodicLz77 { period: 1000, seen: 0 });
        let opts = if dynamic { opts.dynamic_huffman_codes() } else { opts.fixed_huffman_codes() };
        let mut enc = Encoder::with_options(Vec::new(), opts);
        enc.write(&data);
        let out = enc.finish();
        assert_eq!(decode(&out), data, "dynamic = {}", dynamic);
        assert!(out.len() * 10 < data.len(), "back-references must shrink periodic data");
    }
}

#[test]
fn short_distance_back_references_across_blocks() {
    let mut data = Vec::new();
    while data.len() < 4000 {
        data.extend_from_slice(b"abcde");
    }
    let opts = EncodeOptions::with_lz77(PeriodicLz77 { period: 5, seen: 0 }).block_size(512);
    let mut enc = Encoder::with_options(Vec::new(), opts);
    for chunk in data.chunks(700) {
        enc.write(chunk);
    }
    let out = enc.finish();
    assert_eq!(decode(&out), data);
}

#[test]
fn zero_block_size_is_clamped() {
    // a zero threshold behaves as one byte and still terminates
    let opts = EncodeOptions::new().block_size(0);
    let mut enc = Encoder::with_options(Vec::new(), opts);
    enc.write(b"hello");
    assert_eq!(decode(&enc.finish()), b"hello");
    let opts = EncodeOptions::new().no_compression().block_size(0);
    let mut enc = Encoder::with_options(Vec::new(), opts);
    enc.write(b"hello");
    assert_eq!(decode(&enc.finish()), b"hello");
}

#[test]
fn binary_data_all_byte_values_roundtrip() {
    let mut data = Vec::new();
    for i in 0..60000usize {
        data.push((i * 7 + i / 256) as u8);
    }
    for out in [
        encode_raw(&data, 8192),
        encode_fixed(&data, 8192),
        encode_dynamic(&data, 8192),
    ] {
        assert_eq!(decode(&out), data);
    }
}
