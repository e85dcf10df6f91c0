//! Value compression by run-length encoding, with no outside dependency.
//!
//! Encoding, read left to right:
//! - `[MARKER, 0x00, byte, len_hi, len_lo]`: `byte` repeated `len_hi * 256 + len_lo` times;
//! - `[MARKER, 0x01]`: one literal `MARKER` byte;
//! - any other byte: itself.
//!
//! Runs of at least `MIN_RUN` equal bytes (at most `MAX_RUN` per token) are
//! encoded as run tokens. Data shorter than the configured minimum, or data
//! that would not shrink, is stored raw.
use vstd::prelude::*;

verus! {

/// Byte that opens an escape sequence.
pub const MARKER: u8 = 0xFF;

/// Shortest run that is encoded as a run token.
pub const MIN_RUN: usize = 4;

/// Longest run one token can describe.
pub const MAX_RUN: usize = 65535;

/// Compression settings.
#[derive(Debug, Clone, Copy)]
pub struct CompressionConfig {
    /// Only inputs at least this long are compressed.
    pub min_size: usize,
    /// Compression level (1 to 9); kept for callers, the encoding does not depend on it.
    pub level: u8,
}

impl Default for CompressionConfig {
    fn default() -> (c: Self)
        ensures
            c.min_size == 256,
            c.level == 3,
    {
        CompressionConfig { min_size: 256, level: 3 }
    }
}

/// A value as stored: run-length encoded, or raw.
#[derive(Debug, Clone)]
pub struct CompressedEntry {
    /// Encoded bytes, or the raw bytes when `compressed` is false.
    pub data: Vec<u8>,
    /// Length of the original value.
    pub original_size: usize,
    /// Whether `data` holds the encoding.
    pub compressed: bool,
}

/// Length of the run of bytes equal to `s[i]` starting at `i`, counting from
/// the `r` bytes already known to match, capped at `MAX_RUN`.
pub open spec fn run_from(s: Seq<u8>, i: int, r: int) -> int
    decreases s.len() - (i + r),
{
    if 0 <= i && 0 < r && i + r < s.len() && s[i + r] == s[i] && r < MAX_RUN {
        run_from(s, i, r + 1)
    } else {
        r
    }
}

/// Length of the run of bytes equal to `s[i]` starting at `i` (capped at `MAX_RUN`).
pub open spec fn run_at(s: Seq<u8>, i: int) -> int {
    run_from(s, i, 1)
}

/// The token that encodes the input from position `i` on, and how many input
/// bytes it covers.
pub open spec fn token_at(s: Seq<u8>, i: int) -> (Seq<u8>, int) {
    let run = run_at(s, i);
    if run >= MIN_RUN {
        (seq![MARKER, 0x00u8, s[i], (run / 256) as u8, (run % 256) as u8], run)
    } else if s[i] == MARKER {
        (seq![MARKER, 0x01u8], 1)
    } else {
        (seq![s[i]], 1)
    }
}

/// Encoding of the input from position `i` on.
pub open spec fn encode_from(s: Seq<u8>, i: int) -> Seq<u8>
    decreases s.len() - i,
{
    if i < 0 || i >= s.len() {
        Seq::empty()
    } else {
        if token_at(s, i).1 >= 1 && i + token_at(s, i).1 <= s.len() {
            token_at(s, i).0 + encode_from(s, i + token_at(s, i).1)
        } else {
            Seq::empty()
        }
    }
}

/// Run-length encoding of `s`.
pub open spec fn rle_encode(s: Seq<u8>) -> Seq<u8> {
    encode_from(s, 0)
}

/// Decoding of the encoded bytes `d` from position `i` on. Truncated tokens end
/// the output; a marker followed by an unknown tag is skipped.
pub open spec fn decode_from(d: Seq<u8>, i: int) -> Seq<u8>
    decreases d.len() - i,
{
    if i < 0 || i >= d.len() {
        Seq::empty()
    } else if d[i] == MARKER {
        if i + 1 >= d.len() {
            Seq::empty()
        } else if d[i + 1] == 0x00 {
            if i + 4 >= d.len() {
                Seq::empty()
            } else {
                Seq::new((d[i + 3] as nat) * 256 + (d[i + 4] as nat), |k: int| d[i + 2])
                    + decode_from(d, i + 5)
            }
        } else if d[i + 1] == 0x01 {
            seq![MARKER] + decode_from(d, i + 2)
        } else {
            decode_from(d, i + 2)
        }
    } else {
        seq![d[i]] + decode_from(d, i + 1)
    }
}

/// Run-length decoding of `d`.
pub open spec fn rle_decode(d: Seq<u8>) -> Seq<u8> {
    decode_from(d, 0)
}

/// Whether `compress` encodes `data` under minimum size `min_size`.
pub open spec fn should_compress(data: Seq<u8>, min_size: usize) -> bool {
    data.len() >= min_size && rle_encode(data).len() < data.len()
}

/// The stored bytes that `compress` produces for `data` under minimum size `min_size`.
pub open spec fn stored_bytes(data: Seq<u8>, min_size: usize) -> Seq<u8> {
    if should_compress(data, min_size) {
        rle_encode(data)
    } else {
        data
    }
}

/// What `decompress` gives back for stored bytes `bytes`.
pub open spec fn restored(compressed: bool, bytes: Seq<u8>) -> Seq<u8> {
    if compressed {
        rle_decode(bytes)
    } else {
        bytes
    }
}

impl CompressedEntry {
    /// Size of the stored bytes.
    pub fn compressed_size(&self) -> (n: usize)
        ensures
            n == self.data@.len(),
    {
        self.data.len()
    }

    /// The compression ratio as a fraction `(numerator, denominator)`:
    /// stored size over original size, or `(1, 1)` when the value is raw or empty.
    pub fn ratio_parts(&self) -> (r: (usize, usize))
        ensures
            (!self.compressed || self.original_size == 0) ==> r == (1usize, 1usize),
            (self.compressed && self.original_size != 0) ==> r == (
                self.data@.len() as usize,
                self.original_size,
            ),
    {
        if !self.compressed || self.original_size == 0 {
            (1, 1)
        } else {
            (self.data.len(), self.original_size)
        }
    }
}

/// Copy of a byte slice.
fn copy_bytes(data: &[u8]) -> (v: Vec<u8>)
    ensures
        v@ == data@,
{
    let mut v: Vec<u8> = Vec::with_capacity(data.len());
    let mut i: usize = 0;
    while i < data.len()
        invariant
            i <= data@.len(),
            v@ == data@.subrange(0, i as int),
        decreases data@.len() - i,
    {
        v.push(data[i]);
        i = i + 1;
    }
    v
}

/// Compress `data`: run-length encode it when it is at least `config.min_size`
/// long and the encoding is shorter; otherwise keep it raw.
pub fn compress(data: &[u8], config: &CompressionConfig) -> (e: CompressedEntry)
    ensures
        e.original_size == data@.len(),
        e.compressed == should_compress(data@, config.min_size),
        e.data@ == stored_bytes(data@, config.min_size),
{
    if data.len() < config.min_size {
        return CompressedEntry { data: copy_bytes(data), original_size: data.len(), compressed: false };
    }
    let encoded = rle_compress(data);
    if encoded.len() >= data.len() {
        return CompressedEntry { data: copy_bytes(data), original_size: data.len(), compressed: false };
    }
    CompressedEntry { data: encoded, original_size: data.len(), compressed: true }
}

/// Decompress a stored entry.
pub fn decompress(entry: &CompressedEntry) -> (out: Vec<u8>)
    ensures
        out@ == restored(entry.compressed, entry.data@),
{
    if !entry.compressed {
        return copy_bytes(entry.data.as_slice());
    }
    rle_decompress(entry.data.as_slice(), entry.original_size)
}

/// Run-length encode `data`.
pub fn rle_compress(data: &[u8]) -> (out: Vec<u8>)
    ensures
        out@ == rle_encode(data@),
{
    let ghost s = data@;
    let mut out: Vec<u8> = Vec::with_capacity(data.len());
    let mut i: usize = 0;
    while i < data.len()
        invariant
            i <= s.len(),
            s == data@,
            out@ + encode_from(s, i as int) == rle_encode(s),
        decreases s.len() - i,
    {
        let byte = data[i];
        let mut run_len: usize = 1;
        while i + run_len < data.len() && data[i + run_len] == byte && run_len < MAX_RUN
            invariant
                i < s.len(),
                s == data@,
                byte == s[i as int],
                1 <= run_len <= MAX_RUN,
                i + run_len <= s.len(),
                s.len() == data.len(),
                run_from(s, i as int, run_len as int) == run_at(s, i as int),
            decreases s.len() - i - run_len,
        {
            run_len = run_len + 1;
        }
        proof {
            assert(run_from(s, i as int, run_len as int) == run_len);
            lemma_encode_step(s, i as int);
        }
        let ghost prev = out@;
        let ghost next = encode_from(s, i + token_at(s, i as int).1);
        proof {
            assert(prev + encode_from(s, i as int) == rle_encode(s));
            assert(prev + (token_at(s, i as int).0 + next) =~= (prev + token_at(s, i as int).0) + next);
        }
        if run_len >= MIN_RUN {
            let hi = (run_len >> 8) as u8;
            let lo = (run_len & 0xFF) as u8;
            proof {
                lemma_split_run(run_len);
            }
            out.push(MARKER);
            out.push(0x00);
            out.push(byte);
            out.push(hi);
            out.push(lo);
            proof {
                assert(out@ =~= prev + token_at(s, i as int).0);
            }
            i = i + run_len;
        } else if byte == MARKER {
            out.push(MARKER);
            out.push(0x01);
            proof {
                assert(out@ =~= prev + token_at(s, i as int).0);
            }
            i = i + 1;
        } else {
            out.push(byte);
            proof {
                assert(out@ =~= prev + token_at(s, i as int).0);
            }
            i = i + 1;
        }
    }
    out
}

/// Decode run-length encoded `data`; `expected_size` only sizes the buffer.
pub fn rle_decompress(data: &[u8], expected_size: usize) -> (out: Vec<u8>)
    ensures
        out@ == rle_decode(data@),
{
    let ghost d = data@;
    let mut out: Vec<u8> = Vec::with_capacity(expected_size);
    let mut i: usize = 0;
    while i < data.len()
        invariant
            i <= d.len(),
            d == data@,
            out@ + decode_from(d, i as int) == rle_decode(d),
        ensures
            out@ == rle_decode(d),
        decreases d.len() - i,
    {
        if data[i] == MARKER {
            if data.len() - i <= 1 {
                proof {
                    assert(out@ =~= out@ + decode_from(d, i as int));
                }
                break;
            }
            if data[i + 1] == 0x00 {
                if data.len() - i <= 4 {
                    proof {
                        assert(out@ =~= out@ + decode_from(d, i as int));
                    }
                    break;
                }
                let byte = data[i + 2];
                let len = ((data[i + 3] as usize) << 8) | (data[i + 4] as usize);
                proof {
                    lemma_join_len(data[i + 3 as int], data[i + 4 as int]);
                }
                let ghost before = out@;
                let mut k: usize = 0;
                while k < len
                    invariant
                        k <= len,
                        out@ == before + Seq::new(k as nat, |j: int| byte),
                    decreases len - k,
                {
                    out.push(byte);
                    proof {
                        assert(out@ =~= before + Seq::new((k + 1) as nat, |j: int| byte));
                    }
                    k = k + 1;
                }
                proof {
                    assert(Seq::new(len as nat, |j: int| byte) =~= Seq::new(
                        (d[i + 3] as nat) * 256 + (d[i + 4] as nat),
                        |j: int| d[i + 2],
                    ));
                    assert(out@ + decode_from(d, i + 5) =~= before + decode_from(d, i as int));
                }
                i = i + 5;
            } else if data[i + 1] == 0x01 {
                proof {
                    assert(out@.push(MARKER) + decode_from(d, i + 2) =~= out@ + decode_from(d, i as int));
                }
                out.push(MARKER);
                i = i + 2;
            } else {
                i = i + 2;
            }
        } else {
            proof {
                assert(out@.push(data[i as int]) + decode_from(d, i + 1) =~= out@ + decode_from(d, i as int));
            }
            out.push(data[i]);
            i = i + 1;
        }
    }
    out
}

/// Splitting a run length into high and low bytes is exact.
proof fn lemma_split_run(r: usize)
    requires
        r <= MAX_RUN,
    ensures
        (r >> 8) as u8 == (r / 256) as u8,
        (r & 0xFF) as u8 == (r % 256) as u8,
        r / 256 < 256,
{
    assert((r >> 8) == r / 256) by (bit_vector);
    assert((r & 0xFF) == r % 256) by (bit_vector);
}

/// Joining a high and a low byte gives `hi * 256 + lo`.
proof fn lemma_join_len(hi: u8, lo: u8)
    ensures
        (((hi as usize) << 8) | (lo as usize)) == (hi as nat) * 256 + (lo as nat),
{
    assert((((hi as usize) << 8) | (lo as usize)) == (hi as usize) * 256 + (lo as usize)) by (bit_vector);
}

/// Bounds on the run length: at least one byte, at most `MAX_RUN`, within the input.
proof fn lemma_run_bounds(s: Seq<u8>, i: int, r: int)
    requires
        0 <= i,
        1 <= r <= MAX_RUN,
        i + r <= s.len(),
        forall|k: int| i <= k < i + r ==> #[trigger] s[k] == s[i],
    ensures
        r <= run_from(s, i, r) <= MAX_RUN,
        i + run_from(s, i, r) <= s.len(),
        forall|k: int| i <= k < i + run_from(s, i, r) ==> #[trigger] s[k] == s[i],
    decreases s.len() - (i + r),
{
    if i + r < s.len() && s[i + r] == s[i] && r < MAX_RUN {
        assert forall|k: int| i <= k < i + r + 1 implies #[trigger] s[k] == s[i] by {
            if k < i + r {
            }
        }
        lemma_run_bounds(s, i, r + 1);
    }
}

/// One step of the encoder: the encoding from `i` is the token at `i`
/// followed by the encoding after the bytes it covers.
proof fn lemma_encode_step(s: Seq<u8>, i: int)
    requires
        0 <= i < s.len(),
    ensures
        1 <= run_at(s, i) <= MAX_RUN,
        i + run_at(s, i) <= s.len(),
        forall|k: int| i <= k < i + run_at(s, i) ==> #[trigger] s[k] == s[i],
        token_at(s, i).1 >= 1,
        i + token_at(s, i).1 <= s.len(),
        encode_from(s, i) == token_at(s, i).0 + encode_from(s, i + token_at(s, i).1),
{
    lemma_run_bounds(s, i, 1);
}

/// Decoding is unaffected by bytes placed in front of the position being decoded.
proof fn lemma_decode_shift(p: Seq<u8>, q: Seq<u8>, j: int)
    requires
        0 <= j,
    ensures
        decode_from(p + q, p.len() + j) == decode_from(q, j),
    decreases q.len() - j,
{
    let d = p + q;
    let i = p.len() + j;
    if j < q.len() {
        assert(d[i] == q[j]);
        if q[j] == MARKER {
            if j + 1 < q.len() {
                assert(d[i + 1] == q[j + 1]);
                if q[j + 1] == 0x00 {
                    if j + 4 < q.len() {
                        assert(d[i + 2] == q[j + 2]);
                        assert(d[i + 3] == q[j + 3]);
                        assert(d[i + 4] == q[j + 4]);
                        lemma_decode_shift(p, q, j + 5);
                    }
                } else {
                    lemma_decode_shift(p, q, j + 2);
                }
            }
        } else {
            lemma_decode_shift(p, q, j + 1);
        }
    }
}

/// Decoding the encoding of `s` from position `i` gives back `s` from `i` on.
proof fn lemma_decode_encode_from(s: Seq<u8>, i: int)
    requires
        0 <= i <= s.len(),
    ensures
        rle_decode(encode_from(s, i)) == s.subrange(i, s.len() as int),
    decreases s.len() - i,
{
    if i == s.len() {
        assert(s.subrange(i, s.len() as int) =~= Seq::<u8>::empty());
    } else {
        lemma_encode_step(s, i);
        let (tok, adv) = token_at(s, i);
        let rest = encode_from(s, i + adv);
        lemma_decode_encode_from(s, i + adv);
        lemma_decode_shift(tok, rest, 0);
        let run = run_at(s, i);
        let e = tok + rest;
        if run >= MIN_RUN {
            assert(e[0] == MARKER && e[1] == 0x00 && e[2] == s[i]);
            assert(e[3] == (run / 256) as u8 && e[4] == (run % 256) as u8);
            assert((e[3] as nat) * 256 + (e[4] as nat) == run);
            assert(Seq::new((e[3] as nat) * 256 + (e[4] as nat), |k: int| e[2]) =~= s.subrange(
                i,
                i + run,
            ));
            assert(decode_from(e, 0) == Seq::new((e[3] as nat) * 256 + (e[4] as nat), |k: int| e[2])
                + decode_from(e, 5));
            assert(s.subrange(i, i + run) + s.subrange(i + run, s.len() as int) =~= s.subrange(
                i,
                s.len() as int,
            ));
        } else if s[i] == MARKER {
            assert(e[0] == MARKER && e[1] == 0x01);
            assert(decode_from(e, 0) == seq![MARKER] + decode_from(e, 2));
            assert(seq![MARKER] + s.subrange(i + 1, s.len() as int) =~= s.subrange(i, s.len() as int));
        } else {
            assert(e[0] == s[i]);
            assert(decode_from(e, 0) == seq![s[i]] + decode_from(e, 1));
            assert(seq![s[i]] + s.subrange(i + 1, s.len() as int) =~= s.subrange(i, s.len() as int));
        }
    }
}

/// Round trip of the encoding: decoding the encoding of `s` gives back `s`.
pub proof fn lemma_rle_roundtrip(s: Seq<u8>)
    ensures
        rle_decode(rle_encode(s)) == s,
{
    lemma_decode_encode_from(s, 0);
    assert(s.subrange(0, s.len() as int) =~= s);
}

/// Round trip of a stored entry: what `decompress` gives back for the entry
/// that `compress` makes of `data` is `data`, whatever the minimum size.
pub proof fn lemma_compress_roundtrip(data: Seq<u8>, min_size: usize)
    ensures
        restored(should_compress(data, min_size), stored_bytes(data, min_size)) == data,
{
    lemma_rle_roundtrip(data);
}

/// Compression statistics.
#[derive(Debug, Clone, Copy, Default)]
pub struct CompressionStats {
    /// Entries stored encoded.
    pub compressed_count: u64,
    /// Entries stored raw.
    pub skipped_count: u64,
    /// Sum of the original sizes.
    pub total_original: u64,
    /// Sum of the stored sizes.
    pub total_compressed: u64,
}

impl CompressionStats {
    /// The overall ratio as a fraction `(total_compressed, total_original)`,
    /// or `(1, 1)` when nothing was recorded.
    pub fn overall_ratio_parts(&self) -> (r: (u64, u64))
        ensures
            self.total_original == 0 ==> r == (1u64, 1u64),
            self.total_original != 0 ==> r == (self.total_compressed, self.total_original),
    {
        if self.total_original == 0 {
            (1, 1)
        } else {
            (self.total_compressed, self.total_original)
        }
    }

    /// Record one entry.
    pub fn record(&mut self, entry: &CompressedEntry)
        requires
            old(self).total_original + entry.original_size <= u64::MAX,
            old(self).total_compressed + entry.data@.len() <= u64::MAX,
            entry.compressed ==> old(self).compressed_count < u64::MAX,
            !entry.compressed ==> old(self).skipped_count < u64::MAX,
        ensures
            final(self).total_original == old(self).total_original + entry.original_size,
            final(self).total_compressed == old(self).total_compressed + entry.data@.len(),
            final(self).compressed_count == old(self).compressed_count + if entry.compressed {
                1int
            } else {
                0int
            },
            final(self).skipped_count == old(self).skipped_count + if entry.compressed {
                0int
            } else {
                1int
            },
    {
        self.total_original = self.total_original + entry.original_size as u64;
        self.total_compressed = self.total_compressed + entry.data.len() as u64;
        if entry.compressed {
            self.compressed_count = self.compressed_count + 1;
        } else {
            self.skipped_count = self.skipped_count + 1;
        }
    }
}

} // verus!
