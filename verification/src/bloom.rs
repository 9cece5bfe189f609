//! Bloom filters: a compact "definitely not here" for one column chunk.
//!
//! A Bloom filter is a bitset. To add a value, a writer hashes it and sets a few bits the hash
//! picks. To test a value, a reader hashes it and checks those bits: if any is clear, the value
//! was never added. If all are set, it may have been, or other values may have set them.
//!
//! Parquet uses one kind: the **split block Bloom filter**. The bitset is a run of 32-byte
//! blocks, each eight 32-bit words. A value's hash picks one block, then one bit in each of its
//! eight words. The hash is xxHash64 of the value's PLAIN bytes, with seed 0.

use vstd::prelude::*;
use vstd::wrapping::u64_specs::{wrapping_add as wadd, wrapping_mul as wmul, wrapping_sub as wsub};

use crate::bytes::{bytes_error_text, le_u32_value, le_u64_value, ByteReader, BytesError, Span};
use crate::logical::{le_u32_at, le_u64_at};
use crate::metadata::{
    as_struct, bits64, metadata_error_text, req_int, required_int, struct_of,
};
use crate::text::{push_i64, signed_dec};
use crate::thrift::{
    field_view, field_views, find_field, lemma_find_field_views, node_view, read_struct,
    thrift_error_text, tstruct, FieldV, Node, NodeV, Struct,
};

verus! {

pub const P1: u64 = 0x9E37_79B1_85EB_CA87;

pub const P2: u64 = 0xC2B2_AE3D_27D4_EB4F;

pub const P3: u64 = 0x1656_67B1_9E37_79F9;

pub const P4: u64 = 0x85EB_CA77_C2B2_AE63;

pub const P5: u64 = 0x27D4_EB2F_1656_67C5;

/// The bits of `x` rotated `r` places towards the most significant end.
pub open spec fn rotl(x: u64, r: u32) -> u64 {
    (x << r) | (x >> (64u32 - r))
}

fn rotate(x: u64, r: u32) -> (y: u64)
    requires
        0 < r < 64,
    ensures
        y == rotl(x, r),
{
    (x << r) | (x >> (64u32 - r))
}

/// One round of an accumulator: add the input times P2, rotate, multiply by P1.
pub open spec fn round_of(acc: u64, input: u64) -> u64 {
    wmul(rotl(wadd(acc, wmul(input, P2)), 31), P1)
}

/// Fold an accumulator into the hash.
pub open spec fn merge_of(acc: u64, v: u64) -> u64 {
    wadd(wmul(acc ^ round_of(0, v), P1), P4)
}

fn round(acc: u64, input: u64) -> (r: u64)
    ensures
        r == round_of(acc, input),
{
    rotate(acc.wrapping_add(input.wrapping_mul(P2)), 31).wrapping_mul(P1)
}

fn merge(acc: u64, v: u64) -> (r: u64)
    ensures
        r == merge_of(acc, v),
{
    (acc ^ round(0, v)).wrapping_mul(P1).wrapping_add(P4)
}

/// Eight bytes at `i`, little-endian.
pub open spec fn word64(data: Seq<u8>, i: int) -> u64 {
    le_u64_value(data.subrange(i, i + 8)) as u64
}

/// Four bytes at `i`, little-endian.
pub open spec fn word32(data: Seq<u8>, i: int) -> u64 {
    le_u32_value(data.subrange(i, i + 4)) as u64
}

/// The four accumulators after every whole 32-byte stripe from `i` on.
pub open spec fn stripes(v: (u64, u64, u64, u64), data: Seq<u8>, i: int) -> ((u64, u64, u64, u64), int)
    decreases data.len() - i,
{
    if i < 0 || i + 32 > data.len() {
        (v, i)
    } else {
        stripes(
            (
                round_of(v.0, word64(data, i)),
                round_of(v.1, word64(data, i + 8)),
                round_of(v.2, word64(data, i + 16)),
                round_of(v.3, word64(data, i + 24)),
            ),
            data,
            i + 32,
        )
    }
}

/// The hash after the eight-byte words of the tail from `i` on.
pub open spec fn tail8(h: u64, data: Seq<u8>, i: int) -> (u64, int)
    decreases data.len() - i,
{
    if i < 0 || i + 8 > data.len() {
        (h, i)
    } else {
        tail8(wadd(wmul(rotl(h ^ round_of(0, word64(data, i)), 27), P1), P4), data, i + 8)
    }
}

/// The hash after the single bytes of the tail from `i` on.
pub open spec fn tail1(h: u64, data: Seq<u8>, i: int) -> u64
    decreases data.len() - i,
{
    if i < 0 || i >= data.len() {
        h
    } else {
        tail1(wmul(rotl(h ^ wmul(data[i] as u64, P5), 11), P1), data, i + 1)
    }
}

/// The final mixing of the bits.
pub open spec fn avalanche(h: u64) -> u64 {
    let h1 = wmul(h ^ (h >> 33u32), P2);
    let h2 = wmul(h1 ^ (h1 >> 29u32), P3);
    h2 ^ (h2 >> 32u32)
}

/// xxHash64 of `data` with `seed`: four accumulators over 32-byte stripes, then the tail eight,
/// four and one bytes at a time, then a final mixing of the bits.
pub open spec fn xxh64_of(data: Seq<u8>, seed: u64) -> u64 {
    let (h0, i0) = if data.len() >= 32 {
        let (v, i) = stripes((wadd(wadd(seed, P1), P2), wadd(seed, P2), seed, wsub(seed, P1)), data, 0);
        let h = wadd(wadd(wadd(rotl(v.0, 1), rotl(v.1, 7)), rotl(v.2, 12)), rotl(v.3, 18));
        (merge_of(merge_of(merge_of(merge_of(h, v.0), v.1), v.2), v.3), i)
    } else {
        (wadd(seed, P5), 0)
    };
    let h1 = wadd(h0, data.len() as u64);
    let (h2, i2) = tail8(h1, data, i0);
    let (h3, i3) = if i2 + 4 <= data.len() {
        (wadd(wmul(rotl(h2 ^ wmul(word32(data, i2), P1), 23), P2), P3), i2 + 4)
    } else {
        (h2, i2)
    };
    avalanche(tail1(h3, data, i3))
}

/// xxHash64, as its specification describes it.
pub fn xxh64(data: &[u8], seed: u64) -> (h: u64)
    ensures
        h == xxh64_of(data@, seed),
{
    let n = data.len();
    let mut i: usize = 0;
    let ghost d = data@;
    let mut h: u64 = if n >= 32 {
        let mut v0 = seed.wrapping_add(P1).wrapping_add(P2);
        let mut v1 = seed.wrapping_add(P2);
        let mut v2 = seed;
        let mut v3 = seed.wrapping_sub(P1);
        let ghost init = (v0, v1, v2, v3);
        while n - i >= 32
            invariant
                d == data@,
                n == d.len(),
                i <= n,
                stripes((v0, v1, v2, v3), d, i as int) == stripes(init, d, 0),
            decreases n - i,
        {
            v0 = round(v0, le_u64_at(data, i));
            v1 = round(v1, le_u64_at(data, i + 8));
            v2 = round(v2, le_u64_at(data, i + 16));
            v3 = round(v3, le_u64_at(data, i + 24));
            i = i + 32;
        }
        let mut acc = rotate(v0, 1).wrapping_add(rotate(v1, 7)).wrapping_add(rotate(v2, 12)).wrapping_add(
            rotate(v3, 18),
        );
        acc = merge(acc, v0);
        acc = merge(acc, v1);
        acc = merge(acc, v2);
        acc = merge(acc, v3);
        acc
    } else {
        seed.wrapping_add(P5)
    };
    h = h.wrapping_add(n as u64);
    let ghost h1 = h;
    let ghost i1 = i as int;
    while n - i >= 8
        invariant
            d == data@,
            n == d.len(),
            i <= n,
            tail8(h, d, i as int) == tail8(h1, d, i1),
        decreases n - i,
    {
        h = h ^ round(0, le_u64_at(data, i));
        h = rotate(h, 27).wrapping_mul(P1).wrapping_add(P4);
        i = i + 8;
    }
    if n - i >= 4 {
        h = h ^ (le_u32_at(data, i) as u64).wrapping_mul(P1);
        h = rotate(h, 23).wrapping_mul(P2).wrapping_add(P3);
        i = i + 4;
    }
    let ghost h3 = h;
    let ghost i3 = i as int;
    while i < n
        invariant
            d == data@,
            n == d.len(),
            i <= n,
            tail1(h, d, i as int) == tail1(h3, d, i3),
        decreases n - i,
    {
        h = h ^ (data[i] as u64).wrapping_mul(P5);
        h = rotate(h, 11).wrapping_mul(P1);
        i = i + 1;
    }
    h = h ^ (h >> 33u32);
    h = h.wrapping_mul(P2);
    h = h ^ (h >> 29u32);
    h = h.wrapping_mul(P3);
    h ^ (h >> 32u32)
}

/// The eight odd constants the format fixes, one per word of a block.
pub open spec fn salt(w: int) -> u32 {
    if w == 0 {
        0x47b6_137b
    } else if w == 1 {
        0x4497_4d91
    } else if w == 2 {
        0x8824_ad5b
    } else if w == 3 {
        0xa2b7_289d
    } else if w == 4 {
        0x7054_95c7
    } else if w == 5 {
        0x2df1_424b
    } else if w == 6 {
        0x9efc_4947
    } else {
        0x5c6b_fb31
    }
}

fn salt_of(w: usize) -> (s: u32)
    requires
        w < 8,
    ensures
        s == salt(w as int),
{
    if w == 0 {
        0x47b6_137b
    } else if w == 1 {
        0x4497_4d91
    } else if w == 2 {
        0x8824_ad5b
    } else if w == 3 {
        0xa2b7_289d
    } else if w == 4 {
        0x7054_95c7
    } else if w == 5 {
        0x2df1_424b
    } else if w == 6 {
        0x9efc_4947
    } else {
        0x5c6b_fb31
    }
}

/// A decoded filter: where its header and bitset are, and the bitset itself.
#[derive(Debug, PartialEq)]
pub struct BloomFilter {
    pub header: Node,
    pub header_span: Span,
    pub bitset_span: Span,
    pub bitset: Vec<u8>,
}

/// What a probe for one value did: its hash, the block that hash chose, the bit it tested in each
/// of the block's words, and whether every one was set.
#[derive(Clone, Debug, PartialEq, Eq)]
pub struct Probe {
    pub hash: u64,
    pub block: usize,
    /// For each of the eight words: the bit tested, and whether it was set.
    pub bits: [(u32, bool); 8],
    pub may_contain: bool,
}

/// The block a hash chooses among `blocks`: its high 32 bits, scaled to the number of blocks
/// without a division.
pub open spec fn block_of(hash: u64, blocks: u64) -> int {
    ((hash / 0x1_0000_0000) * blocks) / 0x1_0000_0000
}

/// The bit a hash tests in word `w`: the top five bits of its low 32 bits times the word's salt.
#[verifier::opaque]
pub open spec fn bit_of(hash: u64, w: int) -> u32 {
    vstd::wrapping::u32_specs::wrapping_mul((hash % 0x1_0000_0000) as u32, salt(w)) >> 27u32
}

/// Word `w` of block `block`, little-endian.
pub open spec fn word_of(bitset: Seq<u8>, block: int, w: int) -> u32 {
    le_u32_value(bitset.subrange(32 * block + 4 * w, 32 * block + 4 * w + 4)) as u32
}

/// Whether bit `b` of a word is set.
#[verifier::opaque]
pub open spec fn is_set(word: u32, b: u32) -> bool {
    word & (1u32 << b) != 0
}

/// `p` is the probe of `hash` in a bitset.
pub open spec fn probe_is(p: Probe, bitset: Seq<u8>, hash: u64) -> bool {
    let block = block_of(hash, (bitset.len() / 32) as u64);
    &&& p.hash == hash
    &&& p.block == block
    &&& forall|w: int|
        0 <= w < 8 ==> #[trigger] p.bits[w] == (
            bit_of(hash, w),
            is_set(word_of(bitset, block, w), bit_of(hash, w)),
        )
    &&& p.may_contain == forall|w: int| 0 <= w < 8 ==> #[trigger] p.bits[w].1
}

/// The bit a writer sets in word `w` of a block when it inserts `hash`: the hash's low 32 bits
/// times the word's salt, modulo 2^32, divided by 2^27.
pub open spec fn inserted_bit(hash: u64, w: int) -> int {
    (((hash % 0x1_0000_0000) * salt(w)) % 0x1_0000_0000) / 0x800_0000
}

/// The bit tested in word `w` is the one a writer sets for the hash, and depends on the hash's
/// low 32 bits only: two hashes that agree there test the same eight bits.
pub proof fn lemma_probe_bits(p: Probe, q: Probe, bitset: Seq<u8>, hash: u64, other: u64, w: int)
    requires
        probe_is(p, bitset, hash),
        probe_is(q, bitset, other),
        0 <= w < 8,
    ensures
        p.bits[w].0 == inserted_bit(hash, w),
        hash % 0x1_0000_0000 == other % 0x1_0000_0000 ==> p.bits[w].0 == q.bits[w].0,
{
    lemma_bit_of(hash, w);
    lemma_bit_of(other, w);
}

/// The block a probe tests is one of the filter's blocks, and depends on the hash's high 32 bits
/// only: two hashes that agree there test the same block.
pub proof fn lemma_probe_block(p: Probe, q: Probe, bitset: Seq<u8>, hash: u64, other: u64)
    requires
        32 <= bitset.len() < 32 * 0x1_0000_0000,
        probe_is(p, bitset, hash),
        probe_is(q, bitset, other),
    ensures
        p.block < bitset.len() / 32,
        hash / 0x1_0000_0000 == other / 0x1_0000_0000 ==> p.block == q.block,
{
    let blocks = bitset.len() / 32;
    let high = hash / 0x1_0000_0000;
    assert(high * blocks < 0x1_0000_0000 * blocks) by (nonlinear_arith)
        requires
            high < 0x1_0000_0000,
            blocks > 0,
    ;
    assert((high * blocks) / 0x1_0000_0000 < blocks) by (nonlinear_arith)
        requires
            high * blocks < 0x1_0000_0000 * blocks,
            blocks > 0,
    ;
}

proof fn lemma_bit_of(hash: u64, w: int)
    ensures
        bit_of(hash, w) == inserted_bit(hash, w),
{
    reveal(bit_of);
    let key = (hash % 0x1_0000_0000) as u32;
    assert(key == hash % 0x1_0000_0000);
    let product = vstd::wrapping::u32_specs::wrapping_mul(key, salt(w));
    assert(product == (key as nat * salt(w) as nat) % 0x1_0000_0000);
    assert(product >> 27u32 == product / 0x800_0000) by (bit_vector);
}

/// No false negatives: once a hash has been inserted (in the block its high 32 bits choose, the
/// bit `inserted_bit` of each of the eight words is set), probing that hash reports that the
/// value may be present.
pub proof fn lemma_inserted_may_contain(p: Probe, bitset: Seq<u8>, hash: u64)
    requires
        probe_is(p, bitset, hash),
        forall|w: int|
            0 <= w < 8 ==> #[trigger] word_of(bitset, block_of(hash, (bitset.len() / 32) as u64), w)
                & (1u32 << (inserted_bit(hash, w) as u32)) != 0,
    ensures
        p.may_contain,
{
    reveal(is_set);
    assert forall|w: int| 0 <= w < 8 implies #[trigger] p.bits[w].1 by {
        lemma_bit_of(hash, w);
        let word = word_of(bitset, block_of(hash, (bitset.len() / 32) as u64), w);
        assert(word & (1u32 << (inserted_bit(hash, w) as u32)) != 0);
        assert(bit_of(hash, w) == inserted_bit(hash, w) as u32);
    }
}

fn choose_block(hash: u64, blocks: u64) -> (b: u64)
    requires
        0 < blocks < 0x1_0000_0000,
    ensures
        b == block_of(hash, blocks),
        b < blocks,
{
    let high = hash >> 32u64;
    assert(high == hash / 0x1_0000_0000) by (bit_vector)
        requires
            high == hash >> 32u64,
    ;
    assert(high * blocks < 0x1_0000_0000 * blocks) by (nonlinear_arith)
        requires
            high < 0x1_0000_0000,
            blocks > 0,
    ;
    assert(high * blocks < 0x1_0000_0000_0000_0000) by (nonlinear_arith)
        requires
            high < 0x1_0000_0000,
            blocks < 0x1_0000_0000,
    ;
    let product = high * blocks;
    let block = product >> 32u64;
    assert(block == product / 0x1_0000_0000) by (bit_vector)
        requires
            block == product >> 32u64,
    ;
    assert(block < blocks) by (nonlinear_arith)
        requires
            block == product / 0x1_0000_0000,
            product < 0x1_0000_0000 * blocks,
    ;
    block
}

impl BloomFilter {
    pub fn num_blocks(&self) -> (n: usize)
        ensures
            n == self.bitset@.len() / 32,
    {
        self.bitset.len() / 32
    }

    /// The bytes of the block a probe tests.
    pub fn block_span(&self, block: usize) -> (s: Span)
        requires
            self.bitset_span.start + 32 * block + 32 <= u64::MAX,
        ensures
            s.start == self.bitset_span.start + 32 * block,
            s.end == s.start + 32,
    {
        let start = self.bitset_span.start + 32 * block as u64;
        Span::new(start, start + 32)
    }

    fn test_bit(&self, block: usize, hash: u64, w: usize) -> (r: (u32, bool))
        requires
            w < 8,
            32 * block + 32 <= self.bitset@.len(),
        ensures
            r == (
                bit_of(hash, w as int),
                is_set(word_of(self.bitset@, block as int, w as int), bit_of(hash, w as int)),
            ),
    {
        let key = (hash % 0x1_0000_0000) as u32;
        let product = key.wrapping_mul(salt_of(w));
        let position = product >> 27u32;
        assert(position < 32) by (bit_vector)
            requires
                position == product >> 27u32,
        ;
        let n = self.bitset.len();
        let at = 32 * block + 4 * w;
        let word = le_u32_at(self.bitset.as_slice(), at);
        proof {
            reveal(bit_of);
            reveal(is_set);
        }
        (position, word & (1u32 << position) != 0)
    }

    /// Test a hash: the block its high half chooses, and one bit in each of the block's words.
    pub fn probe_hash(&self, hash: u64) -> (p: Probe)
        requires
            32 <= self.bitset@.len() < 32 * 0x1_0000_0000,
        ensures
            probe_is(p, self.bitset@, hash),
    {
        let blocks = self.num_blocks() as u64;
        let block = choose_block(hash, blocks) as usize;
        let b0 = self.test_bit(block, hash, 0);
        let b1 = self.test_bit(block, hash, 1);
        let b2 = self.test_bit(block, hash, 2);
        let b3 = self.test_bit(block, hash, 3);
        let b4 = self.test_bit(block, hash, 4);
        let b5 = self.test_bit(block, hash, 5);
        let b6 = self.test_bit(block, hash, 6);
        let b7 = self.test_bit(block, hash, 7);
        let bits = [b0, b1, b2, b3, b4, b5, b6, b7];
        let may_contain = b0.1 && b1.1 && b2.1 && b3.1 && b4.1 && b5.1 && b6.1 && b7.1;
        let p = Probe { hash, block, bits, may_contain };
        proof {
            assert(bits@ =~= seq![b0, b1, b2, b3, b4, b5, b6, b7]);
            assert(p.bits[0] == b0 && p.bits[1] == b1 && p.bits[2] == b2 && p.bits[3] == b3);
            assert(p.bits[4] == b4 && p.bits[5] == b5 && p.bits[6] == b6 && p.bits[7] == b7);
        }
        p
    }

    /// Test a value, given as its PLAIN bytes (without a length prefix for byte arrays).
    pub fn probe(&self, value: &[u8]) -> (p: Probe)
        requires
            32 <= self.bitset@.len() < 32 * 0x1_0000_0000,
        ensures
            probe_is(p, self.bitset@, xxh64_of(value@, 0)),
    {
        self.probe_hash(xxh64(value, 0))
    }
}


/// A Bloom filter as values.
pub struct BloomFilterV {
    pub header: NodeV,
    pub header_span: Span,
    pub bitset_span: Span,
    pub bitset: Seq<u8>,
}

pub open spec fn bloom_view(b: BloomFilter) -> BloomFilterV {
    BloomFilterV {
        header: node_view(b.header),
        header_span: b.header_span,
        bitset_span: b.bitset_span,
        bitset: b.bitset@,
    }
}

/// An error about the Bloom filter at `offset`.
pub open spec fn bloom_error_text(offset: i64, what: Seq<char>) -> Seq<char> {
    "Bloom filter at offset "@ + signed_dec(offset as int) + ": "@ + what
}

/// Whether field `id` of a header is a union with its field 1 set: the one algorithm, hash or
/// compression the format defines.
pub open spec fn union_known(fs: Seq<FieldV>, id: i16) -> bool {
    match find_field(fs, id) {
        Some(i) => match struct_of(fs[i].node) {
            Ok(ufs) => find_field(ufs, 1) is Some,
            Err(_) => false,
        },
        None => false,
    }
}

/// The first of the header's unions that is not the one the format defines, named.
pub open spec fn unknown_union(fs: Seq<FieldV>) -> Option<Seq<char>> {
    if !union_known(fs, 2) {
        Some("algorithm BLOCK"@)
    } else if !union_known(fs, 3) {
        Some("hash XXHASH"@)
    } else if !union_known(fs, 4) {
        Some("compression UNCOMPRESSED"@)
    } else {
        None
    }
}

/// The Bloom filter a column chunk's footer entry places at `offset`, if it places one: a
/// `BloomFilterHeader`, then a bitset of whole 32-byte blocks.
pub open spec fn bloom_outcome(file: Seq<u8>, offset: Option<i64>) -> Result<
    Option<BloomFilterV>,
    Seq<char>,
> {
    match offset {
        None => Ok(None),
        Some(o) => {
            let start: int = if o < 0 {
                0
            } else {
                o as int
            };
            if start > file.len() {
                Err(bloom_error_text(o, "the Bloom filter starts past the end of the file"@))
            } else {
                let rest = file.subrange(start, file.len() as int);
                let base = bits64(o) as u64;
                match tstruct(rest, base, 0, 0) {
                    Err(e) => Err(bloom_error_text(o, thrift_error_text(e))),
                    Ok((h, end)) => match struct_of(h) {
                        Err(e) => Err(bloom_error_text(o, metadata_error_text(e))),
                        Ok(fs) => match required_int(fs, "BloomFilterHeader", 1, "numBytes", h.span) {
                            Err(e) => Err(bloom_error_text(o, metadata_error_text(e))),
                            Ok(n) => match unknown_union(fs) {
                                Some(what) => Err(
                                    bloom_error_text(o, "a Bloom filter that is not "@ + what),
                                ),
                                None => if n <= 0 || n % 32 != 0 {
                                    Err(
                                        bloom_error_text(
                                            o,
                                            "a Bloom filter bitset must be a whole number of 32-byte blocks"@,
                                        ),
                                    )
                                } else {
                                    let len = (n as usize) as int;
                                    if end + len > rest.len() {
                                        Err(
                                            bloom_error_text(
                                                o,
                                                bytes_error_text(
                                                    BytesError::UnexpectedEnd {
                                                        offset: (base + end) as u64,
                                                        wanted: len as u64,
                                                    },
                                                ),
                                            ),
                                        )
                                    } else {
                                        Ok(
                                            Some(
                                                BloomFilterV {
                                                    header: h,
                                                    header_span: h.span,
                                                    bitset_span: Span {
                                                        start: (base + end) as u64,
                                                        end: (base + end + len) as u64,
                                                    },
                                                    bitset: rest.subrange(end, end + len),
                                                },
                                            ),
                                        )
                                    }
                                },
                            },
                        },
                    },
                }
            }
        },
    }
}

/// An error about the Bloom filter at `offset`, as text.
fn bloom_error(offset: i64, what: &str) -> (s: String)
    ensures
        s@ == bloom_error_text(offset, what@),
{
    let mut s = "Bloom filter at offset ".to_owned();
    push_i64(&mut s, offset);
    s.append(": ");
    s.append(what);
    s
}

/// The error for a header whose `what` is not the one the format defines.
fn not_known(offset: i64, what: &str) -> (s: String)
    ensures
        s@ == bloom_error_text(offset, "a Bloom filter that is not "@ + what@),
{
    let mut w = "a Bloom filter that is not ".to_owned();
    w.append(what);
    bloom_error(offset, w.as_str())
}

/// Whether field `id` of a struct is a union with its field 1 set.
fn known_union(h: &Struct, id: i16) -> (b: bool)
    ensures
        b == union_known(field_views(h.fields@), id),
{
    proof {
        lemma_find_field_views(h.fields@, id);
        if let Some(i) = find_field(field_views(h.fields@), id) {
            assert(field_views(h.fields@)[i] == field_view(h.fields@[i]));
        }
    }
    match h.field(id) {
        Some(f) => match as_struct(&f.node) {
            Ok(u) => {
                proof {
                    lemma_find_field_views(u.fields@, 1);
                }
                u.field(1).is_some()
            },
            Err(_) => false,
        },
        None => false,
    }
}

/// Read a column chunk's Bloom filter from the offset its footer entry gives, if it gives one.
pub fn read(file: &[u8], offset: Option<i64>) -> (r: Result<Option<BloomFilter>, String>)
    requires
        offset matches Some(o) ==> bits64(o) + file@.len() <= u64::MAX,
    ensures
        match bloom_outcome(file@, offset) {
            Ok(None) => r matches Ok(None),
            Ok(Some(b)) => r matches Ok(Some(f)) && bloom_view(f) == b,
            Err(m) => r matches Err(e) && e@ == m,
        },
{
    let o = match offset {
        Some(o) => o,
        None => return Ok(None),
    };
    let start: usize = if o < 0 {
        0
    } else if o as u64 > file.len() as u64 {
        return Err(bloom_error(o, "the Bloom filter starts past the end of the file"));
    } else {
        o as usize
    };
    let rest = vstd::slice::slice_subrange(file, start, file.len());
    let base: u64 = if o < 0 {
        (o as i128 + 0x1_0000_0000_0000_0000i128) as u64
    } else {
        o as u64
    };
    let mut r = ByteReader::new(rest, base);
    let header = match read_struct(&mut r) {
        Ok(h) => h,
        Err(e) => {
            let m = e.message();
            return Err(bloom_error(o, m.as_str()));
        },
    };
    let h = match as_struct(&header) {
        Ok(h) => h,
        Err(e) => {
            let m = e.message();
            return Err(bloom_error(o, m.as_str()));
        },
    };
    let n = match req_int(h, "BloomFilterHeader", 1, "numBytes", header.span) {
        Ok(n) => n,
        Err(e) => {
            let m = e.message();
            return Err(bloom_error(o, m.as_str()));
        },
    };
    if !known_union(h, 2) {
        return Err(not_known(o, "algorithm BLOCK"));
    }
    if !known_union(h, 3) {
        return Err(not_known(o, "hash XXHASH"));
    }
    if !known_union(h, 4) {
        return Err(not_known(o, "compression UNCOMPRESSED"));
    }
    if n <= 0 || n % 32 != 0 {
        return Err(
            bloom_error(o, "a Bloom filter bitset must be a whole number of 32-byte blocks"),
        );
    }
    let (bitset, bitset_span) = match r.read_bytes(n as usize) {
        Ok(x) => x,
        Err(e) => {
            let m = e.message();
            return Err(bloom_error(o, m.as_str()));
        },
    };
    Ok(
        Some(
            BloomFilter {
                header_span: header.span,
                header,
                bitset_span,
                bitset: vstd::slice::slice_to_vec(bitset),
            },
        ),
    )
}
} // verus!
