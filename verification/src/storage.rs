//! The page layout of the packed store: where a logical byte offset lives
//! (page number and offset inside the page), the XOR-delta block codec for
//! runs of 64-bit samples, and the readings of raw pages.
use vstd::prelude::*;
use crate::catalog::{abs, div_trunc, fits_i64, trunc_div, trunc_rem};
use crate::text::{chars_of, push_chars, push_str, string_from_chars};

verus! {

/// Bytes per compressed block of one tenant.
pub const BLOCK_SIZE: usize = 128;

/// Samples per compressed block.
pub const POINTS_PER_BLOCK: i64 = 64;

/// Bytes per page.
pub const BLCKSZ: usize = 8192;

/// Bytes of the page header, aligned to 8.
pub const HEADER_SIZE: usize = 24;

/// Bytes of the special area at the end of each page, aligned to 8.
pub const SPECIAL_SIZE: usize = 24;

/// 8-byte slots between the header and the special area.
pub const DATA_PER_PAGE: usize = 1018;

/// The magic number in the special area of a page of the packed store.
pub const SPIRAL_PAGE_MAGIC: u32 = 0x5049_5241;

/// The page number and in-page offset of a logical byte offset: the offset
/// selects an 8-byte slot, slots fill pages `DATA_PER_PAGE` at a time, and
/// a page's slots follow its header. Both parts are truncated to 32 bits.
pub open spec fn physical_spec(logical_offset: int) -> (u32, u32) {
    let index = trunc_div(logical_offset, 8);
    (
        trunc_div(index, DATA_PER_PAGE as int) as u32,
        (HEADER_SIZE as int + trunc_rem(index, DATA_PER_PAGE as int) * 8) as u32,
    )
}

/// Maps a logical byte offset to its page number and offset inside the page.
pub fn logical_to_physical_offset(logical_offset: i64) -> (r: (u32, u32))
    ensures
        r == physical_spec(logical_offset as int),
{
    let (index, _) = div_trunc(logical_offset, 8);
    let (page, slot) = div_trunc(index, DATA_PER_PAGE as i64);
    proof {
        assert(-1018 < slot < 1018) by {
            let a = index as int;
            assert(crate::catalog::abs(a) % 1018 < 1018);
        }
    }
    let blkno = page as u32;
    let offset_in_page = (HEADER_SIZE as i64 + slot * 8) as u32;
    (blkno, offset_in_page)
}

/// A logical offset that addresses a slot inside the 2^32 pages that a
/// 32-bit page number reaches.
pub open spec fn addressable(logical_offset: int) -> bool {
    0 <= logical_offset && logical_offset / 8 < DATA_PER_PAGE as int * 0x1_0000_0000
}

proof fn lemma_physical_layout(logical_offset: int)
    requires
        addressable(logical_offset),
    ensures
        ({
            let r = physical_spec(logical_offset);
            &&& r.0 as int * DATA_PER_PAGE as int + (r.1 as int - HEADER_SIZE as int) / 8
                == logical_offset / 8
            &&& HEADER_SIZE <= r.1 < BLCKSZ - SPECIAL_SIZE
            &&& r.1 % 8 == 0
        }),
{
    let index = logical_offset / 8;
    let q = index / 1018;
    let m = index % 1018;
    assert(trunc_div(logical_offset, 8) == index);
    assert(trunc_div(index, 1018) == q);
    assert(trunc_rem(index, 1018) == m);
    assert(0 <= q < 0x1_0000_0000) by (nonlinear_arith)
        requires
            0 <= index < 1018 * 0x1_0000_0000,
            q == index / 1018,
    ;
    assert(q as u32 == q);
    assert(0 <= m < 1018);
    assert((24 + m * 8) as u32 == 24 + m * 8);
    vstd::arithmetic::div_mod::lemma_fundamental_div_mod(index, 1018);
    assert((24 + m * 8 - 24) / 8 == m) by {
        vstd::arithmetic::div_mod::lemma_div_multiples_vanish(m, 8);
    }
    assert((24 + m * 8) % 8 == 0) by {
        vstd::arithmetic::div_mod::lemma_mod_multiples_basic(3 + m, 8);
    }
}

/// Law: slots of the addressable range are laid out one after another: the
/// slot number is the page number times `DATA_PER_PAGE` plus the slot's
/// place in the page, and every slot lies 8-aligned between the page header
/// and the special area.
pub proof fn lemma_physical_offset_layout(logical_offset: int)
    requires
        addressable(logical_offset),
    ensures
        physical_spec(logical_offset).0 as int * DATA_PER_PAGE as int
            + (physical_spec(logical_offset).1 as int - HEADER_SIZE as int) / 8 == logical_offset / 8,
        HEADER_SIZE <= physical_spec(logical_offset).1 < BLCKSZ - SPECIAL_SIZE,
        physical_spec(logical_offset).1 % 8 == 0,
{
    lemma_physical_layout(logical_offset);
}

/// Law: two addressable offsets in different slots never share a location.
pub proof fn lemma_physical_offset_injective(a: int, b: int)
    requires
        addressable(a),
        addressable(b),
        a / 8 != b / 8,
    ensures
        physical_spec(a) != physical_spec(b),
{
    lemma_physical_layout(a);
    lemma_physical_layout(b);
}

// ---------------------------------------------------------------------------
// XOR-delta blocks
// ---------------------------------------------------------------------------

/// A compressed run of 64-bit samples: the first sample, then 60 16-bit
/// XOR deltas, two little-endian bytes each.
pub struct XorBlock {
    pub first_bits: u64,
    pub data: Vec<u8>,
}

/// Deltas stored in a block.
pub open spec fn block_deltas() -> int {
    60
}

impl XorBlock {
    /// A block holds exactly 60 deltas.
    pub open spec fn wf(&self) -> bool {
        self.data@.len() == 2 * block_deltas()
    }
}

/// The delta a block stores at position `j`: the low 16 bits of the XOR of
/// samples `j + 1` and `j`, or 0 past the last sample.
pub open spec fn encoded_delta(bits: Seq<u64>, j: int) -> u16 {
    if j + 1 < bits.len() {
        (bits[j + 1] ^ bits[j]) as u16
    } else {
        0
    }
}

/// Bytes `2j` and `2j + 1` of `data` hold the delta `d`, low byte first.
pub open spec fn holds_delta(data: Seq<u8>, j: int, d: u16) -> bool {
    data[2 * j] == (d & 0xff) as u8 && data[2 * j + 1] == (d >> 8) as u8
}

/// The block that encodes the samples `bits` (at most the first 61 count).
pub open spec fn encodes(b: XorBlock, bits: Seq<u64>) -> bool {
    &&& b.wf()
    &&& b.first_bits == bits[0]
    &&& forall|j: int|
        0 <= j < block_deltas() ==> #[trigger] holds_delta(b.data@, j, encoded_delta(bits, j))
}

spec fn written_delta(bits: Seq<u64>, i: int, j: int) -> u16 {
    if j + 1 < i {
        encoded_delta(bits, j)
    } else {
        0
    }
}

/// The 16-bit delta read back from position `j` of the block's bytes.
pub open spec fn delta_word(data: Seq<u8>, j: int) -> u64 {
    (data[2 * j] as u64) | ((data[2 * j + 1] as u64) << 8u64)
}

/// The XOR of the first `k` deltas.
pub open spec fn xor_prefix(data: Seq<u8>, k: nat) -> u64
    decreases k,
{
    if k == 0 {
        0
    } else {
        xor_prefix(data, (k - 1) as nat) ^ delta_word(data, k - 1)
    }
}

/// Sample `k` as the block reads it back: the first sample XOR-ed with the
/// first `k` deltas (positions past 60 read as position 60).
pub open spec fn decoded_bits(b: XorBlock, k: nat) -> u64 {
    b.first_bits ^ xor_prefix(b.data@, if k > 60 {
        60
    } else {
        k
    })
}

/// Encodes a run of samples (given by their bit patterns) into a block:
/// the first sample, then the low 16 bits of the XOR of each of the next
/// 60 samples with its predecessor.
pub fn encode_xor_block(bits: &Vec<u64>) -> (b: XorBlock)
    requires
        bits@.len() >= 1,
    ensures
        encodes(b, bits@),
{
    let mut data: Vec<u8> = vec![0u8; 120];
    let n = bits.len();
    let mut i: usize = 1;
    proof {
        assert((0u16 & 0xff) as u8 == 0u8) by (bit_vector);
        assert((0u16 >> 8) as u8 == 0u8) by (bit_vector);
        assert forall|j: int| 0 <= j < 60 implies #[trigger] holds_delta(
            data@,
            j,
            written_delta(bits@, 1, j),
        ) by {}
    }
    while i < n && i <= 60
        invariant
            n == bits@.len(),
            1 <= i <= 61,
            data@.len() == 120,
            forall|j: int| 0 <= j < 60 ==> #[trigger] holds_delta(data@, j, written_delta(bits@, i as int, j)),
        decreases 61 - i,
    {
        let x: u64 = bits[i] ^ bits[i - 1];
        let d: u16 = x as u16;
        let lo: u8 = (d & 0xff) as u8;
        let hi: u8 = (d >> 8) as u8;
        let ghost old_data = data@;
        data.set(2 * (i - 1), lo);
        data.set(2 * (i - 1) + 1, hi);
        proof {
            assert forall|j: int| 0 <= j < 60 implies #[trigger] holds_delta(
                data@,
                j,
                written_delta(bits@, i + 1, j),
            ) by {
                if j == i - 1 {
                    assert(encoded_delta(bits@, j) == d);
                } else {
                    assert(holds_delta(old_data, j, written_delta(bits@, i as int, j)));
                    assert(written_delta(bits@, i as int, j) == written_delta(bits@, i + 1, j));
                }
            }
        }
        i = i + 1;
    }
    proof {
        assert forall|j: int| 0 <= j < 60 implies #[trigger] holds_delta(
            data@,
            j,
            encoded_delta(bits@, j),
        ) by {
            assert(holds_delta(data@, j, written_delta(bits@, i as int, j)));
            if j + 1 >= i {
                assert(encoded_delta(bits@, j) == 0);
            }
        }
    }
    XorBlock { first_bits: bits[0], data }
}

fn read_delta(data: &Vec<u8>, j: usize) -> (w: u64)
    requires
        j < 60,
        data@.len() == 120,
    ensures
        w == delta_word(data@, j as int),
{
    let lo = data[2 * j];
    let hi = data[2 * j + 1];
    (lo as u64) | ((hi as u64) << 8u64)
}

/// Reads back sample `step` of a block (steps past 60 read as step 60).
pub fn decode_block_point(block: &XorBlock, step: usize) -> (r: u64)
    requires
        block.wf(),
    ensures
        r == decoded_bits(*block, step as nat),
{
    let mut current: u64 = block.first_bits;
    proof {
        let f = block.first_bits;
        assert(f ^ 0u64 == f) by (bit_vector);
    }
    let mut i: usize = 0;
    let ghost k: nat = if step > 60 {
        60
    } else {
        step as nat
    };
    while i < step && i < 60
        invariant
            block.wf(),
            i <= k,
            k == (if step > 60 {
                60
            } else {
                step as nat
            }),
            current == block.first_bits ^ xor_prefix(block.data@, i as nat),
        decreases 60 - i,
    {
        let w = read_delta(&block.data, i);
        let ghost p = xor_prefix(block.data@, i as nat);
        let ghost f = block.first_bits;
        proof {
            assert((f ^ p) ^ w == f ^ (p ^ w)) by (bit_vector);
        }
        current = current ^ w;
        i = i + 1;
    }
    current
}

/// Reads back all 61 samples of a block.
pub fn decode_block_range(block: &XorBlock) -> (r: Vec<u64>)
    requires
        block.wf(),
    ensures
        r@.len() == 61,
        forall|k: int| 0 <= k < 61 ==> #[trigger] r@[k] == decoded_bits(*block, k as nat),
{
    let mut out: Vec<u64> = Vec::new();
    let mut current: u64 = block.first_bits;
    proof {
        let f = block.first_bits;
        assert(f ^ 0u64 == f) by (bit_vector);
    }
    out.push(current);
    let mut i: usize = 0;
    while i < 60
        invariant
            block.wf(),
            i <= 60,
            out@.len() == i + 1,
            current == block.first_bits ^ xor_prefix(block.data@, i as nat),
            forall|k: int| 0 <= k <= i ==> #[trigger] out@[k] == decoded_bits(*block, k as nat),
        decreases 60 - i,
    {
        let w = read_delta(&block.data, i);
        let ghost p = xor_prefix(block.data@, i as nat);
        let ghost f = block.first_bits;
        proof {
            assert((f ^ p) ^ w == f ^ (p ^ w)) by (bit_vector);
        }
        current = current ^ w;
        out.push(current);
        i = i + 1;
    }
    out
}

proof fn lemma_delta_roundtrip(a: u64, b: u64)
    requires
        a ^ b < 0x1_0000,
    ensures
        ((((a ^ b) as u16) & 0xff) as u8 as u64) | (((((a ^ b) as u16) >> 8) as u8 as u64) << 8u64)
            == a ^ b,
{
    let x = a ^ b;
    assert(x < 0x1_0000 ==> ((((x as u16) & 0xff) as u8 as u64) | ((((x as u16) >> 8) as u8 as u64) << 8u64)) == x) by (bit_vector);
}

/// Law: a block gives back every encoded sample (up to the 61st) when each
/// sample differs from its predecessor only in its low 16 bits.
pub proof fn lemma_xor_block_roundtrip(b: XorBlock, bits: Seq<u64>, k: int)
    requires
        bits.len() >= 1,
        encodes(b, bits),
        forall|i: int| 1 <= i < bits.len() && i <= 60 ==> #[trigger] (bits[i] ^ bits[i - 1]) < 0x1_0000,
        0 <= k < bits.len(),
        k <= 60,
    ensures
        decoded_bits(b, k as nat) == bits[k],
    decreases k,
{
    if k == 0 {
        let f = b.first_bits;
        assert(f ^ 0u64 == f) by (bit_vector);
    } else {
        lemma_xor_block_roundtrip(b, bits, k - 1);
        let j = k - 1;
        assert(holds_delta(b.data@, j, encoded_delta(bits, j)));
        assert((bits[k] ^ bits[k - 1]) < 0x1_0000);
        lemma_delta_roundtrip(bits[k], bits[k - 1]);
        assert(delta_word(b.data@, j) == bits[k] ^ bits[k - 1]);
        let f = b.first_bits;
        let p = xor_prefix(b.data@, j as nat);
        let x = bits[j];
        let y = bits[k];
        assert(f ^ p == x);
        assert((f ^ p) == x ==> f ^ (p ^ (y ^ x)) == y) by (bit_vector);
    }
}

/// The 128 bytes of a block as stored: the first sample in little-endian
/// order, then the deltas.
pub open spec fn block_bytes_spec(b: XorBlock) -> Seq<u8> {
    Seq::new(8, |i: int| ((b.first_bits >> (8 * i) as u64) & 0xff) as u8) + b.data@
}

/// The bytes of a block as it is stored in a page.
pub fn block_to_bytes(b: &XorBlock) -> (r: Vec<u8>)
    requires
        b.wf(),
    ensures
        r@ == block_bytes_spec(*b),
        r@.len() == BLOCK_SIZE,
{
    let mut out: Vec<u8> = Vec::new();
    let mut i: u64 = 0;
    while i < 8
        invariant
            i <= 8,
            out@.len() == i,
            forall|k: int| 0 <= k < i ==> #[trigger] out@[k] == ((b.first_bits >> (8 * k) as u64) & 0xff) as u8,
        decreases 8 - i,
    {
        out.push(((b.first_bits >> (8 * i)) & 0xff) as u8);
        i = i + 1;
    }
    let n = b.data.len();
    let mut j: usize = 0;
    let ghost head = out@;
    while j < n
        invariant
            n == b.data@.len(),
            j <= n,
            out@ == head + b.data@.take(j as int),
        decreases n - j,
    {
        proof {
            assert(b.data@.take(j as int + 1) =~= b.data@.take(j as int).push(b.data@[j as int]));
        }
        out.push(b.data[j]);
        j = j + 1;
    }
    proof {
        assert(b.data@.take(n as int) =~= b.data@);
        assert(head =~= Seq::new(8, |k: int| ((b.first_bits >> (8 * k) as u64) & 0xff) as u8));
    }
    out
}

/// Law: a block is determined by the bytes it is stored as, so reading a
/// block back from the bytes of a stored block gives the stored block.
pub proof fn lemma_block_bytes_roundtrip(stored: XorBlock, read: XorBlock)
    requires
        stored.wf(),
        read.wf(),
        block_bytes_spec(read) == block_bytes_spec(stored),
    ensures
        read.first_bits == stored.first_bits,
        read.data@ == stored.data@,
{
    let x = stored.first_bits;
    let y = read.first_bits;
    let bs = block_bytes_spec(stored);
    let br = block_bytes_spec(read);
    assert(br[0] == bs[0] && br[1] == bs[1] && br[2] == bs[2] && br[3] == bs[3]);
    assert(br[4] == bs[4] && br[5] == bs[5] && br[6] == bs[6] && br[7] == bs[7]);
    assert(((y >> 0u64) & 0xff) as u8 == ((x >> 0u64) & 0xff) as u8);
    assert(((y >> 8u64) & 0xff) as u8 == ((x >> 8u64) & 0xff) as u8);
    assert(((y >> 16u64) & 0xff) as u8 == ((x >> 16u64) & 0xff) as u8);
    assert(((y >> 24u64) & 0xff) as u8 == ((x >> 24u64) & 0xff) as u8);
    assert(((y >> 32u64) & 0xff) as u8 == ((x >> 32u64) & 0xff) as u8);
    assert(((y >> 40u64) & 0xff) as u8 == ((x >> 40u64) & 0xff) as u8);
    assert(((y >> 48u64) & 0xff) as u8 == ((x >> 48u64) & 0xff) as u8);
    assert(((y >> 56u64) & 0xff) as u8 == ((x >> 56u64) & 0xff) as u8);
    assert(y == x) by (bit_vector)
        requires
            ((y >> 0u64) & 0xff) as u8 == ((x >> 0u64) & 0xff) as u8,
            ((y >> 8u64) & 0xff) as u8 == ((x >> 8u64) & 0xff) as u8,
            ((y >> 16u64) & 0xff) as u8 == ((x >> 16u64) & 0xff) as u8,
            ((y >> 24u64) & 0xff) as u8 == ((x >> 24u64) & 0xff) as u8,
            ((y >> 32u64) & 0xff) as u8 == ((x >> 32u64) & 0xff) as u8,
            ((y >> 40u64) & 0xff) as u8 == ((x >> 40u64) & 0xff) as u8,
            ((y >> 48u64) & 0xff) as u8 == ((x >> 48u64) & 0xff) as u8,
            ((y >> 56u64) & 0xff) as u8 == ((x >> 56u64) & 0xff) as u8,
    ;
    assert(read.data@ =~= stored.data@) by {
        assert forall|k: int| 0 <= k < read.data@.len() implies read.data@[k] == stored.data@[k] by {
            assert(br[8 + k] == bs[8 + k]);
        }
    }
}

/// Reads a block back from the 128 bytes it is stored as.
pub fn block_from_bytes(bytes: &[u8]) -> (b: XorBlock)
    requires
        bytes@.len() >= BLOCK_SIZE,
    ensures
        b.wf(),
        block_bytes_spec(b) == bytes@.take(BLOCK_SIZE as int),
{
    let b0 = bytes[0] as u64;
    let b1 = bytes[1] as u64;
    let b2 = bytes[2] as u64;
    let b3 = bytes[3] as u64;
    let b4 = bytes[4] as u64;
    let b5 = bytes[5] as u64;
    let b6 = bytes[6] as u64;
    let b7 = bytes[7] as u64;
    let first: u64 = b0 | (b1 << 8u64) | (b2 << 16u64) | (b3 << 24u64) | (b4 << 32u64) | (b5 << 40u64)
        | (b6 << 48u64) | (b7 << 56u64);
    proof {
        assert(b0 < 256 && b1 < 256 && b2 < 256 && b3 < 256 && b4 < 256 && b5 < 256 && b6 < 256 && b7 < 256);
        assert({
            &&& ((first >> 0u64) & 0xff) == b0
            &&& ((first >> 8u64) & 0xff) == b1
            &&& ((first >> 16u64) & 0xff) == b2
            &&& ((first >> 24u64) & 0xff) == b3
            &&& ((first >> 32u64) & 0xff) == b4
            &&& ((first >> 40u64) & 0xff) == b5
            &&& ((first >> 48u64) & 0xff) == b6
            &&& ((first >> 56u64) & 0xff) == b7
        }) by (bit_vector)
            requires
                b0 < 256 && b1 < 256 && b2 < 256 && b3 < 256 && b4 < 256 && b5 < 256 && b6 < 256
                    && b7 < 256,
                first == b0 | (b1 << 8u64) | (b2 << 16u64) | (b3 << 24u64) | (b4 << 32u64) | (b5
                    << 40u64) | (b6 << 48u64) | (b7 << 56u64),
        ;
    }
    let mut data: Vec<u8> = Vec::new();
    let mut j: usize = 8;
    while j < 128
        invariant
            8 <= j <= 128,
            bytes@.len() >= 128,
            data@ == bytes@.subrange(8, j as int),
        decreases 128 - j,
    {
        proof {
            assert(bytes@.subrange(8, j as int + 1) =~= bytes@.subrange(8, j as int).push(bytes@[j as int]));
        }
        data.push(bytes[j]);
        j = j + 1;
    }
    let b = XorBlock { first_bits: first, data };
    proof {
        let head = Seq::new(8, |i: int| ((first >> (8 * i) as u64) & 0xff) as u8);
        assert(head[0] == bytes@[0]);
        assert(head[1] == bytes@[1]);
        assert(head[2] == bytes@[2]);
        assert(head[3] == bytes@[3]);
        assert(head[4] == bytes@[4]);
        assert(head[5] == bytes@[5]);
        assert(head[6] == bytes@[6]);
        assert(head[7] == bytes@[7]);
        assert(block_bytes_spec(b) =~= bytes@.take(128));
    }
    b
}

// ---------------------------------------------------------------------------
// Where a reading lives
// ---------------------------------------------------------------------------

/// The tenant is one of the `tenant_scale` tenants a second holds.
pub open spec fn tenant_in_range(tenant_id: int, tenant_scale: int) -> bool {
    0 <= tenant_id < tenant_scale
}

/// The logical offset of a reading that takes `width` bytes per slot.
pub open spec fn slot_offset(t_rel: int, tenant_id: int, tenant_scale: int, width: int) -> int {
    t_rel * tenant_scale * width + tenant_id * width
}

/// The location of the reading of `tenant_id` at relative time `t_rel` in a
/// store of `width`-byte slots (8 for plain values, 16 for compact ones):
/// `None` for a negative time or a tenant outside `[0, tenant_scale)`.
pub open spec fn slot_location_spec(t_rel: int, tenant_id: int, tenant_scale: int, width: int) -> Option<(u32, u32)> {
    if t_rel < 0 || !tenant_in_range(tenant_id, tenant_scale) {
        None
    } else {
        Some(physical_spec(slot_offset(t_rel, tenant_id, tenant_scale, width)))
    }
}

/// Finds the page and in-page offset of one reading.
pub fn slot_location(t_rel: i64, tenant_id: i64, tenant_scale: i64, width: i64) -> (r: Option<(u32, u32)>)
    requires
        width == 8 || width == 16,
        t_rel >= 0 && tenant_in_range(tenant_id as int, tenant_scale as int) ==> slot_offset(
            t_rel as int,
            tenant_id as int,
            tenant_scale as int,
            width as int,
        ) <= i64::MAX,
    ensures
        r == slot_location_spec(t_rel as int, tenant_id as int, tenant_scale as int, width as int),
{
    if t_rel < 0 || !(0 <= tenant_id && tenant_id < tenant_scale) {
        return None;
    }
    proof {
        assert(0 <= t_rel * tenant_scale <= t_rel * tenant_scale * width) by (nonlinear_arith)
            requires
                t_rel >= 0,
                tenant_scale > 0,
                width > 0,
        ;
        assert(0 <= tenant_id * width) by (nonlinear_arith)
            requires
                tenant_id >= 0,
                width > 0,
        ;
    }
    let logical_offset = (t_rel * tenant_scale * width) + (tenant_id * width);
    Some(logical_to_physical_offset(logical_offset))
}

/// The block of 64 samples that time `t` falls in, and its place there.
pub open spec fn block_of_time(t: int) -> (int, int) {
    (trunc_div(t, POINTS_PER_BLOCK as int), trunc_rem(t, POINTS_PER_BLOCK as int))
}

/// The logical offset of the block `block_id` of a tenant.
pub open spec fn block_offset(block_id: int, tenant_id: int, tenant_scale: int) -> int {
    block_id * (BLOCK_SIZE as int * tenant_scale) + tenant_id * BLOCK_SIZE as int
}

/// The block offset of a tenant is computed inside `i64`.
pub open spec fn block_fits(block_id: int, tenant_id: int, tenant_scale: int) -> bool {
    BLOCK_SIZE as int * tenant_scale <= i64::MAX && block_offset(block_id, tenant_id, tenant_scale)
        <= i64::MAX
}

/// The location of a tenant's compressed block: `None` for a negative block
/// number or a tenant outside `[0, tenant_scale)`.
pub open spec fn block_location_spec(block_id: int, tenant_id: int, tenant_scale: int) -> Option<(u32, u32)> {
    if block_id < 0 || !tenant_in_range(tenant_id, tenant_scale) {
        None
    } else {
        Some(physical_spec(block_offset(block_id, tenant_id, tenant_scale)))
    }
}

/// Law: the blocks of distinct (block, tenant) pairs, tenants in
/// `[0, tenant_scale)`, occupy disjoint 128-byte runs of the store: their
/// offsets are multiples of the block size at least a block apart, so no
/// tenant's block overwrites another's; and where both are addressable they
/// are found at different locations.
pub proof fn lemma_block_layout_disjoint(b1: int, t1: int, b2: int, t2: int, tenant_scale: int)
    requires
        b1 >= 0,
        b2 >= 0,
        tenant_in_range(t1, tenant_scale),
        tenant_in_range(t2, tenant_scale),
        b1 != b2 || t1 != t2,
    ensures
        block_offset(b1, t1, tenant_scale) % (BLOCK_SIZE as int) == 0,
        block_offset(b1, t1, tenant_scale) + BLOCK_SIZE <= block_offset(b2, t2, tenant_scale)
            || block_offset(b2, t2, tenant_scale) + BLOCK_SIZE <= block_offset(b1, t1, tenant_scale),
        addressable(block_offset(b1, t1, tenant_scale)) && addressable(block_offset(b2, t2, tenant_scale))
            ==> block_location_spec(b1, t1, tenant_scale) != block_location_spec(b2, t2, tenant_scale),
{
    let s = tenant_scale;
    let i1 = b1 * s + t1;
    let i2 = b2 * s + t2;
    assert(block_offset(b1, t1, s) == 128 * i1) by (nonlinear_arith)
        requires
            i1 == b1 * s + t1,
    ;
    assert(block_offset(b2, t2, s) == 128 * i2) by (nonlinear_arith)
        requires
            i2 == b2 * s + t2,
    ;
    vstd::arithmetic::div_mod::lemma_mod_multiples_basic(i1, 128);
    assert(i1 != i2) by {
        if b1 == b2 {
            assert(t1 != t2);
        } else if b1 < b2 {
            assert(b1 * s + s <= b2 * s) by (nonlinear_arith)
                requires
                    b1 < b2,
                    s > 0,
            ;
        } else {
            assert(b2 * s + s <= b1 * s) by (nonlinear_arith)
                requires
                    b2 < b1,
                    s > 0,
            ;
        }
    }
    let o1 = 128 * i1;
    let o2 = 128 * i2;
    assert(o1 / 8 == 16 * i1 && o2 / 8 == 16 * i2) by {
        vstd::arithmetic::div_mod::lemma_div_multiples_vanish(16 * i1, 8);
        vstd::arithmetic::div_mod::lemma_div_multiples_vanish(16 * i2, 8);
    }
    if addressable(o1) && addressable(o2) {
        lemma_physical_offset_injective(o1, o2);
    }
}

/// Finds the page and in-page offset of a tenant's compressed block.
pub fn block_location(block_id: i64, tenant_id: i64, tenant_scale: i64) -> (r: Option<(u32, u32)>)
    requires
        block_id >= 0 && tenant_in_range(tenant_id as int, tenant_scale as int) ==> block_fits(
            block_id as int,
            tenant_id as int,
            tenant_scale as int,
        ),
    ensures
        r == block_location_spec(block_id as int, tenant_id as int, tenant_scale as int),
{
    if block_id < 0 || !(0 <= tenant_id && tenant_id < tenant_scale) {
        return None;
    }
    proof {
        assert(0 <= 128 * tenant_scale) by (nonlinear_arith)
            requires
                tenant_scale > 0,
        ;
        assert(0 <= block_id * (128 * tenant_scale)) by (nonlinear_arith)
            requires
                block_id >= 0,
                tenant_scale > 0,
        ;
        assert(128 * tenant_scale <= block_offset(block_id as int, tenant_id as int, tenant_scale as int)
            || block_id == 0) by (nonlinear_arith)
            requires
                block_id >= 0,
                tenant_scale > 0,
                tenant_id >= 0,
        ;
    }
    let bundle_size = BLOCK_SIZE as i64 * tenant_scale;
    let logical_offset = (block_id * bundle_size) + (tenant_id * BLOCK_SIZE as i64);
    Some(logical_to_physical_offset(logical_offset))
}

/// The location of the block holding the sample of `tenant_id` at time `t`,
/// with the sample's place in the block: `None` for a negative time or a
/// tenant outside `[0, tenant_scale)`.
pub fn block_point_location(t: i64, tenant_id: i64, tenant_scale: i64) -> (r: Option<(u32, u32, usize)>)
    requires
        t >= 0 && tenant_in_range(tenant_id as int, tenant_scale as int) ==> block_fits(
            block_of_time(t as int).0,
            tenant_id as int,
            tenant_scale as int,
        ),
    ensures
        match r {
            Some(x) => t >= 0 && tenant_in_range(tenant_id as int, tenant_scale as int) && Some((x.0, x.1))
                == block_location_spec(block_of_time(t as int).0, tenant_id as int, tenant_scale as int)
                && x.2 == block_of_time(t as int).1,
            None => t < 0 || !tenant_in_range(tenant_id as int, tenant_scale as int),
        },
{
    if t < 0 || !(0 <= tenant_id && tenant_id < tenant_scale) {
        return None;
    }
    let (block_id, step) = div_trunc(t, POINTS_PER_BLOCK);
    proof {
        assert(block_id >= 0 && 0 <= step < 64);
    }
    match block_location(block_id, tenant_id, tenant_scale) {
        Some((blkno, off)) => Some((blkno, off, step as usize)),
        None => None,
    }
}

// ---------------------------------------------------------------------------
// Raw pages
// ---------------------------------------------------------------------------

/// The little-endian 16-bit value at `off`.
pub open spec fn le_u16(page: Seq<u8>, off: int) -> int {
    page[off] as int + page[off + 1] as int * 256
}

/// The little-endian 32-bit value at `off`.
pub open spec fn le_u32(page: Seq<u8>, off: int) -> int {
    le_u16(page, off) + le_u16(page, off + 2) * 65536
}

/// Offset of `pd_special` in the page header.
pub open spec fn special_field_offset() -> int {
    16
}

/// Offset of the magic number inside the special area.
pub open spec fn magic_offset_in_special() -> int {
    20
}

/// A page of the packed store: its header places the special area where
/// the store puts it, and the special area carries the magic number.
pub open spec fn valid_spiral_page_spec(page: Seq<u8>) -> bool {
    &&& le_u16(page, special_field_offset()) == BLCKSZ - SPECIAL_SIZE
    &&& le_u32(page, (BLCKSZ - SPECIAL_SIZE) as int + magic_offset_in_special()) == SPIRAL_PAGE_MAGIC
}

/// Tests whether a page image belongs to the packed store.
pub fn is_valid_spiral_page(page: &[u8]) -> (r: bool)
    requires
        page@.len() == BLCKSZ,
    ensures
        r == valid_spiral_page_spec(page@),
{
    let special: u32 = page[16] as u32 + page[17] as u32 * 256;
    if special != 8168 {
        return false;
    }
    let m: u32 = page[8188] as u32 + page[8189] as u32 * 256 + (page[8190] as u32 + page[8191] as u32
        * 256) * 65536;
    m == SPIRAL_PAGE_MAGIC
}

/// Byte `k` of slot `i` of the page's data area.
pub open spec fn slot_byte(page: Seq<u8>, i: int, k: int) -> u8 {
    page[HEADER_SIZE as int + 8 * i + k]
}

/// Slot `i` of the page's data area holds a non-zero value.
pub open spec fn slot_live(page: Seq<u8>, i: int) -> bool {
    exists|k: int| 0 <= k < 8 && #[trigger] slot_byte(page, i, k) != 0
}

/// The number of non-zero slots among the first `n` of the data area.
pub open spec fn live_slots(page: Seq<u8>, n: int) -> int
    decreases n,
{
    if n <= 0 {
        0
    } else {
        live_slots(page, n - 1) + if slot_live(page, n - 1) {
            1int
        } else {
            0int
        }
    }
}

/// How full a page is: its slots, the non-zero ones and the zero ones.
pub struct PageFill {
    pub max_offset: i64,
    pub live_tuples: i64,
    pub dead_tuples: i64,
    pub unused_slots: i64,
}

fn slot_is_live(page: &[u8], i: usize) -> (r: bool)
    requires
        page@.len() == BLCKSZ,
        i < DATA_PER_PAGE,
    ensures
        r == slot_live(page@, i as int),
{
    let base = HEADER_SIZE + 8 * i;
    let mut k: usize = 0;
    while k < 8
        invariant
            k <= 8,
            base == HEADER_SIZE + 8 * i,
            i < DATA_PER_PAGE,
            page@.len() == BLCKSZ,
            forall|j: int| 0 <= j < k ==> #[trigger] slot_byte(page@, i as int, j) == 0,
        decreases 8 - k,
    {
        if page[base + k] != 0 {
            proof {
                assert(slot_byte(page@, i as int, k as int) != 0);
            }
            return true;
        }
        k = k + 1;
    }
    proof {
        if slot_live(page@, i as int) {
            let k0 = choose|k: int| 0 <= k < 8 && #[trigger] slot_byte(page@, i as int, k) != 0;
            assert(slot_byte(page@, i as int, k0) == 0);
        }
    }
    false
}

/// Counts the live (non-zero) and unused (zero) slots of a page image; a
/// page that is missing (`None`: past the end of the relation) or that does
/// not belong to the store counts as entirely unused.
pub fn spiral_page_fill_stats(page: Option<&[u8]>) -> (r: PageFill)
    requires
        match page {
            Some(p) => p@.len() == BLCKSZ,
            None => true,
        },
    ensures
        r.max_offset == DATA_PER_PAGE,
        r.dead_tuples == 0,
        r.live_tuples + r.unused_slots == DATA_PER_PAGE,
        r.live_tuples == match page {
            Some(p) => if valid_spiral_page_spec(p@) {
                live_slots(p@, DATA_PER_PAGE as int)
            } else {
                0
            },
            None => 0,
        },
{
    let empty = PageFill { max_offset: 1018, live_tuples: 0, dead_tuples: 0, unused_slots: 1018 };
    match page {
        None => empty,
        Some(p) => {
            if !is_valid_spiral_page(p) {
                return empty;
            }
            let mut live: i64 = 0;
            let mut i: usize = 0;
            while i < DATA_PER_PAGE
                invariant
                    i <= DATA_PER_PAGE,
                    p@.len() == BLCKSZ,
                    live == live_slots(p@, i as int),
                    0 <= live <= i,
                decreases DATA_PER_PAGE - i,
            {
                if slot_is_live(p, i) {
                    live = live + 1;
                }
                i = i + 1;
            }
            PageFill { max_offset: 1018, live_tuples: live, dead_tuples: 0, unused_slots: 1018 - live }
        },
    }
}

// ---------------------------------------------------------------------------
// What a page covers
// ---------------------------------------------------------------------------

/// The times and tenants whose plain readings a page holds.
pub struct BlockTenantRange {
    pub blkno: i32,
    pub t_start: i64,
    pub t_end: i64,
    pub tenant_start: i32,
    pub tenant_end: i32,
    pub tuple_count: i64,
    pub is_boundary: bool,
    pub drift_records: i64,
    pub kickoff_epoch: i64,
}

/// The first slot of a page.
pub open spec fn page_first_slot(blkno: int) -> int {
    blkno * DATA_PER_PAGE as int
}

/// The last slot of a page.
pub open spec fn page_last_slot(blkno: int) -> int {
    (blkno + 1) * DATA_PER_PAGE as int - 1
}

/// Computes which times and tenants page `blkno` covers, reading each slot
/// `i` as time `i / tenant_scale` and tenant `i % tenant_scale` (rounded
/// toward zero, tenants truncated to 32 bits); the page straddles two times
/// or more when its first and last slot differ in time, and the drift is how
/// far the scale is from a page's worth of slots.
pub fn spiral_blkno_to_tenant_range(blkno: i32, tenant_scale: i64, kickoff: i64) -> (r: BlockTenantRange)
    requires
        tenant_scale != 0,
        blkno < i32::MAX,
        tenant_scale > i64::MIN + 1018,
    ensures
        r.blkno == blkno,
        r.t_start == trunc_div(page_first_slot(blkno as int), tenant_scale as int),
        r.t_end == trunc_div(page_last_slot(blkno as int), tenant_scale as int),
        r.tenant_start == trunc_rem(page_first_slot(blkno as int), tenant_scale as int) as i32,
        r.tenant_end == trunc_rem(page_last_slot(blkno as int), tenant_scale as int) as i32,
        r.tuple_count == DATA_PER_PAGE,
        r.is_boundary == (r.t_start != r.t_end),
        r.drift_records == abs(tenant_scale - DATA_PER_PAGE as int),
        r.kickoff_epoch == kickoff,
{
    let start_idx: i64 = blkno as i64 * 1018;
    let end_idx: i64 = (blkno + 1) as i64 * 1018 - 1;
    let (t_start, tenant_start) = div_trunc(start_idx, tenant_scale);
    let (t_end, tenant_end) = div_trunc(end_idx, tenant_scale);
    let diff: i64 = tenant_scale - 1018;
    let drift: i64 = if diff < 0 {
        -diff
    } else {
        diff
    };
    BlockTenantRange {
        blkno,
        t_start,
        t_end,
        tenant_start: tenant_start as i32,
        tenant_end: tenant_end as i32,
        tuple_count: 1018,
        is_boundary: t_start != t_end,
        drift_records: drift,
        kickoff_epoch: kickoff,
    }
}

// ---------------------------------------------------------------------------
// Storage statistics
// ---------------------------------------------------------------------------

/// The sizes reported for a packed relation of `total_pages` pages: the
/// slots it holds, the bytes those rows would take in a heap (48 per row),
/// the bytes the pages take, and both sizes in KiB (rounded down).
pub struct StorageFigures {
    pub total_pages: u32,
    pub total_rows_capacity: i64,
    pub projected_heap_size_bytes: i64,
    pub spiral_size_bytes: i64,
    pub spiral_size_kb: i64,
    pub projected_heap_size_kb: i64,
}

/// Computes the size figures of a packed relation of `nblocks` pages.
pub fn storage_figures(nblocks: u32) -> (r: StorageFigures)
    ensures
        r.total_pages == nblocks,
        r.total_rows_capacity == nblocks * DATA_PER_PAGE,
        r.projected_heap_size_bytes == nblocks * DATA_PER_PAGE * 48,
        r.spiral_size_bytes == nblocks * BLCKSZ,
        r.spiral_size_kb == (nblocks * BLCKSZ) / 1024,
        r.projected_heap_size_kb == (nblocks * DATA_PER_PAGE * 48) / 1024,
{
    let n: i64 = nblocks as i64;
    let rows: i64 = n * 1018;
    let heap: i64 = rows * 48;
    let bytes: i64 = n * 8192;
    StorageFigures {
        total_pages: nblocks,
        total_rows_capacity: rows,
        projected_heap_size_bytes: heap,
        spiral_size_bytes: bytes,
        spiral_size_kb: bytes / 1024,
        projected_heap_size_kb: heap / 1024,
    }
}

/// The time column a table is read by: its `time_column` setting, else `t`.
pub open spec fn time_column_of(setting: Option<Seq<char>>) -> Seq<char> {
    match setting {
        Some(c) => c,
        None => "t"@,
    }
}

/// The query that reads the first and last time of a packed table, in Unix
/// seconds.
pub open spec fn time_span_sql_spec(time_col: Seq<char>, table: Seq<char>) -> Seq<char> {
    "SELECT extract(epoch from min("@ + time_col + "))::bigint, extract(epoch from max("@ + time_col
        + "))::bigint FROM "@ + table
}

/// The query that reads the first and last time of `table` by its time
/// column (`t` where no setting names one).
pub fn time_span_sql(time_column: Option<&str>, table: &str) -> (r: String)
    ensures
        r@ == time_span_sql_spec(
            time_column_of(
                match time_column {
                    Some(c) => Some(c@),
                    None => None,
                },
            ),
            table@,
        ),
{
    let col: Vec<char> = match time_column {
        Some(c) => chars_of(c),
        None => chars_of("t"),
    };
    let mut v = chars_of("SELECT extract(epoch from min(");
    push_chars(&mut v, &col);
    push_str(&mut v, "))::bigint, extract(epoch from max(");
    push_chars(&mut v, &col);
    push_str(&mut v, "))::bigint FROM ");
    push_str(&mut v, table);
    string_from_chars(&v)
}

} // verus!
