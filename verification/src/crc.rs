//! CRC-32 with the reflected polynomial `0xEDB88320`, as PNG and zlib use it.
//!
//! The checksum is defined bit by bit (`crc32_spec`). The two executable
//! engines are table driven: one byte per step, or eight bytes per step with
//! eight 256-entry tables. Both are proved equal to the definition.
use vstd::prelude::*;

verus! {

/// The generator polynomial, bits reversed.
pub const CRC32_POLY: u32 = 0xEDB8_8320;

/// One shift of the CRC register.
pub open spec fn bit_step(c: u32) -> u32 {
    if (c & 1) == 1 {
        (c >> 1) ^ CRC32_POLY
    } else {
        c >> 1
    }
}

/// Eight shifts of the CRC register: what one zero byte does to it.
pub open spec fn byte_step(c: u32) -> u32 {
    bit_step(bit_step(bit_step(bit_step(bit_step(bit_step(bit_step(bit_step(c))))))))
}

/// The register after the byte `b` was fed into `crc`.
pub open spec fn crc32_update(crc: u32, b: u8) -> u32 {
    byte_step(crc ^ (b as u32))
}

/// The register after all of `data` was fed into `seed`, first byte first.
pub open spec fn crc32_spec(data: Seq<u8>, seed: u32) -> u32
    decreases data.len(),
{
    if data.len() == 0 {
        seed
    } else {
        crc32_update(crc32_spec(data.drop_last(), seed), data.last())
    }
}

/// `byte_step` applied `n` times.
pub open spec fn zpow(n: nat, x: u32) -> u32
    decreases n,
{
    if n == 0 {
        x
    } else {
        byte_step(zpow((n - 1) as nat, x))
    }
}

/// Entry `i` of table `k`: the register that holds the byte `i`, after
/// `k + 1` zero bytes.
pub open spec fn table_entry(k: nat, i: u32) -> u32 {
    zpow(k + 1, i)
}

/// The eight tables one after the other: entry `i` of table `k` stands at
/// index `256 * k + i`.
pub open spec fn crc32_tables() -> Seq<u32> {
    Seq::new(2048, |j: int| table_entry((j / 256) as nat, (j % 256) as u32))
}

/// Bits `8 * n .. 8 * n + 8` of `x`.
pub open spec fn lane(x: u32, n: u32) -> u32 {
    (x >> (8 * n)) & 0xff
}

/// Four bytes as a little-endian word.
pub open spec fn le_word(b0: u8, b1: u8, b2: u8, b3: u8) -> u32 {
    (b0 as u32) | ((b1 as u32) << 8) | ((b2 as u32) << 16) | ((b3 as u32) << 24)
}

/// One table-driven step over one byte.
pub open spec fn slice1_update(crc: u32, b: u8) -> u32 {
    (crc >> 8) ^ table_entry(0, (crc & 0xff) ^ (b as u32))
}

/// One table-driven step over eight bytes, given as two little-endian words.
pub open spec fn slice8_update(crc: u32, v1: u32, v2: u32) -> u32 {
    table_entry(7, lane(crc ^ v1, 0)) ^ table_entry(6, lane(crc ^ v1, 1)) ^ table_entry(
        5,
        lane(crc ^ v1, 2),
    ) ^ table_entry(4, lane(crc ^ v1, 3)) ^ table_entry(3, lane(v2, 0)) ^ table_entry(
        2,
        lane(v2, 1),
    ) ^ table_entry(1, lane(v2, 2)) ^ table_entry(0, lane(v2, 3))
}

/// The byte-at-a-time engine over all of `data`.
pub open spec fn crc32_slice1_spec(data: Seq<u8>, seed: u32) -> u32
    decreases data.len(),
{
    if data.len() == 0 {
        seed
    } else {
        slice1_update(crc32_slice1_spec(data.drop_last(), seed), data.last())
    }
}

/// The register after the first `m` whole 8-byte chunks of `data` went through
/// the eight-table step.
pub open spec fn slice8_chunks(data: Seq<u8>, seed: u32, m: nat) -> u32
    decreases m,
{
    if m == 0 {
        seed
    } else {
        let at: int = 8 * (m - 1);
        slice8_update(
            slice8_chunks(data, seed, (m - 1) as nat),
            le_word(data[at], data[at + 1], data[at + 2], data[at + 3]),
            le_word(data[at + 4], data[at + 5], data[at + 6], data[at + 7]),
        )
    }
}

/// The eight-bytes-at-a-time engine over all of `data`: whole chunks first,
/// then the tail of fewer than eight bytes one byte at a time.
pub open spec fn crc32_slice8_spec(data: Seq<u8>, seed: u32) -> u32 {
    let m: nat = data.len() / 8;
    crc32_slice1_spec(data.skip(8 * m as int), slice8_chunks(data, seed, m))
}

proof fn lemma_bit_step_linear(x: u32, y: u32)
    by (bit_vector)
    ensures
        bit_step(x ^ y) == bit_step(x) ^ bit_step(y),
{
}

proof fn lemma_byte_step_linear(x: u32, y: u32)
    ensures
        byte_step(x ^ y) == byte_step(x) ^ byte_step(y),
{
    let x1 = bit_step(x);
    let y1 = bit_step(y);
    let x2 = bit_step(x1);
    let y2 = bit_step(y1);
    let x3 = bit_step(x2);
    let y3 = bit_step(y2);
    let x4 = bit_step(x3);
    let y4 = bit_step(y3);
    let x5 = bit_step(x4);
    let y5 = bit_step(y4);
    let x6 = bit_step(x5);
    let y6 = bit_step(y5);
    let x7 = bit_step(x6);
    let y7 = bit_step(y6);
    lemma_bit_step_linear(x, y);
    lemma_bit_step_linear(x1, y1);
    lemma_bit_step_linear(x2, y2);
    lemma_bit_step_linear(x3, y3);
    lemma_bit_step_linear(x4, y4);
    lemma_bit_step_linear(x5, y5);
    lemma_bit_step_linear(x6, y6);
    lemma_bit_step_linear(x7, y7);
}

proof fn lemma_byte_step_split(w: u32)
    by (bit_vector)
    ensures
        byte_step(w) == (w >> 8) ^ byte_step(w & 0xff),
        (w & 0xff) < 256,
{
}

proof fn lemma_byte_step_shifted(y: u32)
    by (bit_vector)
    requires
        y < 0x100_0000,
    ensures
        byte_step(y << 8) == y,
{
}

proof fn lemma_update_table_form(c: u32, b: u8)
    by (bit_vector)
    ensures
        byte_step(c ^ (b as u32)) == (c >> 8) ^ byte_step((c & 0xff) ^ (b as u32)),
        ((c & 0xff) ^ (b as u32)) < 256,
{
}

proof fn lemma_lanes(x: u32)
    by (bit_vector)
    ensures
        x == (((x & 0xff) ^ (((x >> 8) & 0xff) << 8)) ^ (((x >> 16) & 0xff) << 16)) ^ (((x >> 24)
            & 0xff) << 24),
        (x & 0xff) < 256,
        ((x >> 8) & 0xff) < 256,
        ((x >> 16) & 0xff) < 256,
        ((x >> 24) & 0xff) < 256,
        (x >> 0) == x,
{
}

proof fn lemma_lane_shifts(l: u32)
    by (bit_vector)
    requires
        l < 256,
    ensures
        (l << 8) < 0x100_0000,
        (l << 16) < 0x100_0000,
        (l << 16) == ((l << 8) << 8),
        (l << 24) == ((l << 16) << 8),
{
}

proof fn lemma_le_word(b0: u8, b1: u8, b2: u8, b3: u8)
    by (bit_vector)
    ensures
        ((b0 as u32) | ((b1 as u32) << 8) | ((b2 as u32) << 16) | ((b3 as u32) << 24)) == (((b0 as u32)
            ^ ((b1 as u32) << 8)) ^ ((b2 as u32) << 16)) ^ ((b3 as u32) << 24),
{
}

proof fn lemma_xor_regroup(a: u32, t3: u32, t2: u32, t1: u32, t0: u32)
    by (bit_vector)
    ensures
        a ^ (((t3 ^ t2) ^ t1) ^ t0) == (((a ^ t3) ^ t2) ^ t1) ^ t0,
{
}

proof fn lemma_zpow_linear(n: nat, x: u32, y: u32)
    ensures
        zpow(n, x ^ y) == zpow(n, x) ^ zpow(n, y),
    decreases n,
{
    if n > 0 {
        lemma_zpow_linear((n - 1) as nat, x, y);
        lemma_byte_step_linear(zpow((n - 1) as nat, x), zpow((n - 1) as nat, y));
    }
}

proof fn lemma_zpow_inner(n: nat, x: u32)
    ensures
        zpow(n + 1, x) == zpow(n, byte_step(x)),
    decreases n,
{
    if n > 0 {
        lemma_zpow_inner((n - 1) as nat, x);
    } else {
        assert(zpow(0, x) == x);
        assert(zpow(0, byte_step(x)) == byte_step(x));
    }
}

/// A byte that stands `k` lanes up takes `k` zero bytes to come down.
proof fn lemma_zpow_lane(n: nat, l: u32)
    requires
        l < 256,
    ensures
        zpow(n + 1, l << 8) == zpow(n, l),
        zpow(n + 2, l << 16) == zpow(n, l),
        zpow(n + 3, l << 24) == zpow(n, l),
{
    lemma_lane_shifts(l);
    lemma_byte_step_shifted(l);
    lemma_byte_step_shifted(l << 8);
    lemma_byte_step_shifted(l << 16);
    lemma_zpow_inner(n, l << 8);
    lemma_zpow_inner(n + 1, l << 16);
    lemma_zpow_inner(n + 2, l << 24);
}

/// `n` zero bytes on a word, lane by lane.
proof fn lemma_zpow_by_lanes(n: nat, x: u32)
    requires
        n >= 4,
    ensures
        zpow(n, x) == ((zpow(n, lane(x, 0)) ^ zpow((n - 1) as nat, lane(x, 1))) ^ zpow(
            (n - 2) as nat,
            lane(x, 2),
        )) ^ zpow((n - 3) as nat, lane(x, 3)),
        lane(x, 0) < 256,
        lane(x, 1) < 256,
        lane(x, 2) < 256,
        lane(x, 3) < 256,
{
    lemma_lanes(x);
    let l0 = x & 0xff;
    let l1 = (x >> 8) & 0xff;
    let l2 = (x >> 16) & 0xff;
    let l3 = (x >> 24) & 0xff;
    assert(lane(x, 0) == l0);
    assert(lane(x, 1) == l1);
    assert(lane(x, 2) == l2);
    assert(lane(x, 3) == l3);
    lemma_zpow_linear(n, (l0 ^ (l1 << 8)) ^ (l2 << 16), l3 << 24);
    lemma_zpow_linear(n, l0 ^ (l1 << 8), l2 << 16);
    lemma_zpow_linear(n, l0, l1 << 8);
    lemma_zpow_lane((n - 1) as nat, l1);
    lemma_zpow_lane((n - 2) as nat, l2);
    lemma_zpow_lane((n - 3) as nat, l3);
}

/// Four bytes fed one after the other are four zero bytes on the register
/// xored with the little-endian word.
proof fn lemma_feed4(c: u32, b0: u8, b1: u8, b2: u8, b3: u8)
    ensures
        crc32_update(crc32_update(crc32_update(crc32_update(c, b0), b1), b2), b3) == zpow(
            4,
            c ^ le_word(b0, b1, b2, b3),
        ),
{
    let a0 = b0 as u32;
    let a1 = b1 as u32;
    let a2 = b2 as u32;
    let a3 = b3 as u32;
    let w1 = c ^ a0;
    let w2 = w1 ^ (a1 << 8);
    let w3 = w2 ^ (a2 << 16);
    let w4 = w3 ^ (a3 << 24);
    lemma_le_word(b0, b1, b2, b3);
    lemma_xor_regroup(c, a0, a1 << 8, a2 << 16, a3 << 24);
    assert(c ^ le_word(b0, b1, b2, b3) == w4);
    let s1 = crc32_update(c, b0);
    let s2 = crc32_update(s1, b1);
    let s3 = crc32_update(s2, b2);
    let s4 = crc32_update(s3, b3);
    assert(zpow(0, w1) == w1);
    assert(s1 == zpow(1, w1));
    lemma_zpow_linear(1, w1, a1 << 8);
    lemma_zpow_lane(0, a1);
    assert(zpow(1, w2) == s1 ^ a1);
    assert(s2 == zpow(2, w2));
    lemma_zpow_linear(2, w2, a2 << 16);
    lemma_zpow_lane(0, a2);
    assert(zpow(2, w3) == s2 ^ a2);
    assert(s3 == zpow(3, w3));
    lemma_zpow_linear(3, w3, a3 << 24);
    lemma_zpow_lane(0, a3);
    assert(zpow(3, w4) == s3 ^ a3);
    assert(s4 == zpow(4, w4));
}

proof fn lemma_zpow_add(a: nat, b: nat, x: u32)
    ensures
        zpow(a, zpow(b, x)) == zpow(a + b, x),
    decreases a,
{
    if a > 0 {
        lemma_zpow_add((a - 1) as nat, b, x);
    }
}

/// The eight-table step is eight bytes fed one after the other.
pub proof fn lemma_slice8_update(
    c: u32,
    b0: u8,
    b1: u8,
    b2: u8,
    b3: u8,
    b4: u8,
    b5: u8,
    b6: u8,
    b7: u8,
)
    ensures
        slice8_update(c, le_word(b0, b1, b2, b3), le_word(b4, b5, b6, b7)) == crc32_update(
            crc32_update(
                crc32_update(
                    crc32_update(
                        crc32_update(crc32_update(crc32_update(crc32_update(c, b0), b1), b2), b3),
                        b4,
                    ),
                    b5,
                ),
                b6,
            ),
            b7,
        ),
{
    let v1 = le_word(b0, b1, b2, b3);
    let v2 = le_word(b4, b5, b6, b7);
    let s4 = crc32_update(crc32_update(crc32_update(crc32_update(c, b0), b1), b2), b3);
    let s8 = crc32_update(crc32_update(crc32_update(crc32_update(s4, b4), b5), b6), b7);
    lemma_feed4(c, b0, b1, b2, b3);
    lemma_feed4(s4, b4, b5, b6, b7);
    let x = c ^ v1;
    lemma_zpow_linear(4, zpow(4, x), v2);
    lemma_zpow_add(4, 4, x);
    assert(s8 == zpow(8, x) ^ zpow(4, v2));
    lemma_zpow_by_lanes(8, x);
    lemma_zpow_by_lanes(4, v2);
    lemma_xor_regroup(
        zpow(8, x),
        zpow(4, lane(v2, 0)),
        zpow(3, lane(v2, 1)),
        zpow(2, lane(v2, 2)),
        zpow(1, lane(v2, 3)),
    );
}

/// The one-table step is one byte fed into the register.
pub proof fn lemma_slice1_update(c: u32, b: u8)
    ensures
        slice1_update(c, b) == crc32_update(c, b),
        ((c & 0xff) ^ (b as u32)) < 256,
{
    lemma_update_table_form(c, b);
    assert(zpow(0, (c & 0xff) ^ (b as u32)) == (c & 0xff) ^ (b as u32));
}

/// Feeding one more byte extends the checksum of a prefix by one update.
pub proof fn lemma_crc32_take_step(data: Seq<u8>, seed: u32, k: int)
    requires
        0 <= k < data.len(),
    ensures
        crc32_spec(data.take(k + 1), seed) == crc32_update(crc32_spec(data.take(k), seed), data[k]),
{
    assert(data.take(k + 1).drop_last() =~= data.take(k));
}

/// Streaming law: the checksum of `a` followed by `b` is the checksum of `b`
/// seeded with the checksum of `a`.
pub proof fn lemma_crc32_concat(a: Seq<u8>, b: Seq<u8>, seed: u32)
    ensures
        crc32_spec(a + b, seed) == crc32_spec(b, crc32_spec(a, seed)),
    decreases b.len(),
{
    if b.len() == 0 {
        assert(a + b =~= a);
    } else {
        lemma_crc32_concat(a, b.drop_last(), seed);
        assert((a + b).drop_last() =~= a + b.drop_last());
        assert((a + b).last() == b.last());
    }
}

/// The byte-at-a-time engine computes the checksum.
pub proof fn lemma_slice1_is_crc32(data: Seq<u8>, seed: u32)
    ensures
        crc32_slice1_spec(data, seed) == crc32_spec(data, seed),
    decreases data.len(),
{
    if data.len() > 0 {
        lemma_slice1_is_crc32(data.drop_last(), seed);
        lemma_slice1_update(crc32_spec(data.drop_last(), seed), data.last());
    }
}

/// After `m` whole chunks the eight-table engine holds the checksum of the
/// first `8 * m` bytes.
pub proof fn lemma_slice8_chunks(data: Seq<u8>, seed: u32, m: nat)
    requires
        8 * m <= data.len(),
    ensures
        slice8_chunks(data, seed, m) == crc32_spec(data.take(8 * m as int), seed),
    decreases m,
{
    if m > 0 {
        lemma_slice8_chunks(data, seed, (m - 1) as nat);
        let at: int = 8 * (m - 1);
        let c = crc32_spec(data.take(at), seed);
        lemma_slice8_update(
            c,
            data[at],
            data[at + 1],
            data[at + 2],
            data[at + 3],
            data[at + 4],
            data[at + 5],
            data[at + 6],
            data[at + 7],
        );
        lemma_crc32_take_step(data, seed, at);
        lemma_crc32_take_step(data, seed, at + 1);
        lemma_crc32_take_step(data, seed, at + 2);
        lemma_crc32_take_step(data, seed, at + 3);
        lemma_crc32_take_step(data, seed, at + 4);
        lemma_crc32_take_step(data, seed, at + 5);
        lemma_crc32_take_step(data, seed, at + 6);
        lemma_crc32_take_step(data, seed, at + 7);
    } else {
        assert(data.take(0).len() == 0);
    }
}

/// The eight-bytes-at-a-time engine computes the checksum.
pub proof fn lemma_slice8_is_crc32(data: Seq<u8>, seed: u32)
    ensures
        crc32_slice8_spec(data, seed) == crc32_spec(data, seed),
{
    let m: nat = data.len() / 8;
    let head = data.take(8 * m as int);
    let rest = data.skip(8 * m as int);
    lemma_slice8_chunks(data, seed, m);
    lemma_slice1_is_crc32(rest, crc32_spec(head, seed));
    lemma_crc32_concat(head, rest, seed);
    assert(head + rest =~= data);
}

/// The two engines agree on every input and every seed.
pub proof fn lemma_slice8_agrees_with_slice1(data: Seq<u8>, seed: u32)
    ensures
        crc32_slice8_spec(data, seed) == crc32_slice1_spec(data, seed),
{
    lemma_slice8_is_crc32(data, seed);
    lemma_slice1_is_crc32(data, seed);
}

fn bit_step_exec(c: u32) -> (r: u32)
    ensures
        r == bit_step(c),
{
    if (c & 1) == 1 {
        (c >> 1) ^ CRC32_POLY
    } else {
        c >> 1
    }
}

fn byte_step_exec(c: u32) -> (r: u32)
    ensures
        r == byte_step(c),
{
    let c1: u32 = bit_step_exec(c);
    let c2: u32 = bit_step_exec(c1);
    let c3: u32 = bit_step_exec(c2);
    let c4: u32 = bit_step_exec(c3);
    let c5: u32 = bit_step_exec(c4);
    let c6: u32 = bit_step_exec(c5);
    let c7: u32 = bit_step_exec(c6);
    bit_step_exec(c7)
}

/// The eight 256-entry lookup tables, one after the other: table `k` starts
/// at index `256 * k`.
pub struct Crc32Tables {
    table: [u32; 2048],
}

impl Crc32Tables {
    #[verifier::type_invariant]
    spec fn well_formed(&self) -> bool {
        forall|j: int|
            0 <= j < 2048 ==> #[trigger] self.table[j] == table_entry(
                (j / 256) as nat,
                (j % 256) as u32,
            )
    }

    /// The 2048 entries.
    pub closed spec fn view(&self) -> Seq<u32> {
        self.table@
    }

    /// Computes the tables from the polynomial.
    pub fn new() -> (t: Crc32Tables)
        ensures
            t@ == crc32_tables(),
    {
        let mut table: [u32; 2048] = [0u32; 2048];
        let mut i: usize = 0;
        while i < 256
            invariant
                i <= 256,
                forall|j: int| 0 <= j < i ==> #[trigger] table[j] == table_entry(0, j as u32),
            decreases 256 - i,
        {
            table[i] = byte_step_exec(i as u32);
            proof {
                assert(zpow(0, i as u32) == i as u32);
            }
            i = i + 1;
        }
        let mut j: usize = 256;
        while j < 2048
            invariant
                256 <= j <= 2048,
                forall|n: int|
                    0 <= n < j ==> #[trigger] table[n] == table_entry(
                        (n / 256) as nat,
                        (n % 256) as u32,
                    ),
            decreases 2048 - j,
        {
            let p: u32 = table[j - 256];
            proof {
                lemma_byte_step_split(p);
            }
            let low: usize = (p & 0xff) as usize;
            let e: u32 = (p >> 8) ^ table[low];
            proof {
                let k: nat = (j / 256) as nat;
                let col: u32 = (j % 256) as u32;
                assert(p == table_entry((k - 1) as nat, col));
                assert(table[low as int] == table_entry(0, low as u32));
                assert(zpow(0, low as u32) == low as u32);
                assert(e == byte_step(p));
                assert(e == table_entry(k, col));
            }
            table[j] = e;
            j = j + 1;
        }
        assert(table@ =~= crc32_tables());
        Crc32Tables { table }
    }

    /// Feeds `data` into `crc`, one byte per step.
    pub fn update_slice1(&self, data: &[u8], crc: u32) -> (r: u32)
        ensures
            r == crc32_spec(data@, crc),
            r == crc32_slice1_spec(data@, crc),
    {
        proof {
            use_type_invariant(self);
            lemma_slice1_is_crc32(data@, crc);
        }
        let r: u32 = self.feed_bytes(data, 0, crc, Ghost(crc));
        assert(data@.take(data@.len() as int) =~= data@);
        r
    }

    /// Feeds `data[from..]` into `state`, one byte per step.
    fn feed_bytes(&self, data: &[u8], from: usize, state: u32, Ghost(seed): Ghost<u32>) -> (r: u32)
        requires
            from <= data@.len(),
            state == crc32_spec(data@.take(from as int), seed),
        ensures
            r == crc32_spec(data@.take(data@.len() as int), seed),
    {
        proof {
            use_type_invariant(self);
        }
        let mut acc: u32 = state;
        let mut i: usize = from;
        while i < data.len()
            invariant
                i <= data@.len(),
                self.well_formed(),
                acc == crc32_spec(data@.take(i as int), seed),
            decreases data@.len() - i,
        {
            let b: u8 = data[i];
            proof {
                lemma_slice1_update(acc, b);
                lemma_crc32_take_step(data@, seed, i as int);
            }
            let idx: usize = ((acc & 0xff) ^ (b as u32)) as usize;
            assert(self.table[idx as int] == table_entry(0, idx as u32));
            acc = (acc >> 8) ^ self.table[idx];
            i = i + 1;
        }
        acc
    }

    /// Feeds `data` into `crc`, eight bytes per step while eight are left, then
    /// one byte per step.
    pub fn update_slice8(&self, data: &[u8], crc: u32) -> (r: u32)
        ensures
            r == crc32_spec(data@, crc),
            r == crc32_slice8_spec(data@, crc),
    {
        proof {
            use_type_invariant(self);
            lemma_slice8_is_crc32(data@, crc);
        }
        let n: usize = data.len();
        let mut acc: u32 = crc;
        let mut i: usize = 0;
        assert(data@.take(0) =~= Seq::<u8>::empty());
        while n - i >= 8
            invariant
                n == data@.len(),
                i <= n,
                self.well_formed(),
                acc == crc32_spec(data@.take(i as int), crc),
            decreases n - i,
        {
            let v1: u32 = (data[i] as u32) | ((data[i + 1] as u32) << 8) | ((data[i + 2] as u32)
                << 16) | ((data[i + 3] as u32) << 24);
            let v2: u32 = (data[i + 4] as u32) | ((data[i + 5] as u32) << 8) | ((data[i + 6] as u32)
                << 16) | ((data[i + 7] as u32) << 24);
            let x: u32 = acc ^ v1;
            proof {
                lemma_lanes(x);
                lemma_lanes(v2);
                let at: int = i as int;
                lemma_slice8_update(
                    acc,
                    data@[at],
                    data@[at + 1],
                    data@[at + 2],
                    data@[at + 3],
                    data@[at + 4],
                    data@[at + 5],
                    data@[at + 6],
                    data@[at + 7],
                );
                lemma_crc32_take_step(data@, crc, at);
                lemma_crc32_take_step(data@, crc, at + 1);
                lemma_crc32_take_step(data@, crc, at + 2);
                lemma_crc32_take_step(data@, crc, at + 3);
                lemma_crc32_take_step(data@, crc, at + 4);
                lemma_crc32_take_step(data@, crc, at + 5);
                lemma_crc32_take_step(data@, crc, at + 6);
                lemma_crc32_take_step(data@, crc, at + 7);
            }
            let x0: usize = (x & 0xff) as usize;
            let x1: usize = ((x >> 8) & 0xff) as usize;
            let x2: usize = ((x >> 16) & 0xff) as usize;
            let x3: usize = ((x >> 24) & 0xff) as usize;
            let y0: usize = (v2 & 0xff) as usize;
            let y1: usize = ((v2 >> 8) & 0xff) as usize;
            let y2: usize = ((v2 >> 16) & 0xff) as usize;
            let y3: usize = ((v2 >> 24) & 0xff) as usize;
            proof {
                assert(lane(x, 0) == x0 && lane(x, 1) == x1 && lane(x, 2) == x2 && lane(x, 3) == x3);
                assert(lane(v2, 0) == y0 && lane(v2, 1) == y1 && lane(v2, 2) == y2 && lane(v2, 3)
                    == y3);
                assert(self.table[0x700 + x0] == table_entry(7, x0 as u32));
                assert(self.table[0x600 + x1] == table_entry(6, x1 as u32));
                assert(self.table[0x500 + x2] == table_entry(5, x2 as u32));
                assert(self.table[0x400 + x3] == table_entry(4, x3 as u32));
                assert(self.table[0x300 + y0] == table_entry(3, y0 as u32));
                assert(self.table[0x200 + y1] == table_entry(2, y1 as u32));
                assert(self.table[0x100 + y2] == table_entry(1, y2 as u32));
                assert(self.table[y3 as int] == table_entry(0, y3 as u32));
            }
            acc = self.table[0x700 + x0] ^ self.table[0x600 + x1] ^ self.table[0x500 + x2]
                ^ self.table[0x400 + x3] ^ self.table[0x300 + y0] ^ self.table[0x200 + y1]
                ^ self.table[0x100 + y2] ^ self.table[y3];
            i = i + 8;
        }
        let r: u32 = self.feed_bytes(data, i, acc, Ghost(crc));
        assert(data@.take(data@.len() as int) =~= data@);
        r
    }
}

/// The CRC-32 register after `data` was fed into `crc`, computed eight bytes
/// at a time.
pub fn crc32_slice8(data: &[u8], crc: u32) -> (r: u32)
    ensures
        r == crc32_spec(data@, crc),
        r == crc32_slice8_spec(data@, crc),
{
    let tables = Crc32Tables::new();
    tables.update_slice8(data, crc)
}

/// The CRC-32 register after `data` was fed into `crc`, computed one byte at
/// a time.
pub fn _crc32_slice1(data: &[u8], crc: u32) -> (r: u32)
    ensures
        r == crc32_spec(data@, crc),
        r == crc32_slice1_spec(data@, crc),
{
    let tables = Crc32Tables::new();
    tables.update_slice1(data, crc)
}

} // verus!
