use vstd::arithmetic::power2::*;
use vstd::bits::*;
use vstd::prelude::*;

verus! {

/// Little-endian value of a byte sequence.
pub open spec fn le_value(s: Seq<u8>) -> nat
    decreases s.len(),
{
    if s.len() == 0 {
        0
    } else {
        s[0] as nat + 256 * le_value(s.drop_first())
    }
}

/// The `n` low bytes of `v`, least significant first.
pub open spec fn le_bytes(v: nat, n: nat) -> Seq<u8>
    decreases n,
{
    if n == 0 {
        Seq::empty()
    } else {
        seq![(v % 256) as u8] + le_bytes(v / 256, (n - 1) as nat)
    }
}

/// Bit `i` of a byte buffer, least significant bit of each byte first.
pub open spec fn spec_get_bit(b: Seq<u8>, i: nat) -> u8 {
    (b[(i / 8) as int] >> ((i % 8) as u8)) & 1u8
}

/// Nibble `i` of a byte buffer, low nibble of each byte first.
pub open spec fn spec_get_nibble(b: Seq<u8>, i: nat) -> u8 {
    (b[(i / 2) as int] >> (((i % 2) * 4) as u8)) & 0xFu8
}

pub proof fn lemma_pow2_128()
    ensures
        pow2(8) == 256,
        pow2(64) == 0x1_0000_0000_0000_0000,
        pow2(128) == 0x1_0000_0000_0000_0000_0000_0000_0000_0000,
{
    lemma2_to64();
    lemma_pow2_adds(64, 64);
}

pub proof fn lemma_le_value_bound(s: Seq<u8>)
    ensures
        le_value(s) < pow2(8 * s.len()),
    decreases s.len(),
{
    if s.len() == 0 {
        lemma2_to64();
    } else {
        lemma_le_value_bound(s.drop_first());
        lemma2_to64();
        lemma_pow2_adds(8, 8 * (s.len() - 1) as nat);
        assert(8 + 8 * (s.len() - 1) == 8 * s.len());
        let r = le_value(s.drop_first());
        let p = pow2(8 * (s.len() - 1) as nat);
        assert(s[0] as nat + 256 * r < 256 * p) by (nonlinear_arith)
            requires
                r < p,
                s[0] < 256,
        ;
    }
}

pub proof fn lemma_le_round_trip(v: nat, n: nat)
    requires
        v < pow2(8 * n),
    ensures
        le_bytes(v, n).len() == n,
        le_value(le_bytes(v, n)) == v,
    decreases n,
{
    if n == 0 {
        lemma2_to64();
    } else {
        lemma2_to64();
        lemma_pow2_adds(8, 8 * (n - 1) as nat);
        assert(8 + 8 * (n - 1) == 8 * n);
        let p = pow2(8 * (n - 1) as nat);
        assert(v / 256 < p) by (nonlinear_arith)
            requires
                v < 256 * p,
        ;
        lemma_le_round_trip(v / 256, (n - 1) as nat);
        let s = le_bytes(v, n);
        assert(s.drop_first() =~= le_bytes(v / 256, (n - 1) as nat));
        assert(v == v % 256 + 256 * (v / 256)) by (nonlinear_arith);
    }
}

/// Reads `n` bytes at `pos` as a little-endian integer.
pub fn read_le(bytes: &[u8], pos: usize, n: usize) -> (r: u128)
    requires
        n <= 16,
        pos + n <= bytes@.len(),
    ensures
        r == le_value(bytes@.subrange(pos as int, pos + n)),
{
    let len = bytes.len();
    let mut acc: u128 = 0;
    let mut i: usize = n;
    proof {
        lemma_pow2_128();
        assert(bytes@.subrange(pos + n, pos + n) =~= Seq::<u8>::empty());
    }
    while i > 0
        invariant
            i <= n <= 16,
            len == bytes@.len(),
            pos + n <= bytes@.len(),
            acc == le_value(bytes@.subrange(pos + i, pos + n)),
            pow2(128) == 0x1_0000_0000_0000_0000_0000_0000_0000_0000,
        decreases i,
    {
        let s = Ghost(bytes@.subrange(pos + i - 1, pos + n));
        proof {
            assert(s@.drop_first() =~= bytes@.subrange(pos + i, pos + n));
            lemma_le_value_bound(bytes@.subrange(pos + i, pos + n));
            assert(8 * (n - i) <= 120);
            if 8 * (n - i) < 120 {
                lemma_pow2_strictly_increases(8 * (n - i) as nat, 120);
            }
            lemma_pow2_adds(120, 8);
            lemma2_to64();
            assert(acc < pow2(120));
            assert(pow2(120) * 256 == pow2(128));
            assert(acc * 256 + 255 < pow2(128)) by (nonlinear_arith)
                requires
                    acc < pow2(120),
                    pow2(120) * 256 == pow2(128),
            ;
        }
        acc = acc * 256 + bytes[pos + i - 1] as u128;
        i = i - 1;
    }
    acc
}

/// Appends the `n` low bytes of `v`, least significant first.
pub fn push_le(out: &mut Vec<u8>, v: u128, n: usize)
    ensures
        final(out)@ == old(out)@ + le_bytes(v as nat, n as nat),
{
    let mut cur: u128 = v;
    let mut i: usize = 0;
    assert(old(out)@ =~= old(out)@ + Seq::<u8>::empty());
    while i < n
        invariant
            i <= n,
            out@ + le_bytes(cur as nat, (n - i) as nat) == old(out)@ + le_bytes(v as nat, n as nat),
        decreases n - i,
    {
        let ghost before = out@;
        out.push((cur % 256) as u8);
        proof {
            let rest = le_bytes(cur as nat / 256, (n - i - 1) as nat);
            assert(le_bytes(cur as nat, (n - i) as nat) == seq![(cur as nat % 256) as u8] + rest);
            assert(out@ + rest =~= before + le_bytes(cur as nat, (n - i) as nat));
        }
        cur = cur / 256;
        i = i + 1;
    }
    assert(out@ + le_bytes(cur as nat, 0) =~= out@);
}

pub fn get_bit(bytes: &[u8], bit_index: usize) -> (r: u8)
    requires
        bit_index / 8 < bytes@.len(),
    ensures
        r == spec_get_bit(bytes@, bit_index as nat),
        r <= 1,
{
    let byte = bytes[bit_index / 8];
    let bit = (bit_index % 8) as u8;
    let r = (byte >> bit) & 1u8;
    assert(((byte >> bit) & 1u8) <= 1) by (bit_vector);
    r
}

pub fn get_nibble(bytes: &[u8], nibble_index: usize) -> (r: u8)
    requires
        nibble_index / 2 < bytes@.len(),
    ensures
        r == spec_get_nibble(bytes@, nibble_index as nat),
        r <= 15,
{
    let byte = bytes[nibble_index / 2];
    let shift = ((nibble_index % 2) * 4) as u8;
    let r = (byte >> shift) & 0xFu8;
    assert(((byte >> shift) & 0xFu8) <= 15) by (bit_vector);
    r
}

pub fn read_u8(bytes: &[u8], pos: usize) -> (r: Option<u8>)
    ensures
        r is Some <==> pos < bytes@.len(),
        r is Some ==> r->0 == bytes@[pos as int],
{
    if pos < bytes.len() {
        Some(bytes[pos])
    } else {
        None
    }
}

pub fn read_u16(bytes: &[u8], pos: usize) -> (r: Option<u16>)
    ensures
        r is Some <==> pos + 2 <= bytes@.len(),
        r is Some ==> r->0 as nat == le_value(bytes@.subrange(pos as int, pos + 2)),
{
    if pos <= bytes.len() && bytes.len() - pos >= 2 {
        proof {
            lemma_le_value_bound(bytes@.subrange(pos as int, pos + 2));
            lemma2_to64();
        }
        Some(read_le(bytes, pos, 2) as u16)
    } else {
        None
    }
}

pub fn read_u32(bytes: &[u8], pos: usize) -> (r: Option<u32>)
    ensures
        r is Some <==> pos + 4 <= bytes@.len(),
        r is Some ==> r->0 as nat == le_value(bytes@.subrange(pos as int, pos + 4)),
{
    if pos <= bytes.len() && bytes.len() - pos >= 4 {
        proof {
            lemma_le_value_bound(bytes@.subrange(pos as int, pos + 4));
            lemma2_to64();
        }
        Some(read_le(bytes, pos, 4) as u32)
    } else {
        None
    }
}

pub fn read_u64(bytes: &[u8], pos: usize) -> (r: Option<u64>)
    ensures
        r is Some <==> pos + 8 <= bytes@.len(),
        r is Some ==> r->0 as nat == le_value(bytes@.subrange(pos as int, pos + 8)),
{
    if pos <= bytes.len() && bytes.len() - pos >= 8 {
        proof {
            lemma_le_value_bound(bytes@.subrange(pos as int, pos + 8));
            lemma2_to64();
        }
        Some(read_le(bytes, pos, 8) as u64)
    } else {
        None
    }
}

pub fn read_u128(bytes: &[u8], pos: usize) -> (r: Option<u128>)
    ensures
        r is Some <==> pos + 16 <= bytes@.len(),
        r is Some ==> r->0 as nat == le_value(bytes@.subrange(pos as int, pos + 16)),
{
    if pos <= bytes.len() && bytes.len() - pos >= 16 {
        Some(read_le(bytes, pos, 16))
    } else {
        None
    }
}

/// Reads the four raw bytes of a tag.
pub fn read_fourcc(bytes: &[u8], pos: usize) -> (r: Option<[u8; 4]>)
    ensures
        r is Some <==> pos + 4 <= bytes@.len(),
        r is Some ==> r->0@ == bytes@.subrange(pos as int, pos + 4),
{
    if pos <= bytes.len() && bytes.len() - pos >= 4 {
        let r = [bytes[pos], bytes[pos + 1], bytes[pos + 2], bytes[pos + 3]];
        assert(r@ =~= bytes@.subrange(pos as int, pos + 4));
        Some(r)
    } else {
        None
    }
}

pub fn write_u8(writer: &mut Vec<u8>, value: u8)
    ensures
        final(writer)@ == old(writer)@.push(value),
{
    writer.push(value);
}

pub fn write_u16(writer: &mut Vec<u8>, value: u16)
    ensures
        final(writer)@ == old(writer)@ + le_bytes(value as nat, 2),
{
    push_le(writer, value as u128, 2);
}

pub fn write_u32(writer: &mut Vec<u8>, value: u32)
    ensures
        final(writer)@ == old(writer)@ + le_bytes(value as nat, 4),
{
    push_le(writer, value as u128, 4);
}

pub fn write_u64(writer: &mut Vec<u8>, value: u64)
    ensures
        final(writer)@ == old(writer)@ + le_bytes(value as nat, 8),
{
    push_le(writer, value as u128, 8);
}

pub fn write_u128(writer: &mut Vec<u8>, value: u128)
    ensures
        final(writer)@ == old(writer)@ + le_bytes(value as nat, 16),
{
    push_le(writer, value, 16);
}

pub fn write_fourcc(writer: &mut Vec<u8>, value: [u8; 4])
    ensures
        final(writer)@ == old(writer)@ + value@,
{
    let ghost start = writer@;
    writer.push(value[0]);
    writer.push(value[1]);
    writer.push(value[2]);
    writer.push(value[3]);
    assert(writer@ =~= start + value@);
}


/// `out` holds the 0/1 values of `bits`, eight to a byte, least significant
/// bit first, with the unused high bits of the last byte zero.
pub open spec fn packs_bits(out: Seq<u8>, bits: Seq<u8>) -> bool {
    &&& out.len() == (bits.len() + 7) / 8
    &&& forall|i: nat|
        i < 8 * out.len() ==> #[trigger] spec_get_bit(out, i) == (if i < bits.len() {
            bits[i as int]
        } else {
            0u8
        })
}

/// `out` holds the 4-bit values of `nibbles`, two to a byte, low nibble
/// first, with an unused high nibble of the last byte zero.
pub open spec fn packs_nibbles(out: Seq<u8>, nibbles: Seq<u8>) -> bool {
    &&& out.len() == (nibbles.len() + 1) / 2
    &&& forall|i: nat|
        i < 2 * out.len() ==> #[trigger] spec_get_nibble(out, i) == (if i < nibbles.len() {
            nibbles[i as int]
        } else {
            0u8
        })
}

proof fn lemma_or_bit(b: u8, x: u8, t: u8, s: u8)
    requires
        x <= 1,
        t < 8,
        s < 8,
        b >> t == 0,
    ensures
        s == t ==> ((b | (x << t)) >> s) & 1 == x,
        s != t ==> ((b | (x << t)) >> s) & 1 == (b >> s) & 1,
        t < 7 ==> (b | (x << t)) >> ((t + 1) as u8) == 0,
        s >= t ==> (b >> s) & 1 == 0,
{
    assert(s == t ==> ((b | (x << t)) >> s) & 1 == x) by (bit_vector)
        requires
            x <= 1,
            t < 8,
            b >> t == 0,
    ;
    assert(s != t ==> ((b | (x << t)) >> s) & 1 == (b >> s) & 1) by (bit_vector)
        requires
            x <= 1,
            t < 8,
            s < 8,
    ;
    assert(t < 7 ==> (b | (x << t)) >> ((t + 1) as u8) == 0) by (bit_vector)
        requires
            x <= 1,
            b >> t == 0,
    ;
    assert(s >= t ==> (b >> s) & 1 == 0) by (bit_vector)
        requires
            s < 8,
            b >> t == 0,
    ;
}

/// Packs 0/1 values into bytes, least significant bit first.
pub fn pack_bits(bits: &[u8]) -> (r: Vec<u8>)
    requires
        forall|i: int| 0 <= i < bits@.len() ==> #[trigger] bits@[i] <= 1,
    ensures
        packs_bits(r@, bits@),
{
    let n = bits.len();
    let mut out: Vec<u8> = Vec::new();
    let mut byte: u8 = 0;
    let mut k: usize = 0;
    assert(0u8 >> 0u8 == 0) by (bit_vector);
    while k < n
        invariant
            n == bits@.len(),
            k <= n,
            forall|i: int| 0 <= i < bits@.len() ==> #[trigger] bits@[i] <= 1,
            out@.len() == k / 8,
            forall|i: nat| i < 8 * (k / 8) ==> #[trigger] spec_get_bit(out@, i) == bits@[i as int],
            byte >> ((k % 8) as u8) == 0,
            forall|s: u8| s < k % 8 ==> (byte >> s) & 1 == #[trigger] bits@[(8 * (k / 8) + s) as int],
        decreases n - k,
    {
        let t = (k % 8) as u8;
        let x = bits[k];
        let ghost old_byte = byte;
        let ghost old_out = out@;
        proof {
            assert forall|s: u8| s < 8 implies ((old_byte | (x << t)) >> s) & 1 == (if s == t { x } else { (old_byte >> s) & 1 }) by {
                lemma_or_bit(old_byte, x, t, s);
            }
            lemma_or_bit(old_byte, x, t, 0);
        }
        byte = byte | (x << t);
        if t == 7 {
            out.push(byte);
            proof {
                assert forall|i: nat| i < 8 * ((k + 1) / 8) implies #[trigger] spec_get_bit(out@, i) == bits@[i as int] by {
                    if i < 8 * (k / 8) {
                        assert(spec_get_bit(old_out, i) == bits@[i as int]);
                        assert(out@[(i / 8) as int] == old_out[(i / 8) as int]);
                    } else {
                        assert(i / 8 == k / 8);
                        let s = (i % 8) as u8;
                        assert(i == 8 * (k / 8) + s);
                        if s < t {
                            assert((old_byte >> s) & 1 == bits@[(8 * (k / 8) + s) as int]);
                        }
                    }
                }
            }
            byte = 0;
            proof {
                assert(0u8 >> 0u8 == 0) by (bit_vector);
                assert((k + 1) % 8 == 0);
            }
        } else {
            proof {
                assert((k + 1) / 8 == k / 8);
                assert((k + 1) % 8 == k % 8 + 1);
                assert forall|s: u8| s < (k + 1) % 8 implies (byte >> s) & 1 == #[trigger] bits@[(8 * ((k + 1) / 8) + s) as int] by {
                    if s < t {
                        assert((old_byte >> s) & 1 == bits@[(8 * (k / 8) + s) as int]);
                    } else {
                        assert(s == t);
                        assert(8 * (k / 8) + s == k);
                    }
                }
            }
        }
        k = k + 1;
    }
    if n % 8 != 0 {
        let ghost old_out = out@;
        out.push(byte);
        proof {
            assert forall|i: nat| i < 8 * out@.len() implies #[trigger] spec_get_bit(out@, i) == (if i < bits@.len() { bits@[i as int] } else { 0u8 }) by {
                if i < 8 * (n / 8) {
                    assert(spec_get_bit(old_out, i) == bits@[i as int]);
                    assert(out@[(i / 8) as int] == old_out[(i / 8) as int]);
                } else {
                    assert(i / 8 == n / 8);
                    let s = (i % 8) as u8;
                    assert(i == 8 * (n / 8) + s);
                    lemma_or_bit(byte, 0, (n % 8) as u8, s);
                    if (s as nat) < n % 8 {
                        assert((byte >> s) & 1 == bits@[(8 * (n / 8) + s) as int]);
                    }
                }
            }
        }
    } else {
        proof {
            assert forall|i: nat| i < 8 * out@.len() implies #[trigger] spec_get_bit(out@, i) == (if i < bits@.len() { bits@[i as int] } else { 0u8 }) by {
                assert(spec_get_bit(out@, i) == bits@[i as int]);
            }
        }
    }
    out
}

/// Packs 4-bit values into bytes, low nibble first.
pub fn pack_nibbles(nibbles: &[u8]) -> (r: Vec<u8>)
    requires
        forall|i: int| 0 <= i < nibbles@.len() ==> #[trigger] nibbles@[i] <= 15,
    ensures
        packs_nibbles(r@, nibbles@),
{
    let n = nibbles.len();
    let mut out: Vec<u8> = Vec::new();
    let mut j: usize = 0;
    while j < n / 2 + n % 2
        invariant
            n == nibbles@.len(),
            j <= n / 2 + n % 2,
            forall|i: int| 0 <= i < nibbles@.len() ==> #[trigger] nibbles@[i] <= 15,
            out@.len() == j,
            forall|i: nat|
                i < 2 * j ==> #[trigger] spec_get_nibble(out@, i) == (if i < n {
                    nibbles@[i as int]
                } else {
                    0u8
                }),
        decreases n / 2 + n % 2 - j,
    {
        let lo = nibbles[2 * j];
        let hi = if 2 * j + 1 < n {
            nibbles[2 * j + 1]
        } else {
            0
        };
        let byte = lo | (hi << 4u8);
        assert((byte >> 0u8) & 0xFu8 == lo && (byte >> 4u8) & 0xFu8 == hi) by (bit_vector)
            requires
                byte == lo | (hi << 4u8),
                lo <= 15,
                hi <= 15,
        ;
        let ghost old_out = out@;
        out.push(byte);
        proof {
            assert forall|i: nat| i < 2 * (j + 1) implies #[trigger] spec_get_nibble(out@, i) == (if i < n { nibbles@[i as int] } else { 0u8 }) by {
                if i < 2 * j {
                    assert(spec_get_nibble(old_out, i) == (if i < n { nibbles@[i as int] } else { 0u8 }));
                    assert(out@[(i / 2) as int] == old_out[(i / 2) as int]);
                } else {
                    assert(i / 2 == j);
                }
            }
        }
        j = j + 1;
    }
    out
}

proof fn lemma_byte_from_bits(a: u8, b: u8)
    requires
        (a >> 0u8) & 1 == (b >> 0u8) & 1,
        (a >> 1u8) & 1 == (b >> 1u8) & 1,
        (a >> 2u8) & 1 == (b >> 2u8) & 1,
        (a >> 3u8) & 1 == (b >> 3u8) & 1,
        (a >> 4u8) & 1 == (b >> 4u8) & 1,
        (a >> 5u8) & 1 == (b >> 5u8) & 1,
        (a >> 6u8) & 1 == (b >> 6u8) & 1,
        (a >> 7u8) & 1 == (b >> 7u8) & 1,
    ensures
        a == b,
{
    assert(a == b) by (bit_vector)
        requires
            (a >> 0u8) & 1 == (b >> 0u8) & 1,
            (a >> 1u8) & 1 == (b >> 1u8) & 1,
            (a >> 2u8) & 1 == (b >> 2u8) & 1,
            (a >> 3u8) & 1 == (b >> 3u8) & 1,
            (a >> 4u8) & 1 == (b >> 4u8) & 1,
            (a >> 5u8) & 1 == (b >> 5u8) & 1,
            (a >> 6u8) & 1 == (b >> 6u8) & 1,
            (a >> 7u8) & 1 == (b >> 7u8) & 1,
    ;
}

/// The bits determine the packed bytes.
pub proof fn lemma_packs_bits_unique(a: Seq<u8>, b: Seq<u8>, bits: Seq<u8>)
    requires
        packs_bits(a, bits),
        packs_bits(b, bits),
    ensures
        a == b,
{
    assert forall|j: int| 0 <= j < a.len() implies a[j] == b[j] by {
        assert forall|t: nat| t < 8 implies #[trigger] spec_get_bit(a, (8 * j + t) as nat) == spec_get_bit(b, (8 * j + t) as nat) by {
            assert(spec_get_bit(a, (8 * j + t) as nat) == (if ((8 * j + t) as nat) < bits.len() { bits[8 * j + t] } else { 0u8 }));
        }
        assert(spec_get_bit(a, (8 * j + 0) as nat) == spec_get_bit(b, (8 * j + 0) as nat));
        assert(spec_get_bit(a, (8 * j + 1) as nat) == spec_get_bit(b, (8 * j + 1) as nat));
        assert(spec_get_bit(a, (8 * j + 2) as nat) == spec_get_bit(b, (8 * j + 2) as nat));
        assert(spec_get_bit(a, (8 * j + 3) as nat) == spec_get_bit(b, (8 * j + 3) as nat));
        assert(spec_get_bit(a, (8 * j + 4) as nat) == spec_get_bit(b, (8 * j + 4) as nat));
        assert(spec_get_bit(a, (8 * j + 5) as nat) == spec_get_bit(b, (8 * j + 5) as nat));
        assert(spec_get_bit(a, (8 * j + 6) as nat) == spec_get_bit(b, (8 * j + 6) as nat));
        assert(spec_get_bit(a, (8 * j + 7) as nat) == spec_get_bit(b, (8 * j + 7) as nat));
        lemma_byte_from_bits(a[j], b[j]);
    }
    assert(a =~= b);
}

/// The nibbles determine the packed bytes.
pub proof fn lemma_packs_nibbles_unique(a: Seq<u8>, b: Seq<u8>, nibbles: Seq<u8>)
    requires
        packs_nibbles(a, nibbles),
        packs_nibbles(b, nibbles),
    ensures
        a == b,
{
    assert forall|j: int| 0 <= j < a.len() implies a[j] == b[j] by {
        assert(spec_get_nibble(a, (2 * j) as nat) == spec_get_nibble(b, (2 * j) as nat));
        assert(spec_get_nibble(a, (2 * j + 1) as nat) == spec_get_nibble(b, (2 * j + 1) as nat));
        let x = a[j];
        let y = b[j];
        assert(x == y) by (bit_vector)
            requires
                (x >> 0u8) & 0xFu8 == (y >> 0u8) & 0xFu8,
                (x >> 4u8) & 0xFu8 == (y >> 4u8) & 0xFu8,
        ;
    }
    assert(a =~= b);
}

/// Appends all of `data`.
pub fn push_all(out: &mut Vec<u8>, data: &[u8])
    ensures
        final(out)@ == old(out)@ + data@,
{
    let mut i: usize = 0;
    while i < data.len()
        invariant
            i <= data@.len(),
            out@ == old(out)@ + data@.take(i as int),
        decreases data@.len() - i,
    {
        out.push(data[i]);
        i = i + 1;
        assert(out@ =~= old(out)@ + data@.take(i as int));
    }
    assert(data@.take(i as int) =~= data@);
}

/// The bytes of `b` from `start` on.
pub fn slice_from(b: &[u8], start: usize) -> (r: &[u8])
    requires
        start <= b@.len(),
    ensures
        r@ == b@.subrange(start as int, b@.len() as int),
{
    slice_subrange(b, start, b.len())
}

/// The bytes of `b` from `start` to `end`.
pub fn slice_subrange(b: &[u8], start: usize, end: usize) -> (r: &[u8])
    requires
        start <= end <= b@.len(),
    ensures
        r@ == b@.subrange(start as int, end as int),
{
    vstd::slice::slice_subrange(b, start, end)
}

} // verus!
