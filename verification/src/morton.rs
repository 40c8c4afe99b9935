use vstd::prelude::*;

verus! {

/// Number of bits kept from each coordinate in a 32-bit Morton code.
pub const BITS_PER_AXIS_U32: usize = 10;

/// Number of bits kept from each coordinate in a 64-bit Morton code.
pub const BITS_PER_AXIS_U64: usize = 21;

/// Bit `i` of `x`.
pub open spec fn bit32(x: u32, i: u32) -> bool {
    (x >> i) & 1u32 == 1u32
}

/// Bit `i` of `x`.
pub open spec fn bit64(x: u64, i: u64) -> bool {
    (x >> i) & 1u64 == 1u64
}

/// Bit `i` of the 32-bit dilation of `v`: bit `j < 10` of `v` moves to bit `3 * j`,
/// every other bit is clear.
pub open spec fn dilated_bit_u32(v: u32, i: u32) -> bool {
    i < 30 && i % 3 == 0 && bit32(v, i / 3)
}

/// Bit `i` of the 64-bit dilation of `v`: bit `j < 21` of `v` moves to bit `3 * j`,
/// every other bit is clear.
pub open spec fn dilated_bit_u64(v: u64, i: u64) -> bool {
    i < 63 && i % 3 == 0 && bit64(v, i / 3)
}

/// Bit `i` of the 32-bit Morton code of `(x, y, z)`: the low ten bits of the three
/// coordinates interleaved, `x` on bits `3j`, `y` on bits `3j + 1`, `z` on bits `3j + 2`.
pub open spec fn morton_bit_u32(x: u32, y: u32, z: u32, i: u32) -> bool {
    &&& i < 30
    &&& if i % 3 == 0 {
        bit32(x, i / 3)
    } else if i % 3 == 1 {
        bit32(y, i / 3)
    } else {
        bit32(z, i / 3)
    }
}

/// Bit `i` of the 64-bit Morton code of `(x, y, z)`: the low 21 bits of the three
/// coordinates interleaved, `x` on bits `3j`, `y` on bits `3j + 1`, `z` on bits `3j + 2`.
pub open spec fn morton_bit_u64(x: u64, y: u64, z: u64, i: u64) -> bool {
    &&& i < 63
    &&& if i % 3 == 0 {
        bit64(x, i / 3)
    } else if i % 3 == 1 {
        bit64(y, i / 3)
    } else {
        bit64(z, i / 3)
    }
}

/// `code` is the 32-bit Morton code of `(x, y, z)`.
pub open spec fn is_morton_u32(code: u32, x: u32, y: u32, z: u32) -> bool {
    forall|i: u32| i < 32 ==> #[trigger] bit32(code, i) == morton_bit_u32(x, y, z, i)
}

/// `code` is the 64-bit Morton code of `(x, y, z)`.
pub open spec fn is_morton_u64(code: u64, x: u64, y: u64, z: u64) -> bool {
    forall|i: u64| i < 64 ==> #[trigger] bit64(code, i) == morton_bit_u64(x, y, z, i)
}

/// Spreads the low ten bits of `v` so that bit `j` of `v` lands on bit `3 * j`.
pub fn voodoo_u32(v: u32) -> (r: u32)
    ensures
        forall|i: u32| i < 32 ==> #[trigger] bit32(r, i) == dilated_bit_u32(v, i),
{
    let v0 = v & 0x0000_03ff;
    let v1 = (v0 | (v0 << 16)) & 0x0300_00ff;
    let v2 = (v1 | (v1 << 8)) & 0x0300_f00f;
    let v3 = (v2 | (v2 << 4)) & 0x030c_30c3;
    let r = (v3 | (v3 << 2)) & 0x0924_9249;
    assert(forall|i: u32|
        i < 32 ==> (((r >> i) & 1u32 == 1u32) == (i < 30 && i % 3 == 0 && ((v >> (i / 3)) & 1u32
            == 1u32)))) by (bit_vector)
        requires
            v0 == v & 0x0000_03ff,
            v1 == (v0 | (v0 << 16)) & 0x0300_00ff,
            v2 == (v1 | (v1 << 8)) & 0x0300_f00f,
            v3 == (v2 | (v2 << 4)) & 0x030c_30c3,
            r == (v3 | (v3 << 2)) & 0x0924_9249,
    ;
    r
}

/// Spreads the low 21 bits of `v` so that bit `j` of `v` lands on bit `3 * j`.
pub fn voodoo_u64(v: u64) -> (r: u64)
    ensures
        forall|i: u64| i < 64 ==> #[trigger] bit64(r, i) == dilated_bit_u64(v, i),
{
    let v0 = v & 0x1fffff;
    let v1 = (v0 | (v0 << 32)) & 0x01f00000000ffff;
    let v2 = (v1 | (v1 << 16)) & 0x01f0000ff0000ff;
    let v3 = (v2 | (v2 << 8)) & 0x100f00f00f00f00f;
    let v4 = (v3 | (v3 << 4)) & 0x10c30c30c30c30c3;
    let r = (v4 | (v4 << 2)) & 0x1249249249249249;
    assert(forall|i: u64|
        i < 64 ==> (((r >> i) & 1u64 == 1u64) == (i < 63 && i % 3 == 0 && ((v >> (i / 3)) & 1u64
            == 1u64)))) by (bit_vector)
        requires
            v0 == v & 0x1fffff,
            v1 == (v0 | (v0 << 32)) & 0x01f00000000ffff,
            v2 == (v1 | (v1 << 16)) & 0x01f0000ff0000ff,
            v3 == (v2 | (v2 << 8)) & 0x100f00f00f00f00f,
            v4 == (v3 | (v3 << 4)) & 0x10c30c30c30c30c3,
            r == (v4 | (v4 << 2)) & 0x1249249249249249,
    ;
    r
}

/// The 32-bit Morton code of a cell: the low ten bits of `x`, `y` and `z` interleaved.
pub fn morton_u32(x: u32, y: u32, z: u32) -> (code: u32)
    ensures
        is_morton_u32(code, x, y, z),
{
    let dx = voodoo_u32(x);
    let dy = voodoo_u32(y);
    let dz = voodoo_u32(z);
    let code = dx | (dy << 1) | (dz << 2);
    assert forall|i: u32| i < 32 implies #[trigger] bit32(code, i) == morton_bit_u32(x, y, z, i) by {
        assert(bit32(dx, i) == dilated_bit_u32(x, i));
        if i >= 1 {
            assert(bit32(dy, (i - 1) as u32) == dilated_bit_u32(y, (i - 1) as u32));
        }
        if i >= 2 {
            assert(bit32(dz, (i - 2) as u32) == dilated_bit_u32(z, (i - 2) as u32));
        }
        assert((((code >> i) & 1u32 == 1u32) == (((dx >> i) & 1u32 == 1u32) || (i >= 1 && ((dy
            >> ((i - 1) as u32)) & 1u32 == 1u32)) || (i >= 2 && ((dz >> ((i - 2) as u32)) & 1u32
            == 1u32))))) by (bit_vector)
            requires
                code == dx | (dy << 1) | (dz << 2),
                i < 32,
        ;
    }
    code
}

/// The 64-bit Morton code of a cell: the low 21 bits of `x`, `y` and `z` interleaved.
pub fn morton_u64(x: u64, y: u64, z: u64) -> (code: u64)
    ensures
        is_morton_u64(code, x, y, z),
{
    let dx = voodoo_u64(x);
    let dy = voodoo_u64(y);
    let dz = voodoo_u64(z);
    let code = dx | (dy << 1) | (dz << 2);
    assert forall|i: u64| i < 64 implies #[trigger] bit64(code, i) == morton_bit_u64(x, y, z, i) by {
        assert(bit64(dx, i) == dilated_bit_u64(x, i));
        if i >= 1 {
            assert(bit64(dy, (i - 1) as u64) == dilated_bit_u64(y, (i - 1) as u64));
        }
        if i >= 2 {
            assert(bit64(dz, (i - 2) as u64) == dilated_bit_u64(z, (i - 2) as u64));
        }
        assert((((code >> i) & 1u64 == 1u64) == (((dx >> i) & 1u64 == 1u64) || (i >= 1 && ((dy
            >> ((i - 1) as u64)) & 1u64 == 1u64)) || (i >= 2 && ((dz >> ((i - 2) as u64)) & 1u64
            == 1u64))))) by (bit_vector)
            requires
                code == dx | (dy << 1) | (dz << 2),
                i < 64,
        ;
    }
    code
}

spec fn spread_u32(v: u32) -> u32 {
    let v0 = v & 0x0000_03ffu32;
    let v1 = (v0 | (v0 << 16u32)) & 0x0300_00ffu32;
    let v2 = (v1 | (v1 << 8u32)) & 0x0300_f00fu32;
    let v3 = (v2 | (v2 << 4u32)) & 0x030c_30c3u32;
    (v3 | (v3 << 2u32)) & 0x0924_9249u32
}

spec fn interleave_u32(x: u32, y: u32, z: u32) -> u32 {
    spread_u32(x) | (spread_u32(y) << 1u32) | (spread_u32(z) << 2u32)
}

proof fn lemma_bits_equal_u32(a: u32, b: u32)
    requires
        forall|i: u32| i < 32 ==> #[trigger] bit32(a, i) == bit32(b, i),
    ensures
        a == b,
{
    assert(bit32(a, 0u32) == bit32(b, 0u32));
    assert(bit32(a, 1u32) == bit32(b, 1u32));
    assert(bit32(a, 2u32) == bit32(b, 2u32));
    assert(bit32(a, 3u32) == bit32(b, 3u32));
    assert(bit32(a, 4u32) == bit32(b, 4u32));
    assert(bit32(a, 5u32) == bit32(b, 5u32));
    assert(bit32(a, 6u32) == bit32(b, 6u32));
    assert(bit32(a, 7u32) == bit32(b, 7u32));
    assert(bit32(a, 8u32) == bit32(b, 8u32));
    assert(bit32(a, 9u32) == bit32(b, 9u32));
    assert(bit32(a, 10u32) == bit32(b, 10u32));
    assert(bit32(a, 11u32) == bit32(b, 11u32));
    assert(bit32(a, 12u32) == bit32(b, 12u32));
    assert(bit32(a, 13u32) == bit32(b, 13u32));
    assert(bit32(a, 14u32) == bit32(b, 14u32));
    assert(bit32(a, 15u32) == bit32(b, 15u32));
    assert(bit32(a, 16u32) == bit32(b, 16u32));
    assert(bit32(a, 17u32) == bit32(b, 17u32));
    assert(bit32(a, 18u32) == bit32(b, 18u32));
    assert(bit32(a, 19u32) == bit32(b, 19u32));
    assert(bit32(a, 20u32) == bit32(b, 20u32));
    assert(bit32(a, 21u32) == bit32(b, 21u32));
    assert(bit32(a, 22u32) == bit32(b, 22u32));
    assert(bit32(a, 23u32) == bit32(b, 23u32));
    assert(bit32(a, 24u32) == bit32(b, 24u32));
    assert(bit32(a, 25u32) == bit32(b, 25u32));
    assert(bit32(a, 26u32) == bit32(b, 26u32));
    assert(bit32(a, 27u32) == bit32(b, 27u32));
    assert(bit32(a, 28u32) == bit32(b, 28u32));
    assert(bit32(a, 29u32) == bit32(b, 29u32));
    assert(bit32(a, 30u32) == bit32(b, 30u32));
    assert(bit32(a, 31u32) == bit32(b, 31u32));
    assert(a == b) by (bit_vector)
        requires
            ((a >> 0u32) & 1u32 == 1u32) == ((b >> 0u32) & 1u32 == 1u32),
            ((a >> 1u32) & 1u32 == 1u32) == ((b >> 1u32) & 1u32 == 1u32),
            ((a >> 2u32) & 1u32 == 1u32) == ((b >> 2u32) & 1u32 == 1u32),
            ((a >> 3u32) & 1u32 == 1u32) == ((b >> 3u32) & 1u32 == 1u32),
            ((a >> 4u32) & 1u32 == 1u32) == ((b >> 4u32) & 1u32 == 1u32),
            ((a >> 5u32) & 1u32 == 1u32) == ((b >> 5u32) & 1u32 == 1u32),
            ((a >> 6u32) & 1u32 == 1u32) == ((b >> 6u32) & 1u32 == 1u32),
            ((a >> 7u32) & 1u32 == 1u32) == ((b >> 7u32) & 1u32 == 1u32),
            ((a >> 8u32) & 1u32 == 1u32) == ((b >> 8u32) & 1u32 == 1u32),
            ((a >> 9u32) & 1u32 == 1u32) == ((b >> 9u32) & 1u32 == 1u32),
            ((a >> 10u32) & 1u32 == 1u32) == ((b >> 10u32) & 1u32 == 1u32),
            ((a >> 11u32) & 1u32 == 1u32) == ((b >> 11u32) & 1u32 == 1u32),
            ((a >> 12u32) & 1u32 == 1u32) == ((b >> 12u32) & 1u32 == 1u32),
            ((a >> 13u32) & 1u32 == 1u32) == ((b >> 13u32) & 1u32 == 1u32),
            ((a >> 14u32) & 1u32 == 1u32) == ((b >> 14u32) & 1u32 == 1u32),
            ((a >> 15u32) & 1u32 == 1u32) == ((b >> 15u32) & 1u32 == 1u32),
            ((a >> 16u32) & 1u32 == 1u32) == ((b >> 16u32) & 1u32 == 1u32),
            ((a >> 17u32) & 1u32 == 1u32) == ((b >> 17u32) & 1u32 == 1u32),
            ((a >> 18u32) & 1u32 == 1u32) == ((b >> 18u32) & 1u32 == 1u32),
            ((a >> 19u32) & 1u32 == 1u32) == ((b >> 19u32) & 1u32 == 1u32),
            ((a >> 20u32) & 1u32 == 1u32) == ((b >> 20u32) & 1u32 == 1u32),
            ((a >> 21u32) & 1u32 == 1u32) == ((b >> 21u32) & 1u32 == 1u32),
            ((a >> 22u32) & 1u32 == 1u32) == ((b >> 22u32) & 1u32 == 1u32),
            ((a >> 23u32) & 1u32 == 1u32) == ((b >> 23u32) & 1u32 == 1u32),
            ((a >> 24u32) & 1u32 == 1u32) == ((b >> 24u32) & 1u32 == 1u32),
            ((a >> 25u32) & 1u32 == 1u32) == ((b >> 25u32) & 1u32 == 1u32),
            ((a >> 26u32) & 1u32 == 1u32) == ((b >> 26u32) & 1u32 == 1u32),
            ((a >> 27u32) & 1u32 == 1u32) == ((b >> 27u32) & 1u32 == 1u32),
            ((a >> 28u32) & 1u32 == 1u32) == ((b >> 28u32) & 1u32 == 1u32),
            ((a >> 29u32) & 1u32 == 1u32) == ((b >> 29u32) & 1u32 == 1u32),
            ((a >> 30u32) & 1u32 == 1u32) == ((b >> 30u32) & 1u32 == 1u32),
            ((a >> 31u32) & 1u32 == 1u32) == ((b >> 31u32) & 1u32 == 1u32),
    ;
}

proof fn lemma_interleave_u32(x: u32, y: u32, z: u32)
    ensures
        is_morton_u32(interleave_u32(x, y, z), x, y, z),
{
    let c = interleave_u32(x, y, z);
    assert forall|i: u32| i < 32 implies #[trigger] bit32(c, i) == morton_bit_u32(x, y, z, i) by {
        assert((((c >> i) & 1u32 == 1u32) == (i < 30 && if i % 3 == 0 {
            (x >> (i / 3)) & 1u32 == 1u32
        } else if i % 3 == 1 {
            (y >> (i / 3)) & 1u32 == 1u32
        } else {
            (z >> (i / 3)) & 1u32 == 1u32
        }))) by (bit_vector)
            requires
                c == interleave_u32(x, y, z),
                i < 32,
        ;
    }
}

proof fn lemma_morton_u32_closed_form(code: u32, x: u32, y: u32, z: u32)
    requires
        is_morton_u32(code, x, y, z),
    ensures
        code == interleave_u32(x, y, z),
{
    lemma_interleave_u32(x, y, z);
    let c = interleave_u32(x, y, z);
    assert forall|i: u32| i < 32 implies #[trigger] bit32(code, i) == bit32(c, i) by {
        assert(bit32(code, i) == morton_bit_u32(x, y, z, i));
        assert(bit32(c, i) == morton_bit_u32(x, y, z, i));
    }
    lemma_bits_equal_u32(code, c);
}

/// Two cells whose coordinates fit in ten bits get the same 32-bit Morton code only if they
/// are the same cell.
pub proof fn lemma_morton_u32_injective(c1: u32, x1: u32, y1: u32, z1: u32, c2: u32, x2: u32, y2: u32, z2: u32)
    requires
        is_morton_u32(c1, x1, y1, z1),
        is_morton_u32(c2, x2, y2, z2),
        x1 < 1024 && y1 < 1024 && z1 < 1024,
        x2 < 1024 && y2 < 1024 && z2 < 1024,
        c1 == c2,
    ensures
        x1 == x2 && y1 == y2 && z1 == z2,
{
    lemma_morton_u32_closed_form(c1, x1, y1, z1);
    lemma_morton_u32_closed_form(c2, x2, y2, z2);
    assert(x1 == x2 && y1 == y2 && z1 == z2) by (bit_vector)
        requires
            interleave_u32(x1, y1, z1) == interleave_u32(x2, y2, z2),
            x1 < 1024 && y1 < 1024 && z1 < 1024,
            x2 < 1024 && y2 < 1024 && z2 < 1024,
    ;
}

/// The 32-bit Morton order extends the componentwise order of cells whose coordinates fit in
/// ten bits: a cell that is nowhere behind another gets a code no smaller, and a strictly
/// larger code when it is ahead on some axis.
pub proof fn lemma_morton_u32_monotonic(c1: u32, x1: u32, y1: u32, z1: u32, c2: u32, x2: u32, y2: u32, z2: u32)
    requires
        is_morton_u32(c1, x1, y1, z1),
        is_morton_u32(c2, x2, y2, z2),
        x1 <= x2 < 1024 && y1 <= y2 < 1024 && z1 <= z2 < 1024,
    ensures
        c1 <= c2,
        (x1 < x2 || y1 < y2 || z1 < z2) ==> c1 < c2,
{
    lemma_morton_u32_closed_form(c1, x1, y1, z1);
    lemma_morton_u32_closed_form(c2, x2, y2, z2);
    assert(interleave_u32(x1, y1, z1) <= interleave_u32(x2, y2, z2) && ((x1 < x2 || y1 < y2 || z1
        < z2) ==> interleave_u32(x1, y1, z1) < interleave_u32(x2, y2, z2))) by (bit_vector)
        requires
            x1 <= x2 < 1024 && y1 <= y2 < 1024 && z1 <= z2 < 1024,
    ;
}

/// A 32-bit Morton code uses only the low thirty bits.
pub proof fn lemma_morton_u32_bound(code: u32, x: u32, y: u32, z: u32)
    requires
        is_morton_u32(code, x, y, z),
    ensures
        code < 0x4000_0000,
{
    lemma_morton_u32_closed_form(code, x, y, z);
    assert(interleave_u32(x, y, z) < 0x4000_0000) by (bit_vector);
}

spec fn spread_u64(v: u64) -> u64 {
    let v0 = v & 0x1fffffu64;
    let v1 = (v0 | (v0 << 32u64)) & 0x01f00000000ffffu64;
    let v2 = (v1 | (v1 << 16u64)) & 0x01f0000ff0000ffu64;
    let v3 = (v2 | (v2 << 8u64)) & 0x100f00f00f00f00fu64;
    let v4 = (v3 | (v3 << 4u64)) & 0x10c30c30c30c30c3u64;
    (v4 | (v4 << 2u64)) & 0x1249249249249249u64
}

spec fn interleave_u64(x: u64, y: u64, z: u64) -> u64 {
    spread_u64(x) | (spread_u64(y) << 1u64) | (spread_u64(z) << 2u64)
}

proof fn lemma_bits_equal_u64(a: u64, b: u64)
    requires
        forall|i: u64| i < 64 ==> #[trigger] bit64(a, i) == bit64(b, i),
    ensures
        a == b,
{
    assert(bit64(a, 0u64) == bit64(b, 0u64));
    assert(bit64(a, 1u64) == bit64(b, 1u64));
    assert(bit64(a, 2u64) == bit64(b, 2u64));
    assert(bit64(a, 3u64) == bit64(b, 3u64));
    assert(bit64(a, 4u64) == bit64(b, 4u64));
    assert(bit64(a, 5u64) == bit64(b, 5u64));
    assert(bit64(a, 6u64) == bit64(b, 6u64));
    assert(bit64(a, 7u64) == bit64(b, 7u64));
    assert(bit64(a, 8u64) == bit64(b, 8u64));
    assert(bit64(a, 9u64) == bit64(b, 9u64));
    assert(bit64(a, 10u64) == bit64(b, 10u64));
    assert(bit64(a, 11u64) == bit64(b, 11u64));
    assert(bit64(a, 12u64) == bit64(b, 12u64));
    assert(bit64(a, 13u64) == bit64(b, 13u64));
    assert(bit64(a, 14u64) == bit64(b, 14u64));
    assert(bit64(a, 15u64) == bit64(b, 15u64));
    assert(bit64(a, 16u64) == bit64(b, 16u64));
    assert(bit64(a, 17u64) == bit64(b, 17u64));
    assert(bit64(a, 18u64) == bit64(b, 18u64));
    assert(bit64(a, 19u64) == bit64(b, 19u64));
    assert(bit64(a, 20u64) == bit64(b, 20u64));
    assert(bit64(a, 21u64) == bit64(b, 21u64));
    assert(bit64(a, 22u64) == bit64(b, 22u64));
    assert(bit64(a, 23u64) == bit64(b, 23u64));
    assert(bit64(a, 24u64) == bit64(b, 24u64));
    assert(bit64(a, 25u64) == bit64(b, 25u64));
    assert(bit64(a, 26u64) == bit64(b, 26u64));
    assert(bit64(a, 27u64) == bit64(b, 27u64));
    assert(bit64(a, 28u64) == bit64(b, 28u64));
    assert(bit64(a, 29u64) == bit64(b, 29u64));
    assert(bit64(a, 30u64) == bit64(b, 30u64));
    assert(bit64(a, 31u64) == bit64(b, 31u64));
    assert(bit64(a, 32u64) == bit64(b, 32u64));
    assert(bit64(a, 33u64) == bit64(b, 33u64));
    assert(bit64(a, 34u64) == bit64(b, 34u64));
    assert(bit64(a, 35u64) == bit64(b, 35u64));
    assert(bit64(a, 36u64) == bit64(b, 36u64));
    assert(bit64(a, 37u64) == bit64(b, 37u64));
    assert(bit64(a, 38u64) == bit64(b, 38u64));
    assert(bit64(a, 39u64) == bit64(b, 39u64));
    assert(bit64(a, 40u64) == bit64(b, 40u64));
    assert(bit64(a, 41u64) == bit64(b, 41u64));
    assert(bit64(a, 42u64) == bit64(b, 42u64));
    assert(bit64(a, 43u64) == bit64(b, 43u64));
    assert(bit64(a, 44u64) == bit64(b, 44u64));
    assert(bit64(a, 45u64) == bit64(b, 45u64));
    assert(bit64(a, 46u64) == bit64(b, 46u64));
    assert(bit64(a, 47u64) == bit64(b, 47u64));
    assert(bit64(a, 48u64) == bit64(b, 48u64));
    assert(bit64(a, 49u64) == bit64(b, 49u64));
    assert(bit64(a, 50u64) == bit64(b, 50u64));
    assert(bit64(a, 51u64) == bit64(b, 51u64));
    assert(bit64(a, 52u64) == bit64(b, 52u64));
    assert(bit64(a, 53u64) == bit64(b, 53u64));
    assert(bit64(a, 54u64) == bit64(b, 54u64));
    assert(bit64(a, 55u64) == bit64(b, 55u64));
    assert(bit64(a, 56u64) == bit64(b, 56u64));
    assert(bit64(a, 57u64) == bit64(b, 57u64));
    assert(bit64(a, 58u64) == bit64(b, 58u64));
    assert(bit64(a, 59u64) == bit64(b, 59u64));
    assert(bit64(a, 60u64) == bit64(b, 60u64));
    assert(bit64(a, 61u64) == bit64(b, 61u64));
    assert(bit64(a, 62u64) == bit64(b, 62u64));
    assert(bit64(a, 63u64) == bit64(b, 63u64));
    assert(a == b) by (bit_vector)
        requires
            ((a >> 0u64) & 1u64 == 1u64) == ((b >> 0u64) & 1u64 == 1u64),
            ((a >> 1u64) & 1u64 == 1u64) == ((b >> 1u64) & 1u64 == 1u64),
            ((a >> 2u64) & 1u64 == 1u64) == ((b >> 2u64) & 1u64 == 1u64),
            ((a >> 3u64) & 1u64 == 1u64) == ((b >> 3u64) & 1u64 == 1u64),
            ((a >> 4u64) & 1u64 == 1u64) == ((b >> 4u64) & 1u64 == 1u64),
            ((a >> 5u64) & 1u64 == 1u64) == ((b >> 5u64) & 1u64 == 1u64),
            ((a >> 6u64) & 1u64 == 1u64) == ((b >> 6u64) & 1u64 == 1u64),
            ((a >> 7u64) & 1u64 == 1u64) == ((b >> 7u64) & 1u64 == 1u64),
            ((a >> 8u64) & 1u64 == 1u64) == ((b >> 8u64) & 1u64 == 1u64),
            ((a >> 9u64) & 1u64 == 1u64) == ((b >> 9u64) & 1u64 == 1u64),
            ((a >> 10u64) & 1u64 == 1u64) == ((b >> 10u64) & 1u64 == 1u64),
            ((a >> 11u64) & 1u64 == 1u64) == ((b >> 11u64) & 1u64 == 1u64),
            ((a >> 12u64) & 1u64 == 1u64) == ((b >> 12u64) & 1u64 == 1u64),
            ((a >> 13u64) & 1u64 == 1u64) == ((b >> 13u64) & 1u64 == 1u64),
            ((a >> 14u64) & 1u64 == 1u64) == ((b >> 14u64) & 1u64 == 1u64),
            ((a >> 15u64) & 1u64 == 1u64) == ((b >> 15u64) & 1u64 == 1u64),
            ((a >> 16u64) & 1u64 == 1u64) == ((b >> 16u64) & 1u64 == 1u64),
            ((a >> 17u64) & 1u64 == 1u64) == ((b >> 17u64) & 1u64 == 1u64),
            ((a >> 18u64) & 1u64 == 1u64) == ((b >> 18u64) & 1u64 == 1u64),
            ((a >> 19u64) & 1u64 == 1u64) == ((b >> 19u64) & 1u64 == 1u64),
            ((a >> 20u64) & 1u64 == 1u64) == ((b >> 20u64) & 1u64 == 1u64),
            ((a >> 21u64) & 1u64 == 1u64) == ((b >> 21u64) & 1u64 == 1u64),
            ((a >> 22u64) & 1u64 == 1u64) == ((b >> 22u64) & 1u64 == 1u64),
            ((a >> 23u64) & 1u64 == 1u64) == ((b >> 23u64) & 1u64 == 1u64),
            ((a >> 24u64) & 1u64 == 1u64) == ((b >> 24u64) & 1u64 == 1u64),
            ((a >> 25u64) & 1u64 == 1u64) == ((b >> 25u64) & 1u64 == 1u64),
            ((a >> 26u64) & 1u64 == 1u64) == ((b >> 26u64) & 1u64 == 1u64),
            ((a >> 27u64) & 1u64 == 1u64) == ((b >> 27u64) & 1u64 == 1u64),
            ((a >> 28u64) & 1u64 == 1u64) == ((b >> 28u64) & 1u64 == 1u64),
            ((a >> 29u64) & 1u64 == 1u64) == ((b >> 29u64) & 1u64 == 1u64),
            ((a >> 30u64) & 1u64 == 1u64) == ((b >> 30u64) & 1u64 == 1u64),
            ((a >> 31u64) & 1u64 == 1u64) == ((b >> 31u64) & 1u64 == 1u64),
            ((a >> 32u64) & 1u64 == 1u64) == ((b >> 32u64) & 1u64 == 1u64),
            ((a >> 33u64) & 1u64 == 1u64) == ((b >> 33u64) & 1u64 == 1u64),
            ((a >> 34u64) & 1u64 == 1u64) == ((b >> 34u64) & 1u64 == 1u64),
            ((a >> 35u64) & 1u64 == 1u64) == ((b >> 35u64) & 1u64 == 1u64),
            ((a >> 36u64) & 1u64 == 1u64) == ((b >> 36u64) & 1u64 == 1u64),
            ((a >> 37u64) & 1u64 == 1u64) == ((b >> 37u64) & 1u64 == 1u64),
            ((a >> 38u64) & 1u64 == 1u64) == ((b >> 38u64) & 1u64 == 1u64),
            ((a >> 39u64) & 1u64 == 1u64) == ((b >> 39u64) & 1u64 == 1u64),
            ((a >> 40u64) & 1u64 == 1u64) == ((b >> 40u64) & 1u64 == 1u64),
            ((a >> 41u64) & 1u64 == 1u64) == ((b >> 41u64) & 1u64 == 1u64),
            ((a >> 42u64) & 1u64 == 1u64) == ((b >> 42u64) & 1u64 == 1u64),
            ((a >> 43u64) & 1u64 == 1u64) == ((b >> 43u64) & 1u64 == 1u64),
            ((a >> 44u64) & 1u64 == 1u64) == ((b >> 44u64) & 1u64 == 1u64),
            ((a >> 45u64) & 1u64 == 1u64) == ((b >> 45u64) & 1u64 == 1u64),
            ((a >> 46u64) & 1u64 == 1u64) == ((b >> 46u64) & 1u64 == 1u64),
            ((a >> 47u64) & 1u64 == 1u64) == ((b >> 47u64) & 1u64 == 1u64),
            ((a >> 48u64) & 1u64 == 1u64) == ((b >> 48u64) & 1u64 == 1u64),
            ((a >> 49u64) & 1u64 == 1u64) == ((b >> 49u64) & 1u64 == 1u64),
            ((a >> 50u64) & 1u64 == 1u64) == ((b >> 50u64) & 1u64 == 1u64),
            ((a >> 51u64) & 1u64 == 1u64) == ((b >> 51u64) & 1u64 == 1u64),
            ((a >> 52u64) & 1u64 == 1u64) == ((b >> 52u64) & 1u64 == 1u64),
            ((a >> 53u64) & 1u64 == 1u64) == ((b >> 53u64) & 1u64 == 1u64),
            ((a >> 54u64) & 1u64 == 1u64) == ((b >> 54u64) & 1u64 == 1u64),
            ((a >> 55u64) & 1u64 == 1u64) == ((b >> 55u64) & 1u64 == 1u64),
            ((a >> 56u64) & 1u64 == 1u64) == ((b >> 56u64) & 1u64 == 1u64),
            ((a >> 57u64) & 1u64 == 1u64) == ((b >> 57u64) & 1u64 == 1u64),
            ((a >> 58u64) & 1u64 == 1u64) == ((b >> 58u64) & 1u64 == 1u64),
            ((a >> 59u64) & 1u64 == 1u64) == ((b >> 59u64) & 1u64 == 1u64),
            ((a >> 60u64) & 1u64 == 1u64) == ((b >> 60u64) & 1u64 == 1u64),
            ((a >> 61u64) & 1u64 == 1u64) == ((b >> 61u64) & 1u64 == 1u64),
            ((a >> 62u64) & 1u64 == 1u64) == ((b >> 62u64) & 1u64 == 1u64),
            ((a >> 63u64) & 1u64 == 1u64) == ((b >> 63u64) & 1u64 == 1u64),
    ;
}

proof fn lemma_interleave_u64(x: u64, y: u64, z: u64)
    ensures
        is_morton_u64(interleave_u64(x, y, z), x, y, z),
{
    let c = interleave_u64(x, y, z);
    assert forall|i: u64| i < 64 implies #[trigger] bit64(c, i) == morton_bit_u64(x, y, z, i) by {
        assert((((c >> i) & 1u64 == 1u64) == (i < 63 && if i % 3 == 0 {
            (x >> (i / 3)) & 1u64 == 1u64
        } else if i % 3 == 1 {
            (y >> (i / 3)) & 1u64 == 1u64
        } else {
            (z >> (i / 3)) & 1u64 == 1u64
        }))) by (bit_vector)
            requires
                c == interleave_u64(x, y, z),
                i < 64,
        ;
    }
}

proof fn lemma_morton_u64_closed_form(code: u64, x: u64, y: u64, z: u64)
    requires
        is_morton_u64(code, x, y, z),
    ensures
        code == interleave_u64(x, y, z),
{
    lemma_interleave_u64(x, y, z);
    let c = interleave_u64(x, y, z);
    assert forall|i: u64| i < 64 implies #[trigger] bit64(code, i) == bit64(c, i) by {
        assert(bit64(code, i) == morton_bit_u64(x, y, z, i));
        assert(bit64(c, i) == morton_bit_u64(x, y, z, i));
    }
    lemma_bits_equal_u64(code, c);
}

/// Two cells whose coordinates fit in 21 bits get the same 64-bit Morton code only if they
/// are the same cell.
pub proof fn lemma_morton_u64_injective(c1: u64, x1: u64, y1: u64, z1: u64, c2: u64, x2: u64, y2: u64, z2: u64)
    requires
        is_morton_u64(c1, x1, y1, z1),
        is_morton_u64(c2, x2, y2, z2),
        x1 < 0x20_0000 && y1 < 0x20_0000 && z1 < 0x20_0000,
        x2 < 0x20_0000 && y2 < 0x20_0000 && z2 < 0x20_0000,
        c1 == c2,
    ensures
        x1 == x2 && y1 == y2 && z1 == z2,
{
    lemma_morton_u64_closed_form(c1, x1, y1, z1);
    lemma_morton_u64_closed_form(c2, x2, y2, z2);
    assert(x1 == x2 && y1 == y2 && z1 == z2) by (bit_vector)
        requires
            interleave_u64(x1, y1, z1) == interleave_u64(x2, y2, z2),
            x1 < 0x20_0000 && y1 < 0x20_0000 && z1 < 0x20_0000,
            x2 < 0x20_0000 && y2 < 0x20_0000 && z2 < 0x20_0000,
    ;
}

/// The 64-bit Morton order extends the componentwise order of cells whose coordinates fit in
/// 21 bits: a cell that is nowhere behind another gets a code no smaller, and a strictly
/// larger code when it is ahead on some axis.
pub proof fn lemma_morton_u64_monotonic(c1: u64, x1: u64, y1: u64, z1: u64, c2: u64, x2: u64, y2: u64, z2: u64)
    requires
        is_morton_u64(c1, x1, y1, z1),
        is_morton_u64(c2, x2, y2, z2),
        x1 <= x2 < 0x20_0000 && y1 <= y2 < 0x20_0000 && z1 <= z2 < 0x20_0000,
    ensures
        c1 <= c2,
        (x1 < x2 || y1 < y2 || z1 < z2) ==> c1 < c2,
{
    lemma_morton_u64_closed_form(c1, x1, y1, z1);
    lemma_morton_u64_closed_form(c2, x2, y2, z2);
    assert(interleave_u64(x1, y1, z1) <= interleave_u64(x2, y2, z2) && ((x1 < x2 || y1 < y2 || z1
        < z2) ==> interleave_u64(x1, y1, z1) < interleave_u64(x2, y2, z2))) by (bit_vector)
        requires
            x1 <= x2 < 0x20_0000 && y1 <= y2 < 0x20_0000 && z1 <= z2 < 0x20_0000,
    ;
}

/// A 64-bit Morton code uses only the low 63 bits.
pub proof fn lemma_morton_u64_bound(code: u64, x: u64, y: u64, z: u64)
    requires
        is_morton_u64(code, x, y, z),
    ensures
        code < 0x8000_0000_0000_0000,
{
    lemma_morton_u64_closed_form(code, x, y, z);
    assert(interleave_u64(x, y, z) < 0x8000_0000_0000_0000) by (bit_vector);
}

} // verus!
