use renderer::morton::{morton_u32, morton_u64, voodoo_u32, voodoo_u64, BITS_PER_AXIS_U32, BITS_PER_AXIS_U64};

#[test]
fn morton_u32_origin_is_zero() {
    assert_eq!(morton_u32(0, 0, 0), 0);
}

#[test]
fn morton_u32_max_corner_fills_thirty_bits() {
    let max = (1u32 << BITS_PER_AXIS_U32) - 1;
    assert_eq!(morton_u32(max, max, max), (1u32 << (3 * BITS_PER_AXIS_U32)) - 1);
}

#[test]
fn morton_u32_center_is_inside() {
    let code = morton_u32(512, 512, 512);
    let max_code = (1u32 << 30) - 1;
    assert!(code > 0 && code < max_code);
    assert_eq!(code, 0b111 << 27);
}

#[test]
fn morton_u32_axes_give_distinct_codes() {
    let c1 = morton_u32(512, 0, 0);
    let c2 = morton_u32(0, 512, 0);
    let c3 = morton_u32(0, 0, 512);
    assert!(c1 != c2 && c2 != c3 && c1 != c3);
    assert_eq!(c1, 1 << 27);
    assert_eq!(c2, 1 << 28);
    assert_eq!(c3, 1 << 29);
}

#[test]
fn morton_u32_codes_fit_in_thirty_bits() {
    for i in 0..1024u32 {
        let code = morton_u32(i, 1023 - i, 512);
        assert!((code as u64) <= (1u64 << 30) - 1);
    }
}

#[test]
fn morton_u32_ignores_high_bits() {
    assert_eq!(morton_u32(1024 + 5, 2048 + 6, 4096 + 7), morton_u32(5, 6, 7));
}

#[test]
fn morton_u32_nearby_cells_share_high_bits() {
    let c1 = morton_u32(512, 512, 512);
    let c2 = morton_u32(522, 512, 512);
    let hamming_distance = (c1 ^ c2).count_ones();
    assert!(hamming_distance <= 20);
}

#[test]
fn voodoo_u32_spreads_bits() {
    assert_eq!(voodoo_u32(0b1), 0b1);
    assert_eq!(voodoo_u32(0b11), 0b1001);
    assert_eq!(voodoo_u32(0b101), 0b1000001);
    assert_eq!(voodoo_u32(0x3ff), 0x0924_9249);
    assert_eq!(voodoo_u32(0xffff_ffff), 0x0924_9249);
}

#[test]
fn morton_u64_origin_is_zero() {
    assert_eq!(morton_u64(0, 0, 0), 0);
}

#[test]
fn morton_u64_max_corner_fills_63_bits() {
    let max = (1u64 << BITS_PER_AXIS_U64) - 1;
    assert_eq!(morton_u64(max, max, max), ((1u128 << (3 * BITS_PER_AXIS_U64)) - 1) as u64);
}

#[test]
fn morton_u64_center_is_inside() {
    let half = 1u64 << 20;
    let code = morton_u64(half, half, half);
    assert!(code > 0 && code < (1u64 << 63) - 1);
    assert_eq!(code, 0b111 << 60);
}

#[test]
fn voodoo_u64_spreads_bits() {
    assert_eq!(voodoo_u64(0b11), 0b1001);
    assert_eq!(voodoo_u64(0x1f_ffff), 0x1249_2492_4924_9249);
}

#[test]
fn morton_orders_along_each_axis() {
    assert!(morton_u32(3, 7, 9) < morton_u32(4, 7, 9));
    assert!(morton_u32(3, 7, 9) < morton_u32(3, 8, 9));
    assert!(morton_u32(3, 7, 9) < morton_u32(3, 7, 10));
    assert!(morton_u64(3, 7, 9) < morton_u64(4, 7, 9));
}
