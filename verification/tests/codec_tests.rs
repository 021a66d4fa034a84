//! Tests of the Morton key encoder.

use grid_world::codec::encode;

#[test]
fn encode_is_injective_on_a_small_box() {
    // Exhaustively encode every coordinate in [-8, 8]^3 and check that no
    // two coordinates collide.
    let mut keys: Vec<u64> = Vec::new();
    for x in -8i16..=8 {
        for y in -8i16..=8 {
            for z in -8i16..=8 {
                keys.push(encode(x, y, z));
            }
        }
    }
    keys.sort();
    for i in 1..keys.len() {
        assert_ne!(keys[i - 1], keys[i]);
    }
}

#[test]
fn encode_places_each_axis_bit() {
    assert_eq!(encode(0, 0, 0), 0);
    assert_eq!(encode(0, 0, 1), 0b001);
    assert_eq!(encode(0, 1, 0), 0b010);
    assert_eq!(encode(1, 0, 0), 0b100);
    assert_eq!(encode(1, 1, 1), 0b111);
    assert_eq!(encode(2, 0, 0), 0b100_000);
    assert_eq!(encode(3, 0, 0), 0b100_100);
    // A negative axis contributes its full two's-complement bit pattern.
    assert_eq!(encode(0, 0, -1), 0x2492_4924_9249);
}

#[test]
fn neighbors_share_more_low_bits_than_strangers() {
    // The low six key bits of a coordinate and its six axis neighbors
    // differ in fewer positions, on average, than those of two unrelated
    // coordinates.  The sample is drawn with a fixed linear congruential
    // sequence so the test is deterministic.
    fn hamming_low6(a: u64, b: u64) -> u32 {
        (((a ^ b) & 0x3F) as u32).count_ones()
    }
    let mut state: u64 = 0x2545_F491_4F6C_DD1D;
    let mut next = move || {
        state = state.wrapping_mul(6364136223846793005).wrapping_add(1442695040888963407);
        (state >> 33) as i16
    };

    let mut neighbor_total: u64 = 0;
    let mut neighbor_count: u64 = 0;
    let mut random_total: u64 = 0;
    let mut random_count: u64 = 0;
    for _ in 0..2000 {
        let (x, y, z) = (next(), next(), next());
        let k = encode(x, y, z);
        for (dx, dy, dz) in
            [(1, 0, 0), (-1, 0, 0), (0, 1, 0), (0, -1, 0), (0, 0, 1), (0, 0, -1)]
        {
            let n = encode(x.wrapping_add(dx), y.wrapping_add(dy), z.wrapping_add(dz));
            neighbor_total += hamming_low6(k, n) as u64;
            neighbor_count += 1;
        }
        let r = encode(next(), next(), next());
        random_total += hamming_low6(k, r) as u64;
        random_count += 1;
    }
    // Compare the averages without floating point.
    assert!(neighbor_total * random_count < random_total * neighbor_count);
}
