use svo::morton;

#[test]
fn encode_unit_axes() {
    assert_eq!(morton::encode(0, 0, 0).0, 0);
    assert_eq!(morton::encode(1, 0, 0).0, 1);
    assert_eq!(morton::encode(0, 1, 0).0, 2);
    assert_eq!(morton::encode(0, 0, 1).0, 4);
    assert_eq!(morton::encode(1, 1, 1).0, 7);
}

#[test]
fn encode_interleaves_higher_bits() {
    assert_eq!(morton::encode(2, 0, 0).0, 8);
    assert_eq!(morton::encode(0, 2, 0).0, 16);
    assert_eq!(morton::encode(0, 0, 2).0, 32);
    // x = 0b11, y = 0b101, z = 0b1001: 9 + 130 + 2052.
    assert_eq!(morton::encode(3, 5, 9).0, 2191);
}

#[test]
fn siblings_occupy_consecutive_codes() {
    // The eight corners of the unit cell map onto the codes 0..8.
    let mut seen = [false; 8];
    for x in 0..2u16 {
        for y in 0..2u16 {
            for z in 0..2u16 {
                let c = morton::encode(x, y, z).0;
                assert!(c < 8);
                seen[c as usize] = true;
            }
        }
    }
    assert!(seen.iter().all(|&s| s));
}

#[test]
fn encode_is_injective_on_a_grid() {
    let mut codes = Vec::new();
    for x in 0..8u16 {
        for y in 0..8u16 {
            for z in 0..8u16 {
                codes.push(morton::encode(x, y, z).0);
            }
        }
    }
    codes.sort_unstable();
    for pair in codes.windows(2) {
        assert!(pair[0] < pair[1]);
    }
}
