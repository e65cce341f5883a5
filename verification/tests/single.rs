use datarunner_core::extract::row_number;
use datarunner_core::single::{divide_singles, to_single};

fn row(y: i64, h: i64) -> i64 {
    let height = (h as f32 * 0.7f32).max(6.0);
    (y as f32 / height).round() as i64
}

#[test]
fn whole_numbers_round_to_single_precision() {
    let mut n: u128 = 1;
    while n < 1 << 55 {
        for d in 0..40u128 {
            for m in [n + d, n + (n >> 24) + d, n + (n >> 25) + d] {
                assert_eq!(to_single(m), (m as u64 as f32) as u128, "{m}");
            }
        }
        n *= 2;
    }
    assert_eq!(to_single(0), 0);
    assert_eq!(to_single(16_777_217), 16_777_216);
    assert_eq!(to_single(16_777_219), 16_777_220);
}

#[test]
fn quotients_round_in_single_precision() {
    for p in [0u128, 1, 2, 3, 5, 41, 16_777_215, 33_554_430] {
        for q in [1u128, 2, 3, 6, 7, 100, 16_777_213] {
            let expected = (p as f32 / q as f32).round() as u128;
            assert_eq!(divide_singles(p, q), expected, "{p} / {q}");
        }
    }
    assert_eq!(divide_singles(5, 2), 3);
    assert_eq!(divide_singles(7, 3), 2);
}

#[test]
fn rows_are_counted_in_single_precision() {
    for h in [8i64, 9, 10, 11, 14, 20, 25, 33, 1000, 16_777_217, 0x7fff_ffff] {
        for y in -500..500i64 {
            assert_eq!(row_number(y, h), row(y, h), "{y} {h}");
            let far = y + 16_777_216;
            assert_eq!(row_number(far, h), row(far, h), "{far} {h}");
            let further = y * 8_000_000;
            assert_eq!(row_number(further, h), row(further, h), "{further} {h}");
        }
    }
    // Single precision cannot tell this centre from its even neighbour.
    assert_eq!(row_number(16_777_221, 8), row(16_777_221, 8));
}
