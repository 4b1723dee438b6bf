use swatch::binary64::{round_quotient, NUMERATOR_MAX, SIGNIFICAND_END};
use swatch::scaled::{HALF, ONE};

const TWO_POW_68: f64 = 295147905179352825856.0;

#[test]
fn the_constants_are_the_powers_of_two() {
    assert_eq!(ONE, 1u128 << 68);
    assert_eq!(HALF, 1u128 << 67);
    assert_eq!(SIGNIFICAND_END, 1u128 << 53);
    assert_eq!(NUMERATOR_MAX, 1u128 << 126);
}

#[test]
fn small_quotients_round_to_the_nearest_whole_number() {
    assert_eq!(round_quotient(0, 1), 0);
    assert_eq!(round_quotient(0, 255), 0);
    assert_eq!(round_quotient(7, 1), 7);
    assert_eq!(round_quotient(7, 3), 2);
    assert_eq!(round_quotient(8, 3), 3);
    assert_eq!(round_quotient(3, 4), 1);
}

#[test]
fn ties_go_to_the_even_neighbour() {
    assert_eq!(round_quotient(1, 2), 0);
    assert_eq!(round_quotient(3, 2), 2);
    assert_eq!(round_quotient(5, 2), 2);
    assert_eq!(round_quotient(7, 2), 4);
    // From 2^53 on, every other whole number is representable.
    assert_eq!(round_quotient((1 << 53) + 1, 1), 1 << 53);
    assert_eq!(round_quotient((1 << 53) + 2, 1), (1 << 53) + 2);
    assert_eq!(round_quotient((1 << 53) + 3, 1), (1 << 53) + 4);
    assert_eq!(round_quotient((1 << 54) + 2, 1), 1 << 54);
    assert_eq!(round_quotient((1 << 54) + 6, 1), (1 << 54) + 8);
}

#[test]
fn a_representable_value_rounds_to_itself() {
    assert_eq!(round_quotient(ONE, 1), ONE);
    assert_eq!(round_quotient(HALF, 1), HALF);
    assert_eq!(round_quotient(255 * ONE, 1), 255 * ONE);
    assert_eq!(round_quotient((1 << 53) - 1, 1), (1 << 53) - 1);
    assert_eq!(round_quotient(((1 << 53) - 1) << 15, 1), ((1 << 53) - 1) << 15);
    assert_eq!(round_quotient(NUMERATOR_MAX, 1), NUMERATOR_MAX);
    assert_eq!(round_quotient(NUMERATOR_MAX, NUMERATOR_MAX), 1);
}

#[test]
fn a_common_factor_changes_nothing() {
    assert_eq!(round_quotient(200 * ONE, 255), round_quotient(200 * ONE * 1024, 255 * 1024));
    assert_eq!(round_quotient(ONE, 3), round_quotient(ONE * 7, 21));
}

#[test]
fn one_third_and_the_parts_of_255() {
    assert_eq!(round_quotient(ONE, 3), 98382635059784269824);
    assert_eq!(round_quotient(ONE, 255), 1157442765409226752);
    assert_eq!(round_quotient(200 * ONE, 255), 0xc8c8c8c8c8c8c8000);
}

#[test]
fn the_parts_of_255_are_the_double_precision_quotients() {
    for c in 0..=255u32 {
        let in_doubles = (c as f64 / 255.0) * TWO_POW_68;
        assert_eq!(round_quotient(c as u128 * ONE, 255) as f64, in_doubles);
        assert_eq!(round_quotient(c as u128 * ONE, 255), in_doubles as u128);
    }
}

#[test]
fn quotients_of_whole_numbers_are_the_double_precision_quotients() {
    for n in 1..200u32 {
        for d in 1..60u32 {
            let in_doubles = (n as f64 / d as f64) * TWO_POW_68;
            assert_eq!(round_quotient(n as u128 * ONE, d as u128), in_doubles as u128);
        }
    }
}

#[test]
fn products_are_the_double_precision_products() {
    let scale = (1u128 << 38) as f64;
    for i in 0..300u64 {
        for j in 0..40u64 {
            let a = (1u64 << 52) + i * 0x3_1415_9265 + 1;
            let b = (1u64 << 53) - j * 0x2_7182_8182 - 1;
            // a and b have 53 bits, so their product is at least 2^104 and
            // its quotient by 2^38 lies where the model is exact.
            let exact = a as u128 * b as u128;
            let in_doubles = (a as f64) * (b as f64) / scale;
            assert_eq!(round_quotient(exact, 1 << 38) as f64, in_doubles);
        }
    }
}
