use tar_parser::{decimal_to_u32, octal_to_u32};

#[test]
fn octal_to_u32_test() {
    match octal_to_u32("756") {
        494 => {}
        o => panic!("octal_to_u32 failed, expected 494 but got {}", o),
    }
    match octal_to_u32("") {
        0 => {}
        o => panic!("octal_to_u32 failed, expected 0 but got {}", o),
    }
}

#[test]
fn decimal_to_u32_test() {
    match decimal_to_u32("756") {
        756 => {}
        d => panic!("decimal_to_u32 failed, expected 756 but got {}", d),
    }
    match decimal_to_u32("") {
        0 => {}
        d => panic!("decimal_to_u32 failed, expected 0 but got {}", d),
    }
}

#[test]
fn octal_digit_strings_give_their_value() {
    assert_eq!(octal_to_u32("7"), 7);
    assert_eq!(octal_to_u32("10"), 8);
    assert_eq!(octal_to_u32("0000644"), 420);
    assert_eq!(octal_to_u32("17777777777"), 0x7fff_ffff);
    assert_eq!(octal_to_u32("37777777777"), u32::MAX);
}

#[test]
fn decimal_digit_strings_give_their_value() {
    assert_eq!(decimal_to_u32("0"), 0);
    assert_eq!(decimal_to_u32("0042"), 42);
    assert_eq!(decimal_to_u32("4294967295"), u32::MAX);
}

#[test]
fn values_past_u32_wrap_around() {
    // 8^11 = 2^33 and 10^10 both leave these remainders modulo 2^32.
    assert_eq!(octal_to_u32("100000000000"), 0);
    assert_eq!(octal_to_u32("40000000001"), 1);
    assert_eq!(decimal_to_u32("4294967296"), 0);
    assert_eq!(decimal_to_u32("4294967300"), 4);
}

#[test]
fn characters_outside_the_base_are_not_rejected() {
    // '8' counts as 8 in base 8; ' ' counts as 32 - 48 = -16.
    assert_eq!(octal_to_u32("8"), 8);
    assert_eq!(octal_to_u32("18"), 16);
    assert_eq!(octal_to_u32(" "), u32::MAX - 15);
    assert_eq!(decimal_to_u32("1 "), 10u32.wrapping_sub(16));
}
