use my_bc::my_bc::{
    eval, format_base, format_base10, from_base, from_base10, from_usize, negate, zero, BASE_10, BASE_16,
    BASE_2, BASE_8,
};

#[test]
fn from_base10_reads_decimal() {
    assert_eq!(format_base10(&from_base10("0").unwrap()), "0");
    assert_eq!(format_base10(&from_base10("42").unwrap()), "42");
    assert_eq!(format_base10(&from_base10("007").unwrap()), "7");
    assert_eq!(format_base10(&from_base10("").unwrap()), "0");
}

#[test]
fn from_base_rejects_foreign_characters() {
    assert!(from_base10("12a").is_none());
    assert!(from_base10("-1").is_none());
    assert!(from_base("ff", BASE_16).is_none());
    assert!(from_base("2", BASE_2).is_none());
}

#[test]
fn from_base_reads_other_bases() {
    assert_eq!(format_base10(&from_base("FF", BASE_16).unwrap()), "255");
    assert_eq!(format_base10(&from_base("777", BASE_8).unwrap()), "511");
    assert_eq!(format_base10(&from_base("1111101000", BASE_2).unwrap()), "1000");
}

#[test]
fn from_base_counts_bytes_of_the_base() {
    // "αβ" is four bytes long; 'β' starts at byte 2.
    assert_eq!(format_base10(&from_base("β", "αβ").unwrap()), "2");
    assert_eq!(format_base10(&from_base("βα", "αβ").unwrap()), "8");
}

#[test]
fn format_base_writes_other_bases() {
    assert_eq!(format_base(&from_usize(255), BASE_16), "FF");
    assert_eq!(format_base(&from_usize(511), BASE_8), "777");
    assert_eq!(format_base(&from_usize(1000), BASE_2), "1111101000");
    assert_eq!(format_base(&zero(), BASE_2), "0");
    assert_eq!(format_base(&negate(&from_usize(10)), BASE_16), "-A");
}

#[test]
fn format_base10_writes_sign() {
    assert_eq!(format_base10(&negate(&from_usize(1234))), "-1234");
    assert_eq!(format_base10(&negate(&zero())), "0");
}

#[test]
fn format_then_read_round_trip() {
    for value in [0usize, 1, 7, 8, 9, 10, 63, 64, 255, 256, 4095, 99999, 123456789].iter() {
        for base in [BASE_2, BASE_8, BASE_10, BASE_16].iter() {
            let n = from_usize(*value);
            let text = format_base(&n, base);
            assert_eq!(format_base10(&from_base(&text, base).unwrap()), format_base10(&n));
        }
    }
}

#[test]
fn eval_reads_back_formatted_numbers() {
    for value in [0usize, 5, 10, 4096, 123456789].iter() {
        let n = from_usize(*value);
        assert_eq!(format_base10(&eval(&format_base10(&n)).unwrap()), format_base10(&n));
        let m = negate(&n);
        assert_eq!(format_base10(&eval(&format_base10(&m)).unwrap()), format_base10(&m));
    }
}

#[test]
fn format_base_one_digit_writes_zero() {
    assert_eq!(format_base(&zero(), "0"), "0");
    assert_eq!(format_base(&negate(&zero()), "x"), "x");
}

#[test]
fn sub_of_equal_magnitudes_is_zero() {
    let five = from_usize(5);
    assert_eq!(format_base10(&my_bc::my_bc::sub(&five, &from_usize(5))), "0");
    assert_eq!(format_base10(&my_bc::my_bc::sub(&from_usize(64), &from_usize(63))), "1");
    assert_eq!(format_base10(&my_bc::my_bc::sub(&from_usize(8), &my_bc::my_bc::one())), "7");
}

#[test]
fn read_then_format_round_trip() {
    for (text, base) in [("FF", BASE_16), ("1010", BASE_2), ("0", BASE_10), ("707", BASE_8)].iter() {
        assert_eq!(format_base(&from_base(text, base).unwrap(), base), *text);
    }
}
