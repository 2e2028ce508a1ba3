use my_bc::my_bc::{
    add, compare, div, div_modulo, format_base10, from_base10, from_usize, is_zero, modulo, mul, negate,
    one, sub, zero, Number,
};

fn num(s: &str) -> Number {
    if let Some(rest) = s.strip_prefix('-') {
        negate(&from_base10(rest).unwrap())
    } else {
        from_base10(s).unwrap()
    }
}

fn show(n: &Number) -> String {
    format_base10(n)
}

#[test]
fn zero_and_one() {
    assert_eq!(show(&zero()), "0");
    assert_eq!(show(&one()), "1");
    assert!(is_zero(&zero()));
    assert!(!is_zero(&one()));
}

#[test]
fn from_usize_writes_the_number() {
    assert_eq!(show(&from_usize(0)), "0");
    assert_eq!(show(&from_usize(7)), "7");
    assert_eq!(show(&from_usize(8)), "8");
    assert_eq!(show(&from_usize(4096)), "4096");
    assert_eq!(show(&from_usize(18446744073709551615)), "18446744073709551615");
}

#[test]
fn negate_flips_sign() {
    assert_eq!(show(&negate(&num("12"))), "-12");
    assert_eq!(show(&negate(&num("-12"))), "12");
    assert_eq!(show(&negate(&negate(&num("345")))), "345");
}

#[test]
fn negative_zero_is_written_as_zero() {
    let negative_zero = negate(&zero());
    assert_eq!(show(&negative_zero), "0");
    assert!(is_zero(&negative_zero));
}

#[test]
fn compare_orders_by_value() {
    assert_eq!(compare(&num("5"), &num("3")), 1);
    assert_eq!(compare(&num("3"), &num("5")), -1);
    assert_eq!(compare(&num("5"), &num("5")), 0);
    assert_eq!(compare(&num("-5"), &num("3")), -1);
    assert_eq!(compare(&num("3"), &num("-5")), 1);
    assert_eq!(compare(&num("-5"), &num("-3")), -1);
    assert_eq!(compare(&num("-3"), &num("-5")), 1);
    assert_eq!(compare(&num("100"), &num("99")), 1);
    assert_eq!(compare(&num("-100"), &num("-99")), -1);
    assert_eq!(compare(&num("123456789"), &num("123456788")), 1);
}

#[test]
fn compare_puts_negative_zero_first() {
    let negative_zero = negate(&zero());
    assert_eq!(compare(&negative_zero, &zero()), -1);
    assert_eq!(compare(&zero(), &negative_zero), 1);
    assert_eq!(compare(&negative_zero, &negative_zero), 0);
}

#[test]
fn compare_is_antisymmetric() {
    let values = ["0", "1", "-1", "8", "-64", "65", "1000000"];
    for a in values.iter() {
        for b in values.iter() {
            assert_eq!(compare(&num(a), &num(b)), -compare(&num(b), &num(a)));
        }
    }
}

#[test]
fn add_small() {
    assert_eq!(show(&add(&num("2"), &num("3"))), "5");
    assert_eq!(show(&add(&num("7"), &num("1"))), "8");
    assert_eq!(show(&add(&num("63"), &num("1"))), "64");
    assert_eq!(show(&add(&num("-2"), &num("3"))), "1");
    assert_eq!(show(&add(&num("2"), &num("-3"))), "-1");
    assert_eq!(show(&add(&num("-2"), &num("-3"))), "-5");
    assert_eq!(show(&add(&num("-3"), &num("3"))), "0");
}

#[test]
fn add_large() {
    assert_eq!(
        show(&add(&num("123456789012345678901234567890"), &num("987654321098765432109876543210"))),
        "1111111110111111111011111111100"
    );
}

#[test]
fn add_commutes() {
    let values = ["0", "-9", "17", "-4096", "123456789"];
    for a in values.iter() {
        for b in values.iter() {
            assert_eq!(show(&add(&num(a), &num(b))), show(&add(&num(b), &num(a))));
        }
    }
}

#[test]
fn sub_small() {
    assert_eq!(show(&sub(&num("5"), &num("3"))), "2");
    assert_eq!(show(&sub(&num("3"), &num("5"))), "-2");
    assert_eq!(show(&sub(&num("5"), &num("5"))), "0");
    assert_eq!(show(&sub(&num("-5"), &num("3"))), "-8");
    assert_eq!(show(&sub(&num("5"), &num("-3"))), "8");
    assert_eq!(show(&sub(&num("-5"), &num("-3"))), "-2");
    assert_eq!(show(&sub(&num("64"), &num("1"))), "63");
    assert_eq!(show(&sub(&num("4096"), &num("4095"))), "1");
}

#[test]
fn sub_large() {
    assert_eq!(
        show(&sub(&num("987654321098765432109876543210"), &num("123456789012345678901234567890"))),
        "864197532086419753208641975320"
    );
}

#[test]
fn sub_is_add_of_negation() {
    let values = ["0", "-9", "17", "-4096", "123456789"];
    for a in values.iter() {
        for b in values.iter() {
            assert_eq!(show(&sub(&num(a), &num(b))), show(&add(&num(a), &negate(&num(b)))));
        }
    }
}

#[test]
fn sub_self_is_zero() {
    let negative_zero = negate(&zero());
    let difference = sub(&negative_zero, &negative_zero);
    assert_eq!(compare(&difference, &zero()), 0);
    assert_eq!(compare(&sub(&num("-77"), &num("-77")), &zero()), 0);
}

#[test]
fn mul_small() {
    assert_eq!(show(&mul(&num("6"), &num("7"))), "42");
    assert_eq!(show(&mul(&num("-6"), &num("7"))), "-42");
    assert_eq!(show(&mul(&num("6"), &num("-7"))), "-42");
    assert_eq!(show(&mul(&num("-6"), &num("-7"))), "42");
    assert_eq!(show(&mul(&num("0"), &num("-7"))), "0");
    assert_eq!(compare(&mul(&num("-6"), &num("0")), &zero()), 0);
    assert_eq!(show(&mul(&num("8"), &num("8"))), "64");
}

#[test]
fn mul_large() {
    assert_eq!(
        show(&mul(&num("123456789012345678901234567890"), &num("987654321098765432109876543210"))),
        "121932631137021795226185032733622923332237463801111263526900"
    );
}

#[test]
fn mul_distributes_over_add() {
    let (a, b, c) = (num("-12"), num("345"), num("-6789"));
    assert_eq!(show(&mul(&a, &add(&b, &c))), show(&add(&mul(&a, &b), &mul(&a, &c))));
}

#[test]
fn div_truncates_toward_zero() {
    assert_eq!(show(&div(&num("7"), &num("2")).unwrap()), "3");
    assert_eq!(show(&div(&num("-7"), &num("2")).unwrap()), "-3");
    assert_eq!(show(&div(&num("7"), &num("-2")).unwrap()), "-3");
    assert_eq!(show(&div(&num("-7"), &num("-2")).unwrap()), "3");
    assert_eq!(show(&div(&num("1"), &num("2")).unwrap()), "0");
    assert_eq!(show(&div(&num("0"), &num("5")).unwrap()), "0");
    assert_eq!(show(&div(&num("4096"), &num("8")).unwrap()), "512");
}

#[test]
fn modulo_takes_the_dividend_sign() {
    assert_eq!(show(&modulo(&num("7"), &num("2")).unwrap()), "1");
    assert_eq!(show(&modulo(&num("-7"), &num("2")).unwrap()), "-1");
    assert_eq!(show(&modulo(&num("7"), &num("-2")).unwrap()), "1");
    assert_eq!(show(&modulo(&num("-7"), &num("-2")).unwrap()), "-1");
    assert_eq!(show(&modulo(&num("6"), &num("3")).unwrap()), "0");
}

#[test]
fn div_modulo_large() {
    let a = num("987654321098765432109876543210");
    let b = num("123456789012345678901234567890");
    let (q, r) = div_modulo(&a, &b).unwrap();
    assert_eq!(show(&q), "8");
    assert_eq!(show(&r), "9000000000900000000090");
    let (q, r) = div_modulo(&negate(&a), &b).unwrap();
    assert_eq!(show(&q), "-8");
    assert_eq!(show(&r), "-9000000000900000000090");
    let (q, r) = div_modulo(&a, &negate(&b)).unwrap();
    assert_eq!(show(&q), "-8");
    assert_eq!(show(&r), "9000000000900000000090");
    let (q, r) = div_modulo(&negate(&a), &negate(&b)).unwrap();
    assert_eq!(show(&q), "8");
    assert_eq!(show(&r), "-9000000000900000000090");
}

#[test]
fn quotient_times_divisor_plus_remainder() {
    let values = ["1", "-1", "7", "-7", "64", "-65", "123456", "-999999"];
    for a in values.iter() {
        for b in values.iter() {
            let (q, r) = div_modulo(&num(a), &num(b)).unwrap();
            assert_eq!(show(&add(&mul(&q, &num(b)), &r)), show(&num(a)));
        }
    }
}

#[test]
fn division_by_zero_is_an_error() {
    assert_eq!(div_modulo(&num("5"), &zero()).err().unwrap(), "division by zero");
    assert_eq!(div(&num("5"), &zero()).err().unwrap(), "division by zero");
    assert_eq!(modulo(&num("5"), &zero()).err().unwrap(), "division by zero");
    assert_eq!(div(&num("5"), &negate(&zero())).err().unwrap(), "division by zero");
}

#[test]
fn zero_dividend_gives_zeros() {
    let (q, r) = div_modulo(&negate(&zero()), &num("-3")).unwrap();
    assert_eq!(compare(&q, &zero()), 0);
    assert_eq!(compare(&r, &zero()), 0);
}

#[test]
fn add_associates() {
    let values = ["0", "-9", "17", "-4096", "123456789"];
    for a in values.iter() {
        for b in values.iter() {
            for c in values.iter() {
                let left = add(&add(&num(a), &num(b)), &num(c));
                let right = add(&num(a), &add(&num(b), &num(c)));
                assert_eq!(show(&left), show(&right));
                assert_eq!(compare(&left, &right), 0);
            }
        }
    }
}

#[test]
fn add_zero_keeps_the_number() {
    assert_eq!(show(&add(&num("-15"), &zero())), "-15");
    assert_eq!(show(&add(&num("15"), &zero())), "15");
    assert_eq!(compare(&add(&negate(&zero()), &zero()), &zero()), 0);
}

#[test]
fn mul_commutes_and_associates() {
    let values = ["0", "-3", "8", "-77", "4096"];
    for a in values.iter() {
        for b in values.iter() {
            assert_eq!(compare(&mul(&num(a), &num(b)), &mul(&num(b), &num(a))), 0);
            for c in values.iter() {
                let left = mul(&mul(&num(a), &num(b)), &num(c));
                let right = mul(&num(a), &mul(&num(b), &num(c)));
                assert_eq!(compare(&left, &right), 0);
            }
        }
    }
}

#[test]
fn compare_is_transitive() {
    let values = ["-100", "-7", "0", "3", "64", "65"];
    for a in values.iter() {
        for b in values.iter() {
            for c in values.iter() {
                if compare(&num(a), &num(b)) <= 0 && compare(&num(b), &num(c)) <= 0 {
                    assert!(compare(&num(a), &num(c)) <= 0);
                }
            }
        }
    }
}
