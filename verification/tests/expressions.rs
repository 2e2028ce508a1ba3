use my_bc::my_bc::{
    checked_eval, checked_eval_base, checked_eval_postfix, eval, eval_base, eval_postfix, format_base, format_base10,
    infix_to_postfix, parse_infix, BASE_10, BASE_16,
};

fn value(expression: &str) -> String {
    format_base10(&eval(expression).unwrap())
}

fn error(expression: &str) -> String {
    eval(expression).err().unwrap()
}

#[test]
fn eval_single_numbers() {
    assert_eq!(value("0"), "0");
    assert_eq!(value("42"), "42");
    assert_eq!(value("-42"), "-42");
    assert_eq!(value("+42"), "42");
    assert_eq!(value("--42"), "42");
    assert_eq!(value("(42)"), "42");
}

#[test]
fn eval_precedence() {
    assert_eq!(value("1+2*3"), "7");
    assert_eq!(value("(1+2)*3"), "9");
    assert_eq!(value("10-4-3"), "3");
    assert_eq!(value("100/10/5"), "2");
    assert_eq!(value("2*3%4"), "2");
    assert_eq!(value("7-2*3+1"), "2");
    assert_eq!(value("((2))*((3+4))"), "14");
}

#[test]
fn eval_unary_minus_binds_tightest() {
    assert_eq!(value("-2*3"), "-6");
    assert_eq!(value("2*-3"), "-6");
    assert_eq!(value("-2+3"), "1");
    assert_eq!(value("2--3"), "5");
    assert_eq!(value("-(2+3)"), "-5");
    assert_eq!(value("-7/2"), "-3");
    assert_eq!(value("-7%2"), "-1");
    assert_eq!(value("7%-2"), "1");
}

#[test]
fn eval_large_numbers() {
    assert_eq!(
        value("123456789012345678901234567890*987654321098765432109876543210"),
        "121932631137021795226185032733622923332237463801111263526900"
    );
    assert_eq!(
        value("987654321098765432109876543210%123456789012345678901234567890"),
        "9000000000900000000090"
    );
}

#[test]
fn eval_division_by_zero() {
    assert_eq!(error("1/0"), "division by zero");
    assert_eq!(error("5%(3-3)"), "division by zero");
    assert_eq!(error("1/0+"), "division by zero");
}

#[test]
fn eval_invalid_character() {
    assert_eq!(error("1 + 2"), "1: invalid character ' '");
    assert_eq!(error("1a"), "1: invalid character 'a'");
    assert_eq!(error("*1"), "0: invalid character '*'");
    assert_eq!(error("1+1+1+1+1+1x"), "11: invalid character 'x'");
}

#[test]
fn eval_mismatched_parenthesis() {
    assert_eq!(error("(1"), "2: mismatched parenthesis");
    assert_eq!(error(")"), "0: mismatched parenthesis");
    assert_eq!(error("1)"), "1: mismatched parenthesis");
    assert_eq!(error("((1)"), "4: mismatched parenthesis");
}

#[test]
fn eval_adjacent_groups_keep_the_last() {
    assert_eq!(value("(1)(2)"), "2");
}

#[test]
fn checked_eval_reports_malformed_expressions() {
    assert!(checked_eval("").is_none());
    assert!(checked_eval("1+").is_none());
    assert!(checked_eval("-").is_none());
    assert!(checked_eval("()").is_none());
    assert_eq!(format_base10(&checked_eval("6*7").unwrap().unwrap()), "42");
    assert_eq!(checked_eval("4/0").unwrap().err().unwrap(), "division by zero");
    assert_eq!(checked_eval("4?").unwrap().err().unwrap(), "1: invalid character '?'");
}

#[test]
fn eval_base_reads_other_bases() {
    assert_eq!(format_base(&eval_base("FF+1", BASE_16).unwrap(), BASE_16), "100");
    assert_eq!(format_base10(&eval_base("10*10", BASE_16).unwrap()), "256");
    assert_eq!(format_base10(&eval_base("12", BASE_10).unwrap()), "12");
}

#[test]
fn pipeline_by_steps() {
    let infix = parse_infix("2*(3+4)", BASE_10).unwrap();
    let postfix = infix_to_postfix(&infix);
    assert_eq!(format_base10(&eval_postfix(&postfix).unwrap()), "14");
    assert_eq!(format_base10(&checked_eval_postfix(&postfix).unwrap().unwrap()), "14");
}

#[test]
fn parse_infix_errors() {
    assert_eq!(parse_infix("(", BASE_10).err().unwrap(), "1: mismatched parenthesis");
    assert_eq!(parse_infix("1 ", BASE_10).err().unwrap(), "1: invalid character ' '");
    assert!(parse_infix("1+", BASE_10).is_ok());
}

#[test]
fn malformed_postfix_is_detected() {
    let infix = parse_infix("1+", BASE_10).unwrap();
    let postfix = infix_to_postfix(&infix);
    assert!(checked_eval_postfix(&postfix).is_none());
}

#[test]
fn eval_groups_to_the_left() {
    assert_eq!(value("8-3-2"), "3");
    assert_eq!(value("2*3+4*5"), "26");
    assert_eq!(value("-(-(3))"), "3");
    assert_eq!(value("7-(2-(1-4))"), "2");
    assert_eq!(value("64/4/2*3"), "24");
    assert_eq!(value("100%7%3"), "2");
}

#[test]
fn eval_base_with_non_ascii_text_and_base() {
    // The numeral "é0" takes three bytes, so reading goes on at position 3.
    let result = eval_base("é0+1", "é0");
    assert_eq!(result.err().unwrap(), "3: invalid character '1'");
}

#[test]
fn parse_goes_on_at_the_byte_offset_after_a_numeral() {
    let result = parse_infix("α+β", "αβ");
    assert_eq!(result.err().unwrap(), "2: invalid character 'β'");
    // "éé" takes four bytes: reading goes on past the end of the text.
    let result = eval_base("éé+1", "0é").unwrap();
    assert_eq!(format_base10(&result), "4");
}

#[test]
fn numeral_inside_a_character_is_refused() {
    // Position 3 picks 'é', but byte 3 falls inside 'ü'.
    assert!(checked_eval_base("éü(é", "é").is_none());
}

#[test]
fn eval_redundant_groups_signs_and_zeros() {
    assert_eq!(value("007+(((1)))*+-2"), "5");
    assert_eq!(value("+-+-3"), "3");
    assert_eq!(value("((2*3))+(4)"), "10");
    assert_eq!(value("0*(1+00)"), "0");
    assert_eq!(error("0*(1/0)"), "division by zero");
}

#[test]
fn postfix_of_parsed_text_keeps_operands() {
    let infix = parse_infix("(1+2)*(3-4)", BASE_10).unwrap();
    let postfix = infix_to_postfix(&infix);
    assert_eq!(format_base10(&eval_postfix(&postfix).unwrap()), "-3");
}

#[test]
fn eval_in_a_base_of_one_digit() {
    assert_eq!(format_base10(&eval_base("z+zz*(z)", "z").unwrap()), "0");
    assert_eq!(eval_base("zz/z", "z").err().unwrap(), "division by zero");
}

#[test]
fn reading_reports_the_first_fault() {
    assert_eq!(parse_infix("1+*2", BASE_10).err().unwrap(), "2: invalid character '*'");
    assert_eq!(parse_infix("*1", BASE_10).err().unwrap(), "0: invalid character '*'");
    assert_eq!(parse_infix("(1)2", BASE_10).err().unwrap(), "3: invalid character '2'");
    assert_eq!(parse_infix("1 +2", BASE_10).err().unwrap(), "1: invalid character ' '");
    assert_eq!(parse_infix("1)", BASE_10).err().unwrap(), "1: mismatched parenthesis");
    assert_eq!(parse_infix("1+)", BASE_10).err().unwrap(), "2: mismatched parenthesis");
    assert_eq!(parse_infix("(1+2", BASE_10).err().unwrap(), "4: mismatched parenthesis");
    // Reading does not check that operators have their operands.
    assert!(parse_infix("2(3)", BASE_10).is_ok());
}
