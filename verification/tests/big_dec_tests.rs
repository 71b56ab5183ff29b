use dkalc::big_dec::BigDec;
use dkalc::big_dec::Error;
use dkalc::digits::FRAC_LEN;
use dkalc::digits::INT_LEN;

#[test]
fn big_dec_test_add() {
    assert_eq!("3", BigDec::add(BigDec::from_i32(1), BigDec::from_i32(2)).unwrap().to_string());
    assert_eq!("-3", BigDec::add(BigDec::from_i32(-1), BigDec::from_i32(-2)).unwrap().to_string());
    assert_eq!("1", BigDec::add(BigDec::from_i32(-1), BigDec::from_i32(2)).unwrap().to_string());
    assert_eq!("-1", BigDec::add(BigDec::from_i32(1), BigDec::from_i32(-2)).unwrap().to_string());

    let mut less_than_zero = BigDec::zero();
    less_than_zero.digits[FRAC_LEN - 1] = 1;
    assert_eq!("0.1", less_than_zero.to_string());
}

#[test]
fn big_dec_test_add_overflow() {
    let mut arg = String::new();
    for _ in 0..INT_LEN {
        arg.push('9');
    }
    let res = BigDec::add(BigDec::parse_str(&arg).unwrap(), BigDec::parse_str(&arg).unwrap());
    assert!(res.is_err());
    let expected_err = match res.unwrap_err() {
        Error::OpOverflow => true,
        _ => false,
    };
    assert!(expected_err);
}

#[test]
fn big_dec_test_sub() {
    assert_eq!("1", BigDec::sub(BigDec::from_i32(2), BigDec::from_i32(1)).unwrap().to_string());
    assert_eq!("-1", BigDec::sub(BigDec::from_i32(-2), BigDec::from_i32(-1)).unwrap().to_string());
    assert_eq!("-3", BigDec::sub(BigDec::from_i32(-2), BigDec::from_i32(1)).unwrap().to_string());
    assert_eq!("3", BigDec::sub(BigDec::from_i32(2), BigDec::from_i32(-1)).unwrap().to_string());

    assert_eq!("-1", BigDec::sub(BigDec::from_i32(1), BigDec::from_i32(2)).unwrap().to_string());
    assert_eq!("1", BigDec::sub(BigDec::from_i32(-1), BigDec::from_i32(-2)).unwrap().to_string());
    assert_eq!("-3", BigDec::sub(BigDec::from_i32(-1), BigDec::from_i32(2)).unwrap().to_string());
    assert_eq!("3", BigDec::sub(BigDec::from_i32(1), BigDec::from_i32(-2)).unwrap().to_string());
}

#[test]
fn big_dec_test_mul() {
    assert_eq!("15", BigDec::mul(BigDec::from_i32(3), BigDec::from_i32(5)).unwrap().to_string());
    assert_eq!("150", BigDec::mul(BigDec::from_i32(30), BigDec::from_i32(5)).unwrap().to_string());
    assert_eq!(
        "1500",
        BigDec::mul(BigDec::from_i32(30), BigDec::from_i32(50)).unwrap().to_string()
    );
    assert_eq!(
        "9801",
        BigDec::mul(BigDec::from_i32(99), BigDec::from_i32(99)).unwrap().to_string()
    );

    assert_eq!("28", BigDec::mul(BigDec::from_i32(4), BigDec::from_i32(7)).unwrap().to_string());
    assert_eq!("-28", BigDec::mul(BigDec::from_i32(-4), BigDec::from_i32(7)).unwrap().to_string());
    assert_eq!("-28", BigDec::mul(BigDec::from_i32(4), BigDec::from_i32(-7)).unwrap().to_string());
    assert_eq!("28", BigDec::mul(BigDec::from_i32(-4), BigDec::from_i32(-7)).unwrap().to_string());
}

#[test]
fn big_dec_test_mul_overflow() {
    let mut arg = String::new();
    for _ in 0..INT_LEN {
        arg.push('9');
    }
    let res = BigDec::mul(BigDec::parse_str(&arg).unwrap(), BigDec::parse_str(&arg).unwrap());
    assert!(res.is_err());
    let expected_err = match res.unwrap_err() {
        Error::OpOverflow => true,
        _ => false,
    };
    assert!(expected_err);
}

#[test]
fn test_div_u_no_frac() {
    assert_eq!("1~0", BigDec::div_u(BigDec::from_i32(16), BigDec::from_i32(16), false).to_string());
}

#[test]
fn big_dec_test_div() {
    assert_eq!(
        "15.625",
        BigDec::div(BigDec::from_i32(1000), BigDec::from_i32(64)).unwrap().to_string()
    );
    assert_eq!(
        "-15.625",
        BigDec::div(BigDec::from_i32(-1000), BigDec::from_i32(64)).unwrap().to_string()
    );
    assert_eq!(
        "-15.625",
        BigDec::div(BigDec::from_i32(1000), BigDec::from_i32(-64)).unwrap().to_string()
    );
    assert_eq!(
        "15.625",
        BigDec::div(BigDec::from_i32(-1000), BigDec::from_i32(-64)).unwrap().to_string()
    );

    let mut one_point_six = BigDec::from_i32(16);
    one_point_six.shift_left();
    assert_eq!("1.25", BigDec::div(BigDec::from_i32(2), one_point_six).unwrap().to_string());
}

#[test]
fn big_dec_test_div_mod() {
    assert_eq!(
        "4",
        BigDec::div_mod(BigDec::from_i32(100), BigDec::from_i32(48)).unwrap().to_string()
    );
    assert_eq!(
        "4",
        BigDec::div_mod(BigDec::from_i32(-100), BigDec::from_i32(48)).unwrap().to_string()
    );
    assert_eq!(
        "-4",
        BigDec::div_mod(BigDec::from_i32(100), BigDec::from_i32(-48)).unwrap().to_string()
    );
    assert_eq!(
        "-4",
        BigDec::div_mod(BigDec::from_i32(-100), BigDec::from_i32(-48)).unwrap().to_string()
    );
}

#[test]
fn test_fact() {
    assert_eq!("120", BigDec::fact(BigDec::from_i32(5)).unwrap().to_string());
    assert_eq!("-120", BigDec::fact(BigDec::from_i32(-5)).unwrap().to_string());
}

#[test]
fn test_parse_very_big() {
    let nv = BigDec::parse_str("1.02");
    assert!(nv.is_ok());
    assert_eq!("1.02", nv.unwrap().to_string());

    let mut too_long = String::with_capacity(INT_LEN + 1);
    for _ in 0..INT_LEN - 1 {
        too_long.push_str("1");
    }
    too_long.push_str("2");
    let nv = BigDec::parse_str(&too_long);
    assert!(nv.is_ok());

    too_long.push_str("3");
    let nv2 = BigDec::parse_str(&too_long);
    let is_int_part_overflow_err = match nv2 {
        Err(err) => match err {
            Error::ParseIntPartOverflow => true,
            _ => false,
        },
        Ok(_) => false,
    };
    assert!(is_int_part_overflow_err);
}

#[test]
fn test_parse_underscore() {
    let nv = BigDec::parse_str("1_000");
    assert!(nv.is_ok());
    assert_eq!("1000", nv.unwrap().to_string());

    let nv2 = BigDec::parse_str("1_234_567");
    assert!(nv2.is_ok());
    assert_eq!("1234567", nv2.unwrap().to_string());
}

#[test]
fn test_parse_hex() {
    let nv = BigDec::parse_str("0xffff");
    assert!(nv.is_ok());
    assert_eq!("65535", nv.unwrap().to_string());
}

#[test]
fn test_parse_bin() {
    let mut nv = BigDec::parse_str("0b0001");
    assert!(nv.is_ok());
    assert_eq!("1", nv.unwrap().to_string());

    nv = BigDec::parse_str("0b1001");
    assert!(nv.is_ok());
    assert_eq!("9", nv.unwrap().to_string());

    nv = BigDec::parse_str("0b11110000");
    assert!(nv.is_ok());
    assert_eq!("240", nv.unwrap().to_string());
}
