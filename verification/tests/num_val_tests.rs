use dkalc::digits::FRAC_LEN;
use dkalc::digits::INT_LEN;
use dkalc::num_val::Error;
use dkalc::num_val::NumVal;

#[test]
fn num_val_test_add() {
    assert_eq!("3", NumVal::add(NumVal::from_i32(1), NumVal::from_i32(2)).unwrap().to_string());
    assert_eq!("-3", NumVal::add(NumVal::from_i32(-1), NumVal::from_i32(-2)).unwrap().to_string());
    assert_eq!("1", NumVal::add(NumVal::from_i32(-1), NumVal::from_i32(2)).unwrap().to_string());
    assert_eq!("-1", NumVal::add(NumVal::from_i32(1), NumVal::from_i32(-2)).unwrap().to_string());

    let mut less_than_zero = NumVal::zero();
    less_than_zero.digits[FRAC_LEN - 1] = 1;
    assert_eq!("0.1", less_than_zero.to_string());
}

#[test]
fn num_val_test_add_overflow() {
    let mut arg = String::new();
    for _ in 0..INT_LEN {
        arg.push('9');
    }
    let res = NumVal::add(NumVal::parse_str(&arg).unwrap(), NumVal::parse_str(&arg).unwrap());
    assert!(res.is_err());
    let expected_err = match res.unwrap_err() {
        Error::OpOverflow => true,
        _ => false,
    };
    assert!(expected_err);
}

#[test]
fn num_val_test_sub() {
    assert_eq!("1", NumVal::sub(NumVal::from_i32(2), NumVal::from_i32(1)).unwrap().to_string());
    assert_eq!("-1", NumVal::sub(NumVal::from_i32(-2), NumVal::from_i32(-1)).unwrap().to_string());
    assert_eq!("-3", NumVal::sub(NumVal::from_i32(-2), NumVal::from_i32(1)).unwrap().to_string());
    assert_eq!("3", NumVal::sub(NumVal::from_i32(2), NumVal::from_i32(-1)).unwrap().to_string());

    assert_eq!("-1", NumVal::sub(NumVal::from_i32(1), NumVal::from_i32(2)).unwrap().to_string());
    assert_eq!("1", NumVal::sub(NumVal::from_i32(-1), NumVal::from_i32(-2)).unwrap().to_string());
    assert_eq!("-3", NumVal::sub(NumVal::from_i32(-1), NumVal::from_i32(2)).unwrap().to_string());
    assert_eq!("3", NumVal::sub(NumVal::from_i32(1), NumVal::from_i32(-2)).unwrap().to_string());
}

#[test]
fn num_val_test_mul() {
    assert_eq!("15", NumVal::mul(NumVal::from_i32(3), NumVal::from_i32(5)).unwrap().to_string());
    assert_eq!("150", NumVal::mul(NumVal::from_i32(30), NumVal::from_i32(5)).unwrap().to_string());
    assert_eq!(
        "1500",
        NumVal::mul(NumVal::from_i32(30), NumVal::from_i32(50)).unwrap().to_string()
    );
    assert_eq!(
        "9801",
        NumVal::mul(NumVal::from_i32(99), NumVal::from_i32(99)).unwrap().to_string()
    );

    assert_eq!("28", NumVal::mul(NumVal::from_i32(4), NumVal::from_i32(7)).unwrap().to_string());
    assert_eq!("-28", NumVal::mul(NumVal::from_i32(-4), NumVal::from_i32(7)).unwrap().to_string());
    assert_eq!("-28", NumVal::mul(NumVal::from_i32(4), NumVal::from_i32(-7)).unwrap().to_string());
    assert_eq!("28", NumVal::mul(NumVal::from_i32(-4), NumVal::from_i32(-7)).unwrap().to_string());
}

#[test]
fn num_val_test_mul_overflow() {
    let mut arg = String::new();
    for _ in 0..INT_LEN {
        arg.push('9');
    }
    let res = NumVal::mul(NumVal::parse_str(&arg).unwrap(), NumVal::parse_str(&arg).unwrap());
    assert!(res.is_err());
    let expected_err = match res.unwrap_err() {
        Error::OpOverflow => true,
        _ => false,
    };
    assert!(expected_err);
}

#[test]
fn num_val_test_div() {
    assert_eq!(
        "15.625",
        NumVal::div(NumVal::from_i32(1000), NumVal::from_i32(64)).unwrap().to_string()
    );
    assert_eq!(
        "-15.625",
        NumVal::div(NumVal::from_i32(-1000), NumVal::from_i32(64)).unwrap().to_string()
    );
    assert_eq!(
        "-15.625",
        NumVal::div(NumVal::from_i32(1000), NumVal::from_i32(-64)).unwrap().to_string()
    );
    assert_eq!(
        "15.625",
        NumVal::div(NumVal::from_i32(-1000), NumVal::from_i32(-64)).unwrap().to_string()
    );
}

#[test]
fn num_val_test_div_mod() {
    assert_eq!(
        "4",
        NumVal::div_mod(NumVal::from_i32(100), NumVal::from_i32(48)).unwrap().to_string()
    );
    assert_eq!(
        "4",
        NumVal::div_mod(NumVal::from_i32(-100), NumVal::from_i32(48)).unwrap().to_string()
    );
    assert_eq!(
        "-4",
        NumVal::div_mod(NumVal::from_i32(100), NumVal::from_i32(-48)).unwrap().to_string()
    );
    assert_eq!(
        "-4",
        NumVal::div_mod(NumVal::from_i32(-100), NumVal::from_i32(-48)).unwrap().to_string()
    );
}

#[test]
fn test_parse() {
    let nv = NumVal::parse_str("1.02");
    assert!(nv.is_ok());
    assert_eq!("1.02", nv.unwrap().to_string());
}
