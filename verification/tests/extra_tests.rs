use dkalc::big_dec::BigDec;
use dkalc::eval::eval_input;
use dkalc::eval::eval_input_detailed;
use dkalc::eval::render_tree;
use dkalc::funcs::bd_cos;
use dkalc::num_val::NumVal;

#[test]
fn eval_scenarios() {
    assert_eq!("65535", eval_input("0xffff"));
    assert_eq!("1000", eval_input("1_000"));
    assert_eq!("240", eval_input("0b11110000"));
    assert_eq!("1", eval_input("0!"));
    assert_eq!("0", eval_input(""));
    assert_eq!("0", eval_input(" "));
    assert_eq!("9", eval_input("(1+2)*3"));
    assert_eq!("14", eval_input("2+3*4"));
    assert_eq!("2.5", eval_input("5/2"));
}

#[test]
fn eval_divide_by_zero() {
    assert_eq!("divide by zero", eval_input("5/0"));
    assert_eq!("divide by zero", eval_input("5%0"));
}

#[test]
fn eval_overflow() {
    assert_eq!("overflow", eval_input("99999999999999999999+99999999999999999999"));
    assert_eq!("overflow", eval_input("99999999999999999999*99999999999999999999"));
    assert_eq!("overflow", eval_input("25!"));
}

#[test]
fn eval_errors() {
    assert_eq!("bad char: '#'", eval_input("2 # 3"));
    assert_eq!("unknown func", eval_input("foo(1)"));
    assert_eq!("function name too long", eval_input("abcdefghijklmn(1)"));
    assert_eq!("missing function parenthesis", eval_input("ab+"));
    assert_eq!("missing ')'", eval_input("(1+2"));
    assert_eq!("unexpected )", eval_input(")"));
    assert_eq!("expected number instead of +", eval_input("-+"));
    assert_eq!("bad character", eval_input("1__2"));
    assert_eq!("too many digits", eval_input("123456789012345678901"));
    assert_eq!("too many decimals", eval_input("0.123456789012345678901"));
    assert_eq!("missing term", eval_input("1+"));
    assert_eq!("missing factor", eval_input("2*"));
}

#[test]
fn eval_functions() {
    assert_eq!("5", eval_input("sqrt(25)"));
    assert_eq!("0", eval_input("zero(5)"));
    assert_eq!("42", eval_input("same(42)"));
    assert_eq!("1", eval_input("cos(0)"));
    assert_eq!("3", eval_input("sqrt(3*3)"));
}

#[test]
fn cos_converges() {
    let r = bd_cos(BigDec::from_i32(0));
    assert!(r.is_ok());
    assert_eq!("1", r.unwrap().to_string());
}

#[test]
fn compare_antisymmetry_samples() {
    let vals = [-7, -1, 0, 1, 2, 100];
    for &x in vals.iter() {
        for &y in vals.iter() {
            let a = BigDec::from_i32(x);
            let b = BigDec::from_i32(y);
            assert_eq!(BigDec::compare(a, b), -BigDec::compare(b, a));
        }
    }
    assert_eq!(0, BigDec::compare(BigDec::from_i32(5), BigDec::from_i32(5)));
}

#[test]
fn add_negate_is_zero_samples() {
    let a = BigDec::from_i32(12345);
    assert!(BigDec::add(a, a.negate()).unwrap().is_zero());
    let b = BigDec::parse_str("3.25").unwrap();
    assert!(BigDec::add(b, b.negate()).unwrap().is_zero());
    let z = BigDec::zero();
    assert!(BigDec::add(z, z.negate()).unwrap().is_zero());
}

#[test]
fn parse_round_trip_samples() {
    let q = BigDec::div(BigDec::from_i32(1000), BigDec::from_i32(64)).unwrap();
    let back = BigDec::parse_str(&q.to_string()).unwrap();
    assert_eq!(0, BigDec::compare(q, back));

    let s = BigDec::add(BigDec::from_i32(70000), BigDec::from_i32(123)).unwrap();
    let back2 = BigDec::parse_str(&s.to_string()).unwrap();
    assert_eq!(0, BigDec::compare(s, back2));

    let z = BigDec::zero();
    let back3 = BigDec::parse_str(&z.to_string()).unwrap();
    assert_eq!(0, BigDec::compare(z, back3));
}

#[test]
fn factorial_of_zero_is_one() {
    assert_eq!(0, BigDec::compare(BigDec::fact(BigDec::zero()).unwrap(), BigDec::from_i32(1)));
    assert_eq!("1", BigDec::fact(BigDec::zero()).unwrap().to_string());
}

#[test]
fn div_then_mul_approximates() {
    let a = BigDec::from_i32(100);
    let b = BigDec::from_i32(48);
    let q = BigDec::div(a, b).unwrap();
    let m = BigDec::mul(q, b).unwrap();
    let diff = BigDec::sub(a, m).unwrap();
    let bound = BigDec::parse_str("0.00000000000000000048").unwrap();
    assert_eq!(-1, BigDec::compare(diff.negate(), bound));
    assert_eq!(-1, BigDec::compare(diff, bound));
}

#[test]
fn hex_display() {
    assert_eq!("0xFF", BigDec::from_i32(255).to_string_hex(8));
    assert_eq!("0x0", BigDec::from_i32(0).to_string_hex(8));
    assert_eq!("0xFFFF", BigDec::from_i32(-1).to_string_hex(8));
    assert_eq!("0x10", BigDec::from_i32(16).to_string_hex(8));
}

#[test]
fn bitwise_and_small_values() {
    let r = BigDec::and(BigDec::from_i32(12), BigDec::from_i32(10)).unwrap();
    assert_eq!("8", r.to_string());
    let r2 = BigDec::and(BigDec::from_i32(5), BigDec::from_i32(3)).unwrap();
    assert_eq!("1", r2.to_string());
}

#[test]
fn detailed_eval_lines() {
    let de = eval_input_detailed("1+2");
    assert_eq!("", de.state_str);
    assert_eq!("3", de.result_dec);
    assert_eq!("0x3", de.result_hex);

    let bad = eval_input_detailed("5/0");
    assert_eq!("divide by zero", bad.state_str);
    assert_eq!("--", bad.result_dec);
    assert_eq!("--", bad.result_hex);
}

#[test]
fn tree_drawing_is_produced() {
    let drawing = render_tree("1+2*3");
    assert!(drawing.contains('+'));
    assert!(drawing.contains('*'));
    assert!(drawing.contains('\n'));
    assert_eq!("", render_tree("(("));
}

#[test]
fn num_val_basics() {
    assert!(NumVal::zero().is_zero());
    assert!(!NumVal::from_i32(3).is_zero());
    assert_eq!("-3", NumVal::from_i32(3).negate().to_string());
    assert_eq!("0", NumVal::zero().negate().to_string());
    let r = NumVal::div(NumVal::from_i32(1), NumVal::zero());
    assert!(r.is_err());
    assert_eq!("1.5", NumVal::parse_str("1.50").unwrap().to_string());
}

#[test]
fn to_string_trims_and_signs() {
    assert_eq!("0", BigDec::zero().to_string());
    assert_eq!("-7", BigDec::from_i32(-7).to_string());
    assert_eq!("0", BigDec::from_i32(0).negate().to_string());
    assert_eq!("1.02", BigDec::parse_str("0001.0200").unwrap().to_string());
}
