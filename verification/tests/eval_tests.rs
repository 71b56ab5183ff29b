use dkalc::big_dec::BigDec;
use dkalc::eval::eval_input;
use dkalc::funcs::bd_sqrt;
use dkalc::text_canvas::TextCanvas;

#[test]
fn test_eval() {
    assert_eq!("20", eval_input("8/2 + 1 + 3*5"));
    assert_eq!("24", eval_input("2*3*4"));
    assert_eq!("2", eval_input("7%5"));
    assert_eq!("-2", eval_input("-3+1"));
    assert_eq!("720", eval_input("6!"));
}

#[test]
fn test_order() {
    assert_eq!("0", eval_input("4+2-3-3"));
}

#[test]
fn test_sqrt() {
    let n = BigDec::from_i32(25);
    let res = bd_sqrt(n);
    assert!(res.is_ok());
    assert_eq!(BigDec::from_i32(5), res.unwrap());
}

#[test]
fn test_text_canvas() {
    let mut tc = TextCanvas::new(4, 4);
    tc.down();
    tc.right(1);
    tc.do_str_fix("xy");
    tc.down();
    tc.left(1);
    tc.do_str_fix("ab");
    let expected = "    \n xy \nab  \n";
    assert_eq!(expected, tc.to_string());
}
