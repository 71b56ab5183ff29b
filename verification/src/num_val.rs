//! A plain fixed-point decimal value: the same sign-magnitude digit
//! representation as `BigDec`, with the basic arithmetic but a simpler
//! number grammar (no radix prefixes and no digit separators).

use vstd::prelude::*;

use crate::big_dec;
use crate::big_dec::dec_digit_val;
use crate::big_dec::fits;
use crate::big_dec::is_dec_digit;
use crate::big_dec::shift_insert;
use crate::big_dec::spec_render;
use crate::big_dec::str_to_chars;
use crate::big_dec::BigDec;
use crate::digits::digits_ok;
use crate::digits::digits_val;
use crate::digits::pow10;
use crate::digits::FRAC_LEN;
use crate::digits::INT_LEN;
use crate::digits::MAX_LEN;

verus! {

/// What an operation on plain values can report.
#[derive(Debug)]
pub enum Error {
    /// The input does not begin with a number.
    ParseNothing,
    /// More integer digits than the integer region holds.
    ParseIntPartOverflow,
    /// More fractional digits than the fractional region holds.
    ParseFracPartOverflow,
    /// Division or modulo by zero.
    OpDivideByZero,
    /// A magnitude beyond the fixed digit width.
    OpOverflow,
}

impl Error {
    /// The display text of each error.
    pub open spec fn message(self) -> Seq<char> {
        match self {
            Error::ParseNothing => ""@,
            Error::ParseIntPartOverflow => "too many digits"@,
            Error::ParseFracPartOverflow => "too many decimals"@,
            Error::OpDivideByZero => "divide by zero"@,
            Error::OpOverflow => "overflow"@,
        }
    }

    pub fn to_string(&self) -> (r: String)
        ensures
            r@ == self.message(),
    {
        match *self {
            Error::ParseNothing => String::from_str(""),
            Error::ParseIntPartOverflow => String::from_str("too many digits"),
            Error::ParseFracPartOverflow => String::from_str("too many decimals"),
            Error::OpDivideByZero => String::from_str("divide by zero"),
            Error::OpOverflow => String::from_str("overflow"),
        }
    }
}

/// A sign-magnitude fixed-point decimal value.
#[derive(Clone, Copy, Debug)]
pub struct NumVal {
    pub neg: bool,
    pub digits: [u8; MAX_LEN],
}

/// What add returns, over signed values in raw digit units.
pub open spec fn nv_add(a: int, b: int) -> Result<int, Error> {
    if fits(a + b) {
        Ok(a + b)
    } else {
        Err(Error::OpOverflow)
    }
}

/// What sub returns.
pub open spec fn nv_sub(a: int, b: int) -> Result<int, Error> {
    if fits(a - b) {
        Ok(a - b)
    } else {
        Err(Error::OpOverflow)
    }
}

/// What mul returns.
pub open spec fn nv_mul(a: int, b: int) -> Result<int, Error> {
    match big_dec::spec_mul(a, b) {
        Ok(v) => Ok(v),
        Err(_) => Err(Error::OpOverflow),
    }
}

/// What div returns.
pub open spec fn nv_div(a: int, b: int) -> Result<int, Error> {
    match big_dec::spec_div(a, b) {
        Ok(v) => Ok(v),
        Err(_) => Err(Error::OpDivideByZero),
    }
}

/// What div_mod returns.
pub open spec fn nv_div_mod(a: int, b: int) -> Result<int, Error> {
    match big_dec::spec_div_mod(a, b) {
        Ok(v) => Ok(v),
        Err(_) => Err(Error::OpDivideByZero),
    }
}

/// The value of a result, when it carries one.
pub open spec fn nv_res_val(r: Result<NumVal, Error>) -> Result<int, Error> {
    match r {
        Ok(v) => Ok(v.val()),
        Err(e) => Err(e),
    }
}

/// Well-formedness of a result, when it carries a value.
pub open spec fn nv_res_wf(r: Result<NumVal, Error>) -> bool {
    match r {
        Ok(v) => v.wf(),
        Err(_) => true,
    }
}

impl NumVal {
    /// The magnitude in raw digit units.
    pub open spec fn mag(self) -> nat {
        digits_val(self.digits@)
    }

    /// Every digit is a decimal digit.
    pub open spec fn wf(self) -> bool {
        digits_ok(self.digits@)
    }

    /// The signed value in raw digit units.
    pub open spec fn val(self) -> int {
        if self.neg {
            -(self.mag() as int)
        } else {
            self.mag() as int
        }
    }

    /// The same digits, as the engine's number type.
    pub open spec fn spec_bd(self) -> BigDec {
        BigDec { neg: self.neg, digits: self.digits }
    }

    /// Converts to the engine's number type, digit for digit.
    fn to_bd(self) -> (r: BigDec)
        ensures
            r == self.spec_bd(),
            r.val() == self.val(),
            r.wf() == self.wf(),
    {
        BigDec { neg: self.neg, digits: self.digits }
    }

    /// Wraps the engine's number type, digit for digit.
    fn from_bd(b: BigDec) -> (r: NumVal)
        ensures
            r.neg == b.neg,
            r.digits == b.digits,
            r.val() == b.val(),
            r.wf() == b.wf(),
    {
        NumVal { neg: b.neg, digits: b.digits }
    }

    /// The zero value.
    pub fn zero() -> (r: NumVal)
        ensures
            r.wf(),
            r.val() == 0,
            r.neg == false,
    {
        NumVal::from_bd(BigDec::zero())
    }

    /// Builds the value v, scaled into raw digit units.
    pub fn from_i32(v: i32) -> (r: NumVal)
        ensures
            r.wf(),
            r.val() == v * pow10(FRAC_LEN as nat),
            r.neg == (v < 0),
    {
        NumVal::from_bd(BigDec::from_i32(v))
    }

    /// Renders the value in decimal, outer zeros trimmed.
    pub fn to_string(&self) -> (r: String)
        requires
            self.wf(),
        ensures
            r@ == spec_render(self.neg, self.digits@),
    {
        let b = self.to_bd();
        b.to_string()
    }

    /// True exactly of a zero magnitude, whatever the sign flag.
    pub fn is_zero(&self) -> (r: bool)
        ensures
            r == (self.val() == 0),
    {
        let b = self.to_bd();
        b.is_zero()
    }

    /// Flips the sign flag; the value is negated.
    pub fn negate(&self) -> (r: NumVal)
        ensures
            r.wf() == self.wf(),
            r.val() == -self.val(),
            r.neg == !self.neg,
    {
        let mut ret = *self;
        ret.neg = !ret.neg;
        ret
    }

    /// Adds two values; overflow exactly when the sum does not fit.
    pub fn add(nv0: NumVal, nv1: NumVal) -> (r: Result<NumVal, Error>)
        requires
            nv0.wf(),
            nv1.wf(),
        ensures
            nv_res_val(r) == nv_add(nv0.val(), nv1.val()),
            nv_res_wf(r),
    {
        match BigDec::add(nv0.to_bd(), nv1.to_bd()) {
            Ok(v) => Ok(NumVal::from_bd(v)),
            Err(_) => Err(Error::OpOverflow),
        }
    }

    /// Subtracts the second value from the first.
    pub fn sub(nv0: NumVal, nv1: NumVal) -> (r: Result<NumVal, Error>)
        requires
            nv0.wf(),
            nv1.wf(),
        ensures
            nv_res_val(r) == nv_sub(nv0.val(), nv1.val()),
            nv_res_wf(r),
    {
        match BigDec::sub(nv0.to_bd(), nv1.to_bd()) {
            Ok(v) => Ok(NumVal::from_bd(v)),
            Err(_) => Err(Error::OpOverflow),
        }
    }

    /// Multiplies two values.
    pub fn mul(nv0: NumVal, nv1: NumVal) -> (r: Result<NumVal, Error>)
        requires
            nv0.wf(),
            nv1.wf(),
        ensures
            nv_res_val(r) == nv_mul(nv0.val(), nv1.val()),
            nv_res_wf(r),
    {
        match BigDec::mul(nv0.to_bd(), nv1.to_bd()) {
            Ok(v) => Ok(NumVal::from_bd(v)),
            Err(_) => Err(Error::OpOverflow),
        }
    }

    /// Divides two values, extending into the fractional region; fails
    /// exactly on a zero divisor.
    pub fn div(nv0: NumVal, nv1: NumVal) -> (r: Result<NumVal, Error>)
        requires
            nv0.wf(),
            nv1.wf(),
        ensures
            nv_res_val(r) == nv_div(nv0.val(), nv1.val()),
            nv_res_wf(r),
    {
        match BigDec::div(nv0.to_bd(), nv1.to_bd()) {
            Ok(v) => Ok(NumVal::from_bd(v)),
            Err(_) => Err(Error::OpDivideByZero),
        }
    }

    /// The integer remainder, with the divisor's sign; fails exactly on a
    /// zero divisor.
    pub fn div_mod(nv0: NumVal, nv1: NumVal) -> (r: Result<NumVal, Error>)
        requires
            nv0.wf(),
            nv1.wf(),
        ensures
            nv_res_val(r) == nv_div_mod(nv0.val(), nv1.val()),
            nv_res_wf(r),
    {
        match BigDec::div_mod(nv0.to_bd(), nv1.to_bd()) {
            Ok(v) => Ok(NumVal::from_bd(v)),
            Err(_) => Err(Error::OpDivideByZero),
        }
    }
}

/// How the plain number scanner ends: a magnitude in raw digit units and
/// the position after the literal, or an error.
pub ghost enum NvParse {
    Num { v: nat, end: int },
    Fail { err: Error },
}

/// The running state of the plain number scanner.
pub ghost struct NvState {
    pub digs: Seq<u8>,
    pub shift_count: nat,
    pub dot_found: bool,
    pub frac_index: int,
}

/// One step of the plain number scanner per character: digits before the
/// point shift in from below, digits after it fill the fractional region,
/// anything else stops the scan.
pub open spec fn nv_parse_loop(chars: Seq<char>, i: int, st: NvState) -> NvParse
    decreases chars.len() - i,
{
    if i < 0 || i >= chars.len() {
        NvParse::Num { v: digits_val(st.digs), end: i }
    } else {
        let c = chars[i];
        if c == '.' {
            if st.dot_found {
                NvParse::Num { v: digits_val(st.digs), end: i }
            } else {
                nv_parse_loop(chars, i + 1, NvState { dot_found: true, ..st })
            }
        } else if !is_dec_digit(c) {
            NvParse::Num { v: digits_val(st.digs), end: i }
        } else {
            let d = dec_digit_val(c);
            if !st.dot_found {
                if st.shift_count == INT_LEN {
                    NvParse::Fail { err: Error::ParseIntPartOverflow }
                } else {
                    nv_parse_loop(
                        chars,
                        i + 1,
                        NvState {
                            digs: shift_insert(st.digs, d),
                            shift_count: st.shift_count + 1,
                            ..st
                        },
                    )
                }
            } else {
                if st.frac_index == 0 {
                    NvParse::Fail { err: Error::ParseFracPartOverflow }
                } else {
                    nv_parse_loop(
                        chars,
                        i + 1,
                        NvState {
                            digs: st.digs.update(st.frac_index - 1, d),
                            frac_index: st.frac_index - 1,
                            ..st
                        },
                    )
                }
            }
        }
    }
}

/// What parsing a plain number from position i yields.
pub open spec fn nv_spec_parse(chars: Seq<char>, i: int) -> NvParse {
    if i < 0 || i >= chars.len() {
        NvParse::Fail { err: Error::ParseNothing }
    } else if !is_dec_digit(chars[i]) {
        NvParse::Fail { err: Error::ParseNothing }
    } else {
        let d0 = dec_digit_val(chars[i]);
        let st0 = NvState {
            digs: Seq::new(MAX_LEN as nat, |j: int| 0u8).update(FRAC_LEN as int, d0),
            shift_count: 1,
            dot_found: false,
            frac_index: FRAC_LEN as int,
        };
        nv_parse_loop(chars, i + 1, st0)
    }
}

impl NumVal {
    /// Parses a non-negative number from `chars` starting at `pos`:
    /// integer digits, then at most one point and fractional digits.
    #[verifier::rlimit(100)]
    pub fn parse_chars(chars: &Vec<char>, pos: &mut usize) -> (r: Result<NumVal, Error>)
        requires
            *old(pos) <= chars@.len(),
        ensures
            *old(pos) <= *final(pos) <= chars@.len(),
            match r {
                Ok(v) => v.wf() && v.neg == false && nv_spec_parse(chars@, *old(pos) as int) == (
                NvParse::Num { v: v.mag(), end: *final(pos) as int }),
                Err(e) => nv_spec_parse(chars@, *old(pos) as int) == (NvParse::Fail { err: e })
                    && (e is ParseNothing ==> *final(pos) == *old(pos)),
            },
    {
        let ghost i0 = *pos as int;
        if *pos >= chars.len() {
            return Err(Error::ParseNothing);
        }
        let c0 = chars[*pos];
        let x0 = c0 as u32;
        if !(x0 >= 48 && x0 <= 57) {
            return Err(Error::ParseNothing);
        }
        let first_digit = (x0 - 48) as u8;
        *pos = *pos + 1;
        let mut bval = BigDec::zero();
        let ghost zeros = bval.digits@;
        bval.digits[FRAC_LEN] = first_digit;
        let mut shift_count: usize = 1;
        let mut dot_found = false;
        let mut frac_index: usize = FRAC_LEN;
        proof {
            assert(zeros =~= Seq::new(MAX_LEN as nat, |j: int| 0u8));
            assert(bval.digits@ =~= Seq::new(MAX_LEN as nat, |j: int| 0u8).update(
                FRAC_LEN as int,
                first_digit,
            ));
        }
        let mut done = false;
        while !done && *pos < chars.len()
            invariant
                i0 == *old(pos),
                i0 + 1 <= *pos <= chars@.len(),
                bval.wf(),
                bval.neg == false,
                1 <= shift_count <= INT_LEN,
                frac_index <= FRAC_LEN,
                !done ==> nv_spec_parse(chars@, i0) == nv_parse_loop(
                    chars@,
                    *pos as int,
                    (NvState {
                        digs: bval.digits@,
                        shift_count: shift_count as nat,
                        dot_found: dot_found,
                        frac_index: frac_index as int,
                    }),
                ),
                done ==> nv_spec_parse(chars@, i0) == (NvParse::Num {
                    v: digits_val(bval.digits@),
                    end: *pos as int,
                }),
            decreases chars@.len() - *pos + (if done {
                0int
            } else {
                1int
            }),
        {
            let ghost stc = NvState {
                digs: bval.digits@,
                shift_count: shift_count as nat,
                dot_found: dot_found,
                frac_index: frac_index as int,
            };
            let ghost p0 = *pos as int;
            let c = chars[*pos];
            if c == '.' {
                if dot_found {
                    done = true;
                } else {
                    dot_found = true;
                }
            } else {
                let x = c as u32;
                if !(x >= 48 && x <= 57) {
                    done = true;
                } else {
                    let digit32 = (x - 48) as u8;
                    if !dot_found {
                        if shift_count == INT_LEN {
                            proof {
                                assert(nv_parse_loop(chars@, p0, stc) == (NvParse::Fail {
                                    err: Error::ParseIntPartOverflow,
                                }));
                            }
                            return Err(Error::ParseIntPartOverflow);
                        }
                        bval.push_int_digit(digit32);
                        shift_count = shift_count + 1;
                    } else {
                        if frac_index == 0 {
                            proof {
                                assert(nv_parse_loop(chars@, p0, stc) == (NvParse::Fail {
                                    err: Error::ParseFracPartOverflow,
                                }));
                            }
                            return Err(Error::ParseFracPartOverflow);
                        }
                        frac_index = frac_index - 1;
                        bval.set_frac_digit(frac_index, digit32);
                    }
                }
            }
            if !done {
                *pos = *pos + 1;
                proof {
                    assert(nv_parse_loop(chars@, p0, stc) == nv_parse_loop(
                        chars@,
                        *pos as int,
                        (NvState {
                            digs: bval.digits@,
                            shift_count: shift_count as nat,
                            dot_found: dot_found,
                            frac_index: frac_index as int,
                        }),
                    ));
                }
            } else {
                proof {
                    assert(nv_parse_loop(chars@, p0, stc) == (NvParse::Num {
                        v: digits_val(stc.digs),
                        end: p0,
                    }));
                }
            }
        }
        Ok(NumVal::from_bd(bval))
    }

    /// Parses a non-negative number from the start of a string.
    pub fn parse_str(arg: &str) -> (r: Result<NumVal, Error>)
        ensures
            match r {
                Ok(v) => v.wf() && v.neg == false && (nv_spec_parse(arg@, 0) matches NvParse::Num {
                    v: m,
                    end,
                } && m == v.mag()),
                Err(e) => nv_spec_parse(arg@, 0) == (NvParse::Fail { err: e }),
            },
    {
        let chars = str_to_chars(arg);
        let mut pos: usize = 0;
        NumVal::parse_chars(&chars, &mut pos)
    }
}

} // verus!
