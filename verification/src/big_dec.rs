//! The fixed-point decimal number type.
//!
//! A `BigDec` holds a sign flag and `MAX_LEN` decimal digits, least
//! significant first; the lowest `FRAC_LEN` digits form the fractional part.
//! The denoted rational is `val() / pow10(FRAC_LEN)`; all contracts are
//! stated over the integer `val()` in these raw digit units.

use vstd::prelude::*;
use vstd::std_specs::cmp::PartialEqSpec;

use crate::digits::digits_accumulate;
use crate::digits::digits_cmp;
use crate::digits::digits_ok;
use crate::digits::digits_shift_down;
use crate::digits::digits_shift_up;
use crate::digits::digits_sub_le;
use crate::digits::digits_val;
use crate::digits::lemma_digits_val_bound;
use crate::digits::lemma_digits_val_nonzero;
use crate::digits::lemma_digits_val_split;
use crate::digits::lemma_digits_val_take_step;
use crate::digits::lemma_digits_val_trunc;
use crate::digits::lemma_digits_val_update;
use crate::digits::lemma_digits_val_zero;
use crate::digits::lemma_pow10_adds;
use crate::digits::lemma_pow10_increases;
use crate::digits::lemma_pow10_pos;
use crate::digits::pow10;
use crate::digits::DIV_LEN;
use crate::digits::FRAC_LEN;
use crate::digits::INT_LEN;
use crate::digits::MAX_LEN;
use crate::digits::MUL_LEN;

verus! {

/// What a fixed-point operation can report instead of a value.
#[derive(Debug)]
pub enum Error {
    /// The input does not begin with a number at all.
    ParseNothing,
    /// More integer digits than the integer region holds.
    ParseIntPartOverflow,
    /// More fractional digits than the fractional region holds.
    ParseFracPartOverflow,
    /// A malformed radix marker or doubled separator.
    ParseBadChar,
    /// Division or modulo by zero.
    OpDivideByZero,
    /// A magnitude beyond the fixed digit width.
    OpOverflow,
}

impl Error {
    /// The display text of each error.
    pub open spec fn message(self) -> Seq<char> {
        match self {
            Error::ParseNothing => ""@,
            Error::ParseIntPartOverflow => "too many digits"@,
            Error::ParseFracPartOverflow => "too many decimals"@,
            Error::ParseBadChar => "bad character"@,
            Error::OpDivideByZero => "divide by zero"@,
            Error::OpOverflow => "overflow"@,
        }
    }

    pub fn to_string(&self) -> (r: String)
        ensures
            r@ == self.message(),
    {
        match *self {
            Error::ParseNothing => String::from_str(""),
            Error::ParseIntPartOverflow => String::from_str("too many digits"),
            Error::ParseFracPartOverflow => String::from_str("too many decimals"),
            Error::ParseBadChar => String::from_str("bad character"),
            Error::OpDivideByZero => String::from_str("divide by zero"),
            Error::OpOverflow => String::from_str("overflow"),
        }
    }
}

/// A sign-magnitude fixed-point decimal: `digits` little-endian, the
/// lowest `FRAC_LEN` of them fractional.
#[derive(Clone, Copy, Debug)]
pub struct BigDec {
    pub neg: bool,
    pub digits: [u8; MAX_LEN],
}

impl BigDec {
    /// The magnitude in raw digit units.
    pub open spec fn mag(self) -> nat {
        digits_val(self.digits@)
    }

    /// Every digit is a decimal digit.
    pub open spec fn wf(self) -> bool {
        digits_ok(self.digits@)
    }

    /// The signed value in raw digit units; a zero magnitude is zero
    /// whatever the sign flag says.
    pub open spec fn val(self) -> int {
        if self.neg {
            -(self.mag() as int)
        } else {
            self.mag() as int
        }
    }
}

/// The absolute value of v.
pub open spec fn iabs(v: int) -> nat {
    if v < 0 {
        (-v) as nat
    } else {
        v as nat
    }
}

/// Whether a signed value in raw digit units fits the fixed width.
pub open spec fn fits(v: int) -> bool {
    iabs(v) < pow10(MAX_LEN as nat)
}

/// What compare returns: the sign of the difference of the two values.
pub open spec fn spec_compare(a: int, b: int) -> int {
    if a < b {
        -1
    } else if a == b {
        0
    } else {
        1
    }
}

/// What add returns, over signed values in raw digit units.
pub open spec fn spec_add(a: int, b: int) -> Result<int, Error> {
    if fits(a + b) {
        Ok(a + b)
    } else {
        Err(Error::OpOverflow)
    }
}

/// What sub returns, over signed values in raw digit units.
pub open spec fn spec_sub(a: int, b: int) -> Result<int, Error> {
    if fits(a - b) {
        Ok(a - b)
    } else {
        Err(Error::OpOverflow)
    }
}

/// The value of a result, when it carries one.
pub open spec fn res_val(r: Result<BigDec, Error>) -> Result<int, Error> {
    match r {
        Ok(v) => Ok(v.val()),
        Err(e) => Err(e),
    }
}

/// Well-formedness of a result, when it carries a value.
pub open spec fn res_wf(r: Result<BigDec, Error>) -> bool {
    match r {
        Ok(v) => v.wf(),
        Err(_) => true,
    }
}

/// The values of pow10 at the region boundaries, unfolded once and for all.
pub proof fn lemma_pow10_constants()
    ensures
        pow10(10) == 10_000_000_000,
        pow10(FRAC_LEN as nat) == 100_000_000_000_000_000_000,
        pow10(MAX_LEN as nat) == pow10(FRAC_LEN as nat) * pow10(FRAC_LEN as nat),
        pow10((MAX_LEN + FRAC_LEN) as nat) == pow10(MAX_LEN as nat) * pow10(FRAC_LEN as nat),
{
    reveal_with_fuel(pow10, 21);
    assert(pow10(10) == 10_000_000_000);
    assert(pow10(20) == 100_000_000_000_000_000_000);
    lemma_pow10_adds(20, 20);
    lemma_pow10_adds(40, 20);
}

impl BigDec {
    /// The zero value.
    pub fn zero() -> (r: BigDec)
        ensures
            r.wf(),
            r.val() == 0,
            r.mag() == 0,
            r.neg == false,
            forall|j: int| 0 <= j < MAX_LEN ==> r.digits@[j] == 0,
    {
        let r = BigDec { neg: false, digits: [0u8; MAX_LEN] };
        proof {
            lemma_digits_val_zero(r.digits@);
        }
        r
    }

    /// Builds the value v, scaled into raw digit units.
    pub fn from_i32(v: i32) -> (r: BigDec)
        ensures
            r.wf(),
            r.val() == v * pow10(FRAC_LEN as nat),
            r.neg == (v < 0),
    {
        let mut ret = BigDec::zero();
        let w: i64 = v as i64;
        let mut val_u: u64;
        if w < 0 {
            ret.neg = true;
            val_u = (-w) as u64;
        } else {
            val_u = w as u64;
        }
        let ghost m: nat = val_u as nat;
        proof {
            lemma_pow10_constants();
            assert(m < pow10(10));
        }
        if val_u < 10 {
            let ghost prev = ret.digits@;
            ret.digits[FRAC_LEN] = val_u as u8;
            proof {
                assert(ret.digits@ =~= prev.update(FRAC_LEN as int, (val_u as u8)));
                lemma_digits_val_update(prev, FRAC_LEN as int, (val_u as u8));
                lemma_digits_val_zero(prev);
                assert(ret.mag() == m * pow10(FRAC_LEN as nat));
            }
        } else {
            let mut index: usize = FRAC_LEN;
            while val_u > 0
                invariant
                    FRAC_LEN <= index,
                    ret.neg == (w < 0),
                    digits_ok(ret.digits@),
                    forall|j: int| index <= j < MAX_LEN ==> ret.digits@[j] == 0,
                    val_u < pow10((FRAC_LEN + 10 - index) as nat),
                    index <= FRAC_LEN + 10,
                    digits_val(ret.digits@) + val_u * pow10(index as nat) == m * pow10(
                        FRAC_LEN as nat,
                    ),
                decreases val_u,
            {
                proof {
                    lemma_pow10_pos((FRAC_LEN + 10 - index) as nat);
                    if index == FRAC_LEN + 10 {
                        assert(pow10(0) == 1);
                        assert(false);
                    }
                }
                let x = (val_u % 10) as u8;
                let ghost vu0 = val_u as nat;
                val_u = val_u / 10;
                let ghost prev = ret.digits@;
                ret.digits[index] = x;
                proof {
                    assert(ret.digits@ =~= prev.update(index as int, x));
                    lemma_digits_val_update(prev, index as int, x);
                    assert(prev[index as int] == 0);
                    let p = pow10(index as nat);
                    assert(pow10((index + 1) as nat) == 10 * p);
                    assert(vu0 == 10 * (val_u as nat) + x);
                    assert(digits_val(ret.digits@) == digits_val(prev) + x * p);
                    assert(digits_val(prev) + (10 * (val_u as nat) + x) * p == digits_val(prev)
                        + x * p + (val_u as nat) * (10 * p)) by (nonlinear_arith);
                    assert(10 * (val_u as nat) < vu0 + 10);
                    assert(10 * (val_u as nat) + 10 <= 10 * pow10(
                        (FRAC_LEN + 10 - index - 1) as nat,
                    )) by (nonlinear_arith)
                        requires
                            (val_u as nat) < pow10((FRAC_LEN + 10 - index - 1) as nat),
                    ;
                }
                index = index + 1;
            }
        }
        proof {
            if ret.neg {
                assert(m == iabs(v as int));
                assert(-((m * pow10(FRAC_LEN as nat)) as int) == (v as int) * pow10(
                    FRAC_LEN as nat,
                )) by (nonlinear_arith)
                    requires
                        m == -(v as int),
                ;
            }
        }
        ret
    }

    /// The total digit width of a value.
    pub fn max_len() -> (r: usize)
        ensures
            r == MAX_LEN,
    {
        MAX_LEN
    }

    /// True exactly of a zero magnitude, whatever the sign flag.
    pub fn is_zero(&self) -> (r: bool)
        ensures
            r == (self.mag() == 0),
            r == (self.val() == 0),
    {
        let mut i: usize = 0;
        while i < MAX_LEN
            invariant
                i <= MAX_LEN,
                forall|j: int| 0 <= j < i ==> self.digits@[j] == 0,
            decreases MAX_LEN - i,
        {
            if self.digits[i] != 0 {
                proof {
                    lemma_digits_val_nonzero(self.digits@, i as int);
                    lemma_pow10_pos(i as nat);
                }
                return false;
            }
            i = i + 1;
        }
        proof {
            lemma_digits_val_zero(self.digits@);
        }
        true
    }

    /// Flips the sign flag; the value is negated.
    pub fn negate(&self) -> (r: BigDec)
        ensures
            r.wf() == self.wf(),
            r.mag() == self.mag(),
            r.neg == !self.neg,
            r.digits == self.digits,
            r.val() == -self.val(),
    {
        let mut ret = *self;
        ret.neg = !ret.neg;
        ret
    }

    /// Adds the magnitudes, ignoring both sign flags.
    fn add_u(nv0: BigDec, nv1: BigDec) -> (r: Result<BigDec, Error>)
        requires
            nv0.wf(),
            nv1.wf(),
        ensures
            r is Ok <==> nv0.mag() + nv1.mag() < pow10(MAX_LEN as nat),
            match r {
                Ok(v) => v.wf() && v.neg == false && v.mag() == nv0.mag() + nv1.mag(),
                Err(e) => e == Error::OpOverflow,
            },
    {
        let mut nv1_digits = nv1.digits;
        let carry = digits_accumulate(&nv0.digits, &mut nv1_digits);
        proof {
            lemma_digits_val_bound(nv1_digits@);
        }
        if carry {
            proof {
                lemma_pow10_pos(MAX_LEN as nat);
            }
            Err(Error::OpOverflow)
        } else {
            Ok(BigDec { neg: false, digits: nv1_digits })
        }
    }

    /// Subtracts the smaller magnitude from the larger, ignoring both sign
    /// flags; the sign of the result records which operand was larger.
    fn sub_u(nv0: BigDec, nv1: BigDec) -> (r: BigDec)
        requires
            nv0.wf(),
            nv1.wf(),
        ensures
            r.wf(),
            r.neg == (nv0.mag() < nv1.mag()),
            r.mag() == iabs(nv0.mag() - nv1.mag()),
    {
        let cmp = digits_cmp(&nv0.digits, &nv1.digits);
        let swap = cmp == -1;
        if swap {
            let d = digits_sub_le(&nv1.digits, &nv0.digits);
            BigDec { neg: true, digits: d }
        } else {
            let d = digits_sub_le(&nv0.digits, &nv1.digits);
            BigDec { neg: false, digits: d }
        }
    }

    /// Adds two values; overflow is reported exactly when the sum's
    /// magnitude does not fit the digit width.
    pub fn add(nv0: BigDec, nv1: BigDec) -> (r: Result<BigDec, Error>)
        requires
            nv0.wf(),
            nv1.wf(),
        ensures
            res_val(r) == spec_add(nv0.val(), nv1.val()),
            res_wf(r),
    {
        if !nv0.neg && !nv1.neg {
            return BigDec::add_u(nv0, nv1);
        } else if nv0.neg && nv1.neg {
            let mut ret = match BigDec::add_u(nv0, nv1) {
                Ok(nv) => nv,
                Err(err) => {
                    return Err(err);
                },
            };
            ret.neg = true;
            return Ok(ret);
        } else if nv0.neg && !nv1.neg {
            proof {
                lemma_digits_val_bound(nv0.digits@);
                lemma_digits_val_bound(nv1.digits@);
            }
            return Ok(BigDec::sub_u(nv1, nv0));
        }
        proof {
            lemma_digits_val_bound(nv0.digits@);
            lemma_digits_val_bound(nv1.digits@);
        }
        return Ok(BigDec::sub_u(nv0, nv1));
    }

    /// Compares two values: -1, 0 or 1 as the first is below, equal to or
    /// above the second.  This is a total order on values.
    pub fn compare(nv0: BigDec, nv1: BigDec) -> (r: i32)
        requires
            nv0.wf(),
            nv1.wf(),
        ensures
            r == spec_compare(nv0.val(), nv1.val()),
    {
        let za = nv0.is_zero();
        let zb = nv1.is_zero();
        if za && zb {
            return 0;
        }
        if za {
            if nv1.neg {
                return 1;
            } else {
                return -1;
            }
        }
        if zb {
            if nv0.neg {
                return -1;
            } else {
                return 1;
            }
        }
        if nv0.neg {
            if nv1.neg {
                let c = digits_cmp(&nv0.digits, &nv1.digits);
                return -c;
            } else {
                return -1;
            }
        } else {
            if nv1.neg {
                return 1;
            } else {
                return digits_cmp(&nv0.digits, &nv1.digits);
            }
        }
    }

    /// Subtracts the second value from the first; overflow is reported
    /// exactly when the difference's magnitude does not fit.
    pub fn sub(nv0: BigDec, nv1: BigDec) -> (r: Result<BigDec, Error>)
        requires
            nv0.wf(),
            nv1.wf(),
        ensures
            res_val(r) == spec_sub(nv0.val(), nv1.val()),
            res_wf(r),
    {
        if nv0.neg && !nv1.neg {
            let mut ret = match BigDec::add_u(nv0, nv1) {
                Ok(nv) => nv,
                Err(err) => {
                    return Err(err);
                },
            };
            ret.neg = true;
            return Ok(ret);
        } else if nv0.neg && nv1.neg {
            proof {
                lemma_digits_val_bound(nv0.digits@);
                lemma_digits_val_bound(nv1.digits@);
            }
            return Ok(BigDec::sub_u(nv1, nv0));
        } else if !nv0.neg && nv1.neg {
            let ret = match BigDec::add_u(nv0, nv1) {
                Ok(nv) => nv,
                Err(err) => {
                    return Err(err);
                },
            };
            return Ok(ret);
        }
        proof {
            lemma_digits_val_bound(nv0.digits@);
            lemma_digits_val_bound(nv1.digits@);
        }
        return Ok(BigDec::sub_u(nv0, nv1));
    }
}

/// What mul returns, over signed values in raw digit units: the product is
/// rescaled by pow10(FRAC_LEN) and truncated toward zero.
pub open spec fn spec_mul(a: int, b: int) -> Result<int, Error> {
    if iabs(a) * iabs(b) < pow10((MAX_LEN + FRAC_LEN) as nat) {
        if (a < 0) == (b < 0) {
            Ok(((iabs(a) * iabs(b)) / pow10(FRAC_LEN as nat)) as int)
        } else {
            Ok(-(((iabs(a) * iabs(b)) / pow10(FRAC_LEN as nat)) as int))
        }
    } else {
        Err(Error::OpOverflow)
    }
}

impl BigDec {
    /// One schoolbook row: the first operand times a single digit, placed
    /// `shift` positions up in a double-length digit buffer.
    fn mul_u_digit(nv0: &BigDec, digit: u8, shift: usize) -> (line: [u8; MUL_LEN])
        requires
            nv0.wf(),
            digit <= 9,
            shift <= MAX_LEN,
        ensures
            digits_ok(line@),
            digits_val(line@) == digit * nv0.mag() * pow10(shift as nat),
    {
        let mut line: [u8; MUL_LEN] = [0u8; MUL_LEN];
        let mut carry: u8 = 0;
        let mut i: usize = 0;
        proof {
            lemma_digits_val_zero(line@);
            assert(digit * digits_val(nv0.digits@.take(0)) * pow10(shift as nat) == 0)
                by (nonlinear_arith)
                requires digits_val(nv0.digits@.take(0)) == 0;
        }
        while i < MAX_LEN
            invariant
                i <= MAX_LEN,
                shift <= MAX_LEN,
                carry <= 8,
                digit <= 9,
                nv0.wf(),
                digits_ok(line@),
                forall|j: int| shift + i <= j < MUL_LEN ==> line@[j] == 0,
                digits_val(line@) + carry * pow10((shift + i) as nat) == digit * digits_val(
                    nv0.digits@.take(i as int),
                ) * pow10(shift as nat),
            decreases MAX_LEN - i,
        {
            let di = nv0.digits[i];
            proof {
                assert((digit as nat) * (di as nat) <= 81) by (nonlinear_arith)
                    requires digit <= 9, di <= 9;
            }
            let z = digit * di + carry;
            let z2 = z % 10;
            let c2 = z / 10;
            let ghost prev = line@;
            line[shift + i] = z2;
            proof {
                assert(line@ =~= prev.update((shift + i) as int, z2));
                lemma_digits_val_update(prev, (shift + i) as int, z2);
                lemma_digits_val_take_step(nv0.digits@, i as int);
                let v0 = digits_val(prev);
                let v1 = digits_val(line@);
                let t0 = digits_val(nv0.digits@.take(i as int));
                let t1 = digits_val(nv0.digits@.take(i as int + 1));
                let dn: nat = digit as nat;
                let din: nat = nv0.digits@[i as int] as nat;
                let s = pow10(shift as nat);
                let p = pow10((shift + i) as nat);
                let pi = pow10(i as nat);
                lemma_pow10_adds(shift as nat, i as nat);
                assert(pow10((shift + i + 1) as nat) == 10 * p);
                let w: nat = dn * din;
                let u: nat = din * pi;
                assert(dn * t1 * s == dn * t0 * s + dn * u * s) by (nonlinear_arith)
                    requires t1 == t0 + u;
                assert(dn * u * s == w * p) by (nonlinear_arith)
                    requires w == dn * din, u == din * pi, p == s * pi;
                assert(((z2 as nat) + 10 * (c2 as nat)) * p == (z2 as nat) * p + 10 * ((
                c2 as nat) * p)) by (nonlinear_arith);
                assert((w + carry) * p == w * p + (carry as nat) * p) by (nonlinear_arith);
                assert((z2 as nat) + 10 * (c2 as nat) == w + carry);
                assert(((z2 as nat) + 10 * (c2 as nat)) * p == ((w + carry) as nat) * p);
                assert((c2 as nat) * (10 * p) == 10 * ((c2 as nat) * p)) by (nonlinear_arith);
                assert(v1 + (c2 as nat) * (10 * p) == dn * t1 * s);
            }
            carry = c2;
            i = i + 1;
        }
        let ghost prev = line@;
        line[shift + MAX_LEN] = carry;
        proof {
            assert(line@ =~= prev.update((shift + MAX_LEN) as int, carry));
            lemma_digits_val_update(prev, (shift + MAX_LEN) as int, carry);
            assert(nv0.digits@.take(MAX_LEN as int) =~= nv0.digits@);
        }
        line
    }

    /// Multiplies the magnitudes, ignoring both sign flags; the product is
    /// rescaled by pow10(FRAC_LEN), truncating the lowest digits.
    fn mul_u(nv0: BigDec, nv1: BigDec) -> (r: Result<BigDec, Error>)
        requires
            nv0.wf(),
            nv1.wf(),
        ensures
            r is Ok <==> nv0.mag() * nv1.mag() < pow10((MAX_LEN + FRAC_LEN) as nat),
            match r {
                Ok(v) => v.wf() && v.neg == false && v.mag() == (nv0.mag() * nv1.mag()) / pow10(
                    FRAC_LEN as nat,
                ),
                Err(e) => e == Error::OpOverflow,
            },
    {
        let mut result: [u8; MUL_LEN] = [0u8; MUL_LEN];
        proof {
            lemma_digits_val_zero(result@);
            assert(nv0.mag() * digits_val(nv1.digits@.take(0)) == 0) by (nonlinear_arith)
                requires digits_val(nv1.digits@.take(0)) == 0;
        }
        let mut i: usize = 0;
        while i < MAX_LEN
            invariant
                i <= MAX_LEN,
                nv0.wf(),
                nv1.wf(),
                digits_ok(result@),
                digits_val(result@) == nv0.mag() * digits_val(nv1.digits@.take(i as int)),
            decreases MAX_LEN - i,
        {
            let line = BigDec::mul_u_digit(&nv0, nv1.digits[i], i);
            let ghost before = digits_val(result@);
            let carry = digits_accumulate(&line, &mut result);
            proof {
                lemma_digits_val_take_step(nv1.digits@, i as int);
                let m0 = nv0.mag();
                let t0 = digits_val(nv1.digits@.take(i as int));
                let t1 = digits_val(nv1.digits@.take(i as int + 1));
                let di: nat = nv1.digits@[i as int] as nat;
                let pi = pow10(i as nat);
                assert(before + (di as nat) * m0 * pi == m0 * t1) by (nonlinear_arith)
                    requires
                        before == m0 * t0,
                        t1 == t0 + di * pi,
                ;
                lemma_digits_val_bound(nv0.digits@);
                lemma_digits_val_bound(nv1.digits@.take(i as int + 1));
                lemma_pow10_increases((i + 1) as nat, MAX_LEN as nat);
                crate::digits::lemma_mul_lt(m0, t1, pow10(MAX_LEN as nat), pow10(MAX_LEN as nat))
                ;
                lemma_pow10_adds(MAX_LEN as nat, MAX_LEN as nat);
                lemma_pow10_increases((MAX_LEN + MAX_LEN) as nat, MUL_LEN as nat);
                if carry {
                    lemma_pow10_pos(MUL_LEN as nat);
                    assert(false);
                }
            }
            if carry {
                return Err(Error::OpOverflow);
            }
            i = i + 1;
        }
        proof {
            assert(nv1.digits@.take(MAX_LEN as int) =~= nv1.digits@);
        }
        let ghost prod = nv0.mag() * nv1.mag();
        let mut j: usize = FRAC_LEN + MAX_LEN;
        while j < MUL_LEN
            invariant
                FRAC_LEN + MAX_LEN <= j <= MUL_LEN,
                digits_ok(result@),
                digits_val(result@) == prod,
                prod == nv0.mag() * nv1.mag(),
                forall|k: int| FRAC_LEN + MAX_LEN <= k < j ==> result@[k] == 0,
            decreases MUL_LEN - j,
        {
            if result[j] != 0 {
                proof {
                    lemma_digits_val_nonzero(result@, j as int);
                    lemma_pow10_increases((MAX_LEN + FRAC_LEN) as nat, j as nat);
                    assert(prod >= pow10((MAX_LEN + FRAC_LEN) as nat));
                }
                return Err(Error::OpOverflow);
            }
            j = j + 1;
        }
        proof {
            lemma_digits_val_trunc(result@, (FRAC_LEN + MAX_LEN) as int);
            lemma_digits_val_bound(result@.take((FRAC_LEN + MAX_LEN) as int));
        }
        let mut ret = BigDec::zero();
        let mut k: usize = 0;
        while k < MAX_LEN
            invariant
                k <= MAX_LEN,
                digits_ok(result@),
                digits_ok(ret.digits@),
                ret.neg == false,
                forall|t: int| 0 <= t < k ==> ret.digits@[t] == result@[FRAC_LEN + t],
                forall|t: int| k <= t < MAX_LEN ==> ret.digits@[t] == 0,
            decreases MAX_LEN - k,
        {
            let ghost prev = ret.digits@;
            let v = result[FRAC_LEN + k];
            ret.digits[k] = v;
            proof {
                assert(ret.digits@ =~= prev.update(k as int, v));
            }
            k = k + 1;
        }
        proof {
            assert(ret.digits@ =~= result@.subrange(FRAC_LEN as int, (FRAC_LEN + MAX_LEN) as int));
            lemma_digits_val_split(result@, FRAC_LEN as int);
            lemma_digits_val_trunc(result@.skip(FRAC_LEN as int), MAX_LEN as int);
            assert(result@.skip(FRAC_LEN as int).take(MAX_LEN as int) =~= result@.subrange(
                FRAC_LEN as int,
                (FRAC_LEN + MAX_LEN) as int,
            ));
            let lo = digits_val(result@.take(FRAC_LEN as int));
            let mid = ret.mag();
            lemma_digits_val_bound(result@.take(FRAC_LEN as int));
            lemma_pow10_pos(FRAC_LEN as nat);
            assert(prod == mid * pow10(FRAC_LEN as nat) + lo) by (nonlinear_arith)
                requires
                    prod == lo + pow10(FRAC_LEN as nat) * mid,
            ;
            vstd::arithmetic::div_mod::lemma_fundamental_div_mod_converse(
                prod as int,
                pow10(FRAC_LEN as nat) as int,
                mid as int,
                lo as int,
            );
        }
        Ok(ret)
    }

    /// Multiplies two values; the sign of the product is the exclusive or
    /// of the operand signs, and overflow is reported exactly when the
    /// magnitude product exceeds the double-width window.
    pub fn mul(nv0: BigDec, nv1: BigDec) -> (r: Result<BigDec, Error>)
        requires
            nv0.wf(),
            nv1.wf(),
        ensures
            res_val(r) == spec_mul(nv0.val(), nv1.val()),
            res_wf(r),
    {
        proof {
            lemma_pow10_pos(FRAC_LEN as nat);
            if nv0.mag() == 0 || nv1.mag() == 0 {
                assert(nv0.mag() * nv1.mag() == 0) by (nonlinear_arith)
                    requires nv0.mag() == 0 || nv1.mag() == 0;
                vstd::arithmetic::div_mod::lemma_div_of0(pow10(FRAC_LEN as nat) as int);
            }
        }
        if nv0.neg == nv1.neg {
            return BigDec::mul_u(nv0, nv1);
        } else {
            let mut ret = match BigDec::mul_u(nv0, nv1) {
                Ok(nv) => nv,
                Err(err) => {
                    return Err(err);
                },
            };
            ret.neg = true;
            return Ok(ret);
        }
    }

    /// Moves the digits one place up: a multiplication by ten that
    /// discards the topmost digit.
    fn shift_right(&mut self)
        requires
            old(self).wf(),
        ensures
            final(self).wf(),
            final(self).neg == old(self).neg,
            final(self).digits@[0] == 0,
            forall|j: int| 1 <= j < MAX_LEN ==> final(self).digits@[j] == old(self).digits@[j - 1],
            final(self).mag() == 10 * digits_val(old(self).digits@.take(MAX_LEN - 1)),
    {
        digits_shift_up::<MAX_LEN>(&mut self.digits);
    }

    /// Moves the digits one place down: a division by ten that discards
    /// the lowest fractional digit.
    pub fn shift_left(&mut self)
        requires
            old(self).wf(),
        ensures
            final(self).wf(),
            final(self).neg == old(self).neg,
            10 * final(self).mag() + old(self).digits@[0] == old(self).mag(),
    {
        digits_shift_down::<MAX_LEN>(&mut self.digits);
    }
}

/// A quotient and a remainder, as long division returns them.
pub struct DivRet {
    pub quotient: BigDec,
    pub remainder: BigDec,
}

/// The k-th digit of the dividend stream: the digits of a from the most
/// significant end, followed by zeros for the fractional extension.
pub open spec fn stream_digit(a: Seq<u8>, k: int) -> u8 {
    if 0 <= k < a.len() {
        a[a.len() - 1 - k]
    } else {
        0
    }
}

/// The number denoted by the first k digits of the dividend stream.
pub open spec fn stream_val(a: Seq<u8>, k: nat) -> nat
    decreases k,
{
    if k == 0 {
        0
    } else {
        10 * stream_val(a, (k - 1) as nat) + stream_digit(a, k as int - 1) as nat
    }
}

proof fn lemma_stream_val_skip(a: Seq<u8>, k: nat)
    requires
        k <= a.len(),
    ensures
        stream_val(a, k) == digits_val(a.skip(a.len() - k)),
    decreases k,
{
    if k == 0 {
        assert(a.skip(a.len() as int) =~= Seq::<u8>::empty());
    } else {
        lemma_stream_val_skip(a, (k - 1) as nat);
        let s1 = a.skip(a.len() - k);
        assert(s1.drop_first() =~= a.skip(a.len() - (k - 1)));
        assert(s1[0] == a[a.len() - k]);
        assert(stream_digit(a, k as int - 1) == a[a.len() - k]);
        assert(digits_val(s1) == s1[0] + 10 * digits_val(s1.drop_first()));
    }
}

proof fn lemma_stream_val_ext(a: Seq<u8>, k: nat)
    requires
        k >= a.len(),
    ensures
        stream_val(a, k) == digits_val(a) * pow10((k - a.len()) as nat),
    decreases k - a.len(),
{
    if k == a.len() {
        lemma_stream_val_skip(a, k);
        assert(a.skip(0) =~= a);
        assert(digits_val(a) * pow10(0) == digits_val(a)) by (nonlinear_arith)
            requires pow10(0) == 1;
    } else {
        lemma_stream_val_ext(a, (k - 1) as nat);
        assert(stream_digit(a, k as int - 1) == 0);
        let p0 = pow10((k - 1 - a.len()) as nat);
        assert(pow10((k - a.len()) as nat) == 10 * p0);
        assert(10 * (digits_val(a) * p0) == digits_val(a) * (10 * p0)) by (nonlinear_arith);
    }
}

/// What div returns, over signed values in raw digit units: the scaled
/// quotient, truncated to the fractional width; quotient digits beyond the
/// fixed width are discarded.
pub open spec fn spec_div(a: int, b: int) -> Result<int, Error> {
    if b == 0 {
        Err(Error::OpDivideByZero)
    } else {
        let q = ((iabs(a) * pow10(FRAC_LEN as nat)) / iabs(b)) % pow10(MAX_LEN as nat);
        if (a < 0) == (b < 0) {
            Ok(q as int)
        } else {
            Ok(-(q as int))
        }
    }
}

/// What div_mod returns: the integer remainder, with the divisor's sign.
pub open spec fn spec_div_mod(a: int, b: int) -> Result<int, Error> {
    if b == 0 {
        Err(Error::OpDivideByZero)
    } else {
        let m = iabs(a) % iabs(b);
        if b < 0 {
            Ok(-(m as int))
        } else {
            Ok(m as int)
        }
    }
}

impl BigDec {
    /// Schoolbook long division of the magnitudes, most significant digit
    /// first.  With `with_frac` the quotient is extended into the
    /// fractional region; without it the division stops at the integer
    /// boundary and the remainder is exact.
    pub fn div_u(nv0: BigDec, nv1: BigDec, with_frac: bool) -> (r: DivRet)
        requires
            nv0.wf(),
            nv1.wf(),
            nv1.mag() >= 1,
        ensures
            r.quotient.wf(),
            r.remainder.wf(),
            r.quotient.neg == false,
            r.remainder.neg == false,
            with_frac ==> r.quotient.mag() == ((nv0.mag() * pow10(FRAC_LEN as nat)) / nv1.mag())
                % pow10(MAX_LEN as nat),
            !with_frac ==> r.quotient.mag() == ((nv0.mag() / nv1.mag()) % pow10(FRAC_LEN as nat))
                * pow10(FRAC_LEN as nat),
            !with_frac ==> r.remainder.mag() == nv0.mag() % nv1.mag(),
            with_frac ==> r.remainder.mag() == (10 * ((nv0.mag() * pow10(FRAC_LEN as nat))
                % nv1.mag())) % pow10(MAX_LEN as nat),
    {
        let ghost bmag = nv1.mag();
        let ghost a = nv0.digits@;
        let mut tmp: [u8; DIV_LEN] = [0u8; DIV_LEN];
        let mut bx: [u8; DIV_LEN] = [0u8; DIV_LEN];
        let mut ci: usize = 0;
        while ci < MAX_LEN
            invariant
                ci <= MAX_LEN,
                nv1.wf(),
                digits_ok(bx@),
                forall|j: int| 0 <= j < ci ==> bx@[j] == nv1.digits@[j],
                forall|j: int| ci <= j < DIV_LEN ==> bx@[j] == 0,
            decreases MAX_LEN - ci,
        {
            let ghost prev = bx@;
            let v = nv1.digits[ci];
            bx[ci] = v;
            proof {
                assert(bx@ =~= prev.update(ci as int, v));
            }
            ci = ci + 1;
        }
        proof {
            lemma_digits_val_trunc(bx@, MAX_LEN as int);
            assert(bx@.take(MAX_LEN as int) =~= nv1.digits@);
            lemma_digits_val_bound(nv1.digits@);
            lemma_pow10_pos(MAX_LEN as nat);
            vstd::arithmetic::div_mod::lemma_div_of0(bmag as int);
            vstd::arithmetic::div_mod::lemma_small_mod(0, pow10(MAX_LEN as nat));
            vstd::arithmetic::div_mod::lemma_small_mod(0, bmag);
        }
        let t: usize = if with_frac {
            0
        } else {
            FRAC_LEN
        };
        let stop_at: usize = if with_frac {
            MAX_LEN + FRAC_LEN
        } else {
            MAX_LEN
        };
        let mut result = BigDec::zero();
        let mut k: usize = 0;
        proof {
            assert(stream_val(a, 0) == 0);
            assert((stream_val(a, 0) / bmag) == 0);
            assert(0 * pow10(t as nat) == 0) by (nonlinear_arith);
            assert(((stream_val(a, 0) / bmag) * pow10(t as nat)) % pow10(MAX_LEN as nat) == 0);
        }
        while k < stop_at
            invariant
                k <= stop_at,
                with_frac ==> t == 0 && stop_at == MAX_LEN + FRAC_LEN,
                !with_frac ==> t == FRAC_LEN && stop_at == MAX_LEN,
                nv0.wf(),
                nv1.wf(),
                a == nv0.digits@,
                bmag == nv1.mag(),
                bmag >= 1,
                digits_ok(bx@),
                digits_val(bx@) == bmag,
                digits_ok(tmp@),
                k == 0 ==> forall|j: int| 0 <= j < DIV_LEN ==> tmp@[j] == 0,
                k >= 1 ==> digits_val(tmp@) == stream_val(a, k as nat) % bmag,
                result.neg == false,
                digits_ok(result.digits@),
                forall|j: int| 0 <= j < t ==> result.digits@[j] == 0,
                result.mag() == ((stream_val(a, k as nat) / bmag) * pow10(t as nat)) % pow10(
                    MAX_LEN as nat,
                ),
            decreases stop_at - k,
        {
            let ghost pk = stream_val(a, k as nat);
            let ghost qk = pk / bmag;
            let ghost rk = pk % bmag;
            proof {
                vstd::arithmetic::div_mod::lemma_mod_division_less_than_divisor(
                    pk as int,
                    bmag as int,
                );
            }
            if k > 0 {
                proof {
                    lemma_pow10_pos(MAX_LEN as nat);
                    if tmp@[MAX_LEN as int] >= 1 {
                        lemma_digits_val_nonzero(tmp@, MAX_LEN as int);
                        lemma_digits_val_bound(nv1.digits@);
                        assert(false);
                    }
                    lemma_digits_val_trunc(tmp@, MAX_LEN as int);
                }
                let ghost tprev = tmp@;
                digits_shift_up::<DIV_LEN>(&mut tmp);
                proof {
                    assert(digits_val(tmp@) == 10 * digits_val(tprev.take(DIV_LEN - 1)));
                    assert(tprev.take(DIV_LEN - 1) =~= tprev.take(MAX_LEN as int));
                }
            } else {
                proof {
                    lemma_digits_val_zero(tmp@);
                    assert(stream_val(a, 0) == 0);
                    vstd::arithmetic::div_mod::lemma_small_mod(0, bmag);
                    vstd::arithmetic::div_mod::lemma_div_of0(bmag as int);
                }
            }
            let d: u8 = if k < MAX_LEN {
                nv0.digits[MAX_LEN - 1 - k]
            } else {
                0
            };
            proof {
                assert(d == stream_digit(a, k as int));
            }
            let ghost tprev = tmp@;
            proof {
                assert(tprev[0] == 0);
                assert(digits_val(tprev) == 10 * rk);
            }
            tmp[0] = d;
            proof {
                assert(tmp@ =~= tprev.update(0, d));
                lemma_digits_val_update(tprev, 0, d);
                assert(pow10(0) == 1);
                assert(digits_val(tmp@) + tprev[0] * pow10(0) == digits_val(tprev) + d * pow10(0));
                assert(tprev[0] * pow10(0) == 0) by (nonlinear_arith)
                    requires tprev[0] == 0;
                assert(d * pow10(0) == d) by (nonlinear_arith)
                    requires pow10(0) == 1;
                assert(digits_val(tmp@) == 10 * rk + d);
            }
            let ghost tstart = digits_val(tmp@);
            let mut counter: u8 = 0;
            while digits_cmp(&tmp, &bx) >= 0
                invariant
                    digits_ok(tmp@),
                    digits_ok(bx@),
                    digits_val(bx@) == bmag,
                    bmag >= 1,
                    counter <= 9,
                    tstart < 10 * bmag,
                    digits_val(tmp@) + counter * bmag == tstart,
                decreases digits_val(tmp@),
            {
                tmp = digits_sub_le(&tmp, &bx);
                proof {
                    assert((counter + 1) * bmag == counter * bmag + bmag) by (nonlinear_arith);
                    if counter >= 9 {
                        assert(false);
                    }
                }
                counter = counter + 1;
            }
            proof {
                vstd::arithmetic::div_mod::lemma_fundamental_div_mod_converse(
                    tstart as int,
                    bmag as int,
                    counter as int,
                    digits_val(tmp@) as int,
                );
                crate::digits::lemma_long_div_step(pk, d as nat, bmag);
                assert(stream_val(a, (k + 1) as nat) == 10 * pk + d);
                assert(stream_val(a, (k + 1) as nat) / bmag == 10 * qk + counter);
                assert(digits_val(tmp@) == stream_val(a, (k + 1) as nat) % bmag);
            }
            let ghost mag_old = result.mag();
            let ghost rold = result.digits@;
            proof {
                lemma_digits_val_take_step(rold, MAX_LEN - 1);
                assert(rold.take(MAX_LEN as int) =~= rold);
                lemma_digits_val_bound(rold.take(MAX_LEN - 1));
                lemma_pow10_pos((MAX_LEN - 1) as nat);
                vstd::arithmetic::div_mod::lemma_fundamental_div_mod_converse(
                    mag_old as int,
                    pow10((MAX_LEN - 1) as nat) as int,
                    rold[MAX_LEN - 1] as int,
                    digits_val(rold.take(MAX_LEN - 1)) as int,
                );
            }
            result.shift_right();
            let ghost mag_shift = result.mag();
            proof {
                assert(mag_shift == 10 * (mag_old % pow10((MAX_LEN - 1) as nat)));
                crate::digits::lemma_quot_register(
                    qk,
                    counter as nat,
                    t as nat,
                    MAX_LEN as nat,
                    mag_old,
                    mag_shift,
                );
            }
            let ghost rprev = result.digits@;
            result.digits[t] = counter;
            proof {
                assert(result.digits@ =~= rprev.update(t as int, counter));
                lemma_digits_val_update(rprev, t as int, counter);
                assert(rprev[t as int] == 0);
                assert(result.mag() == mag_shift + counter * pow10(t as nat));
            }
            k = k + 1;
        }
        proof {
            assert(k == stop_at);
        }
        if with_frac {
            proof {
                lemma_pow10_pos(MAX_LEN as nat);
                if tmp@[MAX_LEN as int] >= 1 {
                    lemma_digits_val_nonzero(tmp@, MAX_LEN as int);
                    lemma_digits_val_bound(nv1.digits@);
                    vstd::arithmetic::div_mod::lemma_mod_division_less_than_divisor(
                        stream_val(a, (MAX_LEN + FRAC_LEN) as nat) as int,
                        bmag as int,
                    );
                    assert(false);
                }
                lemma_digits_val_trunc(tmp@, MAX_LEN as int);
            }
            let ghost tprev = tmp@;
            digits_shift_up::<DIV_LEN>(&mut tmp);
            proof {
                assert(tprev.take(DIV_LEN - 1) =~= tprev.take(MAX_LEN as int));
            }
        }
        let mut rem = BigDec::zero();
        let mut cj: usize = 0;
        while cj < MAX_LEN
            invariant
                cj <= MAX_LEN,
                digits_ok(tmp@),
                digits_ok(rem.digits@),
                rem.neg == false,
                forall|j: int| 0 <= j < cj ==> rem.digits@[j] == tmp@[j],
                forall|j: int| cj <= j < MAX_LEN ==> rem.digits@[j] == 0,
            decreases MAX_LEN - cj,
        {
            let ghost prev = rem.digits@;
            let v = tmp[cj];
            rem.digits[cj] = v;
            proof {
                assert(rem.digits@ =~= prev.update(cj as int, v));
            }
            cj = cj + 1;
        }
        proof {
            assert(rem.digits@ =~= tmp@.take(MAX_LEN as int));
            lemma_digits_val_take_step(tmp@, MAX_LEN as int);
            assert(tmp@.take(DIV_LEN as int) =~= tmp@);
            lemma_digits_val_bound(tmp@.take(MAX_LEN as int));
            lemma_pow10_pos(MAX_LEN as nat);
            vstd::arithmetic::div_mod::lemma_fundamental_div_mod_converse(
                digits_val(tmp@) as int,
                pow10(MAX_LEN as nat) as int,
                tmp@[MAX_LEN as int] as int,
                digits_val(tmp@.take(MAX_LEN as int)) as int,
            );
            vstd::arithmetic::div_mod::lemma_mod_division_less_than_divisor(
                stream_val(a, stop_at as nat) as int,
                bmag as int,
            );
            lemma_digits_val_bound(nv1.digits@);
            if with_frac {
                lemma_stream_val_ext(a, (MAX_LEN + FRAC_LEN) as nat);
                assert(pow10(0) == 1);
                let q = stream_val(a, (MAX_LEN + FRAC_LEN) as nat) / bmag;
                assert(q * pow10(0) == q) by (nonlinear_arith)
                    requires pow10(0) == 1;
            } else {
                lemma_stream_val_skip(a, MAX_LEN as nat);
                assert(a.skip(0) =~= a);
                crate::digits::lemma_mod_pow10_shift(
                    stream_val(a, MAX_LEN as nat) / bmag,
                    FRAC_LEN as nat,
                    MAX_LEN as nat,
                );
                vstd::arithmetic::div_mod::lemma_small_mod(
                    stream_val(a, MAX_LEN as nat) % bmag,
                    pow10(MAX_LEN as nat),
                );
            }
        }
        DivRet { quotient: result, remainder: rem }
    }

    /// Divides two values, extending the quotient into the fractional
    /// region; fails exactly on a zero divisor.
    pub fn div(nv0: BigDec, nv1: BigDec) -> (r: Result<BigDec, Error>)
        requires
            nv0.wf(),
            nv1.wf(),
        ensures
            res_val(r) == spec_div(nv0.val(), nv1.val()),
            res_wf(r),
    {
        if nv1.is_zero() {
            return Err(Error::OpDivideByZero);
        }
        proof {
            lemma_pow10_pos(FRAC_LEN as nat);
            lemma_pow10_pos(MAX_LEN as nat);
            if nv0.mag() == 0 {
                assert(nv0.mag() * pow10(FRAC_LEN as nat) == 0) by (nonlinear_arith)
                    requires nv0.mag() == 0;
                vstd::arithmetic::div_mod::lemma_div_of0(nv1.mag() as int);
                vstd::arithmetic::div_mod::lemma_small_mod(0, pow10(MAX_LEN as nat));
            }
        }
        if nv0.neg {
            if nv1.neg {
                let div_ret = BigDec::div_u(nv0, nv1, true);
                return Ok(div_ret.quotient);
            } else {
                let mut div_ret = BigDec::div_u(nv0, nv1, true);
                div_ret.quotient.neg = true;
                return Ok(div_ret.quotient);
            }
        } else {
            if nv1.neg {
                let mut div_ret = BigDec::div_u(nv0, nv1, true);
                div_ret.quotient.neg = true;
                return Ok(div_ret.quotient);
            } else {
                let div_ret = BigDec::div_u(nv0, nv1, true);
                return Ok(div_ret.quotient);
            }
        }
    }

    /// The integer remainder of the first value by the second, carrying
    /// the divisor's sign; fails exactly on a zero divisor.
    pub fn div_mod(nv0: BigDec, nv1: BigDec) -> (r: Result<BigDec, Error>)
        requires
            nv0.wf(),
            nv1.wf(),
        ensures
            res_val(r) == spec_div_mod(nv0.val(), nv1.val()),
            res_wf(r),
    {
        if nv1.is_zero() {
            return Err(Error::OpDivideByZero);
        }
        if nv1.neg {
            let mut div_ret = BigDec::div_u(nv0, nv1, false);
            div_ret.remainder.neg = true;
            return Ok(div_ret.remainder);
        } else {
            let div_ret = BigDec::div_u(nv0, nv1, false);
            return Ok(div_ret.remainder);
        }
    }
}

/// The factorial of n.
pub open spec fn fact_nat(n: nat) -> nat
    decreases n,
{
    if n == 0 {
        1
    } else {
        n * fact_nat((n - 1) as nat)
    }
}

/// What fact returns: the fractional part is truncated away, the factorial
/// of the integer magnitude is taken, and the original sign is reapplied.
pub open spec fn spec_fact(v: int) -> Result<int, Error> {
    let k = iabs(v) / pow10(FRAC_LEN as nat);
    if v == 0 {
        Ok(pow10(FRAC_LEN as nat) as int)
    } else if k == 0 {
        Ok(0)
    } else if fact_nat(k) < pow10(FRAC_LEN as nat) {
        if v < 0 {
            Ok(-((fact_nat(k) * pow10(FRAC_LEN as nat)) as int))
        } else {
            Ok((fact_nat(k) * pow10(FRAC_LEN as nat)) as int)
        }
    } else {
        Err(Error::OpOverflow)
    }
}

proof fn lemma_fact_pos(n: nat)
    ensures
        fact_nat(n) >= 1,
    decreases n,
{
    if n > 0 {
        lemma_fact_pos((n - 1) as nat);
        assert(n * fact_nat((n - 1) as nat) >= 1) by (nonlinear_arith)
            requires n >= 1, fact_nat((n - 1) as nat) >= 1;
    }
}

impl BigDec {
    /// The factorial of the integer part of n, with n's sign reapplied;
    /// fails exactly when the factorial leaves the integer region.
    pub fn fact(n: BigDec) -> (r: Result<BigDec, Error>)
        requires
            n.wf(),
        ensures
            res_val(r) == spec_fact(n.val()),
            res_wf(r),
    {
        let ghost v0 = n.val();
        let ghost m0 = n.mag();
        let ghost neg0 = n.neg;
        let ghost orig = n.digits@;
        let ghost p20 = pow10(FRAC_LEN as nat);
        proof {
            lemma_pow10_pos(FRAC_LEN as nat);
            lemma_pow10_constants();
        }
        let mut nn = n;
        if nn.is_zero() {
            let one = BigDec::from_i32(1);
            proof {
                assert(one.mag() == p20);
            }
            return Ok(one);
        }
        let ghost k: nat = m0 / p20;
        let mut i: usize = 0;
        while i < FRAC_LEN
            invariant
                i <= FRAC_LEN,
                digits_ok(nn.digits@),
                nn.neg == neg0,
                orig.len() == MAX_LEN,
                forall|j: int| 0 <= j < i ==> nn.digits@[j] == 0,
                forall|j: int| i <= j < MAX_LEN ==> nn.digits@[j] == orig[j],
            decreases FRAC_LEN - i,
        {
            let ghost prev = nn.digits@;
            nn.digits[i] = 0;
            proof {
                assert(nn.digits@ =~= prev.update(i as int, 0u8));
            }
            i = i + 1;
        }
        proof {
            lemma_digits_val_split(nn.digits@, FRAC_LEN as int);
            lemma_digits_val_zero(nn.digits@.take(FRAC_LEN as int));
            assert(nn.digits@.skip(FRAC_LEN as int) =~= orig.skip(FRAC_LEN as int));
            lemma_digits_val_split(orig, FRAC_LEN as int);
            lemma_digits_val_bound(orig.take(FRAC_LEN as int));
            let hi = digits_val(orig.skip(FRAC_LEN as int));
            let lo = digits_val(orig.take(FRAC_LEN as int));
            assert(m0 == hi * p20 + lo) by (nonlinear_arith)
                requires m0 == lo + p20 * hi;
            vstd::arithmetic::div_mod::lemma_fundamental_div_mod_converse(
                m0 as int,
                p20 as int,
                hi as int,
                lo as int,
            );
            assert(nn.mag() == p20 * hi && hi == k);
            assert(p20 * k == k * p20) by (nonlinear_arith);
            lemma_digits_val_bound(orig);
            vstd::arithmetic::div_mod::lemma_multiply_divide_lt(m0 as int, p20 as int, p20 as int);
            assert(k < p20);
        }
        let sign = nn.neg;
        nn.neg = false;
        let one = BigDec::from_i32(1);
        proof {
            assert(one.mag() == p20);
        }
        let mut val = nn;
        let mut m = nn;
        let ghost mut mv: nat = k;
        let ghost mut acc: nat = k;
        proof {
            if k >= 1 {
                assert(fact_nat(k) == k * fact_nat((k - 1) as nat));
            }
        }
        let mut nm1 = BigDec::sub_u(m, one);
        while !nm1.is_zero()
            invariant
                one.wf(),
                one.mag() == p20,
                p20 == pow10(FRAC_LEN as nat),
                p20 >= 1,
                pow10(MAX_LEN as nat) == p20 * p20,
                pow10((MAX_LEN + FRAC_LEN) as nat) == pow10(MAX_LEN as nat) * p20,
                n.val() != 0,
                k == iabs(n.val()) / p20,
                val.wf(),
                m.wf(),
                nm1.wf(),
                val.neg == false,
                m.mag() == mv * p20,
                val.mag() == acc * p20,
                nm1.mag() == iabs(mv as int * p20 - p20),
                k >= 1 ==> 1 <= mv <= k && acc >= 1 && acc < p20 && acc * fact_nat(
                    (mv - 1) as nat,
                ) == fact_nat(k),
                k == 0 ==> mv <= 1 && acc == 0,
            decreases mv + (if mv == 0 { 2int } else { 0int }),
        {
            proof {
                if mv == 1 {
                    assert(iabs(mv as int * p20 - p20) == 0) by (nonlinear_arith)
                        requires mv == 1;
                    assert(false);
                }
            }
            let mul_res = BigDec::mul_u(val, nm1);
            let ghost nm1v: nat = if mv == 0 { 1 } else { (mv - 1) as nat };
            proof {
                assert(nm1.mag() == nm1v * p20) by (nonlinear_arith)
                    requires
                        nm1.mag() == iabs(mv as int * p20 - p20),
                        nm1v == if mv == 0 { 1int } else { mv - 1 },
                        p20 >= 1,
                ;
                assert(val.mag() * nm1.mag() == (acc * nm1v) * (p20 * p20)) by (nonlinear_arith)
                    requires val.mag() == acc * p20, nm1.mag() == nm1v * p20;
            }
            let v2 = match mul_res {
                Ok(v2) => v2,
                Err(err) => {
                    proof {
                        assert(acc * nm1v >= p20) by (nonlinear_arith)
                            requires
                                (acc * nm1v) * (p20 * p20) >= pow10(MAX_LEN as nat) * p20,
                                pow10(MAX_LEN as nat) == p20 * p20,
                                p20 >= 1,
                        ;
                        if k == 0 {
                            assert(acc * nm1v == 0) by (nonlinear_arith)
                                requires acc == 0;
                            assert(false);
                        }
                        assert(mv >= 2);
                        lemma_fact_pos((mv - 2) as nat);
                        assert(fact_nat((mv - 1) as nat) == (mv - 1) * fact_nat((mv - 2) as nat));
                        assert(fact_nat(k) >= acc * nm1v) by (nonlinear_arith)
                            requires
                                acc * fact_nat((mv - 1) as nat) == fact_nat(k),
                                fact_nat((mv - 1) as nat) == (mv - 1) * fact_nat((mv - 2) as nat),
                                fact_nat((mv - 2) as nat) >= 1,
                                nm1v == mv - 1,
                                mv >= 2,
                                acc >= 1,
                        ;
                        assert(fact_nat(k) >= p20);
                    }
                    return Err(err);
                },
            };
            proof {
                assert(val.mag() * nm1.mag() < pow10((MAX_LEN + FRAC_LEN) as nat));
                assert(acc * nm1v < p20) by (nonlinear_arith)
                    requires
                        (acc * nm1v) * (p20 * p20) < pow10(MAX_LEN as nat) * p20,
                        pow10(MAX_LEN as nat) == p20 * p20,
                        p20 >= 1,
                ;
                assert((acc * nm1v) * (p20 * p20) == ((acc * nm1v) * p20) * p20 + 0)
                    by (nonlinear_arith);
                vstd::arithmetic::div_mod::lemma_fundamental_div_mod_converse(
                    (val.mag() * nm1.mag()) as int,
                    p20 as int,
                    ((acc * nm1v) * p20) as int,
                    0,
                );
                assert(v2.mag() == (acc * nm1v) * p20);
                if k >= 1 {
                    assert(mv >= 2);
                    assert((acc * nm1v) * fact_nat((mv - 2) as nat) == fact_nat(k))
                        by (nonlinear_arith)
                        requires
                            acc * fact_nat((mv - 1) as nat) == fact_nat(k),
                            fact_nat((mv - 1) as nat) == (mv - 1) * fact_nat((mv - 2) as nat),
                            nm1v == mv - 1,
                    ;
                    assert(acc * nm1v >= 1) by (nonlinear_arith)
                        requires acc >= 1, nm1v >= 1;
                } else {
                    assert(acc * nm1v == 0) by (nonlinear_arith)
                        requires acc == 0;
                }
            }
            val = v2;
            m = nm1;
            proof {
                acc = acc * nm1v;
                mv = nm1v;
                if k >= 1 {
                    assert(fact_nat((mv - 1) as nat) == (mv - 1) * fact_nat(
                        ((mv - 1) as nat - 1) as nat,
                    ) || mv == 1);
                }
            }
            nm1 = BigDec::sub_u(m, one);
            proof {
                assert(nm1.mag() == iabs(mv as int * p20 - p20));
            }
        }
        proof {
            assert(iabs(mv as int * p20 - p20) == 0);
            if mv != 1 {
                assert(iabs(mv as int * p20 - p20) >= p20) by (nonlinear_arith)
                    requires mv != 1, p20 >= 1;
                assert(false);
            }
            assert(fact_nat(0) == 1);
            if k >= 1 {
                assert((mv - 1) as nat == 0);
                assert(acc * fact_nat(0) == fact_nat(k));
                assert(acc * fact_nat(0) == acc) by (nonlinear_arith)
                    requires fact_nat(0) == 1;
                assert(acc == fact_nat(k));
            }
        }
        let mut ret = val;
        ret.neg = sign;
        proof {
            if k == 0 {
                assert(ret.val() == 0);
            }
        }
        Ok(ret)
    }
}

/// Appends one character to a string.
/// Relies on String::push: it adds exactly that character at the end.
#[verifier::external_body]
pub(crate) fn push_char(s: &mut String, c: char)
    ensures
        final(s)@ == old(s)@.push(c),
{
    s.push(c)
}

/// The display character of one digit: 0-9, then A-F.
pub open spec fn digit_char(d: u8) -> char {
    if d == 0 { '0' }
    else if d == 1 { '1' }
    else if d == 2 { '2' }
    else if d == 3 { '3' }
    else if d == 4 { '4' }
    else if d == 5 { '5' }
    else if d == 6 { '6' }
    else if d == 7 { '7' }
    else if d == 8 { '8' }
    else if d == 9 { '9' }
    else if d == 10 { 'A' }
    else if d == 11 { 'B' }
    else if d == 12 { 'C' }
    else if d == 13 { 'D' }
    else if d == 14 { 'E' }
    else { 'F' }
}

/// The display character of one digit, 0-9 then A-F for hexadecimal.
pub fn char_from_digit(digit: u8) -> (c: char)
    requires
        digit <= 15,
    ensures
        c == digit_char(digit),
{
    match digit {
        0 => '0',
        1 => '1',
        2 => '2',
        3 => '3',
        4 => '4',
        5 => '5',
        6 => '6',
        7 => '7',
        8 => '8',
        9 => '9',
        10 => 'A',
        11 => 'B',
        12 => 'C',
        13 => 'D',
        14 => 'E',
        _ => 'F',
    }
}

/// The first fractional position holding a nonzero digit, scanning up from
/// i; FRAC_LEN when the whole fractional region from i on is zero.
pub open spec fn start_from(s: Seq<u8>, i: int) -> int
    decreases FRAC_LEN - i,
{
    if i < 0 || i >= FRAC_LEN {
        FRAC_LEN as int
    } else if s[i] != 0 {
        i
    } else {
        start_from(s, i + 1)
    }
}

/// One past the last nonzero integer digit, scanning down from i, but
/// never below FRAC_LEN + 1.
pub open spec fn stop_from(s: Seq<u8>, i: int) -> int
    decreases i,
{
    if i <= FRAC_LEN + 1 {
        FRAC_LEN + 1
    } else if s[i - 1] != 0 {
        i
    } else {
        stop_from(s, i - 1)
    }
}

/// The digits of s from position hi - 1 down to position lo, as display
/// characters.
pub open spec fn rev_chars(s: Seq<u8>, lo: int, hi: int) -> Seq<char>
    decreases hi - lo,
{
    if hi <= lo {
        Seq::empty()
    } else {
        seq![digit_char(s[hi - 1])] + rev_chars(s, lo, hi - 1)
    }
}

proof fn lemma_rev_chars_split(s: Seq<u8>, lo: int, mid: int, hi: int)
    requires
        lo <= mid <= hi,
    ensures
        rev_chars(s, lo, hi) == rev_chars(s, mid, hi) + rev_chars(s, lo, mid),
    decreases hi - mid,
{
    if mid == hi {
        assert(rev_chars(s, mid, hi) =~= Seq::<char>::empty());
        assert(rev_chars(s, lo, hi) =~= rev_chars(s, mid, hi) + rev_chars(s, lo, mid));
    } else {
        lemma_rev_chars_split(s, lo, mid, hi - 1);
        assert(rev_chars(s, lo, hi) =~= rev_chars(s, mid, hi) + rev_chars(s, lo, mid));
    }
}

/// The decimal rendering of a sign flag and a digit vector: the integer
/// window down to the fractional window, trimmed of outer zeros, with a
/// point only if fractional digits show and a sign only if nonzero.
pub open spec fn spec_render(neg: bool, s: Seq<u8>) -> Seq<char> {
    let start = start_from(s, 0);
    let stop = stop_from(s, s.len() as int);
    if digits_val(s) == 0 {
        seq!['0']
    } else {
        let sign: Seq<char> = if neg {
            seq!['-']
        } else {
            Seq::empty()
        };
        let fracs: Seq<char> = if start < FRAC_LEN {
            seq!['.'] + rev_chars(s, start, FRAC_LEN as int)
        } else {
            Seq::empty()
        };
        sign + rev_chars(s, FRAC_LEN as int, stop) + fracs
    }
}

/// The trimmed display window of a digit vector: the first nonzero
/// fractional position and one past the last nonzero integer position.
fn find_bounds(digits: &[u8; MAX_LEN]) -> (r: (usize, usize))
    ensures
        r.0 == start_from(digits@, 0),
        r.1 == stop_from(digits@, MAX_LEN as int),
        r.0 <= FRAC_LEN,
        FRAC_LEN + 1 <= r.1 <= MAX_LEN,
{
    let mut start_at: usize = 0;
    while start_at < FRAC_LEN && digits[start_at] == 0
        invariant
            start_at <= FRAC_LEN,
            start_from(digits@, 0) == start_from(digits@, start_at as int),
        decreases FRAC_LEN - start_at,
    {
        start_at = start_at + 1;
    }
    let mut stop_at: usize = MAX_LEN;
    while stop_at > FRAC_LEN + 1 && digits[stop_at - 1] == 0
        invariant
            FRAC_LEN + 1 <= stop_at <= MAX_LEN,
            stop_from(digits@, MAX_LEN as int) == stop_from(digits@, stop_at as int),
        decreases stop_at,
    {
        stop_at = stop_at - 1;
    }
    (start_at, stop_at)
}

impl BigDec {
    /// Renders the value in decimal: the integer digits, then a point and
    /// the fractional digits if any are nonzero, with outer zeros trimmed;
    /// zero renders as "0" whatever the sign flag.
    pub fn to_string(&self) -> (r: String)
        requires
            crate::digits::hex_ok(self.digits@),
        ensures
            r@ == spec_render(self.neg, self.digits@),
    {
        let s = self.digits;
        let ghost sq = self.digits@;
        let (start_at, stop_at) = find_bounds(&self.digits);
        let mut ret = String::new();
        if self.is_zero() {
            push_char(&mut ret, '0');
            proof {
                assert(ret@ =~= seq!['0']);
            }
            return ret;
        }
        let ghost sign: Seq<char> = if self.neg {
            seq!['-']
        } else {
            Seq::empty()
        };
        if self.neg {
            push_char(&mut ret, '-');
        }
        proof {
            assert(ret@ =~= sign);
            assert(rev_chars(sq, stop_at as int, stop_at as int) =~= Seq::<char>::empty());
            assert(ret@ =~= sign + rev_chars(sq, stop_at as int, stop_at as int));
        }
        let mut i: usize = stop_at;
        while i > FRAC_LEN
            invariant
                FRAC_LEN <= i <= stop_at <= MAX_LEN,
                crate::digits::hex_ok(sq),
                sq == self.digits@,
                self.digits@.len() == MAX_LEN,
                ret@ == sign + rev_chars(sq, i as int, stop_at as int),
            decreases i,
        {
            let c = char_from_digit(self.digits[i - 1]);
            push_char(&mut ret, c);
            proof {
                lemma_rev_chars_split(sq, i - 1, i as int, stop_at as int);
                assert(rev_chars(sq, i - 1, i - 1) =~= Seq::<char>::empty());
                assert(rev_chars(sq, i - 1, i as int) =~= seq![digit_char(sq[i - 1])]);
                assert(ret@ =~= sign + rev_chars(sq, i - 1, stop_at as int));
            }
            i = i - 1;
        }
        if start_at < FRAC_LEN {
            push_char(&mut ret, '.');
            proof {
                assert(rev_chars(sq, FRAC_LEN as int, FRAC_LEN as int) =~= Seq::<char>::empty());
                assert(ret@ =~= sign + rev_chars(sq, FRAC_LEN as int, stop_at as int) + seq!['.']
                    + rev_chars(sq, FRAC_LEN as int, FRAC_LEN as int));
            }
            let mut j: usize = FRAC_LEN;
            while j > start_at
                invariant
                    start_at <= j <= FRAC_LEN,
                    crate::digits::hex_ok(sq),
                    sq == self.digits@,
                    self.digits@.len() == MAX_LEN,
                    ret@ == sign + rev_chars(sq, FRAC_LEN as int, stop_at as int) + seq!['.']
                        + rev_chars(sq, j as int, FRAC_LEN as int),
                decreases j,
            {
                let c = char_from_digit(self.digits[j - 1]);
                push_char(&mut ret, c);
                proof {
                    lemma_rev_chars_split(sq, j - 1, j as int, FRAC_LEN as int);
                    assert(rev_chars(sq, j - 1, j - 1) =~= Seq::<char>::empty());
                    assert(rev_chars(sq, j - 1, j as int) =~= seq![digit_char(sq[j - 1])]);
                    assert(ret@ =~= sign + rev_chars(sq, FRAC_LEN as int, stop_at as int)
                        + seq!['.'] + rev_chars(sq, j - 1, FRAC_LEN as int));
                }
                j = j - 1;
            }
            proof {
                assert(ret@ =~= spec_render(self.neg, sq));
            }
        } else {
            proof {
                assert(ret@ =~= spec_render(self.neg, sq));
            }
        }
        ret
    }
}

impl DivRet {
    /// Renders the quotient and the remainder, separated by a tilde.
    pub fn to_string(&self) -> (r: String)
        requires
            crate::digits::hex_ok(self.quotient.digits@),
            crate::digits::hex_ok(self.remainder.digits@),
        ensures
            r@ == spec_render(self.quotient.neg, self.quotient.digits@) + seq!['~'] + spec_render(
                self.remainder.neg,
                self.remainder.digits@,
            ),
    {
        let q = self.quotient.to_string();
        let r = self.remainder.to_string();
        let mut ret = q;
        push_char(&mut ret, '~');
        ret.append(r.as_str());
        proof {
            assert(ret@ =~= spec_render(self.quotient.neg, self.quotient.digits@) + seq!['~']
                + spec_render(self.remainder.neg, self.remainder.digits@));
        }
        ret
    }
}

/// Whether c is a decimal digit.
pub open spec fn is_dec_digit(c: char) -> bool {
    48 <= c as u32 <= 57
}

/// The value of a decimal digit character.
pub open spec fn dec_digit_val(c: char) -> u8 {
    (c as u32 - 48) as u8
}

/// Whether c is a hexadecimal digit, in either letter case.
pub open spec fn is_hex_digit(c: char) -> bool {
    is_dec_digit(c) || 97 <= c as u32 <= 102 || 65 <= c as u32 <= 70
}

/// The value of a hexadecimal digit character.
pub open spec fn hex_digit_val(c: char) -> u8 {
    if is_dec_digit(c) {
        dec_digit_val(c)
    } else if 97 <= c as u32 {
        (c as u32 - 87) as u8
    } else {
        (c as u32 - 55) as u8
    }
}

/// The digit value of c in base ten, or in base sixteen when `hexa` holds.
fn to_digit_in_radix(c: char, hexa: bool) -> (r: Option<u8>)
    ensures
        r == if hexa {
            if is_hex_digit(c) {
                Some(hex_digit_val(c))
            } else {
                None::<u8>
            }
        } else {
            if is_dec_digit(c) {
                Some(dec_digit_val(c))
            } else {
                None::<u8>
            }
        },
{
    let x = c as u32;
    if x >= 48 && x <= 57 {
        Some((x - 48) as u8)
    } else if hexa && x >= 97 && x <= 102 {
        Some((x - 87) as u8)
    } else if hexa && x >= 65 && x <= 70 {
        Some((x - 55) as u8)
    } else {
        None
    }
}

/// The running state of the number scanner.
pub ghost struct PState {
    pub digs: Seq<u8>,
    pub shift_count: nat,
    pub dot_found: bool,
    pub sep_found: bool,
    pub radix: nat,
    pub radix_found: bool,
    pub frac_index: int,
    pub first_zero: bool,
}

/// How the number scanner's loop ends: at a stopping character with a
/// final state, or with a parse error.
pub ghost enum LoopEnd {
    Done { st: PState, end: int },
    Fail { err: Error },
}

/// What parse returns: a magnitude in raw digit units and the position of
/// the first unconsumed character, or an error.
pub ghost enum ParseRes {
    Num { v: nat, end: int },
    Fail { err: Error },
}

/// All digits moved one place up, the topmost discarded, and d placed at
/// the lowest integer position.
pub open spec fn shift_insert(s: Seq<u8>, d: u8) -> Seq<u8> {
    Seq::new(
        s.len(),
        |i: int|
            if i == 0 {
                0u8
            } else if i == FRAC_LEN {
                d
            } else {
                s[i - 1]
            },
    )
}

/// One step of the number scanner per input character, mirroring exactly
/// how digits, the radix markers, the point and the separator drive it.
pub open spec fn parse_loop(chars: Seq<char>, i: int, st: PState) -> LoopEnd
    decreases chars.len() - i,
{
    if i < 0 || i >= chars.len() {
        LoopEnd::Done { st, end: i }
    } else {
        let c = chars[i];
        if c == 'x' {
            if !st.radix_found && st.shift_count == 1 && st.first_zero {
                parse_loop(chars, i + 1, PState { radix: 16, radix_found: true, ..st })
            } else {
                LoopEnd::Fail { err: Error::ParseBadChar }
            }
        } else if c == 'b' {
            if !st.radix_found && st.shift_count == 1 && st.first_zero {
                parse_loop(chars, i + 1, PState { radix: 2, radix_found: true, ..st })
            } else {
                LoopEnd::Fail { err: Error::ParseBadChar }
            }
        } else if c == '.' {
            if st.dot_found {
                LoopEnd::Done { st, end: i }
            } else {
                parse_loop(chars, i + 1, PState { dot_found: true, ..st })
            }
        } else if c == '_' {
            if st.sep_found {
                LoopEnd::Fail { err: Error::ParseBadChar }
            } else {
                parse_loop(chars, i + 1, PState { sep_found: true, ..st })
            }
        } else if st.radix == 10 || st.radix == 16 {
            let okd = if st.radix == 16 {
                is_hex_digit(c)
            } else {
                is_dec_digit(c)
            };
            if !okd {
                LoopEnd::Done { st, end: i }
            } else {
                let d = if st.radix == 16 {
                    hex_digit_val(c)
                } else {
                    dec_digit_val(c)
                };
                if !st.dot_found {
                    if st.shift_count == INT_LEN {
                        LoopEnd::Fail { err: Error::ParseIntPartOverflow }
                    } else {
                        parse_loop(
                            chars,
                            i + 1,
                            PState {
                                digs: shift_insert(st.digs, d),
                                shift_count: st.shift_count + 1,
                                sep_found: false,
                                ..st
                            },
                        )
                    }
                } else {
                    if st.frac_index == 0 {
                        LoopEnd::Fail { err: Error::ParseFracPartOverflow }
                    } else {
                        parse_loop(
                            chars,
                            i + 1,
                            PState {
                                digs: st.digs.update(st.frac_index - 1, d),
                                frac_index: st.frac_index - 1,
                                sep_found: false,
                                ..st
                            },
                        )
                    }
                }
            }
        } else {
            if c == '0' || c == '1' {
                let d: u8 = if c == '1' {
                    1
                } else {
                    0
                };
                match bin_step(st.digs, d) {
                    Err(e) => LoopEnd::Fail { err: e },
                    Ok(digs2) => parse_loop(
                        chars,
                        i + 1,
                        PState { digs: digs2, sep_found: false, ..st },
                    ),
                }
            } else {
                LoopEnd::Done { st, end: i }
            }
        }
    }
}

/// One binary digit shifted into the register: the value doubles and the
/// digit is added, with the overflow behaviour of mul and add.
pub open spec fn bin_step(s: Seq<u8>, d: u8) -> Result<Seq<u8>, Error> {
    match spec_mul(digits_val(s) as int, (2 * pow10(FRAC_LEN as nat)) as int) {
        Err(e) => Err(e),
        Ok(mv) => match spec_add(mv, (d * pow10(FRAC_LEN as nat)) as int) {
            Err(e) => Err(e),
            Ok(sv) => Ok(crate::digits::nat_to_digits(sv as nat, MAX_LEN as nat)),
        },
    }
}

/// One past the topmost nonzero integer digit of a hex-digit vector, but
/// never below FRAC_LEN.
pub open spec fn hex_stop(s: Seq<u8>, i: int) -> int
    decreases i,
{
    if i <= FRAC_LEN {
        FRAC_LEN as int
    } else if s[i - 1] != 0 {
        i
    } else {
        hex_stop(s, i - 1)
    }
}

/// The accumulation that converts hexadecimal digits back to a decimal
/// magnitude: each step adds digit times the running power of sixteen and
/// advances that power, with exactly the overflow behaviour of mul and add.
pub open spec fn hex_accum(s: Seq<u8>, i: int, limit: int, comp: nat, p16: nat) -> Result<
    nat,
    Error,
>
    decreases limit - i,
{
    if i >= limit {
        Ok(comp)
    } else {
        let d = s[i] as nat;
        match spec_mul((d * pow10(FRAC_LEN as nat)) as int, (p16 * pow10(FRAC_LEN as nat)) as int) {
            Err(e) => Err(e),
            Ok(mv) => match spec_add(comp as int, mv) {
                Err(e) => Err(e),
                Ok(c2) => match spec_mul(
                    (p16 * pow10(FRAC_LEN as nat)) as int,
                    (16 * pow10(FRAC_LEN as nat)) as int,
                ) {
                    Err(e) => Err(e),
                    Ok(_) => hex_accum(s, i + 1, limit, c2 as nat, 16 * p16),
                },
            },
        }
    }
}

/// The hexadecimal conversion can only fail with an arithmetic overflow.
pub proof fn lemma_hex_accum_overflow_only(s: Seq<u8>, i: int, limit: int, comp: nat, p16: nat)
    ensures
        hex_accum(s, i, limit, comp, p16) is Err ==> hex_accum(s, i, limit, comp, p16)
            == Err::<nat, Error>(Error::OpOverflow),
    decreases limit - i,
{
    if i < limit {
        let d = s[i] as nat;
        match spec_mul((d * pow10(FRAC_LEN as nat)) as int, (p16 * pow10(FRAC_LEN as nat)) as int) {
            Err(e) => {},
            Ok(mv) => match spec_add(comp as int, mv) {
                Err(e) => {},
                Ok(c2) => match spec_mul(
                    (p16 * pow10(FRAC_LEN as nat)) as int,
                    (16 * pow10(FRAC_LEN as nat)) as int,
                ) {
                    Err(e) => {},
                    Ok(_) => {
                        lemma_hex_accum_overflow_only(s, i + 1, limit, c2 as nat, 16 * p16);
                    },
                },
            },
        }
    }
}

/// What converting a hex-digit vector to decimal yields.
pub open spec fn spec_hex_to_dec(s: Seq<u8>) -> Result<nat, Error> {
    hex_accum(s, FRAC_LEN as int, hex_stop(s, MAX_LEN as int), 0, 1)
}

/// Maps how the scanner's loop ended to the parse result, converting
/// collected hexadecimal digits to decimal at the end.
pub open spec fn parse_finish(le: LoopEnd) -> ParseRes {
    match le {
        LoopEnd::Fail { err } => ParseRes::Fail { err },
        LoopEnd::Done { st, end } => {
            if st.radix == 16 {
                match spec_hex_to_dec(st.digs) {
                    Ok(m) => ParseRes::Num { v: m, end },
                    Err(e) => ParseRes::Fail { err: e },
                }
            } else {
                ParseRes::Num { v: digits_val(st.digs), end }
            }
        },
    }
}

/// What parsing a number from position i on yields.
pub open spec fn spec_parse(chars: Seq<char>, i: int) -> ParseRes {
    if i < 0 || i >= chars.len() {
        ParseRes::Fail { err: Error::ParseNothing }
    } else if !is_dec_digit(chars[i]) {
        ParseRes::Fail { err: Error::ParseNothing }
    } else {
        let d0 = dec_digit_val(chars[i]);
        let st0 = PState {
            digs: Seq::new(MAX_LEN as nat, |j: int| 0u8).update(FRAC_LEN as int, d0),
            shift_count: 1,
            dot_found: false,
            sep_found: false,
            radix: 10,
            radix_found: false,
            frac_index: FRAC_LEN as int,
            first_zero: d0 == 0,
        };
        parse_finish(parse_loop(chars, i + 1, st0))
    }
}

impl BigDec {
    /// Converts a vector of hexadecimal digits, as the parser collects
    /// them, into the decimal magnitude they denote, by multiply-and-add
    /// over rising powers of sixteen.
    fn hex_to_dec(&self) -> (r: Result<BigDec, Error>)
        requires
            crate::digits::hex_ok(self.digits@),
        ensures
            match r {
                Ok(v) => v.wf() && v.val() >= 0 && spec_hex_to_dec(self.digits@) == Ok::<
                    nat,
                    Error,
                >(v.val() as nat),
                Err(e) => spec_hex_to_dec(self.digits@) == Err::<nat, Error>(e),
            },
    {
        let ghost s = self.digits@;
        let mut limit: usize = MAX_LEN;
        while limit > FRAC_LEN && self.digits[limit - 1] == 0
            invariant
                FRAC_LEN <= limit <= MAX_LEN,
                s == self.digits@,
                hex_stop(s, MAX_LEN as int) == hex_stop(s, limit as int),
            decreases limit,
        {
            limit = limit - 1;
        }
        proof {
            assert(hex_stop(s, MAX_LEN as int) == limit);
        }
        let mut comp_result = BigDec::zero();
        let sixteen = BigDec::from_i32(16);
        let mut power_of_16 = BigDec::from_i32(1);
        let ghost p20 = pow10(FRAC_LEN as nat);
        proof {
            lemma_pow10_pos(FRAC_LEN as nat);
            assert(sixteen.mag() == 16 * p20);
            assert(power_of_16.mag() == 1 * p20);
        }
        let mut i: usize = FRAC_LEN;
        let mut gcomp: Ghost<nat> = Ghost(0nat);
        let mut gp: Ghost<nat> = Ghost(1nat);
        while i < limit
            invariant
                FRAC_LEN <= i <= limit <= MAX_LEN,
                s == self.digits@,
                crate::digits::hex_ok(s),
                p20 == pow10(FRAC_LEN as nat),
                hex_stop(s, MAX_LEN as int) == limit as int,
                sixteen.wf(),
                sixteen.val() == (16 * p20) as int,
                comp_result.wf(),
                power_of_16.wf(),
                comp_result.mag() == gcomp@,
                comp_result.val() == gcomp@ as int,
                power_of_16.mag() == gp@ * p20,
                power_of_16.val() == (gp@ * p20) as int,
                hex_accum(s, FRAC_LEN as int, limit as int, 0, 1) == hex_accum(
                    s,
                    i as int,
                    limit as int,
                    gcomp@,
                    gp@,
                ),
            decreases limit - i,
        {
            let digit = self.digits[i];
            let bd_digit = BigDec::from_i32(digit as i32);
            proof {
                assert(bd_digit.mag() == (digit as nat) * p20);
                assert(bd_digit.val() == ((digit as nat) * p20) as int);
            }
            proof {
                lemma_pow10_pos(FRAC_LEN as nat);
            }
            let mul = match BigDec::mul(bd_digit, power_of_16) {
                Ok(m) => m,
                Err(e) => {
                    return Err(e);
                },
            };
            proof {
                let d = s[i as int] as nat;
                let mv = spec_mul((d * p20) as int, (gp@ * p20) as int);
                assert(mul.val() == mv->Ok_0);
            }
            let new_comp = match BigDec::add(comp_result, mul) {
                Ok(cc) => cc,
                Err(e) => {
                    return Err(e);
                },
            };
            let new_p16 = match BigDec::mul(power_of_16, sixteen) {
                Ok(p) => p,
                Err(e) => {
                    return Err(e);
                },
            };
            proof {
                let d = s[i as int] as nat;
                let mv = spec_mul((d * p20) as int, (gp@ * p20) as int);
                assert(mul.val() == mv->Ok_0);
                assert(new_comp.val() == gcomp@ + mv->Ok_0);
                assert(new_comp.mag() == new_comp.val());
                let pv = spec_mul((gp@ * p20) as int, (16 * p20) as int);
                assert(new_p16.val() == pv->Ok_0);
                assert(iabs((gp@ * p20) as int) * iabs((16 * p20) as int) == (gp@ * 16) * (p20
                    * p20)) by (nonlinear_arith);
                assert((gp@ * 16) * (p20 * p20) == ((16 * gp@) * p20) * p20 + 0)
                    by (nonlinear_arith);
                vstd::arithmetic::div_mod::lemma_fundamental_div_mod_converse(
                    (iabs((gp@ * p20) as int) * iabs((16 * p20) as int)) as int,
                    p20 as int,
                    ((16 * gp@) * p20) as int,
                    0,
                );
                assert(new_p16.val() == ((16 * gp@) * p20) as int);
                assert(new_p16.mag() == (16 * gp@) * p20);
            }
            comp_result = new_comp;
            power_of_16 = new_p16;
            proof {
                gcomp@ = comp_result.mag();
                gp@ = 16 * gp@;
            }
            i = i + 1;
        }
        Ok(comp_result)
    }
}

impl BigDec {
    /// Parses a non-negative number from `chars` starting at `pos`,
    /// leaving `pos` on the first unconsumed character.  Digits may be
    /// grouped with single underscores; a leading `0x` or `0b` switches to
    /// hexadecimal or binary; one point starts the fractional part.
    /// Shifts the register one digit up and puts d at the lowest integer
    /// position, as each new integer digit of a literal arrives.
    pub(crate) fn push_int_digit(&mut self, d: u8)
        ensures
            final(self).digits@ == shift_insert(old(self).digits@, d),
            final(self).neg == old(self).neg,
            digits_ok(old(self).digits@) && d <= 9 ==> digits_ok(final(self).digits@),
            crate::digits::hex_ok(old(self).digits@) && d <= 15 ==> crate::digits::hex_ok(
                final(self).digits@,
            ),
    {
        digits_shift_up::<MAX_LEN>(&mut self.digits);
        let ghost shifted = self.digits@;
        self.digits[FRAC_LEN] = d;
        proof {
            assert(self.digits@ =~= shift_insert(old(self).digits@, d));
            if digits_ok(old(self).digits@) && d <= 9 {
                assert forall|j: int| 0 <= j < MAX_LEN implies self.digits@[j] <= 9 by {}
            }
            if crate::digits::hex_ok(old(self).digits@) && d <= 15 {
                assert forall|j: int| 0 <= j < MAX_LEN implies self.digits@[j] <= 15 by {}
            }
        }
    }

    /// Places d at the fractional position idx, as each new fractional
    /// digit of a literal arrives.
    pub(crate) fn set_frac_digit(&mut self, idx: usize, d: u8)
        requires
            idx < FRAC_LEN,
        ensures
            final(self).digits@ == old(self).digits@.update(idx as int, d),
            final(self).neg == old(self).neg,
            digits_ok(old(self).digits@) && d <= 9 ==> digits_ok(final(self).digits@),
            crate::digits::hex_ok(old(self).digits@) && d <= 15 ==> crate::digits::hex_ok(
                final(self).digits@,
            ),
    {
        let ghost before = self.digits@;
        self.digits[idx] = d;
        proof {
            assert(self.digits@ =~= before.update(idx as int, d));
        }
    }

    /// Doubles the register and adds one binary digit, as each bit of a
    /// binary literal arrives.
    fn push_bin_digit(&mut self, d: u8) -> (r: Result<(), Error>)
        requires
            old(self).wf(),
            old(self).neg == false,
            d <= 1,
        ensures
            match r {
                Ok(_) => final(self).wf() && final(self).neg == false && bin_step(
                    old(self).digits@,
                    d,
                ) == Ok::<Seq<u8>, Error>(final(self).digits@),
                Err(e) => bin_step(old(self).digits@, d) == Err::<Seq<u8>, Error>(e),
            },
    {
        let two = BigDec::from_i32(2);
        let bdd = BigDec::from_i32(d as i32);
        let ghost p20 = pow10(FRAC_LEN as nat);
        proof {
            lemma_pow10_pos(FRAC_LEN as nat);
            assert(two.mag() == 2 * p20);
            assert(bdd.mag() == (d as nat) * p20);
        }
        let m1 = match BigDec::mul_u(*self, two) {
            Ok(nv) => nv,
            Err(err) => {
                return Err(err);
            },
        };
        let m2 = match BigDec::add_u(m1, bdd) {
            Ok(nv) => nv,
            Err(err) => {
                return Err(err);
            },
        };
        proof {
            assert(m1.mag() == (old(self).mag() * (2 * p20)) / p20);
            assert(m2.mag() == m1.mag() + (d as nat) * p20);
            crate::digits::lemma_digits_canonical(m2.digits@);
        }
        *self = m2;
        Ok(())
    }

    #[verifier::rlimit(100)]
    pub fn parse_chars(chars: &Vec<char>, pos: &mut usize) -> (r: Result<BigDec, Error>)
        requires
            *old(pos) <= chars@.len(),
        ensures
            *old(pos) <= *final(pos) <= chars@.len(),
            match r {
                Ok(v) => v.wf() && v.val() >= 0 && *final(pos) > *old(pos) && spec_parse(
                    chars@,
                    *old(pos) as int,
                ) == (ParseRes::Num { v: v.val() as nat, end: *final(pos) as int }),
                Err(e) => spec_parse(chars@, *old(pos) as int) == (ParseRes::Fail { err: e }) && (e
                    is ParseNothing ==> *final(pos) == *old(pos)),
            },
    {
        let ghost i0 = *pos as int;
        if *pos >= chars.len() {
            return Err(Error::ParseNothing);
        }
        let c0 = chars[*pos];
        let first_digit: u8 = match to_digit_in_radix(c0, false) {
            Some(d) => d,
            None => {
                return Err(Error::ParseNothing);
            },
        };
        *pos = *pos + 1;
        let mut val = BigDec::zero();
        let ghost zeros = val.digits@;
        val.digits[FRAC_LEN] = first_digit;
        let mut shift_count: usize = 1;
        let mut dot_found = false;
        let mut sep_found = false;
        let mut radix: u32 = 10;
        let mut radix_found = false;
        let mut frac_index: usize = FRAC_LEN;
        proof {
            assert(zeros =~= Seq::new(MAX_LEN as nat, |j: int| 0u8));
            assert(val.digits@ =~= Seq::new(MAX_LEN as nat, |j: int| 0u8).update(
                FRAC_LEN as int,
                first_digit,
            ));
        }
        let mut done = false;
        while !done && *pos < chars.len()
            invariant
                i0 == *old(pos),
                i0 + 1 <= *pos <= chars@.len(),
                crate::digits::hex_ok(val.digits@),
                radix == 2 || radix == 10 || radix == 16,
                radix != 10 ==> radix_found,
                radix == 2 || radix == 10 ==> val.wf(),
                val.neg == false,
                1 <= shift_count <= INT_LEN,
                frac_index <= FRAC_LEN,
                !done ==> spec_parse(chars@, i0) == parse_finish(
                    parse_loop(
                        chars@,
                        *pos as int,
                        (PState {
                            digs: val.digits@,
                            shift_count: shift_count as nat,
                            dot_found: dot_found,
                            sep_found: sep_found,
                            radix: radix as nat,
                            radix_found: radix_found,
                            frac_index: frac_index as int,
                            first_zero: first_digit == 0,
                        }),
                    ),
                ),
                done ==> spec_parse(chars@, i0) == parse_finish(
                    (LoopEnd::Done {
                        st: PState {
                            digs: val.digits@,
                            shift_count: shift_count as nat,
                            dot_found: dot_found,
                            sep_found: sep_found,
                            radix: radix as nat,
                            radix_found: radix_found,
                            frac_index: frac_index as int,
                            first_zero: first_digit == 0,
                        },
                        end: *pos as int,
                    }),
                ),
            decreases chars@.len() - *pos + (if done {
                0int
            } else {
                1int
            }),
        {
            let ghost stc = PState {
                digs: val.digits@,
                shift_count: shift_count as nat,
                dot_found: dot_found,
                sep_found: sep_found,
                radix: radix as nat,
                radix_found: radix_found,
                frac_index: frac_index as int,
                first_zero: first_digit == 0,
            };
            let ghost p0 = *pos as int;
            let c = chars[*pos];
            if c == 'x' {
                if !radix_found && shift_count == 1 && first_digit == 0 {
                    radix = 16;
                    radix_found = true;
                } else {
                    proof {
                        assert(parse_loop(chars@, p0, stc) == (LoopEnd::Fail {
                            err: Error::ParseBadChar,
                        }));
                    }
                    return Err(Error::ParseBadChar);
                }
            } else if c == 'b' {
                if !radix_found && shift_count == 1 && first_digit == 0 {
                    radix = 2;
                    radix_found = true;
                } else {
                    proof {
                        assert(parse_loop(chars@, p0, stc) == (LoopEnd::Fail {
                            err: Error::ParseBadChar,
                        }));
                    }
                    return Err(Error::ParseBadChar);
                }
            } else if c == '.' {
                if dot_found {
                    done = true;
                } else {
                    dot_found = true;
                }
            } else if c == '_' {
                if sep_found {
                    proof {
                        assert(parse_loop(chars@, p0, stc) == (LoopEnd::Fail {
                            err: Error::ParseBadChar,
                        }));
                    }
                    return Err(Error::ParseBadChar);
                }
                sep_found = true;
            } else if radix == 10 || radix == 16 {
                match to_digit_in_radix(c, radix == 16) {
                    None => {
                        done = true;
                    },
                    Some(digit32) => {
                        proof {
                            if radix == 10 {
                                assert(digit32 <= 9);
                            }
                            assert(digit32 <= 15);
                        }
                        sep_found = false;
                        if !dot_found {
                            if shift_count == INT_LEN {
                                proof {
                                    assert(parse_loop(chars@, p0, stc) == (LoopEnd::Fail {
                                        err: Error::ParseIntPartOverflow,
                                    }));
                                }
                                return Err(Error::ParseIntPartOverflow);
                            }
                            val.push_int_digit(digit32);
                            shift_count = shift_count + 1;
                        } else {
                            if frac_index == 0 {
                                proof {
                                    assert(parse_loop(chars@, p0, stc) == (LoopEnd::Fail {
                                        err: Error::ParseFracPartOverflow,
                                    }));
                                }
                                return Err(Error::ParseFracPartOverflow);
                            }
                            frac_index = frac_index - 1;
                            val.set_frac_digit(frac_index, digit32);
                        }
                    },
                }
            } else {
                if c == '0' || c == '1' {
                    let digit32: u8 = if c == '1' {
                        1
                    } else {
                        0
                    };
                    sep_found = false;
                    match val.push_bin_digit(digit32) {
                        Ok(_) => {
                        },
                        Err(err) => {
                            proof {
                                assert(parse_loop(chars@, p0, stc) == (LoopEnd::Fail { err }));
                            }
                            return Err(err);
                        },
                    }
                } else {
                    done = true;
                }
            }
            if !done {
                *pos = *pos + 1;
                proof {
                    assert(parse_loop(chars@, p0, stc) == parse_loop(
                        chars@,
                        *pos as int,
                        (PState {
                            digs: val.digits@,
                            shift_count: shift_count as nat,
                            dot_found: dot_found,
                            sep_found: sep_found,
                            radix: radix as nat,
                            radix_found: radix_found,
                            frac_index: frac_index as int,
                            first_zero: first_digit == 0,
                        }),
                    ));
                }
            } else {
                proof {
                    assert(parse_loop(chars@, p0, stc) == (LoopEnd::Done {
                        st: stc,
                        end: p0,
                    }));
                }
            }
        }
        proof {
            if !done {
                assert(parse_loop(chars@, *pos as int, (PState {
                    digs: val.digits@,
                    shift_count: shift_count as nat,
                    dot_found: dot_found,
                    sep_found: sep_found,
                    radix: radix as nat,
                    radix_found: radix_found,
                    frac_index: frac_index as int,
                    first_zero: first_digit == 0,
                })) == (LoopEnd::Done {
                    st: PState {
                        digs: val.digits@,
                        shift_count: shift_count as nat,
                        dot_found: dot_found,
                        sep_found: sep_found,
                        radix: radix as nat,
                        radix_found: radix_found,
                        frac_index: frac_index as int,
                        first_zero: first_digit == 0,
                    },
                    end: *pos as int,
                }));
            }
        }
        let ghost stf = PState {
            digs: val.digits@,
            shift_count: shift_count as nat,
            dot_found: dot_found,
            sep_found: sep_found,
            radix: radix as nat,
            radix_found: radix_found,
            frac_index: frac_index as int,
            first_zero: first_digit == 0,
        };
        proof {
            assert(spec_parse(chars@, i0) == parse_finish(
                (LoopEnd::Done { st: stf, end: *pos as int }),
            ));
        }
        if radix == 16 {
            match val.hex_to_dec() {
                Ok(v) => {
                    proof {
                        assert(spec_hex_to_dec(stf.digs) == Ok::<nat, Error>(v.val() as nat));
                        assert(spec_parse(chars@, i0) == (ParseRes::Num {
                            v: v.val() as nat,
                            end: *pos as int,
                        }));
                    }
                    Ok(v)
                },
                Err(e) => {
                    proof {
                        lemma_hex_accum_overflow_only(
                            stf.digs,
                            FRAC_LEN as int,
                            hex_stop(stf.digs, MAX_LEN as int),
                            0,
                            1,
                        );
                    }
                    Err(e)
                },
            }
        } else {
            proof {
                assert(spec_parse(chars@, i0) == (ParseRes::Num {
                    v: digits_val(val.digits@),
                    end: *pos as int,
                }));
            }
            Ok(val)
        }
    }

    /// Parses a non-negative number from the start of a string.
    pub fn parse_str(arg: &str) -> (r: Result<BigDec, Error>)
        ensures
            match r {
                Ok(v) => v.wf() && v.val() >= 0 && (spec_parse(arg@, 0) matches ParseRes::Num {
                    v: m,
                    end,
                } && m == v.val()),
                Err(e) => spec_parse(arg@, 0) == (ParseRes::Fail { err: e }),
            },
    {
        let chars = str_to_chars(arg);
        let mut pos: usize = 0;
        BigDec::parse_chars(&chars, &mut pos)
    }
}

/// The characters of a string, in order, as a vector.
pub fn str_to_chars(s: &str) -> (r: Vec<char>)
    ensures
        r@ == s@,
{
    let n = s.unicode_len();
    let mut r: Vec<char> = Vec::new();
    let mut i: usize = 0;
    while i < n
        invariant
            i <= n,
            n == s@.len(),
            r@ == s@.take(i as int),
        decreases n - i,
    {
        let c = s.get_char(i);
        r.push(c);
        proof {
            assert(r@ =~= s@.take(i + 1));
        }
        i = i + 1;
    }
    proof {
        assert(s@.take(n as int) =~= s@);
    }
    r
}

/// One past the topmost integer digit that is not fifteen, scanning down
/// from i, but never below FRAC_LEN + 1.
pub open spec fn non_f_stop(s: Seq<u8>, i: int) -> int
    decreases i,
{
    if i <= FRAC_LEN + 1 {
        FRAC_LEN + 1
    } else if s[i - 1] != 15 {
        i
    } else {
        non_f_stop(s, i - 1)
    }
}

/// The base-16 magnitude that the hex display shows: the integer part of
/// the magnitude, sixteen's-complemented over the integer width when the
/// value is negative.
pub open spec fn hex_mag_of(x: BigDec) -> nat {
    let n = x.mag() / pow10(FRAC_LEN as nat);
    if x.neg {
        ((crate::digits::pow16(INT_LEN as nat) - n) as nat) % crate::digits::pow16(INT_LEN as nat)
    } else {
        n
    }
}

/// The hexadecimal digit vector that the display works from: zeros in the
/// fractional region, the canonical base-16 digits of the shown magnitude
/// in the integer region.
pub open spec fn hex_digits_of(x: BigDec) -> Seq<u8> {
    Seq::new(
        MAX_LEN as nat,
        |i: int|
            if i < FRAC_LEN {
                0u8
            } else {
                crate::digits::nat_to_hex(hex_mag_of(x), INT_LEN as nat)[i - FRAC_LEN]
            },
    )
}

/// How many hexadecimal digits the display keeps: the nibble count above
/// the run of leading F digits, rounded up to 4, 8 or 16.
pub open spec fn hex_limit_of(s: Seq<u8>) -> int {
    let min_len = (non_f_stop(s, MAX_LEN as int) - FRAC_LEN) + 1;
    if min_len < 4 {
        4
    } else if min_len < 8 {
        8
    } else if min_len < 16 {
        16
    } else {
        min_len
    }
}

/// The hexadecimal display text of a shown magnitude: its hex digits,
/// truncated to the display width, rendered like a decimal window behind
/// an 0x prefix.
pub open spec fn hex_display_of_mag(hm: nat) -> Seq<char> {
    let h = Seq::new(
        MAX_LEN as nat,
        |i: int|
            if i < FRAC_LEN {
                0u8
            } else {
                crate::digits::nat_to_hex(hm, INT_LEN as nat)[i - FRAC_LEN]
            },
    );
    let limit = hex_limit_of(h);
    let t = Seq::new(
        MAX_LEN as nat,
        |i: int|
            if i >= FRAC_LEN + limit {
                0u8
            } else {
                h[i]
            },
    );
    "0x"@ + spec_render(false, t)
}

/// The shown hexadecimal magnitude of a signed value in raw digit units.
pub open spec fn hex_mag_of_val(v: int) -> nat {
    let n = iabs(v) / pow10(FRAC_LEN as nat);
    if v < 0 {
        ((crate::digits::pow16(INT_LEN as nat) - n) as nat) % crate::digits::pow16(INT_LEN as nat)
    } else {
        n
    }
}

/// The hexadecimal display text of a value.
pub open spec fn spec_hex_display(x: BigDec) -> Seq<char> {
    hex_display_of_mag(hex_mag_of(x))
}

/// For a well-formed value the shown hexadecimal magnitude is a function
/// of the signed value alone.
pub proof fn lemma_hex_mag_val(x: BigDec)
    ensures
        hex_mag_of(x) == hex_mag_of_val(x.val()),
{
    if x.neg && x.mag() == 0 {
        lemma_pow10_pos(FRAC_LEN as nat);
        crate::digits::lemma_pow16_pos(INT_LEN as nat);
        vstd::arithmetic::div_mod::lemma_div_of0(pow10(FRAC_LEN as nat) as int);
        vstd::arithmetic::div_mod::lemma_mod_self_0(
            crate::digits::pow16(INT_LEN as nat) as int,
        );
    }
}

impl BigDec {
    /// One past the topmost integer digit that is not fifteen.
    fn find_first_non_f(&self) -> (r: usize)
        ensures
            r == non_f_stop(self.digits@, MAX_LEN as int),
            FRAC_LEN + 1 <= r <= MAX_LEN,
    {
        let mut stop_at: usize = MAX_LEN;
        while stop_at > FRAC_LEN + 1 && self.digits[stop_at - 1] == 0x0f
            invariant
                FRAC_LEN + 1 <= stop_at <= MAX_LEN,
                non_f_stop(self.digits@, MAX_LEN as int) == non_f_stop(
                    self.digits@,
                    stop_at as int,
                ),
            decreases stop_at,
        {
            stop_at = stop_at - 1;
        }
        stop_at
    }

    /// Converts the decimal digits into the hexadecimal digit vector that
    /// the display shows, by repeated division by sixteen, with a
    /// sixteen's-complement pass for negative values.
    #[verifier::rlimit(100)]
    fn dec_to_hex(&self) -> (r: BigDec)
        requires
            self.wf(),
        ensures
            r.neg == false,
            crate::digits::hex_ok(r.digits@),
            r.digits@ == hex_digits_of(*self),
    {
        let ghost p20 = pow10(FRAC_LEN as nat);
        let ghost p16w = crate::digits::pow16(INT_LEN as nat);
        let ghost n0 = self.mag() / p20;
        let ghost fr = self.mag() % p20;
        let sixteen = BigDec::from_i32(16);
        let x0 = *self;
        let neg = x0.neg;
        let mut res = BigDec::zero();
        let mut x = x0;
        proof {
            lemma_pow10_pos(FRAC_LEN as nat);
            crate::digits::lemma_pow16_pos(INT_LEN as nat);
            lemma_digits_val_bound(self.digits@);
            lemma_pow10_adds(FRAC_LEN as nat, FRAC_LEN as nat);
            vstd::arithmetic::div_mod::lemma_fundamental_div_mod(self.mag() as int, p20 as int);
            vstd::arithmetic::div_mod::lemma_mod_division_less_than_divisor(
                self.mag() as int,
                p20 as int,
            );
            vstd::arithmetic::div_mod::lemma_multiply_divide_lt(
                self.mag() as int,
                p20 as int,
                p20 as int,
            );
            assert(n0 < p20);
            crate::digits::lemma_pow10_le_pow16(INT_LEN as nat);
            assert(sixteen.mag() == 16 * p20);
            assert(res.mag() == 0);
            assert(crate::digits::hex_val(res.digits@.subrange(FRAC_LEN as int, FRAC_LEN as int))
                == 0);
            assert(crate::digits::pow16(0) == 1);
            assert(n0 * 1 == n0) by (nonlinear_arith);
            assert(x.mag() == n0 * p20 + fr) by (nonlinear_arith)
                requires self.mag() == p20 * n0 + fr, x.mag() == self.mag();
        }
        let mut i: usize = FRAC_LEN;
        let mut cur: Ghost<nat> = Ghost(n0);
        while i < MAX_LEN && !x.is_zero()
            invariant
                FRAC_LEN <= i <= MAX_LEN,
                p20 == pow10(FRAC_LEN as nat),
                fr < p20,
                n0 < p20,
                p20 <= crate::digits::pow16(INT_LEN as nat),
                sixteen.wf(),
                sixteen.mag() == 16 * p20,
                x.wf(),
                x.mag() == cur@ * p20 + (if i == FRAC_LEN {
                    fr
                } else {
                    0
                }),
                res.neg == false,
                crate::digits::hex_ok(res.digits@),
                forall|j: int| 0 <= j < FRAC_LEN ==> res.digits@[j] == 0,
                forall|j: int| i <= j < MAX_LEN ==> res.digits@[j] == 0,
                cur@ <= n0,
                n0 == crate::digits::hex_val(res.digits@.subrange(FRAC_LEN as int, i as int))
                    + cur@ * crate::digits::pow16((i - FRAC_LEN) as nat),
            decreases MAX_LEN - i,
        {
            proof {
                lemma_pow10_pos(FRAC_LEN as nat);
            }
            let div_ret = BigDec::div_u(x, sixteen, false);
            let dl = div_ret.remainder.digits[FRAC_LEN];
            let dh = div_ret.remainder.digits[FRAC_LEN + 1];
            proof {
                let xm = x.mag();
                let c16: nat = cur@ % 16;
                let q16: nat = cur@ / 16;
                vstd::arithmetic::div_mod::lemma_fundamental_div_mod(cur@ as int, 16);
                vstd::arithmetic::div_mod::lemma_mod_division_less_than_divisor(cur@ as int, 16);
                let f2: nat = if i == FRAC_LEN {
                    fr
                } else {
                    0
                };
                assert(xm == q16 * (16 * p20) + (c16 * p20 + f2)) by (nonlinear_arith)
                    requires
                        xm == cur@ * p20 + f2,
                        cur@ == 16 * q16 + c16,
                ;
                assert(c16 * p20 + f2 < 16 * p20) by (nonlinear_arith)
                    requires c16 <= 15, f2 < p20, p20 >= 1;
                vstd::arithmetic::div_mod::lemma_fundamental_div_mod_converse(
                    xm as int,
                    (16 * p20) as int,
                    q16 as int,
                    (c16 * p20 + f2) as int,
                );
                assert(xm % (16 * p20) == c16 * p20 + f2);
                assert(xm as int / ((16 * p20) as int) == q16);
                assert(q16 < p20) by (nonlinear_arith)
                    requires cur@ < p20, q16 * 16 + c16 == cur@, c16 >= 0, q16 >= 0;
                vstd::arithmetic::div_mod::lemma_small_mod(q16, p20);
                // the remainder's two lowest integer digits spell cur % 16
                let rm = div_ret.remainder.mag();
                assert(rm == c16 * p20 + f2);
                crate::digits::lemma_digit_extract(div_ret.remainder.digits@, FRAC_LEN as int);
                crate::digits::lemma_digit_extract(div_ret.remainder.digits@, FRAC_LEN as int + 1);
                vstd::arithmetic::div_mod::lemma_fundamental_div_mod_converse(
                    rm as int,
                    p20 as int,
                    c16 as int,
                    f2 as int,
                );
                assert(rm as int / (p20 as int) == c16);
                assert(pow10((FRAC_LEN + 1) as nat) == 10 * p20);
                vstd::arithmetic::div_mod::lemma_div_denominator(rm as int, p20 as int, 10);
                assert(rm as int / ((10 * p20) as int) == c16 as int / 10);
                assert(dl == c16 % 10);
                assert(dh == (c16 / 10) % 10);
                assert(c16 / 10 <= 1);
                vstd::arithmetic::div_mod::lemma_small_mod((c16 / 10) as nat, 10);
                vstd::arithmetic::div_mod::lemma_fundamental_div_mod(c16 as int, 10);
            }
            let d = dh * 10 + dl;
            proof {
                assert(d == cur@ % 16);
            }
            let ghost prev = res.digits@;
            res.digits[i] = d;
            proof {
                assert(res.digits@ =~= prev.update(i as int, d));
                assert(res.digits@.subrange(FRAC_LEN as int, i + 1) =~= prev.subrange(
                    FRAC_LEN as int,
                    i as int,
                ).push(d));
                crate::digits::lemma_hex_val_push(prev.subrange(FRAC_LEN as int, i as int), d);
                let k = (i - FRAC_LEN) as nat;
                let pk = crate::digits::pow16(k);
                assert(prev.subrange(FRAC_LEN as int, i as int).len() == k);
                assert(crate::digits::pow16((k + 1) as nat) == 16 * pk);
                assert(cur@ * pk == (cur@ % 16) * pk + (cur@ / 16) * (16 * pk)) by (nonlinear_arith)
                    requires cur@ == 16 * (cur@ / 16) + cur@ % 16;
            }
            x = div_ret.quotient;
            proof {
                cur@ = cur@ / 16;
            }
            i = i + 1;
        }
        proof {
            if x.mag() == 0 {
                if i == FRAC_LEN {
                    assert(cur@ * p20 + fr == 0);
                    assert(cur@ == 0) by (nonlinear_arith)
                        requires cur@ * p20 + fr == 0, p20 >= 1;
                } else {
                    assert(cur@ * p20 == 0);
                    assert(cur@ == 0) by (nonlinear_arith)
                        requires cur@ * p20 == 0, p20 >= 1;
                }
            } else {
                assert(i == MAX_LEN);
                let pk = crate::digits::pow16(INT_LEN as nat);
                if cur@ >= 1 {
                    assert(cur@ * pk >= pk) by (nonlinear_arith)
                        requires cur@ >= 1, pk >= 1;
                    assert(n0 >= pk);
                    assert(n0 < p20 && p20 <= pk);
                    assert(false);
                }
            }
            assert(cur@ == 0);
            let written = res.digits@.subrange(FRAC_LEN as int, i as int);
            assert(cur@ * crate::digits::pow16((i - FRAC_LEN) as nat) == 0) by (nonlinear_arith)
                requires cur@ == 0;
            let s20 = res.digits@.subrange(FRAC_LEN as int, MAX_LEN as int);
            crate::digits::lemma_hex_val_trunc(s20, i - FRAC_LEN);
            assert(s20.take(i - FRAC_LEN) =~= written);
            assert(crate::digits::hex_val(s20) == n0);
        }
        if neg {
            let ghost before_c = res.digits@;
            let mut carry: u8 = 1;
            let mut j: usize = FRAC_LEN;
            while j < MAX_LEN
                invariant
                    FRAC_LEN <= j <= MAX_LEN,
                    carry <= 1,
                    p20 == pow10(FRAC_LEN as nat),
                    n0 == self.mag() / p20,
                    n0 < p20,
                    p20 <= crate::digits::pow16(INT_LEN as nat),
                    neg == self.neg,
                    forall|k: int| 0 <= k < FRAC_LEN ==> before_c[k] == 0,
                    crate::digits::hex_val(before_c.subrange(FRAC_LEN as int, MAX_LEN as int))
                        == n0,
                    res.neg == false,
                    crate::digits::hex_ok(res.digits@),
                    crate::digits::hex_ok(before_c),
                    before_c.len() == MAX_LEN,
                    forall|k: int| 0 <= k < FRAC_LEN ==> res.digits@[k] == before_c[k],
                    forall|k: int| j <= k < MAX_LEN ==> res.digits@[k] == before_c[k],
                    crate::digits::hex_val(res.digits@.subrange(FRAC_LEN as int, j as int))
                        + crate::digits::hex_val(before_c.subrange(FRAC_LEN as int, j as int)) + (
                    carry as nat) * crate::digits::pow16((j - FRAC_LEN) as nat)
                        == crate::digits::pow16((j - FRAC_LEN) as nat),
                decreases MAX_LEN - j,
            {
                let dold = res.digits[j];
                let nd = 15 - dold;
                let mut d2 = nd + carry;
                let c2: u8;
                if d2 > 15 {
                    c2 = 1;
                    d2 = 0;
                } else {
                    c2 = 0;
                }
                let ghost prev = res.digits@;
                res.digits[j] = d2;
                proof {
                    assert(res.digits@ =~= prev.update(j as int, d2));
                    assert(res.digits@.subrange(FRAC_LEN as int, j + 1) =~= prev.subrange(
                        FRAC_LEN as int,
                        j as int,
                    ).push(d2));
                    assert(before_c.subrange(FRAC_LEN as int, j + 1) =~= before_c.subrange(
                        FRAC_LEN as int,
                        j as int,
                    ).push(before_c[j as int]));
                    crate::digits::lemma_hex_val_push(prev.subrange(FRAC_LEN as int, j as int), d2);
                    crate::digits::lemma_hex_val_push(
                        before_c.subrange(FRAC_LEN as int, j as int),
                        before_c[j as int],
                    );
                    let k = (j - FRAC_LEN) as nat;
                    let pk = crate::digits::pow16(k);
                    assert(crate::digits::pow16((k + 1) as nat) == 16 * pk);
                    let a = crate::digits::hex_val(prev.subrange(FRAC_LEN as int, j as int));
                    let b = crate::digits::hex_val(before_c.subrange(FRAC_LEN as int, j as int));
                    assert(a + (d2 as nat) * pk + b + (before_c[j as int] as nat) * pk + (
                    c2 as nat) * (16 * pk) == 16 * pk) by (nonlinear_arith)
                        requires
                            a + b + (carry as nat) * pk == pk,
                            d2 as int == 15 - before_c[j as int] + carry - 16 * c2,
                            before_c[j as int] <= 15,
                            d2 <= 15,
                            carry <= 1,
                            c2 <= 1,
                    ;
                }
                carry = c2;
                j = j + 1;
            }
            proof {
                let s20n = res.digits@.subrange(FRAC_LEN as int, MAX_LEN as int);
                let s20o = before_c.subrange(FRAC_LEN as int, MAX_LEN as int);
                let pk = crate::digits::pow16(INT_LEN as nat);
                assert(crate::digits::hex_val(s20o) == n0);
                assert(crate::digits::hex_ok(s20n));
                crate::digits::lemma_hex_val_bound(s20n);
                if n0 == 0 {
                    assert(crate::digits::hex_val(s20n) + (carry as nat) * pk == pk);
                    if carry == 0 {
                        assert(crate::digits::hex_val(s20n) == pk);
                        assert(false);
                    }
                    assert(crate::digits::hex_val(s20n) == 0);
                    vstd::arithmetic::div_mod::lemma_mod_self_0(pk as int);
                    assert(((pk - n0) % (pk as int)) == 0);
                } else {
                    if carry == 1 {
                        assert(crate::digits::hex_val(s20n) + n0 + pk == pk);
                        assert(false);
                    }
                    assert(crate::digits::hex_val(s20n) == pk - n0);
                    vstd::arithmetic::div_mod::lemma_small_mod((pk - n0) as nat, pk);
                }
                assert(crate::digits::hex_val(s20n) == hex_mag_of(*self));
                crate::digits::lemma_hex_canonical(s20n);
                assert(s20n.len() == INT_LEN as nat);
                assert(s20n == crate::digits::nat_to_hex(hex_mag_of(*self), INT_LEN as nat));
                assert forall|ii: int| #![trigger res.digits@[ii]] 0 <= ii < MAX_LEN implies res
                    .digits@[ii] == hex_digits_of(*self)[ii] by {
                    if ii >= FRAC_LEN {
                        assert(s20n[ii - FRAC_LEN] == res.digits@[ii]);
                        assert(s20n[ii - FRAC_LEN] == crate::digits::nat_to_hex(
                            hex_mag_of(*self),
                            INT_LEN as nat,
                        )[ii - FRAC_LEN]);
                    } else {
                        assert(res.digits@[ii] == before_c[ii]);
                        assert(before_c[ii] == 0);
                    }
                }
                assert(res.digits@ =~= hex_digits_of(*self));
            }
        } else {
            proof {
                let s20 = res.digits@.subrange(FRAC_LEN as int, MAX_LEN as int);
                assert(crate::digits::hex_val(s20) == hex_mag_of(*self));
                crate::digits::lemma_hex_canonical(s20);
                assert(res.digits@ =~= hex_digits_of(*self));
            }
        }
        res
    }
}

impl BigDec {
    /// Renders the value in hexadecimal behind an 0x prefix; a negative
    /// value shows as a bounded run of leading F digits, 4, 8 or 16
    /// nibbles wide, or more if the magnitude requires it.
    pub fn to_string_hex(&self, _digit_count: i32) -> (r: String)
        requires
            self.wf(),
        ensures
            r@ == spec_hex_display(*self),
    {
        let hex = self.dec_to_hex();
        let min_len = (hex.find_first_non_f() - FRAC_LEN) + 1;
        let limit: usize = if min_len < 4 {
            4
        } else if min_len < 8 {
            8
        } else if min_len < 16 {
            16
        } else {
            min_len
        };
        let mut trunc = hex;
        let mut i: usize = limit;
        while i < INT_LEN
            invariant
                4 <= limit <= i,
                i <= INT_LEN || i == limit,
                crate::digits::hex_ok(trunc.digits@),
                trunc.neg == hex.neg,
                trunc.digits@.len() == MAX_LEN,
                hex.digits@.len() == MAX_LEN,
                forall|k: int|
                    0 <= k < MAX_LEN ==> trunc.digits@[k] == if FRAC_LEN + limit <= k < FRAC_LEN
                        + i {
                        0u8
                    } else {
                        hex.digits@[k]
                    },
            decreases INT_LEN - i,
        {
            let ghost prev = trunc.digits@;
            trunc.digits[FRAC_LEN + i] = 0;
            proof {
                assert(trunc.digits@ =~= prev.update(FRAC_LEN + i, 0u8));
            }
            i = i + 1;
        }
        let s = trunc.to_string();
        let mut out = String::from_str("0x");
        out.append(s.as_str());
        proof {
            let h = hex_digits_of(*self);
            let lim = hex_limit_of(h);
            assert(lim == limit);
            let t = Seq::new(
                MAX_LEN as nat,
                |k: int|
                    if k >= FRAC_LEN + lim {
                        0u8
                    } else {
                        h[k]
                    },
            );
            assert(trunc.digits@ =~= t);
            assert(out@ =~= "0x"@ + spec_render(false, t));
        }
        out
    }

    /// The nibble-wise AND of the two operands' hexadecimal digit
    /// vectors, returned as that hexadecimal digit vector; meant for
    /// bitwise-style use on integer values.
    pub fn and(left: BigDec, right: BigDec) -> (r: Result<BigDec, Error>)
        requires
            left.wf(),
            right.wf(),
        ensures
            r is Ok,
            match r {
                Ok(v) => v.neg == false && crate::digits::hex_ok(v.digits@) && v.digits@
                    == Seq::new(
                    MAX_LEN as nat,
                    |i: int|
                        if i < FRAC_LEN {
                            0u8
                        } else {
                            hex_digits_of(left)[i] & hex_digits_of(right)[i]
                        },
                ),
                Err(_) => true,
            },
    {
        let left_hex = left.dec_to_hex();
        let right_hex = right.dec_to_hex();
        let mut res = BigDec::zero();
        let mut i: usize = FRAC_LEN;
        while i < MAX_LEN
            invariant
                FRAC_LEN <= i <= MAX_LEN,
                res.neg == false,
                left_hex.digits@ == hex_digits_of(left),
                right_hex.digits@ == hex_digits_of(right),
                crate::digits::hex_ok(left_hex.digits@),
                crate::digits::hex_ok(right_hex.digits@),
                crate::digits::hex_ok(res.digits@),
                forall|k: int| 0 <= k < FRAC_LEN ==> res.digits@[k] == 0,
                forall|k: int| i <= k < MAX_LEN ==> res.digits@[k] == 0,
                forall|k: int|
                    FRAC_LEN <= k < i ==> res.digits@[k] == (left_hex.digits@[k]
                        & right_hex.digits@[k]),
            decreases MAX_LEN - i,
        {
            let a = left_hex.digits[i];
            let b = right_hex.digits[i];
            let c = a & b;
            proof {
                assert(c <= 15) by (bit_vector)
                    requires c == a & b, a <= 15, b <= 15;
            }
            let ghost prev = res.digits@;
            res.digits[i] = c;
            proof {
                assert(res.digits@ =~= prev.update(i as int, c));
            }
            i = i + 1;
        }
        proof {
            assert(res.digits@ =~= Seq::new(
                MAX_LEN as nat,
                |k: int|
                    if k < FRAC_LEN {
                        0u8
                    } else {
                        hex_digits_of(left)[k] & hex_digits_of(right)[k]
                    },
            ));
        }
        Ok(res)
    }
}

/// Comparison is antisymmetric: comparing the two values in the other
/// order flips the sign of the result.
pub proof fn lemma_compare_antisymmetric(a: int, b: int)
    ensures
        spec_compare(a, b) == -spec_compare(b, a),
{
}

/// Comparison is a total order: it is reflexive, it separates distinct
/// values, and it is transitive.
pub proof fn lemma_compare_total_order(a: int, b: int, c: int)
    ensures
        spec_compare(a, a) == 0,
        spec_compare(a, b) == 0 ==> a == b,
        spec_compare(a, b) <= 0 && spec_compare(b, c) <= 0 ==> spec_compare(a, c) <= 0,
{
}

/// Adding a well-formed value to its negation never overflows and yields
/// exactly zero, which is_zero reports as zero.
pub proof fn lemma_add_negate_zero(a: BigDec)
    requires
        a.wf(),
    ensures
        spec_add(a.val(), -a.val()) == Ok::<int, Error>(0),
{
    lemma_pow10_pos(MAX_LEN as nat);
}

/// Dividing by a nonzero value and multiplying the quotient back
/// recovers the dividend to within the truncation error of the fixed
/// fractional precision: the loss, scaled up by the fractional weight,
/// stays below the divisor's magnitude plus one fractional unit.  This
/// holds whenever the quotient fits the digit width and the product does
/// not overflow.
pub proof fn lemma_div_mul_approx(a: int, b: int)
    requires
        b != 0,
        (iabs(a) * pow10(FRAC_LEN as nat)) / iabs(b) < pow10(MAX_LEN as nat),
        spec_mul(spec_div(a, b)->Ok_0, b) is Ok,
    ensures
        spec_div(a, b) is Ok,
        iabs(a - spec_mul(spec_div(a, b)->Ok_0, b)->Ok_0) * pow10(FRAC_LEN as nat) < iabs(b)
            + pow10(FRAC_LEN as nat),
{
    let p = pow10(FRAC_LEN as nat);
    let am = iabs(a);
    let bm = iabs(b);
    lemma_pow10_pos(FRAC_LEN as nat);
    lemma_pow10_pos(MAX_LEN as nat);
    assert(bm >= 1);
    let q0 = (am * p) / bm;
    vstd::arithmetic::div_mod::lemma_small_mod(q0, pow10(MAX_LEN as nat));
    assert(spec_div(a, b)->Ok_0 == if (a < 0) == (b < 0) {
        q0 as int
    } else {
        -(q0 as int)
    });
    vstd::arithmetic::div_mod::lemma_fundamental_div_mod((am * p) as int, bm as int);
    vstd::arithmetic::div_mod::lemma_mod_division_less_than_divisor((am * p) as int, bm as int);
    let r1 = (am * p) % bm;
    assert(am * p == bm * q0 + r1);
    let qv = spec_div(a, b)->Ok_0;
    assert(iabs(qv) == q0);
    let mres = spec_mul(qv, b);
    assert(iabs(qv) * iabs(b) == q0 * bm);
    let m0 = (q0 * bm) / p;
    vstd::arithmetic::div_mod::lemma_fundamental_div_mod((q0 * bm) as int, p as int);
    vstd::arithmetic::div_mod::lemma_mod_division_less_than_divisor((q0 * bm) as int, p as int);
    let r2 = (q0 * bm) % p;
    assert(q0 * bm == p * m0 + r2);
    assert(bm * q0 == q0 * bm) by (nonlinear_arith);
    assert(am * p == p * m0 + r2 + r1);
    assert(m0 * p <= am * p) by (nonlinear_arith)
        requires
            am * p == p * m0 + r2 + r1,
            r1 >= 0,
            r2 >= 0,
    ;
    assert(m0 <= am) by (nonlinear_arith)
        requires m0 * p <= am * p, p >= 1, m0 >= 0, am >= 0;
    assert((am - m0) * p == r1 + r2) by (nonlinear_arith)
        requires am * p == p * m0 + r2 + r1;
    assert((am - m0) * p < bm + p);
    let mv = mres->Ok_0;
    if (qv < 0) == (b < 0) {
        assert(mv == m0 as int);
    } else {
        assert(mv == -(m0 as int));
    }
    if a == 0 {
        vstd::arithmetic::div_mod::lemma_div_of0(bm as int);
        assert(q0 == 0);
        assert(q0 * bm == 0) by (nonlinear_arith)
            requires q0 == 0;
        vstd::arithmetic::div_mod::lemma_div_of0(p as int);
        assert(m0 == 0);
        assert(iabs(a - mv) == 0);
        assert(0 * p == 0) by (nonlinear_arith);
    } else {
        if a > 0 {
            assert(am == a);
            if b > 0 {
                assert(qv == q0 as int && mv == m0 as int);
            } else {
                assert(qv == -(q0 as int));
                if q0 == 0 {
                    assert(mv == m0 as int || mv == -(m0 as int));
                    assert(q0 * bm == 0) by (nonlinear_arith)
                        requires q0 == 0;
                    vstd::arithmetic::div_mod::lemma_div_of0(p as int);
                    assert(m0 == 0);
                } else {
                    assert(mv == m0 as int);
                }
            }
            assert(iabs(a - mv) == am - m0);
        } else {
            assert(am == -a);
            if q0 == 0 {
                assert(q0 * bm == 0) by (nonlinear_arith)
                    requires q0 == 0;
                vstd::arithmetic::div_mod::lemma_div_of0(p as int);
                assert(m0 == 0);
                assert(iabs(a - mv) == am - m0);
            } else {
                assert(mv == -(m0 as int));
                assert(iabs(a - mv) == am - m0);
            }
        }
        assert(iabs(a - mv) * p == (am - m0) * p);
    }
}

proof fn lemma_rev_chars_len(s: Seq<u8>, lo: int, hi: int)
    requires
        lo <= hi,
    ensures
        rev_chars(s, lo, hi).len() == hi - lo,
    decreases hi - lo,
{
    if lo < hi {
        lemma_rev_chars_len(s, lo, hi - 1);
    }
}

proof fn lemma_rev_chars_index(s: Seq<u8>, lo: int, hi: int, k: int)
    requires
        lo <= hi,
        0 <= k < hi - lo,
    ensures
        rev_chars(s, lo, hi).len() == hi - lo,
        rev_chars(s, lo, hi)[k] == digit_char(s[hi - 1 - k]),
    decreases hi - lo,
{
    lemma_rev_chars_len(s, lo, hi);
    if k > 0 {
        lemma_rev_chars_index(s, lo, hi - 1, k - 1);
    }
}

proof fn lemma_digit_char_props(d: u8)
    requires
        d <= 9,
    ensures
        is_dec_digit(digit_char(d)),
        dec_digit_val(digit_char(d)) == d,
        digit_char(d) != 'x',
        digit_char(d) != 'b',
        digit_char(d) != '.',
        digit_char(d) != '_',
{
}

proof fn lemma_start_zeros(s: Seq<u8>, i: int, p: int)
    requires
        0 <= i <= p,
        p < start_from(s, i),
        p < s.len(),
    ensures
        s[p] == 0,
    decreases FRAC_LEN - i,
{
    if i < FRAC_LEN {
        if s[i] != 0 {
        } else {
            if p > i {
                lemma_start_zeros(s, i + 1, p);
            }
        }
    }
}

proof fn lemma_stop_zeros(s: Seq<u8>, i: int, p: int)
    requires
        stop_from(s, i) <= p < i,
        0 <= p < s.len(),
    ensures
        s[p] == 0,
    decreases i,
{
    if i > FRAC_LEN + 1 {
        if s[i - 1] != 0 {
        } else {
            if p < i - 1 {
                lemma_stop_zeros(s, i - 1, p);
            }
        }
    }
}

proof fn lemma_start_bounds(s: Seq<u8>, i: int)
    requires
        0 <= i <= FRAC_LEN,
    ensures
        i <= start_from(s, i) <= FRAC_LEN,
    decreases FRAC_LEN - i,
{
    if i < FRAC_LEN && s[i] == 0 {
        lemma_start_bounds(s, i + 1);
    }
}

proof fn lemma_stop_bounds(s: Seq<u8>, i: int)
    requires
        FRAC_LEN + 1 <= i,
    ensures
        FRAC_LEN + 1 <= stop_from(s, i) <= i,
    decreases i,
{
    if i > FRAC_LEN + 1 && s[i - 1] == 0 {
        lemma_stop_bounds(s, i - 1);
    }
}

/// The digit register after the integer digits of s from j up to stop
/// have been shifted in, most significant first.
spec fn int_digs(s: Seq<u8>, j: int, stop: int, p: int) -> u8 {
    if FRAC_LEN <= p < FRAC_LEN + (stop - j) {
        s[j + (p - FRAC_LEN)]
    } else {
        0
    }
}

/// The digit register after the whole integer window and the fractional
/// digits of s down to position k have been placed.
spec fn frac_digs(s: Seq<u8>, stop: int, k: int, p: int) -> u8 {
    if k <= p < FRAC_LEN {
        s[p]
    } else if FRAC_LEN <= p < stop {
        s[p]
    } else {
        0
    }
}

proof fn lemma_parse_int_phase(s: Seq<u8>, r: Seq<char>, stop: int, j: int, pos: int, st: PState)
    requires
        s.len() == MAX_LEN,
        digits_ok(s),
        FRAC_LEN + 1 <= stop <= MAX_LEN,
        FRAC_LEN <= j < stop,
        0 <= pos,
        pos + (j - FRAC_LEN) <= r.len(),
        forall|t: int| 0 <= t < j - FRAC_LEN ==> #[trigger] r[pos + t] == digit_char(s[j - 1 - t]),
        st.digs.len() == MAX_LEN,
        forall|p: int| 0 <= p < MAX_LEN ==> st.digs[p] == int_digs(s, j, stop, p),
        st.shift_count == stop - j,
        st.dot_found == false,
        st.sep_found == false,
        st.radix == 10,
        st.radix_found == false,
        st.frac_index == FRAC_LEN as int,
    ensures
        parse_loop(r, pos, st) == parse_loop(
            r,
            pos + (j - FRAC_LEN),
            (PState {
                digs: Seq::new(MAX_LEN as nat, |p: int| int_digs(s, FRAC_LEN as int, stop, p)),
                shift_count: (stop - FRAC_LEN) as nat,
                ..st
            }),
        ),
    decreases j - FRAC_LEN,
{
    if j == FRAC_LEN {
        assert(st.digs =~= Seq::new(
            MAX_LEN as nat,
            |p: int| int_digs(s, FRAC_LEN as int, stop, p),
        ));
        assert(st == (PState {
            digs: Seq::new(MAX_LEN as nat, |p: int| int_digs(s, FRAC_LEN as int, stop, p)),
            shift_count: (stop - FRAC_LEN) as nat,
            ..st
        }));
    } else {
        let d = s[j - 1];
        let c = r[pos];
        assert(r[pos + 0] == digit_char(s[j - 1 - 0]));
        assert(c == digit_char(d));
        lemma_digit_char_props(d);
        let st2 = PState {
            digs: shift_insert(st.digs, dec_digit_val(c)),
            shift_count: st.shift_count + 1,
            sep_found: false,
            ..st
        };
        assert(st.shift_count < INT_LEN);
        assert(parse_loop(r, pos, st) == parse_loop(r, pos + 1, st2));
        assert(forall|t: int| 0 <= t < (j - 1) - FRAC_LEN ==> #[trigger] r[(pos + 1) + t]
            == digit_char(s[(j - 1) - 1 - t])) by {
            assert forall|t: int| #![trigger r[(pos + 1) + t]] 0 <= t < (j - 1) - FRAC_LEN implies
                r[(pos + 1) + t] == digit_char(s[(j - 1) - 1 - t]) by {
                assert(r[pos + (t + 1)] == digit_char(s[j - 1 - (t + 1)]));
            }
        }
        assert(forall|p: int| 0 <= p < MAX_LEN ==> st2.digs[p] == int_digs(s, j - 1, stop, p)) by {
            assert forall|p: int| 0 <= p < MAX_LEN implies st2.digs[p] == int_digs(
                s,
                j - 1,
                stop,
                p,
            ) by {
                if p == 0 {
                } else if p == FRAC_LEN {
                } else {
                    assert(st2.digs[p] == st.digs[p - 1]);
                }
            }
        }
        lemma_parse_int_phase(s, r, stop, j - 1, pos + 1, st2);
    }
}

proof fn lemma_parse_frac_phase(
    s: Seq<u8>,
    r: Seq<char>,
    stop: int,
    start: int,
    k: int,
    pos: int,
    st: PState,
)
    requires
        s.len() == MAX_LEN,
        digits_ok(s),
        FRAC_LEN + 1 <= stop <= MAX_LEN,
        0 <= start <= k <= FRAC_LEN,
        0 <= pos,
        pos + (k - start) <= r.len(),
        forall|t: int| 0 <= t < k - start ==> #[trigger] r[pos + t] == digit_char(s[k - 1 - t]),
        st.digs.len() == MAX_LEN,
        forall|p: int| 0 <= p < MAX_LEN ==> st.digs[p] == frac_digs(s, stop, k, p),
        st.dot_found == true,
        st.sep_found == false,
        st.radix == 10,
        st.radix_found == false,
        st.frac_index == k,
    ensures
        parse_loop(r, pos, st) == parse_loop(
            r,
            pos + (k - start),
            (PState {
                digs: Seq::new(MAX_LEN as nat, |p: int| frac_digs(s, stop, start, p)),
                frac_index: start,
                ..st
            }),
        ),
    decreases k - start,
{
    if k == start {
        assert(st.digs =~= Seq::new(MAX_LEN as nat, |p: int| frac_digs(s, stop, start, p)));
        assert(st == (PState {
            digs: Seq::new(MAX_LEN as nat, |p: int| frac_digs(s, stop, start, p)),
            frac_index: start,
            ..st
        }));
    } else {
        let d = s[k - 1];
        let c = r[pos];
        assert(r[pos + 0] == digit_char(s[k - 1 - 0]));
        assert(c == digit_char(d));
        lemma_digit_char_props(d);
        let st2 = PState {
            digs: st.digs.update(k - 1, dec_digit_val(c)),
            frac_index: k - 1,
            sep_found: false,
            ..st
        };
        assert(parse_loop(r, pos, st) == parse_loop(r, pos + 1, st2));
        assert(forall|t: int| 0 <= t < (k - 1) - start ==> #[trigger] r[(pos + 1) + t]
            == digit_char(s[(k - 1) - 1 - t])) by {
            assert forall|t: int| #![trigger r[(pos + 1) + t]] 0 <= t < (k - 1) - start implies r[(
            pos + 1) + t] == digit_char(s[(k - 1) - 1 - t]) by {
                assert(r[pos + (t + 1)] == digit_char(s[k - 1 - (t + 1)]));
            }
        }
        assert(forall|p: int| 0 <= p < MAX_LEN ==> st2.digs[p] == frac_digs(s, stop, k - 1, p));
        lemma_parse_frac_phase(s, r, stop, start, k - 1, pos + 1, st2);
    }
}

/// Rendering a non-negative value in decimal and parsing the text back
/// recovers exactly the value: the parse succeeds, consumes the whole
/// text, and yields the same magnitude.  (A negative value's text starts
/// with a sign, which the number scanner leaves to the lexer, so the
/// round trip through parse alone holds of non-negative values.)
pub proof fn lemma_render_parse_round_trip(a: BigDec)
    requires
        a.wf(),
        a.neg == false,
    ensures
        ({
            let r = spec_render(false, a.digits@);
            spec_parse(r, 0) == (ParseRes::Num { v: a.mag(), end: r.len() as int })
        }),
{
    let s = a.digits@;
    let r = spec_render(false, s);
    let start = start_from(s, 0);
    let stop = stop_from(s, MAX_LEN as int);
    lemma_start_bounds(s, 0);
    lemma_stop_bounds(s, MAX_LEN as int);
    if digits_val(s) == 0 {
        assert(r =~= seq!['0']);
        assert(is_dec_digit('0') && dec_digit_val('0') == 0) by {
            lemma_digit_char_props(0);
        }
        assert(r[0] == '0');
        let st0 = PState {
            digs: Seq::new(MAX_LEN as nat, |j: int| 0u8).update(FRAC_LEN as int, 0u8),
            shift_count: 1,
            dot_found: false,
            sep_found: false,
            radix: 10,
            radix_found: false,
            frac_index: FRAC_LEN as int,
            first_zero: true,
        };
        assert(parse_loop(r, 1, st0) == (LoopEnd::Done { st: st0, end: 1 }));
        assert(st0.digs =~= Seq::new(MAX_LEN as nat, |j: int| 0u8));
        lemma_digits_val_zero(st0.digs);
        assert(spec_parse(r, 0) == (ParseRes::Num { v: 0, end: 1 }));
    } else {
        let ints = rev_chars(s, FRAC_LEN as int, stop);
        lemma_rev_chars_len(s, FRAC_LEN as int, stop);
        assert(r == ints + (if start < FRAC_LEN {
            seq!['.'] + rev_chars(s, start, FRAC_LEN as int)
        } else {
            Seq::<char>::empty()
        }));
        let d0 = s[stop - 1];
        lemma_rev_chars_index(s, FRAC_LEN as int, stop, 0);
        assert(r[0] == digit_char(d0));
        lemma_digit_char_props(d0);
        let st0 = PState {
            digs: Seq::new(MAX_LEN as nat, |j: int| 0u8).update(FRAC_LEN as int, dec_digit_val(r[0])),
            shift_count: 1,
            dot_found: false,
            sep_found: false,
            radix: 10,
            radix_found: false,
            frac_index: FRAC_LEN as int,
            first_zero: dec_digit_val(r[0]) == 0,
        };
        assert(spec_parse(r, 0) == parse_finish(parse_loop(r, 1, st0)));
        assert(forall|p: int| 0 <= p < MAX_LEN ==> st0.digs[p] == int_digs(s, stop - 1, stop, p));
        assert(forall|t: int| 0 <= t < stop - 1 - FRAC_LEN ==> #[trigger] r[1 + t] == digit_char(
            s[stop - 2 - t],
        )) by {
            assert forall|t: int| #![trigger r[1 + t]] 0 <= t < stop - 1 - FRAC_LEN implies r[1
                + t] == digit_char(s[stop - 2 - t]) by {
                lemma_rev_chars_index(s, FRAC_LEN as int, stop, 1 + t);
            }
        }
        lemma_parse_int_phase(s, r, stop, stop - 1, 1, st0);
        let st_a = PState {
            digs: Seq::new(MAX_LEN as nat, |p: int| int_digs(s, FRAC_LEN as int, stop, p)),
            shift_count: (stop - FRAC_LEN) as nat,
            ..st0
        };
        let pos_a = stop - FRAC_LEN;
        assert(parse_loop(r, 1, st0) == parse_loop(r, pos_a, st_a));
        if start == FRAC_LEN {
            assert(r.len() == pos_a);
            assert(parse_loop(r, pos_a, st_a) == (LoopEnd::Done { st: st_a, end: pos_a }));
            assert(st_a.digs =~= s) by {
                assert forall|p: int| 0 <= p < MAX_LEN implies st_a.digs[p] == s[p] by {
                    if p < FRAC_LEN {
                        lemma_start_zeros(s, 0, p);
                    } else if p >= stop {
                        lemma_stop_zeros(s, MAX_LEN as int, p);
                    }
                }
            }
            assert(spec_parse(r, 0) == (ParseRes::Num { v: a.mag(), end: r.len() as int }));
        } else {
            let fracs = rev_chars(s, start, FRAC_LEN as int);
            lemma_rev_chars_len(s, start, FRAC_LEN as int);
            assert(r.len() == pos_a + 1 + (FRAC_LEN - start));
            assert(r[pos_a] == '.');
            assert(('.' as u32) == 46);
            let st_b = PState { dot_found: true, ..st_a };
            assert(parse_loop(r, pos_a, st_a) == parse_loop(r, pos_a + 1, st_b));
            assert(forall|p: int| 0 <= p < MAX_LEN ==> st_b.digs[p] == frac_digs(
                s,
                stop,
                FRAC_LEN as int,
                p,
            )) by {
                assert forall|p: int| 0 <= p < MAX_LEN implies st_b.digs[p] == frac_digs(
                    s,
                    stop,
                    FRAC_LEN as int,
                    p,
                ) by {}
            }
            assert(forall|t: int| 0 <= t < FRAC_LEN - start ==> #[trigger] r[pos_a + 1 + t]
                == digit_char(s[FRAC_LEN - 1 - t])) by {
                assert forall|t: int| #![trigger r[pos_a + 1 + t]] 0 <= t < FRAC_LEN - start
                    implies r[pos_a + 1 + t] == digit_char(s[FRAC_LEN - 1 - t]) by {
                    lemma_rev_chars_index(s, start, FRAC_LEN as int, t);
                    assert(r[pos_a + 1 + t] == fracs[t]);
                }
            }
            lemma_parse_frac_phase(s, r, stop, start, FRAC_LEN as int, pos_a + 1, st_b);
            let st_c = PState {
                digs: Seq::new(MAX_LEN as nat, |p: int| frac_digs(s, stop, start, p)),
                frac_index: start,
                ..st_b
            };
            let pos_c = pos_a + 1 + (FRAC_LEN - start);
            assert(parse_loop(r, pos_a + 1, st_b) == parse_loop(r, pos_c, st_c));
            assert(r.len() == pos_c);
            assert(parse_loop(r, pos_c, st_c) == (LoopEnd::Done { st: st_c, end: pos_c }));
            assert(st_c.digs =~= s) by {
                assert forall|p: int| 0 <= p < MAX_LEN implies st_c.digs[p] == s[p] by {
                    if p < start {
                        lemma_start_zeros(s, 0, p);
                    } else if p >= stop {
                        lemma_stop_zeros(s, MAX_LEN as int, p);
                    }
                }
            }
            assert(spec_parse(r, 0) == (ParseRes::Num { v: a.mag(), end: r.len() as int }));
        }
    }
}

impl PartialEq for BigDec {
    /// Value equality: equal magnitudes, and equal signs unless the
    /// magnitude is zero.
    fn eq(&self, other: &BigDec) -> (r: bool) {
        let mut i: usize = 0;
        let mut all_zero = true;
        let mut same = true;
        while i < MAX_LEN
            invariant
                i <= MAX_LEN,
                all_zero == (forall|j: int| 0 <= j < i ==> self.digits@[j] == 0),
                same == (forall|j: int| 0 <= j < i ==> self.digits@[j] == other.digits@[j]),
            decreases MAX_LEN - i,
        {
            if self.digits[i] != 0 {
                all_zero = false;
            }
            if self.digits[i] != other.digits[i] {
                same = false;
            }
            i = i + 1;
        }
        proof {
            if same {
                assert(self.digits@ =~= other.digits@);
            }
            if all_zero {
                lemma_digits_val_zero(self.digits@);
            } else {
                let j = choose|j: int| 0 <= j < MAX_LEN && self.digits@[j] != 0;
                lemma_digits_val_nonzero(self.digits@, j);
                lemma_pow10_pos(j as nat);
            }
        }
        same && (self.neg == other.neg || all_zero)
    }
}

impl vstd::std_specs::cmp::PartialEqSpecImpl for BigDec {
    open spec fn obeys_eq_spec() -> bool {
        true
    }

    open spec fn eq_spec(&self, other: &BigDec) -> bool {
        self.digits@ == other.digits@ && (self.neg == other.neg || digits_val(self.digits@) == 0)
    }
}

/// Under well-formedness, the equality that `==` tests is value equality.
pub proof fn lemma_eq_is_val_eq(a: BigDec, b: BigDec)
    requires
        a.wf(),
        b.wf(),
    ensures
        a.eq_spec(&b) <==> a.val() == b.val(),
{
    if a.eq_spec(&b) {
    } else {
        if a.digits@ != b.digits@ {
            lemma_digits_val_unique_vals(a.digits@, b.digits@);
        }
    }
}

/// Two distinct sequences of decimal digits of one length denote distinct
/// values.
proof fn lemma_digits_val_unique_vals(s: Seq<u8>, t: Seq<u8>)
    requires
        digits_ok(s),
        digits_ok(t),
        s.len() == t.len(),
        s != t,
    ensures
        digits_val(s) != digits_val(t),
    decreases s.len(),
{
    if s.len() == 0 {
        assert(s =~= t);
    } else {
        if s[0] == t[0] {
            assert(s.drop_first() != t.drop_first()) by {
                if s.drop_first() == t.drop_first() {
                    assert forall|j: int| #![trigger s[j]] 0 <= j < s.len() implies s[j] == t[j] by {
                        if j > 0 {
                            assert(s.drop_first()[j - 1] == s[j]);
                            assert(t.drop_first()[j - 1] == t[j]);
                        }
                    }
                    assert(s =~= t);
                }
            }
            lemma_digits_val_unique_vals(s.drop_first(), t.drop_first());
        } else {
            let ds = digits_val(s.drop_first());
            let dt = digits_val(t.drop_first());
            if ds == dt {
            } else {
                assert(digits_val(s) != digits_val(t)) by (nonlinear_arith)
                    requires
                        digits_val(s) == s[0] + 10 * ds,
                        digits_val(t) == t[0] + 10 * dt,
                        s[0] <= 9,
                        t[0] <= 9,
                        ds != dt,
                        s[0] != t[0],
                ;
            }
        }
    }
}

} // verus!
