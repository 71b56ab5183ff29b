//! The fixed table of unary numeric functions reachable from expressions:
//! `zero`, `same`, `sqrt` (Newton's method) and `cos` (Taylor series).

use vstd::prelude::*;

use crate::big_dec;
use crate::digits::pow10;
use crate::big_dec::res_val;
use crate::big_dec::res_wf;
use crate::big_dec::spec_add;
use crate::big_dec::spec_div;
use crate::big_dec::spec_mul;
use crate::big_dec::spec_sub;
use crate::big_dec::BigDec;
use crate::digits::FRAC_LEN;
use crate::digits::MAX_LEN;
use crate::token::Name;

verus! {

/// What a function call can report instead of a value.
pub enum Error {
    /// The underlying arithmetic failed.
    CallFailed(big_dec::Error),
    /// No function of that name exists.
    UnknownFunc,
}

impl Error {
    /// The display text of each function error.
    pub open spec fn message(self) -> Seq<char> {
        match self {
            Error::CallFailed(e) => e.message(),
            Error::UnknownFunc => "unknown func"@,
        }
    }

    pub fn to_string(&self) -> (r: String)
        ensures
            r@ == self.message(),
    {
        match *self {
            Error::CallFailed(ref bd_err) => bd_err.to_string(),
            Error::UnknownFunc => String::from_str("unknown func"),
        }
    }
}

/// One round of Newton's method for the square root, from iterate r:
/// the next iterate is (r + x/r) / 2, and the iteration stops early when
/// two successive iterates compare equal.
pub open spec fn sqrt_iter(x: int, r: int, fuel: nat) -> Result<int, big_dec::Error>
    decreases fuel,
{
    if fuel == 0 {
        Ok(r)
    } else {
        match spec_div(x, r) {
            Err(e) => Err(e),
            Ok(adr) => match spec_add(r, adr) {
                Err(e) => Err(e),
                Ok(s) => match spec_div(s, (2 * pow10(FRAC_LEN as nat)) as int) {
                    Err(e) => Err(e),
                    Ok(r2) => if r == r2 {
                        Ok(r)
                    } else {
                        sqrt_iter(x, r2, (fuel - 1) as nat)
                    },
                },
            },
        }
    }
}

/// What the square root returns: Newton iteration from 1, for at most
/// twice the digit width many rounds.
pub open spec fn spec_sqrt(x: int) -> Result<int, big_dec::Error> {
    sqrt_iter(x, pow10(FRAC_LEN as nat) as int, (2 * MAX_LEN) as nat)
}

/// One round of the alternating Taylor series for the cosine: the term is
/// advanced by x^2 / ((2n)(2n-1)), added or subtracted, and the iteration
/// stops early when the partial sum no longer changes.
pub open spec fn cos_iter(x2: int, comp: int, neg: bool, n: int, step: int, fuel: nat) -> Result<
    int,
    big_dec::Error,
>
    decreases fuel,
{
    if fuel == 0 {
        Ok(comp)
    } else {
        let one = pow10(FRAC_LEN as nat) as int;
        match spec_mul(step, x2) {
            Err(e) => Err(e),
            Ok(up) => match spec_add(n, n) {
                Err(e) => Err(e),
                Ok(twice_n) => match spec_sub(twice_n, one) {
                    Err(e) => Err(e),
                    Ok(tnm1) => match spec_mul(twice_n, tnm1) {
                        Err(e) => Err(e),
                        Ok(down) => match spec_div(up, down) {
                            Err(e) => Err(e),
                            Ok(step2) => {
                                let added = if neg {
                                    spec_sub(comp, step2)
                                } else {
                                    spec_add(comp, step2)
                                };
                                match added {
                                    Err(e) => Err(e),
                                    Ok(comp2) => if comp2 == comp {
                                        Ok(comp2)
                                    } else {
                                        match spec_add(n, one) {
                                            Err(e) => Err(e),
                                            Ok(n2) => cos_iter(
                                                x2,
                                                comp2,
                                                !neg,
                                                n2,
                                                step2,
                                                (fuel - 1) as nat,
                                            ),
                                        }
                                    },
                                }
                            },
                        },
                    },
                },
            },
        }
    }
}

/// What the cosine returns: the alternating series from 1, for at most a
/// fixed number of terms.
pub open spec fn spec_cos(x: int) -> Result<int, big_dec::Error> {
    let one = pow10(FRAC_LEN as nat) as int;
    match spec_mul(x, x) {
        Err(e) => Err(e),
        Ok(x2) => cos_iter(x2, one, true, one, one, 30),
    }
}

/// What dispatching a function name yields: the four table entries in
/// order, or UnknownFunc.
pub open spec fn spec_eval_func(name: Seq<char>, v: int) -> Result<int, Error> {
    if name == "zero"@ {
        Ok(0)
    } else if name == "same"@ {
        Ok(v)
    } else if name == "sqrt"@ {
        match spec_sqrt(v) {
            Ok(r) => Ok(r),
            Err(e) => Err(Error::CallFailed(e)),
        }
    } else if name == "cos"@ {
        match spec_cos(v) {
            Ok(r) => Ok(r),
            Err(e) => Err(Error::CallFailed(e)),
        }
    } else {
        Err(Error::UnknownFunc)
    }
}

/// Whether a name's characters spell exactly the given string.
fn name_is(name: &Name, s: &str) -> (r: bool)
    requires
        name.wf(),
    ensures
        r == (name.chars() == s@),
{
    let n = s.unicode_len();
    if n != name.len as usize {
        proof {
            assert(name.chars().len() == name.len as nat);
        }
        return false;
    }
    let mut i: usize = 0;
    while i < n
        invariant
            name.wf(),
            i <= n,
            n == s@.len(),
            n == name.len,
            forall|j: int| 0 <= j < i ==> name.chars()[j] == s@[j],
        decreases n - i,
    {
        let c = s.get_char(i);
        let b = name.bytes[i];
        if c as u32 != b as u32 {
            proof {
                assert(name.chars()[i as int] == name.bytes@[i as int] as char);
                if name.chars()[i as int] == s@[i as int] {
                    assert((name.bytes@[i as int] as char) as u32 == b as u32);
                }
            }
            return false;
        }
        proof {
            assert((b as char) as u32 == b as u32);
            assert(name.chars()[i as int] == s@[i as int]);
        }
        i = i + 1;
    }
    proof {
        assert(name.chars() =~= s@);
    }
    true
}

/// Always zero, whatever the argument.
pub fn bd_zero(_arg: BigDec) -> (r: Result<BigDec, big_dec::Error>)
    ensures
        res_val(r) == Ok::<int, big_dec::Error>(0),
        res_wf(r),
{
    Ok(BigDec::zero())
}

/// The argument unchanged.
pub fn bd_same(arg: BigDec) -> (r: Result<BigDec, big_dec::Error>)
    requires
        arg.wf(),
    ensures
        res_val(r) == Ok::<int, big_dec::Error>(arg.val()),
        res_wf(r),
{
    Ok(arg)
}

/// Newton's method for the square root, starting from 1.
pub fn bd_sqrt(arg: BigDec) -> (r: Result<BigDec, big_dec::Error>)
    requires
        arg.wf(),
    ensures
        res_val(r) == spec_sqrt(arg.val()),
        res_wf(r),
{
    let mut r = BigDec::from_i32(1);
    let two = BigDec::from_i32(2);
    let ghost p20 = pow10(FRAC_LEN as nat);
    proof {
        crate::digits::lemma_pow10_pos(FRAC_LEN as nat);
        assert(r.val() == 1 * p20);
        assert(two.val() == 2 * p20);
    }
    let limit = BigDec::max_len() * 2;
    let mut i: usize = 0;
    while i < limit
        invariant
            i <= limit,
            limit == 2 * MAX_LEN,
            arg.wf(),
            r.wf(),
            two.wf(),
            two.val() == (2 * pow10(FRAC_LEN as nat)) as int,
            spec_sqrt(arg.val()) == sqrt_iter(arg.val(), r.val(), (limit - i) as nat),
        decreases limit - i,
    {
        let arg_div_r = match BigDec::div(arg, r) {
            Ok(v) => v,
            Err(e) => {
                return Err(e);
            },
        };
        let r_add_adr = match BigDec::add(r, arg_div_r) {
            Ok(v) => v,
            Err(e) => {
                return Err(e);
            },
        };
        let r_aadr_div2 = match BigDec::div(r_add_adr, two) {
            Ok(v) => v,
            Err(e) => {
                return Err(e);
            },
        };
        if BigDec::compare(r, r_aadr_div2) == 0 {
            return Ok(r);
        }
        r = r_aadr_div2;
        i = i + 1;
    }
    Ok(r)
}

/// The alternating Taylor series for the cosine.
pub fn bd_cos(arg: BigDec) -> (r: Result<BigDec, big_dec::Error>)
    requires
        arg.wf(),
    ensures
        res_val(r) == spec_cos(arg.val()),
        res_wf(r),
{
    let one = BigDec::from_i32(1);
    let ghost p20 = pow10(FRAC_LEN as nat);
    proof {
        crate::digits::lemma_pow10_pos(FRAC_LEN as nat);
        assert(one.val() == 1 * p20);
    }
    let arg_square = match BigDec::mul(arg, arg) {
        Ok(v) => v,
        Err(e) => {
            return Err(e);
        },
    };
    let mut comp_result = one;
    let mut neg = true;
    let mut n = one;
    let mut step = one;
    let limit: usize = 30;
    let mut i: usize = 0;
    while i < limit
        invariant
            i <= limit,
            limit == 30,
            one.wf(),
            one.val() == pow10(FRAC_LEN as nat) as int,
            arg_square.wf(),
            comp_result.wf(),
            n.wf(),
            step.wf(),
            spec_cos(arg.val()) == cos_iter(
                arg_square.val(),
                comp_result.val(),
                neg,
                n.val(),
                step.val(),
                (limit - i) as nat,
            ),
        decreases limit - i,
    {
        let up = match BigDec::mul(step, arg_square) {
            Ok(v) => v,
            Err(e) => {
                return Err(e);
            },
        };
        let twice_n = match BigDec::add(n, n) {
            Ok(v) => v,
            Err(e) => {
                return Err(e);
            },
        };
        let twice_n_minus_one = match BigDec::sub(twice_n, one) {
            Ok(v) => v,
            Err(e) => {
                return Err(e);
            },
        };
        let down = match BigDec::mul(twice_n, twice_n_minus_one) {
            Ok(v) => v,
            Err(e) => {
                return Err(e);
            },
        };
        let step2 = match BigDec::div(up, down) {
            Ok(v) => v,
            Err(e) => {
                return Err(e);
            },
        };
        step = step2;
        let prev_comp_result = comp_result;
        if neg {
            comp_result = match BigDec::sub(comp_result, step) {
                Ok(v) => v,
                Err(e) => {
                    return Err(e);
                },
            };
        } else {
            comp_result = match BigDec::add(comp_result, step) {
                Ok(v) => v,
                Err(e) => {
                    return Err(e);
                },
            };
        }
        if BigDec::compare(comp_result, prev_comp_result) == 0 {
            return Ok(comp_result);
        }
        neg = !neg;
        n = match BigDec::add(n, one) {
            Ok(v) => v,
            Err(e) => {
                return Err(e);
            },
        };
        i = i + 1;
    }
    Ok(comp_result)
}

/// Dispatches a function name from the fixed table and applies it.
pub fn eval_func(name: Name, arg: BigDec) -> (r: Result<BigDec, Error>)
    requires
        name.wf(),
        arg.wf(),
    ensures
        match r {
            Ok(v) => v.wf() && spec_eval_func(name.chars(), arg.val()) == Ok::<int, Error>(
                v.val(),
            ),
            Err(e) => spec_eval_func(name.chars(), arg.val()) == Err::<int, Error>(e),
        },
{
    if name_is(&name, "zero") {
        return match bd_zero(arg) {
            Ok(v) => Ok(v),
            Err(e) => Err(Error::CallFailed(e)),
        };
    }
    if name_is(&name, "same") {
        return match bd_same(arg) {
            Ok(v) => Ok(v),
            Err(e) => Err(Error::CallFailed(e)),
        };
    }
    if name_is(&name, "sqrt") {
        return match bd_sqrt(arg) {
            Ok(v) => Ok(v),
            Err(e) => Err(Error::CallFailed(e)),
        };
    }
    if name_is(&name, "cos") {
        return match bd_cos(arg) {
            Ok(v) => Ok(v),
            Err(e) => Err(Error::CallFailed(e)),
        };
    }
    Err(Error::UnknownFunc)
}

} // verus!
