//! Little-endian digit vectors and their numeric value.
//!
//! The arithmetic engine stores a number as a fixed-length array of decimal
//! digits, least significant first.  This module defines the value of such a
//! sequence, the lemmas that connect digit-by-digit manipulation to that
//! value, and the generic carry/borrow primitives shared by the public
//! operations.

use vstd::prelude::*;

verus! {

/// Number of digits in the fractional region of a fixed-point value.
pub const FRAC_LEN: usize = 20;

/// Number of digits in the integer region of a fixed-point value.
pub const INT_LEN: usize = 20;

/// Total number of digits held by one value.
pub const MAX_LEN: usize = 40;

/// Width of the double-length accumulator used by multiplication.
pub const MUL_LEN: usize = 81;

/// Width of the working registers used by long division.
pub const DIV_LEN: usize = 41;

/// 10 raised to the power n.
pub open spec fn pow10(n: nat) -> nat
    decreases n,
{
    if n == 0 {
        1
    } else {
        10 * pow10((n - 1) as nat)
    }
}

/// Every entry of s is a decimal digit.
pub open spec fn digits_ok(s: Seq<u8>) -> bool {
    forall|i: int| 0 <= i < s.len() ==> s[i] <= 9
}

/// Every entry of s is a hexadecimal digit; the hex display path stores
/// such digits in the same vectors.
pub open spec fn hex_ok(s: Seq<u8>) -> bool {
    forall|i: int| 0 <= i < s.len() ==> s[i] <= 15
}

/// The number denoted by a little-endian base-10 digit sequence.
pub open spec fn digits_val(s: Seq<u8>) -> nat
    decreases s.len(),
{
    if s.len() == 0 {
        0
    } else {
        s[0] as nat + 10 * digits_val(s.drop_first())
    }
}

pub proof fn lemma_pow10_pos(n: nat)
    ensures
        pow10(n) >= 1,
    decreases n,
{
    if n > 0 {
        lemma_pow10_pos((n - 1) as nat);
    }
}

pub proof fn lemma_pow10_adds(a: nat, b: nat)
    ensures
        pow10(a + b) == pow10(a) * pow10(b),
    decreases a,
{
    if a == 0 {
        assert(a + b == b);
        assert(pow10(a) == 1);
        assert(pow10(a + b) == pow10(a) * pow10(b));
    } else {
        lemma_pow10_adds((a - 1) as nat, b);
        assert(pow10(a + b) == 10 * pow10((a + b - 1) as nat));
        assert((a + b - 1) as nat == (a - 1) as nat + b);
        assert(pow10(a) == 10 * pow10((a - 1) as nat));
        assert(pow10(a + b) == pow10(a) * pow10(b)) by (nonlinear_arith)
            requires
                pow10(a + b) == 10 * pow10((a - 1) as nat + b),
                pow10((a - 1) as nat + b) == pow10((a - 1) as nat) * pow10(b),
                pow10(a) == 10 * pow10((a - 1) as nat),
        ;
        assert(pow10(a + b) == pow10(a) * pow10(b));
    }
}

pub proof fn lemma_pow10_increases(a: nat, b: nat)
    requires
        a <= b,
    ensures
        pow10(a) <= pow10(b),
{
    lemma_pow10_adds(a, (b - a) as nat);
    lemma_pow10_pos((b - a) as nat);
    lemma_pow10_pos(a);
    assert(pow10(a) * 1 <= pow10(a) * pow10((b - a) as nat)) by (nonlinear_arith)
        requires pow10((b - a) as nat) >= 1, pow10(a) >= 1;
}

/// The value of a digit sequence whose entries are all zero is zero.
pub proof fn lemma_digits_val_zero(s: Seq<u8>)
    requires
        forall|i: int| 0 <= i < s.len() ==> s[i] == 0,
    ensures
        digits_val(s) == 0,
    decreases s.len(),
{
    if s.len() > 0 {
        lemma_digits_val_zero(s.drop_first());
    }
}

/// A sequence of decimal digits denotes a value below pow10 of its length.
pub proof fn lemma_digits_val_bound(s: Seq<u8>)
    requires
        digits_ok(s),
    ensures
        digits_val(s) < pow10(s.len()),
    decreases s.len(),
{
    if s.len() == 0 {
    } else {
        lemma_digits_val_bound(s.drop_first());
        assert(digits_val(s.drop_first()) + 1 <= pow10((s.len() - 1) as nat));
        assert(10 * (digits_val(s.drop_first()) + 1) <= 10 * pow10((s.len() - 1) as nat))
            by (nonlinear_arith)
            requires digits_val(s.drop_first()) + 1 <= pow10((s.len() - 1) as nat);
    }
}

/// Splitting a digit sequence at i splits its value at weight pow10(i).
pub proof fn lemma_digits_val_split(s: Seq<u8>, i: int)
    requires
        0 <= i <= s.len(),
    ensures
        digits_val(s) == digits_val(s.take(i)) + pow10(i as nat) * digits_val(s.skip(i)),
    decreases i,
{
    if i == 0 {
        assert(s.take(0) =~= Seq::<u8>::empty());
        assert(s.skip(0) =~= s);
        assert(digits_val(Seq::<u8>::empty()) == 0);
        assert(pow10(0) == 1);
        assert(digits_val(s) == 0 + 1 * digits_val(s)) by (nonlinear_arith);
    } else {
        lemma_digits_val_split(s.drop_first(), i - 1);
        assert(s.take(i).drop_first() =~= s.drop_first().take(i - 1));
        assert(s.skip(i) =~= s.drop_first().skip(i - 1));
        assert(s.take(i).len() > 0);
        assert(s.take(i)[0] == s[0]);
        let p = pow10((i - 1) as nat);
        let lo = digits_val(s.drop_first().take(i - 1));
        let hi = digits_val(s.drop_first().skip(i - 1));
        assert(digits_val(s) == s[0] as nat + 10 * (lo + p * hi));
        assert(digits_val(s.take(i)) == s[0] as nat + 10 * lo);
        assert(pow10(i as nat) == 10 * p);
        assert(s[0] as nat + 10 * (lo + p * hi) == (s[0] as nat + 10 * lo) + (10 * p) * hi)
            by (nonlinear_arith);
    }
}

/// Extending a prefix by one digit adds that digit at weight pow10(i).
pub proof fn lemma_digits_val_take_step(s: Seq<u8>, i: int)
    requires
        0 <= i < s.len(),
    ensures
        digits_val(s.take(i + 1)) == digits_val(s.take(i)) + s[i] * pow10(i as nat),
{
    lemma_digits_val_split(s.take(i + 1), i);
    assert(s.take(i + 1).take(i) =~= s.take(i));
    let tail = s.take(i + 1).skip(i);
    assert(tail.len() == 1);
    assert(tail[0] == s[i]);
    assert(tail.drop_first() =~= Seq::<u8>::empty());
    assert(digits_val(Seq::<u8>::empty()) == 0);
    assert(digits_val(tail) == s[i]);
    assert(pow10(i as nat) * (s[i] as nat) == (s[i] as nat) * pow10(i as nat)) by (nonlinear_arith);
}

/// The canonical little-endian decimal digits of n, over len places.
pub open spec fn nat_to_digits(n: nat, len: nat) -> Seq<u8>
    decreases len,
{
    if len == 0 {
        Seq::empty()
    } else {
        seq![(n % 10) as u8] + nat_to_digits(n / 10, (len - 1) as nat)
    }
}

/// A sequence of decimal digits is the canonical digit sequence of its own
/// value.
pub proof fn lemma_digits_canonical(s: Seq<u8>)
    requires
        digits_ok(s),
    ensures
        s == nat_to_digits(digits_val(s), s.len()),
    decreases s.len(),
{
    if s.len() > 0 {
        let n = digits_val(s);
        let r = digits_val(s.drop_first());
        assert(n == r * 10 + s[0]) by (nonlinear_arith)
            requires n == s[0] + 10 * r;
        vstd::arithmetic::div_mod::lemma_fundamental_div_mod_converse(
            n as int,
            10,
            r as int,
            s[0] as int,
        );
        lemma_digits_canonical(s.drop_first());
        assert(s =~= seq![(n % 10) as u8] + nat_to_digits(n / 10, (s.len() - 1) as nat));
    } else {
        assert(s =~= nat_to_digits(digits_val(s), s.len()));
    }
}

/// 16 raised to the power n.
pub open spec fn pow16(n: nat) -> nat
    decreases n,
{
    if n == 0 {
        1
    } else {
        16 * pow16((n - 1) as nat)
    }
}

pub proof fn lemma_pow16_pos(n: nat)
    ensures
        pow16(n) >= 1,
    decreases n,
{
    if n > 0 {
        lemma_pow16_pos((n - 1) as nat);
    }
}

/// The number denoted by a little-endian base-16 digit sequence.
pub open spec fn hex_val(s: Seq<u8>) -> nat
    decreases s.len(),
{
    if s.len() == 0 {
        0
    } else {
        s[0] as nat + 16 * hex_val(s.drop_first())
    }
}

/// A sequence of hexadecimal digits denotes a value below pow16 of its
/// length.
pub proof fn lemma_hex_val_bound(s: Seq<u8>)
    requires
        hex_ok(s),
    ensures
        hex_val(s) < pow16(s.len()),
    decreases s.len(),
{
    if s.len() == 0 {
    } else {
        lemma_hex_val_bound(s.drop_first());
        assert(16 * (hex_val(s.drop_first()) + 1) <= 16 * pow16((s.len() - 1) as nat))
            by (nonlinear_arith)
            requires hex_val(s.drop_first()) + 1 <= pow16((s.len() - 1) as nat);
    }
}

/// The value of a hex digit sequence whose entries are all zero is zero.
pub proof fn lemma_hex_val_zero(s: Seq<u8>)
    requires
        forall|i: int| 0 <= i < s.len() ==> s[i] == 0,
    ensures
        hex_val(s) == 0,
    decreases s.len(),
{
    if s.len() > 0 {
        lemma_hex_val_zero(s.drop_first());
    }
}

/// The canonical little-endian base-16 digits of n, over len places.
pub open spec fn nat_to_hex(n: nat, len: nat) -> Seq<u8>
    decreases len,
{
    if len == 0 {
        Seq::empty()
    } else {
        seq![(n % 16) as u8] + nat_to_hex(n / 16, (len - 1) as nat)
    }
}

/// A sequence of hexadecimal digits is the canonical base-16 digit
/// sequence of its own value.
pub proof fn lemma_hex_canonical(s: Seq<u8>)
    requires
        hex_ok(s),
    ensures
        s == nat_to_hex(hex_val(s), s.len()),
    decreases s.len(),
{
    if s.len() > 0 {
        let n = hex_val(s);
        let r = hex_val(s.drop_first());
        assert(n == r * 16 + s[0]) by (nonlinear_arith)
            requires n == s[0] + 16 * r;
        vstd::arithmetic::div_mod::lemma_fundamental_div_mod_converse(
            n as int,
            16,
            r as int,
            s[0] as int,
        );
        lemma_hex_canonical(s.drop_first());
        assert(s =~= seq![(n % 16) as u8] + nat_to_hex(n / 16, (s.len() - 1) as nat));
    } else {
        assert(s =~= nat_to_hex(hex_val(s), s.len()));
    }
}

/// One digit of a decimal digit vector, read off its value.
pub proof fn lemma_digit_extract(s: Seq<u8>, i: int)
    requires
        digits_ok(s),
        0 <= i < s.len(),
    ensures
        s[i] == (digits_val(s) / pow10(i as nat)) % 10,
{
    lemma_digits_val_split(s, i);
    let lo = digits_val(s.take(i));
    let hi = digits_val(s.skip(i));
    assert(s.skip(i)[0] == s[i]);
    assert(s.skip(i).drop_first() =~= s.skip(i + 1));
    let rest = digits_val(s.skip(i + 1));
    assert(hi == s[i] + 10 * rest);
    assert(digits_ok(s.take(i)));
    lemma_digits_val_bound(s.take(i));
    lemma_pow10_pos(i as nat);
    assert(digits_val(s) == hi * pow10(i as nat) + lo) by (nonlinear_arith)
        requires digits_val(s) == lo + pow10(i as nat) * hi;
    vstd::arithmetic::div_mod::lemma_fundamental_div_mod_converse(
        digits_val(s) as int,
        pow10(i as nat) as int,
        hi as int,
        lo as int,
    );
    vstd::arithmetic::div_mod::lemma_fundamental_div_mod_converse(
        hi as int,
        10,
        rest as int,
        s[i] as int,
    );
}

/// Appending a hex digit adds it at the top weight.
pub proof fn lemma_hex_val_push(s: Seq<u8>, v: u8)
    ensures
        hex_val(s.push(v)) == hex_val(s) + v * pow16(s.len()),
    decreases s.len(),
{
    if s.len() == 0 {
        assert(s.push(v).drop_first() =~= Seq::<u8>::empty());
        assert(hex_val(Seq::<u8>::empty()) == 0);
        assert(s.push(v)[0] == v);
        assert((v as nat) * pow16(0) == v) by (nonlinear_arith)
            requires pow16(0) == 1;
        assert(s =~= Seq::<u8>::empty());
    } else {
        lemma_hex_val_push(s.drop_first(), v);
        assert(s.push(v).drop_first() =~= s.drop_first().push(v));
        assert(s.push(v)[0] == s[0]);
        let p = pow16((s.len() - 1) as nat);
        assert(16 * (hex_val(s.drop_first()) + (v as nat) * p) == 16 * hex_val(s.drop_first()) + (
        v as nat) * (16 * p)) by (nonlinear_arith);
        assert(pow16(s.len()) == 16 * p);
    }
}

/// Zeros above position i do not contribute to the base-16 value.
pub proof fn lemma_hex_val_trunc(s: Seq<u8>, i: int)
    requires
        0 <= i <= s.len(),
        forall|j: int| i <= j < s.len() ==> s[j] == 0,
    ensures
        hex_val(s) == hex_val(s.take(i)),
    decreases s.len() - i,
{
    if i < s.len() {
        lemma_hex_val_trunc(s.take(s.len() - 1), i);
        assert(s.take(s.len() - 1).take(i) =~= s.take(i));
        assert(s.take(s.len() - 1).push(s[s.len() - 1]) =~= s);
        lemma_hex_val_push(s.take(s.len() - 1), s[s.len() - 1]);
        assert((0 as nat) * pow16(s.take(s.len() - 1).len()) == 0) by (nonlinear_arith);
        assert(hex_val(s) == hex_val(s.take(s.len() - 1)));
    } else {
        assert(s.take(i) =~= s);
    }
}

/// Ten to a power never exceeds sixteen to the same power.
pub proof fn lemma_pow10_le_pow16(n: nat)
    ensures
        pow10(n) <= pow16(n),
    decreases n,
{
    if n > 0 {
        lemma_pow10_le_pow16((n - 1) as nat);
        assert(10 * pow10((n - 1) as nat) <= 16 * pow16((n - 1) as nat)) by (nonlinear_arith)
            requires
                pow10((n - 1) as nat) <= pow16((n - 1) as nat),
                pow10((n - 1) as nat) >= 0,
        ;
    } else {
    }
}

/// Products grow with their factors.
pub proof fn lemma_mul_lt(x: nat, y: nat, bx: nat, by: nat)
    requires
        x < bx,
        y < by,
    ensures
        x * y < bx * by,
{
    assert(x * y < bx * by) by (nonlinear_arith)
        requires x < bx, y < by, 0 <= x, 0 <= y;
}

/// Zeros above position i do not contribute to the value.
pub proof fn lemma_digits_val_trunc(s: Seq<u8>, i: int)
    requires
        0 <= i <= s.len(),
        forall|j: int| i <= j < s.len() ==> s[j] == 0,
    ensures
        digits_val(s) == digits_val(s.take(i)),
{
    lemma_digits_val_split(s, i);
    lemma_digits_val_zero(s.skip(i));
    assert(pow10(i as nat) * 0 == 0) by (nonlinear_arith);
}

/// A nonzero digit at position i pushes the value to at least pow10(i).
pub proof fn lemma_digits_val_nonzero(s: Seq<u8>, i: int)
    requires
        0 <= i < s.len(),
        s[i] >= 1,
    ensures
        digits_val(s) >= pow10(i as nat),
{
    lemma_digits_val_split(s, i);
    assert(s.skip(i)[0] == s[i]);
    assert(digits_val(s.skip(i)) >= 1);
    let p = pow10(i as nat);
    assert(p * digits_val(s.skip(i)) >= p * 1) by (nonlinear_arith)
        requires digits_val(s.skip(i)) >= 1, p >= 0;
    lemma_pow10_pos(i as nat);
}

/// If two digit sequences agree above i and the one is smaller at i, its
/// value is smaller outright.
pub proof fn lemma_digits_cmp_at(lo: Seq<u8>, hi: Seq<u8>, i: int)
    requires
        lo.len() == hi.len(),
        digits_ok(lo),
        digits_ok(hi),
        0 <= i < lo.len(),
        lo.skip(i + 1) == hi.skip(i + 1),
        lo[i] < hi[i],
    ensures
        digits_val(lo) < digits_val(hi),
{
    lemma_digits_val_split(lo, i);
    lemma_digits_val_split(hi, i);
    assert(lo.skip(i).drop_first() =~= lo.skip(i + 1));
    assert(hi.skip(i).drop_first() =~= hi.skip(i + 1));
    assert(lo.skip(i)[0] == lo[i]);
    assert(hi.skip(i)[0] == hi[i]);
    let x = digits_val(lo.skip(i + 1));
    assert(digits_val(lo.skip(i)) == lo[i] + 10 * x);
    assert(digits_val(hi.skip(i)) == hi[i] + 10 * x);
    assert(digits_ok(lo.take(i)));
    lemma_digits_val_bound(lo.take(i));
    assert(lo.take(i).len() == i);
    let p = pow10(i as nat);
    let slo = digits_val(lo.skip(i));
    let shi = digits_val(hi.skip(i));
    assert(slo + 1 <= shi);
    assert(digits_val(lo) < p + p * slo);
    assert(p + p * slo == p * (slo + 1)) by (nonlinear_arith);
    assert(p * (slo + 1) <= p * shi) by (nonlinear_arith)
        requires slo + 1 <= shi, p >= 1;
    lemma_pow10_pos(i as nat);
    assert(digits_val(hi) >= p * shi);
}

/// Multiplying by pow10(t) and reducing modulo pow10(m) reduces the factor
/// modulo pow10(m - t).
pub proof fn lemma_mod_pow10_shift(x: nat, t: nat, m: nat)
    requires
        t <= m,
    ensures
        (x * pow10(t)) % pow10(m) == (x % pow10((m - t) as nat)) * pow10(t),
{
    let m1 = pow10((m - t) as nat);
    let pt = pow10(t);
    let pm = pow10(m);
    lemma_pow10_pos((m - t) as nat);
    lemma_pow10_pos(t);
    lemma_pow10_adds((m - t) as nat, t);
    assert(pm == m1 * pt);
    vstd::arithmetic::div_mod::lemma_fundamental_div_mod(x as int, m1 as int);
    vstd::arithmetic::div_mod::lemma_mod_division_less_than_divisor(x as int, m1 as int);
    let q = x as int / m1 as int;
    let r = x as int % m1 as int;
    assert(x * pt == q * pm + r * pt) by (nonlinear_arith)
        requires
            x == m1 * q + r,
            pm == m1 * pt,
    ;
    assert(r * pt < pm) by (nonlinear_arith)
        requires 0 <= r < m1, pm == m1 * pt, pt >= 1;
    assert(r * pt >= 0) by (nonlinear_arith)
        requires r >= 0, pt >= 1;
    vstd::arithmetic::div_mod::lemma_fundamental_div_mod_converse(
        (x * pt) as int,
        pm as int,
        q,
        r * pt,
    );
}

/// Reducing modulo a smaller power of ten after a larger one.
pub proof fn lemma_mod_pow10_mod(x: nat, a: nat, b: nat)
    requires
        a <= b,
    ensures
        (x % pow10(b)) % pow10(a) == x % pow10(a),
{
    lemma_pow10_pos(a);
    lemma_pow10_pos((b - a) as nat);
    lemma_pow10_adds(a, (b - a) as nat);
    vstd::arithmetic::div_mod::lemma_mod_mod(
        x as int,
        pow10(a) as int,
        pow10((b - a) as nat) as int,
    );
}

/// One step of long division: bringing the digit d down extends the
/// quotient by one digit, which stays below ten, and keeps the remainder
/// below the divisor.
pub proof fn lemma_long_div_step(pk: nat, d: nat, b: nat)
    requires
        b >= 1,
        d <= 9,
    ensures
        (10 * (pk % b) + d) / b <= 9,
        (10 * pk + d) / b == 10 * (pk / b) + (10 * (pk % b) + d) / b,
        (10 * pk + d) % b == (10 * (pk % b) + d) % b,
{
    let q = pk / b;
    let r = pk % b;
    vstd::arithmetic::div_mod::lemma_fundamental_div_mod(pk as int, b as int);
    vstd::arithmetic::div_mod::lemma_mod_division_less_than_divisor(pk as int, b as int);
    let c = (10 * r + d) / b;
    let r2 = (10 * r + d) % b;
    vstd::arithmetic::div_mod::lemma_fundamental_div_mod((10 * r + d) as int, b as int);
    vstd::arithmetic::div_mod::lemma_mod_division_less_than_divisor((10 * r + d) as int, b as int);
    assert(10 * r + d < 10 * b);
    if c > 9 {
        assert(c * b >= 10 * b) by (nonlinear_arith)
            requires c >= 10, b >= 1;
        assert(false);
    }
    assert(10 * pk + d == (10 * q + c) * b + r2) by (nonlinear_arith)
        requires
            pk == b * q + r,
            10 * r + d == b * c + r2,
    ;
    vstd::arithmetic::div_mod::lemma_fundamental_div_mod_converse(
        (10 * pk + d) as int,
        b as int,
        (10 * q + c) as int,
        r2 as int,
    );
}

/// Shifting the quotient register up and writing the next digit at weight
/// pow10(t) keeps the register congruent to the running quotient.
pub proof fn lemma_quot_register(q: nat, c: nat, t: nat, w: nat, mag_old: nat, mag_shift: nat)
    requires
        t + 1 <= w,
        c <= 9,
        mag_old == (q * pow10(t)) % pow10(w),
        mag_shift == 10 * (mag_old % pow10((w - 1) as nat)),
    ensures
        mag_shift + c * pow10(t) == ((10 * q + c) * pow10(t)) % pow10(w),
{
    lemma_mod_pow10_mod(q * pow10(t), (w - 1) as nat, w);
    lemma_mod_pow10_shift(q, t, ((w - 1) as nat));
    let m1 = pow10(((w - 1) as nat - t) as nat);
    let pt = pow10(t);
    lemma_pow10_pos(((w - 1) as nat - t) as nat);
    lemma_pow10_pos(t);
    assert(mag_old % pow10((w - 1) as nat) == (q % m1) * pt);
    vstd::arithmetic::div_mod::lemma_fundamental_div_mod(q as int, m1 as int);
    vstd::arithmetic::div_mod::lemma_mod_division_less_than_divisor(q as int, m1 as int);
    let q1: nat = q / m1;
    let r: nat = q % m1;
    assert(q == m1 * q1 + r && r < m1);
    assert(mag_shift == 10 * (r * pt));
    assert(pow10((w - t) as nat) == 10 * m1);
    assert(10 * q + c == q1 * (10 * m1) + (10 * r + c)) by (nonlinear_arith)
        requires
            q == m1 * q1 + r,
    ;
    assert(10 * r + c < 10 * m1);
    vstd::arithmetic::div_mod::lemma_fundamental_div_mod_converse(
        (10 * q + c) as int,
        (10 * m1) as int,
        q1 as int,
        (10 * r + c) as int,
    );
    lemma_mod_pow10_shift(10 * q + c, t, w);
    assert(((10 * q + c) as nat) % pow10((w - t) as nat) == 10 * r + c);
    assert(10 * (r * pt) + c * pt == (10 * r + c) * pt) by (nonlinear_arith);
}

/// Compares two digit vectors of equal width, most significant digit first.
/// Returns the sign of the difference of the denoted values.
pub fn digits_cmp<const N: usize>(a: &[u8; N], b: &[u8; N]) -> (r: i32)
    requires
        digits_ok(a@),
        digits_ok(b@),
    ensures
        -1 <= r <= 1,
        r == -1 <==> digits_val(a@) < digits_val(b@),
        r == 0 <==> digits_val(a@) == digits_val(b@),
        r == 1 <==> digits_val(a@) > digits_val(b@),
        r == 0 ==> a@ == b@,
{
    let mut i: usize = N;
    while i > 0
        invariant
            i <= N,
            digits_ok(a@),
            digits_ok(b@),
            a@.skip(i as int) == b@.skip(i as int),
        decreases i,
    {
        i = i - 1;
        let x = a[i];
        let y = b[i];
        if x < y {
            proof {
                lemma_digits_cmp_at(a@, b@, i as int);
            }
            return -1;
        }
        if x > y {
            proof {
                lemma_digits_cmp_at(b@, a@, i as int);
            }
            return 1;
        }
        proof {
            assert forall|j: int| 0 <= j < a@.skip(i as int).len() implies a@.skip(
                i as int,
            )[j] == b@.skip(i as int)[j] by {
                if j == 0 {
                    assert(a@.skip(i as int)[0] == a@[i as int]);
                    assert(b@.skip(i as int)[0] == b@[i as int]);
                } else {
                    assert(a@.skip(i as int)[j] == a@[i + j]);
                    assert(a@.skip(i as int + 1)[j - 1] == a@[i + j]);
                    assert(b@.skip(i as int)[j] == b@[i + j]);
                    assert(b@.skip(i as int + 1)[j - 1] == b@[i + j]);
                }
            }
            assert(a@.skip(i as int) =~= b@.skip(i as int));
        }
    }
    proof {
        assert(a@.skip(0) =~= a@);
        assert(b@.skip(0) =~= b@);
    }
    0
}

/// Replacing the digit at i changes the value by the weighted difference.
pub proof fn lemma_digits_val_update(s: Seq<u8>, i: int, v: u8)
    requires
        0 <= i < s.len(),
    ensures
        digits_val(s.update(i, v)) + s[i] * pow10(i as nat)
            == digits_val(s) + v * pow10(i as nat),
{
    let t = s.update(i, v);
    lemma_digits_val_split(s, i);
    lemma_digits_val_split(t, i);
    assert(t.take(i) =~= s.take(i));
    assert(t.skip(i).drop_first() =~= s.skip(i).drop_first());
    assert(t.skip(i)[0] == v);
    assert(s.skip(i)[0] == s[i]);
    let r = digits_val(s.skip(i).drop_first());
    assert(digits_val(t.skip(i)) == v + 10 * r);
    assert(digits_val(s.skip(i)) == s[i] + 10 * r);
    let p = pow10(i as nat);
    assert(p * ((v + 10 * r) as nat) + (s[i] as nat) * p == p * ((s[i] + 10 * r) as nat) + (
    v as nat) * p) by (nonlinear_arith);
}

/// Adds src into dst digit by digit, propagating the carry.  Returns the
/// final carry; when it is false the value of dst has grown by exactly the
/// value of src.
pub fn digits_accumulate<const N: usize>(src: &[u8; N], dst: &mut [u8; N]) -> (carry: bool)
    requires
        digits_ok(src@),
        digits_ok(old(dst)@),
    ensures
        digits_ok(final(dst)@),
        digits_val(final(dst)@) + (if carry {
            pow10(N as nat)
        } else {
            0
        }) == digits_val(old(dst)@) + digits_val(src@),
{
    let mut carry: u8 = 0;
    let mut i: usize = 0;
    while i < N
        invariant
            i <= N,
            carry <= 1,
            digits_ok(src@),
            digits_ok(dst@),
            dst@.skip(i as int) == old(dst)@.skip(i as int),
            digits_val(dst@.take(i as int)) + (carry as nat) * pow10(i as nat) == digits_val(
                old(dst)@.take(i as int),
            ) + digits_val(src@.take(i as int)),
        decreases N - i,
    {
        proof {
            assert(dst@[i as int] == dst@.skip(i as int)[0]);
            assert(old(dst)@[i as int] == old(dst)@.skip(i as int)[0]);
        }
        let ghost prev = dst@;
        let ghost pi = i as int;
        let z = src[i] + dst[i] + carry;
        let z2 = z % 10;
        let c2 = z / 10;
        dst[i] = z2;
        proof {
            assert(dst@ =~= prev.update(pi, z2));
            assert forall|j: int| 0 <= j < dst@.len() implies dst@[j] <= 9 by {
                if j != pi {
                    assert(dst@[j] == prev[j]);
                }
            }
            assert forall|j: int| #![trigger dst@[j]] pi + 1 <= j < N implies dst@[j] == old(
                dst,
            )@[j] by {
                assert(prev.skip(pi)[j - pi] == old(dst)@.skip(pi)[j - pi]);
                assert(prev.skip(pi)[j - pi] == prev[j]);
                assert(old(dst)@.skip(pi)[j - pi] == old(dst)@[j]);
            }
            assert(dst@.skip(pi + 1) =~= old(dst)@.skip(pi + 1));
            lemma_digits_val_take_step(dst@, pi);
            lemma_digits_val_take_step(old(dst)@, pi);
            lemma_digits_val_take_step(src@, pi);
            assert(dst@.take(pi) =~= prev.take(pi));
            assert(dst@[pi] == z2);
            let p = pow10(pi as nat);
            assert(pow10((pi + 1) as nat) == 10 * p);
            let n1 = digits_val(dst@.take(pi + 1));
            let n0 = digits_val(dst@.take(pi));
            let o1 = digits_val(old(dst)@.take(pi + 1));
            let o0 = digits_val(old(dst)@.take(pi));
            let s1 = digits_val(src@.take(pi + 1));
            let s0 = digits_val(src@.take(pi));
            let od: nat = old(dst)@[pi] as nat;
            let sd: nat = src@[pi] as nat;
            assert(n1 + (c2 as nat) * (10 * p) == o1 + s1) by (nonlinear_arith)
                requires
                    n1 == n0 + (z2 as nat) * p,
                    o1 == o0 + od * p,
                    s1 == s0 + sd * p,
                    n0 + (carry as nat) * p == o0 + s0,
                    sd + od + carry == z2 + 10 * c2,
            ;
        }
        carry = c2;
        i = i + 1;
    }
    proof {
        assert(dst@.take(N as int) =~= dst@);
        assert(old(dst)@.take(N as int) =~= old(dst)@);
        assert(src@.take(N as int) =~= src@);
    }
    carry == 1
}

/// Subtracts b from a digit by digit, propagating the borrow.
/// Callers must know that b does not exceed a.
pub fn digits_sub_le<const N: usize>(a: &[u8; N], b: &[u8; N]) -> (r: [u8; N])
    requires
        digits_ok(a@),
        digits_ok(b@),
        digits_val(b@) <= digits_val(a@),
    ensures
        digits_ok(r@),
        digits_val(r@) == digits_val(a@) - digits_val(b@),
{
    let mut r: [u8; N] = [0u8; N];
    let mut borrow: u8 = 0;
    let mut i: usize = 0;
    while i < N
        invariant
            i <= N,
            borrow <= 1,
            digits_ok(a@),
            digits_ok(b@),
            digits_ok(r@),
            digits_val(r@.take(i as int)) as int == digits_val(a@.take(i as int)) - digits_val(
                b@.take(i as int),
            ) + (borrow as int) * pow10(i as nat),
            forall|j: int| i <= j < N ==> r@[j] == 0,
        decreases N - i,
    {
        let ghost prev = r@;
        let ghost pi = i as int;
        let x = a[i];
        let y = b[i];
        let z: u8;
        let b2: u8;
        if x >= y + borrow {
            z = x - (y + borrow);
            b2 = 0;
        } else {
            z = (10 + x) - (y + borrow);
            b2 = 1;
        }
        r[i] = z;
        proof {
            assert(r@ =~= prev.update(pi, z));
            assert forall|j: int| 0 <= j < r@.len() implies r@[j] <= 9 by {
                if j != pi {
                    assert(r@[j] == prev[j]);
                }
            }
            lemma_digits_val_take_step(r@, pi);
            lemma_digits_val_take_step(a@, pi);
            lemma_digits_val_take_step(b@, pi);
            assert(r@.take(pi) =~= prev.take(pi));
            assert(r@[pi] == z);
            let p = pow10(pi as nat);
            assert(pow10((pi + 1) as nat) == 10 * p);
            assert(digits_val(r@.take(pi + 1)) as int == digits_val(a@.take(pi + 1)) - digits_val(
                b@.take(pi + 1),
            ) + (b2 as int) * (10 * p)) by (nonlinear_arith)
                requires
                    digits_val(r@.take(pi + 1)) == digits_val(r@.take(pi)) + (z as nat) * p,
                    digits_val(a@.take(pi + 1)) == digits_val(a@.take(pi)) + (a@[pi] as nat) * p,
                    digits_val(b@.take(pi + 1)) == digits_val(b@.take(pi)) + (b@[pi] as nat) * p,
                    digits_val(r@.take(pi)) as int == digits_val(a@.take(pi)) - digits_val(
                        b@.take(pi),
                    ) + (borrow as int) * p,
                    z as int == a@[pi] - b@[pi] - borrow + 10 * (b2 as int),
            ;
        }
        borrow = b2;
        i = i + 1;
    }
    proof {
        assert(r@.take(N as int) =~= r@);
        assert(a@.take(N as int) =~= a@);
        assert(b@.take(N as int) =~= b@);
        if borrow == 1 {
            lemma_digits_val_bound(r@);
            lemma_digits_val_bound(a@);
        }
    }
    r
}

/// Moves every digit one place up (a multiplication by ten); the topmost
/// digit is discarded.
pub fn digits_shift_up<const N: usize>(d: &mut [u8; N])
    requires
        N >= 1,
    ensures
        digits_ok(old(d)@) ==> digits_ok(final(d)@),
        hex_ok(old(d)@) ==> hex_ok(final(d)@),
        final(d)@[0] == 0,
        forall|j: int| 1 <= j < N ==> final(d)@[j] == old(d)@[j - 1],
        digits_val(final(d)@) == 10 * digits_val(old(d)@.take(N - 1)),
{
    let mut i: usize = N - 1;
    while i > 0
        invariant
            i <= N - 1,
            forall|j: int| 0 <= j <= i ==> d@[j] == old(d)@[j],
            forall|j: int| i < j < N ==> d@[j] == old(d)@[j - 1],
        decreases i,
    {
        let ghost prev = d@;
        let v = d[i - 1];
        d[i] = v;
        proof {
            assert(d@ =~= prev.update(i as int, v));
        }
        i = i - 1;
    }
    let ghost prev = d@;
    d[0] = 0;
    proof {
        assert(d@ =~= prev.update(0, 0u8));
        assert(d@.drop_first() =~= old(d)@.take(N - 1));
        assert(digits_val(d@) == 0 + 10 * digits_val(d@.drop_first()));
    }
}

/// Moves every digit one place down (a division by ten); the lowest digit is
/// discarded and a zero enters at the top.
pub fn digits_shift_down<const N: usize>(d: &mut [u8; N])
    requires
        N >= 1,
        digits_ok(old(d)@),
    ensures
        digits_ok(final(d)@),
        final(d)@[N - 1] == 0,
        forall|j: int| 0 <= j < N - 1 ==> final(d)@[j] == old(d)@[j + 1],
        10 * digits_val(final(d)@) + old(d)@[0] == digits_val(old(d)@),
{
    let mut i: usize = 0;
    while i < N - 1
        invariant
            i <= N - 1,
            digits_ok(d@),
            forall|j: int| 0 <= j < i ==> d@[j] == old(d)@[j + 1],
            forall|j: int| i <= j < N ==> d@[j] == old(d)@[j],
        decreases N - i,
    {
        let ghost prev = d@;
        let v = d[i + 1];
        d[i] = v;
        proof {
            assert(d@ =~= prev.update(i as int, v));
        }
        i = i + 1;
    }
    let ghost prev = d@;
    d[N - 1] = 0;
    proof {
        assert(d@ =~= prev.update(N - 1, 0u8));
        lemma_digits_val_split(d@, N - 1);
        assert(d@.take(N - 1) =~= old(d)@.drop_first());
        let tail = d@.skip(N - 1);
        assert(tail.len() == 1 && tail[0] == 0);
        assert(tail.drop_first() =~= Seq::<u8>::empty());
        assert(digits_val(Seq::<u8>::empty()) == 0);
        assert(digits_val(tail) == 0);
        assert(pow10((N - 1) as nat) * 0 == 0) by (nonlinear_arith);
        assert(digits_val(old(d)@) == old(d)@[0] + 10 * digits_val(old(d)@.drop_first()));
    }
}

} // verus!
