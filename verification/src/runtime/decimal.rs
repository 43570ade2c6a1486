//! Decimal numerals read to the nearest binary64 value, exactly.
//!
//! A sample value is a decimal numeral that is read into the nearest IEEE
//! binary64 value (round half to even) and kept only when that value is a
//! whole number below 2^64. The numeral's digits can be as many as the text
//! holds, so the reading is done on exact natural numbers: little-endian
//! decimal digit vectors, doubled, compared and subtracted digit by digit.

use vstd::prelude::*;
use crate::text::{digits_value, digit_value, all_digits, is_digit};

verus! {

// ---------------------------------------------------------------------------
// Powers.

/// Two to the power `n`.
pub open spec fn pow2(n: nat) -> nat
    decreases n,
{
    if n == 0 { 1 } else { 2 * pow2((n - 1) as nat) }
}

/// Ten to the power `n`.
pub open spec fn pow10(n: nat) -> nat
    decreases n,
{
    if n == 0 { 1 } else { 10 * pow10((n - 1) as nat) }
}

pub proof fn lemma_pow2_pos(n: nat)
    ensures
        pow2(n) >= 1,
    decreases n,
{
    if n > 0 {
        lemma_pow2_pos((n - 1) as nat);
    }
}

pub proof fn lemma_pow10_pos(n: nat)
    ensures
        pow10(n) >= 1,
    decreases n,
{
    if n > 0 {
        lemma_pow10_pos((n - 1) as nat);
    }
}

pub proof fn lemma_pow2_add(a: nat, b: nat)
    ensures
        pow2(a + b) == pow2(a) * pow2(b),
    decreases a,
{
    if a == 0 {
        assert(pow2(0) == 1);
        assert(a + b == b);
    } else {
        let a1 = (a - 1) as nat;
        lemma_pow2_add(a1, b);
        assert(pow2(a + b) == 2 * pow2(a1 + b));
        assert(pow2(a) == 2 * pow2(a1));
        let x = pow2(a1);
        let y = pow2(b);
        assert(2 * (x * y) == (2 * x) * y) by (nonlinear_arith);
    }
}

pub proof fn lemma_pow10_add(a: nat, b: nat)
    ensures
        pow10(a + b) == pow10(a) * pow10(b),
    decreases a,
{
    if a == 0 {
        assert(pow10(0) == 1);
        assert(a + b == b);
    } else {
        let a1 = (a - 1) as nat;
        lemma_pow10_add(a1, b);
        assert(pow10(a + b) == 10 * pow10(a1 + b));
        assert(pow10(a) == 10 * pow10(a1));
        let x = pow10(a1);
        let y = pow10(b);
        assert(10 * (x * y) == (10 * x) * y) by (nonlinear_arith);
    }
}

pub proof fn lemma_pow2_mono(a: nat, b: nat)
    requires
        a <= b,
    ensures
        pow2(a) <= pow2(b),
    decreases b,
{
    if a < b {
        lemma_pow2_mono(a, (b - 1) as nat);
    }
}

pub proof fn lemma_pow10_mono(a: nat, b: nat)
    requires
        a <= b,
    ensures
        pow10(a) <= pow10(b),
    decreases b,
{
    if a < b {
        lemma_pow10_mono(a, (b - 1) as nat);
    }
}

// ---------------------------------------------------------------------------
// Little-endian decimal naturals.

/// The natural number that the little-endian decimal digits `s` denote.
pub open spec fn lval(s: Seq<u8>) -> nat
    decreases s.len(),
{
    if s.len() == 0 { 0 } else { s[0] as nat + 10 * lval(s.skip(1)) }
}

/// Whether every entry of `s` is a decimal digit.
pub open spec fn digits_ok(s: Seq<u8>) -> bool {
    forall|i: int| 0 <= i < s.len() ==> #[trigger] s[i] < 10
}

proof fn lemma_lval_push(s: Seq<u8>, c: u8)
    ensures
        lval(s.push(c)) == lval(s) + c as nat * pow10(s.len()),
    decreases s.len(),
{
    if s.len() == 0 {
        assert(s.push(c).skip(1) =~= Seq::<u8>::empty());
        assert(lval(s.push(c).skip(1)) == 0);
        assert(pow10(0) == 1);
        assert(s.push(c)[0] == c);
    } else {
        assert(s.push(c).skip(1) =~= s.skip(1).push(c));
        lemma_lval_push(s.skip(1), c);
        let n1 = (s.len() - 1) as nat;
        assert(s.skip(1).len() == n1);
        assert(pow10(s.len()) == 10 * pow10(n1));
        let l = lval(s.skip(1));
        let p = pow10(n1);
        let cc = c as nat;
        assert(10 * (l + cc * p) == 10 * l + cc * (10 * p)) by (nonlinear_arith);
        assert(lval(s.push(c)) == s[0] as nat + 10 * lval(s.push(c).skip(1)));
        assert(s.push(c)[0] == s[0]);
    }
}

proof fn lemma_lval_bound(s: Seq<u8>)
    requires
        digits_ok(s),
    ensures
        lval(s) < pow10(s.len()),
    decreases s.len(),
{
    if s.len() > 0 {
        assert(digits_ok(s.skip(1))) by {
            assert forall|i: int| 0 <= i < s.skip(1).len() implies #[trigger] s.skip(1)[i] < 10 by {
                assert(s.skip(1)[i] == s[i + 1]);
            }
        }
        lemma_lval_bound(s.skip(1));
        assert(s[0] < 10);
    }
}

/// The digits `v` with zeros appended until it has `n` of them.
fn pad(v: &mut Vec<u8>, n: usize)
    requires
        digits_ok(old(v)@),
    ensures
        digits_ok(final(v)@),
        lval(final(v)@) == lval(old(v)@),
        final(v)@.len() == if old(v)@.len() < n { n as int } else { old(v)@.len() as int },
{
    while v.len() < n
        invariant
            digits_ok(v@),
            lval(v@) == lval(old(v)@),
            old(v)@.len() <= v@.len(),
            v@.len() <= if old(v)@.len() < n { n as int } else { old(v)@.len() as int },
        decreases n - v@.len(),
    {
        proof { lemma_lval_push(v@, 0); }
        v.push(0);
    }
}

/// Twice the number `a`.
fn double(a: &Vec<u8>) -> (r: Vec<u8>)
    requires
        digits_ok(a@),
        a@.len() < usize::MAX,
    ensures
        digits_ok(r@),
        lval(r@) == 2 * lval(a@),
        r@.len() == a@.len() + 1,
{
    let mut out: Vec<u8> = Vec::new();
    let mut carry: u8 = 0;
    let mut i: usize = 0;
    while i < a.len()
        invariant
            0 <= i <= a@.len(),
            digits_ok(a@),
            digits_ok(out@),
            out@.len() == i,
            carry <= 1,
            lval(out@) + carry as nat * pow10(i as nat) == 2 * lval(a@.take(i as int)),
        decreases a@.len() - i,
    {
        let x: u8 = 2 * a[i] + carry;
        let dgt: u8 = x % 10;
        proof {
            assert(a[i as int] < 10);
            lemma_lval_push(out@, dgt);
            lemma_lval_push(a@.take(i as int), a[i as int]);
            assert(a@.take(i as int + 1) =~= a@.take(i as int).push(a[i as int]));
            assert(pow10(i as nat + 1) == 10 * pow10(i as nat));
            let p = pow10(i as nat);
            assert(dgt as nat * p + (x / 10) as nat * (10 * p) == x as nat * p) by (nonlinear_arith)
                requires dgt as nat == x as nat % 10, (x / 10) as nat == x as nat / 10;
            assert(x as nat * p == 2 * (a[i as int] as nat * p) + carry as nat * p) by (nonlinear_arith)
                requires x as nat == 2 * a[i as int] as nat + carry as nat;
        }
        out.push(dgt);
        carry = x / 10;
        i = i + 1;
    }
    proof {
        lemma_lval_push(out@, carry);
        assert(a@.take(a@.len() as int) =~= a@);
    }
    out.push(carry);
    out
}

/// `a - b` and whether it borrowed (`a < b`), for two numbers with equally
/// many digits; the difference is meaningful only when nothing borrowed.
fn subtract(a: &Vec<u8>, b: &Vec<u8>) -> (r: (Vec<u8>, bool))
    requires
        digits_ok(a@),
        digits_ok(b@),
        a@.len() == b@.len(),
    ensures
        digits_ok(r.0@),
        r.0@.len() == a@.len(),
        r.1 == (lval(a@) < lval(b@)),
        !r.1 ==> lval(r.0@) == lval(a@) - lval(b@),
{
    let mut out: Vec<u8> = Vec::new();
    let mut borrow: u8 = 0;
    let mut i: usize = 0;
    while i < a.len()
        invariant
            0 <= i <= a@.len(),
            a@.len() == b@.len(),
            digits_ok(a@),
            digits_ok(b@),
            digits_ok(out@),
            out@.len() == i,
            borrow <= 1,
            lval(out@) + lval(b@.take(i as int)) == lval(a@.take(i as int)) + borrow as nat * pow10(i as nat),
        decreases a@.len() - i,
    {
        let ai = a[i];
        let bi = b[i];
        let dgt: u8;
        let nb: u8;
        if ai >= bi + borrow {
            dgt = ai - bi - borrow;
            nb = 0;
        } else {
            dgt = ai + 10 - bi - borrow;
            nb = 1;
        }
        proof {
            assert(a[i as int] < 10 && b[i as int] < 10);
            lemma_lval_push(out@, dgt);
            lemma_lval_push(a@.take(i as int), ai);
            lemma_lval_push(b@.take(i as int), bi);
            assert(a@.take(i as int + 1) =~= a@.take(i as int).push(ai));
            assert(b@.take(i as int + 1) =~= b@.take(i as int).push(bi));
            assert(pow10(i as nat + 1) == 10 * pow10(i as nat));
            let p = pow10(i as nat);
            assert(dgt as nat * p + bi as nat * p + borrow as nat * p == ai as nat * p + nb as nat * (10 * p)) by (nonlinear_arith)
                requires dgt as nat + bi as nat + borrow as nat == ai as nat + 10 * nb as nat;
        }
        out.push(dgt);
        borrow = nb;
        i = i + 1;
    }
    proof {
        assert(a@.take(a@.len() as int) =~= a@);
        assert(b@.take(b@.len() as int) =~= b@);
        lemma_lval_bound(out@);
        lemma_lval_bound(b@);
    }
    (out, borrow == 1)
}

/// Whether `a <= b`.
fn at_most(a: &Vec<u8>, b: &Vec<u8>) -> (r: bool)
    requires
        digits_ok(a@),
        digits_ok(b@),
    ensures
        r == (lval(a@) <= lval(b@)),
{
    let mut x = a.clone();
    let mut y = b.clone();
    assert(x@ == a@ && y@ == b@);
    let n = if x.len() < y.len() { y.len() } else { x.len() };
    pad(&mut x, n);
    pad(&mut y, n);
    let (_, borrow) = subtract(&y, &x);
    !borrow
}

/// `a - b`, where `b <= a`.
fn minus(a: &Vec<u8>, b: &Vec<u8>) -> (r: Vec<u8>)
    requires
        digits_ok(a@),
        digits_ok(b@),
        lval(b@) <= lval(a@),
    ensures
        digits_ok(r@),
        lval(r@) == lval(a@) - lval(b@),
        r@.len() == if a@.len() < b@.len() { b@.len() } else { a@.len() },
{
    let mut x = a.clone();
    let mut y = b.clone();
    assert(x@ == a@ && y@ == b@);
    let n = if x.len() < y.len() { y.len() } else { x.len() };
    pad(&mut x, n);
    pad(&mut y, n);
    let (d, _) = subtract(&x, &y);
    d
}

/// `a * 2^k`.
fn times_pow2(a: &Vec<u8>, k: usize) -> (r: Vec<u8>)
    requires
        digits_ok(a@),
        a@.len() + k < usize::MAX,
    ensures
        digits_ok(r@),
        lval(r@) == lval(a@) * pow2(k as nat),
        r@.len() == a@.len() + k,
{
    let mut x = a.clone();
    assert(x@ == a@);
    proof {
        let l = lval(a@);
        assert(pow2(0) == 1);
        assert(l * pow2(0) == l) by (nonlinear_arith) requires pow2(0) == 1;
    }
    let mut i: usize = 0;
    while i < k
        invariant
            0 <= i <= k,
            a@.len() + k < usize::MAX,
            digits_ok(x@),
            x@.len() == a@.len() + i,
            lval(x@) == lval(a@) * pow2(i as nat),
        decreases k - i,
    {
        x = double(&x);
        proof {
            assert(pow2(i as nat + 1) == 2 * pow2(i as nat));
            let l = lval(a@);
            let p = pow2(i as nat);
            assert(2 * (l * p) == l * (2 * p)) by (nonlinear_arith);
        }
        i = i + 1;
    }
    x
}

/// `2^k` for `k < 64`.
fn pow2_u64(k: usize) -> (r: u64)
    requires
        k < 64,
    ensures
        r as nat == pow2(k as nat),
{
    let mut r: u64 = 1;
    let mut i: usize = 0;
    proof { lemma_pow2_63(); }
    while i < k
        invariant
            0 <= i <= k < 64,
            r as nat == pow2(i as nat),
            r as nat <= pow2(63),
        decreases k - i,
    {
        proof {
            lemma_pow2_mono(i as nat + 1, 63);
            lemma_pow2_63();
        }
        r = r * 2;
        i = i + 1;
    }
    r
}

pub(crate) proof fn lemma_pow2_63()
    ensures
        pow2(63) == 0x8000_0000_0000_0000,
        pow2(64) == 0x1_0000_0000_0000_0000,
        pow2(54) == 0x40_0000_0000_0000,
        pow2(53) == 0x20_0000_0000_0000,
        pow2(10) == 1024,
        pow2(2) == 4,
        pow2(1) == 2,
        pow2(0) == 1,
{
    reveal_with_fuel(pow2, 65);
}

// ---------------------------------------------------------------------------
// Rounding to the nearest binary64 value.

/// The largest `j <= k` with `2^j * b <= a`, or `0` when there is none.
pub open spec fn top_bit(a: nat, b: nat, k: nat) -> nat
    decreases k,
{
    if k == 0 || pow2(k) * b <= a { k } else { top_bit(a, b, (k - 1) as nat) }
}

/// `num / den` rounded to the nearest whole number, a half rounding to the
/// even neighbour.
pub open spec fn round_half_even(num: nat, den: nat) -> nat {
    let f = num / den;
    let r = num % den;
    if 2 * r > den || (2 * r == den && f % 2 == 1) { (f + 1) as nat } else { f }
}

/// The binary64 value nearest to `n / m` (a half rounding to the even
/// significand), when that value is a whole number below 2^64; none
/// otherwise.
///
/// At most 2^-1075 the nearest value is zero (2^-1075 lies halfway between
/// zero and the least subnormal 2^-1074). Between that and 1/2 it is a
/// positive value of at most 1/2, never whole. From 2^64 up it is at least
/// 2^64. In between, with `2^(k-1) <= n/m < 2^k`, the binary64 values are
/// the multiples of `2^(k-53)`, so the nearest one is `n/m` divided by that
/// spacing, rounded, and multiplied back.
pub open spec fn nearest_whole(n: nat, m: nat) -> Option<nat> {
    if n * pow2(1075) <= m {
        Some(0)
    } else if 2 * n < m {
        None
    } else if n >= pow2(64) * m {
        None
    } else {
        let k = top_bit(2 * n, m, 64);
        let x = if k >= 53 {
            Some(round_half_even(n, m * pow2((k - 53) as nat)) * pow2((k - 53) as nat))
        } else {
            let r = round_half_even(n * pow2((53 - k) as nat), m);
            if r % pow2((53 - k) as nat) == 0 { Some(r / pow2((53 - k) as nat)) } else { None }
        };
        match x {
            Some(w) => if w < pow2(64) { Some(w) } else { None },
            None => None,
        }
    }
}

proof fn lemma_top_bit(a: nat, b: nat, k: nat)
    ensures
        top_bit(a, b, k) <= k,
        top_bit(a, b, k) == 0 || pow2(top_bit(a, b, k)) * b <= a,
        top_bit(a, b, k) < k ==> pow2(top_bit(a, b, k) + 1) * b > a,
    decreases k,
{
    if k > 0 && !(pow2(k) * b <= a) {
        lemma_top_bit(a, b, (k - 1) as nat);
        if top_bit(a, b, (k - 1) as nat) == k - 1 {
            assert(top_bit(a, b, k) + 1 == k);
        }
    }
}

/// `num / den` and `num % den`, when the quotient is below 2^54.
fn divide(num: &Vec<u8>, den: &Vec<u8>) -> (r: (u64, Vec<u8>))
    requires
        digits_ok(num@),
        digits_ok(den@),
        lval(den@) >= 1,
        lval(num@) < lval(den@) * pow2(54),
        num@.len() + 64 < usize::MAX,
        den@.len() + 64 < usize::MAX,
    ensures
        r.0 as nat == lval(num@) / lval(den@),
        r.0 < 0x40_0000_0000_0000,
        digits_ok(r.1@),
        lval(r.1@) == lval(num@) % lval(den@),
        r.1@.len() <= num@.len() + den@.len() + 64,
{
    let ghost dv = lval(den@);
    let ghost nv = lval(num@);
    let mut q: u64 = 0;
    let mut rem = num.clone();
    assert(rem@ == num@);
    let mut j: usize = 54;
    let mut bit: u64 = pow2_u64(54);
    proof { lemma_pow2_63(); }
    while j > 0
        invariant
            0 <= j <= 54,
            digits_ok(den@),
            digits_ok(rem@),
            dv == lval(den@),
            nv == lval(num@),
            dv >= 1,
            bit as nat == pow2(j as nat),
            q as nat + pow2(j as nat) <= pow2(54),
            pow2(54) == 0x40_0000_0000_0000,
            nv == q as nat * dv + lval(rem@),
            lval(rem@) < dv * pow2(j as nat),
            rem@.len() <= num@.len() + den@.len() + 64,
            den@.len() + 64 < usize::MAX,
            num@.len() + 64 < usize::MAX,
        decreases j,
    {
        let j1 = j - 1;
        let t = times_pow2(den, j1);
        proof {
            assert(pow2(j as nat) == 2 * pow2(j1 as nat));
        }
        let half = bit / 2;
        if at_most(&t, &rem) {
            let ghost before = lval(rem@);
            rem = minus(&rem, &t);
            proof {
                let p = pow2(j1 as nat);
                assert(dv * pow2(j as nat) == 2 * (dv * p)) by (nonlinear_arith)
                    requires pow2(j as nat) == 2 * p;
                assert((q as nat + p) * dv == q as nat * dv + dv * p) by (nonlinear_arith);
            }
            q = q + half;
        } else {
            proof {
                let p = pow2(j1 as nat);
                assert(lval(t@) == dv * p) by (nonlinear_arith)
                    requires lval(t@) == dv * p;
            }
        }
        bit = half;
        j = j1;
    }
    proof {
        assert(pow2(0) == 1);
        assert(dv * pow2(0) == dv) by (nonlinear_arith) requires pow2(0) == 1;
        vstd::arithmetic::div_mod::lemma_fundamental_div_mod_converse(nv as int, dv as int, q as int, lval(rem@) as int);
    }
    (q, rem)
}

/// `num / den` rounded half to even (see [`round_half_even`]), given the
/// quotient and remainder.
fn round_from(f: u64, rem: &Vec<u8>, den: &Vec<u8>, Ghost(num): Ghost<nat>) -> (r: u64)
    requires
        digits_ok(rem@),
        digits_ok(den@),
        lval(den@) >= 1,
        f as nat == num / lval(den@),
        lval(rem@) == num % lval(den@),
        f < u64::MAX,
        rem@.len() + 1 < usize::MAX,
    ensures
        r as nat == round_half_even(num, lval(den@)),
{
    let r2 = double(rem);
    if !at_most(&r2, den) || (at_most(den, &r2) && f % 2 == 1) {
        f + 1
    } else {
        f
    }
}

/// The binary64 value nearest to `n / m`, when it is a whole number below
/// 2^64 (see [`nearest_whole`]).
#[verifier::rlimit(60)]
pub fn nearest_whole_exec(n: &Vec<u8>, m: &Vec<u8>) -> (r: Option<u64>)
    requires
        digits_ok(n@),
        digits_ok(m@),
        lval(m@) >= 1,
        n@.len() + m@.len() + 4096 < usize::MAX,
    ensures
        r == match nearest_whole(lval(n@), lval(m@)) { Some(x) => Some(x as u64), None => None::<u64> },
        nearest_whole(lval(n@), lval(m@)) matches Some(x) ==> x < pow2(64),
{
    let ghost nv = lval(n@);
    let ghost mv = lval(m@);
    proof { lemma_pow2_63(); }
    let n2 = double(n);
    if !at_most(m, &n2) {
        let t = times_pow2(n, 1075);
        if at_most(&t, m) {
            return Some(0);
        } else {
            return None;
        }
    }
    proof {
        // Here n/m is at least 1/2, so it is above 2^-1075.
        assert(nv >= 1);
        lemma_pow2_mono(2, 1075);
        assert(nv * pow2(1075) >= 4 * nv) by (nonlinear_arith) requires pow2(1075) >= 4;
    }
    let big = times_pow2(m, 64);
    if at_most(&big, n) {
        proof {
            assert(pow2(64) * mv == mv * pow2(64)) by (nonlinear_arith);
        }
        return None;
    }
    proof {
        assert(pow2(64) * mv == mv * pow2(64)) by (nonlinear_arith);
        assert(!(nv * pow2(1075) <= mv));
        assert(!(2 * nv < mv));
        assert(!(nv >= pow2(64) * mv));
    }
    let mut k: usize = 64;
    loop
        invariant
            0 <= k <= 64,
            digits_ok(m@),
            digits_ok(n2@),
            lval(n2@) == 2 * nv,
            mv == lval(m@),
            n@.len() + m@.len() + 4096 < usize::MAX,
            top_bit(2 * nv, mv, 64) == top_bit(2 * nv, mv, k as nat),
        ensures
            0 <= k <= 64,
            top_bit(2 * nv, mv, 64) == top_bit(2 * nv, mv, k as nat),
            k == 0 || pow2(k as nat) * mv <= 2 * nv,
        decreases k,
    {
        if k == 0 {
            break;
        }
        let t = times_pow2(m, k);
        proof {
            assert(lval(t@) == pow2(k as nat) * mv) by (nonlinear_arith) requires lval(t@) == mv * pow2(k as nat);
        }
        if at_most(&t, &n2) {
            break;
        }
        k = k - 1;
    }
    proof {
        lemma_top_bit(2 * nv, mv, 64);
        assert(top_bit(2 * nv, mv, k as nat) == k);
    }
    let ghost kk = k as nat;
    if k >= 53 {
        let sh = k - 53;
        let den = times_pow2(m, sh);
        proof {
            let p = pow2(sh as nat);
            lemma_pow2_add(sh as nat, 54);
            assert(sh + 54 == k + 1);
            if k < 64 {
                assert(pow2(kk + 1) * mv > 2 * nv);
            } else {
                assert(nv < pow2(64) * mv);
                assert(pow2(65) == 2 * pow2(64));
                assert(pow2(kk + 1) * mv > 2 * nv) by (nonlinear_arith)
                    requires nv < pow2(64) * mv, pow2(kk + 1) == 2 * pow2(64);
            }
            assert(lval(den@) * pow2(54) == pow2(kk + 1) * mv) by (nonlinear_arith)
                requires lval(den@) == mv * p, pow2(kk + 1) == p * pow2(54);
            lemma_pow2_pos(sh as nat);
            assert(lval(den@) >= 1) by (nonlinear_arith) requires lval(den@) == mv * p, mv >= 1, p >= 1;
        }
        let (f, rem) = divide(n, &den);
        proof {
            lemma_pow2_63();
            assert(f < u64::MAX);
        }
        let r = round_from(f, &rem, &den, Ghost(nv));
        let p = pow2_u64(sh);
        proof {
            assert(r as nat <= f as nat + 1);
            assert((r as nat) * (p as nat) < 0x1_0000_0000_0000_0000_0000_0000_0000_0000) by (nonlinear_arith)
                requires r < 0x80_0000_0000_0000, p <= u64::MAX;
        }
        let x: u128 = r as u128 * p as u128;
        proof {
            assert(x as nat == r as nat * pow2(sh as nat));
            assert(round_half_even(nv, mv * pow2(sh as nat)) == r as nat);
            assert(0x1_0000_0000_0000_0000u128 as nat == pow2(64));
        }
        if x < 0x1_0000_0000_0000_0000u128 {
            Some(x as u64)
        } else {
            None
        }
    } else {
        let sh = 53 - k;
        let num = times_pow2(n, sh);
        proof {
            let p = pow2(sh as nat);
            lemma_pow2_pos(sh as nat);
            lemma_pow2_add(sh as nat, kk + 1);
            assert(sh + kk + 1 == 54);
            assert(pow2(kk + 1) * mv > 2 * nv);
            assert(lval(num@) < mv * pow2(54)) by (nonlinear_arith)
                requires lval(num@) == nv * p, pow2(kk + 1) * mv > 2 * nv, pow2(54) == p * pow2(kk + 1), p >= 1;
        }
        let (f, rem) = divide(&num, m);
        let r = round_from(f, &rem, m, Ghost(lval(num@)));
        let p = pow2_u64(sh);
        proof {
            lemma_pow2_pos(sh as nat);
        }
        if r % p == 0 {
            let w = r / p;
            proof {
                assert(w as nat <= r as nat);
            }
            Some(w)
        } else {
            None
        }
    }
}

// ---------------------------------------------------------------------------
// From decimal text.

proof fn lemma_digits_prepend(c: char, t: Seq<char>)
    ensures
        digits_value(seq![c] + t) == digit_value(c) * pow10(t.len()) + digits_value(t),
    decreases t.len(),
{
    if t.len() == 0 {
        assert(seq![c] + t =~= seq![c]);
        assert(seq![c].drop_last() =~= Seq::<char>::empty());
        assert(seq![c].last() == c);
        assert(digits_value(seq![c]) == digits_value(Seq::<char>::empty()) * 10 + digit_value(c));
        assert(pow10(0) == 1);
        assert(digit_value(c) * pow10(0) == digit_value(c)) by (nonlinear_arith) requires pow10(0) == 1;
    } else {
        lemma_digits_prepend(c, t.drop_last());
        assert((seq![c] + t).drop_last() =~= seq![c] + t.drop_last());
        assert((seq![c] + t).last() == t.last());
        let p = pow10((t.len() - 1) as nat);
        assert(pow10(t.len()) == 10 * p);
        let a = digit_value(c);
        let b = digits_value(t.drop_last());
        assert((a * p + b) * 10 == a * (10 * p) + b * 10) by (nonlinear_arith);
    }
}

/// The little-endian digits of `d * 10^shift`, where `d` are decimal digit
/// characters, most significant first.
pub(crate) fn le_digits(d: &Vec<char>, shift: usize) -> (r: Vec<u8>)
    requires
        all_digits(d@),
        d@.len() + shift < usize::MAX,
    ensures
        digits_ok(r@),
        lval(r@) == digits_value(d@) * pow10(shift as nat),
        r@.len() == d@.len() + shift,
{
    let mut out: Vec<u8> = Vec::new();
    let mut i: usize = 0;
    while i < shift
        invariant
            0 <= i <= shift,
            digits_ok(out@),
            out@.len() == i,
            lval(out@) == 0,
        decreases shift - i,
    {
        proof { lemma_lval_push(out@, 0); }
        out.push(0);
        i = i + 1;
    }
    let n = d.len();
    let mut j: usize = 0;
    proof {
        assert(d@.skip(n as int) =~= Seq::<char>::empty());
        assert(digits_value(Seq::<char>::empty()) == 0);
        assert(0 * pow10(shift as nat) == 0);
    }
    while j < n
        invariant
            0 <= j <= n,
            n == d@.len(),
            d@.len() + shift < usize::MAX,
            all_digits(d@),
            digits_ok(out@),
            out@.len() == shift + j,
            lval(out@) == digits_value(d@.skip(n - j)) * pow10(shift as nat),
        decreases n - j,
    {
        let c = d[n - 1 - j];
        assert(is_digit(c));
        let v: u8 = (c as u32 - '0' as u32) as u8;
        proof {
            let t = d@.skip(n - j);
            assert(d@.skip(n - j - 1) =~= seq![c] + t);
            lemma_digits_prepend(c, t);
            lemma_lval_push(out@, v);
            lemma_pow10_add(shift as nat, j as nat);
            assert(v as nat == digit_value(c));
            let ps = pow10(shift as nat);
            let pj = pow10(j as nat);
            let dt = digits_value(t);
            assert(dt * ps + v as nat * (ps * pj) == (v as nat * pj + dt) * ps) by (nonlinear_arith);
            assert(t.len() == j);
        }
        out.push(v);
        j = j + 1;
    }
    proof {
        assert(d@.skip(0) =~= d@);
    }
    out
}

/// The little-endian digits of `10^k`.
pub(crate) fn ten_to(k: usize) -> (r: Vec<u8>)
    requires
        k + 1 < usize::MAX,
    ensures
        digits_ok(r@),
        lval(r@) == pow10(k as nat),
        r@.len() == k + 1,
{
    let mut out: Vec<u8> = Vec::new();
    let mut i: usize = 0;
    while i < k
        invariant
            0 <= i <= k,
            digits_ok(out@),
            out@.len() == i,
            lval(out@) == 0,
        decreases k - i,
    {
        proof { lemma_lval_push(out@, 0); }
        out.push(0);
        i = i + 1;
    }
    proof { lemma_lval_push(out@, 1); }
    out.push(1);
    out
}

pub(crate) proof fn lemma_digits_zero(d: Seq<char>)
    requires
        forall|i: int| 0 <= i < d.len() ==> d[i] == '0',
    ensures
        digits_value(d) == 0,
    decreases d.len(),
{
    if d.len() > 0 {
        lemma_digits_zero(d.drop_last());
        assert(d.last() == '0');
    }
}

pub(crate) proof fn lemma_digits_nonzero(d: Seq<char>, k: int)
    requires
        all_digits(d),
        0 <= k < d.len(),
        d[k] != '0',
    ensures
        digits_value(d) >= 1,
    decreases d.len(),
{
    assert(is_digit(d.last()));
    if k == d.len() - 1 {
        assert(digit_value(d.last()) >= 1);
    } else {
        assert(all_digits(d.drop_last())) by {
            assert forall|i: int| 0 <= i < d.drop_last().len() implies is_digit(#[trigger] d.drop_last()[i]) by {
                assert(d.drop_last()[i] == d[i]);
            }
        }
        assert(d.drop_last()[k] == d[k]);
        lemma_digits_nonzero(d.drop_last(), k);
    }
}

pub(crate) proof fn lemma_digits_bound(d: Seq<char>)
    requires
        all_digits(d),
    ensures
        digits_value(d) < pow10(d.len()),
    decreases d.len(),
{
    if d.len() == 0 {
        assert(pow10(0) == 1);
    } else {
        assert(all_digits(d.drop_last())) by {
            assert forall|i: int| 0 <= i < d.drop_last().len() implies is_digit(#[trigger] d.drop_last()[i]) by {
                assert(d.drop_last()[i] == d[i]);
            }
        }
        lemma_digits_bound(d.drop_last());
        assert(is_digit(d.last()));
        assert(pow10(d.len()) == 10 * pow10((d.len() - 1) as nat));
    }
}

proof fn lemma_pow2_pow10(j: nat)
    ensures
        pow2(10 * j) <= pow10(4 * j),
    decreases j,
{
    if j == 0 {
        assert(pow2(0) == 1 && pow10(0) == 1);
    } else {
        lemma_pow2_pow10((j - 1) as nat);
        lemma_pow2_add(10 * (j - 1) as nat, 10);
        lemma_pow10_add(4 * (j - 1) as nat, 4);
        lemma_pow2_63();
        assert(pow10(4) == 10000) by { reveal_with_fuel(pow10, 5); }
        assert(10 * (j - 1) as nat + 10 == 10 * j);
        assert(4 * (j - 1) as nat + 4 == 4 * j);
        let a = pow2(10 * (j - 1) as nat);
        let b = pow10(4 * (j - 1) as nat);
        assert(a * 1024 <= b * 10000) by (nonlinear_arith) requires a <= b;
    }
}

/// A positive number of at least `10^21` reads as a value of at least 2^64.
pub(crate) proof fn lemma_nearest_huge(dv: nat, s: nat)
    requires
        dv >= 1,
        s >= 21,
    ensures
        nearest_whole(dv * pow10(s), 1) is None,
{
    lemma_pow10_mono(21, s);
    lemma_pow2_63();
    assert(pow10(21) == 1_000_000_000_000_000_000_000) by { reveal_with_fuel(pow10, 22); }
    let p = pow10(s);
    let n = dv * p;
    assert(n >= p) by (nonlinear_arith) requires dv >= 1, n == dv * p;
    lemma_pow2_pos(1075);
    assert(n * pow2(1075) >= n) by (nonlinear_arith) requires pow2(1075) >= 1;
    assert(pow2(64) * 1 == pow2(64));
}

/// A number below `10^l` divided by `10^j`, with `j >= l + 432`, is at most
/// 2^-1075 and reads as zero.
pub(crate) proof fn lemma_nearest_tiny(dv: nat, l: nat, j: nat)
    requires
        dv < pow10(l),
        j >= l + 432,
    ensures
        nearest_whole(dv, pow10(j)) == Some(0nat),
{
    lemma_pow2_pow10(108);
    lemma_pow2_mono(1075, 1080);
    lemma_pow10_add(l, 432);
    lemma_pow10_mono(l + 432, j);
    let p = pow2(1075);
    assert(dv * p <= pow10(l) * pow10(432)) by (nonlinear_arith)
        requires dv < pow10(l), p <= pow10(432);
}

} // verus!
