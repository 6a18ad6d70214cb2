//! The exact fraction type: arithmetic over integer pairs with automatic
//! reduction to lowest terms, checked division, and the display form.

use crate::arith::{gcd_nat, lemma_gcd_divides, lemma_gcd_pos, lemma_gcd_quotients_coprime};
use crate::primes::gcd;
use vstd::arithmetic::div_mod::*;
use vstd::math::abs;
use vstd::prelude::*;

verus! {

/// Errors reported while evaluating an expression.
#[derive(Debug, Clone, Copy, PartialEq, Eq, Structural)]
pub enum Error {
    /// A checked division met a divisor whose numerator is zero.
    DivisionByZero,
    /// An unrecognized character, at this zero-based index.
    InvalidSyntax(usize),
    /// The line held no operand at all.
    InvalidExpr,
}

/// The mathematical content of a fraction: a plain integer pair.
pub ghost struct RatV {
    pub n: int,
    pub d: int,
}

/// Shorthand constructor for the mathematical pair.
pub open spec fn ratv(n: int, d: int) -> RatV {
    RatV { n, d }
}

/// An exact fraction over signed machine words.  Reduction does not force
/// the denominator positive, and a zero denominator can appear only on
/// the unchecked division paths.
#[derive(Clone, Copy)]
pub struct Rational(i64, i64);

impl View for Rational {
    type V = RatV;

    closed spec fn view(&self) -> RatV {
        RatV { n: self.0 as int, d: self.1 as int }
    }
}

/// Whether a mathematical value fits the machine numerator/denominator.
pub open spec fn in_i64(x: int) -> bool {
    i64::MIN <= x <= i64::MAX
}

/// Reduction by the gcd of the magnitudes.  Exactly the value 0/0 has no
/// gcd to divide by and is left out of every precondition below.
pub open spec fn norm_v(r: RatV) -> RatV {
    let g = gcd_nat(abs(r.n), abs(r.d)) as int;
    RatV { n: r.n / g, d: r.d / g }
}

pub open spec fn add_v(a: RatV, b: RatV) -> RatV {
    norm_v(ratv(a.n * b.d + b.n * a.d, a.d * b.d))
}

pub open spec fn sub_v(a: RatV, b: RatV) -> RatV {
    norm_v(ratv(a.n * b.d - b.n * a.d, a.d * b.d))
}

pub open spec fn mul_v(a: RatV, b: RatV) -> RatV {
    norm_v(ratv(a.n * b.n, a.d * b.d))
}

pub open spec fn div_v(a: RatV, b: RatV) -> RatV {
    norm_v(ratv(a.n * b.d, a.d * b.n))
}

pub open spec fn neg_v(a: RatV) -> RatV {
    ratv(-a.n, a.d)
}

/// The machine can carry out `add` without overflow or a 0/0 reduction.
pub open spec fn add_ok(a: RatV, b: RatV) -> bool {
    &&& in_i64(a.n * b.d)
    &&& in_i64(b.n * a.d)
    &&& in_i64(a.n * b.d + b.n * a.d)
    &&& in_i64(a.d * b.d)
    &&& !(a.n * b.d + b.n * a.d == 0 && a.d * b.d == 0)
}

pub open spec fn sub_ok(a: RatV, b: RatV) -> bool {
    &&& in_i64(a.n * b.d)
    &&& in_i64(b.n * a.d)
    &&& in_i64(a.n * b.d - b.n * a.d)
    &&& in_i64(a.d * b.d)
    &&& !(a.n * b.d - b.n * a.d == 0 && a.d * b.d == 0)
}

pub open spec fn mul_ok(a: RatV, b: RatV) -> bool {
    &&& in_i64(a.n * b.n)
    &&& in_i64(a.d * b.d)
    &&& !(a.n * b.n == 0 && a.d * b.d == 0)
}

/// The divisor's denominator must not be zero: feeding one to `div` is
/// a fatal, unrecoverable misuse, not a reportable error.
pub open spec fn div_ok(a: RatV, b: RatV) -> bool {
    &&& b.d != 0
    &&& in_i64(a.n * b.d)
    &&& in_i64(a.d * b.n)
    &&& !(a.n * b.d == 0 && a.d * b.n == 0)
}

/// The magnitude of a signed word, as an unsigned one.
fn mag(x: i64) -> (m: u64)
    ensures
        m as nat == abs(x as int),
{
    if x >= 0 {
        x as u64
    } else {
        ((-(x + 1)) as u64) + 1
    }
}

/// Division by one changes nothing.
proof fn lemma_div_by_one(x: int)
    ensures
        x / 1 == x,
{
    lemma_div_multiples_vanish(x, 1);
    assert(1 * x == x);
}

/// Exact division of a signed value by a positive divisor of its
/// magnitude: the quotient is the magnitude quotient, with the sign back,
/// and the whole value is recovered by multiplying the quotient out.
proof fn lemma_signed_exact_div(x: int, g: int)
    requires
        g >= 1,
        abs(x) as int % g == 0,
    ensures
        x >= 0 ==> x / g == abs(x) as int / g,
        x < 0 ==> x / g == -(abs(x) as int / g),
        x == g * (x / g),
        abs(x / g) == abs(x) / (g as nat),
{
    let m = abs(x) as int;
    let q = m / g;
    lemma_fundamental_div_mod(m, g);
    assert(m == g * q);
    lemma_div_is_ordered(0, m, g);
    lemma_div_multiples_vanish(0, g);
    assert(q >= 0);
    if x < 0 {
        assert(g * (-q) == -(g * q)) by (nonlinear_arith);
        assert(x == g * (-q));
        lemma_div_multiples_vanish(-q, g);
        assert(x / g == -q);
    }
}

/// A fraction over one is already in lowest terms.
pub proof fn lemma_norm_over_one(x: int)
    ensures
        norm_v(ratv(x, 1)) == ratv(x, 1),
{
    crate::arith::lemma_gcd_one(abs(x));
    lemma_div_by_one(x);
    lemma_div_by_one(1);
}

/// The reduced components scale back to the original by the gcd.
proof fn lemma_norm_decompose(r: RatV)
    requires
        !(r.n == 0 && r.d == 0),
    ensures
        ({
            let g = gcd_nat(abs(r.n), abs(r.d)) as int;
            &&& g >= 1
            &&& r.n == g * norm_v(r).n
            &&& r.d == g * norm_v(r).d
            &&& abs(norm_v(r).n) == abs(r.n) / (g as nat)
            &&& abs(norm_v(r).d) == abs(r.d) / (g as nat)
        }),
{
    lemma_gcd_pos(abs(r.n), abs(r.d));
    lemma_gcd_divides(abs(r.n), abs(r.d));
    let g = gcd_nat(abs(r.n), abs(r.d)) as int;
    lemma_signed_exact_div(r.n, g);
    lemma_signed_exact_div(r.d, g);
}

/// Reduction keeps the value: the reduced pair agrees with the original
/// by cross-multiplication.
pub proof fn lemma_normalize_preserves_value(r: RatV)
    ensures
        norm_v(r).n * r.d == r.n * norm_v(r).d,
{
    if r.n == 0 && r.d == 0 {
    } else {
        lemma_norm_decompose(r);
        let g = gcd_nat(abs(r.n), abs(r.d)) as int;
        assert(norm_v(r).n * r.d == r.n * norm_v(r).d) by (nonlinear_arith)
            requires
                r.n == g * norm_v(r).n,
                r.d == g * norm_v(r).d,
        ;
    }
}

/// The sum of a/b and c/e is the gcd-reduced form of (a*e + c*b)/(b*e):
/// the two agree by cross-multiplication.
pub proof fn lemma_add_matches_reduced_sum(a: int, b: int, c: int, e: int)
    requires
        b != 0,
        e != 0,
    ensures
        ({
            let s = add_v(ratv(a, b), ratv(c, e));
            s.n * (b * e) == (a * e + c * b) * s.d
        }),
{
    lemma_normalize_preserves_value(ratv(a * e + c * b, b * e));
}

/// Normalizing is idempotent: reducing a reduced fraction changes nothing.
pub proof fn lemma_normalize_idempotent(r: RatV)
    requires
        !(r.n == 0 && r.d == 0),
    ensures
        norm_v(norm_v(r)) == norm_v(r),
{
    lemma_norm_decompose(r);
    let g = gcd_nat(abs(r.n), abs(r.d));
    let r1 = norm_v(r);
    lemma_gcd_quotients_coprime(abs(r.n), abs(r.d));
    assert(gcd_nat(abs(r1.n), abs(r1.d)) == 1);
    lemma_div_by_one(r1.n);
    lemma_div_by_one(r1.d);
}

impl Rational {
    /// Raw construction from a numerator and a denominator, unreduced.
    pub fn new(n: i64, d: i64) -> (r: Self)
        ensures
            r@ == ratv(n as int, d as int),
    {
        Rational(n, d)
    }

    /// A whole number, over the denominator one.
    pub fn from_int(v: i64) -> (r: Self)
        ensures
            r@ == ratv(v as int, 1),
    {
        Rational(v, 1)
    }

    /// The numerator as stored.
    pub fn num(&self) -> (n: i64)
        ensures
            n as int == self@.n,
    {
        self.0
    }

    /// The denominator as stored.
    pub fn den(&self) -> (d: i64)
        ensures
            d as int == self@.d,
    {
        self.1
    }

    /// Reduces the fraction by the gcd of the two magnitudes.
    pub fn normalize(&self) -> (r: Self)
        requires
            !(self@.n == 0 && self@.d == 0),
        ensures
            r@ == norm_v(self@),
    {
        let na = mag(self.0);
        let da = mag(self.1);
        let g = gcd(na, da);
        proof {
            lemma_gcd_pos(na as nat, da as nat);
            lemma_gcd_divides(na as nat, da as nat);
            lemma_signed_exact_div(self.0 as int, g as int);
            lemma_signed_exact_div(self.1 as int, g as int);
        }
        if g == 1 {
            proof {
                lemma_div_by_one(self.0 as int);
                lemma_div_by_one(self.1 as int);
            }
            return *self;
        }
        proof {
            lemma_div_is_ordered_by_denominator(na as int, 2, g as int);
            lemma_div_is_ordered_by_denominator(da as int, 2, g as int);
        }
        let qn = na / g;
        let qd = da / g;
        let n2 = if self.0 < 0 {
            -(qn as i64)
        } else {
            qn as i64
        };
        let d2 = if self.1 < 0 {
            -(qd as i64)
        } else {
            qd as i64
        };
        Rational(n2, d2)
    }

    /// Sum over the product denominator, reduced.
    pub fn add(self, rhs: Self) -> (r: Self)
        requires
            add_ok(self@, rhs@),
        ensures
            r@ == add_v(self@, rhs@),
    {
        Rational(self.0 * rhs.1 + rhs.0 * self.1, self.1 * rhs.1).normalize()
    }

    /// Difference over the product denominator, reduced.
    pub fn sub(self, rhs: Self) -> (r: Self)
        requires
            sub_ok(self@, rhs@),
        ensures
            r@ == sub_v(self@, rhs@),
    {
        Rational(self.0 * rhs.1 - rhs.0 * self.1, self.1 * rhs.1).normalize()
    }

    /// Product of numerators over the product of denominators, reduced.
    pub fn mul(self, rhs: Self) -> (r: Self)
        requires
            mul_ok(self@, rhs@),
        ensures
            r@ == mul_v(self@, rhs@),
    {
        Rational(self.0 * rhs.0, self.1 * rhs.1).normalize()
    }

    /// Unchecked division: multiply by the flipped divisor.  A divisor
    /// with a zero denominator is the fatal misuse, excluded up front.
    pub fn div(self, rhs: Self) -> (r: Self)
        requires
            div_ok(self@, rhs@),
        ensures
            r@ == div_v(self@, rhs@),
    {
        Rational(self.0 * rhs.1, self.1 * rhs.0).normalize()
    }

    /// Checked division: a divisor whose numerator is zero is reported
    /// as a division by zero instead of being inverted.
    pub fn checked_div(self, other: Self) -> (r: Result<Self, Error>)
        requires
            other@.n != 0 ==> div_ok(self@, other@),
        ensures
            other@.n == 0 <==> r is Err,
            r matches Err(e) ==> e == Error::DivisionByZero,
            r matches Ok(v) ==> v@ == div_v(self@, other@),
    {
        if other.0 == 0 {
            Err(Error::DivisionByZero)
        } else {
            Ok(self.div(other))
        }
    }

    /// Flips the sign of the numerator only.
    pub fn neg(self) -> (r: Self)
        requires
            self@.n > i64::MIN,
        ensures
            r@ == neg_v(self@),
    {
        Rational(-self.0, self.1)
    }

    /// Adds a whole number: it scales by the denominator, then reduces.
    pub fn add_int(self, rhs: i64) -> (r: Self)
        requires
            in_i64(rhs * self@.d),
            in_i64(self@.n + rhs * self@.d),
            !(self@.n + rhs * self@.d == 0 && self@.d == 0),
        ensures
            r@ == norm_v(ratv(self@.n + rhs * self@.d, self@.d)),
    {
        Rational(self.0 + rhs * self.1, self.1).normalize()
    }

    /// Subtracts a whole number, scaled by the denominator.
    pub fn sub_int(self, rhs: i64) -> (r: Self)
        requires
            in_i64(rhs * self@.d),
            in_i64(self@.n - rhs * self@.d),
            !(self@.n - rhs * self@.d == 0 && self@.d == 0),
        ensures
            r@ == norm_v(ratv(self@.n - rhs * self@.d, self@.d)),
    {
        Rational(self.0 - rhs * self.1, self.1).normalize()
    }

    /// Multiplies the numerator by a whole number.
    pub fn mul_int(self, rhs: i64) -> (r: Self)
        requires
            in_i64(self@.n * rhs),
            !(self@.n * rhs == 0 && self@.d == 0),
        ensures
            r@ == norm_v(ratv(self@.n * rhs, self@.d)),
    {
        Rational(self.0 * rhs, self.1).normalize()
    }

    /// Divides by a whole number by scaling the denominator directly.
    /// A zero divisor would build a zero denominator: that is the fatal
    /// path, excluded up front.
    pub fn div_int(self, rhs: i64) -> (r: Self)
        requires
            rhs != 0,
            in_i64(self@.d * rhs),
            !(self@.n == 0 && self@.d == 0),
        ensures
            r@ == norm_v(ratv(self@.n, self@.d * rhs)),
    {
        proof {
            // with a nonzero divisor the scaled denominator vanishes only
            // if the stored one does
            assert(!(self@.n == 0 && self@.d * rhs == 0)) by (nonlinear_arith)
                requires
                    rhs != 0,
                    !(self@.n == 0 && self@.d == 0),
            ;
        }
        Rational(self.0, self.1 * rhs).normalize()
    }
}

/// The mathematical contents of a vector of fractions.
pub open spec fn seq_view(s: Seq<Rational>) -> Seq<RatV> {
    s.map_values(|r: Rational| r@)
}

pub proof fn lemma_seq_view_index(s: Seq<Rational>, j: int)
    requires
        0 <= j < s.len(),
    ensures
        seq_view(s)[j] == s[j]@,
{
}

pub proof fn lemma_seq_view_push(s: Seq<Rational>, x: Rational)
    ensures
        seq_view(s.push(x)) == seq_view(s).push(x@),
{
    assert(seq_view(s.push(x)) =~= seq_view(s).push(x@));
}

pub proof fn lemma_seq_view_remove(s: Seq<Rational>, i: int)
    requires
        0 <= i < s.len(),
    ensures
        seq_view(s.remove(i)) == seq_view(s).remove(i),
{
    assert(seq_view(s.remove(i)) =~= seq_view(s).remove(i));
}

pub proof fn lemma_seq_view_update(s: Seq<Rational>, i: int, x: Rational)
    requires
        0 <= i < s.len(),
    ensures
        seq_view(s.update(i, x)) == seq_view(s).update(i, x@),
{
    assert(seq_view(s.update(i, x)) =~= seq_view(s).update(i, x@));
}

/// The left fold of `mul` over the items from position `i`, starting
/// from the accumulator.  `None` stands for a step outgrowing the
/// machine word.
pub open spec fn product_from(s: Seq<RatV>, i: int, acc: RatV) -> Option<RatV>
    decreases s.len() - i,
{
    if i < 0 || i >= s.len() {
        Some(acc)
    } else if !mul_ok(acc, s[i]) {
        None
    } else {
        product_from(s, i + 1, mul_v(acc, s[i]))
    }
}

impl Rational {
    /// The product of the items, folded left from one.
    pub fn product(items: &Vec<Rational>) -> (r: Self)
        requires
            product_from(seq_view(items@), 0, ratv(1, 1)) is Some,
        ensures
            Some(r@) == product_from(seq_view(items@), 0, ratv(1, 1)),
    {
        let ghost s = seq_view(items@);
        let mut acc = Rational(1, 1);
        let mut i: usize = 0;
        while i < items.len()
            invariant
                s == seq_view(items@),
                s.len() == items@.len(),
                i <= items@.len(),
                product_from(s, i as int, acc@) == product_from(s, 0, ratv(1, 1)),
                product_from(s, 0, ratv(1, 1)) is Some,
            decreases items@.len() - i,
        {
            proof {
                lemma_seq_view_index(items@, i as int);
            }
            acc = acc.mul(items[i]);
            i = i + 1;
        }
        acc
    }
}

/// The decimal digit character for a value below ten.
pub open spec fn digit_char(v: int) -> char {
    if v == 0 {
        '0'
    } else if v == 1 {
        '1'
    } else if v == 2 {
        '2'
    } else if v == 3 {
        '3'
    } else if v == 4 {
        '4'
    } else if v == 5 {
        '5'
    } else if v == 6 {
        '6'
    } else if v == 7 {
        '7'
    } else if v == 8 {
        '8'
    } else {
        '9'
    }
}

/// The decimal digits of an unsigned value, most significant first.
pub open spec fn dec_str(n: nat) -> Seq<char>
    decreases n,
{
    if n < 10 {
        seq![digit_char(n as int)]
    } else {
        dec_str(n / 10).push(digit_char((n % 10) as int))
    }
}

/// The decimal rendering of a signed value, with a leading minus sign.
pub open spec fn int_str(v: int) -> Seq<char> {
    if v < 0 {
        seq!['-'] + dec_str(abs(v))
    } else {
        dec_str(v as nat)
    }
}

/// Truncating division, as machine division behaves: the quotient of
/// the magnitudes, negated when the signs differ.
pub open spec fn tdiv(a: int, b: int) -> int {
    if (a < 0) == (b < 0) {
        abs(a) as int / abs(b) as int
    } else {
        -(abs(a) as int / abs(b) as int)
    }
}

/// Truncating remainder: what remains after removing `b * tdiv(a, b)`.
/// It carries the sign of the numerator.
pub open spec fn tmod(a: int, b: int) -> int {
    a - b * tdiv(a, b)
}

/// The display form: a plain whole number when the denominator is one or
/// minus one; otherwise the truncated quotient, the truncated remainder
/// and the denominator, glued as `{quotient}{remainder}/{denominator}`.
pub open spec fn display_v(r: RatV) -> Seq<char> {
    if r.d == 1 {
        int_str(r.n)
    } else if r.d == -1 {
        int_str(-r.n)
    } else {
        int_str(tdiv(r.n, r.d)) + int_str(tmod(r.n, r.d)) + seq!['/'] + int_str(r.d)
    }
}

/// A one-character string for a decimal digit.
fn digit_str(v: u64) -> (s: &'static str)
    requires
        v < 10,
    ensures
        s@ == seq![digit_char(v as int)],
{
    let s = match v {
        0 => "0",
        1 => "1",
        2 => "2",
        3 => "3",
        4 => "4",
        5 => "5",
        6 => "6",
        7 => "7",
        8 => "8",
        _ => "9",
    };
    proof {
        reveal_strlit("0");
        reveal_strlit("1");
        reveal_strlit("2");
        reveal_strlit("3");
        reveal_strlit("4");
        reveal_strlit("5");
        reveal_strlit("6");
        reveal_strlit("7");
        reveal_strlit("8");
        reveal_strlit("9");
        assert(s@ =~= seq![digit_char(v as int)]);
    }
    s
}

/// The decimal digits of an unsigned value.
fn dec_string(n: u64) -> (s: String)
    ensures
        s@ == dec_str(n as nat),
    decreases n,
{
    if n < 10 {
        let mut s = String::new();
        s.append(digit_str(n));
        proof {
            assert(s@ =~= dec_str(n as nat));
        }
        s
    } else {
        let mut s = dec_string(n / 10);
        s.append(digit_str(n % 10));
        proof {
            assert(s@ =~= dec_str(n as nat));
        }
        s
    }
}

/// The decimal rendering of a signed value.
fn int_string(v: i64) -> (s: String)
    ensures
        s@ == int_str(v as int),
{
    if v < 0 {
        let mut s = String::new();
        s.append("-");
        let digits = dec_string(mag(v));
        s.append(digits.as_str());
        proof {
            reveal_strlit("-");
            assert(s@ =~= int_str(v as int));
        }
        s
    } else {
        dec_string(v as u64)
    }
}

/// The truncated quotient, as machine division computes it.
fn trunc_div(a: i64, b: i64) -> (q: i64)
    requires
        b != 0,
        !(a == i64::MIN && b == -1),
    ensures
        q as int == tdiv(a as int, b as int),
{
    if b == 1 {
        proof {
            lemma_div_by_one(abs(a as int) as int);
        }
        return a;
    }
    if b == -1 {
        proof {
            lemma_div_by_one(abs(a as int) as int);
        }
        return -a;
    }
    let ma = mag(a);
    let mb = mag(b);
    proof {
        lemma_div_is_ordered_by_denominator(ma as int, 2, mb as int);
    }
    let qm = ma / mb;
    if (a < 0) != (b < 0) {
        -(qm as i64)
    } else {
        qm as i64
    }
}

/// The truncated remainder, carrying the numerator's sign.
fn trunc_rem(a: i64, b: i64) -> (r: i64)
    requires
        b != 0,
    ensures
        r as int == tmod(a as int, b as int),
{
    let ma = mag(a);
    let mb = mag(b);
    let rm = ma % mb;
    proof {
        let ai = a as int;
        let bi = b as int;
        let mai = ma as int;
        let mbi = mb as int;
        let q = mai / mbi;
        lemma_mod_bound(mai, mbi);
        lemma_fundamental_div_mod(mai, mbi);
        assert(mai == mbi * q + rm);
        if bi < 0 {
            assert(bi * q == -(mbi * q)) by (nonlinear_arith)
                requires
                    bi == -mbi,
            ;
        }
        if (ai < 0) != (bi < 0) {
            assert(bi * (-q) == -(bi * q)) by (nonlinear_arith);
        }
    }
    if a < 0 {
        -(rm as i64)
    } else {
        rm as i64
    }
}

impl Rational {
    /// The display form of the fraction as a string: a whole number for
    /// the denominators one and minus one, and the mixed layout
    /// `{quotient}{remainder}/{denominator}` otherwise.
    pub fn display(&self) -> (out: String)
        requires
            self@.d != 0,
            !(self@.n == i64::MIN && self@.d == -1),
        ensures
            out@ == display_v(self@),
    {
        if self.1 == 1 {
            int_string(self.0)
        } else if self.1 == -1 {
            int_string(-self.0)
        } else {
            let q = trunc_div(self.0, self.1);
            let rm = trunc_rem(self.0, self.1);
            let mut s = int_string(q);
            let mid = int_string(rm);
            s.append(mid.as_str());
            s.append("/");
            let den = int_string(self.1);
            s.append(den.as_str());
            proof {
                reveal_strlit("/");
                assert(s@ =~= display_v(self@));
            }
            s
        }
    }
}

impl Default for Rational {
    /// Zero, over the denominator one.
    fn default() -> (r: Self)
        ensures
            r@ == ratv(0, 1),
    {
        Rational(0, 1)
    }
}

} // verus!
