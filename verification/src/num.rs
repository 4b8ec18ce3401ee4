use vstd::prelude::*;

verus! {

/// An exact numeric datum: the fraction `num / den`.
///
/// Every number the document format and the interpreter touch is kept as an
/// exact ratio of machine integers, so arithmetic, comparison and the
/// integer/fraction distinction are all exact.  A computation whose exact
/// result cannot be held within the field bounds is reported as overflow
/// rather than rounded.
#[derive(Clone, Copy)]
pub struct Number {
    num: i64,
    den: i64,
}

impl Number {
    /// The numerator as a mathematical integer.
    pub closed spec fn n(self) -> int {
        self.num as int
    }

    /// The denominator as a mathematical integer.
    pub closed spec fn d(self) -> int {
        self.den as int
    }

    /// Every well-formed number has a positive denominator.
    pub open spec fn wf(self) -> bool {
        self.d() >= 1
    }

    /// The number is an integer: its denominator divides its numerator.
    pub open spec fn is_int_spec(self) -> bool {
        self.n() % self.d() == 0
    }

    pub fn from_int(i: i64) -> (r: Number)
        ensures
            r.wf(),
            r.n() == i as int,
            r.d() == 1,
    {
        Number { num: i, den: 1 }
    }

    pub fn new(num: i64, den: i64) -> (r: Option<Number>)
        ensures
            den >= 1 ==> (r matches Some(n) && n.wf() && n.n() == num as int && n.d() == den as int),
            den < 1 ==> r is None,
    {
        if den >= 1 {
            Some(Number { num, den })
        } else {
            None
        }
    }

    /// Whether the number is well-formed.
    pub fn wf_exec(&self) -> (r: bool)
        ensures
            r == self.wf(),
    {
        self.den >= 1
    }

    pub fn is_int(&self) -> (r: bool)
        requires
            self.wf(),
        ensures
            r == self.is_int_spec(),
    {
        let a: i128 = self.num as i128;
        let d: i128 = self.den as i128;
        let m: i128 = if a < 0 {
            proof {
                lemma_neg_mod_zero(a as int, d as int);
            }
            (-a) % d
        } else {
            a % d
        };
        m == 0
    }
}

/// Negating the dividend keeps a zero remainder zero, and a nonzero one nonzero.
pub proof fn lemma_neg_mod_zero(n: int, d: int)
    requires
        d >= 1,
    ensures
        ((-n) % d == 0) <==> (n % d == 0),
{
    let r = n % d;
    let q = n / d;
    vstd::arithmetic::div_mod::lemma_fundamental_div_mod(n, d);
    if r == 0 {
        assert(-n == d * (-q) + 0) by (nonlinear_arith)
            requires
                n == d * q,
        ;
        vstd::arithmetic::div_mod::lemma_fundamental_div_mod_converse_mod(-n, d, -q, 0);
    } else {
        assert(-n == d * (-q - 1) + (d - r)) by (nonlinear_arith)
            requires
                n == d * q + r,
        ;
        vstd::arithmetic::div_mod::lemma_fundamental_div_mod_converse_mod(-n, d, -q - 1, d - r);
    }
}

/// The product of two values in `i64` range stays within `i128` range.
pub proof fn lemma_i64_products_fit_i128(a: int, b: int)
    requires
        i64::MIN <= a <= i64::MAX,
        i64::MIN <= b <= i64::MAX,
    ensures
        -0x4000_0000_0000_0000_0000_0000_0000_0000 <= a * b
            <= 0x4000_0000_0000_0000_0000_0000_0000_0000,
        i128::MIN <= a * b <= i128::MAX,
        i128::MIN <= -(a * b) <= i128::MAX,
{
    assert(-0x4000_0000_0000_0000_0000_0000_0000_0000 <= a * b
        <= 0x4000_0000_0000_0000_0000_0000_0000_0000) by (nonlinear_arith)
        requires
            -0x8000_0000_0000_0000 <= a <= 0x7fff_ffff_ffff_ffff,
            -0x8000_0000_0000_0000 <= b <= 0x7fff_ffff_ffff_ffff,
    ;
}

/// Two ratios denote the same number.
pub open spec fn rat_eq(n1: int, d1: int, n2: int, d2: int) -> bool {
    n1 * d2 == n2 * d1
}

/// Numeric equality of two well-formed numbers.
pub open spec fn num_eq(a: Number, b: Number) -> bool {
    rat_eq(a.n(), a.d(), b.n(), b.d())
}

impl Number {
    pub fn eq_num(&self, other: &Number) -> (r: bool)
        ensures
            r == num_eq(*self, *other),
    {
        proof {
            lemma_i64_products_fit_i128(self.num as int, other.den as int);
            lemma_i64_products_fit_i128(other.num as int, self.den as int);
        }
        (self.num as i128) * (other.den as i128) == (other.num as i128) * (self.den as i128)
    }
}


/// Bounds for the raw products that arithmetic forms: with numerators in
/// `i64` range and denominators in `1..=i64::MAX`, each cross product and
/// their sum stay within `i128` range.
pub proof fn lemma_cross_products_fit(n1: int, d1: int, n2: int, d2: int)
    requires
        i64::MIN <= n1 <= i64::MAX,
        i64::MIN <= n2 <= i64::MAX,
        1 <= d1 <= i64::MAX,
        1 <= d2 <= i64::MAX,
    ensures
        i128::MIN <= n1 * d2 <= i128::MAX,
        i128::MIN <= n2 * d1 <= i128::MAX,
        i128::MIN <= n1 * d2 + n2 * d1 <= i128::MAX,
        i128::MIN <= n1 * d2 - n2 * d1 <= i128::MAX,
        i128::MIN <= n1 * n2 <= i128::MAX,
        1 <= d1 * d2 <= i128::MAX,
{
    assert((-0x8000_0000_0000_0000) * 0x7fff_ffff_ffff_ffff <= n1 * d2 <= 0x8000_0000_0000_0000
        * 0x7fff_ffff_ffff_ffff && (-0x8000_0000_0000_0000) * 0x7fff_ffff_ffff_ffff <= n2 * d1
        <= 0x8000_0000_0000_0000 * 0x7fff_ffff_ffff_ffff && i128::MIN <= n1 * n2 <= i128::MAX && 1
        <= d1 * d2 <= i128::MAX) by (nonlinear_arith)
        requires
            -0x8000_0000_0000_0000 <= n1 <= 0x7fff_ffff_ffff_ffff,
            -0x8000_0000_0000_0000 <= n2 <= 0x7fff_ffff_ffff_ffff,
            1 <= d1 <= 0x7fff_ffff_ffff_ffff,
            1 <= d2 <= 0x7fff_ffff_ffff_ffff,
    ;
}

/// Whether a ratio with the given numerator and denominator can be held in a
/// `Number`: both parts must fit the field bounds.
pub open spec fn ratio_fits(n: int, d: int) -> bool {
    &&& i64::MIN <= n <= i64::MAX
    &&& 1 <= d <= i64::MAX
}

impl Number {
    /// The exact sum.  `None` exactly when the raw sum `(n1*d2 + n2*d1) / (d1*d2)`
    /// does not fit the field bounds.
    pub fn add(&self, other: &Number) -> (r: Option<Number>)
        ensures
            self.wf() && other.wf() && ratio_fits(
                self.n() * other.d() + other.n() * self.d(),
                self.d() * other.d(),
            ) ==> (r matches Some(c) && c.wf() && c.n() == self.n() * other.d() + other.n()
                * self.d() && c.d() == self.d() * other.d()),
            !(self.wf() && other.wf() && ratio_fits(
                self.n() * other.d() + other.n() * self.d(),
                self.d() * other.d(),
            )) ==> r is None,
    {
        if self.den < 1 || other.den < 1 {
            return None;
        }
        proof {
            lemma_cross_products_fit(self.n(), self.d(), other.n(), other.d());
        }
        let sn: i128 = (self.num as i128) * (other.den as i128) + (other.num as i128) * (self.den
            as i128);
        let sd: i128 = (self.den as i128) * (other.den as i128);
        Number::from_parts(sn, sd)
    }

    /// The exact difference, under the same fit condition as `add`.
    pub fn sub(&self, other: &Number) -> (r: Option<Number>)
        ensures
            self.wf() && other.wf() && ratio_fits(
                self.n() * other.d() - other.n() * self.d(),
                self.d() * other.d(),
            ) ==> (r matches Some(c) && c.wf() && c.n() == self.n() * other.d() - other.n()
                * self.d() && c.d() == self.d() * other.d()),
            !(self.wf() && other.wf() && ratio_fits(
                self.n() * other.d() - other.n() * self.d(),
                self.d() * other.d(),
            )) ==> r is None,
    {
        if self.den < 1 || other.den < 1 {
            return None;
        }
        proof {
            lemma_cross_products_fit(self.n(), self.d(), other.n(), other.d());
        }
        let sn: i128 = (self.num as i128) * (other.den as i128) - (other.num as i128) * (self.den
            as i128);
        let sd: i128 = (self.den as i128) * (other.den as i128);
        Number::from_parts(sn, sd)
    }

    /// The exact product, `None` exactly when it does not fit.
    pub fn mul(&self, other: &Number) -> (r: Option<Number>)
        ensures
            self.wf() && other.wf() && ratio_fits(self.n() * other.n(), self.d() * other.d()) ==> (
            r matches Some(c) && c.wf() && c.n() == self.n() * other.n() && c.d() == self.d()
                * other.d()),
            !(self.wf() && other.wf() && ratio_fits(self.n() * other.n(), self.d() * other.d()))
                ==> r is None,
    {
        if self.den < 1 || other.den < 1 {
            return None;
        }
        proof {
            lemma_cross_products_fit(self.n(), self.d(), other.n(), other.d());
        }
        let sn: i128 = (self.num as i128) * (other.num as i128);
        let sd: i128 = (self.den as i128) * (other.den as i128);
        Number::from_parts(sn, sd)
    }

    /// The exact quotient.  `None` when the divisor is zero or the result does
    /// not fit; the divisor's sign moves to the numerator.
    pub fn div(&self, other: &Number) -> (r: Option<Number>)
        ensures
            !(self.wf() && other.wf()) ==> r is None,
            self.wf() && other.wf() && other.n() == 0 ==> r is None,
            self.wf() && other.wf() && other.n() > 0 ==> (if ratio_fits(
                self.n() * other.d(),
                self.d() * other.n(),
            ) {
                r matches Some(c) && c.wf() && c.n() == self.n() * other.d() && c.d() == self.d()
                    * other.n()
            } else {
                r is None
            }),
            self.wf() && other.wf() && other.n() < 0 ==> (if ratio_fits(
                -(self.n() * other.d()),
                -(self.d() * other.n()),
            ) {
                r matches Some(c) && c.wf() && c.n() == -(self.n() * other.d()) && c.d() == -(
                self.d() * other.n())
            } else {
                r is None
            }),
    {
        if self.den < 1 || other.den < 1 {
            return None;
        }
        if other.num == 0 {
            return None;
        }
        proof {
            lemma_i64_products_fit_i128(self.n(), other.d());
            lemma_i64_products_fit_i128(self.d(), other.n());
        }
        let sn: i128 = (self.num as i128) * (other.den as i128);
        let sd: i128 = (self.den as i128) * (other.num as i128);
        if other.num < 0 {
            proof {
                assert(self.d() * other.n() < 0) by (nonlinear_arith)
                    requires
                        self.d() >= 1,
                        other.n() < 0,
                ;
            }
            Number::from_parts(-sn, -sd)
        } else {
            proof {
                assert(self.d() * other.n() >= 1) by (nonlinear_arith)
                    requires
                        self.d() >= 1,
                        other.n() >= 1,
                ;
            }
            Number::from_parts(sn, sd)
        }
    }

    /// Packs a raw ratio into a `Number` when it fits the field bounds.
    fn from_parts(sn: i128, sd: i128) -> (r: Option<Number>)
        requires
            sd >= 1,
        ensures
            ratio_fits(sn as int, sd as int) ==> (r matches Some(c) && c.wf() && c.n() == sn as int
                && c.d() == sd as int),
            !ratio_fits(sn as int, sd as int) ==> r is None,
    {
        if sn >= i64::MIN as i128 && sn <= i64::MAX as i128 && sd <= i64::MAX as i128 {
            Some(Number { num: sn as i64, den: sd as i64 })
        } else {
            None
        }
    }

    /// Numeric order on well-formed numbers.
    pub fn lt_num(&self, other: &Number) -> (r: bool)
        ensures
            r == (self.n() * other.d() < other.n() * self.d()),
    {
        proof {
            lemma_i64_products_fit_i128(self.n(), other.d());
            lemma_i64_products_fit_i128(other.n(), self.d());
        }
        (self.num as i128) * (other.den as i128) < (other.num as i128) * (self.den as i128)
    }
}

/// Decimal digits of a nonnegative integer, most significant first.
pub open spec fn dec_u(n: int) -> Seq<u8>
    decreases n,
    via dec_u_dec
{
    if n < 10 {
        seq![(48 + if n >= 0 { n } else { 0 }) as u8]
    } else {
        dec_u(n / 10) + seq![(48 + n % 10) as u8]
    }
}

#[via_fn]
proof fn dec_u_dec(n: int) {
    if n >= 10 {
        vstd::arithmetic::div_mod::lemma_div_decreases(n, 10);
        vstd::arithmetic::div_mod::lemma_div_pos_is_pos(n, 10);
    }
}

/// Appends the decimal digits of `n`.
pub fn push_dec_u(out: &mut Vec<u8>, n: u64)
    ensures
        final(out)@ == old(out)@ + dec_u(n as int),
    decreases n,
{
    if n < 10 {
        out.push(48 + n as u8);
        proof {
            assert(final(out)@ =~= old(out)@ + dec_u(n as int));
        }
    } else {
        push_dec_u(out, n / 10);
        out.push(48 + (n % 10) as u8);
        proof {
            assert(final(out)@ =~= old(out)@ + dec_u(n as int));
        }
    }
}

/// Fractional decimal digits of the remainder `r` over `d`, produced by long
/// division, at most `k` of them, stopping when the remainder vanishes.
pub open spec fn frac_digits(r: int, d: int, k: int) -> Seq<u8>
    decreases k,
{
    if k <= 0 || r <= 0 {
        Seq::empty()
    } else {
        seq![(48 + (r * 10) / d) as u8] + frac_digits((r * 10) % d, d, k - 1)
    }
}

/// How many fractional digits `num_text` prints at most.
pub open spec fn frac_cap() -> int {
    30
}

/// The text of the ratio `n / d`: a possible minus sign, the integer part,
/// and, unless the ratio is an integer, a point and its fractional digits,
/// at most `frac_cap()` of them by long division.
pub open spec fn num_text(n: int, d: int) -> Seq<u8> {
    let a = if n < 0 {
        -n
    } else {
        n
    };
    let q = a / d;
    let r = a % d;
    let digits = if r == 0 {
        dec_u(q)
    } else {
        dec_u(q) + seq![46u8] + frac_digits(r, d, frac_cap())
    };
    if n < 0 {
        seq![45u8] + digits
    } else {
        digits
    }
}

impl Number {
    /// Prints the number exactly as `num_text` of its ratio.
    pub fn to_text(&self) -> (r: Vec<u8>)
        requires
            self.wf(),
        ensures
            r@ == num_text(self.n(), self.d()),
    {
        let mut out: Vec<u8> = Vec::new();
        let a: i128 = if self.num < 0 {
            out.push(45);
            -(self.num as i128)
        } else {
            self.num as i128
        };
        let d: i128 = self.den as i128;
        let q: i128 = a / d;
        let mut r: i128 = a % d;
        proof {
            vstd::arithmetic::div_mod::lemma_div_pos_is_pos(a as int, d as int);
            vstd::arithmetic::div_mod::lemma_div_nonincreasing(a as int, d as int);
            vstd::arithmetic::div_mod::lemma_remainder_lower(a as int, d as int);
            vstd::arithmetic::div_mod::lemma_remainder_upper(a as int, d as int);
        }
        push_dec_u(&mut out, q as u64);
        if r != 0 {
            out.push(46);
            let ghost gr = r as int;
            let mut k: usize = 0;
            #[verifier::loop_isolation(false)]
            while k < 30 && r > 0
                invariant
                    0 <= k <= 30,
                    0 <= r < d,
                    out@ + frac_digits(r as int, d as int, frac_cap() - k) == out@ + frac_digits(
                        r as int,
                        d as int,
                        frac_cap() - k,
                    ),
                    num_text(self.n(), self.d()) == out@ + frac_digits(
                        r as int,
                        d as int,
                        frac_cap() - k,
                    ),
                decreases 30 - k,
            {
                let r10: i128 = r * 10;
                proof {
                    assert(r10 < 10 * d) by (nonlinear_arith)
                        requires
                            r < d,
                            r10 == r * 10,
                    ;
                    vstd::arithmetic::div_mod::lemma_multiply_divide_lt(r10 as int, d as int, 10);
                    vstd::arithmetic::div_mod::lemma_div_pos_is_pos(r10 as int, d as int);
                    vstd::arithmetic::div_mod::lemma_remainder_lower(r10 as int, d as int);
                    vstd::arithmetic::div_mod::lemma_remainder_upper(r10 as int, d as int);
                }
                let digit: i128 = r10 / d;
                out.push(48 + digit as u8);
                r = r10 % d;
                k = k + 1;
                proof {
                    assert(out@ + frac_digits(r as int, d as int, frac_cap() - k) =~= out@
                        + frac_digits(r as int, d as int, frac_cap() - k));
                    assert(num_text(self.n(), self.d()) =~= out@ + frac_digits(
                        r as int,
                        d as int,
                        frac_cap() - k,
                    ));
                }
            }
            proof {
                assert(frac_digits(r as int, d as int, frac_cap() - k) =~= Seq::<u8>::empty());
                assert(num_text(self.n(), self.d()) =~= out@);
            }
        } else {
            proof {
                assert(num_text(self.n(), self.d()) =~= out@);
            }
        }
        out
    }
}


/// A decimal digit byte.
pub open spec fn is_digit(b: u8) -> bool {
    48 <= b <= 57
}

pub fn digit_byte(b: u8) -> (r: bool)
    ensures
        r == is_digit(b),
{
    48 <= b && b <= 57
}

/// Length of the maximal leading run of digit bytes.
pub open spec fn digit_run(s: Seq<u8>) -> int
    decreases s.len(),
{
    if s.len() == 0 || !is_digit(s[0]) {
        0
    } else {
        1 + digit_run(s.drop_first())
    }
}

proof fn lemma_digit_run_is(s: Seq<u8>, i: int)
    requires
        0 <= i <= s.len(),
        forall|j: int| 0 <= j < i ==> is_digit(s[j]),
        i == s.len() || !is_digit(s[i]),
    ensures
        digit_run(s) == i,
    decreases i,
{
    if i > 0 {
        lemma_digit_run_is(s.drop_first(), i - 1);
    }
}

/// Every byte is a digit.
pub open spec fn all_digits(s: Seq<u8>) -> bool {
    forall|j: int| 0 <= j < s.len() ==> is_digit(s[j])
}

/// The integer denoted by a run of digit bytes.
pub open spec fn digits_val(s: Seq<u8>) -> int
    decreases s.len(),
{
    if s.len() == 0 {
        0
    } else {
        digits_val(s.drop_last()) * 10 + (s.last() - 48)
    }
}

/// The power `10^k` (and `1` for nonpositive `k`).
pub open spec fn pow10(k: int) -> int
    decreases k,
{
    if k <= 0 {
        1
    } else {
        10 * pow10(k - 1)
    }
}

pub proof fn lemma_pow10_pos(k: int)
    ensures
        pow10(k) >= 1,
    decreases k,
{
    if k > 0 {
        lemma_pow10_pos(k - 1);
    }
}

pub proof fn lemma_pow10_mono(a: int, b: int)
    requires
        a <= b,
    ensures
        pow10(a) <= pow10(b),
    decreases b - a,
{
    if a < b {
        lemma_pow10_mono(a, b - 1);
        lemma_pow10_pos(b - 1);
    }
}

pub proof fn lemma_pow10_18()
    ensures
        pow10(18) == 1000000000000000000,
{
    reveal_with_fuel(pow10, 20);
}

proof fn lemma_digits_val_bound(s: Seq<u8>)
    requires
        all_digits(s),
    ensures
        0 <= digits_val(s) < pow10(s.len() as int),
    decreases s.len(),
{
    if s.len() > 0 {
        lemma_digits_val_bound(s.drop_last());
        let p = digits_val(s.drop_last());
        let q = pow10(s.len() - 1);
        assert(p * 10 + (s.last() - 48) < 10 * q) by (nonlinear_arith)
            requires
                0 <= p < q,
                48 <= s.last() <= 57,
        ;
        assert(p * 10 + (s.last() - 48) >= 0) by (nonlinear_arith)
            requires
                p >= 0,
                48 <= s.last() <= 57,
        ;
    }
}

/// Computes `10^k` for small `k`.
fn pow10_exec(k: usize) -> (r: i128)
    requires
        k <= 18,
    ensures
        r == pow10(k as int),
        1 <= r <= 1000000000000000000,
{
    proof {
        lemma_pow10_18();
    }
    let mut r: i128 = 1;
    let mut i: usize = 0;
    #[verifier::loop_isolation(false)]
    while i < k
        invariant
            0 <= i <= k,
            r == pow10(i as int),
            1 <= r <= 1000000000000000000,
        decreases k - i,
    {
        proof {
            lemma_pow10_mono(i as int + 1, 18);
            lemma_pow10_pos(i as int);
        }
        r = r * 10;
        i = i + 1;
    }
    proof {
        lemma_pow10_mono(k as int, 18);
    }
    r
}

/// The integer denoted by a digit run of at most 18 bytes.
pub fn parse_digits(s: &[u8], a: usize, b: usize) -> (r: i128)
    requires
        a <= b <= s@.len(),
        b - a <= 18,
        all_digits(s@.subrange(a as int, b as int)),
    ensures
        r == digits_val(s@.subrange(a as int, b as int)),
        0 <= r < pow10(b - a),
        r <= 1000000000000000000,
{
    let ghost whole = s@.subrange(a as int, b as int);
    let mut acc: i128 = 0;
    let mut i: usize = a;
    proof {
        lemma_pow10_18();
        assert(s@.subrange(a as int, a as int) =~= Seq::<u8>::empty());
    }
    #[verifier::loop_isolation(false)]
    while i < b
        invariant
            a <= i <= b,
            acc == digits_val(s@.subrange(a as int, i as int)),
            0 <= acc < pow10(i - a),
            acc < 1000000000000000000,
        decreases b - i,
    {
        let ghost pre = s@.subrange(a as int, i as int);
        proof {
            lemma_digits_val_bound(pre);
            assert(is_digit(whole[i - a]));
            assert(s@.subrange(a as int, i + 1).drop_last() =~= pre);
            assert(acc * 10 + (s@[i as int] - 48) < 10 * pow10(i - a)) by (nonlinear_arith)
                requires
                    0 <= acc < pow10(i - a),
                    48 <= s@[i as int] <= 57,
            ;
            assert(acc * 10 >= 0) by (nonlinear_arith)
                requires
                    acc >= 0,
            ;
            lemma_pow10_mono(i - a + 1, 18);
        }
        acc = acc * 10 + (s[i] - 48) as i128;
        i = i + 1;
    }
    acc
}

/// The numeric literal grammar and the ratio a literal denotes: an optional
/// sign, an integer digit run, and an optional point followed by a fraction
/// digit run; at least one digit in all, at most 18 on each side.  `None`
/// when the text is not such a literal or the ratio does not fit a `Number`.
pub open spec fn num_literal(s: Seq<u8>) -> Option<(int, int)> {
    let sgn: int = if s.len() > 0 && s[0] == 45 {
        -1
    } else {
        1
    };
    let b = if s.len() > 0 && (s[0] == 43 || s[0] == 45) {
        s.drop_first()
    } else {
        s
    };
    let il = digit_run(b);
    let ip = b.take(il);
    let rest = b.skip(il);
    if il > 18 {
        None
    } else if rest.len() == 0 {
        if il >= 1 {
            Some((sgn * digits_val(ip), 1))
        } else {
            None
        }
    } else if rest[0] == 46 {
        let fp = rest.drop_first();
        if all_digits(fp) && il + fp.len() >= 1 && fp.len() <= 18 {
            let den = pow10(fp.len() as int);
            let n0 = digits_val(ip) * den + digits_val(fp);
            if n0 <= i64::MAX {
                Some((sgn * n0, den))
            } else {
                None
            }
        } else {
            None
        }
    } else {
        None
    }
}

/// Reads a numeric literal.
pub fn parse_number(s: &[u8]) -> (r: Option<Number>)
    ensures
        match num_literal(s@) {
            Some((n, d)) => r matches Some(x) && x.wf() && x.n() == n && x.d() == d,
            None => r is None,
        },
{
    let neg = s.len() > 0 && s[0] == 45;
    let start: usize = if s.len() > 0 && (s[0] == 43 || s[0] == 45) {
        1
    } else {
        0
    };
    let ghost b = s@.skip(start as int);
    let mut i: usize = start;
    #[verifier::loop_isolation(false)]
    while i < s.len() && digit_byte(s[i])
        invariant
            start <= i <= s@.len(),
            forall|j: int| start <= j < i ==> is_digit(s@[j]),
        decreases s@.len() - i,
    {
        i = i + 1;
    }
    proof {
        if start == 1 {
            assert(s@.drop_first() =~= s@.skip(1));
        } else {
            assert(s@.skip(0) =~= s@);
        }
        if i < s.len() {
            assert(b[i - start] == s@[i as int]);
        }
        assert forall|j: int| 0 <= j < i - start implies is_digit(b[j]) by {
            assert(b[j] == s@[start + j]);
        }
        lemma_digit_run_is(b, i - start);
        assert(b.take(i - start) =~= s@.subrange(start as int, i as int));
    }
    let il = i - start;
    if il > 18 {
        return None;
    }
    if i == s.len() {
        if il >= 1 {
            let iv = parse_digits(s, start, i);
            proof {
                assert(b.skip(i - start) =~= Seq::<u8>::empty());
            }
            let num: i64 = if neg {
                -(iv as i64)
            } else {
                iv as i64
            };
            proof {
                assert(0 <= iv <= 1000000000000000000);
                assert(iv as i64 as int == iv as int);
                let v = digits_val(b.take(il as int));
                assert((-1int) * v == -v && (1int) * v == v) by (nonlinear_arith);
            }
            return Some(Number { num, den: 1 });
        } else {
            return None;
        }
    }
    if s[i] != 46 {
        proof {
            assert(b.skip(i - start)[0] == s@[i as int]);
        }
        return None;
    }
    proof {
        assert(b.skip(i - start)[0] == s@[i as int]);
        assert(b.skip(i - start).drop_first() =~= s@.skip(i + 1));
    }
    let fstart = i + 1;
    let mut j: usize = fstart;
    #[verifier::loop_isolation(false)]
    while j < s.len() && digit_byte(s[j])
        invariant
            fstart <= j <= s@.len(),
            forall|k: int| fstart <= k < j ==> is_digit(s@[k]),
        decreases s@.len() - j,
    {
        j = j + 1;
    }
    let ghost fp = s@.skip(fstart as int);
    if j < s.len() {
        proof {
            assert(!all_digits(fp)) by {
                assert(fp[j - fstart] == s@[j as int]);
            }
        }
        return None;
    }
    proof {
        assert(all_digits(fp)) by {
            assert(forall|k: int| 0 <= k < fp.len() ==> fp[k] == s@[fstart + k]);
        }
        assert(fp =~= s@.subrange(fstart as int, s@.len() as int));
    }
    let flen = s.len() - fstart;
    if il == 0 && flen == 0 {
        return None;
    }
    if flen > 18 {
        return None;
    }
    let iv = parse_digits(s, start, i);
    let fv = parse_digits(s, fstart, s.len());
    let den = pow10_exec(flen);
    proof {
        lemma_pow10_18();
        assert(iv * den + fv < 2000000000000000000000000000000000000) by (nonlinear_arith)
            requires
                0 <= iv <= 1000000000000000000,
                0 <= fv <= 1000000000000000000,
                1 <= den <= 1000000000000000000,
        ;
        assert(iv * den >= 0) by (nonlinear_arith)
            requires
                iv >= 0,
                den >= 1,
        ;
    }
    let n0: i128 = iv * den + fv;
    if n0 > i64::MAX as i128 {
        return None;
    }
    let num: i64 = if neg {
        -(n0 as i64)
    } else {
        n0 as i64
    };
    proof {
        lemma_pow10_mono(flen as int, 18);
    }
    Some(Number { num, den: den as i64 })
}


impl Number {
    /// The number's text; a ratio outside the well-formed range (which no
    /// constructor of this library produces) prints as zero.
    pub fn to_text_total(&self) -> (r: Vec<u8>)
        ensures
            r@ == (if self.wf() {
                num_text(self.n(), self.d())
            } else {
                seq![48u8]
            }),
    {
        if self.den >= 1 {
            self.to_text()
        } else {
            let mut v: Vec<u8> = Vec::new();
            v.push(48);
            proof {
                assert(v@ =~= seq![48u8]);
            }
            v
        }
    }
}


impl Number {
    /// The exact integer the number denotes, when it is one.
    pub fn int_value(&self) -> (r: Option<i64>)
        ensures
            self.d() >= 1 && self.n() % self.d() == 0 ==> (r matches Some(v) && v as int == self.n()
                / self.d()),
            !(self.d() >= 1 && self.n() % self.d() == 0) ==> r is None,
    {
        if self.den < 1 {
            return None;
        }
        let neg = self.num < 0;
        let a: i128 = if neg {
            -(self.num as i128)
        } else {
            self.num as i128
        };
        let d: i128 = self.den as i128;
        let q: i128 = a / d;
        let rem: i128 = a % d;
        proof {
            vstd::arithmetic::div_mod::lemma_fundamental_div_mod(a as int, d as int);
            vstd::arithmetic::div_mod::lemma_div_pos_is_pos(a as int, d as int);
            vstd::arithmetic::div_mod::lemma_div_nonincreasing(a as int, d as int);
            vstd::arithmetic::div_mod::lemma_remainder_lower(a as int, d as int);
            vstd::arithmetic::div_mod::lemma_remainder_upper(a as int, d as int);
            lemma_neg_mod_zero(self.n(), self.d());
        }
        if rem != 0 {
            return None;
        }
        if neg {
            proof {
                assert(self.n() == d * (-q) + 0) by (nonlinear_arith)
                    requires
                        -self.n() == d * q,
                ;
                vstd::arithmetic::div_mod::lemma_fundamental_div_mod_converse_mod(
                    self.n(),
                    d as int,
                    -q,
                    0,
                );
                vstd::arithmetic::div_mod::lemma_fundamental_div_mod_converse_div(
                    self.n(),
                    d as int,
                    -q,
                    0,
                );
            }
            Some((-q) as i64)
        } else {
            Some(q as i64)
        }
    }
}


/// The integer part of a ratio, truncated toward zero.
pub open spec fn trunc_ratio(n: int, d: int) -> int {
    if n >= 0 {
        n / d
    } else {
        -((-n) / d)
    }
}

impl Number {
    /// The number truncated toward zero.
    pub fn trunc_i64(&self) -> (r: i64)
        requires
            self.wf(),
        ensures
            r as int == trunc_ratio(self.n(), self.d()),
    {
        let neg = self.num < 0;
        let a: i128 = if neg {
            -(self.num as i128)
        } else {
            self.num as i128
        };
        let d: i128 = self.den as i128;
        let q: i128 = a / d;
        proof {
            vstd::arithmetic::div_mod::lemma_div_pos_is_pos(a as int, d as int);
            vstd::arithmetic::div_mod::lemma_div_nonincreasing(a as int, d as int);
        }
        let signed: i128 = if neg {
            -q
        } else {
            q
        };
        signed as i64
    }
}

} // verus!
