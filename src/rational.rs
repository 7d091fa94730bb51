use vstd::arithmetic::div_mod::{lemma_fundamental_div_mod, lemma_truncate_middle};
use vstd::prelude::*;

verus! {

/// Sign of a rational number; zero is always `Positive`.
#[derive(Clone, Copy, Debug, PartialEq, Eq, Structural)]
pub enum Sign {
    Positive,
    Negative,
}

/// An exact fraction in sign-magnitude form, always kept in lowest terms.
#[derive(Clone, Copy, Debug, PartialEq, Eq, Structural)]
pub struct Rational {
    numerator: usize,
    denominator: usize,
    sign: Sign,
}

/// Returned when text does not read as a rational number; `kind` says why.
#[derive(Clone, Copy, Debug, PartialEq, Eq, Structural)]
pub struct ParseRationalError {
    pub kind: ParseErrorKind,
}

/// Why text did not read as a rational number.
#[derive(Clone, Copy, Debug, PartialEq, Eq, Structural)]
pub enum ParseErrorKind {
    /// The text is not of the form `[-]digits[/digits]`.
    Malformed,
    /// The denominator written is zero.
    DivisionByZero,
    /// A magnitude written does not fit a machine word.
    ArithmeticOverflow,
}

/// Failures of rational arithmetic.
#[derive(Clone, Copy, Debug, PartialEq, Eq, Structural)]
pub enum RationalError {
    /// A fraction was constructed with denominator zero.
    DivisionByZero,
    /// Zero has no multiplicative inverse.
    NoInverse,
    /// An exact intermediate magnitude does not fit a machine word.
    ArithmeticOverflow,
}

/// Mathematical model of a `Rational`: its sign and its two magnitudes.
pub struct Frac {
    pub sign: Sign,
    pub num: nat,
    pub den: nat,
}

/// Greatest common divisor by Euclid's rule; `gcd(a, 0) == a`.
pub open spec fn gcd(a: nat, b: nat) -> nat
    decreases b,
{
    if b == 0 {
        a
    } else {
        gcd(b, (a % b) as nat)
    }
}

pub open spec fn flip(s: Sign) -> Sign {
    match s {
        Sign::Positive => Sign::Negative,
        Sign::Negative => Sign::Positive,
    }
}

/// Sign of a product: like signs give `Positive`, unlike signs `Negative`.
pub open spec fn sign_product(a: Sign, b: Sign) -> Sign {
    if a == b {
        Sign::Positive
    } else {
        Sign::Negative
    }
}

pub open spec fn zero_frac() -> Frac {
    Frac { sign: Sign::Positive, num: 0, den: 1 }
}

pub open spec fn one_frac() -> Frac {
    Frac { sign: Sign::Positive, num: 1, den: 1 }
}

impl Frac {
    /// Lowest terms, positive denominator, and zero written as `+0/1`.
    pub open spec fn canonical(self) -> bool {
        &&& self.den >= 1
        &&& gcd(self.num, self.den) == 1
        &&& (self.num == 0 ==> self.sign == Sign::Positive)
    }

    /// The signed numerator.
    pub open spec fn signed_num(self) -> int {
        match self.sign {
            Sign::Positive => self.num as int,
            Sign::Negative => -(self.num as int),
        }
    }
}

/// `sign · num / den` in lowest terms (for `den > 0`); zero becomes `+0/1`.
pub open spec fn normalize(sign: Sign, num: nat, den: nat) -> Frac {
    if num == 0 {
        zero_frac()
    } else {
        let g = gcd(num, den);
        Frac { sign, num: num / g, den: den / g }
    }
}

proof fn lemma_gcd_zero_left(b: nat)
    ensures
        gcd(0, b) == b,
{
    if b > 0 {
        assert(gcd(0, b) == gcd(b, 0));
    }
}

/// `gcd` does not depend on the order of its arguments.
proof fn lemma_gcd_commutes(a: nat, b: nat)
    ensures
        gcd(a, b) == gcd(b, a),
{
    if a == 0 {
        lemma_gcd_zero_left(b);
    } else if b == 0 {
        lemma_gcd_zero_left(a);
    } else if a < b {
        assert(a % b == a) by (nonlinear_arith)
            requires
                0 < a < b,
        ;
        assert(gcd(a, b) == gcd(b, a));
    } else if a > b {
        assert(b % a == b) by (nonlinear_arith)
            requires
                0 < b < a,
        ;
        assert(gcd(b, a) == gcd(a, b));
    }
}

/// The gcd of two numbers, not both zero, is positive and divides both.
proof fn lemma_gcd_divides(a: nat, b: nat)
    requires
        a > 0 || b > 0,
    ensures
        gcd(a, b) > 0,
        a == gcd(a, b) * (a / gcd(a, b)),
        b == gcd(a, b) * (b / gcd(a, b)),
    decreases b,
{
    if b == 0 {
        assert(a == a * (a / a)) by (nonlinear_arith)
            requires
                a > 0,
        ;
        assert(0nat / a == 0) by (nonlinear_arith)
            requires
                a > 0,
        ;
    } else {
        let r = (a % b) as nat;
        assert(r < b) by (nonlinear_arith)
            requires
                b > 0,
                r == a % b,
        ;
        lemma_gcd_divides(b, r);
        let g = gcd(b, r);
        assert(gcd(a, b) == g);
        lemma_fundamental_div_mod(a as int, b as int);
        let q = a / b;
        let xb = b / g;
        let xr = r / g;
        assert(a == g * (xb * q + xr)) by (nonlinear_arith)
            requires
                a == b * q + r,
                b == g * xb,
                r == g * xr,
        ;
        assert(a / g == xb * q + xr) by (nonlinear_arith)
            requires
                a == g * (xb * q + xr),
                g > 0,
        ;
    }
}

/// A common factor comes out of the gcd.
proof fn lemma_gcd_scale(k: nat, a: nat, b: nat)
    requires
        k > 0,
    ensures
        gcd(k * a, k * b) == k * gcd(a, b),
    decreases b,
{
    if b == 0 {
        assert(k * b == 0) by (nonlinear_arith)
            requires
                b == 0,
        ;
    } else {
        assert(k * b > 0) by (nonlinear_arith)
            requires
                k > 0,
                b > 0,
        ;
        lemma_truncate_middle(a as int, k as int, b as int);
        let r = (a % b) as nat;
        assert(r < b) by (nonlinear_arith)
            requires
                b > 0,
                r == a % b,
        ;
        assert(((k * a) % (k * b)) as nat == k * r);
        assert(gcd(k * a, k * b) == gcd(k * b, k * r));
        lemma_gcd_scale(k, b, r);
    }
}

/// Dividing both numbers by their gcd leaves coprime numbers.
proof fn lemma_gcd_quotients(a: nat, b: nat)
    requires
        a > 0,
    ensures
        gcd(a / gcd(a, b), b / gcd(a, b)) == 1,
{
    lemma_gcd_divides(a, b);
    let g = gcd(a, b);
    let x = a / g;
    let y = b / g;
    lemma_gcd_scale(g, x, y);
    assert(gcd(x, y) == 1) by (nonlinear_arith)
        requires
            g * gcd(x, y) == g,
            g > 0,
    ;
}


proof fn lemma_gcd_one()
    ensures
        forall|n: nat| #[trigger] gcd(n, 1) == 1,
{
    assert forall|n: nat| #[trigger] gcd(n, 1) == 1 by {
        assert(n % 1 == 0) by (nonlinear_arith);
        assert(gcd(n, 1) == gcd(1, 0));
    }
}

proof fn lemma_gcd_self(a: nat)
    ensures
        gcd(a, a) == a,
{
    if a > 0 {
        assert(a % a == 0) by (nonlinear_arith)
            requires
                a > 0,
        ;
        assert(gcd(a, a) == gcd(a, 0));
    }
}

/// The normal form is canonical, no larger than its input, and equal in value.
pub proof fn lemma_normalize(sign: Sign, num: nat, den: nat)
    requires
        den > 0,
    ensures
        normalize(sign, num, den).canonical(),
        normalize(sign, num, den).num <= num,
        normalize(sign, num, den).den <= den,
        num > 0 ==> normalize(sign, num, den).num > 0,
        normalize(sign, num, den).signed_num() * den == sign_frac(sign, num) * normalize(
            sign,
            num,
            den,
        ).den,
{
    if num == 0 {
        assert(gcd(0, 1) == 1) by {
            lemma_gcd_zero_left(1);
        }
    } else {
        lemma_gcd_divides(num, den);
        lemma_gcd_quotients(num, den);
        let g = gcd(num, den);
        let x = num / g;
        let y = den / g;
        assert(x >= 1 && y >= 1 && x <= num && y <= den && x * den == num * y) by (nonlinear_arith)
            requires
                num == g * x,
                den == g * y,
                g > 0,
                num > 0,
                den > 0,
        ;
        let n = normalize(sign, num, den);
        if sign == Sign::Negative {
            assert(n.signed_num() * den == sign_frac(sign, num) * n.den) by (nonlinear_arith)
                requires
                    n.signed_num() == -x,
                    sign_frac(sign, num) == -num,
                    n.den == y,
                    x * den == num * y,
            ;
        }
    }
}

/// `sign · num` as an integer.
pub open spec fn sign_frac(sign: Sign, num: nat) -> int {
    Frac { sign, num, den: 1 }.signed_num()
}

/// A canonical fraction is its own normal form.
pub proof fn lemma_normalize_canonical(f: Frac)
    requires
        f.canonical(),
    ensures
        normalize(f.sign, f.num, f.den) == f,
{
    if f.num == 0 {
        lemma_gcd_zero_left(f.den);
    } else {
        assert(f.num / 1 == f.num && f.den / 1 == f.den);
    }
}


/// The product's magnitudes fit a machine word.
pub open spec fn mul_fits(a: Frac, b: Frac) -> bool {
    &&& a.num * b.num <= usize::MAX
    &&& a.den * b.den <= usize::MAX
}

/// Product: magnitudes multiply independently, signs by the sign rule.
pub open spec fn mul_frac(a: Frac, b: Frac) -> Frac {
    normalize(sign_product(a.sign, b.sign), a.num * b.num, a.den * b.den)
}

/// The cross-multiplied magnitudes, the common denominator and, for like
/// signs, the sum of magnitudes fit a machine word.
pub open spec fn add_fits(a: Frac, b: Frac) -> bool {
    &&& a.num * b.den <= usize::MAX
    &&& b.num * a.den <= usize::MAX
    &&& a.den * b.den <= usize::MAX
    &&& (a.sign == b.sign ==> a.num * b.den + b.num * a.den <= usize::MAX)
}

/// Sum over the common denominator `a.den * b.den`: like signs add magnitudes;
/// unlike signs subtract the smaller magnitude from the larger and keep the
/// sign of the larger.
pub open spec fn add_frac(a: Frac, b: Frac) -> Frac {
    let an = a.num * b.den;
    let bn = b.num * a.den;
    let d = a.den * b.den;
    if a.sign == b.sign {
        normalize(a.sign, an + bn, d)
    } else if bn > an {
        normalize(flip(a.sign), (bn - an) as nat, d)
    } else {
        normalize(a.sign, (an - bn) as nat, d)
    }
}

/// Negation; zero stays `+0/1`.
pub open spec fn neg_frac(a: Frac) -> Frac {
    if a.num == 0 {
        a
    } else {
        Frac { sign: flip(a.sign), num: a.num, den: a.den }
    }
}

/// Reciprocal: numerator and denominator swap, the sign stays.
pub open spec fn inverse_frac(a: Frac) -> Frac {
    normalize(a.sign, a.den, a.num)
}

/// Every value produced by multiplication is in lowest terms with `+0/1` for zero.
pub proof fn lemma_mul_canonical(a: Frac, b: Frac)
    requires
        a.canonical(),
        b.canonical(),
    ensures
        mul_frac(a, b).canonical(),
{
    assert(a.den * b.den > 0) by (nonlinear_arith)
        requires
            a.den >= 1,
            b.den >= 1,
    ;
    lemma_normalize(sign_product(a.sign, b.sign), a.num * b.num, a.den * b.den);
}

/// Every value produced by addition is in lowest terms with `+0/1` for zero.
pub proof fn lemma_add_canonical(a: Frac, b: Frac)
    requires
        a.canonical(),
        b.canonical(),
    ensures
        add_frac(a, b).canonical(),
{
    assert(a.den * b.den > 0) by (nonlinear_arith)
        requires
            a.den >= 1,
            b.den >= 1,
    ;
    let an = a.num * b.den;
    let bn = b.num * a.den;
    let d = a.den * b.den;
    lemma_normalize(a.sign, an + bn, d);
    lemma_normalize(flip(a.sign), (bn - an) as nat, d);
    lemma_normalize(a.sign, (an - bn) as nat, d);
}

/// A nonzero value times its reciprocal is exactly `1/1`, whenever the
/// product's magnitudes fit a machine word.
pub proof fn lemma_inverse_law(r: Frac)
    requires
        r.canonical(),
        r.num != 0,
        mul_fits(r, inverse_frac(r)),
    ensures
        inverse_frac(r).canonical(),
        mul_frac(r, inverse_frac(r)) == one_frac(),
{
    lemma_gcd_commutes(r.num, r.den);
    lemma_normalize_canonical(Frac { sign: r.sign, num: r.den, den: r.num });
    let m = r.num * r.den;
    assert(m > 0 && r.den * r.num == m) by (nonlinear_arith)
        requires
            r.num > 0,
            r.den > 0,
            m == r.num * r.den,
    ;
    lemma_gcd_self(m);
    assert(m / m == 1) by (nonlinear_arith)
        requires
            m > 0,
    ;
}

/// A value plus its negation is exactly zero (the addition itself succeeds
/// whenever `add_fits` holds for the pair).
pub proof fn lemma_additive_identity(r: Frac)
    requires
        r.canonical(),
    ensures
        add_frac(r, neg_frac(r)) == zero_frac(),
{
    lemma_gcd_zero_left(r.den * r.den);
}

proof fn lemma_signed_scale(f: Frac, k: nat)
    ensures
        f.signed_num() * k == sign_frac(f.sign, f.num * k),
{
    if f.sign == Sign::Negative {
        assert((-(f.num as int)) * k == -((f.num * k) as int)) by (nonlinear_arith);
    }
}

/// The sum has the value `a + b`: over the common denominator `a.den * b.den`,
/// its signed numerator is `a.signed_num() * b.den + b.signed_num() * a.den`.
pub proof fn lemma_add_value(a: Frac, b: Frac)
    requires
        a.den > 0,
        b.den > 0,
    ensures
        add_frac(a, b).signed_num() * (a.den * b.den) == (a.signed_num() * b.den + b.signed_num()
            * a.den) * add_frac(a, b).den,
{
    let an = a.num * b.den;
    let bn = b.num * a.den;
    let d = a.den * b.den;
    assert(d > 0) by (nonlinear_arith)
        requires
            a.den > 0,
            b.den > 0,
            d == a.den * b.den,
    ;
    lemma_signed_scale(a, b.den);
    lemma_signed_scale(b, a.den);
    if a.sign == b.sign {
        lemma_normalize(a.sign, an + bn, d);
    } else if bn > an {
        lemma_normalize(flip(a.sign), (bn - an) as nat, d);
    } else {
        lemma_normalize(a.sign, (an - bn) as nat, d);
    }
}

/// The product has the value `a * b`: over the denominator `a.den * b.den`,
/// its signed numerator is `a.signed_num() * b.signed_num()`.
pub proof fn lemma_mul_value(a: Frac, b: Frac)
    requires
        a.den > 0,
        b.den > 0,
    ensures
        mul_frac(a, b).signed_num() * (a.den * b.den) == (a.signed_num() * b.signed_num())
            * mul_frac(a, b).den,
{
    let d = a.den * b.den;
    assert(d > 0) by (nonlinear_arith)
        requires
            a.den > 0,
            b.den > 0,
            d == a.den * b.den,
    ;
    lemma_normalize(sign_product(a.sign, b.sign), a.num * b.num, d);
    let x = a.num as int;
    let y = b.num as int;
    assert((-x) * (-y) == x * y && (-x) * y == -(x * y) && x * (-y) == -(x * y))
        by (nonlinear_arith);
}

/// Canonical fractions of equal value are identical.
pub proof fn lemma_canonical_unique(a: Frac, b: Frac)
    requires
        a.canonical(),
        b.canonical(),
        a.signed_num() * b.den == b.signed_num() * a.den,
    ensures
        a == b,
{
    let n1 = a.num as int;
    let d1 = a.den as int;
    let n2 = b.num as int;
    let d2 = b.den as int;
    assert(n1 * d2 >= 0 && n2 * d1 >= 0) by (nonlinear_arith)
        requires
            n1 >= 0,
            n2 >= 0,
            d1 > 0,
            d2 > 0,
    ;
    assert((-n1) * d2 == -(n1 * d2) && (-n2) * d1 == -(n2 * d1)) by (nonlinear_arith);
    assert(n1 * d2 == n2 * d1);
    lemma_zero_canonical(a);
    lemma_zero_canonical(b);
    if n1 == 0 || n2 == 0 {
        assert(n1 == 0 && n2 == 0) by (nonlinear_arith)
            requires
                n1 * d2 == n2 * d1,
                n1 == 0 || n2 == 0,
                d1 > 0,
                d2 > 0,
        ;
    } else {
        lemma_gcd_scale(b.den, a.num, a.den);
        lemma_gcd_scale(a.den, b.num, b.den);
        assert(b.den * a.num == a.den * b.num && b.den * a.den == a.den * b.den) by (nonlinear_arith)
            requires
                n1 * d2 == n2 * d1,
                n1 == a.num,
                n2 == b.num,
                d1 == a.den,
                d2 == b.den,
        ;
        assert(a.den == b.den);
        assert(n1 == n2) by (nonlinear_arith)
            requires
                n1 * d2 == n2 * d1,
                d1 == d2,
                d1 > 0,
        ;
        if a.sign != b.sign {
            assert(n1 * d2 > 0) by (nonlinear_arith)
                requires
                    n1 > 0,
                    d2 > 0,
            ;
        }
    }
}

/// A canonical zero is `+0/1`; zero and one are canonical.
pub proof fn lemma_zero_canonical(f: Frac)
    ensures
        zero_frac().canonical(),
        one_frac().canonical(),
        f.canonical() && f.num == 0 ==> f == zero_frac(),
{
    lemma_gcd_zero_left(1);
    lemma_gcd_zero_left(f.den);
    lemma_gcd_one();
}

/// Zero times anything is zero.
pub proof fn lemma_mul_zero_left(s: Frac)
    requires
        s.canonical(),
        s.den <= usize::MAX,
    ensures
        mul_fits(zero_frac(), s),
        mul_frac(zero_frac(), s) == zero_frac(),
{
}

/// One times `s` is `s`, and `s` times one is `s`.
pub proof fn lemma_mul_one(s: Frac)
    requires
        s.canonical(),
        s.num <= usize::MAX,
        s.den <= usize::MAX,
    ensures
        mul_fits(one_frac(), s),
        mul_frac(one_frac(), s) == s,
        mul_fits(s, one_frac()),
        mul_frac(s, one_frac()) == s,
{
    lemma_normalize_canonical(s);
    assert(sign_product(Sign::Positive, s.sign) == s.sign || s.num == 0);
    assert(sign_product(s.sign, Sign::Positive) == s.sign || s.num == 0);
}

/// Adding zero leaves `x` unchanged.
pub proof fn lemma_add_zero_right(x: Frac)
    requires
        x.canonical(),
        x.num <= usize::MAX,
        x.den <= usize::MAX,
    ensures
        add_fits(x, zero_frac()),
        add_frac(x, zero_frac()) == x,
{
    lemma_normalize_canonical(x);
}

/// An integer as a fraction over one.
pub open spec fn int_frac(v: int) -> Frac {
    if v >= 0 {
        Frac { sign: Sign::Positive, num: v as nat, den: 1 }
    } else {
        Frac { sign: Sign::Negative, num: (-v) as nat, den: 1 }
    }
}

/// Greatest common factor of two positive numbers, by Euclid's remainder rule.
fn calc_gcf(x: usize, y: usize) -> (r: usize)
    requires
        x > 0,
        y > 0,
    ensures
        r == gcd(x as nat, y as nat),
        r > 0,
{
    let mut a: usize = x;
    let mut b: usize = y;
    while b != 0
        invariant
            gcd(a as nat, b as nat) == gcd(x as nat, y as nat),
            a > 0,
        decreases b,
    {
        let t: usize = a % b;
        assert(gcd(a as nat, b as nat) == gcd(b as nat, t as nat));
        a = b;
        b = t;
    }
    a
}

impl View for Rational {
    type V = Frac;

    closed spec fn view(&self) -> Frac {
        Frac { sign: self.sign, num: self.numerator as nat, den: self.denominator as nat }
    }
}

impl Rational {
    /// Every value handed out by this type is canonical.
    pub open spec fn wf(&self) -> bool {
        &&& self@.canonical()
        &&& self@.num <= usize::MAX
        &&& self@.den <= usize::MAX
    }

    /// For canonical values, `==` is equality of the numbers they denote.
    pub proof fn lemma_eq_is_value_eq(x: Rational, y: Rational)
        requires
            x.wf(),
            y.wf(),
        ensures
            x == y <==> x@.signed_num() * y@.den == y@.signed_num() * x@.den,
    {
        if x@.signed_num() * y@.den == y@.signed_num() * x@.den {
            lemma_canonical_unique(x@, y@);
        }
    }

    /// Two rationals with the same model are the same value.
    pub proof fn lemma_view_injective(a: Rational, b: Rational)
        requires
            a@ == b@,
        ensures
            a == b,
    {
    }

    /// Divides out the common factor; zero becomes `+0/1`.
    fn reduce(&mut self)
        requires
            old(self).denominator > 0,
        ensures
            final(self)@ == normalize(old(self)@.sign, old(self)@.num, old(self)@.den),
    {
        proof {
            lemma_normalize(self.sign, self.numerator as nat, self.denominator as nat);
        }
        if self.numerator == 0 {
            self.sign = Sign::Positive;
            self.denominator = 1;
            return;
        }
        let gcf = calc_gcf(self.numerator, self.denominator);
        self.numerator = self.numerator / gcf;
        self.denominator = self.denominator / gcf;
    }

    /// Builds `sign · numerator / denominator` in lowest terms.
    pub fn new(sign: Sign, numerator: usize, denominator: usize) -> (r: Result<Rational, RationalError>)
        ensures
            denominator == 0 <==> r == Err::<Rational, RationalError>(RationalError::DivisionByZero),
            denominator != 0 ==> r is Ok && r->Ok_0@ == normalize(sign, numerator as nat, denominator as nat),
            r is Ok ==> r->Ok_0.wf(),
    {
        if denominator == 0 {
            return Err(RationalError::DivisionByZero);
        }
        let mut rational = Rational { numerator, denominator, sign };
        rational.reduce();
        proof {
            lemma_normalize(sign, numerator as nat, denominator as nat);
        }
        Ok(rational)
    }

    /// Reciprocal of a nonzero value; zero has none.
    pub fn multiplicative_inverse(other: &Self) -> (r: Result<Rational, RationalError>)
        requires
            other.wf(),
        ensures
            other@.num == 0 <==> r == Err::<Rational, RationalError>(RationalError::NoInverse),
            other@.num != 0 ==> r is Ok && r->Ok_0@ == inverse_frac(other@),
            r is Ok ==> r->Ok_0.wf(),
    {
        if other.numerator == 0 {
            return Err(RationalError::NoInverse);
        }
        Rational::new(other.sign, other.denominator, other.numerator)
    }

    /// Negation; zero stays zero.
    pub fn additive_inverse(other: &Self) -> (r: Rational)
        requires
            other.wf(),
        ensures
            r@ == neg_frac(other@),
            r.wf(),
    {
        let mut rational = *other;
        if rational.numerator != 0 {
            rational.sign = flip_sign(rational.sign);
        }
        rational
    }

    /// Adds `qty` to `self`; on overflow `self` is left unchanged.
    pub fn add_inplace(&mut self, qty: Self) -> (r: Result<(), RationalError>)
        requires
            old(self).wf(),
            qty.wf(),
        ensures
            add_fits(old(self)@, qty@) <==> r is Ok,
            r is Ok ==> final(self)@ == add_frac(old(self)@, qty@),
            r is Err ==> r == Err::<(), RationalError>(RationalError::ArithmeticOverflow)
                && *final(self) == *old(self),
            final(self).wf(),
    {
        proof {
            lemma_add_canonical(self@, qty@);
        }
        let an = match self.numerator.checked_mul(qty.denominator) {
            Some(v) => v,
            None => return Err(RationalError::ArithmeticOverflow),
        };
        let bn = match qty.numerator.checked_mul(self.denominator) {
            Some(v) => v,
            None => return Err(RationalError::ArithmeticOverflow),
        };
        let d = match self.denominator.checked_mul(qty.denominator) {
            Some(v) => v,
            None => return Err(RationalError::ArithmeticOverflow),
        };
        let mut sum = Rational { numerator: an, denominator: d, sign: self.sign };
        if self.sign == qty.sign {
            sum.numerator = match an.checked_add(bn) {
                Some(v) => v,
                None => return Err(RationalError::ArithmeticOverflow),
            };
        } else if bn > an {
            sum.sign = flip_sign(self.sign);
            sum.numerator = bn - an;
        } else {
            sum.numerator = an - bn;
        }
        proof {
            assert(d > 0) by (nonlinear_arith)
                requires
                    d == self@.den * qty@.den,
                    self@.den >= 1,
                    qty@.den >= 1,
            ;
        }
        sum.reduce();
        *self = sum;
        Ok(())
    }

    /// Multiplies `self` by `factor`; on overflow `self` is left unchanged.
    pub fn mul_inplace(&mut self, factor: &Self) -> (r: Result<(), RationalError>)
        requires
            old(self).wf(),
            factor.wf(),
        ensures
            mul_fits(old(self)@, factor@) <==> r is Ok,
            r is Ok ==> final(self)@ == mul_frac(old(self)@, factor@),
            r is Err ==> r == Err::<(), RationalError>(RationalError::ArithmeticOverflow)
                && *final(self) == *old(self),
            final(self).wf(),
    {
        proof {
            lemma_mul_canonical(self@, factor@);
        }
        let n = match self.numerator.checked_mul(factor.numerator) {
            Some(v) => v,
            None => return Err(RationalError::ArithmeticOverflow),
        };
        let d = match self.denominator.checked_mul(factor.denominator) {
            Some(v) => v,
            None => return Err(RationalError::ArithmeticOverflow),
        };
        let sign = match (self.sign, factor.sign) {
            (Sign::Positive, Sign::Positive) => Sign::Positive,
            (Sign::Positive, Sign::Negative) => Sign::Negative,
            (Sign::Negative, Sign::Positive) => Sign::Negative,
            (Sign::Negative, Sign::Negative) => Sign::Positive,
        };
        proof {
            assert(d > 0) by (nonlinear_arith)
                requires
                    d == self@.den * factor@.den,
                    self@.den >= 1,
                    factor@.den >= 1,
            ;
        }
        let mut product = Rational { numerator: n, denominator: d, sign };
        product.reduce();
        *self = product;
        Ok(())
    }

    pub fn numerator(&self) -> (r: usize)
        ensures
            r == self@.num,
    {
        self.numerator
    }

    pub fn denominator(&self) -> (r: usize)
        ensures
            r == self@.den,
    {
        self.denominator
    }

    pub fn sign(&self) -> (r: Sign)
        ensures
            r == self@.sign,
    {
        self.sign
    }

    /// The integer `value` as a fraction over one.
    pub fn from_int(value: isize) -> (r: Rational)
        ensures
            r@ == int_frac(value as int),
            r == Rational::of_int(value),
            r.wf(),
    {
        proof {
            lemma_gcd_one();
        }
        if value >= 0 {
            Rational { numerator: value as usize, denominator: 1, sign: Sign::Positive }
        } else {
            let magnitude: usize = (-(value + 1)) as usize + 1;
            Rational { numerator: magnitude, denominator: 1, sign: Sign::Negative }
        }
    }

    /// The canonical zero, `+0/1`.
    pub fn zero() -> (r: Rational)
        ensures
            r@ == zero_frac(),
            r.wf(),
    {
        proof {
            lemma_gcd_zero_left(1);
        }
        Rational { numerator: 0, denominator: 1, sign: Sign::Positive }
    }
}

impl Rational {
    /// The integer `v` as a fraction over one.
    pub closed spec fn of_int(v: isize) -> Rational {
        if v >= 0 {
            Rational { numerator: v as usize, denominator: 1, sign: Sign::Positive }
        } else {
            Rational { numerator: (-v) as usize, denominator: 1, sign: Sign::Negative }
        }
    }
}

impl Default for Rational {
    fn default() -> (r: Rational)
        ensures
            r@ == zero_frac(),
    {
        Rational::zero()
    }
}

impl From<isize> for Rational {
    fn from(value: isize) -> (r: Rational) {
        Rational::from_int(value)
    }
}

impl vstd::std_specs::convert::FromSpecImpl<isize> for Rational {
    open spec fn obeys_from_spec() -> bool {
        true
    }

    open spec fn from_spec(v: isize) -> Rational {
        Rational::of_int(v)
    }
}

fn flip_sign(sign: Sign) -> (r: Sign)
    ensures
        r == flip(sign),
{
    match sign {
        Sign::Positive => Sign::Negative,
        Sign::Negative => Sign::Positive,
    }
}

} // verus!
