//! An exact rational number over arbitrary-precision integers, kept in
//! canonical form: the denominator is positive, numerator and denominator are
//! in lowest terms, and zero is represented as 0/1.  Every constructor routes
//! through one canonicalizing chokepoint, so the canonical form is an
//! invariant of the type.

use vstd::prelude::*;
use num_bigint::BigInt;

use crate::math::bigint::{
    big_add, big_clone, big_cmp, big_from_i64, big_gcd, big_mul, big_neg, big_parse, big_pow,
    big_sub, big_tdiv, big_to_string, big_value, decimal_chars, int_from_text,
};
use vstd::string::{StrSliceExecFns, StringExecFns};
use crate::math::rat::{
    alt_sign, dec_len, exp_partial, fact, gcd, lemma_ceil_trunc, lemma_fact_pos,
    lemma_floor_trunc, lemma_gcd_divide_out, lemma_gcd_one, lemma_mod_of_abs,
    lemma_norm_canonical, lemma_norm_floor, lemma_norm_int, lemma_norm_neg,
    lemma_norm_of_canonical, lemma_norm_recip, lemma_tdiv_exact, ln_partial, log_scale, norm,
    pow_rat, rat_abs, rat_add, rat_add_int, rat_ceil, rat_div, rat_div_int, rat_floor, rat_mul,
    rat_mul_int, rat_neg, rat_one, rat_recip, rat_round, rat_sub, rat_sub_int, rat_wf, rat_zero,
    sgn, tdiv, Rat,
};

verus! {

use vstd::math::abs;
use vstd::arithmetic::power::pow;

/// What went wrong while building or parsing a fraction.
#[derive(Debug, Clone, Copy, PartialEq, Eq, Structural)]
pub enum BigFractionErrorKind {
    /// There was no text to parse a numerator from.
    Empty,
    /// The text is not a valid integer literal at the given radix.
    InvalidDigit,
    /// The denominator was zero.
    DivideByZero,
}

/// The error returned by the fallible constructors and by parsing.
#[derive(Debug, Clone, Copy, PartialEq, Eq, Structural)]
pub struct ParseBigFractionError {
    pub kind: BigFractionErrorKind,
}

impl ParseBigFractionError {
    /// A short message naming the failure.
    pub fn __description(&self) -> (r: &str)
        ensures
            self.kind == BigFractionErrorKind::Empty ==> r@ == "cannot parse integer from empty string"@,
            self.kind == BigFractionErrorKind::InvalidDigit ==> r@ == "invalid digit found in string"@,
            self.kind == BigFractionErrorKind::DivideByZero ==> r@ == "Dividing by zero"@,
    {
        match self.kind {
            BigFractionErrorKind::Empty => "cannot parse integer from empty string",
            BigFractionErrorKind::InvalidDigit => "invalid digit found in string",
            BigFractionErrorKind::DivideByZero => "Dividing by zero",
        }
    }

    /// The same message as an owned string.
    pub fn to_string(&self) -> (r: String)
        ensures
            self.kind == BigFractionErrorKind::Empty ==> r@ == "cannot parse integer from empty string"@,
            self.kind == BigFractionErrorKind::InvalidDigit ==> r@ == "invalid digit found in string"@,
            self.kind == BigFractionErrorKind::DivideByZero ==> r@ == "Dividing by zero"@,
    {
        String::from_str(self.__description())
    }

    /// The failure of a parse that found no text.
    pub fn empty() -> (r: Self)
        ensures
            r.kind == BigFractionErrorKind::Empty,
    {
        ParseBigFractionError { kind: BigFractionErrorKind::Empty }
    }

    /// The failure of a parse that met an invalid digit.
    pub fn invalid() -> (r: Self)
        ensures
            r.kind == BigFractionErrorKind::InvalidDigit,
    {
        ParseBigFractionError { kind: BigFractionErrorKind::InvalidDigit }
    }

    /// The failure of a construction with a zero denominator.
    pub fn divide_by_zero() -> (r: Self)
        ensures
            r.kind == BigFractionErrorKind::DivideByZero,
    {
        ParseBigFractionError { kind: BigFractionErrorKind::DivideByZero }
    }
}

/// The index of the first `/` in the text, or its length when it has none.
pub open spec fn first_slash(s: Seq<char>) -> int
    decreases s.len(),
{
    if s.len() == 0 {
        0
    } else if s[0] == '/' {
        0
    } else {
        1 + first_slash(s.drop_first())
    }
}

/// An index before which no `/` stands, and which is the end or holds a `/`,
/// is exactly `first_slash`.
pub proof fn lemma_first_slash_is(s: Seq<char>, i: int)
    requires
        0 <= i <= s.len(),
        forall|k: int| 0 <= k < i ==> s[k] != '/',
        i < s.len() ==> s[i] == '/',
    ensures
        first_slash(s) == i,
    decreases s.len(),
{
    if s.len() > 0 && s[0] != '/' {
        assert forall|k: int| 0 <= k < i - 1 implies s.drop_first()[k] != '/' by {
            assert(s.drop_first()[k] == s[k + 1]);
        }
        if i < s.len() {
            assert(s.drop_first()[i - 1] == s[i]);
        }
        lemma_first_slash_is(s.drop_first(), i - 1);
    }
}

/// What parsing yields on given text at a given radix: the text up to the
/// first `/` is the numerator; without a `/` the denominator is 1, otherwise
/// it is read from the text between the first `/` and the next one (or the
/// end).  An absent numerator — no text before the first `/` — fails with
/// `Empty`; a present segment that is not a valid integer literal fails with
/// `InvalidDigit`; a zero denominator fails with `DivideByZero`; anything
/// else canonicalizes.
pub open spec fn parse_spec(s: Seq<char>, radix: u32) -> Result<Rat, BigFractionErrorKind> {
    let i = first_slash(s);
    if i == 0 {
        Result::Err(BigFractionErrorKind::Empty)
    } else {
        match int_from_text(s.subrange(0, i), radix) {
            Option::None => Result::Err(BigFractionErrorKind::InvalidDigit),
            Option::Some(n) => if i == s.len() {
                Result::Ok(norm(n, 1))
            } else {
                let rest = s.subrange(i + 1, s.len() as int);
                match int_from_text(rest.subrange(0, first_slash(rest)), radix) {
                    Option::None => Result::Err(BigFractionErrorKind::InvalidDigit),
                    Option::Some(d) => if d == 0 {
                        Result::Err(BigFractionErrorKind::DivideByZero)
                    } else {
                        Result::Ok(norm(n, d))
                    },
                }
            },
        }
    }
}

/// How many terms beyond the constant one the exponential's Taylor series
/// sums: x/1! through x^9/9!, matching a fixed bound of ten loop iterations.
/// A fixed, documented constant; callers needing more precision pass their
/// own bound to `exp_with_terms`.
pub const EXP_SERIES_TERMS: u32 = 9;

/// How many terms the logarithm's alternating series sums.  A fixed,
/// documented constant; callers needing more precision pass their own bound
/// to `log_with_terms`.
pub const LOG_SERIES_TERMS: u32 = 200;

/// The fixed rational approximation of ln(10) that the logarithm shifts by.
pub open spec fn log_ten_seed() -> Rat {
    norm(152469287047331902, 66216570024379193)
}

/// Whether the logarithm's power-of-ten normalization lands the value in the
/// series' convergence range: the normalized value is at most 2.  Outside
/// this range the approximation is unsupported.
pub open spec fn log_in_range(x: Rat) -> bool {
    let y = rat_div_int(x, pow(10, log_scale(tdiv(x.n, x.d))));
    y.n <= 2 * y.d
}

/// What the logarithm approximation computes: 0 for the value one; otherwise
/// the value is normalized by the power-of-ten scale L read off the decimal
/// length of its truncated quotient, the alternating series for ln(1 + w) is
/// summed over the given number of terms on w = normalized - 1, and L times
/// the fixed ln(10) approximation is added back.
pub open spec fn log_spec(x: Rat, terms: nat) -> Rat {
    if x == rat_one() {
        rat_zero()
    } else {
        let ll = log_scale(tdiv(x.n, x.d));
        let y = rat_div_int(x, pow(10, ll));
        let w = rat_sub(y, rat_one());
        rat_add(ln_partial(w, terms), rat_mul_int(log_ten_seed(), ll as int))
    }
}

/// The printed form of a canonical value: the numerator's decimal text alone
/// for a whole number, otherwise numerator, `/`, denominator.
pub open spec fn rat_text(x: Rat) -> Seq<char> {
    if x.d == 1 {
        decimal_chars(x.n)
    } else {
        decimal_chars(x.n) + seq!['/'] + decimal_chars(x.d)
    }
}

/// Finds the first `/` of the text, or its end.
fn find_slash(s: &str) -> (r: usize)
    ensures
        r as int == first_slash(s@),
        r <= s@.len(),
{
    let len = s.unicode_len();
    let mut i: usize = 0;
    while i < len
        invariant
            i <= len,
            len as nat == s@.len(),
            forall|k: int| 0 <= k < i ==> s@[k] != '/',
        decreases len - i,
    {
        if s.get_char(i) == '/' {
            proof {
                lemma_first_slash_is(s@, i as int);
            }
            return i;
        }
        i += 1;
    }
    proof {
        lemma_first_slash_is(s@, len as int);
    }
    len
}

/// The decimal digit budget of the float conversion: the decimal length of
/// 2^80, the reference 80-bit fractional precision.
pub const FRACTIONAL_DECIMAL_DIGITS: usize = 25;

/// How the fractional part of a value is to be taken to a 64-bit float.
/// Chosen by `BigFraction::to_double_parts` so that neither component
/// overflows float parsing while their ratio stays meaningful.
pub enum FracApprox {
    /// The two components' decimal lengths differ by more than the digit
    /// budget: the fractional part is negligible, use zero.
    Negligible,
    /// Both components are short enough to convert directly and divide.
    Direct(BigInt, BigInt),
    /// Both components are long: their decimal texts cut to a common digit
    /// budget, to be parsed as floats and divided.
    Truncated(String, String),
}

/// The verified pieces from which a 64-bit float of a fraction is assembled:
/// the truncated whole part, the sign (for the overflow case), and the
/// fractional approximation.  The float arithmetic itself stays outside this
/// crate's verified core.
pub struct DoubleParts {
    /// The integer quotient of the value, truncated toward zero.
    pub int_part: BigInt,
    /// Whether the value is negative.
    pub negative: bool,
    /// How to approximate what remains below the whole part.
    pub frac: FracApprox,
}

/// An exact rational number in canonical form.  Its mathematical value is the
/// pair `self@ : Rat` of numerator and denominator.
#[derive(Debug, Hash, Eq)]
pub struct BigFraction {
    ntor: BigInt,
    dtor: BigInt,
}

impl View for BigFraction {
    type V = Rat;

    closed spec fn view(&self) -> Rat {
        Rat { n: big_value(self.ntor), d: big_value(self.dtor) }
    }
}

impl Clone for BigFraction {
    /// The copy has the same value.
    fn clone(&self) -> (r: Self)
        ensures
            r@ == self@,
    {
        proof {
            use_type_invariant(self);
        }
        BigFraction { ntor: big_clone(&self.ntor), dtor: big_clone(&self.dtor) }
    }
}

impl PartialEq for BigFraction {
    fn eq(&self, other: &Self) -> (r: bool) {
        big_cmp(&self.ntor, &other.ntor) == 0 && big_cmp(&self.dtor, &other.dtor) == 0
    }
}

impl vstd::std_specs::cmp::PartialEqSpecImpl for BigFraction {
    open spec fn obeys_eq_spec() -> bool {
        true
    }

    open spec fn eq_spec(&self, other: &Self) -> bool {
        self@ == other@
    }
}

impl BigFraction {
    /// Canonical form: the denominator is positive and shares no factor with
    /// the numerator; in particular zero is exactly 0/1.
    #[verifier::type_invariant]
    spec fn wf(self) -> bool {
        rat_wf(self@)
    }

    /// The canonicalizing chokepoint: folds the denominator's sign into the
    /// numerator, maps a zero numerator to 0/1, and divides both components by
    /// their greatest common divisor.
    fn canonicalize(ntor: BigInt, dtor: BigInt) -> (r: Self)
        requires
            big_value(dtor) != 0,
        ensures
            r@ == norm(big_value(ntor), big_value(dtor)),
    {
        proof {
            lemma_norm_canonical(big_value(ntor), big_value(dtor));
        }
        let zero = big_from_i64(0);
        if big_cmp(&ntor, &zero) == 0 {
            BigFraction { ntor: big_from_i64(0), dtor: big_from_i64(1) }
        } else {
            let flip = big_cmp(&dtor, &zero) < 0;
            let n1 = if flip {
                big_neg(&ntor)
            } else {
                ntor
            };
            let d1 = if flip {
                big_neg(&dtor)
            } else {
                dtor
            };
            let g = big_gcd(&n1, &d1);
            proof {
                lemma_gcd_divide_out(abs(big_value(n1)), big_value(d1) as nat);
                lemma_mod_of_abs(big_value(n1), big_value(g));
                lemma_tdiv_exact(big_value(n1), big_value(g));
                lemma_tdiv_exact(big_value(d1), big_value(g));
            }
            let rn = big_tdiv(&n1, &g);
            let rd = big_tdiv(&d1, &g);
            BigFraction { ntor: rn, dtor: rd }
        }
    }

    /// Builds the canonical fraction numerator/denominator, and fails exactly
    /// when the denominator is zero.
    pub fn new(numerator: BigInt, denominator: BigInt) -> (r: Result<Self, ParseBigFractionError>)
        ensures
            big_value(denominator) == 0 <==> r is Err,
            r matches Ok(f) ==> f@ == norm(big_value(numerator), big_value(denominator))
                && rat_wf(f@),
            r matches Err(e) ==> e.kind == BigFractionErrorKind::DivideByZero,
    {
        let zero = big_from_i64(0);
        if big_cmp(&denominator, &zero) == 0 {
            Err(ParseBigFractionError::divide_by_zero())
        } else {
            proof {
                lemma_norm_canonical(big_value(numerator), big_value(denominator));
            }
            Ok(Self::canonicalize(numerator, denominator))
        }
    }

    /// The whole number `numerator`, as a fraction.  Never fails.
    pub fn new_integer(numerator: BigInt) -> (r: Result<Self, ParseBigFractionError>)
        ensures
            r matches Ok(f) && f@ == (Rat { n: big_value(numerator), d: 1 }),
    {
        proof {
            lemma_norm_int(big_value(numerator));
        }
        Self::new(numerator, big_from_i64(1))
    }

    /// 0.
    pub fn get_zero() -> (r: Self)
        ensures
            r@ == rat_zero(),
    {
        let r = Self::canonicalize(big_from_i64(0), big_from_i64(1));
        r
    }

    /// 1.
    pub fn get_one() -> (r: Self)
        ensures
            r@ == (Rat { n: 1, d: 1 }),
    {
        proof {
            lemma_norm_int(1);
        }
        Self::canonicalize(big_from_i64(1), big_from_i64(1))
    }

    /// -1.
    pub fn get_minus_one() -> (r: Self)
        ensures
            r@ == (Rat { n: -1, d: 1 }),
    {
        proof {
            lemma_norm_int(-1);
        }
        Self::canonicalize(big_from_i64(-1), big_from_i64(1))
    }

    /// 1/2.
    pub fn get_half() -> (r: Self)
        ensures
            r@ == (Rat { n: 1, d: 2 }),
    {
        proof {
            assert(gcd(1, 2) == gcd(2, 1nat % 2nat));
            lemma_gcd_one(2);
            assert(gcd(abs(1), 2nat) == 1);
            assert(norm(1, 2).n == 1int / 1int && norm(1, 2).d == 2int / 1int);
            vstd::arithmetic::div_mod::lemma_div_basics(2);
        }
        Self::canonicalize(big_from_i64(1), big_from_i64(2))
    }

    /// 2.
    pub fn get_two() -> (r: Self)
        ensures
            r@ == (Rat { n: 2, d: 1 }),
    {
        proof {
            lemma_norm_int(2);
        }
        Self::canonicalize(big_from_i64(2), big_from_i64(1))
    }

    /// A fixed high-precision rational approximation of pi, seed data for the
    /// series routines.
    pub fn get_pi() -> (r: Self)
        ensures
            r@ == norm(30246273033735921, 9627687726852338),
    {
        proof {
            lemma_norm_canonical(30246273033735921, 9627687726852338);
        }
        Self::canonicalize(big_from_i64(30246273033735921), big_from_i64(9627687726852338))
    }

    /// A fixed high-precision rational approximation of ln(pi).
    pub fn get_log_pi() -> (r: Self)
        ensures
            r@ == norm(14405300475444212, 12584017114880639),
    {
        proof {
            lemma_norm_canonical(14405300475444212, 12584017114880639);
        }
        Self::canonicalize(big_from_i64(14405300475444212), big_from_i64(12584017114880639))
    }

    /// A fixed high-precision rational approximation of ln(10), the shift
    /// constant of the logarithm's power-of-ten normalization.
    pub fn get_log_10() -> (r: Self)
        ensures
            r@ == norm(152469287047331902, 66216570024379193),
    {
        proof {
            lemma_norm_canonical(152469287047331902, 66216570024379193);
        }
        Self::canonicalize(big_from_i64(152469287047331902), big_from_i64(66216570024379193))
    }

    /// A fixed high-precision rational approximation of e.
    pub fn get_exp() -> (r: Self)
        ensures
            r@ == norm(47813267563899719, 17589518151988078),
    {
        proof {
            lemma_norm_canonical(47813267563899719, 17589518151988078);
        }
        Self::canonicalize(big_from_i64(47813267563899719), big_from_i64(17589518151988078))
    }

    /// Reads a fraction from decimal text, as `parse_spec` describes.
    pub fn parse(s: String) -> (r: Result<Self, ParseBigFractionError>)
        ensures
            r matches Ok(f) ==> parse_spec(s@, 10) == Result::<Rat, BigFractionErrorKind>::Ok(f@),
            r matches Err(e) ==> parse_spec(s@, 10) == Result::<Rat, BigFractionErrorKind>::Err(
                e.kind,
            ),
    {
        Self::parse_radix(s, 10)
    }

    /// Reads a fraction from text at the given radix, as `parse_spec`
    /// describes: an absent numerator fails with `Empty`, an invalid segment
    /// with `InvalidDigit`, a zero denominator with `DivideByZero`.  Radices
    /// outside 2..=36 are not supported by the integer parser underneath.
    pub fn parse_radix(s: String, radix: u32) -> (r: Result<Self, ParseBigFractionError>)
        requires
            2 <= radix <= 36,
        ensures
            r matches Ok(f) ==> parse_spec(s@, radix) == Result::<Rat, BigFractionErrorKind>::Ok(
                f@,
            ),
            r matches Err(e) ==> parse_spec(s@, radix) == Result::<
                Rat,
                BigFractionErrorKind,
            >::Err(e.kind),
    {
        let sl = s.as_str();
        let len = sl.unicode_len();
        let i = find_slash(sl);
        if i == 0 {
            return Err(ParseBigFractionError::empty());
        }
        let ntor_text = sl.substring_char(0, i);
        let ntor = big_parse(ntor_text, radix);
        match ntor {
            None => Err(ParseBigFractionError::invalid()),
            Some(n) => {
                if i == len {
                    proof {
                        lemma_norm_int(big_value(n));
                    }
                    Self::new(n, big_from_i64(1))
                } else {
                    let rest = sl.substring_char(i + 1, len);
                    let j = find_slash(rest);
                    let dtor_text = rest.substring_char(0, j);
                    let dtor = big_parse(dtor_text, radix);
                    match dtor {
                        None => Err(ParseBigFractionError::invalid()),
                        Some(d) => Self::new(n, d),
                    }
                }
            },
        }
    }

    /// Prints the canonical value: the numerator alone for a whole number,
    /// otherwise `numerator/denominator`.  Parsing the result at radix 10
    /// gives back exactly this value.
    pub fn to_string(&self) -> (r: String)
        ensures
            r@ == rat_text(self@),
            parse_spec(r@, 10) == Result::<Rat, BigFractionErrorKind>::Ok(self@),
    {
        proof {
            use_type_invariant(self);
        }
        let n_text = big_to_string(&self.ntor);
        let one = big_from_i64(1);
        if big_cmp(&self.dtor, &one) == 0 {
            proof {
                assert(dec_len(self@.n) >= 1);
                lemma_first_slash_is(n_text@, n_text@.len() as int);
                assert(n_text@.subrange(0, n_text@.len() as int) =~= n_text@);
                lemma_norm_int(self@.n);
            }
            n_text
        } else {
            let d_text = big_to_string(&self.dtor);
            let mut out = n_text;
            out.append("/");
            out.append(d_text.as_str());
            proof {
                reveal_strlit("/");
                let whole = out@;
                let nlen = decimal_chars(self@.n).len() as int;
                assert(dec_len(self@.n) >= 1);
                assert(whole =~= rat_text(self@));
                assert forall|k: int| 0 <= k < nlen implies whole[k] != '/' by {
                    assert(whole[k] == decimal_chars(self@.n)[k]);
                }
                assert(whole[nlen] == '/');
                lemma_first_slash_is(whole, nlen);
                assert(whole.subrange(0, nlen) =~= decimal_chars(self@.n));
                let rest = whole.subrange(nlen + 1, whole.len() as int);
                assert(rest =~= decimal_chars(self@.d));
                lemma_first_slash_is(rest, rest.len() as int);
                assert(rest.subrange(0, rest.len() as int) =~= rest);
                lemma_norm_of_canonical(self@);
            }
            out
        }
    }

    /// self + other.
    pub fn add(self, other: BigFraction) -> (r: Self)
        ensures
            r@ == rat_add(self@, other@),
    {
        proof {
            use_type_invariant(&self);
            use_type_invariant(&other);
        }
        let l = big_mul(&self.ntor, &other.dtor);
        let rr = big_mul(&other.ntor, &self.dtor);
        let hi = big_add(&l, &rr);
        let lo = big_mul(&self.dtor, &other.dtor);
        proof {
            assert(big_value(lo) != 0) by (nonlinear_arith)
                requires
                    big_value(lo) == self@.d * other@.d,
                    self@.d > 0,
                    other@.d > 0,
            ;
        }
        Self::canonicalize(hi, lo)
    }

    /// self + other for a whole number other.
    pub fn add_int(self, other: BigInt) -> (r: Self)
        ensures
            r@ == rat_add_int(self@, big_value(other)),
    {
        proof {
            use_type_invariant(&self);
        }
        let m = big_mul(&other, &self.dtor);
        let hi = big_add(&self.ntor, &m);
        let lo = big_clone(&self.dtor);
        Self::canonicalize(hi, lo)
    }

    /// self - other.
    pub fn sub(self, other: BigFraction) -> (r: Self)
        ensures
            r@ == rat_sub(self@, other@),
    {
        proof {
            use_type_invariant(&self);
            use_type_invariant(&other);
        }
        let l = big_mul(&self.ntor, &other.dtor);
        let rr = big_mul(&other.ntor, &self.dtor);
        let hi = big_sub(&l, &rr);
        let lo = big_mul(&self.dtor, &other.dtor);
        proof {
            assert(big_value(lo) != 0) by (nonlinear_arith)
                requires
                    big_value(lo) == self@.d * other@.d,
                    self@.d > 0,
                    other@.d > 0,
            ;
        }
        Self::canonicalize(hi, lo)
    }

    /// self - other for a whole number other.
    pub fn sub_int(self, other: BigInt) -> (r: Self)
        ensures
            r@ == rat_sub_int(self@, big_value(other)),
    {
        proof {
            use_type_invariant(&self);
        }
        let m = big_mul(&other, &self.dtor);
        let hi = big_sub(&self.ntor, &m);
        let lo = big_clone(&self.dtor);
        Self::canonicalize(hi, lo)
    }

    /// self · other.
    pub fn mul(self, other: BigFraction) -> (r: Self)
        ensures
            r@ == rat_mul(self@, other@),
    {
        proof {
            use_type_invariant(&self);
            use_type_invariant(&other);
        }
        let hi = big_mul(&self.ntor, &other.ntor);
        let lo = big_mul(&self.dtor, &other.dtor);
        proof {
            assert(big_value(lo) != 0) by (nonlinear_arith)
                requires
                    big_value(lo) == self@.d * other@.d,
                    self@.d > 0,
                    other@.d > 0,
            ;
        }
        Self::canonicalize(hi, lo)
    }

    /// self · other for a whole number other.
    pub fn mul_int(self, other: BigInt) -> (r: Self)
        ensures
            r@ == rat_mul_int(self@, big_value(other)),
    {
        proof {
            use_type_invariant(&self);
        }
        let hi = big_mul(&self.ntor, &other);
        let lo = big_clone(&self.dtor);
        Self::canonicalize(hi, lo)
    }

    /// self / other.  There is no value exactly when the divisor is zero.
    pub fn div(self, other: BigFraction) -> (r: Option<Self>)
        ensures
            other@.n == 0 <==> r is None,
            r matches Some(f) ==> f@ == rat_div(self@, other@),
    {
        proof {
            use_type_invariant(&self);
            use_type_invariant(&other);
        }
        let hi = big_mul(&self.ntor, &other.dtor);
        let lo = big_mul(&self.dtor, &other.ntor);
        proof {
            assert(big_value(lo) == 0 <==> other@.n == 0) by (nonlinear_arith)
                requires
                    big_value(lo) == self@.d * other@.n,
                    self@.d > 0,
            ;
        }
        let zero = big_from_i64(0);
        if big_cmp(&lo, &zero) == 0 {
            None
        } else {
            Some(Self::canonicalize(hi, lo))
        }
    }

    /// self / other for a whole number other.  There is no value exactly when
    /// the divisor is zero.
    pub fn div_int(self, other: BigInt) -> (r: Option<Self>)
        ensures
            big_value(other) == 0 <==> r is None,
            r matches Some(f) ==> f@ == rat_div_int(self@, big_value(other)),
    {
        proof {
            use_type_invariant(&self);
        }
        let hi = big_clone(&self.ntor);
        let lo = big_mul(&self.dtor, &other);
        proof {
            assert(big_value(lo) == 0 <==> big_value(other) == 0) by (nonlinear_arith)
                requires
                    big_value(lo) == self@.d * big_value(other),
                    self@.d > 0,
            ;
        }
        let zero = big_from_i64(0);
        if big_cmp(&lo, &zero) == 0 {
            None
        } else {
            Some(Self::canonicalize(hi, lo))
        }
    }

    /// -self.
    pub fn negate(self) -> (r: Self)
        ensures
            r@ == rat_neg(self@),
    {
        proof {
            use_type_invariant(&self);
            lemma_norm_neg(self@);
        }
        let BigFraction { ntor, dtor } = self;
        let n = big_neg(&ntor);
        Self::canonicalize(n, dtor)
    }

    /// 1 / self.  There is no value exactly when self is zero.
    pub fn reciprocal(self) -> (r: Option<Self>)
        ensures
            self@.n == 0 <==> r is None,
            r matches Some(f) ==> f@ == rat_recip(self@),
    {
        proof {
            use_type_invariant(&self);
        }
        let zero = big_from_i64(0);
        if big_cmp(&self.ntor, &zero) == 0 {
            None
        } else {
            proof {
                lemma_norm_recip(self@);
            }
            let BigFraction { ntor, dtor } = self;
            Some(Self::canonicalize(dtor, ntor))
        }
    }

    /// The largest whole number at most self.
    pub fn floor(self) -> (r: BigInt)
        ensures
            big_value(r) == rat_floor(self@),
    {
        proof {
            use_type_invariant(&self);
            lemma_floor_trunc(self@);
        }
        let one = big_from_i64(1);
        let zero = big_from_i64(0);
        if big_cmp(&self.dtor, &one) == 0 {
            let BigFraction { ntor, dtor: _dtor } = self;
            ntor
        } else if big_cmp(&self.ntor, &zero) < 0 {
            let q = big_tdiv(&self.ntor, &self.dtor);
            big_sub(&q, &one)
        } else {
            big_tdiv(&self.ntor, &self.dtor)
        }
    }

    /// The smallest whole number at least self.
    pub fn ceil(self) -> (r: BigInt)
        ensures
            big_value(r) == rat_ceil(self@),
    {
        proof {
            use_type_invariant(&self);
            lemma_ceil_trunc(self@);
        }
        let one = big_from_i64(1);
        let zero = big_from_i64(0);
        if big_cmp(&self.dtor, &one) == 0 {
            let BigFraction { ntor, dtor: _dtor } = self;
            ntor
        } else if big_cmp(&self.ntor, &zero) > 0 {
            let q = big_tdiv(&self.ntor, &self.dtor);
            big_add(&q, &one)
        } else {
            big_tdiv(&self.ntor, &self.dtor)
        }
    }

    /// The nearest whole number, ties toward positive infinity: floor(self + 1/2).
    pub fn round(self) -> (r: BigInt)
        ensures
            big_value(r) == rat_round(self@),
    {
        proof {
            use_type_invariant(&self);
        }
        let ghost x = self@;
        let s = self.add(Self::get_half());
        proof {
            lemma_norm_floor(x.n * 2 + 1 * x.d, x.d * 2);
            assert(x.d * 2 > 0);
        }
        s.floor()
    }

    /// The sign of self: -1, 0 or 1 as a whole number.
    pub fn signum(self) -> (r: BigInt)
        ensures
            big_value(r) == sgn(self@.n),
    {
        let zero = big_from_i64(0);
        let c = big_cmp(&self.ntor, &zero);
        big_from_i64(c as i64)
    }

    /// The magnitude of self.
    pub fn abs(self) -> (r: Self)
        ensures
            r@ == rat_abs(self@),
    {
        proof {
            use_type_invariant(&self);
        }
        let zero = big_from_i64(0);
        if big_cmp(&self.ntor, &zero) < 0 {
            self.negate()
        } else {
            self
        }
    }

    /// The Taylor partial sum of e^self: 1 plus the given number of series
    /// terms, each accumulated through exact rational arithmetic.
    pub fn exp_with_terms(self, terms: u32) -> (r: Self)
        ensures
            r@ == exp_partial(self@, terms as nat),
    {
        proof {
            use_type_invariant(&self);
        }
        let ghost x = self@;
        let mut dtor = big_from_i64(1);
        let mut result = Self::get_one();
        let mut ntor = self.clone();
        let mut i: u64 = 1;
        while i <= terms as u64
            invariant
                1 <= i <= terms as u64 + 1,
                big_value(dtor) == fact((i - 1) as nat) as int,
                result@ == exp_partial(x, (i - 1) as nat),
                ntor@ == pow_rat(x, i as nat),
                self@ == x,
                rat_wf(x),
            decreases terms as u64 + 1 - i,
        {
            let f = big_from_i64(i as i64);
            dtor = big_mul(&dtor, &f);
            proof {
                lemma_fact_pos(i as nat);
                assert(fact((i - 1) as nat) as int * i as int == (i as nat * fact(
                    (i - 1) as nat,
                )) as int) by (nonlinear_arith);
                assert(fact(i as nat) == i as nat * fact((i - 1) as nat));
            }
            let term = ntor.clone().div_int(big_clone(&dtor));
            result = result.add(term.unwrap());
            ntor = ntor.mul(self.clone());
            i = i + 1;
        }
        result
    }

    /// The exponential approximation: the Taylor partial sum with the fixed
    /// term count `EXP_SERIES_TERMS`.
    pub fn exp(self) -> (r: Self)
        ensures
            r@ == exp_partial(self@, EXP_SERIES_TERMS as nat),
    {
        self.exp_with_terms(EXP_SERIES_TERMS)
    }

    /// The natural-logarithm approximation with the given series length, as
    /// `log_spec` describes.  The preconditions exclude exactly the inputs on
    /// which the approximation is unsupported: values whose normalization
    /// exceeds the series' convergence range (and, as a machine limit, scales
    /// beyond u32).
    pub fn log_with_terms(self, terms: u32) -> (r: Self)
        requires
            self@ != rat_one() ==> log_in_range(self@),
            self@ != rat_one() ==> log_scale(tdiv(self@.n, self@.d)) <= u32::MAX,
        ensures
            r@ == log_spec(self@, terms as nat),
    {
        proof {
            use_type_invariant(&self);
        }
        let ghost x = self@;
        let one_big = big_from_i64(1);
        if big_cmp(&self.ntor, &one_big) == 0 && big_cmp(&self.dtor, &one_big) == 0 {
            return Self::get_zero();
        }
        // The decimal length of the truncated quotient estimates
        // floor(log10(self)).
        let q = big_tdiv(&self.ntor, &self.dtor);
        let digits = big_to_string(&q);
        let ds = digits.as_str();
        let len = ds.unicode_len();
        proof {
            assert(dec_len(big_value(q)) >= 1);
        }
        let c0 = ds.get_char(0);
        let length: usize = if c0 == '0' || c0 == '1' {
            len - 1
        } else {
            len
        };
        let ghost ll = log_scale(tdiv(x.n, x.d));
        proof {
            assert(length as int == ll);
        }
        let ten = big_from_i64(10);
        let p10 = big_pow(&ten, length as u32);
        proof {
            vstd::arithmetic::power::lemma_pow_positive(10, ll);
        }
        let y = self.div_int(p10).unwrap();
        let ghost w = rat_sub(y@, rat_one());
        let x_ser = y.sub(Self::get_one());
        let mut result = Self::get_zero();
        let mut ntor = x_ser.clone();
        let mut dtor = big_from_i64(1);
        let mut sign = big_from_i64(1);
        let mut k: u64 = 1;
        while k <= terms as u64
            invariant
                1 <= k <= terms as u64 + 1,
                big_value(dtor) == k as int,
                big_value(sign) == alt_sign(k as nat),
                ntor@ == pow_rat(w, k as nat),
                result@ == ln_partial(w, (k - 1) as nat),
                x_ser@ == w,
                big_value(one_big) == 1,
            decreases terms as u64 + 1 - k,
        {
            let t = ntor.clone().div_int(big_clone(&dtor));
            let temp = t.unwrap().mul_int(big_clone(&sign));
            result = result.add(temp);
            ntor = ntor.mul(x_ser.clone());
            dtor = big_add(&dtor, &one_big);
            sign = big_neg(&sign);
            proof {
                assert(alt_sign((k + 1) as nat) == -alt_sign(k as nat));
            }
            k = k + 1;
        }
        let shift = Self::get_log_10().mul_int(big_from_i64(length as i64));
        result.add(shift)
    }

    /// The natural-logarithm approximation with the fixed series length
    /// `LOG_SERIES_TERMS`.
    pub fn log(self) -> (r: Self)
        requires
            self@ != rat_one() ==> log_in_range(self@),
            self@ != rat_one() ==> log_scale(tdiv(self@.n, self@.d)) <= u32::MAX,
        ensures
            r@ == log_spec(self@, LOG_SERIES_TERMS as nat),
    {
        self.log_with_terms(LOG_SERIES_TERMS)
    }

    /// Three-way comparison by cross multiplication, which never leaves exact
    /// integers: negative when self < other, zero on equality, positive when
    /// self > other.
    pub fn compare_to(self, other: BigFraction) -> (r: i32)
        ensures
            r as int == sgn(self@.n * other@.d - other@.n * self@.d),
    {
        let lhs = big_mul(&self.ntor, &other.dtor);
        let rhs = big_mul(&other.ntor, &self.dtor);
        big_cmp(&lhs, &rhs)
    }

    /// Three-way comparison against a whole number.
    pub fn compare_int_to(self, other: BigInt) -> (r: i32)
        ensures
            r as int == sgn(self@.n - big_value(other) * self@.d),
    {
        let o = Self::new_integer(other).unwrap();
        let ghost n = self@.n;
        let r = self.compare_to(o);
        proof {
            assert(n * 1 == n);
        }
        r
    }

    /// Splits the value into the verified pieces of its 64-bit float
    /// approximation: the truncated whole part, and the remainder prepared so
    /// that converting it cannot overflow float parsing.  Writing `b` for the
    /// canonical remainder below the whole part, the remainder is dropped
    /// when the decimal lengths of b's components differ by more than the
    /// digit budget, handed over whole when both are below the budget, and
    /// otherwise cut to a common budget of decimal text.
    pub fn to_double_parts(&self) -> (r: DoubleParts)
        ensures
            big_value(r.int_part) == tdiv(self@.n, self@.d),
            r.negative == (self@.n < 0),
            ({
                let b = rat_sub_int(self@, tdiv(self@.n, self@.d));
                let nl = dec_len(b.n) as int;
                let dl = dec_len(b.d) as int;
                let common = if nl < dl {
                    nl
                } else {
                    dl
                };
                let diff = if nl < dl {
                    dl - nl
                } else {
                    nl - dl
                };
                &&& (diff > FRACTIONAL_DECIMAL_DIGITS ==> r.frac is Negligible)
                &&& (diff <= FRACTIONAL_DECIMAL_DIGITS && common < FRACTIONAL_DECIMAL_DIGITS
                    ==> (r.frac matches FracApprox::Direct(bn, bd) && big_value(bn) == b.n
                    && big_value(bd) == b.d))
                &&& (diff <= FRACTIONAL_DECIMAL_DIGITS && common >= FRACTIONAL_DECIMAL_DIGITS
                    ==> (r.frac matches FracApprox::Truncated(ns, ds) && ns@ == decimal_chars(
                    b.n,
                ).subrange(0, nl - common + FRACTIONAL_DECIMAL_DIGITS) && ds@ == decimal_chars(
                    b.d,
                ).subrange(0, dl - common + FRACTIONAL_DECIMAL_DIGITS)))
            }),
    {
        proof {
            use_type_invariant(self);
        }
        let r_int = big_tdiv(&self.ntor, &self.dtor);
        let zero = big_from_i64(0);
        let negative = big_cmp(&self.ntor, &zero) < 0;
        let b = self.clone().sub_int(big_clone(&r_int));
        let n_text = big_to_string(&b.ntor);
        let d_text = big_to_string(&b.dtor);
        let nl = n_text.as_str().unicode_len();
        let dl = d_text.as_str().unicode_len();
        let common = if nl < dl {
            nl
        } else {
            dl
        };
        let diff = (if nl < dl {
            dl
        } else {
            nl
        }) - common;
        let frac = if diff > FRACTIONAL_DECIMAL_DIGITS {
            FracApprox::Negligible
        } else if common < FRACTIONAL_DECIMAL_DIGITS {
            let BigFraction { ntor, dtor } = b;
            FracApprox::Direct(ntor, dtor)
        } else {
            let ns = n_text.as_str().substring_char(0, nl - common + FRACTIONAL_DECIMAL_DIGITS);
            let ds = d_text.as_str().substring_char(0, dl - common + FRACTIONAL_DECIMAL_DIGITS);
            FracApprox::Truncated(String::from_str(ns), String::from_str(ds))
        };
        DoubleParts { int_part: r_int, negative, frac }
    }

    /// Re-canonicalizes a fraction.  Every fraction already is canonical, so
    /// the result equals the argument; the canonical form is recomputed from
    /// the components all the same.
    pub fn simplify(fraction: BigFraction) -> (r: Self)
        ensures
            r@ == fraction@,
    {
        proof {
            use_type_invariant(&fraction);
            lemma_norm_of_canonical(fraction@);
        }
        let BigFraction { ntor, dtor } = fraction;
        Self::canonicalize(ntor, dtor)
    }

    /// The canonical-form invariant, confirmed for any reachable fraction:
    /// the denominator is positive and shares no factor with the numerator,
    /// and zero is exactly 0/1.
    pub fn canonical_invariant(&self) -> (r: bool)
        ensures
            r,
            rat_wf(self@),
    {
        proof {
            use_type_invariant(self);
        }
        true
    }

    /// The numerator of the canonical form.
    pub fn get_numerator(&self) -> (r: BigInt)
        ensures
            big_value(r) == self@.n,
    {
        big_clone(&self.ntor)
    }

    /// The denominator of the canonical form; always positive.
    pub fn get_denominator(&self) -> (r: BigInt)
        ensures
            big_value(r) == self@.d,
            big_value(r) > 0,
    {
        proof {
            use_type_invariant(self);
        }
        big_clone(&self.dtor)
    }
}

} // verus!
