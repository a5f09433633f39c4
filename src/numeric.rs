use vstd::prelude::*;

verus! {

/// Number of fractional digits of an amount: one unit of an amount is 10^-24 of a whole,
/// the minor unit of the settlement currency.
pub const DECIMALS: u32 = 24;

/// One whole, in minor units.
pub const ONE_WHOLE: u128 = 1_000_000_000_000_000_000_000_000;

pub open spec fn pow10(n: nat) -> nat
    decreases n,
{
    if n == 0 {
        1
    } else {
        10 * pow10((n - 1) as nat)
    }
}

pub open spec fn digit_char(d: nat) -> char {
    seq!['0', '1', '2', '3', '4', '5', '6', '7', '8', '9'][d as int]
}

/// The decimal rendering of `n`, most significant digit first, without leading zeros.
pub open spec fn decimal_text(n: nat) -> Seq<char>
    decreases n,
{
    if n < 10 {
        seq![digit_char(n)]
    } else {
        decimal_text(n / 10).push(digit_char(n % 10))
    }
}

pub open spec fn is_digit(c: char) -> bool {
    '0' <= c && c <= '9'
}

pub open spec fn digit_value(c: char) -> nat {
    (c as u32 - '0' as u32) as nat
}

pub open spec fn all_digits(s: Seq<char>) -> bool {
    forall|i: int| 0 <= i < s.len() ==> is_digit(#[trigger] s[i])
}

/// The number that a string of decimal digits denotes.
pub open spec fn digits_value(s: Seq<char>) -> nat
    decreases s.len(),
{
    if s.len() == 0 {
        0
    } else {
        digits_value(s.drop_last()) * 10 + digit_value(s.last())
    }
}

/// `s` is a literal with its decimal point at `p`: digits on both sides, at least one
/// digit in all, and at most `DECIMALS` digits after the point.
pub open spec fn point_at(s: Seq<char>, p: int) -> bool {
    &&& 0 <= p < s.len()
    &&& s[p] == '.'
    &&& all_digits(s.take(p))
    &&& all_digits(s.skip(p + 1))
    &&& s.len() >= 2
    &&& s.len() - (p + 1) <= DECIMALS
}

/// The value of a non-negative decimal literal, in minor units; `None` when `s` is no
/// such literal.
pub open spec fn literal_units(s: Seq<char>) -> Option<nat> {
    if s.len() > 0 && all_digits(s) {
        Some(digits_value(s) * pow10(DECIMALS as nat))
    } else if exists|p: int| point_at(s, p) {
        let p = choose|p: int| point_at(s, p);
        Some(
            digits_value(s.take(p)) * pow10(DECIMALS as nat) + digits_value(s.skip(p + 1))
                * pow10((DECIMALS - (s.len() - (p + 1))) as nat),
        )
    } else {
        None
    }
}

/// The amount, in minor units, that `s` denotes, where it is a literal whose value fits
/// in a `u128`.
pub open spec fn amount_of(s: Seq<char>) -> Option<u128> {
    match literal_units(s) {
        Some(u) => if u <= u128::MAX {
            Some(u as u128)
        } else {
            None
        },
        None => None,
    }
}

proof fn lemma_pow10_monotone(a: nat, b: nat)
    requires
        a <= b,
    ensures
        pow10(a) <= pow10(b),
        pow10(a) >= 1,
    decreases b,
{
    if b > 0 {
        if a < b {
            lemma_pow10_monotone(a, (b - 1) as nat);
        }
    }
    lemma_pow10_positive(a);
}

proof fn lemma_pow10_positive(n: nat)
    ensures
        pow10(n) >= 1,
    decreases n,
{
    if n > 0 {
        lemma_pow10_positive((n - 1) as nat);
    }
}

proof fn lemma_one_whole()
    ensures
        pow10(DECIMALS as nat) == ONE_WHOLE,
{
    reveal_with_fuel(pow10, 25);
}

proof fn lemma_digits_prefix_monotone(s: Seq<char>, i: int, j: int)
    requires
        0 <= i <= j <= s.len(),
    ensures
        digits_value(s.take(i)) <= digits_value(s.take(j)),
    decreases j - i,
{
    if i < j {
        lemma_digits_prefix_monotone(s, i, j - 1);
        assert(s.take(j).drop_last() =~= s.take(j - 1));
    }
}

proof fn lemma_digits_value_bound(s: Seq<char>)
    requires
        all_digits(s),
    ensures
        digits_value(s) < pow10(s.len()),
    decreases s.len(),
{
    if s.len() > 0 {
        let t = s.drop_last();
        assert(all_digits(t)) by {
            assert forall|i: int| 0 <= i < t.len() implies is_digit(#[trigger] t[i]) by {
                assert(t[i] == s[i]);
            }
        }
        lemma_digits_value_bound(t);
        assert(is_digit(s[s.len() - 1]));
        assert(digit_value(s.last()) < 10);
        assert(digits_value(t) + 1 <= pow10(t.len()));
        assert(digits_value(t) * 10 + 10 <= pow10(t.len()) * 10) by (nonlinear_arith)
            requires
                digits_value(t) + 1 <= pow10(t.len()),
        ;
    }
}

proof fn lemma_digit_char_injective(a: nat, b: nat)
    requires
        a < 10,
        b < 10,
        digit_char(a) == digit_char(b),
    ensures
        a == b,
{
    let t = seq!['0', '1', '2', '3', '4', '5', '6', '7', '8', '9'];
    assert(t[0] == '0' && t[1] == '1' && t[2] == '2' && t[3] == '3' && t[4] == '4');
    assert(t[5] == '5' && t[6] == '6' && t[7] == '7' && t[8] == '8' && t[9] == '9');
}

proof fn lemma_decimal_text_len(n: nat)
    ensures
        decimal_text(n).len() >= 1,
        n < 10 <==> decimal_text(n).len() == 1,
    decreases n,
{
    if n >= 10 {
        lemma_decimal_text_len(n / 10);
    }
}

/// Distinct numbers have distinct decimal renderings.
pub proof fn lemma_decimal_text_injective(n: nat, m: nat)
    requires
        decimal_text(n) == decimal_text(m),
    ensures
        n == m,
    decreases n,
{
    lemma_decimal_text_len(n);
    lemma_decimal_text_len(m);
    if n < 10 && m < 10 {
        assert(decimal_text(n)[0] == digit_char(n));
        assert(decimal_text(m)[0] == digit_char(m));
        lemma_digit_char_injective(n, m);
    } else if n >= 10 && m >= 10 {
        let x = decimal_text(n);
        let y = decimal_text(m);
        assert(x.last() == digit_char(n % 10));
        assert(y.last() == digit_char(m % 10));
        lemma_digit_char_injective(n % 10, m % 10);
        assert(x.drop_last() =~= decimal_text(n / 10));
        assert(y.drop_last() =~= decimal_text(m / 10));
        lemma_decimal_text_injective(n / 10, m / 10);
    }
}

proof fn lemma_digit_char_value(d: nat)
    requires
        d < 10,
    ensures
        is_digit(digit_char(d)),
        digit_value(digit_char(d)) == d,
{
    let t = seq!['0', '1', '2', '3', '4', '5', '6', '7', '8', '9'];
    assert(t[0] == '0' && t[1] == '1' && t[2] == '2' && t[3] == '3' && t[4] == '4');
    assert(t[5] == '5' && t[6] == '6' && t[7] == '7' && t[8] == '8' && t[9] == '9');
}

/// The decimal rendering of `n` is a string of digits that reads back as `n`.
pub proof fn lemma_decimal_text_reads_back(n: nat)
    ensures
        all_digits(decimal_text(n)),
        digits_value(decimal_text(n)) == n,
    decreases n,
{
    lemma_digit_char_value(n % 10);
    let s = decimal_text(n);
    assert(s.last() == digit_char(n % 10));
    if n < 10 {
        assert(s.drop_last() =~= Seq::<char>::empty());
        assert(digits_value(s.drop_last()) == 0);
    } else {
        lemma_decimal_text_reads_back(n / 10);
        assert(s.drop_last() =~= decimal_text(n / 10));
        assert(digits_value(s) == (n / 10) * 10 + n % 10);
        assert forall|i: int| 0 <= i < s.len() implies is_digit(#[trigger] s[i]) by {
            if i < s.len() - 1 {
                assert(s[i] == decimal_text(n / 10)[i]);
            }
        }
    }
}

fn digit_str(d: u64) -> (r: &'static str)
    requires
        d < 10,
    ensures
        r@ == seq![digit_char(d as nat)],
{
    if d == 0 {
        proof { reveal_strlit("0"); }
        "0"
    } else if d == 1 {
        proof { reveal_strlit("1"); }
        "1"
    } else if d == 2 {
        proof { reveal_strlit("2"); }
        "2"
    } else if d == 3 {
        proof { reveal_strlit("3"); }
        "3"
    } else if d == 4 {
        proof { reveal_strlit("4"); }
        "4"
    } else if d == 5 {
        proof { reveal_strlit("5"); }
        "5"
    } else if d == 6 {
        proof { reveal_strlit("6"); }
        "6"
    } else if d == 7 {
        proof { reveal_strlit("7"); }
        "7"
    } else if d == 8 {
        proof { reveal_strlit("8"); }
        "8"
    } else {
        proof { reveal_strlit("9"); }
        "9"
    }
}

/// Renders `n` in decimal.
pub fn render_decimal(n: u64) -> (r: String)
    ensures
        r@ == decimal_text(n as nat),
    decreases n,
{
    if n < 10 {
        String::from_str(digit_str(n))
    } else {
        let mut s = render_decimal(n / 10);
        s.append(digit_str(n % 10));
        s
    }
}


proof fn lemma_pow10_add(a: nat, b: nat)
    ensures
        pow10(a + b) == pow10(a) * pow10(b),
    decreases a,
{
    if a > 0 {
        lemma_pow10_add((a - 1) as nat, b);
        assert(pow10(a + b) == 10 * pow10((a - 1 + b) as nat));
        assert(pow10(a) == 10 * pow10((a - 1) as nat));
        assert(10 * (pow10((a - 1) as nat) * pow10(b)) == (10 * pow10((a - 1) as nat)) * pow10(b))
            by (nonlinear_arith);
    } else {
        assert(pow10(a) == 1);
        assert(a + b == b);
    }
}

/// With `p` the index of the first decimal point of `s` (or its length when it has none),
/// the literal is read off around `p`.
proof fn lemma_literal_shape(s: Seq<char>, p: int)
    requires
        0 <= p <= s.len(),
        forall|j: int| 0 <= j < p ==> s[j] != '.',
        p < s.len() ==> s[p] == '.',
    ensures
        p == s.len() ==> literal_units(s) == (if s.len() > 0 && all_digits(s) {
            Some(digits_value(s) * pow10(DECIMALS as nat))
        } else {
            None
        }),
        p < s.len() ==> literal_units(s) == (if point_at(s, p) {
            Some(
                digits_value(s.take(p)) * pow10(DECIMALS as nat) + digits_value(s.skip(p + 1))
                    * pow10((DECIMALS - (s.len() - (p + 1))) as nat),
            )
        } else {
            None
        }),
{
    assert forall|q: int| point_at(s, q) implies q == p by {
        if q < p {
            assert(s[q] != '.');
        } else if q > p {
            assert(s.take(q)[p] == s[p]);
            assert(is_digit(s.take(q)[p]));
        }
    }
    if p < s.len() {
        assert(!is_digit(s[p]));
        assert(!all_digits(s));
    }
}

proof fn lemma_digit_step(s: Seq<char>, lo: int, i: int)
    requires
        0 <= lo <= i < s.len(),
    ensures
        s.subrange(lo, i + 1).drop_last() =~= s.subrange(lo, i),
        s.subrange(lo, i + 1).last() == s[i],
        digits_value(s.subrange(lo, i + 1)) == digits_value(s.subrange(lo, i)) * 10 + digit_value(
            s[i],
        ),
{
    assert(s.subrange(lo, i + 1).drop_last() =~= s.subrange(lo, i));
}

/// Reads the digits `s[lo..hi]` as a number; `None` when one is no digit or the number
/// exceeds `u128::MAX`.
pub(crate) fn parse_digits(s: &str, lo: usize, hi: usize) -> (r: Option<u128>)
    requires
        lo <= hi <= s@.len(),
    ensures
        match r {
            Some(v) => all_digits(s@.subrange(lo as int, hi as int)) && v == digits_value(
                s@.subrange(lo as int, hi as int),
            ),
            None => !all_digits(s@.subrange(lo as int, hi as int)) || digits_value(
                s@.subrange(lo as int, hi as int),
            ) > u128::MAX,
        },
{
    let ghost t = s@.subrange(lo as int, hi as int);
    let mut v: u128 = 0;
    let mut i: usize = lo;
    while i < hi
        invariant
            lo <= i <= hi <= s@.len(),
            t == s@.subrange(lo as int, hi as int),
            all_digits(s@.subrange(lo as int, i as int)),
            v == digits_value(s@.subrange(lo as int, i as int)),
        decreases hi - i,
    {
        let c = s.get_char(i);
        assert(t[i - lo] == c);
        if c < '0' || c > '9' {
            return None;
        }
        let d = (c as u32 - '0' as u32) as u128;
        proof {
            lemma_digit_step(s@, lo as int, i as int);
            assert(t.take(i + 1 - lo) =~= s@.subrange(lo as int, i + 1));
            lemma_digits_prefix_monotone(t, i + 1 - lo, t.len() as int);
            assert(t.take(t.len() as int) =~= t);
        }
        match v.checked_mul(10) {
            None => {
                return None;
            },
            Some(m) => match m.checked_add(d) {
                None => {
                    return None;
                },
                Some(w) => {
                    v = w;
                },
            },
        }
        i = i + 1;
        proof {
            assert forall|j: int| 0 <= j < s@.subrange(lo as int, i as int).len() implies is_digit(
                #[trigger] s@.subrange(lo as int, i as int)[j],
            ) by {
                if j < i - 1 - lo {
                    assert(s@.subrange(lo as int, i as int)[j] == s@.subrange(
                        lo as int,
                        i - 1,
                    )[j]);
                }
            }
        }
    }
    Some(v)
}

fn pow10_exec(k: u32) -> (r: u128)
    requires
        k <= DECIMALS,
    ensures
        r == pow10(k as nat),
{
    let mut r: u128 = 1;
    let mut i: u32 = 0;
    while i < k
        invariant
            i <= k <= DECIMALS,
            r == pow10(i as nat),
        decreases k - i,
    {
        proof {
            lemma_pow10_monotone((i + 1) as nat, DECIMALS as nat);
            lemma_one_whole();
        }
        r = r * 10;
        i = i + 1;
    }
    r
}

/// Parses a non-negative decimal literal (digits, optionally a point and at most
/// `DECIMALS` more digits) into minor units.
pub fn parse_amount(s: &str) -> (r: Option<u128>)
    ensures
        r == amount_of(s@),
{
    let n = s.unicode_len();
    let mut p: usize = 0;
    let mut found = false;
    while !found && p < n
        invariant
            n == s@.len(),
            p <= n,
            forall|j: int| 0 <= j < p ==> s@[j] != '.',
            found ==> p < n && s@[p as int] == '.',
        decreases n - p + (if found {
            0int
        } else {
            1int
        }),
    {
        if s.get_char(p) == '.' {
            found = true;
        } else {
            p = p + 1;
        }
    }
    proof {
        lemma_literal_shape(s@, p as int);
        lemma_one_whole();
        lemma_pow10_positive(DECIMALS as nat);
        assert(s@.subrange(0, n as int) =~= s@);
        assert(s@.subrange(0, p as int) =~= s@.take(p as int));
        if p < n {
            assert(s@.subrange(p + 1, n as int) =~= s@.skip(p + 1));
        }
    }
    if p == n {
        if n == 0 {
            return None;
        }
        match parse_digits(s, 0, n) {
            None => {
                proof {
                    let dv = digits_value(s@);
                    assert(dv * pow10(DECIMALS as nat) >= dv) by (nonlinear_arith)
                        requires
                            pow10(DECIMALS as nat) >= 1,
                    ;
                }
                None
            },
            Some(v) => v.checked_mul(ONE_WHOLE),
        }
    } else {
        let flen = n - (p + 1);
        if n < 2 || flen > 24 {
            return None;
        }
        match parse_digits(s, 0, p) {
            None => {
                proof {
                    let dv = digits_value(s@.take(p as int));
                    assert(dv * pow10(DECIMALS as nat) >= dv) by (nonlinear_arith)
                        requires
                            pow10(DECIMALS as nat) >= 1,
                    ;
                }
                None
            },
            Some(iv) => {
                match parse_digits(s, p + 1, n) {
                    None => {
                        proof {
                            if all_digits(s@.skip(p + 1)) {
                                lemma_digits_value_bound(s@.skip(p + 1));
                                lemma_pow10_monotone(flen as nat, DECIMALS as nat);
                            }
                        }
                        None
                    },
                    Some(fv) => {
                        let scale = pow10_exec(DECIMALS - flen as u32);
                        proof {
                            lemma_digits_value_bound(s@.skip(p + 1));
                            lemma_pow10_positive((DECIMALS - flen) as nat);
                            lemma_pow10_add(flen as nat, (DECIMALS - flen) as nat);
                            assert(fv * scale < pow10(flen as nat) * scale) by (nonlinear_arith)
                                requires
                                    fv < pow10(flen as nat),
                                    scale >= 1,
                            ;
                        }
                        let frac = fv * scale;
                        match iv.checked_mul(ONE_WHOLE) {
                            None => None,
                            Some(whole) => whole.checked_add(frac),
                        }
                    },
                }
            },
        }
    }
}


/// 2^64.
const HALF: u128 = 0x1_0000_0000_0000_0000;

/// 100 wholes, in minor units: a ratio times this is a percentage in minor units.
const HUNDRED_WHOLES: u128 = 100_000_000_000_000_000_000_000_000;

pub open spec fn two_pow_128() -> int {
    0x1_0000_0000_0000_0000int * 0x1_0000_0000_0000_0000int
}

/// The captured profit of a price difference: 80% of it, truncated to a whole minor unit.
pub open spec fn profit_of(diff: nat) -> nat {
    diff * 8 / 10
}

/// Whether a price difference `diff` over the lower price `low` is at least `threshold`
/// percent, all three in minor units and compared exactly:
/// `diff / low * 100 >= threshold / ONE_WHOLE`.
pub open spec fn clears_threshold(diff: nat, low: nat, threshold: nat) -> bool {
    diff * 100 * pow10(DECIMALS as nat) >= threshold * low
}

/// The full product of two `u128`s, as its high and low halves.
fn mul_wide(a: u128, b: u128) -> (r: (u128, u128))
    ensures
        r.0 * two_pow_128() + r.1 == a * b,
{
    let a0 = a % HALF;
    let a1 = a / HALF;
    let b0 = b % HALF;
    let b1 = b / HALF;
    proof {
        assert(a0 * b0 <= (HALF - 1) * (HALF - 1)) by (nonlinear_arith)
            requires
                a0 < HALF,
                b0 < HALF,
        ;
        assert(a0 * b1 <= (HALF - 1) * (HALF - 1)) by (nonlinear_arith)
            requires
                a0 < HALF,
                b1 < HALF,
        ;
        assert(a1 * b0 <= (HALF - 1) * (HALF - 1)) by (nonlinear_arith)
            requires
                a1 < HALF,
                b0 < HALF,
        ;
        assert(a1 * b1 <= (HALF - 1) * (HALF - 1)) by (nonlinear_arith)
            requires
                a1 < HALF,
                b1 < HALF,
        ;
    }
    let p00 = a0 * b0;
    let p01 = a0 * b1;
    let p10 = a1 * b0;
    let p11 = a1 * b1;
    let mid = p00 / HALF + p01 % HALF + p10 % HALF;
    proof {
        assert((mid % HALF) * HALF + p00 % HALF < two_pow_128()) by (nonlinear_arith)
            requires
                mid % HALF < HALF,
                p00 % HALF < HALF,
        ;
    }
    let lo = (mid % HALF) * HALF + p00 % HALF;
    let ghost hi_int: int = p11 + p01 / HALF + p10 / HALF + mid / HALF;
    proof {
        let bb = HALF as int;
        assert(a == a1 * bb + a0);
        assert(b == b1 * bb + b0);
        assert(a * b == p11 * (bb * bb) + (p01 + p10) * bb + p00) by (nonlinear_arith)
            requires
                a == a1 * bb + a0,
                b == b1 * bb + b0,
                p00 == a0 * b0,
                p01 == a0 * b1,
                p10 == a1 * b0,
                p11 == a1 * b1,
        ;
        assert(p00 == (p00 / HALF) * bb + p00 % HALF);
        assert(p01 == (p01 / HALF) * bb + p01 % HALF);
        assert(p10 == (p10 / HALF) * bb + p10 % HALF);
        assert(mid == (mid / HALF) * bb + mid % HALF);
        assert(a * b == hi_int * (bb * bb) + lo) by (nonlinear_arith)
            requires
                a * b == p11 * (bb * bb) + (p01 + p10) * bb + p00,
                p00 == (p00 / HALF) * bb + p00 % HALF,
                p01 == (p01 / HALF) * bb + p01 % HALF,
                p10 == (p10 / HALF) * bb + p10 % HALF,
                mid == p00 / HALF + p01 % HALF + p10 % HALF,
                mid == (mid / HALF) * bb + mid % HALF,
                hi_int == p11 + p01 / HALF + p10 / HALF + mid / HALF,
                lo == (mid % HALF) * bb + p00 % HALF,
        ;
        assert(a * b <= u128::MAX * u128::MAX) by (nonlinear_arith)
            requires
                a <= u128::MAX,
                b <= u128::MAX,
        ;
        assert(hi_int < two_pow_128()) by (nonlinear_arith)
            requires
                a * b == hi_int * two_pow_128() + lo,
                0 <= lo,
                a * b <= u128::MAX * u128::MAX,
                u128::MAX + 1 == two_pow_128(),
        ;
        assert(bb * bb == two_pow_128());
    }
    let hi = p11 + p01 / HALF + p10 / HALF + mid / HALF;
    (hi, lo)
}

/// Decides `clears_threshold` without loss of precision.
pub fn threshold_met(diff: u128, low: u128, threshold: u128) -> (r: bool)
    ensures
        r == clears_threshold(diff as nat, low as nat, threshold as nat),
{
    let x = mul_wide(diff, HUNDRED_WHOLES);
    let y = mul_wide(threshold, low);
    proof {
        lemma_one_whole();
        assert(diff * 100 * pow10(DECIMALS as nat) == diff * HUNDRED_WHOLES) by (nonlinear_arith)
            requires
                pow10(DECIMALS as nat) == ONE_WHOLE,
        ;
        let m = two_pow_128();
        assert(x.0 > y.0 ==> x.0 * m + x.1 > y.0 * m + y.1) by (nonlinear_arith)
            requires
                m > 0,
                y.1 < m,
                x.1 >= 0,
        ;
        assert(x.0 < y.0 ==> x.0 * m + x.1 < y.0 * m + y.1) by (nonlinear_arith)
            requires
                m > 0,
                x.1 < m,
                y.1 >= 0,
        ;
    }
    x.0 > y.0 || (x.0 == y.0 && x.1 >= y.1)
}

/// The captured profit of a price difference, in minor units.
pub fn profit_units(diff: u128) -> (r: u128)
    ensures
        r == profit_of(diff as nat),
{
    let q = diff / 5;
    let rem = diff % 5;
    proof {
        assert(diff * 8 / 10 == q * 4 + rem * 4 / 5) by (nonlinear_arith)
            requires
                diff == q * 5 + rem,
                0 <= rem < 5,
        ;
        assert(q * 4 <= diff) by (nonlinear_arith)
            requires
                diff == q * 5 + rem,
                q >= 0,
        ;
    }
    q * 4 + rem * 4 / 5
}

} // verus!
