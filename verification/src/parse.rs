//! Verified parsing of the line-oriented transport format: whitespace
//! separated decimal numbers, parsed into fixed-point ticks.
//! Malformed or out-of-range tokens are dropped; they never abort the
//! stream.
use vstd::prelude::*;

use crate::SCALE;
use crate::VAL_BOUND;

verus! {

/// ASCII decimal digit.
pub open spec fn is_digit(b: u8) -> bool {
    48 <= b <= 57
}

/// ASCII whitespace as the transport emits it.
pub open spec fn is_ws(b: u8) -> bool {
    b == 32 || b == 9 || b == 13 || b == 10
}

/// Every byte is a decimal digit.
pub open spec fn all_digits(s: Seq<u8>) -> bool {
    forall|i: int| 0 <= i < s.len() ==> is_digit(#[trigger] s[i])
}

/// Value of a digit string read most-significant first.
pub open spec fn digits_val(s: Seq<u8>) -> int
    decreases s.len(),
{
    if s.len() == 0 {
        0
    } else {
        digits_val(s.drop_last()) * 10 + (s.last() - 48)
    }
}

/// Ten to a small power.
pub open spec fn ten_pow(c: int) -> int
    decreases c,
{
    if c <= 0 {
        1
    } else {
        10 * ten_pow(c - 1)
    }
}

/// Index of the first decimal point, or the length if there is none.
pub open spec fn dot_split(s: Seq<u8>) -> int
    decreases s.len(),
{
    if s.len() == 0 {
        0
    } else if s[0] == 46 {
        0
    } else {
        1 + dot_split(s.drop_first())
    }
}

/// Index of the first exponent marker (`e` or `E`), or the length if
/// there is none.
pub open spec fn exp_split(s: Seq<u8>) -> int
    decreases s.len(),
{
    if s.len() == 0 {
        0
    } else if s[0] == 101 || s[0] == 69 {
        0
    } else {
        1 + exp_split(s.drop_first())
    }
}

/// The exponent carried by the suffix after the marker: an optional
/// sign and at least one digit; any other shape carries none.
pub open spec fn exp_value(es: Seq<u8>) -> Option<int> {
    if es.len() == 0 {
        Option::<int>::None
    } else {
        let eneg = es[0] == 45;
        let ebody = if es[0] == 45 || es[0] == 43 {
            es.drop_first()
        } else {
            es
        };
        if ebody.len() == 0 || !all_digits(ebody) {
            Option::<int>::None
        } else if eneg {
            Option::<int>::Some(-digits_val(ebody))
        } else {
            Option::<int>::Some(digits_val(ebody))
        }
    }
}

/// A tick magnitude scaled by a decimal exponent, truncating toward
/// zero for negative exponents.
pub open spec fn scaled_mag(mag: int, e: int) -> int {
    if e >= 0 {
        mag * ten_pow(e)
    } else {
        mag / ten_pow(-e)
    }
}

/// The fraction digits, cut or zero-padded to exactly six places, so
/// that their value is directly in ticks. Digits beyond the sixth lie
/// below one tick and are truncated away.
pub open spec fn padded6(fr: Seq<u8>, count: int) -> Seq<u8> {
    if count <= fr.len() {
        fr.subrange(0, count)
    } else {
        fr + Seq::new((count - fr.len()) as nat, |i: int| 48u8)
    }
}

/// Ticks contributed by the fraction digits.
pub open spec fn frac_ticks(fr: Seq<u8>) -> int {
    digits_val(padded6(fr, 6))
}

/// The tick value of a mantissa: an integer part and an optional
/// fraction separated by one decimal point, with at least one digit
/// in all. Any other shape, and magnitudes beyond the fixed-point
/// range, carry no value.
pub open spec fn mantissa_value(mant: Seq<u8>) -> Option<i64> {
    let d = dot_split(mant);
    let ip = mant.subrange(0, d);
    let fr = if d < mant.len() {
        mant.subrange(d + 1, mant.len() as int)
    } else {
        Seq::<u8>::empty()
    };
    if !(all_digits(ip) && all_digits(fr)) || ip.len() + fr.len() == 0 {
        Option::<i64>::None
    } else {
        let mag = digits_val(ip) * (SCALE as int) + frac_ticks(fr);
        if mag > VAL_BOUND as int {
            Option::<i64>::None
        } else {
            Option::<i64>::Some(mag as i64)
        }
    }
}

/// The fixed-point value of one decimal token: an optional sign, a
/// mantissa, then an optional decimal exponent (`e` or `E`, an
/// optional sign, digits). Tokens of any other shape parse to `None`,
/// as do values whose mantissa or scaled value lies beyond the
/// fixed-point range.
pub open spec fn token_value(s: Seq<u8>) -> Option<i64> {
    if s.len() == 0 {
        Option::<i64>::None
    } else {
        let neg = s[0] == 45;
        let body = if s[0] == 45 || s[0] == 43 {
            s.drop_first()
        } else {
            s
        };
        let x = exp_split(body);
        let eopt = if x < body.len() {
            exp_value(body.subrange(x + 1, body.len() as int))
        } else {
            Option::<int>::Some(0)
        };
        let mv = mantissa_value(body.subrange(0, x));
        if eopt is None || mv is None {
            Option::<i64>::None
        } else {
            let m2 = scaled_mag(mv->Some_0 as int, eopt->Some_0);
            if m2 > VAL_BOUND as int {
                Option::<i64>::None
            } else if neg {
                Option::<i64>::Some((-m2) as i64)
            } else {
                Option::<i64>::Some(m2 as i64)
            }
        }
    }
}

proof fn lemma_all_digits_sub(s: Seq<u8>, a: int, b: int)
    requires
        all_digits(s),
        0 <= a <= b <= s.len(),
    ensures
        all_digits(s.subrange(a, b)),
{
    assert forall|i: int| 0 <= i < b - a implies is_digit(#[trigger] s.subrange(a, b)[i]) by {
        assert(s.subrange(a, b)[i] == s[a + i]);
    }
}

proof fn lemma_digits_val_nonneg(s: Seq<u8>)
    requires
        all_digits(s),
    ensures
        0 <= digits_val(s),
    decreases s.len(),
{
    if s.len() > 0 {
        assert forall|i: int| 0 <= i < s.drop_last().len() implies is_digit(
            #[trigger] s.drop_last()[i],
        ) by {
            assert(s.drop_last()[i] == s[i]);
        }
        lemma_digits_val_nonneg(s.drop_last());
    }
}

proof fn lemma_digits_prefix_step(s: Seq<u8>, k: int)
    requires
        0 <= k < s.len(),
    ensures
        digits_val(s.subrange(0, k + 1)) == digits_val(s.subrange(0, k)) * 10 + (s[k] - 48),
{
    assert(s.subrange(0, k + 1).drop_last() =~= s.subrange(0, k));
    assert(s.subrange(0, k + 1).last() == s[k]);
}

proof fn lemma_digits_val_grows(s: Seq<u8>, k: int)
    requires
        all_digits(s),
        0 <= k <= s.len(),
    ensures
        digits_val(s.subrange(0, k)) <= digits_val(s),
    decreases s.len() - k,
{
    if k < s.len() {
        lemma_digits_prefix_step(s, k);
        lemma_all_digits_sub(s, 0, k);
        lemma_digits_val_nonneg(s.subrange(0, k));
        lemma_digits_val_grows(s, k + 1);
    } else {
        assert(s.subrange(0, k) =~= s);
    }
}

proof fn lemma_dot_split_at(s: Seq<u8>, k: int)
    requires
        0 <= k <= s.len(),
        forall|j: int| 0 <= j < k ==> s[j] != 46,
        k < s.len() ==> s[k] == 46,
    ensures
        dot_split(s) == k,
    decreases k,
{
    if k > 0 {
        assert(s[0] != 46);
        assert forall|j: int| 0 <= j < k - 1 implies s.drop_first()[j] != 46 by {
            assert(s.drop_first()[j] == s[j + 1]);
        }
        if k - 1 < s.drop_first().len() {
            assert(s.drop_first()[k - 1] == s[k]);
        }
        lemma_dot_split_at(s.drop_first(), k - 1);
    }
}

proof fn lemma_exp_split_at(s: Seq<u8>, k: int)
    requires
        0 <= k <= s.len(),
        forall|j: int| 0 <= j < k ==> s[j] != 101 && s[j] != 69,
        k < s.len() ==> s[k] == 101 || s[k] == 69,
    ensures
        exp_split(s) == k,
    decreases k,
{
    if k > 0 {
        assert(s[0] != 101 && s[0] != 69);
        assert forall|j: int| 0 <= j < k - 1 implies s.drop_first()[j] != 101 && s.drop_first()[j]
            != 69 by {
            assert(s.drop_first()[j] == s[j + 1]);
        }
        if k - 1 < s.drop_first().len() {
            assert(s.drop_first()[k - 1] == s[k]);
        }
        lemma_exp_split_at(s.drop_first(), k - 1);
    }
}

proof fn lemma_ten_pow_pos(c: int)
    ensures
        ten_pow(c) >= 1,
    decreases c,
{
    if c > 0 {
        lemma_ten_pow_pos(c - 1);
    }
}

proof fn lemma_ten_pow_mono(a: int, b: int)
    requires
        a <= b,
    ensures
        ten_pow(a) <= ten_pow(b),
    decreases b - a,
{
    if a < b {
        lemma_ten_pow_mono(a, b - 1);
        lemma_ten_pow_pos(b - 1);
    }
}

proof fn lemma_ten_pow_14()
    ensures
        ten_pow(14) == 100_000_000_000_000,
{
    reveal_with_fuel(ten_pow, 16);
}

proof fn lemma_pad_zero(s: Seq<u8>)
    ensures
        digits_val(s.push(48)) == digits_val(s) * 10,
{
    assert(s.push(48).drop_last() =~= s);
}

proof fn lemma_ten_pow_6()
    ensures
        ten_pow(6) == 1_000_000,
{
    reveal_with_fuel(ten_pow, 8);
}

/// Parses a mantissa slice into ticks.
#[verifier::loop_isolation(false)]
#[verifier::rlimit(80)]
fn parse_mantissa(mant: &[u8]) -> (r: Option<i64>)
    ensures
        r == mantissa_value(mant@),
        r matches Some(m) ==> 0 <= m <= VAL_BOUND,
{
    let n: usize = mant.len();
    // find the first decimal point
    let mut d: usize = 0;
    while d < n && mant[d] != 46
        invariant
            d <= n,
            n == mant@.len(),
            forall|j: int| 0 <= j < d ==> mant@[j] != 46,
        decreases n - d,
    {
        d = d + 1;
    }
    proof {
        lemma_dot_split_at(mant@, d as int);
    }
    let ghost ip: Seq<u8> = mant@.subrange(0, d as int);
    let ghost fr: Seq<u8> = if d < n {
        mant@.subrange(d + 1, n as int)
    } else {
        Seq::<u8>::empty()
    };
    if d == 0 && (d == n || d + 1 == n) {
        // no digit anywhere: an empty mantissa or a bare dot
        return None;
    }
    // integer part
    let mut acc: i64 = 0;
    let mut j: usize = 0;
    while j < d
        invariant
            j <= d <= n,
            n == mant@.len(),
            forall|k: int| 0 <= k < j ==> is_digit(#[trigger] ip[k]),
            acc == digits_val(ip.subrange(0, j as int)),
            0 <= acc <= VAL_BOUND,
        decreases d - j,
    {
        let b: u8 = mant[j];
        proof {
            assert(ip[j as int] == mant@[j as int]);
        }
        if b < 48 || b > 57 {
            proof {
                assert(!is_digit(ip[j as int]));
                assert(!all_digits(ip));
            }
            return None;
        }
        proof {
            lemma_digits_prefix_step(ip, j as int);
        }
        acc = acc * 10 + (b - 48) as i64;
        j = j + 1;
        if acc > VAL_BOUND {
            // the integer part alone already exceeds the range
            proof {
                if all_digits(ip) && all_digits(fr) {
                    lemma_digits_val_grows(ip, j as int);
                    lemma_digits_val_nonneg(ip);
                    assert(digits_val(ip) * 1_000_000 >= digits_val(ip)) by (nonlinear_arith)
                        requires
                            digits_val(ip) >= 0,
                    ;
                    lemma_frac_ticks_nonneg(fr);
                }
            }
            return None;
        }
    }
    proof {
        assert(ip.subrange(0, ip.len() as int) =~= ip);
        assert(all_digits(ip));
    }
    // fraction part: the first six digits carry tick value
    let fstart: usize = if d < n {
        d + 1
    } else {
        n
    };
    let mut facc: i64 = 0;
    let mut count: usize = 0;
    let mut k: usize = fstart;
    while k < n
        invariant
            fstart <= k <= n,
            n == mant@.len(),
            fr.len() == n - fstart,
            forall|t: int| 0 <= t < fr.len() ==> fr[t] == mant@[fstart + t],
            forall|t: int| 0 <= t < k - fstart ==> is_digit(#[trigger] fr[t]),
            count == if k - fstart <= 6 {
                k - fstart
            } else {
                6int
            },
            facc == digits_val(fr.subrange(0, count as int)),
            0 <= facc < ten_pow(count as int),
            count <= 6,
        decreases n - k,
    {
        let b: u8 = mant[k];
        proof {
            assert(fr[k - fstart] == mant@[k as int]);
        }
        if b < 48 || b > 57 {
            proof {
                assert(!is_digit(fr[k - fstart]));
                assert(!all_digits(fr));
            }
            return None;
        }
        if count < 6 {
            proof {
                lemma_digits_prefix_step(fr, count as int);
                lemma_ten_pow_6();
                assert(ten_pow(count as int + 1) == 10 * ten_pow(count as int));
                assert(ten_pow(count as int) <= ten_pow(6)) by {
                    reveal_with_fuel(ten_pow, 8);
                }
            }
            facc = facc * 10 + (b - 48) as i64;
            count = count + 1;
        }
        k = k + 1;
    }
    proof {
        assert(all_digits(fr));
    }
    // pad the fraction out to six places
    while count < 6
        invariant
            count <= 6,
            fr.len() <= count || count == 6,
            count >= fr.len() ==> facc == digits_val(padded6(fr, count as int)),
            count < fr.len() ==> facc == digits_val(fr.subrange(0, count as int)),
            0 <= facc < ten_pow(count as int),
        decreases 6 - count,
    {
        proof {
            lemma_pad_zero(padded6(fr, count as int));
            assert(padded6(fr, count as int).push(48) =~= padded6(fr, count as int + 1));
            assert(ten_pow(count as int + 1) == 10 * ten_pow(count as int));
            assert(ten_pow(count as int) <= ten_pow(6)) by {
                reveal_with_fuel(ten_pow, 8);
            }
            lemma_ten_pow_6();
            if count as int == fr.len() {
                assert(padded6(fr, count as int) =~= fr.subrange(0, count as int));
            }
        }
        facc = facc * 10;
        count = count + 1;
    }
    proof {
        lemma_ten_pow_6();
        if fr.len() >= 6 {
            assert(facc == digits_val(padded6(fr, 6)));
        }
        assert(facc == frac_ticks(fr));
    }
    let mag: i64 = acc * 1_000_000 + facc;
    if mag > VAL_BOUND {
        return None;
    }
    Some(mag)
}

/// Parses one decimal token into fixed-point ticks.
pub fn parse_fixed(token: &[u8]) -> (r: Option<i64>)
    ensures
        r == token_value(token@),
{
    let n: usize = token.len();
    if n == 0 {
        return None;
    }
    let first: u8 = token[0];
    let neg: bool = first == 45;
    let start: usize = if first == 45 || first == 43 {
        1
    } else {
        0
    };
    let ghost body: Seq<u8> = token@.subrange(start as int, n as int);
    proof {
        if start == 1 {
            assert(body =~= token@.drop_first());
        } else {
            assert(body =~= token@);
        }
    }
    // find the exponent marker; the mantissa ends there
    let mut xe: usize = start;
    while xe < n && token[xe] != 101 && token[xe] != 69
        invariant
            start <= xe <= n,
            n == token@.len(),
            forall|j: int| start <= j < xe ==> token@[j] != 101 && token@[j] != 69,
        decreases n - xe,
    {
        xe = xe + 1;
    }
    proof {
        assert forall|j: int| 0 <= j < xe - start implies body[j] != 101 && body[j] != 69 by {
            assert(body[j] == token@[j + start]);
        }
        if (xe as int) - (start as int) < body.len() {
            assert(body[xe - start] == token@[xe as int]);
        }
        lemma_exp_split_at(body, xe - start);
    }
    let mant: &[u8] = vstd::slice::slice_subrange(token, start, xe);
    proof {
        assert(mant@ =~= body.subrange(0, xe - start));
    }
    let mv: i64 = match parse_mantissa(mant) {
        None => {
            return None;
        },
        Some(m) => m,
    };
    if xe < n {
        let etail: &[u8] = vstd::slice::slice_subrange(token, xe + 1, n);
        proof {
            assert(etail@ =~= body.subrange(xe - start + 1, body.len() as int));
        }
        let ghost e: int = match exp_value(etail@) {
            Option::Some(ev) => ev,
            Option::None => 0,
        };
        match parse_exp(etail) {
            None => None,
            Some(p) => {
                match scale_mag(mv, p.0, p.1, Ghost(e)) {
                    None => None,
                    Some(v) => if neg {
                        Some(-v)
                    } else {
                        Some(v)
                    },
                }
            },
        }
    } else {
        proof {
            assert(scaled_mag(mv as int, 0) == mv) by (nonlinear_arith)
                requires
                    ten_pow(0) == 1,
            ;
        }
        if neg {
            Some(-mv)
        } else {
            Some(mv)
        }
    }
}

/// Parses an exponent suffix: an optional sign, then digits. The
/// magnitude is exact up to 1000; a larger exponent is reported only
/// as large, which is all the range check needs.
#[verifier::loop_isolation(false)]
fn parse_exp(es: &[u8]) -> (r: Option<(bool, u64)>)
    ensures
        r is Some <==> exp_value(es@) is Some,
        r matches Some(p) ==> ({
            let e = exp_value(es@)->Some_0;
            &&& p.0 ==> e <= 0
            &&& !p.0 ==> e >= 0
            &&& p.1 <= 1000 ==> p.1 == if e >= 0 {
                e
            } else {
                -e
            }
            &&& p.1 > 1000 ==> (if e >= 0 {
                e
            } else {
                -e
            }) > 1000
        }),
{
    let n: usize = es.len();
    if n == 0 {
        return None;
    }
    let first: u8 = es[0];
    let e_neg: bool = first == 45;
    let start: usize = if first == 45 || first == 43 {
        1
    } else {
        0
    };
    let ghost ebody: Seq<u8> = es@.subrange(start as int, n as int);
    proof {
        if start == 1 {
            assert(ebody =~= es@.drop_first());
        } else {
            assert(ebody =~= es@);
        }
    }
    if start == n {
        // a sign with no digits
        return None;
    }
    let mut eacc: u64 = 0;
    let mut i: usize = start;
    while i < n
        invariant
            start <= i <= n,
            n == es@.len(),
            forall|t: int| 0 <= t < i - start ==> is_digit(#[trigger] ebody[t]),
            eacc <= 10009,
            eacc <= 1000 ==> eacc == digits_val(ebody.subrange(0, i - start)),
            eacc > 1000 ==> digits_val(ebody.subrange(0, i - start)) > 1000,
        decreases n - i,
    {
        let b: u8 = es[i];
        proof {
            assert(ebody[i - start] == es@[i as int]);
        }
        if b < 48 || b > 57 {
            proof {
                assert(!is_digit(ebody[i - start]));
                assert(!all_digits(ebody));
            }
            return None;
        }
        proof {
            lemma_digits_prefix_step(ebody, i - start);
            assert forall|t: int| 0 <= t < i - start + 1 implies is_digit(
                #[trigger] ebody.subrange(0, i - start + 1)[t],
            ) by {
                assert(ebody.subrange(0, i - start + 1)[t] == ebody[t]);
            }
            lemma_digits_val_nonneg(ebody.subrange(0, i - start));
        }
        if eacc <= 1000 {
            eacc = eacc * 10 + (b - 48) as u64;
        }
        i = i + 1;
    }
    proof {
        assert(ebody.subrange(0, ebody.len() as int) =~= ebody);
        assert(all_digits(ebody));
        lemma_digits_val_nonneg(ebody);
    }
    Some((e_neg, eacc))
}

/// Applies a decimal exponent to a non-negative tick magnitude:
/// `None` exactly when the scaled value leaves the fixed-point range.
fn scale_mag(mag: i64, e_neg: bool, e_abs: u64, Ghost(e): Ghost<int>) -> (r: Option<i64>)
    requires
        0 <= mag <= VAL_BOUND,
        e_neg ==> e <= 0,
        !e_neg ==> e >= 0,
        e_abs <= 1000 ==> e_abs == if e >= 0 {
            e
        } else {
            -e
        },
        e_abs > 1000 ==> (if e >= 0 {
            e
        } else {
            -e
        }) > 1000,
    ensures
        r is Some <==> scaled_mag(mag as int, e) <= VAL_BOUND,
        r matches Some(v) ==> v == scaled_mag(mag as int, e) && 0 <= v <= VAL_BOUND,
{
    if e_abs > 1000 {
        if e_neg {
            proof {
                assert(e < 0);
            }
            // dividing by at least ten to the thousandth: zero
            proof {
                lemma_ten_pow_14();
                lemma_ten_pow_mono(14, -e);
                vstd::arithmetic::div_mod::lemma_basic_div(mag as int, ten_pow(-e));
            }
            Some(0)
        } else if mag == 0 {
            proof {
                assert(0 * ten_pow(e) == 0) by (nonlinear_arith);
            }
            Some(0)
        } else {
            // multiplying by at least ten to the thousandth: out of
            // range for any non-zero magnitude
            proof {
                lemma_ten_pow_14();
                lemma_ten_pow_mono(14, e);
                lemma_ten_pow_pos(e);
                assert(mag * ten_pow(e) >= ten_pow(e)) by (nonlinear_arith)
                    requires
                        1 <= mag,
                        1 <= ten_pow(e),
                ;
            }
            None
        }
    } else if e_neg {
        let mut cur: i64 = mag;
        let mut kk: u64 = 0;
        proof {
            assert((mag as int) / ten_pow(0) == mag);
        }
        while kk < e_abs
            invariant
                kk <= e_abs,
                0 <= cur <= VAL_BOUND,
                0 <= mag <= VAL_BOUND,
                cur == (mag as int) / ten_pow(kk as int),
            decreases e_abs - kk,
        {
            proof {
                lemma_ten_pow_pos(kk as int);
                vstd::arithmetic::div_mod::lemma_div_denominator(
                    mag as int,
                    ten_pow(kk as int),
                    10,
                );
                assert(ten_pow(kk as int) * 10 == ten_pow(kk as int + 1)) by (nonlinear_arith)
                    requires
                        ten_pow(kk as int + 1) == 10 * ten_pow(kk as int),
                ;
            }
            cur = ((cur as u64) / 10) as i64;
            kk = kk + 1;
        }
        proof {
            if e >= 0 {
                assert(e == 0);
                assert(mag * ten_pow(0) == mag) by (nonlinear_arith)
                    requires
                        ten_pow(0) == 1,
                ;
            }
        }
        Some(cur)
    } else {
        let mut cur: i64 = mag;
        let mut kk: u64 = 0;
        proof {
            assert(mag * ten_pow(0) == mag) by (nonlinear_arith)
                requires
                    ten_pow(0) == 1,
            ;
        }
        while kk < e_abs
            invariant
                kk <= e_abs,
                e == e_abs,
                0 <= cur <= VAL_BOUND,
                0 <= mag <= VAL_BOUND,
                cur == mag * ten_pow(kk as int),
            decreases e_abs - kk,
        {
            let wide: i128 = (cur as i128) * 10;
            proof {
                assert((cur as int) * 10 == mag * ten_pow(kk as int + 1)) by (nonlinear_arith)
                    requires
                        cur == mag * ten_pow(kk as int),
                        ten_pow(kk as int + 1) == 10 * ten_pow(kk as int),
                ;
            }
            if wide > VAL_BOUND as i128 {
                proof {
                    lemma_ten_pow_mono(kk as int + 1, e);
                    lemma_ten_pow_pos(kk as int + 1);
                    assert(mag * ten_pow(e) >= mag * ten_pow(kk as int + 1)) by (nonlinear_arith)
                        requires
                            0 <= mag,
                            0 <= ten_pow(kk as int + 1) <= ten_pow(e),
                    ;
                }
                return None;
            }
            cur = wide as i64;
            kk = kk + 1;
        }
        Some(cur)
    }
}

proof fn lemma_frac_ticks_nonneg(fr: Seq<u8>)
    requires
        all_digits(fr),
    ensures
        0 <= frac_ticks(fr),
{
    assert forall|i: int| 0 <= i < padded6(fr, 6).len() implies is_digit(
        #[trigger] padded6(fr, 6)[i],
    ) by {
        if i < fr.len() && i < 6 {
            assert(padded6(fr, 6)[i] == fr[i]);
        }
    }
    lemma_digits_val_nonneg(padded6(fr, 6));
}


/// The values a finished token contributes: one parsed value, or
/// nothing for an empty or malformed token.
pub open spec fn emit(cur: Seq<u8>) -> Seq<i64> {
    if cur.len() == 0 {
        Seq::<i64>::empty()
    } else {
        match token_value(cur) {
            Option::Some(v) => seq![v],
            Option::None => Seq::<i64>::empty(),
        }
    }
}

/// Splits the remaining bytes on whitespace, with `cur` the token
/// gathered so far, and parses each token; malformed tokens are
/// dropped.
pub open spec fn parse_acc(s: Seq<u8>, cur: Seq<u8>) -> Seq<i64>
    decreases s.len(),
{
    if s.len() == 0 {
        emit(cur)
    } else if is_ws(s[0]) {
        emit(cur) + parse_acc(s.drop_first(), Seq::<u8>::empty())
    } else {
        parse_acc(s.drop_first(), cur.push(s[0]))
    }
}

/// All numeric values on one line, in order: the line is split on
/// whitespace and each token is parsed, non-numeric tokens dropped.
pub open spec fn parsed_values(s: Seq<u8>) -> Seq<i64> {
    parse_acc(s, Seq::<u8>::empty())
}

/// Splits one transport line on whitespace and parses every numeric
/// token into fixed-point ticks, dropping the rest.
#[verifier::loop_isolation(false)]
pub fn parse_line(line: &[u8]) -> (r: Vec<i64>)
    ensures
        r@ == parsed_values(line@),
{
    let n: usize = line.len();
    let mut out: Vec<i64> = Vec::new();
    let mut tok: Vec<u8> = Vec::new();
    let mut i: usize = 0;
    proof {
        assert(line@.skip(0) =~= line@);
    }
    while i < n
        invariant
            i <= n,
            n == line@.len(),
            parsed_values(line@) == out@ + parse_acc(line@.skip(i as int), tok@),
        decreases n - i,
    {
        let ghost out0: Seq<i64> = out@;
        let ghost tok0: Seq<u8> = tok@;
        let ghost rest: Seq<i64> = parse_acc(line@.skip(i as int + 1), Seq::<u8>::empty());
        let b: u8 = line[i];
        proof {
            assert(line@.skip(i as int)[0] == line@[i as int]);
            assert(line@.skip(i as int).drop_first() =~= line@.skip(i as int + 1));
        }
        if b == 32 || b == 9 || b == 13 || b == 10 {
            proof {
                assert(parse_acc(line@.skip(i as int), tok0) == emit(tok0) + rest);
            }
            if tok.len() > 0 {
                match parse_fixed(tok.as_slice()) {
                    Some(v) => {
                        out.push(v);
                        proof {
                            assert(emit(tok0) =~= seq![v]);
                            assert(out@ + rest =~= out0 + (emit(tok0) + rest));
                        }
                    },
                    None => {
                        proof {
                            assert(emit(tok0) =~= Seq::<i64>::empty());
                            assert(out@ + rest =~= out0 + (emit(tok0) + rest));
                        }
                    },
                }
                tok.clear();
            } else {
                proof {
                    assert(emit(tok0) =~= Seq::<i64>::empty());
                    assert(out@ + rest =~= out0 + (emit(tok0) + rest));
                }
                tok.clear();
            }
        } else {
            tok.push(b);
            proof {
                assert(tok@ =~= tok0.push(b));
                assert(parse_acc(line@.skip(i as int), tok0) == parse_acc(
                    line@.skip(i as int + 1),
                    tok0.push(b),
                ));
            }
        }
        i = i + 1;
    }
    proof {
        assert(line@.skip(n as int) =~= Seq::<u8>::empty());
    }
    let ghost out0: Seq<i64> = out@;
    let ghost tok0: Seq<u8> = tok@;
    if tok.len() > 0 {
        match parse_fixed(tok.as_slice()) {
            Some(v) => {
                out.push(v);
                proof {
                    assert(emit(tok0) =~= seq![v]);
                    assert(out@ =~= out0 + emit(tok0));
                }
            },
            None => {
                proof {
                    assert(emit(tok0) =~= Seq::<i64>::empty());
                    assert(out@ =~= out0 + emit(tok0));
                }
            },
        }
    } else {
        proof {
            assert(emit(tok0) =~= Seq::<i64>::empty());
            assert(out@ =~= out0 + emit(tok0));
        }
    }
    proof {
        assert(parse_acc(Seq::<u8>::empty(), tok0) == emit(tok0));
    }
    out
}

/// Interprets the numeric fields of one transport line as a tick:
/// two signal values and an optional synchronization bit (absent
/// reads as zero). Lines with fewer than two numeric fields carry no
/// tick.
pub fn live_fields(fields: &Vec<i64>) -> (r: Option<(i64, i64, i64)>)
    ensures
        r is Some <==> fields@.len() >= 2,
        fields@.len() >= 3 ==> r == Some((fields@[0], fields@[1], fields@[2])),
        fields@.len() == 2 ==> r == Some((fields@[0], fields@[1], 0i64)),
{
    if fields.len() < 2 {
        return None;
    }
    let y2: i64 = if fields.len() >= 3 {
        fields[2]
    } else {
        0
    };
    Some((fields[0], fields[1], y2))
}

/// Whether the two channel fields of a recorded row parse as numbers.
pub open spec fn row_parses(record: Seq<Vec<u8>>) -> bool {
    &&& token_value(record[2]@) is Some
    &&& token_value(record[3]@) is Some
}

/// Reads one recorded replay row of five fields
/// `(elapsed, unix_millis, channel0, channel1, sync)`: the two channel
/// values when both parse in range, and `None` for a malformed row,
/// which the replay loop drops. The two timestamp columns are not
/// consumed on replay (elapsed time is kept afresh) and may exceed
/// the fixed-point range.
pub fn replay_values(record: &Vec<Vec<u8>>) -> (r: Option<(i64, i64)>)
    requires
        record@.len() == 5,
    ensures
        r is Some <==> row_parses(record@),
        r matches Some(p) ==> p == (
            token_value(record@[2]@)->Some_0,
            token_value(record@[3]@)->Some_0,
        ),
{
    let v2: Option<i64> = parse_fixed(record[2].as_slice());
    let v3: Option<i64> = parse_fixed(record[3].as_slice());
    match (v2, v3) {
        (Some(y0), Some(y1)) => Some((y0, y1)),
        _ => None,
    }
}

} // verus!
