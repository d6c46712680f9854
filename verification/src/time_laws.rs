//! What times, spans and ages mean, in plain nanoseconds.

use crate::text;
use crate::text_laws;
use crate::util;
use crate::util::{Hours, Timestamp};
use vstd::arithmetic::div_mod::*;
use vstd::arithmetic::power;
use vstd::prelude::*;

verus! {

/// A time is its seconds and nanoseconds since the Unix epoch.
pub proof fn law_time_is_seconds_and_nanoseconds(t: Timestamp)
    ensures
        t.ns() == t.secs * 1_000_000_000 + t.nsecs,
{
}

/// A span of `d * 10^e` hours lasts so many nanoseconds, an hour being 3600 seconds.
pub proof fn law_span_lasts_its_hours(d: i64, e: i16, ns: int)
    ensures
        e >= 0 ==> (Hours::Finite(d, e).lasts(ns) <==> ns == d * power::pow(10, e as nat)
            * 3_600_000_000_000),
        e < 0 ==> (Hours::Finite(d, e).lasts(ns) <==> ns * power::pow(10, (-e) as nat) == d
            * 3_600_000_000_000),
{
    if e >= 0 {
        text_laws::law_pow10_is_a_power(e as nat);
        let p = power::pow(10, e as nat);
        assert(d * p * 3_600_000_000_000 == d * 3_600_000_000_000 * p) by (nonlinear_arith);
    } else {
        text_laws::law_pow10_is_a_power((-e) as nat);
    }
}

/// An age is below, at least or above a span of `d * 10^e` hours as the numbers of nanoseconds
/// are.
pub proof fn law_age_is_held_against_hours(d: i64, e: i16, age: int)
    ensures
        e >= 0 ==> {
            let span = d * power::pow(10, e as nat) * 3_600_000_000_000;
            &&& Hours::Finite(d, e).above(age) <==> age < span
            &&& Hours::Finite(d, e).reached(age) <==> age >= span
            &&& Hours::Finite(d, e).passed(age) <==> age > span
        },
        e < 0 ==> {
            let p = power::pow(10, (-e) as nat);
            &&& Hours::Finite(d, e).above(age) <==> age * p < d * 3_600_000_000_000
            &&& Hours::Finite(d, e).reached(age) <==> age * p >= d * 3_600_000_000_000
            &&& Hours::Finite(d, e).passed(age) <==> age * p > d * 3_600_000_000_000
        },
{
    if e >= 0 {
        text_laws::law_pow10_is_a_power(e as nat);
        let p = power::pow(10, e as nat);
        assert(d * p * 3_600_000_000_000 == d * 3_600_000_000_000 * p) by (nonlinear_arith);
    } else {
        text_laws::law_pow10_is_a_power((-e) as nat);
    }
}

/// Every age is below an endless span and above its opposite, and is neither below nor at nor
/// above what is no number.
pub proof fn law_age_is_held_against_no_number(age: int)
    ensures
        Hours::PosInfinity.above(age) && !Hours::PosInfinity.reached(age)
            && !Hours::PosInfinity.passed(age),
        !Hours::NegInfinity.above(age) && Hours::NegInfinity.reached(age)
            && Hours::NegInfinity.passed(age),
        !Hours::NotANumber.above(age) && !Hours::NotANumber.reached(age)
            && !Hours::NotANumber.passed(age),
        forall|h: Hours, ns: int|
            #![trigger h.lasts(ns)]
            !(h is Finite) ==> !h.lasts(ns),
{
}

/// A span is at most as much as an age exactly if it is not above it, but for what is no number.
pub proof fn law_spans_are_reached_or_above(h: Hours, age: int)
    requires
        h != Hours::NotANumber,
    ensures
        h.reached(age) <==> !h.above(age),
        h.passed(age) ==> h.reached(age),
{
}

/// The text of an age is that of the nearest tenth of an hour, and of the even one of two that
/// are equally near, behind a minus sign if the age is negative.
pub proof fn law_age_text_is_the_nearest_tenth(age: int) -> (tenths: nat)
    ensures
        ({
            let n = if age < 0 {
                -age
            } else {
                age
            };
            let body = if age < 0 {
                util::age_text(age).skip(1)
            } else {
                util::age_text(age)
            };
            &&& age < 0 ==> util::age_text(age).len() > 0 && util::age_text(age)[0] == '-'
            &&& text::numeral(body) == Some((tenths, Some(1nat)))
            &&& text_laws::no_leading_zero(body)
            &&& -3_600_000_000_000 <= 2 * (10 * n - tenths * 3_600_000_000_000)
                <= 3_600_000_000_000
            &&& 2 * (10 * n - tenths * 3_600_000_000_000) == 3_600_000_000_000 || 2 * (10 * n
                - tenths * 3_600_000_000_000) == -3_600_000_000_000 ==> tenths % 2 == 0
        }),
{
    reveal_strlit("-");
    let n = if age < 0 {
        (-age) as nat
    } else {
        age as nat
    };
    let body = text::one_decimal(n, 3_600_000_000_000);
    if age < 0 {
        assert(util::age_text(age).skip(1) =~= body);
    }
    text_laws::law_one_decimal_is_nearest(n, 3_600_000_000_000)
}

/// A written span has a minus sign exactly if it is negative, no leading zero, and no trailing
/// zero behind a point; what is no number is written as a word.
pub proof fn law_hours_text_has_no_idle_zero(d: i64, e: i16)
    ensures
        ({
            let s = util::hours_text(Hours::Finite(d, e));
            let body = if d < 0 {
                s.skip(1)
            } else {
                s
            };
            &&& s.len() > 0
            &&& s[0] == '-' <==> d < 0
            &&& text_laws::no_leading_zero(body)
            &&& s.contains('.') ==> s.last() != '0' && s.last() != '.'
        }),
        util::hours_text(Hours::PosInfinity) == "inf"@,
        util::hours_text(Hours::NegInfinity) == "-inf"@,
        util::hours_text(Hours::NotANumber) == "NaN"@,
{
    reveal_strlit("-");
    let n = util::magnitude(d);
    let body = text::scaled(n, e as int);
    let s = util::hours_text(Hours::Finite(d, e));
    text_laws::law_scaled_has_no_idle_zero(n, e as int);
    text::law_scaled_reads_back(n, e as int);
    if d < 0 {
        assert(s.skip(1) =~= body);
        assert(s[0] == '-');
        assert(s.last() == body.last());
        if s.contains('.') {
            let i = choose|i: int| 0 <= i < s.len() && s[i] == '.';
            assert(body[i - 1] == '.');
        }
    } else {
        assert(s =~= body);
    }
}

/// The written span stands for `d * 10^e` hours, and shows a point exactly if that is no whole
/// number of them.
pub proof fn law_hours_text_says_the_hours(d: i64, e: i16)
    ensures
        util::hours_value(util::hours_text(Hours::Finite(d, e))) matches Some((m, k)) && if e >= 0 {
            m == d * power::pow(10, e as nat) * power::pow(10, k)
        } else {
            m * power::pow(10, (-e) as nat) == d * power::pow(10, k)
        },
        util::hours_text(Hours::Finite(d, e)).contains('.') <==> e < 0 && d as int % power::pow(
            10,
            (-e) as nat,
        ) != 0,
{
    util::law_hours_read_back(d, e);
    util::law_whole_hours_show_no_point(d, e);
    let (m, k) = util::hours_value(util::hours_text(Hours::Finite(d, e)))->0;
    text_laws::law_pow10_is_a_power(k);
    if e >= 0 {
        text_laws::law_pow10_is_a_power(e as nat);
    } else {
        text_laws::law_pow10_is_a_power((-e) as nat);
        let p = text::pow10((-e) as nat) as int;
        text::lemma_pow10_is_positive((-e) as nat);
        if d < 0 {
            lemma_negated_multiple(d as int, p);
        }
    }
}

proof fn lemma_negated_multiple(d: int, p: int)
    requires
        p > 0,
    ensures
        (-d) % p == 0 <==> d % p == 0,
{
    lemma_fundamental_div_mod(-d, p);
    lemma_fundamental_div_mod(d, p);
    if (-d) % p == 0 {
        let q = -((-d) / p);
        assert(d == q * p) by (nonlinear_arith)
            requires
                -d == p * ((-d) / p) + 0,
                q == -((-d) / p),
        ;
        lemma_mod_multiples_basic(q, p);
    }
    if d % p == 0 {
        let q = -(d / p);
        assert(-d == q * p) by (nonlinear_arith)
            requires
                d == p * (d / p) + 0,
                q == -(d / p),
        ;
        lemma_mod_multiples_basic(q, p);
    }
}

} // verus!
