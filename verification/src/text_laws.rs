//! What the texts of [`crate::text`] are, told by what they read back as.

use crate::text;
use vstd::arithmetic::div_mod::*;
use vstd::arithmetic::power;
use vstd::prelude::*;

verus! {

/// A power of ten is a power of ten.
pub proof fn law_pow10_is_a_power(n: nat)
    ensures
        text::pow10(n) == power::pow(10, n),
    decreases n,
{
    reveal(power::pow);
    if n > 0 {
        law_pow10_is_a_power((n - 1) as nat);
    }
}

/// Nothing but decimal digits.
pub open spec fn all_digits(s: Seq<char>) -> bool {
    forall|i: int| 0 <= i < s.len() ==> '0' <= #[trigger] s[i] <= '9'
}

/// A number starts with no zero that could be left out.
pub open spec fn no_leading_zero(s: Seq<char>) -> bool {
    s.len() > 0 && (s[0] == '0' ==> s.len() == 1 || s[1] == '.')
}

/// A whole number in decimal is made of digits, has no leading zero, and reads back as itself.
pub proof fn law_decimal_reads_back(n: nat)
    ensures
        all_digits(text::decimal(n)),
        no_leading_zero(text::decimal(n)),
        text::numeral(text::decimal(n)) == Some((n, None::<nat>)),
    decreases n,
{
    text::lemma_decimal_is_numeral(n);
    let s = text::decimal(n);
    if n >= 10 {
        law_decimal_reads_back(n / 10);
        let before = text::decimal(n / 10);
        assert forall|i: int| 0 <= i < s.len() implies '0' <= #[trigger] s[i] <= '9' by {
            if i < before.len() {
                assert(s[i] == before[i]);
            }
        }
        lemma_decimal_starts_high(n);
    }
}

proof fn lemma_decimal_starts_high(n: nat)
    requires
        n > 0,
    ensures
        text::decimal(n).len() > 0,
        text::decimal(n)[0] != '0',
    decreases n,
{
    if n >= 10 {
        lemma_decimal_starts_high(n / 10);
    }
}

/// A quotient with one digit behind the point reads back as a number of tenths, which is the
/// nearest one to the quotient, and the even one of two that are equally near.
pub proof fn law_one_decimal_is_nearest(n: nat, d: nat) -> (tenths: nat)
    requires
        d > 0,
    ensures
        text::numeral(text::one_decimal(n, d)) == Some((tenths, Some(1nat))),
        no_leading_zero(text::one_decimal(n, d)),
        -d <= 2 * (10 * n - tenths * d) <= d,
        2 * (10 * n - tenths * d) == d || 2 * (10 * n - tenths * d) == -d ==> tenths % 2 == 0,
{
    let t = text::round_half_even(10 * n, d);
    let s = text::one_decimal(n, d);
    let whole = text::decimal(t / 10);
    law_decimal_reads_back(t / 10);
    assert(s.drop_last() =~= whole.push('.'));
    assert(s.drop_last().drop_last() =~= whole);
    assert(s.drop_last().last() == '.');
    assert(s.last() == text::digit_char((t % 10) as int));
    assert(text::numeral(s.drop_last()) == Some((t / 10, Some(0nat))));
    assert((t / 10) * 10 + t % 10 == t);
    assert(s[0] == whole[0]);
    assert(whole.len() == 1 ==> s[1] == '.');
    assert(whole.len() > 1 ==> s[1] == whole[1]);
    let q = ((10 * n) / d) as int;
    let r = ((10 * n) % d) as int;
    lemma_fundamental_div_mod((10 * n) as int, d as int);
    assert(d * q == q * d) by (nonlinear_arith);
    assert((q + 1) * d == q * d + d) by (nonlinear_arith);
    t
}

/// A text moved to the right edge of a column is the text behind blanks, and as wide as the
/// column, unless it is wider by itself.
pub proof fn law_right_aligned_ends_in_its_text(s: Seq<char>, width: nat)
    ensures
        text::right_aligned(s, width).len() == if s.len() < width {
            width
        } else {
            s.len()
        },
        s.is_suffix_of(text::right_aligned(s, width)),
        forall|i: int|
            0 <= i < text::right_aligned(s, width).len() - s.len() ==> #[trigger] text::right_aligned(
                s,
                width,
            )[i] == ' ',
{
    let r = text::right_aligned(s, width);
    assert(r.subrange(r.len() - s.len(), r.len() as int) =~= s);
}

/// White space is what Unicode calls so: these characters, and no others.
pub proof fn law_white_space_is_unicode(c: char)
    ensures
        text::white_space(c) <==> set![
            0x9int,
            0xa,
            0xb,
            0xc,
            0xd,
            0x20,
            0x85,
            0xa0,
            0x1680,
            0x2000,
            0x2001,
            0x2002,
            0x2003,
            0x2004,
            0x2005,
            0x2006,
            0x2007,
            0x2008,
            0x2009,
            0x200a,
            0x2028,
            0x2029,
            0x202f,
            0x205f,
            0x3000,
        ].contains(c as int),
{
}

proof fn lemma_leading_white_ends(s: Seq<char>)
    ensures
        text::leading_white(s) <= s.len(),
        forall|i: int| 0 <= i < text::leading_white(s) ==> text::white_space(#[trigger] s[i]),
        text::leading_white(s) < s.len() ==> !text::white_space(s[text::leading_white(s) as int]),
    decreases s.len(),
{
    if s.len() > 0 && text::white_space(s[0]) {
        let rest = s.skip(1);
        lemma_leading_white_ends(rest);
        assert forall|i: int| 0 <= i < text::leading_white(s) implies text::white_space(
            #[trigger] s[i],
        ) by {
            if i > 0 {
                assert(rest[i - 1] == s[i]);
            }
        }
    }
}

/// A trimmed text is a stretch of the text: what lies outside is white space, and its own first
/// and last characters are not.
pub proof fn law_trimmed_is_the_middle(s: Seq<char>) -> (ends: (int, int))
    ensures
        0 <= ends.0 <= ends.1 <= s.len(),
        text::trimmed(s) == s.subrange(ends.0, ends.1),
        forall|i: int| 0 <= i < ends.0 ==> text::white_space(#[trigger] s[i]),
        forall|i: int| ends.1 <= i < s.len() ==> text::white_space(#[trigger] s[i]),
        ends.0 < ends.1 ==> !text::white_space(s[ends.0]) && !text::white_space(s[ends.1 - 1]),
    decreases s.len(),
{
    if s.len() == 0 {
        assert(s.subrange(0, 0) =~= s);
        (0, 0)
    } else if text::white_space(s.last()) {
        let init = s.drop_last();
        let (a, b) = law_trimmed_is_the_middle(init);
        assert(init.subrange(a, b) =~= s.subrange(a, b));
        assert forall|i: int| 0 <= i < a implies text::white_space(#[trigger] s[i]) by {
            assert(init[i] == s[i]);
        }
        assert forall|i: int| b <= i < s.len() implies text::white_space(#[trigger] s[i]) by {
            if i < init.len() {
                assert(init[i] == s[i]);
            }
        }
        (a, b)
    } else {
        let a = text::leading_white(s) as int;
        lemma_leading_white_ends(s);
        assert(a < s.len());
        assert(s.skip(a) =~= s.subrange(a, s.len() as int));
        (a, s.len() as int)
    }
}

proof fn lemma_digits_are_numeral(s: Seq<char>)
    requires
        all_digits(s),
    ensures
        text::numeral(s) == Some((text::digits_value(s), None::<nat>)),
    decreases s.len(),
{
    if s.len() > 0 {
        let init = s.drop_last();
        assert forall|i: int| 0 <= i < init.len() implies '0' <= #[trigger] init[i] <= '9' by {
            assert(s[i] == init[i]);
        }
        assert(s[s.len() - 1] == s.last());
        lemma_digits_are_numeral(init);
    }
}

/// Digits count by tens: nothing counts nothing, and one digit more makes it ten times as much and
/// adds its own value.
pub proof fn law_digits_count_by_tens(s: Seq<char>, c: char)
    requires
        '0' <= c <= '9',
    ensures
        text::digits_value(seq![]) == 0,
        text::digits_value(s.push(c)) == 10 * text::digits_value(s) + (c as int - 48),
{
    assert(s.push(c).drop_last() =~= s);
}

/// A text is an integer exactly if it is digits behind at most one sign, and stands for what the
/// digits read as, if a 32-bit integer holds that.
pub proof fn law_integer_is_what_its_digits_say(s: Seq<char>)
    ensures
        ({
            let signed = s.len() > 0 && (s[0] == '-' || s[0] == '+');
            let digits = if signed {
                s.subrange(1, s.len() as int)
            } else {
                s
            };
            let read = match text::numeral(digits) {
                Some((v, _)) => if signed && s[0] == '-' {
                    -v
                } else {
                    v as int
                },
                None => 0,
            };
            if digits.len() > 0 && all_digits(digits) && -2_147_483_648 <= read <= 2_147_483_647 {
                text::integer_value(s) matches Some(v) && v == read
            } else {
                text::integer_value(s) is None
            }
        }),
{
    let signed = s.len() > 0 && (s[0] == '-' || s[0] == '+');
    let digits = if signed {
        s.subrange(1, s.len() as int)
    } else {
        s
    };
    assert(text::unsigned_part(s) =~= digits);
    if all_digits(digits) {
        lemma_digits_are_numeral(digits);
        assert(forall|i: int| 0 <= i < digits.len() ==> text::is_digit(digits[i]));
    } else {
        let i = choose|i: int| 0 <= i < digits.len() && !('0' <= #[trigger] digits[i] <= '9');
        assert(!text::is_digit(digits[i]));
    }
}

/// A number written out has no leading zero, and no trailing zero behind a point.
pub proof fn law_scaled_has_no_idle_zero(n: nat, e: int)
    ensures
        no_leading_zero(text::scaled(n, e)),
        text::scaled(n, e).contains('.') ==> text::scaled(n, e).last() != '0' && text::scaled(
            n,
            e,
        ).last() != '.',
    decreases -e,
{
    law_decimal_reads_back(n);
    law_decimal_reads_back(0);
    text::law_scaled_reads_back(n, e);
    if n == 0 {
    } else if e >= 0 {
        let s = text::decimal(n) + text::zeros(e as nat);
        lemma_decimal_starts_high(n);
        text::lemma_zeros_scale(n, e as nat);
        assert(s[0] == text::decimal(n)[0]);
    } else if n % 10 == 0 {
        law_scaled_has_no_idle_zero(n / 10, e + 1);
    } else {
        lemma_fixed_starts_well(n, (-e) as nat);
    }
}

proof fn lemma_fixed_starts_well(n: nat, k: nat)
    ensures
        text::fixed(n, k).len() >= 2,
        no_leading_zero(text::fixed(n, k)),
    decreases k,
{
    law_decimal_reads_back(n);
    if k == 0 {
        let s = text::fixed(n, 0);
        assert(s[0] == text::decimal(n)[0]);
        assert(text::decimal(n).len() == 1 ==> s[1] == '.');
    } else {
        lemma_fixed_starts_well(n / 10, (k - 1) as nat);
        let before = text::fixed(n / 10, (k - 1) as nat);
        assert(text::fixed(n, k)[0] == before[0]);
        assert(text::fixed(n, k)[1] == before[1]);
    }
}

/// The digits of a whole number in decimal stand at their places: the one that `i` others follow
/// counts so many times the power of ten with `i` zeros.
pub proof fn law_decimal_has_its_digits_in_place(n: nat, i: nat)
    requires
        i < text::decimal(n).len(),
    ensures
        text::decimal(n)[text::decimal(n).len() - 1 - i] as int == 48 + (n as int / power::pow(
            10,
            i,
        )) % 10,
    decreases i,
{
    reveal(power::pow);
    let s = text::decimal(n);
    if i == 0 {
        assert(power::pow(10, 0) == 1);
    } else {
        let before = text::decimal(n / 10);
        let j = (i - 1) as nat;
        law_decimal_has_its_digits_in_place(n / 10, j);
        assert(s[s.len() - 1 - i] == before[before.len() - 1 - j]);
        power::lemma_pow_positive(10, j);
        lemma_div_denominator(n as int, 10, power::pow(10, j));
        assert(power::pow(10, i) == 10 * power::pow(10, j));
    }
}

} // verus!
