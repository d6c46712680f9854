//! Text as the reports need it: decimal numbers, one-decimal fractions, padding, and
//! the trimming and number parsing that reading small marker files calls for.

use vstd::arithmetic::div_mod::*;
use vstd::prelude::*;
use vstd::string::*;

verus! {

/// The character of one decimal digit.
pub open spec fn digit_char(d: int) -> char {
    (48 + d) as char
}

/// `n` in decimal, without leading zeros.
pub open spec fn decimal(n: nat) -> Seq<char>
    decreases n,
{
    if n < 10 {
        seq![digit_char(n as int)]
    } else {
        decimal(n / 10).push(digit_char((n % 10) as int))
    }
}

/// The text of one decimal digit.
pub(crate) fn digit(d: u8) -> (r: &'static str)
    requires
        d < 10,
    ensures
        r@ == seq![digit_char(d as int)],
{
    proof {
        reveal_strlit("0");
        reveal_strlit("1");
        reveal_strlit("2");
        reveal_strlit("3");
        reveal_strlit("4");
        reveal_strlit("5");
        reveal_strlit("6");
        reveal_strlit("7");
        reveal_strlit("8");
        reveal_strlit("9");
    }
    match d {
        0 => "0",
        1 => "1",
        2 => "2",
        3 => "3",
        4 => "4",
        5 => "5",
        6 => "6",
        7 => "7",
        8 => "8",
        _ => "9",
    }
}

/// `n` in decimal, without leading zeros.
pub fn decimal_text(n: u128) -> (r: String)
    ensures
        r@ == decimal(n as nat),
    decreases n,
{
    if n < 10 {
        digit(n as u8).to_owned()
    } else {
        let mut r = decimal_text(n / 10);
        r.append(digit((n % 10) as u8));
        assert(decimal((n / 10) as nat) + seq![digit_char((n % 10) as int)] =~= decimal(
            (n / 10) as nat,
        ).push(digit_char((n % 10) as int)));
        r
    }
}

/// Ten to the power `n`.
pub open spec fn pow10(n: nat) -> nat
    decreases n,
{
    if n == 0 {
        1
    } else {
        10 * pow10((n - 1) as nat)
    }
}

/// A power of ten is positive.
pub proof fn lemma_pow10_is_positive(n: nat)
    ensures
        pow10(n) > 0,
    decreases n,
{
    if n > 0 {
        lemma_pow10_is_positive((n - 1) as nat);
    }
}

/// `n` zeros.
pub open spec fn zeros(n: nat) -> Seq<char> {
    Seq::new(n, |i: int| '0')
}

/// `n / 10^k` with exactly `k` digits behind the point.
pub open spec fn fixed(n: nat, k: nat) -> Seq<char>
    decreases k,
{
    if k == 0 {
        decimal(n).push('.')
    } else {
        fixed(n / 10, (k - 1) as nat).push(digit_char((n % 10) as int))
    }
}

/// `n * 10^e` in decimal: a whole number without a point, any other without trailing zeros.
pub open spec fn scaled(n: nat, e: int) -> Seq<char>
    decreases -e,
{
    if n == 0 {
        decimal(0)
    } else if e >= 0 {
        decimal(n) + zeros(e as nat)
    } else if n % 10 == 0 {
        scaled(n / 10, e + 1)
    } else {
        fixed(n, (-e) as nat)
    }
}

/// `n` without its last `k` digits.
spec fn cut(n: nat, k: nat) -> nat
    decreases k,
{
    if k == 0 {
        n
    } else {
        cut(n, (k - 1) as nat) / 10
    }
}

/// `n / 10^k` with exactly `k` digits behind the point.
fn fixed_text(n: u64, k: u32) -> (r: String)
    ensures
        r@ == fixed(n as nat, k as nat),
{
    proof {
        reveal_strlit(".");
    }
    let mut tail: Vec<u8> = Vec::new();
    let mut left: u64 = n;
    let mut i: u32 = 0;
    while i < k
        invariant
            i <= k,
            left == cut(n as nat, i as nat),
            tail@.len() == i,
            forall|j: int|
                0 <= j < i ==> (#[trigger] tail@[j]) < 10 && tail@[j] == cut(n as nat, j as nat) % 10,
        decreases k - i,
    {
        tail.push((left % 10) as u8);
        left = left / 10;
        i = i + 1;
    }
    let mut r = decimal_text(left as u128);
    r.append(".");
    assert(r@ =~= fixed(left as nat, 0));
    while i > 0
        invariant
            i <= k,
            tail@.len() == k,
            forall|j: int|
                0 <= j < k ==> (#[trigger] tail@[j]) < 10 && tail@[j] == cut(n as nat, j as nat) % 10,
            r@ == fixed(cut(n as nat, i as nat), (k - i) as nat),
        decreases i,
    {
        i = i - 1;
        r.append(digit(tail[i as usize]));
        assert(r@ =~= fixed(cut(n as nat, i as nat), (k - i) as nat));
    }
    r
}

/// `n * 10^e` in decimal: a whole number without a point, any other without trailing zeros.
pub(crate) fn scaled_text(n: u64, e: i16) -> (r: String)
    ensures
        r@ == scaled(n as nat, e as int),
{
    proof {
        reveal_strlit("0");
    }
    if n == 0 {
        return decimal_text(0);
    }
    let mut n: u64 = n;
    let mut left: i32 = e as i32;
    let ghost whole = scaled(n as nat, e as int);
    while left < 0 && n % 10 == 0
        invariant
            n > 0,
            -0x8000 <= left < 0x8000,
            scaled(n as nat, left as int) == whole,
        decreases 0x8000 - left,
    {
        n = n / 10;
        left = left + 1;
    }
    if left < 0 {
        return fixed_text(n, (-left) as u32);
    }
    let mut r = decimal_text(n as u128);
    let mut i: i32 = 0;
    assert(r@ =~= decimal(n as nat) + zeros(0));
    while i < left
        invariant
            0 <= i <= left,
            "0"@ == seq!['0'],
            r@ == decimal(n as nat) + zeros(i as nat),
        decreases left - i,
    {
        r.append("0");
        i = i + 1;
        assert(r@ =~= decimal(n as nat) + zeros(i as nat));
    }
    r
}

/// The number that a run of digits with at most one point in it stands for, point aside, and
/// how many digits follow the point, if there is one.
pub open spec fn numeral(s: Seq<char>) -> Option<(nat, Option<nat>)>
    decreases s.len(),
{
    if s.len() == 0 {
        Some((0, None))
    } else {
        match numeral(s.drop_last()) {
            Some((value, places)) => if is_digit(s.last()) {
                Some(
                    (
                        (value * 10 + (s.last() as int - 48)) as nat,
                        match places {
                            Some(k) => Some(k + 1),
                            None => None,
                        },
                    ),
                )
            } else if s.last() == '.' && places is None {
                Some((value, Some(0)))
            } else {
                None
            },
            None => None,
        }
    }
}

pub(crate) proof fn lemma_decimal_is_numeral(n: nat)
    ensures
        numeral(decimal(n)) == Some((n, None::<nat>)),
        decimal(n).len() > 0,
        !decimal(n).contains('.'),
        is_digit(decimal(n)[0]),
    decreases n,
{
    let s = decimal(n);
    assert(numeral(Seq::<char>::empty()) == Some((0nat, None::<nat>)));
    if n < 10 {
        assert(s.drop_last() =~= Seq::<char>::empty());
    } else {
        lemma_decimal_is_numeral(n / 10);
        assert(s.drop_last() =~= decimal(n / 10));
        if s.contains('.') {
            let i = choose|i: int| 0 <= i < s.len() && s[i] == '.';
            if i < s.len() - 1 {
                assert(decimal(n / 10)[i] == '.');
            }
        }
    }
}

pub(crate) proof fn lemma_zeros_scale(n: nat, k: nat)
    ensures
        numeral(decimal(n) + zeros(k)) == Some((n * pow10(k), None::<nat>)),
        !(decimal(n) + zeros(k)).contains('.'),
    decreases k,
{
    let s = decimal(n) + zeros(k);
    lemma_decimal_is_numeral(n);
    if k == 0 {
        assert(s =~= decimal(n));
        assert(pow10(0) == 1);
        assert(n * 1 == n);
    } else {
        lemma_zeros_scale(n, (k - 1) as nat);
        assert(s.drop_last() =~= decimal(n) + zeros((k - 1) as nat));
        assert(n * pow10(k) == (n * pow10((k - 1) as nat)) * 10) by (nonlinear_arith)
            requires
                pow10(k) == 10 * pow10((k - 1) as nat),
        ;
        if s.contains('.') {
            let i = choose|i: int| 0 <= i < s.len() && s[i] == '.';
            if i < s.len() - 1 {
                assert(s.drop_last()[i] == '.');
            }
        }
    }
}

pub(crate) proof fn lemma_fixed_is_numeral(n: nat, k: nat)
    ensures
        numeral(fixed(n, k)) == Some((n, Some(k))),
        fixed(n, k).contains('.'),
        fixed(n, k).len() > 0,
        is_digit(fixed(n, k)[0]),
    decreases k,
{
    let s = fixed(n, k);
    if k == 0 {
        lemma_decimal_is_numeral(n);
        assert(s.drop_last() =~= decimal(n));
        assert(s.last() == '.');
    } else {
        lemma_fixed_is_numeral(n / 10, (k - 1) as nat);
        let before = fixed(n / 10, (k - 1) as nat);
        assert(s.drop_last() =~= before);
        let i = choose|i: int| 0 <= i < before.len() && before[i] == '.';
        assert(s[i] == '.');
    }
}

/// `n * 10^e` is a whole number.
pub open spec fn is_whole(n: nat, e: int) -> bool {
    e >= 0 || n % pow10((-e) as nat) == 0
}

/// A number written out reads back as itself, and shows a point exactly if it is not whole.
pub proof fn law_scaled_reads_back(n: nat, e: int)
    ensures
        scaled(n, e).len() > 0,
        is_digit(scaled(n, e)[0]),
        numeral(scaled(n, e)) matches Some((value, places)) && {
            let k = match places {
                Some(k) => k,
                None => 0,
            };
            if e >= 0 {
                value == n * pow10(e as nat) * pow10(k)
            } else {
                value * pow10((-e) as nat) == n * pow10(k)
            }
        },
        scaled(n, e).contains('.') <==> !is_whole(n, e),
    decreases -e,
{
    lemma_decimal_is_numeral(n);
    assert(pow10(0) == 1);
    if n == 0 {
        if e < 0 {
            lemma_pow10_is_positive((-e) as nat);
            assert(0 * pow10((-e) as nat) == 0);
        } else {
            assert(0 * pow10(e as nat) * pow10(0) == 0);
        }
    } else if e >= 0 {
        lemma_zeros_scale(n, e as nat);
        assert(n * pow10(e as nat) * 1 == n * pow10(e as nat));
    } else {
        let p = pow10((-e) as nat);
        let q = pow10((-e - 1) as nat);
        assert(p == 10 * q);
        lemma_pow10_is_positive((-e - 1) as nat);
        if n % 10 == 0 {
            law_scaled_reads_back(n / 10, e + 1);
            lemma_truncate_middle((n / 10) as int, 10, q as int);
            let (value, places) = numeral(scaled(n, e))->0;
            let k = match places {
                Some(k) => k,
                None => 0nat,
            };
            if e == -1 {
                assert((n / 10) * 1 * pow10(k) == value) by (nonlinear_arith)
                    requires
                        value == (n / 10) * pow10(0) * pow10(k),
                        pow10(0) == 1,
                ;
                assert(value * 10 == n * pow10(k)) by (nonlinear_arith)
                    requires
                        value == (n / 10) * 1 * pow10(k),
                        n == 10 * (n / 10),
                ;
                assert(q == 1);
            } else {
                assert(value * p == n * pow10(k)) by (nonlinear_arith)
                    requires
                        value * q == (n / 10) * pow10(k),
                        p == 10 * q,
                        n == 10 * (n / 10),
                ;
            }
        } else {
            lemma_fixed_is_numeral(n, (-e) as nat);
            if n % p == 0 {
                lemma_fundamental_div_mod(n as int, p as int);
                assert(n == 10 * (q * (n / p))) by (nonlinear_arith)
                    requires
                        n == p * (n / p) + 0,
                        p == 10 * q,
                ;
                assert(n % 10 == 0);
            }
        }
    }
}

/// `n / d` rounded to the nearest integer, a tie going to the even one.
pub open spec fn round_half_even(n: nat, d: nat) -> nat
    recommends
        d > 0,
{
    let q = n / d;
    let r = n % d;
    if 2 * r < d || (2 * r == d && q % 2 == 0) {
        q
    } else {
        q + 1
    }
}

/// `n / d` with one digit behind the point, a tie going to the even digit.
pub open spec fn one_decimal(n: nat, d: nat) -> Seq<char> {
    let tenths = round_half_even(10 * n, d);
    decimal(tenths / 10) + seq!['.', digit_char((tenths % 10) as int)]
}

/// `n / d` with one digit behind the point, a tie going to the even digit.
pub(crate) fn one_decimal_text(n: u128, d: u128) -> (r: String)
    requires
        d > 0,
        20 * d <= u128::MAX,
        20 * (n / d) <= u128::MAX,
    ensures
        r@ == one_decimal(n as nat, d as nat),
{
    let whole: u128 = n / d;
    let part: u128 = 10 * (n % d);
    assert(part / d < 10) by (nonlinear_arith)
        requires
            d > 0,
            part < 10 * d,
    ;
    let q: u128 = 10 * whole + part / d;
    let rest: u128 = part % d;
    proof {
        lemma_fundamental_div_mod(n as int, d as int);
        lemma_hoist_over_denominator(part as int, 10 * whole, d as nat);
        lemma_mod_multiples_vanish(10 * whole, part as int, d as int);
        assert(10 * n == part + (10 * whole) * d && 10 * n == d * (10 * whole) + part)
            by (nonlinear_arith)
            requires
                n == d * whole + n % d,
                part == 10 * (n % d),
        ;
    }
    if 2 * rest < d || (2 * rest == d && q % 2 == 0) {
        tenths_text(q)
    } else {
        tenths_text(q + 1)
    }
}

fn tenths_text(tenths: u128) -> (r: String)
    ensures
        r@ == decimal((tenths / 10) as nat) + seq!['.', digit_char((tenths % 10) as int)],
{
    proof {
        reveal_strlit(".");
    }
    let mut r = decimal_text(tenths / 10);
    r.append(".");
    r.append(digit((tenths % 10) as u8));
    assert(r@ =~= decimal((tenths / 10) as nat) + seq![
        '.',
        digit_char((tenths % 10) as int),
    ]);
    r
}

/// `n` blanks.
pub open spec fn blanks(n: nat) -> Seq<char> {
    Seq::new(n, |i: int| ' ')
}

/// `s` moved to the right edge of a column of `width` characters.
pub open spec fn right_aligned(s: Seq<char>, width: nat) -> Seq<char> {
    if s.len() < width {
        blanks((width - s.len()) as nat) + s
    } else {
        s
    }
}

/// `s` moved to the right edge of a column of `width` characters.
pub fn right_align(s: &str, width: usize) -> (r: String)
    ensures
        r@ == right_aligned(s@, width as nat),
{
    proof {
        reveal_strlit(" ");
    }
    let mut r = String::new();
    let len: usize = s.unicode_len();
    let mut i: usize = len;
    while i < width
        invariant
            len == s@.len(),
            len <= i,
            len < width ==> i <= width,
            len >= width ==> i == len,
            r@ == blanks((i - len) as nat),
            " "@ == seq![' '],
        decreases width - i,
    {
        r.append(" ");
        i = i + 1;
        assert(r@ =~= blanks((i - len) as nat));
    }
    r.append(s);
    assert(r@ =~= right_aligned(s@, width as nat));
    r
}

/// The characters with the Unicode property White_Space.
pub open spec fn white_space(c: char) -> bool {
    let n = c as int;
    ||| 0x9 <= n <= 0xd
    ||| n == 0x20
    ||| n == 0x85
    ||| n == 0xa0
    ||| n == 0x1680
    ||| 0x2000 <= n <= 0x200a
    ||| n == 0x2028
    ||| n == 0x2029
    ||| n == 0x202f
    ||| n == 0x205f
    ||| n == 0x3000
}

fn is_white_space(c: char) -> (r: bool)
    ensures
        r == white_space(c),
{
    let n: u32 = c as u32;
    (0x9 <= n && n <= 0xd) || n == 0x20 || n == 0x85 || n == 0xa0 || n == 0x1680 || (0x2000 <= n
        && n <= 0x200a) || n == 0x2028 || n == 0x2029 || n == 0x202f || n == 0x205f || n == 0x3000
}

/// How many white-space characters `s` starts with.
pub open spec fn leading_white(s: Seq<char>) -> nat
    decreases s.len(),
{
    if s.len() > 0 && white_space(s[0]) {
        1 + leading_white(s.skip(1))
    } else {
        0
    }
}

/// `s` without the white space at its two ends.
pub open spec fn trimmed(s: Seq<char>) -> Seq<char>
    decreases s.len(),
{
    if s.len() == 0 {
        s
    } else if white_space(s.last()) {
        trimmed(s.drop_last())
    } else {
        s.skip(leading_white(s) as int)
    }
}

proof fn lemma_leading_white(s: Seq<char>, i: int)
    requires
        0 <= i <= s.len(),
        forall|k: int| 0 <= k < i ==> white_space(s[k]),
        i < s.len() ==> !white_space(s[i]),
    ensures
        leading_white(s) == i,
    decreases i,
{
    if i > 0 {
        lemma_leading_white(s.skip(1), i - 1);
    }
}

/// `s` without the white space at its two ends.
pub fn trim(s: &str) -> (r: &str)
    ensures
        r@ == trimmed(s@),
{
    let len: usize = s.unicode_len();
    let mut end: usize = len;
    assert(s@.take(len as int) =~= s@);
    while end > 0 && is_white_space(s.get_char(end - 1))
        invariant
            len == s@.len(),
            end <= len,
            trimmed(s@) == trimmed(s@.take(end as int)),
        decreases end,
    {
        assert(s@.take(end as int).drop_last() =~= s@.take(end - 1));
        end = end - 1;
    }
    if end == 0 {
        return s.substring_char(0, 0);
    }
    let mut start: usize = 0;
    while start < end && is_white_space(s.get_char(start))
        invariant
            len == s@.len(),
            start <= end <= len,
            forall|k: int| 0 <= k < start ==> white_space(s@[k]),
        decreases end - start,
    {
        start = start + 1;
    }
    proof {
        lemma_leading_white(s@.take(end as int), start as int);
        assert(s@.take(end as int).skip(start as int) =~= s@.subrange(start as int, end as int));
    }
    s.substring_char(start, end)
}

/// An ASCII decimal digit.
pub open spec fn is_digit(c: char) -> bool {
    '0' <= c <= '9'
}

/// What a run of decimal digits counts.
pub open spec fn digits_value(s: Seq<char>) -> nat
    decreases s.len(),
{
    if s.len() == 0 {
        0
    } else {
        (digits_value(s.drop_last()) * 10 + (s.last() as int - 48)) as nat
    }
}

/// `s` without the sign it may start with.
pub open spec fn unsigned_part(s: Seq<char>) -> Seq<char> {
    if s.len() > 0 && (s[0] == '-' || s[0] == '+') {
        s.skip(1)
    } else {
        s
    }
}

/// `s` as a 32-bit integer: an optional sign and then nothing but digits, in range.
pub open spec fn integer_value(s: Seq<char>) -> Option<i32> {
    let negative = s.len() > 0 && s[0] == '-';
    let digits = unsigned_part(s);
    let value = if negative {
        -digits_value(digits)
    } else {
        digits_value(digits) as int
    };
    if digits.len() > 0 && (forall|i: int| 0 <= i < digits.len() ==> is_digit(digits[i]))
        && i32::MIN <= value <= i32::MAX {
        Some(value as i32)
    } else {
        None
    }
}

proof fn lemma_digits_value_grows(s: Seq<char>, k: int)
    requires
        0 <= k <= s.len(),
        forall|i: int| 0 <= i < s.len() ==> is_digit(s[i]),
    ensures
        digits_value(s.take(k)) <= digits_value(s),
    decreases s.len() - k,
{
    if k < s.len() {
        lemma_digits_value_grows(s, k + 1);
        assert(s.take(k + 1).drop_last() =~= s.take(k));
    } else {
        assert(s.take(k) =~= s);
    }
}

/// Reads `s` as a 32-bit integer.
pub fn parse_i32(s: &str) -> (r: Option<i32>)
    ensures
        r == integer_value(s@),
{
    if s.is_empty() {
        return None;
    }
    if !s.is_ascii() {
        proof {
            let w = choose|i: int| 0 <= i < s@.len() && !('\0' <= #[trigger] s@[i] <= '\u{7f}');
            assert(!is_digit(s@[w]));
            if s@[0] == '-' || s@[0] == '+' {
                assert(unsigned_part(s@)[w - 1] == s@[w]);
            }
        }
        return None;
    }
    let bytes: &[u8] = s.as_bytes();
    let negative: bool = bytes[0] == 45;
    let first: usize = if negative || bytes[0] == 43 {
        1
    } else {
        0
    };
    let ghost digits = s@.skip(first as int);
    proof {
        assert(s@.skip(0) =~= s@);
    }
    if first == bytes.len() {
        return None;
    }
    let mut i: usize = first;
    let mut value: i64 = 0;
    assert(digits.take(0) =~= Seq::<char>::empty());
    while i < bytes.len()
        invariant
            bytes@.len() == s@.len(),
            forall|k: int| 0 <= k < s@.len() ==> bytes@[k] as int == #[trigger] s@[k] as int,
            first <= i <= bytes.len(),
            first <= 1,
            digits == s@.skip(first as int),
            digits == unsigned_part(s@),
            digits.len() > 0,
            negative <==> s@[0] == '-',
            first == 1 <==> s@[0] == '-' || s@[0] == '+',
            s@.len() > 0,
            forall|k: int| 0 <= k < i - first ==> is_digit(digits[k]),
            0 <= value <= 2147483648,
            value == digits_value(digits.take(i - first)),
        decreases bytes.len() - i,
    {
        let b: u8 = bytes[i];
        assert(digits[i - first] == s@[i as int]);
        if b < 48 || b > 57 {
            assert(!is_digit(digits[i - first]));
            return None;
        }
        value = value * 10 + (b - 48) as i64;
        i = i + 1;
        assert(digits.take(i - first).drop_last() =~= digits.take(i - first - 1));
        if value > 2147483648 {
            proof {
                if forall|k: int| 0 <= k < digits.len() ==> is_digit(digits[k]) {
                    lemma_digits_value_grows(digits, i - first);
                }
            }
            return None;
        }
    }
    assert(digits.take(i - first) =~= digits);
    if negative {
        Some((-value) as i32)
    } else if value <= 2147483647 {
        Some(value as i32)
    } else {
        None
    }
}

} // verus!
