//! Small shared helpers: work lists, wall-clock time, spans of hours, and how they are written.
//!
//! Time is counted in whole nanoseconds and a cutoff is a decimal number of hours, so that an
//! age is compared with a cutoff exactly. Floating point would round both first, which could put
//! an age within a microsecond of a cutoff on its other side.

use crate::text;
use std::collections::VecDeque;
use vstd::prelude::*;
use vstd::string::*;

verus! {

/// Nanoseconds in a second.
pub const SECOND: i128 = 1_000_000_000;

/// Nanoseconds in an hour.
pub const HOUR: i128 = 3_600_000_000_000;

/// Puts a plan before everything else there is to do.
pub(crate) fn put_first<T>(tasks: &mut VecDeque<T>, plan: Vec<T>)
    ensures
        final(tasks)@ == plan@ + old(tasks)@,
{
    let ghost whole = plan@;
    let ghost rest = tasks@;
    let mut plan = plan;
    assert(whole.skip(plan@.len() as int) + rest =~= rest);
    while plan.len() > 0
        invariant
            plan@ == whole.take(plan@.len() as int),
            plan@.len() <= whole.len(),
            tasks@ == whole.skip(plan@.len() as int) + rest,
        decreases plan@.len(),
    {
        let ghost n = plan@.len() as int;
        match plan.pop() {
            Some(task) => {
                tasks.push_front(task);
                assert(whole.skip(n - 1) =~= seq![task] + whole.skip(n));
                assert(tasks@ =~= whole.skip(n - 1) + rest);
                assert(plan@ =~= whole.take(n - 1));
            },
            None => {},
        }
    }
    assert(whole.skip(0) =~= whole);
}

/// A point in time as a stat gives it: seconds since the Unix epoch, and nanoseconds.
#[derive(Debug, Clone, Copy, PartialEq, Eq, Structural)]
pub struct Timestamp {
    pub secs: i64,
    pub nsecs: i64,
}

impl Timestamp {
    /// Nanoseconds since the Unix epoch.
    pub open spec fn ns(self) -> int {
        self.secs * SECOND + self.nsecs
    }

    /// Nanoseconds since the Unix epoch.
    pub fn nanos(self) -> (r: i128)
        ensures
            r == self.ns(),
            -0x1_0000_0000_0000_0000_0000_0000 < r < 0x1_0000_0000_0000_0000_0000_0000,
    {
        (self.secs as i128) * SECOND + (self.nsecs as i128)
    }

    /// Nanoseconds from `then` to `self`.
    pub fn since(self, then: Timestamp) -> (r: i128)
        ensures
            r == self.ns() - then.ns(),
            -0x2_0000_0000_0000_0000_0000_0000 < r < 0x2_0000_0000_0000_0000_0000_0000,
    {
        self.nanos() - then.nanos()
    }
}

/// The wall-clock time, given how long ago the clock says the Unix epoch was; the epoch
/// itself where the clock stands before it.
pub fn now(since_epoch: Option<Timestamp>) -> (r: Timestamp)
    ensures
        r == (match since_epoch {
            Some(t) => t,
            None => (Timestamp { secs: 0, nsecs: 0 }),
        }),
{
    match since_epoch {
        Some(t) => t,
        None => Timestamp { secs: 0, nsecs: 0 },
    }
}

/// A span of hours as a cutoff is given: a decimal number, or one of the three values that are
/// no number.
#[derive(Debug, Clone, Copy, PartialEq, Eq, Structural)]
pub enum Hours {
    /// These digits times ten to this power.
    Finite(i64, i16),
    PosInfinity,
    NegInfinity,
    NotANumber,
}

/// How one thing stands to another.
enum Side {
    Below,
    At,
    Past,
}

/// The side of `b` that `a` is on.
spec fn side_of(a: int, b: int) -> Side {
    if a < b {
        Side::Below
    } else if a == b {
        Side::At
    } else {
        Side::Past
    }
}

proof fn lemma_scaling_outgrows(a: int, n: nat)
    requires
        n > 0,
    ensures
        a >= 0 ==> a * text::pow10(n) >= 10 * a,
        a <= 0 ==> a * text::pow10(n) <= 10 * a,
{
    text::lemma_pow10_is_positive((n - 1) as nat);
    let p = text::pow10((n - 1) as nat);
    assert((a >= 0 ==> a * (10 * p) >= 10 * a) && (a <= 0 ==> a * (10 * p) <= 10 * a))
        by (nonlinear_arith)
        requires
            p >= 1,
    ;
}

/// The side of `b` that `a * 10^n` is on.
fn side_scaled(a: i128, n: u32, b: i128) -> (r: Side)
    ensures
        r == side_of(a * text::pow10(n as nat), b as int),
{
    let mut x: i128 = a;
    let mut k: u32 = n;
    while k > 0
        invariant
            k <= n,
            x * text::pow10(k as nat) == a * text::pow10(n as nat),
        decreases k,
    {
        proof {
            lemma_scaling_outgrows(x as int, k as nat);
        }
        if x > i128::MAX / 10 {
            return Side::Past;
        }
        if x < i128::MIN / 10 {
            return Side::Below;
        }
        assert((10 * x) * text::pow10((k - 1) as nat) == x * text::pow10(k as nat))
            by (nonlinear_arith)
            requires
                text::pow10(k as nat) == 10 * text::pow10((k - 1) as nat),
        ;
        x = 10 * x;
        k = k - 1;
    }
    assert(x * text::pow10(0) == x) by (nonlinear_arith)
        requires
            text::pow10(0) == 1,
    ;
    if x < b {
        Side::Below
    } else if x == b {
        Side::At
    } else {
        Side::Past
    }
}

/// The side of a span of `digits * 10^exponent` hours that an age in nanoseconds is on.
fn side_of_span(age: i128, digits: i64, exponent: i16) -> (r: Side)
    ensures
        r == side_of(scaled_age(age as int, exponent), scaled_span(digits, exponent)),
{
    let span: i128 = (digits as i128) * HOUR;
    assert(age * 1 == age && span * 1 == span);
    assert(text::pow10(0) == 1);
    if exponent >= 0 {
        match side_scaled(span, exponent as u32, age) {
            Side::Below => Side::Past,
            Side::At => Side::At,
            Side::Past => Side::Below,
        }
    } else {
        side_scaled(age, (-(exponent as i32)) as u32, span)
    }
}

/// An age in nanoseconds, in the unit in which a span with this exponent is a whole number.
pub open spec fn scaled_age(age: int, exponent: i16) -> int {
    if exponent < 0 {
        age * text::pow10((-exponent) as nat)
    } else {
        age
    }
}

/// A span of `digits * 10^exponent` hours, in that unit.
pub open spec fn scaled_span(digits: i64, exponent: i16) -> int {
    if exponent < 0 {
        digits * HOUR
    } else {
        digits * HOUR * text::pow10(exponent as nat)
    }
}

impl Hours {
    /// A whole number of hours.
    pub fn whole(hours: i32) -> (r: Hours)
        ensures
            r == Hours::Finite(hours as i64, 0),
    {
        Hours::Finite(hours as i64, 0)
    }

    /// The span is exactly so many nanoseconds.
    pub open spec fn lasts(self, ns: int) -> bool {
        match self {
            Hours::Finite(d, e) => scaled_age(ns, e) == scaled_span(d, e),
            _ => false,
        }
    }

    /// An age in nanoseconds is below this span. Nothing is below what is not a number.
    pub open spec fn above(self, age: int) -> bool {
        match self {
            Hours::Finite(d, e) => scaled_age(age, e) < scaled_span(d, e),
            Hours::PosInfinity => true,
            Hours::NegInfinity => false,
            Hours::NotANumber => false,
        }
    }

    /// An age in nanoseconds is this span or more. Nothing is as much as what is not a number.
    pub open spec fn reached(self, age: int) -> bool {
        match self {
            Hours::Finite(d, e) => scaled_age(age, e) >= scaled_span(d, e),
            Hours::PosInfinity => false,
            Hours::NegInfinity => true,
            Hours::NotANumber => false,
        }
    }

    /// An age in nanoseconds is more than this span. Nothing is more than what is not a
    /// number.
    pub open spec fn passed(self, age: int) -> bool {
        match self {
            Hours::Finite(d, e) => scaled_age(age, e) > scaled_span(d, e),
            Hours::PosInfinity => false,
            Hours::NegInfinity => true,
            Hours::NotANumber => false,
        }
    }

    /// Whether an age in nanoseconds is below this span.
    pub fn is_above(self, age: i128) -> (r: bool)
        ensures
            r == self.above(age as int),
    {
        match self {
            Hours::Finite(d, e) => matches!(side_of_span(age, d, e), Side::Below),
            Hours::PosInfinity => true,
            Hours::NegInfinity => false,
            Hours::NotANumber => false,
        }
    }

    /// Whether an age in nanoseconds is this span or more.
    pub fn is_reached(self, age: i128) -> (r: bool)
        ensures
            r == self.reached(age as int),
    {
        match self {
            Hours::Finite(d, e) => !matches!(side_of_span(age, d, e), Side::Below),
            Hours::PosInfinity => false,
            Hours::NegInfinity => true,
            Hours::NotANumber => false,
        }
    }

    /// Whether an age in nanoseconds is more than this span.
    pub fn is_passed(self, age: i128) -> (r: bool)
        ensures
            r == self.passed(age as int),
    {
        match self {
            Hours::Finite(d, e) => matches!(side_of_span(age, d, e), Side::Past),
            Hours::PosInfinity => false,
            Hours::NegInfinity => true,
            Hours::NotANumber => false,
        }
    }
}

/// A span of exactly so many nanoseconds is compared with an age as that number is.
pub proof fn law_spans_compare_exactly(span: Hours, ns: int, age: int)
    requires
        span.lasts(ns),
    ensures
        span.above(age) <==> age < ns,
        span.reached(age) <==> age >= ns,
        span.passed(age) <==> age > ns,
{
    match span {
        Hours::Finite(_, e) => {
            if e < 0 {
                let p = text::pow10((-e) as nat);
                text::lemma_pow10_is_positive((-e) as nat);
                assert((age < ns <==> age * p < ns * p) && (age > ns <==> age * p > ns * p))
                    by (nonlinear_arith)
                    requires
                        p > 0,
                ;
            }
        },
        _ => {},
    }
}

/// A span that an age has reached, or passed, is reached, or passed, by every greater age.
pub proof fn law_spans_stay_reached(span: Hours, age: int, later: int)
    requires
        age <= later,
    ensures
        span.reached(age) ==> span.reached(later),
        span.passed(age) ==> span.passed(later),
        span.above(later) ==> span.above(age),
{
    match span {
        Hours::Finite(_, e) => {
            if e < 0 {
                let p = text::pow10((-e) as nat);
                assert(age * p <= later * p) by (nonlinear_arith)
                    requires
                        age <= later,
                ;
            }
        },
        _ => {},
    }
}

/// An age in hours, with one digit behind the point: the exact quotient, rounded, a tie going to
/// the even digit. Floating point would round the quotient first, and so may show another last
/// digit of an age that lies on a tie, an odd number of 180 seconds.
pub open spec fn age_text(age: int) -> Seq<char> {
    if age < 0 {
        "-"@ + text::one_decimal((-age) as nat, HOUR as nat)
    } else {
        text::one_decimal(age as nat, HOUR as nat)
    }
}

/// An age in hours, with one digit behind the point.
pub(crate) fn fmt_age(age: i128) -> (r: String)
    requires
        -0x2_0000_0000_0000_0000_0000_0000 < age < 0x2_0000_0000_0000_0000_0000_0000,
    ensures
        r@ == age_text(age as int),
{
    if age < 0 {
        let mut r = "-".to_owned();
        r.append(text::one_decimal_text((-age) as u128, HOUR as u128).as_str());
        r
    } else {
        text::one_decimal_text(age as u128, HOUR as u128)
    }
}

/// The magnitude of a number of digits.
pub open spec fn magnitude(digits: i64) -> nat {
    if digits < 0 {
        (-digits) as nat
    } else {
        digits as nat
    }
}

/// A span of hours as it is written: a whole number without a point, any other without
/// trailing zeros.
pub open spec fn hours_text(h: Hours) -> Seq<char> {
    match h {
        Hours::Finite(d, e) => (if d < 0 {
            "-"@
        } else {
            seq![]
        }) + text::scaled(magnitude(d), e as int),
        Hours::PosInfinity => "inf"@,
        Hours::NegInfinity => "-inf"@,
        Hours::NotANumber => "NaN"@,
    }
}

/// Write a span of hours: a whole number renders without a decimal point (`48`, `1`), any
/// other without trailing zeros (`47.9`, `0.5`).
pub fn fmt_g(h: Hours) -> (r: String)
    ensures
        r@ == hours_text(h),
{
    match h {
        Hours::Finite(d, e) => {
            let n: u64 = if d < 0 {
                (-(d as i128)) as u64
            } else {
                d as u64
            };
            let mut r = if d < 0 {
                "-".to_owned()
            } else {
                String::new()
            };
            r.append(text::scaled_text(n, e).as_str());
            assert(r@ =~= hours_text(h));
            r
        },
        Hours::PosInfinity => "inf".to_owned(),
        Hours::NegInfinity => "-inf".to_owned(),
        Hours::NotANumber => "NaN".to_owned(),
    }
}

/// What a written span of hours stands for: a number `m`, and a number `k` of places behind the
/// point, for `m / 10^k` hours.
pub open spec fn hours_value(s: Seq<char>) -> Option<(int, nat)> {
    let digits = if s.len() > 0 && s[0] == '-' {
        s.skip(1)
    } else {
        s
    };
    match text::numeral(digits) {
        Some((value, places)) => if digits.len() > 0 && text::is_digit(digits[0]) {
            Some(
                (
                    if digits == s {
                        value as int
                    } else {
                        -value
                    },
                    match places {
                        Some(k) => k,
                        None => 0,
                    },
                ),
            )
        } else {
            None
        },
        None => None,
    }
}

/// Reading undoes writing, whatever the magnitude: a written span stands for the span itself.
pub proof fn law_hours_read_back(digits: i64, exponent: i16)
    ensures
        hours_value(hours_text(Hours::Finite(digits, exponent))) matches Some((m, k)) && if exponent
            >= 0 {
            m == digits * text::pow10(exponent as nat) * text::pow10(k)
        } else {
            m * text::pow10((-exponent) as nat) == digits * text::pow10(k)
        },
{
    let n = magnitude(digits);
    let body = text::scaled(n, exponent as int);
    let s = hours_text(Hours::Finite(digits, exponent));
    text::law_scaled_reads_back(n, exponent as int);
    reveal_strlit("-");
    let (value, places) = text::numeral(body)->0;
    let k = match places {
        Some(k) => k,
        None => 0,
    };
    if digits < 0 {
        assert(s.skip(1) =~= body);
        assert(s.len() == body.len() + 1);
        if exponent >= 0 {
            let p = text::pow10(exponent as nat);
            assert(-value == digits * p * text::pow10(k)) by (nonlinear_arith)
                requires
                    value == n * p * text::pow10(k),
                    n == -digits,
            ;
        } else {
            let p = text::pow10((-exponent) as nat);
            assert((-value) * p == digits * text::pow10(k)) by (nonlinear_arith)
                requires
                    value * p == n * text::pow10(k),
                    n == -digits,
            ;
        }
    } else {
        assert(s =~= body);
    }
}

/// A written span shows a point exactly if it is not a whole number of hours.
pub proof fn law_whole_hours_show_no_point(digits: i64, exponent: i16)
    ensures
        hours_text(Hours::Finite(digits, exponent)).contains('.') <==> !text::is_whole(
            magnitude(digits),
            exponent as int,
        ),
{
    let body = text::scaled(magnitude(digits), exponent as int);
    let s = hours_text(Hours::Finite(digits, exponent));
    text::law_scaled_reads_back(magnitude(digits), exponent as int);
    reveal_strlit("-");
    if digits < 0 {
        assert(s.skip(1) =~= body);
        if s.contains('.') {
            let i = choose|i: int| 0 <= i < s.len() && s[i] == '.';
            assert(body[i - 1] == '.');
        }
        if body.contains('.') {
            let i = choose|i: int| 0 <= i < body.len() && body[i] == '.';
            assert(s[i + 1] == '.');
        }
    } else {
        assert(s =~= body);
    }
}

} // verus!
