//! Age thresholds: how long a project must have gone untouched before its
//! dependency folders count as reclaimable.
use vstd::prelude::*;
use vstd::string::*;

use crate::text;
use crate::text::{
    chars_equal, chars_of, decimal_u64, extend_chars, lowercased, parse_digits, slice_chars, string_of,
    trimmed,
};
use crate::time::TimeSpan;

verus! {

/// Seconds in one day.
pub open spec fn seconds_per_day() -> nat {
    86_400
}

/// A whole number of days.
#[derive(Debug, Clone, Copy, PartialEq, Eq, Structural, PartialOrd, Ord)]
pub struct AgeThreshold {
    days: u64,
}

/// Why an age text was refused.
#[derive(Debug, Clone, Copy, PartialEq, Eq, Structural)]
pub enum AgeError {
    Empty,
    NotNumber,
    Zero,
    BadUnit,
}

/// The message given for each refusal.
pub open spec fn age_error_message(e: AgeError) -> Seq<char> {
    match e {
        AgeError::Empty => "age must not be empty"@,
        AgeError::NotNumber => "age must start with a positive number"@,
        AgeError::Zero => "age must be greater than zero"@,
        AgeError::BadUnit => "age unit must be d, w, m, or y"@,
    }
}

/// Number of leading ASCII digits of `s`.
pub open spec fn digit_run(s: Seq<char>) -> nat
    decreases s.len(),
{
    if s.len() > 0 && text::is_ascii_digit(s[0]) {
        1 + digit_run(s.drop_first())
    } else {
        0
    }
}

/// Days per unit, for the units an age may carry.
pub open spec fn unit_factor(unit: Seq<char>) -> Option<nat> {
    if unit == ""@ || unit == "d"@ || unit == "day"@ || unit == "days"@ {
        Some(1)
    } else if unit == "w"@ || unit == "week"@ || unit == "weeks"@ {
        Some(7)
    } else if unit == "m"@ || unit == "mo"@ || unit == "month"@ || unit == "months"@ {
        Some(30)
    } else if unit == "y"@ || unit == "yr"@ || unit == "year"@ || unit == "years"@ {
        Some(365)
    } else {
        None
    }
}

/// The number of days an age text stands for: whitespace around it is ignored,
/// letters are read in any case, and a run of digits is followed by an optional unit.
pub open spec fn parse_age(raw: Seq<char>) -> Result<nat, AgeError> {
    let s = text::lower_seq(text::trim(raw));
    let number = s.take(digit_run(s) as int);
    let unit = s.skip(digit_run(s) as int);
    if s.len() == 0 {
        Err(AgeError::Empty)
    } else if number.len() == 0 || text::digits_value(number) > u64::MAX {
        Err(AgeError::NotNumber)
    } else if text::digits_value(number) == 0 {
        Err(AgeError::Zero)
    } else {
        match unit_factor(unit) {
            Some(f) => Ok(text::digits_value(number) * f),
            None => Err(AgeError::BadUnit),
        }
    }
}

/// The text is accepted but its number of days does not fit in a `u64`.
pub open spec fn parse_overflows(raw: Seq<char>) -> bool {
    match parse_age(raw) {
        Ok(d) => d > u64::MAX,
        Err(_) => false,
    }
}

/// The label of a number of days: `1y` for a year, otherwise the days and `d`.
pub open spec fn age_threshold_label(days: nat) -> Seq<char> {
    if days == 365 {
        "1y"@
    } else {
        text::decimal(days) + "d"@
    }
}

proof fn lemma_digit_run(s: Seq<char>)
    ensures
        digit_run(s) <= s.len(),
        forall|k: int| 0 <= k < digit_run(s) ==> text::is_ascii_digit(#[trigger] s[k]),
        digit_run(s) < s.len() ==> !text::is_ascii_digit(s[digit_run(s) as int]),
    decreases s.len(),
{
    if s.len() > 0 && text::is_ascii_digit(s[0]) {
        lemma_digit_run(s.drop_first());
        assert forall|k: int| 0 <= k < digit_run(s) implies text::is_ascii_digit(#[trigger] s[k]) by {
            if k > 0 {
                assert(s[k] == s.drop_first()[k - 1]);
            }
        }
        if digit_run(s) < s.len() {
            assert(s[digit_run(s) as int] == s.drop_first()[digit_run(s.drop_first()) as int]);
        }
    }
}

proof fn lemma_digit_run_is(s: Seq<char>, n: int)
    requires
        0 <= n <= s.len(),
        forall|k: int| 0 <= k < n ==> text::is_ascii_digit(#[trigger] s[k]),
        n < s.len() ==> !text::is_ascii_digit(s[n]),
    ensures
        digit_run(s) == n,
    decreases s.len(),
{
    if n > 0 {
        assert(text::is_ascii_digit(s[0]));
        assert forall|k: int| 0 <= k < n - 1 implies text::is_ascii_digit(#[trigger] s.drop_first()[k]) by {
            assert(s.drop_first()[k] == s[k + 1]);
        }
        if n - 1 < s.drop_first().len() {
            assert(s.drop_first()[n - 1] == s[n]);
        }
        lemma_digit_run_is(s.drop_first(), n - 1);
    }
}

/// Days per unit for a unit text, if it is one.
fn unit_days(unit: &Vec<char>) -> (r: Option<u64>)
    ensures
        match unit_factor(unit@) {
            Some(f) => r == Some(f as u64),
            None => r is None,
        },
{
    if unit.len() == 0 || chars_equal(unit, "d") || chars_equal(unit, "day") || chars_equal(unit, "days") {
        proof {
            if unit@.len() == 0 {
                assert(unit@ == ""@) by {
                    reveal_strlit("");
                }
            }
        }
        Some(1)
    } else if chars_equal(unit, "w") || chars_equal(unit, "week") || chars_equal(unit, "weeks") {
        proof {
            assert(unit@ != ""@) by {
                reveal_strlit("");
            }
        }
        Some(7)
    } else if chars_equal(unit, "m") || chars_equal(unit, "mo") || chars_equal(unit, "month")
        || chars_equal(unit, "months") {
        proof {
            assert(unit@ != ""@) by {
                reveal_strlit("");
            }
        }
        Some(30)
    } else if chars_equal(unit, "y") || chars_equal(unit, "yr") || chars_equal(unit, "year")
        || chars_equal(unit, "years") {
        proof {
            assert(unit@ != ""@) by {
                reveal_strlit("");
            }
        }
        Some(365)
    } else {
        proof {
            assert(unit@ != ""@) by {
                reveal_strlit("");
            }
        }
        None
    }
}

/// The number and the unit factor of an age text, or why it is refused.
fn age_parts(raw: &str) -> (r: Result<(u64, u64), AgeError>)
    ensures
        match parse_age(raw@) {
            Ok(d) => r matches Ok((v, f)) && v * f == d && f > 0,
            Err(e) => r == Err::<(u64, u64), AgeError>(e),
        },
{
    let chars = chars_of(raw);
    let t = trimmed(&chars);
    let s = lowercased(&t);
    if s.len() == 0 {
        return Err(AgeError::Empty);
    }
    let mut k: usize = 0;
    while k < s.len() && '0' <= s[k] && s[k] <= '9'
        invariant
            0 <= k <= s.len(),
            forall|j: int| 0 <= j < k ==> text::is_ascii_digit(#[trigger] s@[j]),
        decreases s.len() - k,
    {
        k = k + 1;
    }
    proof {
        lemma_digit_run_is(s@, k as int);
    }
    let number = slice_chars(&s, 0, k);
    let unit = slice_chars(&s, k, s.len());
    proof {
        assert(number@ =~= s@.take(k as int));
        assert(unit@ =~= s@.skip(k as int));
    }
    let value = match parse_digits(&number) {
        Some(v) => v,
        None => {
            return Err(AgeError::NotNumber);
        },
    };
    if value == 0 {
        return Err(AgeError::Zero);
    }
    match unit_days(&unit) {
        Some(f) => Ok((value, f)),
        None => Err(AgeError::BadUnit),
    }
}

impl AgeThreshold {
    /// The number of days.
    pub closed spec fn day_count(self) -> nat {
        self.days as nat
    }

    /// The threshold can be turned into seconds without overflow.
    pub open spec fn wf(self) -> bool {
        self.day_count() * seconds_per_day() <= u64::MAX
    }

    pub fn days(days: u64) -> (r: Self)
        ensures
            r.day_count() == days,
    {
        Self { days }
    }

    pub fn as_days(self) -> (r: u64)
        ensures
            r == self.day_count(),
    {
        self.days
    }

    /// The threshold as a length of time.
    pub fn as_duration(self) -> (r: TimeSpan)
        requires
            self.wf(),
        ensures
            r.wf(),
            r.secs == self.day_count() * seconds_per_day(),
            r.nanos == 0,
    {
        TimeSpan::from_secs(self.days * 24 * 60 * 60)
    }

    /// The four preset thresholds: a week, a month, a quarter and a year.
    pub fn presets() -> (r: [Self; 4])
        ensures
            r@.len() == 4,
            r@[0].day_count() == 7,
            r@[1].day_count() == 30,
            r@[2].day_count() == 90,
            r@[3].day_count() == 365,
    {
        [Self::days(7), Self::days(30), Self::days(90), Self::days(365)]
    }

    /// The short label of the threshold, such as `7d` or `1y`.
    pub fn label(self) -> (r: String)
        ensures
            r@ == age_threshold_label(self.day_count()),
    {
        if self.days == 365 {
            String::from_str("1y")
        } else {
            let mut v = decimal_u64(self.days);
            extend_chars(&mut v, "d");
            string_of(v.as_slice())
        }
    }

    /// Whether reading `raw` as an age would overflow a `u64` number of days.
    pub fn parse_overflows(raw: &str) -> (r: bool)
        ensures
            r == parse_overflows(raw@),
    {
        match age_parts(raw) {
            Ok((v, f)) => v.checked_mul(f).is_none(),
            Err(_) => false,
        }
    }

    /// Reads an age such as `7d`, `2w`, `3m`, `1y` or `45`.
    pub fn parse(raw: &str) -> (r: Result<Self, String>)
        requires
            !parse_overflows(raw@),
        ensures
            match parse_age(raw@) {
                Ok(d) => r matches Ok(t) && t.day_count() == d,
                Err(e) => r matches Err(m) && m@ == age_error_message(e),
            },
    {
        match age_parts(raw) {
            Ok((v, f)) => Ok(Self::days(v * f)),
            Err(e) => Err(
                match e {
                    AgeError::Empty => String::from_str("age must not be empty"),
                    AgeError::NotNumber => String::from_str("age must start with a positive number"),
                    AgeError::Zero => String::from_str("age must be greater than zero"),
                    AgeError::BadUnit => String::from_str("age unit must be d, w, m, or y"),
                },
            ),
        }
    }
}

/// Reading back the label of a threshold gives the same threshold.
pub proof fn lemma_label_parses_back(t: AgeThreshold)
    requires
        t.day_count() > 0,
    ensures
        parse_age(age_threshold_label(t.day_count())) == Ok::<nat, AgeError>(t.day_count()),
{
    let n = t.day_count();
    let l = age_threshold_label(n);
    reveal_strlit("1y");
    reveal_strlit("d");
    reveal_strlit("y");
    reveal_strlit("");
    let digits = if n == 365 { seq!['1'] } else { text::decimal(n) };
    let unit = if n == 365 { seq!['y'] } else { seq!['d'] };
    text::lemma_decimal(n);
    if n != 365 {
        assert(l =~= digits + unit);
    } else {
        assert(l =~= digits + unit);
        assert(text::digits_value(seq!['1']) == 1) by {
            assert(seq!['1'].drop_last() =~= Seq::<char>::empty());
            assert(text::digits_value(Seq::<char>::empty()) == 0);
        }
    }
    assert forall|k: int| 0 <= k < l.len() implies !text::is_ws(#[trigger] l[k]) && text::lower(l[k]) == l[k] by {
        if k < digits.len() {
            assert(l[k] == digits[k]);
        } else {
            assert(l[k] == unit[k - digits.len()]);
        }
    }
    text::lemma_lead_ws_is(l, 0);
    assert(l.skip(0) =~= l);
    text::lemma_trail_ws_is(l, 0);
    assert(text::trim(l) =~= l);
    assert(text::lower_seq(l) =~= l);
    assert forall|k: int| 0 <= k < digits.len() implies text::is_ascii_digit(#[trigger] l[k]) by {
        assert(l[k] == digits[k]);
    }
    assert(l[digits.len() as int] == unit[0]);
    lemma_digit_run_is(l, digits.len() as int);
    assert(l.take(digits.len() as int) =~= digits);
    assert(l.skip(digits.len() as int) =~= unit);
    let s = text::lower_seq(text::trim(l));
    assert(s == l);
    assert(digit_run(s) == digits.len());
    assert(s.take(digit_run(s) as int) == digits);
    assert(s.skip(digit_run(s) as int) == unit);
    reveal_strlit("day");
    reveal_strlit("days");
    reveal_strlit("w");
    reveal_strlit("week");
    reveal_strlit("weeks");
    reveal_strlit("m");
    reveal_strlit("mo");
    reveal_strlit("month");
    reveal_strlit("months");
    assert("d"@ =~= seq!['d']);
    assert("y"@ =~= seq!['y']);
    if n == 365 {
        assert(unit_factor(unit) == Some(365nat));
        assert(text::digits_value(digits) == 1);
    } else {
        assert(unit_factor(unit) == Some(1nat));
        assert(text::digits_value(digits) == n);
        assert(n <= u64::MAX);
    }
}

/// Reading a number followed by a lower-case unit, with nothing around them.
proof fn lemma_read_number_unit(d: Seq<char>, u: Seq<char>)
    requires
        d.len() > 0,
        forall|k: int| 0 <= k < d.len() ==> text::is_ascii_digit(#[trigger] d[k]),
        forall|k: int| 0 <= k < u.len() ==> 'a' <= #[trigger] u[k] && u[k] <= 'z',
        0 < text::digits_value(d) <= u64::MAX,
    ensures
        parse_age(d + u) == match unit_factor(u) {
            Some(f) => Ok::<nat, AgeError>(text::digits_value(d) * f),
            None => Err::<nat, AgeError>(AgeError::BadUnit),
        },
{
    let l = d + u;
    assert forall|k: int| 0 <= k < l.len() implies !text::is_ws(#[trigger] l[k]) && text::lower(l[k]) == l[k] by {
        if k < d.len() {
            assert(l[k] == d[k]);
        } else {
            assert(l[k] == u[k - d.len()]);
        }
    }
    text::lemma_lead_ws_is(l, 0);
    assert(l.skip(0) =~= l);
    text::lemma_trail_ws_is(l, 0);
    assert(text::trim(l) =~= l);
    assert(text::lower_seq(l) =~= l);
    assert forall|k: int| 0 <= k < d.len() implies text::is_ascii_digit(#[trigger] l[k]) by {
        assert(l[k] == d[k]);
    }
    if d.len() < l.len() {
        assert(l[d.len() as int] == u[0]);
    }
    lemma_digit_run_is(l, d.len() as int);
    assert(l.take(d.len() as int) =~= d);
    assert(l.skip(d.len() as int) =~= u);
}

proof fn lemma_unit_d()
    ensures
        unit_factor("d"@) == Some(1nat),
        forall|k: int| 0 <= k < "d"@.len() ==> 'a' <= #[trigger] "d"@[k] && "d"@[k] <= 'z',
{
    reveal_strlit("d");
    reveal_strlit("");
    assert("d"@.len() != ""@.len());
    assert("d"@ != ""@);
}

proof fn lemma_unit_day()
    ensures
        unit_factor("day"@) == Some(1nat),
        forall|k: int| 0 <= k < "day"@.len() ==> 'a' <= #[trigger] "day"@[k] && "day"@[k] <= 'z',
{
    reveal_strlit("day");
    reveal_strlit("");
    assert("day"@.len() != ""@.len());
    assert("day"@ != ""@);
    reveal_strlit("d");
    assert("day"@.len() != "d"@.len());
    assert("day"@ != "d"@);
}

proof fn lemma_unit_days()
    ensures
        unit_factor("days"@) == Some(1nat),
        forall|k: int| 0 <= k < "days"@.len() ==> 'a' <= #[trigger] "days"@[k] && "days"@[k] <= 'z',
{
    reveal_strlit("days");
    reveal_strlit("");
    assert("days"@.len() != ""@.len());
    assert("days"@ != ""@);
    reveal_strlit("d");
    assert("days"@.len() != "d"@.len());
    assert("days"@ != "d"@);
    reveal_strlit("day");
    assert("days"@.len() != "day"@.len());
    assert("days"@ != "day"@);
}

proof fn lemma_unit_w()
    ensures
        unit_factor("w"@) == Some(7nat),
        forall|k: int| 0 <= k < "w"@.len() ==> 'a' <= #[trigger] "w"@[k] && "w"@[k] <= 'z',
{
    reveal_strlit("w");
    reveal_strlit("");
    assert("w"@.len() != ""@.len());
    assert("w"@ != ""@);
    reveal_strlit("d");
    assert("w"@[0] != "d"@[0]);
    assert("w"@ != "d"@);
    reveal_strlit("day");
    assert("w"@.len() != "day"@.len());
    assert("w"@ != "day"@);
    reveal_strlit("days");
    assert("w"@.len() != "days"@.len());
    assert("w"@ != "days"@);
}

proof fn lemma_unit_week()
    ensures
        unit_factor("week"@) == Some(7nat),
        forall|k: int| 0 <= k < "week"@.len() ==> 'a' <= #[trigger] "week"@[k] && "week"@[k] <= 'z',
{
    reveal_strlit("week");
    reveal_strlit("");
    assert("week"@.len() != ""@.len());
    assert("week"@ != ""@);
    reveal_strlit("d");
    assert("week"@.len() != "d"@.len());
    assert("week"@ != "d"@);
    reveal_strlit("day");
    assert("week"@.len() != "day"@.len());
    assert("week"@ != "day"@);
    reveal_strlit("days");
    assert("week"@[0] != "days"@[0]);
    assert("week"@ != "days"@);
    reveal_strlit("w");
    assert("week"@.len() != "w"@.len());
    assert("week"@ != "w"@);
}

proof fn lemma_unit_weeks()
    ensures
        unit_factor("weeks"@) == Some(7nat),
        forall|k: int| 0 <= k < "weeks"@.len() ==> 'a' <= #[trigger] "weeks"@[k] && "weeks"@[k] <= 'z',
{
    reveal_strlit("weeks");
    reveal_strlit("");
    assert("weeks"@.len() != ""@.len());
    assert("weeks"@ != ""@);
    reveal_strlit("d");
    assert("weeks"@.len() != "d"@.len());
    assert("weeks"@ != "d"@);
    reveal_strlit("day");
    assert("weeks"@.len() != "day"@.len());
    assert("weeks"@ != "day"@);
    reveal_strlit("days");
    assert("weeks"@.len() != "days"@.len());
    assert("weeks"@ != "days"@);
    reveal_strlit("w");
    assert("weeks"@.len() != "w"@.len());
    assert("weeks"@ != "w"@);
    reveal_strlit("week");
    assert("weeks"@.len() != "week"@.len());
    assert("weeks"@ != "week"@);
}

proof fn lemma_unit_m()
    ensures
        unit_factor("m"@) == Some(30nat),
        forall|k: int| 0 <= k < "m"@.len() ==> 'a' <= #[trigger] "m"@[k] && "m"@[k] <= 'z',
{
    reveal_strlit("m");
    reveal_strlit("");
    assert("m"@.len() != ""@.len());
    assert("m"@ != ""@);
    reveal_strlit("d");
    assert("m"@[0] != "d"@[0]);
    assert("m"@ != "d"@);
    reveal_strlit("day");
    assert("m"@.len() != "day"@.len());
    assert("m"@ != "day"@);
    reveal_strlit("days");
    assert("m"@.len() != "days"@.len());
    assert("m"@ != "days"@);
    reveal_strlit("w");
    assert("m"@[0] != "w"@[0]);
    assert("m"@ != "w"@);
    reveal_strlit("week");
    assert("m"@.len() != "week"@.len());
    assert("m"@ != "week"@);
    reveal_strlit("weeks");
    assert("m"@.len() != "weeks"@.len());
    assert("m"@ != "weeks"@);
}

proof fn lemma_unit_mo()
    ensures
        unit_factor("mo"@) == Some(30nat),
        forall|k: int| 0 <= k < "mo"@.len() ==> 'a' <= #[trigger] "mo"@[k] && "mo"@[k] <= 'z',
{
    reveal_strlit("mo");
    reveal_strlit("");
    assert("mo"@.len() != ""@.len());
    assert("mo"@ != ""@);
    reveal_strlit("d");
    assert("mo"@.len() != "d"@.len());
    assert("mo"@ != "d"@);
    reveal_strlit("day");
    assert("mo"@.len() != "day"@.len());
    assert("mo"@ != "day"@);
    reveal_strlit("days");
    assert("mo"@.len() != "days"@.len());
    assert("mo"@ != "days"@);
    reveal_strlit("w");
    assert("mo"@.len() != "w"@.len());
    assert("mo"@ != "w"@);
    reveal_strlit("week");
    assert("mo"@.len() != "week"@.len());
    assert("mo"@ != "week"@);
    reveal_strlit("weeks");
    assert("mo"@.len() != "weeks"@.len());
    assert("mo"@ != "weeks"@);
    reveal_strlit("m");
    assert("mo"@.len() != "m"@.len());
    assert("mo"@ != "m"@);
}

proof fn lemma_unit_month()
    ensures
        unit_factor("month"@) == Some(30nat),
        forall|k: int| 0 <= k < "month"@.len() ==> 'a' <= #[trigger] "month"@[k] && "month"@[k] <= 'z',
{
    reveal_strlit("month");
    reveal_strlit("");
    assert("month"@.len() != ""@.len());
    assert("month"@ != ""@);
    reveal_strlit("d");
    assert("month"@.len() != "d"@.len());
    assert("month"@ != "d"@);
    reveal_strlit("day");
    assert("month"@.len() != "day"@.len());
    assert("month"@ != "day"@);
    reveal_strlit("days");
    assert("month"@.len() != "days"@.len());
    assert("month"@ != "days"@);
    reveal_strlit("w");
    assert("month"@.len() != "w"@.len());
    assert("month"@ != "w"@);
    reveal_strlit("week");
    assert("month"@.len() != "week"@.len());
    assert("month"@ != "week"@);
    reveal_strlit("weeks");
    assert("month"@[0] != "weeks"@[0]);
    assert("month"@ != "weeks"@);
    reveal_strlit("m");
    assert("month"@.len() != "m"@.len());
    assert("month"@ != "m"@);
    reveal_strlit("mo");
    assert("month"@.len() != "mo"@.len());
    assert("month"@ != "mo"@);
}

proof fn lemma_unit_months()
    ensures
        unit_factor("months"@) == Some(30nat),
        forall|k: int| 0 <= k < "months"@.len() ==> 'a' <= #[trigger] "months"@[k] && "months"@[k] <= 'z',
{
    reveal_strlit("months");
    reveal_strlit("");
    assert("months"@.len() != ""@.len());
    assert("months"@ != ""@);
    reveal_strlit("d");
    assert("months"@.len() != "d"@.len());
    assert("months"@ != "d"@);
    reveal_strlit("day");
    assert("months"@.len() != "day"@.len());
    assert("months"@ != "day"@);
    reveal_strlit("days");
    assert("months"@.len() != "days"@.len());
    assert("months"@ != "days"@);
    reveal_strlit("w");
    assert("months"@.len() != "w"@.len());
    assert("months"@ != "w"@);
    reveal_strlit("week");
    assert("months"@.len() != "week"@.len());
    assert("months"@ != "week"@);
    reveal_strlit("weeks");
    assert("months"@.len() != "weeks"@.len());
    assert("months"@ != "weeks"@);
    reveal_strlit("m");
    assert("months"@.len() != "m"@.len());
    assert("months"@ != "m"@);
    reveal_strlit("mo");
    assert("months"@.len() != "mo"@.len());
    assert("months"@ != "mo"@);
    reveal_strlit("month");
    assert("months"@.len() != "month"@.len());
    assert("months"@ != "month"@);
}

proof fn lemma_unit_y()
    ensures
        unit_factor("y"@) == Some(365nat),
        forall|k: int| 0 <= k < "y"@.len() ==> 'a' <= #[trigger] "y"@[k] && "y"@[k] <= 'z',
{
    reveal_strlit("y");
    reveal_strlit("");
    assert("y"@.len() != ""@.len());
    assert("y"@ != ""@);
    reveal_strlit("d");
    assert("y"@[0] != "d"@[0]);
    assert("y"@ != "d"@);
    reveal_strlit("day");
    assert("y"@.len() != "day"@.len());
    assert("y"@ != "day"@);
    reveal_strlit("days");
    assert("y"@.len() != "days"@.len());
    assert("y"@ != "days"@);
    reveal_strlit("w");
    assert("y"@[0] != "w"@[0]);
    assert("y"@ != "w"@);
    reveal_strlit("week");
    assert("y"@.len() != "week"@.len());
    assert("y"@ != "week"@);
    reveal_strlit("weeks");
    assert("y"@.len() != "weeks"@.len());
    assert("y"@ != "weeks"@);
    reveal_strlit("m");
    assert("y"@[0] != "m"@[0]);
    assert("y"@ != "m"@);
    reveal_strlit("mo");
    assert("y"@.len() != "mo"@.len());
    assert("y"@ != "mo"@);
    reveal_strlit("month");
    assert("y"@.len() != "month"@.len());
    assert("y"@ != "month"@);
    reveal_strlit("months");
    assert("y"@.len() != "months"@.len());
    assert("y"@ != "months"@);
}

proof fn lemma_unit_yr()
    ensures
        unit_factor("yr"@) == Some(365nat),
        forall|k: int| 0 <= k < "yr"@.len() ==> 'a' <= #[trigger] "yr"@[k] && "yr"@[k] <= 'z',
{
    reveal_strlit("yr");
    reveal_strlit("");
    assert("yr"@.len() != ""@.len());
    assert("yr"@ != ""@);
    reveal_strlit("d");
    assert("yr"@.len() != "d"@.len());
    assert("yr"@ != "d"@);
    reveal_strlit("day");
    assert("yr"@.len() != "day"@.len());
    assert("yr"@ != "day"@);
    reveal_strlit("days");
    assert("yr"@.len() != "days"@.len());
    assert("yr"@ != "days"@);
    reveal_strlit("w");
    assert("yr"@.len() != "w"@.len());
    assert("yr"@ != "w"@);
    reveal_strlit("week");
    assert("yr"@.len() != "week"@.len());
    assert("yr"@ != "week"@);
    reveal_strlit("weeks");
    assert("yr"@.len() != "weeks"@.len());
    assert("yr"@ != "weeks"@);
    reveal_strlit("m");
    assert("yr"@.len() != "m"@.len());
    assert("yr"@ != "m"@);
    reveal_strlit("mo");
    assert("yr"@[0] != "mo"@[0]);
    assert("yr"@ != "mo"@);
    reveal_strlit("month");
    assert("yr"@.len() != "month"@.len());
    assert("yr"@ != "month"@);
    reveal_strlit("months");
    assert("yr"@.len() != "months"@.len());
    assert("yr"@ != "months"@);
    reveal_strlit("y");
    assert("yr"@.len() != "y"@.len());
    assert("yr"@ != "y"@);
}

proof fn lemma_unit_year()
    ensures
        unit_factor("year"@) == Some(365nat),
        forall|k: int| 0 <= k < "year"@.len() ==> 'a' <= #[trigger] "year"@[k] && "year"@[k] <= 'z',
{
    reveal_strlit("year");
    reveal_strlit("");
    assert("year"@.len() != ""@.len());
    assert("year"@ != ""@);
    reveal_strlit("d");
    assert("year"@.len() != "d"@.len());
    assert("year"@ != "d"@);
    reveal_strlit("day");
    assert("year"@.len() != "day"@.len());
    assert("year"@ != "day"@);
    reveal_strlit("days");
    assert("year"@[0] != "days"@[0]);
    assert("year"@ != "days"@);
    reveal_strlit("w");
    assert("year"@.len() != "w"@.len());
    assert("year"@ != "w"@);
    reveal_strlit("week");
    assert("year"@[0] != "week"@[0]);
    assert("year"@ != "week"@);
    reveal_strlit("weeks");
    assert("year"@.len() != "weeks"@.len());
    assert("year"@ != "weeks"@);
    reveal_strlit("m");
    assert("year"@.len() != "m"@.len());
    assert("year"@ != "m"@);
    reveal_strlit("mo");
    assert("year"@.len() != "mo"@.len());
    assert("year"@ != "mo"@);
    reveal_strlit("month");
    assert("year"@.len() != "month"@.len());
    assert("year"@ != "month"@);
    reveal_strlit("months");
    assert("year"@.len() != "months"@.len());
    assert("year"@ != "months"@);
    reveal_strlit("y");
    assert("year"@.len() != "y"@.len());
    assert("year"@ != "y"@);
    reveal_strlit("yr");
    assert("year"@.len() != "yr"@.len());
    assert("year"@ != "yr"@);
}

proof fn lemma_unit_years()
    ensures
        unit_factor("years"@) == Some(365nat),
        forall|k: int| 0 <= k < "years"@.len() ==> 'a' <= #[trigger] "years"@[k] && "years"@[k] <= 'z',
{
    reveal_strlit("years");
    reveal_strlit("");
    assert("years"@.len() != ""@.len());
    assert("years"@ != ""@);
    reveal_strlit("d");
    assert("years"@.len() != "d"@.len());
    assert("years"@ != "d"@);
    reveal_strlit("day");
    assert("years"@.len() != "day"@.len());
    assert("years"@ != "day"@);
    reveal_strlit("days");
    assert("years"@.len() != "days"@.len());
    assert("years"@ != "days"@);
    reveal_strlit("w");
    assert("years"@.len() != "w"@.len());
    assert("years"@ != "w"@);
    reveal_strlit("week");
    assert("years"@.len() != "week"@.len());
    assert("years"@ != "week"@);
    reveal_strlit("weeks");
    assert("years"@[0] != "weeks"@[0]);
    assert("years"@ != "weeks"@);
    reveal_strlit("m");
    assert("years"@.len() != "m"@.len());
    assert("years"@ != "m"@);
    reveal_strlit("mo");
    assert("years"@.len() != "mo"@.len());
    assert("years"@ != "mo"@);
    reveal_strlit("month");
    assert("years"@[0] != "month"@[0]);
    assert("years"@ != "month"@);
    reveal_strlit("months");
    assert("years"@.len() != "months"@.len());
    assert("years"@ != "months"@);
    reveal_strlit("y");
    assert("years"@.len() != "y"@.len());
    assert("years"@ != "y"@);
    reveal_strlit("yr");
    assert("years"@.len() != "yr"@.len());
    assert("years"@ != "yr"@);
    reveal_strlit("year");
    assert("years"@.len() != "year"@.len());
    assert("years"@ != "year"@);
}

/// An age is a whole number followed by its unit: days by default or with `d`,
/// `day` or `days`; weeks of 7 days with `w`, `week` or `weeks`; months of 30 days
/// with `m`, `mo`, `month` or `months`; years of 365 days with `y`, `yr`, `year`
/// or `years`.
pub proof fn lemma_age_units(digits: Seq<char>)
    requires
        digits.len() > 0,
        forall|k: int| 0 <= k < digits.len() ==> text::is_ascii_digit(#[trigger] digits[k]),
        0 < text::digits_value(digits) <= u64::MAX,
    ensures
        parse_age(digits) == Ok::<nat, AgeError>(text::digits_value(digits)),
        parse_age(digits + "d"@) == Ok::<nat, AgeError>(1 * text::digits_value(digits)),
        parse_age(digits + "day"@) == Ok::<nat, AgeError>(1 * text::digits_value(digits)),
        parse_age(digits + "days"@) == Ok::<nat, AgeError>(1 * text::digits_value(digits)),
        parse_age(digits + "w"@) == Ok::<nat, AgeError>(7 * text::digits_value(digits)),
        parse_age(digits + "week"@) == Ok::<nat, AgeError>(7 * text::digits_value(digits)),
        parse_age(digits + "weeks"@) == Ok::<nat, AgeError>(7 * text::digits_value(digits)),
        parse_age(digits + "m"@) == Ok::<nat, AgeError>(30 * text::digits_value(digits)),
        parse_age(digits + "mo"@) == Ok::<nat, AgeError>(30 * text::digits_value(digits)),
        parse_age(digits + "month"@) == Ok::<nat, AgeError>(30 * text::digits_value(digits)),
        parse_age(digits + "months"@) == Ok::<nat, AgeError>(30 * text::digits_value(digits)),
        parse_age(digits + "y"@) == Ok::<nat, AgeError>(365 * text::digits_value(digits)),
        parse_age(digits + "yr"@) == Ok::<nat, AgeError>(365 * text::digits_value(digits)),
        parse_age(digits + "year"@) == Ok::<nat, AgeError>(365 * text::digits_value(digits)),
        parse_age(digits + "years"@) == Ok::<nat, AgeError>(365 * text::digits_value(digits)),
{
    assert(parse_age(digits) == Ok::<nat, AgeError>(text::digits_value(digits))) by {
        reveal_strlit("");
        assert(""@ =~= Seq::<char>::empty());
        lemma_read_number_unit(digits, Seq::<char>::empty());
        assert(digits + Seq::<char>::empty() =~= digits);
    }
    assert(parse_age(digits + "d"@) == Ok::<nat, AgeError>(1 * text::digits_value(digits))) by {
        lemma_unit_d();
        lemma_read_number_unit(digits, "d"@);
        assert(text::digits_value(digits) * 1 == 1 * text::digits_value(digits)) by (nonlinear_arith);
    }
    assert(parse_age(digits + "day"@) == Ok::<nat, AgeError>(1 * text::digits_value(digits))) by {
        lemma_unit_day();
        lemma_read_number_unit(digits, "day"@);
        assert(text::digits_value(digits) * 1 == 1 * text::digits_value(digits)) by (nonlinear_arith);
    }
    assert(parse_age(digits + "days"@) == Ok::<nat, AgeError>(1 * text::digits_value(digits))) by {
        lemma_unit_days();
        lemma_read_number_unit(digits, "days"@);
        assert(text::digits_value(digits) * 1 == 1 * text::digits_value(digits)) by (nonlinear_arith);
    }
    assert(parse_age(digits + "w"@) == Ok::<nat, AgeError>(7 * text::digits_value(digits))) by {
        lemma_unit_w();
        lemma_read_number_unit(digits, "w"@);
        assert(text::digits_value(digits) * 7 == 7 * text::digits_value(digits)) by (nonlinear_arith);
    }
    assert(parse_age(digits + "week"@) == Ok::<nat, AgeError>(7 * text::digits_value(digits))) by {
        lemma_unit_week();
        lemma_read_number_unit(digits, "week"@);
        assert(text::digits_value(digits) * 7 == 7 * text::digits_value(digits)) by (nonlinear_arith);
    }
    assert(parse_age(digits + "weeks"@) == Ok::<nat, AgeError>(7 * text::digits_value(digits))) by {
        lemma_unit_weeks();
        lemma_read_number_unit(digits, "weeks"@);
        assert(text::digits_value(digits) * 7 == 7 * text::digits_value(digits)) by (nonlinear_arith);
    }
    assert(parse_age(digits + "m"@) == Ok::<nat, AgeError>(30 * text::digits_value(digits))) by {
        lemma_unit_m();
        lemma_read_number_unit(digits, "m"@);
        assert(text::digits_value(digits) * 30 == 30 * text::digits_value(digits)) by (nonlinear_arith);
    }
    assert(parse_age(digits + "mo"@) == Ok::<nat, AgeError>(30 * text::digits_value(digits))) by {
        lemma_unit_mo();
        lemma_read_number_unit(digits, "mo"@);
        assert(text::digits_value(digits) * 30 == 30 * text::digits_value(digits)) by (nonlinear_arith);
    }
    assert(parse_age(digits + "month"@) == Ok::<nat, AgeError>(30 * text::digits_value(digits))) by {
        lemma_unit_month();
        lemma_read_number_unit(digits, "month"@);
        assert(text::digits_value(digits) * 30 == 30 * text::digits_value(digits)) by (nonlinear_arith);
    }
    assert(parse_age(digits + "months"@) == Ok::<nat, AgeError>(30 * text::digits_value(digits))) by {
        lemma_unit_months();
        lemma_read_number_unit(digits, "months"@);
        assert(text::digits_value(digits) * 30 == 30 * text::digits_value(digits)) by (nonlinear_arith);
    }
    assert(parse_age(digits + "y"@) == Ok::<nat, AgeError>(365 * text::digits_value(digits))) by {
        lemma_unit_y();
        lemma_read_number_unit(digits, "y"@);
        assert(text::digits_value(digits) * 365 == 365 * text::digits_value(digits)) by (nonlinear_arith);
    }
    assert(parse_age(digits + "yr"@) == Ok::<nat, AgeError>(365 * text::digits_value(digits))) by {
        lemma_unit_yr();
        lemma_read_number_unit(digits, "yr"@);
        assert(text::digits_value(digits) * 365 == 365 * text::digits_value(digits)) by (nonlinear_arith);
    }
    assert(parse_age(digits + "year"@) == Ok::<nat, AgeError>(365 * text::digits_value(digits))) by {
        lemma_unit_year();
        lemma_read_number_unit(digits, "year"@);
        assert(text::digits_value(digits) * 365 == 365 * text::digits_value(digits)) by (nonlinear_arith);
    }
    assert(parse_age(digits + "years"@) == Ok::<nat, AgeError>(365 * text::digits_value(digits))) by {
        lemma_unit_years();
        lemma_read_number_unit(digits, "years"@);
        assert(text::digits_value(digits) * 365 == 365 * text::digits_value(digits)) by (nonlinear_arith);
    }
}

} // verus!
