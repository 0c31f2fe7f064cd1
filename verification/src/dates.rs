//! Calendar dates as plain values, and the day-string resolver.
//!
//! A [`Date`] holds a proleptic-Gregorian year, month and day directly, so
//! every rule about it can be stated over integers.  Day arithmetic (the
//! bijection between dates and day numbers) is delegated to `chrono`.

use vstd::prelude::*;
use vstd::string::StrSliceExecFns;

verus! {

/// The day string could not be read as a date or as a day shift.
#[derive(Clone, Copy, PartialEq, Eq, Structural, Debug)]
pub struct ParseError;

/// Smallest year the library works with.
pub const MIN_YEAR: i32 = 1;

/// Largest year the library works with.
pub const MAX_YEAR: i32 = 9999;

/// A calendar date: year, month (1-12) and day of month (1-based).
#[derive(Clone, Copy, PartialEq, Eq, Structural, Debug)]
pub struct Date {
    pub year: i32,
    pub month: u8,
    pub day: u8,
}

/// A year has 366 days when divisible by 4, except century years not
/// divisible by 400.
pub open spec fn spec_is_leap_year(y: int) -> bool {
    (y % 4 == 0 && y % 100 != 0) || y % 400 == 0
}

/// Number of days in month `m` of year `y`.
pub open spec fn spec_days_in_month(y: int, m: int) -> int {
    if m == 2 {
        if spec_is_leap_year(y) {
            29
        } else {
            28
        }
    } else if m == 4 || m == 6 || m == 9 || m == 11 {
        30
    } else {
        31
    }
}

/// A well-formed calendar date within the supported year range.
pub open spec fn spec_valid_date(y: int, m: int, d: int) -> bool {
    &&& MIN_YEAR <= y <= MAX_YEAR
    &&& 1 <= m <= 12
    &&& 1 <= d <= spec_days_in_month(y, m)
}

impl Date {
    /// Validity of this date as a spec predicate.
    pub open spec fn valid(self) -> bool {
        spec_valid_date(self.year as int, self.month as int, self.day as int)
    }

    /// Construct a date from its three fields.
    pub fn new(year: i32, month: u8, day: u8) -> (r: Date)
        ensures
            r.year == year,
            r.month == month,
            r.day == day,
    {
        Date { year, month, day }
    }
}

/// Whether `y` is a leap year.
pub fn is_leap_year(y: i32) -> (r: bool)
    ensures
        r == spec_is_leap_year(y as int),
{
    (y % 4 == 0 && y % 100 != 0) || y % 400 == 0
}

/// Number of days in month `m` of year `y`.
pub fn days_in_month(y: i32, m: u8) -> (r: u8)
    ensures
        r as int == spec_days_in_month(y as int, m as int),
{
    if m == 2 {
        if is_leap_year(y) {
            29
        } else {
            28
        }
    } else if m == 4 || m == 6 || m == 9 || m == 11 {
        30
    } else {
        31
    }
}

/// Whether year `y`, month `m`, day `d` name a real calendar date in the
/// supported range.
pub fn is_valid_date(y: i32, m: u8, d: u8) -> (r: bool)
    ensures
        r == spec_valid_date(y as int, m as int, d as int),
{
    MIN_YEAR <= y && y <= MAX_YEAR && 1 <= m && m <= 12 && 1 <= d && d <= days_in_month(y, m)
}

/// A day string is read after turning the separators `/` and `.` into `-`.
pub open spec fn norm_char(c: char) -> char {
    if c == '/' || c == '.' {
        '-'
    } else {
        c
    }
}

/// The day string with its separators normalised.
pub open spec fn normd(s: Seq<char>) -> Seq<char> {
    s.map_values(|c: char| norm_char(c))
}

/// Whether `c` is a decimal digit.
pub open spec fn is_digit(c: char) -> bool {
    '0' as int <= c as int && c as int <= '9' as int
}

/// The value of the decimal digit `c`.
pub open spec fn digit_val(c: char) -> int {
    c as int - '0' as int
}

/// Whether every character of `s` is a decimal digit.
pub open spec fn all_digits(s: Seq<char>) -> bool {
    forall|i: int| 0 <= i < s.len() ==> is_digit(#[trigger] s[i])
}

/// The number written by the digit string `s`, most significant digit first.
pub open spec fn seq_to_int(s: Seq<char>) -> int
    decreases s.len(),
{
    if s.len() == 0 {
        0
    } else {
        seq_to_int(s.drop_last()) * 10 + digit_val(s.last())
    }
}

/// Index of the first `-` of `s` at or after `from`; `s.len()` if there is none.
pub open spec fn find_dash(s: Seq<char>, from: nat) -> nat
    decreases s.len() - from,
    when from <= s.len()
{
    if from >= s.len() {
        s.len()
    } else if s[from as int] == '-' {
        from
    } else {
        find_dash(s, from + 1)
    }
}

/// Ten to the `k`th power.
pub open spec fn pow10(k: nat) -> int
    decreases k,
{
    if k == 0 {
        1
    } else {
        10 * pow10((k - 1) as nat)
    }
}

proof fn lemma_pow10_small()
    ensures
        pow10(0) == 1,
        pow10(1) == 10,
        pow10(2) == 100,
        pow10(3) == 1000,
        pow10(4) == 10000,
        pow10(5) == 100000,
{
    reveal_with_fuel(pow10, 7);
}

/// A digit string of length `k` writes a number below `pow10(k)`.
proof fn lemma_seq_to_int_bound(s: Seq<char>)
    requires
        all_digits(s),
    ensures
        0 <= seq_to_int(s) < pow10(s.len()),
    decreases s.len(),
{
    if s.len() > 0 {
        assert(all_digits(s.drop_last()));
        lemma_seq_to_int_bound(s.drop_last());
    }
}

/// A digit string that does not start with `0` writes at least
/// `pow10(len - 1)`.
proof fn lemma_seq_to_int_lower(s: Seq<char>)
    requires
        all_digits(s),
        s.len() >= 1,
        digit_val(s[0]) >= 1,
    ensures
        seq_to_int(s) >= pow10((s.len() - 1) as nat),
    decreases s.len(),
{
    let dl = s.drop_last();
    assert(s.last() == s[s.len() - 1]);
    assert(is_digit(s[s.len() - 1]));
    if s.len() == 1 {
        assert(seq_to_int(dl) == 0);
        assert(seq_to_int(s) == digit_val(s.last()));
        assert(pow10(0) == 1);
    } else {
        assert(all_digits(dl));
        assert(dl[0] == s[0]);
        lemma_seq_to_int_lower(dl);
        let p = pow10((s.len() - 2) as nat);
        assert(seq_to_int(dl) >= p);
        assert(p >= 0) by {
            lemma_pow10_increases((s.len() - 2) as nat, (s.len() - 2) as nat);
        }
        assert(seq_to_int(dl) * 10 >= p * 10) by (nonlinear_arith)
            requires
                seq_to_int(dl) >= p,
                p >= 0,
        ;
        assert(pow10((s.len() - 1) as nat) == 10 * p);
        assert(seq_to_int(s) == seq_to_int(dl) * 10 + digit_val(s.last()));
        assert(digit_val(s.last()) >= 0);
    }
}

/// Leading zeroes do not change the number a digit string writes.
proof fn lemma_seq_to_int_skip_zeros(s: Seq<char>, k: int)
    requires
        0 <= k <= s.len(),
        forall|i: int| 0 <= i < k ==> digit_val(#[trigger] s[i]) == 0,
        all_digits(s),
    ensures
        seq_to_int(s) == seq_to_int(s.subrange(k, s.len() as int)),
    decreases s.len(),
{
    if s.len() == k {
        lemma_seq_to_int_all_zeros(s);
        assert(s.subrange(k, s.len() as int) =~= Seq::<char>::empty());
    } else if s.len() > 0 {
        let dl = s.drop_last();
        assert(all_digits(dl));
        lemma_seq_to_int_skip_zeros(dl, k);
        assert(dl.subrange(k, dl.len() as int) =~= s.subrange(k, s.len() as int).drop_last());
        assert(s.subrange(k, s.len() as int).last() == s.last());
    }
}

/// A digit string of zeroes writes zero.
proof fn lemma_seq_to_int_all_zeros(s: Seq<char>)
    requires
        forall|i: int| 0 <= i < s.len() ==> digit_val(#[trigger] s[i]) == 0,
    ensures
        seq_to_int(s) == 0,
    decreases s.len(),
{
    if s.len() > 0 {
        lemma_seq_to_int_all_zeros(s.drop_last());
    }
}

/// `find_dash` lands on `k` exactly when nothing before `k` is a dash and
/// `k` itself is one (or the end).
proof fn lemma_find_dash_is(s: Seq<char>, from: nat, k: nat)
    requires
        from <= k <= s.len(),
        forall|i: int| from <= i < k ==> s[i] != '-',
        k < s.len() ==> s[k as int] == '-',
    ensures
        find_dash(s, from) == k,
    decreases k - from,
{
    if from < k {
        lemma_find_dash_is(s, from + 1, k);
    }
}

/// Shape of a full `YYYY-MM-DD` string: three dash-separated digit runs of
/// 1-4, 1-2 and 1-2 digits.
pub open spec fn ymd_shape(n: Seq<char>) -> bool {
    let i = find_dash(n, 0);
    i < n.len() && 1 <= i <= 4 && {
        let j = find_dash(n, i + 1);
        j < n.len() && 1 <= j - i - 1 <= 2 && find_dash(n, j + 1) == n.len() && 1 <= n.len() - j
            - 1 <= 2 && all_digits(n.subrange(0, i as int)) && all_digits(
            n.subrange(i as int + 1, j as int),
        ) && all_digits(n.subrange(j as int + 1, n.len() as int))
    }
}

/// The date a `YYYY-MM-DD` string names (not yet checked for validity).
pub open spec fn ymd_date(n: Seq<char>) -> Date {
    let i = find_dash(n, 0);
    let j = find_dash(n, i + 1);
    Date {
        year: seq_to_int(n.subrange(0, i as int)) as i32,
        month: seq_to_int(n.subrange(i as int + 1, j as int)) as u8,
        day: seq_to_int(n.subrange(j as int + 1, n.len() as int)) as u8,
    }
}

/// The string reads as a full, valid `YYYY-MM-DD` date.
pub open spec fn ymd_ok(n: Seq<char>) -> bool {
    ymd_shape(n) && ymd_date(n).valid()
}

/// Shape of an `MM-DD` string: two dash-separated digit runs of 1-2 digits.
pub open spec fn md_shape(n: Seq<char>) -> bool {
    let i = find_dash(n, 0);
    i < n.len() && 1 <= i <= 2 && find_dash(n, i + 1) == n.len() && 1 <= n.len() - i - 1 <= 2
        && all_digits(n.subrange(0, i as int)) && all_digits(
        n.subrange(i as int + 1, n.len() as int),
    )
}

/// The date an `MM-DD` string names in the year of `today`.
pub open spec fn md_date(n: Seq<char>, today: Date) -> Date {
    let i = find_dash(n, 0);
    Date {
        year: today.year,
        month: seq_to_int(n.subrange(0, i as int)) as u8,
        day: seq_to_int(n.subrange(i as int + 1, n.len() as int)) as u8,
    }
}

/// The string reads as a valid `MM-DD` date of the current year.
pub open spec fn md_ok(n: Seq<char>, today: Date) -> bool {
    md_shape(n) && md_date(n, today).valid()
}

/// Shape of a bare `DD` string: one digit run of 1-2 digits.
pub open spec fn dom_shape(n: Seq<char>) -> bool {
    find_dash(n, 0) == n.len() && 1 <= n.len() <= 2 && all_digits(n)
}

/// The date a bare `DD` string names in the month of `today`.
pub open spec fn dom_date(n: Seq<char>, today: Date) -> Date {
    Date { year: today.year, month: today.month, day: seq_to_int(n) as u8 }
}

/// The string reads as a valid day of the current month.
pub open spec fn dom_ok(n: Seq<char>, today: Date) -> bool {
    dom_shape(n) && dom_date(n, today).valid()
}

/// The digit run of a signed day shift (the sign stripped).
pub open spec fn shift_digits(n: Seq<char>) -> Seq<char> {
    if n.len() >= 1 && (n[0] == '-' || n[0] == '+') {
        n.subrange(1, n.len() as int)
    } else {
        n
    }
}

/// The sign of a day shift string.
pub open spec fn shift_sign(n: Seq<char>) -> int {
    if n.len() >= 1 && n[0] == '-' {
        -1
    } else {
        1
    }
}

/// The string reads as an optionally signed run of digits.
pub open spec fn shift_shape(n: Seq<char>) -> bool {
    shift_digits(n).len() >= 1 && all_digits(shift_digits(n))
}

/// The signed number of days a shift string asks for.
pub open spec fn shift_val(n: Seq<char>) -> int {
    shift_sign(n) * seq_to_int(shift_digits(n))
}

/// The string reads as a day shift that a 16-bit count can hold, the range
/// the resolver accepts.
pub open spec fn shift_ok(n: Seq<char>) -> bool {
    shift_shape(n) && -32768 <= shift_val(n) <= 32767
}

/// The day number of a calendar date in the proleptic Gregorian calendar,
/// with January 1 of year 1 as day 1; it depends on the date alone.
/// The library never states which number belongs to which date: callers
/// reason only about differences and the round trip with [`day_from_number`].
pub uninterp spec fn day_num_of(y: int, m: int, d: int) -> int;

/// The day number of a [`Date`] value.
pub open spec fn day_num(d: Date) -> int {
    day_num_of(d.year as int, d.month as int, d.day as int)
}

/// Day number of the last supported date, December 31 of year 9999:
/// 9999 * 365 ordinary days plus the 2424 leap days of years 4, 8, ..., 9996.
pub const LAST_DAY_NUMBER: i64 = 3652059;

/// Relies on chrono's `NaiveDate::num_days_from_ce`, which counts the days
/// of a proleptic-Gregorian date with January 1 of year 1 as day 1; on the
/// supported years 1..=9999 that count runs from 1 (first supported day)
/// to [`LAST_DAY_NUMBER`] (the last one).
#[verifier::external_body]
fn day_number(d: &Date) -> (r: i64)
    requires
        d.valid(),
    ensures
        r == day_num_of(d.year as int, d.month as int, d.day as int),
        1 <= r <= LAST_DAY_NUMBER,
{
    chrono::NaiveDate::from_ymd_opt(d.year, d.month as u32, d.day as u32)
        .map(|nd| chrono::Datelike::num_days_from_ce(&nd) as i64)
        .unwrap_or(0)
}

/// Relies on chrono's `NaiveDate::from_num_days_from_ce_opt`, the inverse of
/// `num_days_from_ce`: for a day number between 1 and [`LAST_DAY_NUMBER`] it
/// returns the unique date of years 1..=9999 carrying that number.
#[verifier::external_body]
fn day_from_number(n: i64) -> (r: Date)
    requires
        1 <= n <= LAST_DAY_NUMBER,
    ensures
        r.valid(),
        day_num_of(r.year as int, r.month as int, r.day as int) == n,
{
    match chrono::NaiveDate::from_num_days_from_ce_opt(n as i32) {
        Some(nd) => Date {
            year: chrono::Datelike::year(&nd),
            month: chrono::Datelike::month(&nd) as u8,
            day: chrono::Datelike::day(&nd) as u8,
        },
        None => Date { year: 1, month: 1, day: 1 },
    }
}

/// Number of days from `a` to `b`, negative when `b` lies before `a`.
pub fn days_between(a: &Date, b: &Date) -> (r: i64)
    requires
        a.valid(),
        b.valid(),
    ensures
        r == day_num_of(b.year as int, b.month as int, b.day as int) - day_num_of(
            a.year as int,
            a.month as int,
            a.day as int,
        ),
        -(LAST_DAY_NUMBER - 1) <= r <= LAST_DAY_NUMBER - 1,
{
    day_number(b) - day_number(a)
}

/// The date `n` days after `d` (before, for negative `n`), or `None` when
/// the result would fall outside the supported years 1..=9999.
pub fn date_plus_days(d: &Date, n: i64) -> (r: Option<Date>)
    requires
        d.valid(),
        -4000000 <= n <= 4000000,
    ensures
        (r matches Some(e) ==> e.valid() && day_num_of(e.year as int, e.month as int, e.day as int)
            == day_num_of(d.year as int, d.month as int, d.day as int) + n),
        (r is None <==> !(1 <= day_num_of(d.year as int, d.month as int, d.day as int) + n
            <= LAST_DAY_NUMBER)),
{
    let base = day_number(d);
    let target = base + n;
    if 1 <= target && target <= LAST_DAY_NUMBER {
        Some(day_from_number(target))
    } else {
        None
    }
}

/// Character `i` of `s` with separators normalised.
fn norm_char_at(s: &str, i: usize) -> (c: char)
    requires
        i < s@.len(),
    ensures
        c == normd(s@)[i as int],
{
    let ch = s.get_char(i);
    if ch == '/' || ch == '.' {
        '-'
    } else {
        ch
    }
}

/// Index of the first (normalised) dash of `s` at or after `from`.
fn find_dash_exec(s: &str, from: usize) -> (r: usize)
    requires
        from <= s@.len(),
    ensures
        r == find_dash(normd(s@), from as nat),
        from <= r <= s@.len(),
{
    let ghost n = normd(s@);
    let len = s.unicode_len();
    let mut i = from;
    while i < len
        invariant
            from <= i <= len,
            len == s@.len(),
            n == normd(s@),
            find_dash(n, from as nat) == find_dash(n, i as nat),
        decreases len - i,
    {
        if norm_char_at(s, i) == '-' {
            proof {
                assert(find_dash(n, i as nat) == i);
            }
            return i;
        }
        proof {
            assert(find_dash(n, i as nat) == find_dash(n, (i + 1) as nat));
        }
        i = i + 1;
    }
    proof {
        assert(find_dash(n, i as nat) == n.len());
    }
    i
}

/// Whether characters `lo..hi` of `s` are all decimal digits.
fn all_digits_exec(s: &str, lo: usize, hi: usize) -> (r: bool)
    requires
        lo <= hi <= s@.len(),
    ensures
        r == all_digits(normd(s@).subrange(lo as int, hi as int)),
{
    let ghost n = normd(s@);
    let ghost seg = n.subrange(lo as int, hi as int);
    let mut i = lo;
    while i < hi
        invariant
            lo <= i <= hi <= s@.len(),
            n == normd(s@),
            seg == n.subrange(lo as int, hi as int),
            forall|k: int| 0 <= k < i - lo ==> is_digit(#[trigger] seg[k]),
        decreases hi - i,
    {
        let c = norm_char_at(s, i);
        let d = c as u32;
        if d < 48 || d > 57 {
            proof {
                assert(seg[i - lo] == n[i as int]);
                assert(!is_digit(seg[i - lo]));
            }
            return false;
        }
        proof {
            assert(seg[i - lo] == n[i as int]);
            assert(is_digit(seg[i - lo]));
        }
        i = i + 1;
    }
    true
}

/// The value of digit characters `lo..hi` of `s` (at most five of them).
fn parse_int_seg(s: &str, lo: usize, hi: usize) -> (r: u32)
    requires
        lo <= hi <= s@.len(),
        hi - lo <= 5,
        all_digits(normd(s@).subrange(lo as int, hi as int)),
    ensures
        r == seq_to_int(normd(s@).subrange(lo as int, hi as int)),
        r < 100000,
{
    let ghost n = normd(s@);
    let ghost seg = n.subrange(lo as int, hi as int);
    proof {
        lemma_pow10_small();
    }
    let mut acc: u32 = 0;
    let mut i = lo;
    while i < hi
        invariant
            lo <= i <= hi <= s@.len(),
            hi - lo <= 5,
            n == normd(s@),
            seg == n.subrange(lo as int, hi as int),
            all_digits(seg),
            acc == seq_to_int(n.subrange(lo as int, i as int)),
            acc < pow10((i - lo) as nat),
            pow10(5) == 100000,
        decreases hi - i,
    {
        let c = norm_char_at(s, i);
        proof {
            assert(seg[i - lo] == n[i as int]);
            assert(is_digit(c));
            assert(n.subrange(lo as int, i as int + 1).drop_last() =~= n.subrange(
                lo as int,
                i as int,
            ));
            assert(n.subrange(lo as int, i as int + 1).last() == n[i as int]);
            lemma_pow10_small();
            lemma_pow10_increases((i - lo) as nat, 4);
        }
        let d = (c as u32) - 48;
        acc = acc * 10 + d;
        i = i + 1;
    }
    proof {
        assert(n.subrange(lo as int, hi as int) == seg);
        lemma_pow10_increases((hi - lo) as nat, 5);
    }
    acc
}

/// Read a user-supplied day string, normalising `/` and `.` to `-` and
/// trying, in order: a full `YYYY-MM-DD` date; an `MM-DD` date of the
/// current year; a bare day of the current month; a signed day shift
/// relative to `today`.  Only when all four readings fail is the string
/// rejected.
#[verifier::rlimit(60)]
pub fn parse_day(day: &str, today: Date) -> (r: Result<Date, ParseError>)
    requires
        today.valid(),
    ensures
        ({
            let n = normd(day@);
            &&& ymd_ok(n) ==> r == Ok::<Date, ParseError>(ymd_date(n))
            &&& !ymd_ok(n) && md_ok(n, today) ==> r == Ok::<Date, ParseError>(md_date(n, today))
            &&& !ymd_ok(n) && !md_ok(n, today) && dom_ok(n, today) ==> r == Ok::<
                Date,
                ParseError,
            >(dom_date(n, today))
            &&& !ymd_ok(n) && !md_ok(n, today) && !dom_ok(n, today) && shift_ok(n) ==> ({
                let t = day_num_of(today.year as int, today.month as int, today.day as int)
                    + shift_val(n);
                &&& (1 <= t <= LAST_DAY_NUMBER ==> (r matches Ok(e) && e.valid() && day_num_of(
                    e.year as int,
                    e.month as int,
                    e.day as int,
                ) == t))
                &&& (!(1 <= t <= LAST_DAY_NUMBER) ==> r is Err)
            })
            &&& !ymd_ok(n) && !md_ok(n, today) && !dom_ok(n, today) && !shift_ok(n) ==> r is Err
        }),
{
    let ghost n = normd(day@);
    proof {
        lemma_pow10_small();
    }
    let len = day.unicode_len();
    let i = find_dash_exec(day, 0);
    if i < len {
        let j = find_dash_exec(day, i + 1);
        if j < len {
            // three or more runs: only a full date can match
            let k = find_dash_exec(day, j + 1);
            if k == len && 1 <= i && i <= 4 && i + 2 <= j && j <= i + 3 && j + 2 <= len && len <= j
                + 3 && all_digits_exec(day, 0, i) && all_digits_exec(day, i + 1, j)
                && all_digits_exec(day, j + 1, len) {
                let y = parse_int_seg(day, 0, i);
                let m = parse_int_seg(day, i + 1, j);
                let d = parse_int_seg(day, j + 1, len);
                proof {
                    lemma_seq_to_int_bound(n.subrange(0, i as int));
                    lemma_seq_to_int_bound(n.subrange(i as int + 1, j as int));
                    lemma_seq_to_int_bound(n.subrange(j as int + 1, n.len() as int));
                    lemma_pow10_increases(i as nat, 4);
                    lemma_pow10_increases((j - i - 1) as nat, 2);
                    lemma_pow10_increases((len - j - 1) as nat, 2);
                }
                if is_valid_date(y as i32, m as u8, d as u8) {
                    return Ok(Date { year: y as i32, month: m as u8, day: d as u8 });
                }
            }
        } else {
            // exactly two runs: month and day of the current year
            if 1 <= i && i <= 2 && i + 2 <= len && len <= i + 3 && all_digits_exec(day, 0, i)
                && all_digits_exec(day, i + 1, len) {
                let m = parse_int_seg(day, 0, i);
                let d = parse_int_seg(day, i + 1, len);
                proof {
                    lemma_seq_to_int_bound(n.subrange(0, i as int));
                    lemma_seq_to_int_bound(n.subrange(i as int + 1, n.len() as int));
                    lemma_pow10_increases(i as nat, 2);
                    lemma_pow10_increases((len - i - 1) as nat, 2);
                }
                if is_valid_date(today.year, m as u8, d as u8) {
                    return Ok(Date { year: today.year, month: m as u8, day: d as u8 });
                }
            }
        }
    } else {
        // a single run: a day of the current month
        if 1 <= len && len <= 2 && all_digits_exec(day, 0, len) {
            let d = parse_int_seg(day, 0, len);
            proof {
                assert(n.subrange(0, n.len() as int) =~= n);
                lemma_seq_to_int_bound(n);
                lemma_pow10_increases(len as nat, 2);
            }
            if is_valid_date(today.year, today.month, d as u8) {
                return Ok(Date { year: today.year, month: today.month, day: d as u8 });
            }
        }
    }
    // fall back to a signed day shift
    let ghost sd = shift_digits(n);
    let mut neg = false;
    let mut dstart: usize = 0;
    if len >= 1 {
        let c0 = norm_char_at(day, 0);
        if c0 == '-' {
            neg = true;
            dstart = 1;
        } else if c0 == '+' {
            dstart = 1;
        }
    }
    proof {
        assert(sd =~= n.subrange(dstart as int, n.len() as int));
    }
    if dstart >= len {
        return Err(ParseError);
    }
    if !all_digits_exec(day, dstart, len) {
        return Err(ParseError);
    }
    let mut z = dstart;
    while z < len && norm_char_at(day, z) == '0'
        invariant
            dstart <= z <= len,
            len == n.len(),
            n == normd(day@),
            all_digits(sd),
            sd == n.subrange(dstart as int, n.len() as int),
            forall|q: int| dstart <= q < z ==> digit_val(#[trigger] n[q]) == 0,
        decreases len - z,
    {
        z = z + 1;
    }
    proof {
        lemma_seq_to_int_skip_zeros(sd, z - dstart);
        assert(sd.subrange(z - dstart, sd.len() as int) =~= n.subrange(z as int, n.len() as int));
    }
    if len - z > 5 {
        proof {
            let eff = n.subrange(z as int, n.len() as int);
            assert(eff[0] == sd[z - dstart]);
            assert(is_digit(eff[0]));
            assert(eff[0] != '0');
            assert(eff[0] as int != '0' as int);
            assert(digit_val(eff[0]) != 0);
            lemma_seq_to_int_lower(eff);
            lemma_pow10_increases(5, (eff.len() - 1) as nat);
            lemma_pow10_small();
            assert(seq_to_int(eff) >= 100000);
            assert(seq_to_int(sd) >= 100000);
            assert(shift_sign(n) == 1 || shift_sign(n) == -1);
            if shift_sign(n) == 1 {
                assert(shift_val(n) >= 100000);
            } else {
                assert(shift_val(n) <= -100000);
            }
            assert(!shift_ok(n));
        }
        return Err(ParseError);
    }
    let mag = parse_int_seg(day, z, len);
    let sval: i64 = if neg {
        -(mag as i64)
    } else {
        mag as i64
    };
    if sval < -32768 || sval > 32767 {
        return Err(ParseError);
    }
    match date_plus_days(&today, sval) {
        Some(e) => Ok(e),
        None => Err(ParseError),
    }
}

/// A date written out as `YYYY-MM-DD`, each part zero-padded.
pub open spec fn format_ymd_spec(d: Date) -> Seq<char> {
    crate::text::two_digit_of(d.year as int / 100) + crate::text::two_digit_of(d.year as int % 100)
        + seq!['-'] + crate::text::two_digit_of(d.month as int) + seq!['-']
        + crate::text::two_digit_of(d.day as int)
}

/// Write a date as `YYYY-MM-DD`.
pub fn format_ymd(d: &Date) -> (r: String)
    requires
        d.valid(),
    ensures
        r@ == format_ymd_spec(*d),
{
    let y = d.year;
    let r = crate::text::two_digit((y / 100) as u8).concat(
        crate::text::two_digit((y % 100) as u8).as_str(),
    ).concat("-").concat(crate::text::two_digit(d.month).as_str()).concat("-").concat(
        crate::text::two_digit(d.day).as_str(),
    );
    proof {
        reveal_strlit("-");
        assert(r@ =~= format_ymd_spec(*d));
    }
    r
}

proof fn lemma_digit_char_val(v: int)
    requires
        0 <= v <= 9,
    ensures
        is_digit(crate::text::digit_char(v)),
        digit_val(crate::text::digit_char(v)) == v,
{
}

proof fn lemma_seq_to_int_pair(a: char, b: char)
    ensures
        seq_to_int(seq![a, b]) == digit_val(a) * 10 + digit_val(b),
{
    let s = seq![a, b];
    assert(s.drop_last() =~= seq![a]);
    assert(seq![a].drop_last() =~= Seq::<char>::empty());
    assert(seq_to_int(Seq::<char>::empty()) == 0);
    assert(seq![a].last() == a);
    assert(seq_to_int(seq![a]) == digit_val(a));
    assert(s.last() == b);
    assert(seq_to_int(s) == seq_to_int(seq![a]) * 10 + digit_val(b));
}

/// Reading a formatted date back yields the date itself: the full
/// `YYYY-MM-DD` reading of `parse_day` accepts every formatted valid
/// date, so formatting and parsing round-trip.
pub proof fn lemma_parse_format_round_trip(d: Date)
    requires
        d.valid(),
    ensures
        ({
            let n = normd(format_ymd_spec(d));
            &&& ymd_ok(n)
            &&& ymd_date(n) == d
        }),
{
    let f = format_ymd_spec(d);
    let y = d.year as int;
    let mo = d.month as int;
    let da = d.day as int;
    lemma_digit_char_val(y / 100 / 10);
    lemma_digit_char_val(y / 100 % 10);
    lemma_digit_char_val(y % 100 / 10);
    lemma_digit_char_val(y % 100 % 10);
    lemma_digit_char_val(mo / 10);
    lemma_digit_char_val(mo % 10);
    lemma_digit_char_val(da / 10);
    lemma_digit_char_val(da % 10);
    assert(f.len() == 10);
    assert(f[4] == '-' && f[7] == '-');
    assert(is_digit(f[0]) && is_digit(f[1]) && is_digit(f[2]) && is_digit(f[3]) && is_digit(f[5])
        && is_digit(f[6]) && is_digit(f[8]) && is_digit(f[9]));
    let n = normd(f);
    assert(n =~= f) by {
        assert forall|i: int| 0 <= i < f.len() implies norm_char(f[i]) == f[i] by {
            if i != 4 && i != 7 {
                assert(is_digit(f[i]));
            }
        }
    }
    lemma_find_dash_is(n, 0, 4);
    lemma_find_dash_is(n, 5, 7);
    lemma_find_dash_is(n, 8, 10);
    let ys = n.subrange(0, 4);
    let ms = n.subrange(5, 7);
    let ds = n.subrange(8, 10);
    assert(seq_to_int(ys) == y) by {
        assert(ys.drop_last() =~= seq![f[0], f[1], f[2]]);
        assert(seq![f[0], f[1], f[2]].drop_last() =~= seq![f[0], f[1]]);
        lemma_seq_to_int_pair(f[0], f[1]);
        assert(seq_to_int(seq![f[0], f[1]]) == y / 100);
        assert(seq_to_int(seq![f[0], f[1], f[2]]) == (y / 100) * 10 + y % 100 / 10);
        assert(seq_to_int(ys) == ((y / 100) * 10 + y % 100 / 10) * 10 + y % 100 % 10);
        assert(((y / 100) * 10 + y % 100 / 10) * 10 + y % 100 % 10 == (y / 100) * 100 + y % 100);
        assert((y / 100) * 100 + y % 100 == y);
    }
    assert(seq_to_int(ms) == mo) by {
        assert(ms =~= seq![f[5], f[6]]);
        lemma_seq_to_int_pair(f[5], f[6]);
    }
    assert(seq_to_int(ds) == da) by {
        assert(ds =~= seq![f[8], f[9]]);
        lemma_seq_to_int_pair(f[8], f[9]);
    }
    assert(all_digits(ys));
    assert(all_digits(ms));
    assert(all_digits(ds));
    assert(ymd_shape(n));
    assert(ymd_date(n) == d);
}

proof fn lemma_pow10_increases(a: nat, b: nat)
    requires
        a <= b,
    ensures
        1 <= pow10(a) <= pow10(b),
    decreases b,
{
    if a == b {
        if a > 0 {
            lemma_pow10_increases((a - 1) as nat, (b - 1) as nat);
        }
    } else {
        lemma_pow10_increases(a, (b - 1) as nat);
        assert(pow10(b) == 10 * pow10((b - 1) as nat));
    }
}

} // verus!
