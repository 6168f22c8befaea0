//! Instants, intervals, and the timestamp grammar:
//! `YYYY-MM-DD [DayName] [HH:MM[-HH:MM]] [trailer]` inside `<...>` or `[...]`,
//! optionally two such stamps joined by `--`.
use vstd::prelude::*;
use crate::text::{
    find_either, find_from, find_from_none, find_seq, first_of, opt_index, slice, split_chars,
    split_on, split_on_extend, to_chars, views,
};

verus! {

pub const SECONDS_PER_DAY: i64 = 86400;

/// A civil instant, counted in seconds from the midnight that starts day 0
/// of the proleptic Gregorian calendar (day 1 is 0001-01-01).
#[derive(Clone, Copy, Debug, PartialEq, Eq, Structural)]
pub struct Timestamp {
    pub secs: i64,
}

impl Timestamp {
    /// The instant `seconds` after the midnight that starts day `day`
    /// (days counted as `chrono::Datelike::num_days_from_ce` counts them).
    pub fn from_day_and_seconds(day: i32, seconds: u32) -> (r: Timestamp)
        requires
            seconds < 86400,
        ensures
            r.secs == day as int * 86400 + seconds as int,
    {
        proof {
            day_start_bounds(day as int);
        }
        Timestamp { secs: day as i64 * SECONDS_PER_DAY + seconds as i64 }
    }
}

/// A span of time from `start` to `end`.
#[derive(Clone, Copy, Debug, PartialEq, Eq, Structural)]
pub struct TimeRange {
    pub start: Timestamp,
    pub end: Timestamp,
}

impl TimeRange {
    pub open spec fn wf(&self) -> bool {
        self.start.secs <= self.end.secs
    }

    pub open spec fn bounds(&self) -> (int, int) {
        (self.start.secs as int, self.end.secs as int)
    }

    /// Whether `ts` lies strictly inside the span.
    pub fn is_during(&self, ts: Timestamp) -> (r: bool)
        ensures
            r == (self.start.secs < ts.secs && ts.secs < self.end.secs),
    {
        self.start.secs < ts.secs && ts.secs < self.end.secs
    }

    /// Whether both ends of the span lie strictly before `ts`.
    pub fn is_before(&self, ts: Timestamp) -> (r: bool)
        ensures
            r == (self.start.secs < ts.secs && self.end.secs < ts.secs),
    {
        self.start.secs < ts.secs && self.end.secs < ts.secs
    }
}

/// Why a stamp could not be read.
#[derive(Clone, Copy, Debug, PartialEq, Eq, Structural)]
pub enum ParseError {
    /// A date or clock time that does not match its format.
    MalformedTimestamp,
    /// A span whose end lies before its start.
    InvertedRange,
}

/// The day number (from the common era, 0001-01-01 being day 1) of a date
/// written `%Y-%m-%d`, or `None` where the text is not such a date.
pub uninterp spec fn iso_date_days(s: Seq<char>) -> Option<int>;

/// The seconds after midnight of a clock time written `%H:%M`, or `None`
/// where the text is not such a time.
pub uninterp spec fn clock_seconds(s: Seq<char>) -> Option<int>;

/// Relies on chrono's `NaiveDate::parse_from_str` with `%Y-%m-%d` and
/// `Datelike::num_days_from_ce`: the day number of the date, if it parses.
#[verifier::external_body]
fn parse_iso_date(s: &Vec<char>) -> (r: Option<i32>)
    ensures
        opt_i32(r) == iso_date_days(s@),
{
    let text: String = s.iter().collect();
    chrono::NaiveDate::parse_from_str(&text, "%Y-%m-%d").ok().map(|d| chrono::Datelike::num_days_from_ce(&d))
}

/// Relies on chrono's `NaiveTime::parse_from_str` with `%H:%M` and
/// `Timelike::num_seconds_from_midnight`, which is below 86400.
#[verifier::external_body]
fn parse_clock_time(s: &Vec<char>) -> (r: Option<u32>)
    ensures
        opt_u32(r) == clock_seconds(s@),
        r matches Some(t) ==> t < 86400,
{
    let text: String = s.iter().collect();
    chrono::NaiveTime::parse_from_str(&text, "%H:%M").ok().map(|t| chrono::Timelike::num_seconds_from_midnight(&t))
}

pub open spec fn opt_i32(o: Option<i32>) -> Option<int> {
    match o {
        Some(x) => Some(x as int),
        None => None,
    }
}

pub open spec fn opt_u32(o: Option<u32>) -> Option<int> {
    match o {
        Some(x) => Some(x as int),
        None => None,
    }
}

proof fn day_start_bounds(d: int)
    requires
        -2147483648 <= d <= 2147483647,
    ensures
        -2147483648 * 86400 <= d * 86400 <= 2147483647 * 86400,
{
    assert(-2147483648 * 86400 <= d * 86400 <= 2147483647 * 86400) by (nonlinear_arith)
        requires
            -2147483648 <= d <= 2147483647,
    ;
}

pub open spec fn is_bracket(c: char) -> bool {
    c == '[' || c == '<' || c == '>' || c == ']'
}

pub open spec fn trim_front(s: Seq<char>) -> Seq<char>
    decreases s.len(),
{
    if s.len() > 0 && is_bracket(s[0]) {
        trim_front(s.drop_first())
    } else {
        s
    }
}

pub open spec fn trim_back(s: Seq<char>) -> Seq<char>
    decreases s.len(),
{
    if s.len() > 0 && is_bracket(s.last()) {
        trim_back(s.drop_last())
    } else {
        s
    }
}

/// `s` without the brackets at either end.
pub open spec fn trim_brackets(s: Seq<char>) -> Seq<char> {
    trim_back(trim_front(s))
}

/// A repeater or warning-period marker.
pub open spec fn is_repeat_mark(c: char) -> bool {
    c == '+' || c == '-' || c == '.'
}

pub open spec fn is_day_name(t: Seq<char>) -> bool {
    t.len() > 0 && (('a' <= t[0] && t[0] <= 'z') || ('A' <= t[0] && t[0] <= 'Z'))
}

/// Where the clock-time token stands among the space-separated parts: after
/// the date, and after the day name if there is one.
pub open spec fn time_index(parts: Seq<Seq<char>>) -> int {
    if parts.len() > 1 && is_day_name(parts[1]) {
        2
    } else {
        1
    }
}

/// Whether the stamp carries a clock time: the token after the date (and day
/// name) is there and is no repeater or warning-period marker.
pub open spec fn has_time(parts: Seq<Seq<char>>) -> bool {
    let k = time_index(parts);
    k < parts.len() && !(parts[k].len() > 0 && is_repeat_mark(parts[k][0]))
}

/// The span of a clock token `HH:MM` or `HH:MM-HH:MM` on the day that
/// starts at `base`.
pub open spec fn clock_span(base: int, t: Seq<char>) -> Result<(int, int), ParseError> {
    let hm = split_on(t, '-');
    let a = clock_seconds(hm[0]);
    let b = if hm.len() == 1 {
        a
    } else {
        clock_seconds(hm[1])
    };
    if a is None || b is None {
        Err(ParseError::MalformedTimestamp)
    } else if a->0 > b->0 {
        Err(ParseError::InvertedRange)
    } else {
        Ok((base + a->0, base + b->0))
    }
}

/// The span of one stamp: the whole day for a date alone, one instant for
/// `HH:MM`, and the two times for `HH:MM-HH:MM`.
pub open spec fn stamp_span(s: Seq<char>) -> Result<(int, int), ParseError> {
    let parts = split_on(trim_brackets(s), ' ');
    match iso_date_days(parts[0]) {
        None => Err(ParseError::MalformedTimestamp),
        Some(d) => if has_time(parts) {
            clock_span(d * 86400, parts[time_index(parts)])
        } else {
            Ok((d * 86400, d * 86400 + 86400))
        },
    }
}

pub open spec fn double_dash() -> Seq<char> {
    seq!['-', '-']
}

/// The span of a stamp, or of two stamps joined by `--`: from the start of
/// the first to the start of the second.
pub open spec fn range_span(s: Seq<char>) -> Result<(int, int), ParseError> {
    match find_from(s, double_dash(), 0) {
        Some(i) => match stamp_span(s.subrange(0, i)) {
            Err(e) => Err(e),
            Ok(l) => match stamp_span(s.subrange(i + 2, s.len() as int)) {
                Err(e) => Err(e),
                Ok(r) => if l.0 <= r.0 {
                    Ok((l.0, r.0))
                } else {
                    Err(ParseError::InvertedRange)
                },
            },
        },
        None => stamp_span(s),
    }
}

/// Where the stamp that opens at `a` and first closes at `b` ends: at `b`,
/// or, where `--` and a second opening bracket follow at once, at the first
/// closing bracket after them (if there is one).
pub open spec fn stamp_end(s: Seq<char>, b: int) -> int {
    if b + 3 < s.len() && s[b + 1] == '-' && s[b + 2] == '-' && (s[b + 3] == '[' || s[b + 3]
        == '<') {
        match first_of(s, b + 3, '>', ']') {
            Some(c) => c,
            None => b,
        }
    } else {
        b
    }
}

/// The first bracketed stamp in `s`: from the first `[` or `<` to the first
/// `>` or `]` after it; `None` where there is no such pair.
pub open spec fn next_span(s: Seq<char>) -> Result<Option<(int, int)>, ParseError> {
    match first_of(s, 0, '[', '<') {
        None => Ok(None),
        Some(a) => match first_of(s, a, '>', ']') {
            None => Ok(None),
            Some(b) => match range_span(s.subrange(a, b + 1)) {
                Ok(r) => Ok(Some(r)),
                Err(e) => Err(e),
            },
        },
    }
}

/// The first bracketed stamp in `s` together with a second stamp joined to
/// it by `--` (as in `[a]--[b]`), read as one range; the first stamp alone
/// where none is joined to it.
pub open spec fn joined_span(s: Seq<char>) -> Result<Option<(int, int)>, ParseError> {
    match first_of(s, 0, '[', '<') {
        None => Ok(None),
        Some(a) => match first_of(s, a, '>', ']') {
            None => Ok(None),
            Some(b) => match range_span(s.subrange(a, stamp_end(s, b) + 1)) {
                Ok(r) => Ok(Some(r)),
                Err(e) => Err(e),
            },
        },
    }
}

/// The first bracketed stamp after the first occurrence of `prefix`.
pub open spec fn prefixed_span(s: Seq<char>, prefix: Seq<char>) -> Result<
    Option<(int, int)>,
    ParseError,
> {
    match find_from(s, prefix, 0) {
        None => Ok(None),
        Some(c) => next_span(s.subrange(c + prefix.len(), s.len() as int)),
    }
}

pub open spec fn span_result(r: Result<TimeRange, ParseError>) -> Result<(int, int), ParseError> {
    match r {
        Ok(t) => Ok(t.bounds()),
        Err(e) => Err(e),
    }
}

pub open spec fn opt_span_result(r: Result<Option<TimeRange>, ParseError>) -> Result<
    Option<(int, int)>,
    ParseError,
> {
    match r {
        Ok(Some(t)) => Ok(Some(t.bounds())),
        Ok(None) => Ok(None),
        Err(e) => Err(e),
    }
}

pub open spec fn well_formed_result(r: Result<Option<TimeRange>, ParseError>) -> bool {
    r matches Ok(Some(t)) ==> t.wf()
}

fn trim_stamp_brackets(s: &Vec<char>) -> (r: Vec<char>)
    ensures
        r@ == trim_brackets(s@),
{
    let n = s.len();
    let mut lo: usize = 0;
    assert(s@.subrange(0, n as int) =~= s@);
    while lo < n && (s[lo] == '[' || s[lo] == '<' || s[lo] == '>' || s[lo] == ']')
        invariant
            n == s@.len(),
            lo <= n,
            trim_front(s@) == trim_front(s@.subrange(lo as int, n as int)),
        decreases n - lo,
    {
        assert(s@.subrange(lo as int, n as int).drop_first() =~= s@.subrange(lo + 1, n as int));
        lo += 1;
    }
    let mut hi: usize = n;
    while hi > lo && (s[hi - 1] == '[' || s[hi - 1] == '<' || s[hi - 1] == '>' || s[hi - 1]
        == ']')
        invariant
            n == s@.len(),
            lo <= hi <= n,
            trim_front(s@) == s@.subrange(lo as int, n as int),
            trim_brackets(s@) == trim_back(s@.subrange(lo as int, hi as int)),
        decreases hi,
    {
        assert(s@.subrange(lo as int, hi as int).drop_last() =~= s@.subrange(
            lo as int,
            hi - 1,
        ));
        hi -= 1;
    }
    slice(s, lo, hi)
}

/// The span of the clock token `t` on the day that starts at `base`.
fn parse_clock_span(base: i64, t: &Vec<char>) -> (r: Result<(i64, i64), ParseError>)
    requires
        -2147483648 * 86400 <= base <= 2147483647 * 86400,
    ensures
        pair_result(r) == clock_span(base as int, t@),
{
    let hm = split_chars(t, '-');
    assert(views(hm@)[0] == hm@[0]@);
    let a = parse_clock_time(&hm[0]);
    let b = if hm.len() == 1 {
        a
    } else {
        assert(views(hm@)[1] == hm@[1]@);
        parse_clock_time(&hm[1])
    };
    match (a, b) {
        (Some(x), Some(y)) => {
            if x > y {
                Err(ParseError::InvertedRange)
            } else {
                Ok((base + x as i64, base + y as i64))
            }
        },
        _ => Err(ParseError::MalformedTimestamp),
    }
}

pub open spec fn pair_result(r: Result<(i64, i64), ParseError>) -> Result<(int, int), ParseError> {
    match r {
        Ok((a, b)) => Ok((a as int, b as int)),
        Err(e) => Err(e),
    }
}

/// The span of one stamp (no `--`), as `stamp_span` gives it.
pub fn parse_date_str(s: &Vec<char>) -> (r: Result<(i64, i64), ParseError>)
    ensures
        pair_result(r) == stamp_span(s@),
        r matches Ok((a, b)) ==> a <= b,
{
    let base_text = trim_stamp_brackets(s);
    let parts = split_chars(&base_text, ' ');
    assert(views(parts@)[0] == parts@[0]@);
    let day = match parse_iso_date(&parts[0]) {
        Some(d) => d,
        None => {
            return Err(ParseError::MalformedTimestamp);
        },
    };
    proof {
        day_start_bounds(day as int);
    }
    let base: i64 = day as i64 * SECONDS_PER_DAY;
    let k: usize = if parts.len() > 1 && parts[1].len() > 0 && (('a' <= parts[1][0]
        && parts[1][0] <= 'z') || ('A' <= parts[1][0] && parts[1][0] <= 'Z')) {
        2
    } else {
        1
    };
    proof {
        if parts@.len() > 1 {
            assert(views(parts@)[1] == parts@[1]@);
        }
        assert(k == time_index(split_on(trim_brackets(s@), ' ')));
    }
    if k < parts.len() && !(parts[k].len() > 0 && (parts[k][0] == '+' || parts[k][0] == '-'
        || parts[k][0] == '.')) {
        assert(views(parts@)[k as int] == parts@[k as int]@);
        let r = parse_clock_span(base, &parts[k]);
        r
    } else {
        if k < parts.len() {
            assert(views(parts@)[k as int] == parts@[k as int]@);
        }
        Ok((base, base + SECONDS_PER_DAY))
    }
}

/// The span of a stamp or double stamp, as `range_span` gives it.
pub fn parse_range_chars(s: &Vec<char>) -> (r: Result<TimeRange, ParseError>)
    ensures
        span_result(r) == range_span(s@),
        r matches Ok(t) ==> t.wf(),
{
    let dd: Vec<char> = vec!['-', '-'];
    assert(dd@ =~= double_dash());
    match find_seq(s, &dd, 0) {
        Some(i) => {
            proof {
                find_from_in_range(s@, dd@, 0);
            }
            let left = slice(s, 0, i);
            let n = s.len();
            let right = slice(s, i + 2, n);
            let l = parse_date_str(&left)?;
            let r = parse_date_str(&right)?;
            if l.0 <= r.0 {
                Ok(TimeRange { start: Timestamp { secs: l.0 }, end: Timestamp { secs: r.0 } })
            } else {
                Err(ParseError::InvertedRange)
            }
        },
        None => {
            let (a, b) = parse_date_str(s)?;
            Ok(TimeRange { start: Timestamp { secs: a }, end: Timestamp { secs: b } })
        },
    }
}

/// Parses one stamp (`<2024-01-01 Mon 09:00-10:30>`) or two stamps joined by
/// `--` into a span.
pub fn parse_timerange(buf: &str) -> (r: Result<TimeRange, ParseError>)
    ensures
        span_result(r) == range_span(buf@),
        r matches Ok(t) ==> t.wf(),
{
    let s = to_chars(buf);
    parse_range_chars(&s)
}

/// The first bracketed stamp of `s`, as `next_span` gives it.
pub fn next_timerange_chars(s: &Vec<char>) -> (r: Result<Option<TimeRange>, ParseError>)
    ensures
        opt_span_result(r) == next_span(s@),
        well_formed_result(r),
{
    match find_either(s, 0, '[', '<') {
        None => Ok(None),
        Some(a) => match find_either(s, a, '>', ']') {
            None => Ok(None),
            Some(b) => {
                proof {
                    first_of_in_range(s@, a as int, '>', ']');
                }
                let n = s.len();
                let stamp = slice(s, a, b + 1);
                let t = parse_range_chars(&stamp)?;
                Ok(Some(t))
            },
        },
    }
}

/// The first bracketed stamp of `s` with any stamp joined to it by `--`,
/// as `joined_span` gives it.
pub fn joined_timerange_chars(s: &Vec<char>) -> (r: Result<Option<TimeRange>, ParseError>)
    ensures
        opt_span_result(r) == joined_span(s@),
        well_formed_result(r),
{
    match find_either(s, 0, '[', '<') {
        None => Ok(None),
        Some(a) => match find_either(s, a, '>', ']') {
            None => Ok(None),
            Some(b) => {
                proof {
                    first_of_in_range(s@, a as int, '>', ']');
                }
                let n = s.len();
                let mut e = b;
                if n >= 4 && b < n - 3 && s[b + 1] == '-' && s[b + 2] == '-' && (s[b + 3] == '['
                    || s[b + 3] == '<') {
                    proof {
                        first_of_in_range(s@, b + 3, '>', ']');
                    }
                    match find_either(s, b + 3, '>', ']') {
                        Some(c) => {
                            e = c;
                        },
                        None => {},
                    }
                }
                assert(e == stamp_end(s@, b as int));
                let stamp = slice(s, a, e + 1);
                let t = parse_range_chars(&stamp)?;
                Ok(Some(t))
            },
        },
    }
}

/// The first bracketed stamp after the first occurrence of `prefix`.
pub fn next_prefix_timerange_chars(s: &Vec<char>, prefix: &Vec<char>) -> (r: Result<
    Option<TimeRange>,
    ParseError,
>)
    ensures
        opt_span_result(r) == prefixed_span(s@, prefix@),
        well_formed_result(r),
{
    match find_seq(s, prefix, 0) {
        None => Ok(None),
        Some(c) => {
            proof {
                find_from_in_range(s@, prefix@, 0);
            }
            let n = s.len();
            let rest = slice(s, c + prefix.len(), n);
            next_timerange_chars(&rest)
        },
    }
}

/// The first bracketed stamp of `buf`, if any.
pub fn next_timerange(buf: &str) -> (r: Result<Option<TimeRange>, ParseError>)
    ensures
        opt_span_result(r) == next_span(buf@),
        well_formed_result(r),
{
    let s = to_chars(buf);
    next_timerange_chars(&s)
}

/// The first bracketed stamp of `buf` after the first occurrence of `prefix`.
pub fn next_prefix_timerange(buf: &str, prefix: &str) -> (r: Result<Option<TimeRange>, ParseError>)
    ensures
        opt_span_result(r) == prefixed_span(buf@, prefix@),
        well_formed_result(r),
{
    let s = to_chars(buf);
    let p = to_chars(prefix);
    next_prefix_timerange_chars(&s, &p)
}

proof fn first_of_in_range(s: Seq<char>, from: int, a: char, b: char)
    ensures
        match first_of(s, from, a, b) {
            Some(i) => from <= i < s.len() && (s[i] == a || s[i] == b),
            None => true,
        },
    decreases s.len() - from,
{
    if 0 <= from < s.len() && !(s[from] == a || s[from] == b) {
        first_of_in_range(s, from + 1, a, b);
    }
}

proof fn find_from_in_range(s: Seq<char>, p: Seq<char>, from: int)
    ensures
        match find_from(s, p, from) {
            Some(i) => from <= i && i + p.len() <= s.len() && s.subrange(i, i + p.len()) == p,
            None => true,
        },
    decreases s.len() + 1 - from,
{
    if 0 <= from && from + p.len() <= s.len() && s.subrange(from, from + p.len()) != p {
        find_from_in_range(s, p, from + 1);
    }
}

/// A stamp that holds a date and no clock time spans that whole day, from
/// its midnight to the next; an instant lies inside it exactly when it falls
/// strictly between the two, so neither midnight does.
pub proof fn date_only_spans_whole_day(s: Seq<char>, tr: TimeRange, now: Timestamp)
    requires
        find_from(s, double_dash(), 0) is None,
        iso_date_days(split_on(trim_brackets(s), ' ')[0]) is Some,
        !has_time(split_on(trim_brackets(s), ' ')),
        range_span(s) == Ok::<_, ParseError>(tr.bounds()),
    ensures
        tr.start.secs == iso_date_days(split_on(trim_brackets(s), ' ')[0])->0 * 86400,
        tr.end.secs == tr.start.secs + 86400,
        (tr.start.secs < now.secs && now.secs < tr.end.secs) <==> (
        iso_date_days(split_on(trim_brackets(s), ' ')[0])->0 * 86400 < now.secs
            < iso_date_days(split_on(trim_brackets(s), ' ')[0])->0 * 86400 + 86400),
        !(tr.start.secs < tr.start.secs && tr.start.secs < tr.end.secs),
        !(tr.start.secs < tr.end.secs && tr.end.secs < tr.end.secs),
{
}

/// Text with no space, no bracket and no `--`, as a date is written.
pub open spec fn plain_token(d: Seq<char>) -> bool {
    &&& d.len() > 0
    &&& forall|i: int| 0 <= i < d.len() ==> d[i] != ' ' && !is_bracket(#[trigger] d[i])
    &&& forall|i: int| 0 <= i < d.len() - 1 ==> !(#[trigger] d[i] == '-' && d[i + 1] == '-')
}

proof fn no_double_dash(s: Seq<char>)
    requires
        forall|i: int| 0 <= i < s.len() - 1 ==> !(#[trigger] s[i] == '-' && s[i + 1] == '-'),
    ensures
        find_from(s, double_dash(), 0) is None,
{
    assert forall|i: int| 0 <= i && i + 2 <= s.len() implies #[trigger] s.subrange(i, i + 2)
        != double_dash() by {
        if s.subrange(i, i + 2) == double_dash() {
            assert(s.subrange(i, i + 2)[0] == s[i]);
            assert(s.subrange(i, i + 2)[1] == s[i + 1]);
        }
    }
    find_from_none(s, double_dash(), 0);
}

proof fn bracketed_trims_to(open: char, inner: Seq<char>, close: char)
    requires
        is_bracket(open),
        is_bracket(close),
        inner.len() > 0,
        !is_bracket(inner[0]),
        !is_bracket(inner.last()),
    ensures
        trim_brackets(seq![open] + inner + seq![close]) == inner,
{
    let s = seq![open] + inner + seq![close];
    let t = inner + seq![close];
    assert(s[0] == open);
    assert(s.drop_first() =~= t);
    assert(t[0] == inner[0]);
    assert(trim_front(t) == t);
    assert(trim_front(s) == t);
    assert(t.last() == close);
    assert(t.drop_last() =~= inner);
    assert(trim_back(inner) == inner);
}

/// A date written alone in brackets, `<YYYY-MM-DD>` or `[YYYY-MM-DD]`, or
/// followed by a day name, `<YYYY-MM-DD Mon>`, spans its whole day: from its
/// midnight to the next.
pub proof fn bracketed_date_spans_whole_day(
    open: char,
    d: Seq<char>,
    day_name: Option<Seq<char>>,
    close: char,
)
    requires
        open == '<' || open == '[',
        close == '>' || close == ']',
        plain_token(d),
        iso_date_days(d) is Some,
        day_name matches Some(w) ==> plain_token(w) && is_day_name(w),
    ensures
        range_span(
            seq![open] + match day_name {
                Some(w) => d + seq![' '] + w,
                None => d,
            } + seq![close],
        ) == Ok::<_, ParseError>(
            (iso_date_days(d)->0 * 86400, iso_date_days(d)->0 * 86400 + 86400),
        ),
{
    let inner = match day_name {
        Some(w) => d + seq![' '] + w,
        None => d,
    };
    let s = seq![open] + inner + seq![close];
    split_on_extend(Seq::<char>::empty(), d, ' ');
    assert(Seq::<char>::empty() + d =~= d);
    assert(split_on(Seq::<char>::empty(), ' ') =~= seq![Seq::<char>::empty()]);
    assert(split_on(d, ' ') =~= seq![d]);
    match day_name {
        Some(w) => {
            let x = d + seq![' '];
            assert(x.drop_last() =~= d);
            assert(split_on(x, ' ') =~= seq![d, Seq::<char>::empty()]);
            split_on_extend(x, w, ' ');
            assert(x + w =~= inner);
            assert(split_on(inner, ' ') =~= seq![d, w]);
            assert(inner[0] == d[0]);
            assert(inner.last() == w.last());
            assert forall|i: int| 0 <= i < s.len() - 1 implies !(#[trigger] s[i] == '-' && s[i
                + 1] == '-') by {
                if 1 <= i && i < d.len() {
                    assert(s[i] == d[i - 1] && s[i + 1] == d[i]);
                } else if d.len() + 2 <= i && i < s.len() - 2 {
                    assert(s[i] == w[i - d.len() - 2] && s[i + 1] == w[i - d.len() - 1]);
                }
            }
        },
        None => {
            assert forall|i: int| 0 <= i < s.len() - 1 implies !(#[trigger] s[i] == '-' && s[i
                + 1] == '-') by {
                if 1 <= i && i < d.len() {
                    assert(s[i] == d[i - 1] && s[i + 1] == d[i]);
                }
            }
        },
    }
    bracketed_trims_to(open, inner, close);
    no_double_dash(s);
}

/// A stamp with a single clock time and no end time is one instant: its
/// span is empty inside, and it lies before `now` exactly when its start
/// does.
pub proof fn point_in_time_is_instant(s: Seq<char>, tr: TimeRange, now: Timestamp)
    requires
        find_from(s, double_dash(), 0) is None,
        has_time(split_on(trim_brackets(s), ' ')),
        split_on(
            split_on(trim_brackets(s), ' ')[time_index(split_on(trim_brackets(s), ' '))],
            '-',
        ).len() == 1,
        range_span(s) == Ok::<_, ParseError>(tr.bounds()),
    ensures
        tr.start == tr.end,
        !(tr.start.secs < now.secs && now.secs < tr.end.secs),
        (tr.start.secs < now.secs && tr.end.secs < now.secs) <==> tr.start.secs < now.secs,
{
}

/// A date followed by a repeater or warning-period token (one that starts
/// with `+`, `-` or `.`) is read as the whole day, whatever text follows.
pub proof fn repeater_means_whole_day(s: Seq<char>)
    requires
        split_on(trim_brackets(s), ' ').len() >= 2,
        split_on(trim_brackets(s), ' ')[1].len() > 0,
        is_repeat_mark(split_on(trim_brackets(s), ' ')[1][0]),
        iso_date_days(split_on(trim_brackets(s), ' ')[0]) is Some,
    ensures
        stamp_span(s) == Ok::<_, ParseError>(
            (
                iso_date_days(split_on(trim_brackets(s), ' ')[0])->0 * 86400,
                iso_date_days(split_on(trim_brackets(s), ' ')[0])->0 * 86400 + 86400,
            ),
        ),
{
}

} // verus!
