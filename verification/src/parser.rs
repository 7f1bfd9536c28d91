//! The timespec interpretation engine: an ordered chain of grammar
//! strategies that turns free-form text into a resolved local instant.
//!
//! The clock-time strategy (`HH:MM`) is tried first; its grammar is one or
//! more digits, a colon, one or more digits, and nothing else.  When that
//! grammar matches, the strategy owns the outcome: out-of-range fields are
//! terminal failures, not a signal to try the next strategy.  The
//! full-timestamp strategy then accepts RFC 3339-style text.  When no
//! strategy recognizes the input shape, the whole parse fails with a
//! generic no-grammar-matched error.

use vstd::prelude::*;
use crate::instant::LocalInstant;
use crate::instant::YEAR_MAX;
use chrono::Datelike;
use chrono::Timelike;

verus! {

/// The instant, in whole seconds since the Unix epoch, that chrono's
/// timestamp grammar reads from a text, or `None` where the grammar does
/// not match.  Acceptance and the instant depend on the text alone, since
/// the grammar demands an explicit UTC offset.
pub uninterp spec fn iso_instant_of(s: Seq<char>) -> Option<int>;

/// The outcome of one strategy attempt.
pub enum ParseOutcome {
    /// The strategy's grammar matched and the input was valid.
    Resolved(LocalInstant),
    /// The strategy's grammar does not match this input; the chain should
    /// try the next strategy.
    NotApplicable,
    /// The grammar matched syntactically but a semantic constraint failed;
    /// a terminal failure for the whole parse.
    Invalid(String),
}

/// Failure text for a clock time whose hour field is out of range.
pub open spec fn hours_range_msg() -> Seq<char> {
    "Hours must be between 00 and 23"@
}

/// Failure text for a clock time whose minute field is out of range.
pub open spec fn minutes_range_msg() -> Seq<char> {
    "Minutes must be between 00 and 59"@
}

/// Failure text when no strategy recognized the input shape.
pub open spec fn no_match_msg() -> Seq<char> {
    "Cannot parse timespec"@
}

/// A decimal digit.
pub open spec fn is_digit_char(c: char) -> bool {
    '0' <= c && c <= '9'
}

/// The numeric value of a decimal digit.
pub open spec fn digit_val(c: char) -> int {
    c as int - 48
}

/// The number denoted by a (most-significant-first) run of decimal digits.
pub open spec fn digits_val(s: Seq<char>) -> int
    decreases s.len(),
{
    if s.len() == 0 {
        0
    } else {
        digits_val(s.drop_last()) * 10 + digit_val(s.last())
    }
}

/// The clock-time grammar holds with the colon at position `i`: at least
/// one digit, a colon, at least one digit, and nothing else.
pub open spec fn hhmm_shape_at(s: Seq<char>, i: int) -> bool {
    &&& 1 <= i <= s.len() - 2
    &&& s[i] == ':'
    &&& (forall|j: int| 0 <= j < i ==> is_digit_char(s[j]))
    &&& (forall|j: int| i < j < s.len() ==> is_digit_char(s[j]))
}

/// The clock-time grammar matches the whole text.
pub open spec fn hhmm_shape(s: Seq<char>) -> bool {
    exists|i: int| hhmm_shape_at(s, i)
}

/// The (unique) position of the colon of a matching clock time.
pub open spec fn colon_of(s: Seq<char>) -> int {
    choose|i: int| hhmm_shape_at(s, i)
}

/// The value of the hour group of a matching clock time.
pub open spec fn hour_val(s: Seq<char>) -> int {
    digits_val(s.subrange(0, colon_of(s)))
}

/// The value of the minute group of a matching clock time.
pub open spec fn minute_val(s: Seq<char>) -> int {
    digits_val(s.subrange(colon_of(s) + 1, s.len() as int))
}

/// The instant a valid clock time resolves to: today's date with the given
/// hour and minute and zero seconds — advanced by one calendar day when
/// that wall-clock time has already passed.
pub open spec fn resolve_hhmm(h: int, m: int, now: LocalInstant) -> LocalInstant {
    let cand = LocalInstant {
        year: now.year,
        month: now.month,
        day: now.day,
        hour: h as u32,
        minute: m as u32,
        second: 0,
        offset_seconds: now.offset_seconds,
    };
    if cand.epoch() < now.epoch() {
        cand.next_day_spec()
    } else {
        cand
    }
}

/// The rollover guarantee: a valid clock time always resolves to a
/// well-formed instant that is not earlier than "now", keeps the requested
/// hour and minute, and has zero seconds.
pub proof fn lemma_resolve_hhmm(h: int, m: int, now: LocalInstant)
    requires
        now.wf(),
        now.year < YEAR_MAX,
        0 <= h <= 23,
        0 <= m <= 59,
    ensures
        resolve_hhmm(h, m, now).wf(),
        resolve_hhmm(h, m, now).epoch() >= now.epoch(),
        resolve_hhmm(h, m, now).hour == h,
        resolve_hhmm(h, m, now).minute == m,
        resolve_hhmm(h, m, now).second == 0,
{
    let cand = LocalInstant {
        year: now.year,
        month: now.month,
        day: now.day,
        hour: h as u32,
        minute: m as u32,
        second: 0,
        offset_seconds: now.offset_seconds,
    };
    if cand.epoch() < now.epoch() {
        cand.lemma_next_day();
    }
}

/// When a text holds a colon at `ci` and none earlier, a clock-time match
/// can only place its colon at `ci`.
pub proof fn lemma_colon_position(s: Seq<char>, ci: int)
    requires
        0 <= ci < s.len(),
        s[ci] == ':',
        forall|j: int| 0 <= j < ci ==> s[j] != ':',
        hhmm_shape(s),
    ensures
        colon_of(s) == ci,
        hhmm_shape_at(s, ci),
{
    let i = colon_of(s);
    assert(hhmm_shape_at(s, i));
    if i < ci {
        assert(s[i] != ':');
    } else if ci < i {
        assert(is_digit_char(s[ci]));
    }
}

/// The clock-time strategy: recognizes exactly `digits:digits`, validates
/// the hour and minute ranges, and resolves the time against the supplied
/// "now", rolling over to tomorrow when the time has already passed today.
pub fn parse_hhmm(timespec: &String, now: &LocalInstant) -> (r: ParseOutcome)
    requires
        now.wf(),
        now.year < YEAR_MAX,
    ensures
        !hhmm_shape(timespec@) ==> r is NotApplicable,
        hhmm_shape(timespec@) && hour_val(timespec@) > 23 ==> (r matches ParseOutcome::Invalid(e)
            && e@ == hours_range_msg()),
        hhmm_shape(timespec@) && hour_val(timespec@) <= 23 && minute_val(timespec@) > 59 ==> (
        r matches ParseOutcome::Invalid(e) && e@ == minutes_range_msg()),
        hhmm_shape(timespec@) && hour_val(timespec@) <= 23 && minute_val(timespec@) <= 59 ==> (
        r matches ParseOutcome::Resolved(t) && t == resolve_hhmm(
            hour_val(timespec@),
            minute_val(timespec@),
            *now,
        ) && t.wf() && t.epoch() >= now.epoch()),
{
    let s: &str = timespec.as_str();
    let n: usize = s.unicode_len();
    // find the first colon
    let mut ci: usize = 0;
    let mut found: bool = false;
    let mut k: usize = 0;
    while k < n && !found
        invariant
            s@ == timespec@,
            n == s@.len(),
            k <= n,
            !found ==> forall|j: int| 0 <= j < k ==> s@[j] != ':',
            found ==> ci < n && s@[ci as int] == ':' && (forall|j: int| 0 <= j < ci ==> s@[j]
                != ':'),
        decreases n - k, (if found {
            0int
        } else {
            1int
        }),
    {
        let c: char = s.get_char(k);
        if c == ':' {
            ci = k;
            found = true;
        } else {
            k = k + 1;
        }
    }
    if !found {
        proof {
            if hhmm_shape(timespec@) {
                let i = colon_of(timespec@);
                assert(hhmm_shape_at(timespec@, i));
                assert(timespec@[i] == ':');
            }
        }
        return ParseOutcome::NotApplicable;
    }
    if ci == 0 || ci + 1 == n {
        proof {
            if hhmm_shape(timespec@) {
                lemma_colon_position(timespec@, ci as int);
            }
        }
        return ParseOutcome::NotApplicable;
    }
    // hour digits, with the accumulator saturating above every valid value
    let mut hv: u64 = 0;
    let mut k: usize = 0;
    while k < ci
        invariant
            s@ == timespec@,
            n == s@.len(),
            0 < ci < n,
            s@[ci as int] == ':',
            forall|j: int| 0 <= j < ci ==> s@[j] != ':',
            k <= ci,
            forall|j: int| 0 <= j < k ==> is_digit_char(s@[j]),
            digits_val(s@.subrange(0, k as int)) <= 59 ==> hv == digits_val(
                s@.subrange(0, k as int),
            ),
            digits_val(s@.subrange(0, k as int)) > 59 ==> hv > 59,
            hv <= 608,
        decreases ci - k,
    {
        let c: char = s.get_char(k);
        let cv: u32 = c as u32;
        if cv < 48 || cv > 57 {
            proof {
                if hhmm_shape(timespec@) {
                    lemma_colon_position(timespec@, ci as int);
                    assert(is_digit_char(timespec@[k as int]));
                }
            }
            return ParseOutcome::NotApplicable;
        }
        proof {
            assert(s@.subrange(0, (k + 1) as int).drop_last() =~= s@.subrange(0, k as int));
            assert(s@.subrange(0, (k + 1) as int).last() == s@[k as int]);
        }
        hv = if hv > 59 {
            hv
        } else {
            hv * 10 + (cv - 48) as u64
        };
        k = k + 1;
    }
    // minute digits
    let mut mv: u64 = 0;
    let mut k2: usize = ci + 1;
    while k2 < n
        invariant
            s@ == timespec@,
            n == s@.len(),
            0 < ci < n,
            ci + 1 <= k2 <= n,
            s@[ci as int] == ':',
            forall|j: int| 0 <= j < ci ==> s@[j] != ':',
            forall|j: int| 0 <= j < ci ==> is_digit_char(s@[j]),
            forall|j: int| ci < j < k2 ==> is_digit_char(s@[j]),
            digits_val(s@.subrange(ci + 1, k2 as int)) <= 59 ==> mv == digits_val(
                s@.subrange(ci + 1, k2 as int),
            ),
            digits_val(s@.subrange(ci + 1, k2 as int)) > 59 ==> mv > 59,
            mv <= 608,
        decreases n - k2,
    {
        let c: char = s.get_char(k2);
        let cv: u32 = c as u32;
        if cv < 48 || cv > 57 {
            proof {
                if hhmm_shape(timespec@) {
                    lemma_colon_position(timespec@, ci as int);
                    assert(is_digit_char(timespec@[k2 as int]));
                }
            }
            return ParseOutcome::NotApplicable;
        }
        proof {
            assert(s@.subrange(ci + 1, (k2 + 1) as int).drop_last() =~= s@.subrange(
                ci + 1,
                k2 as int,
            ));
            assert(s@.subrange(ci + 1, (k2 + 1) as int).last() == s@[k2 as int]);
        }
        mv = if mv > 59 {
            mv
        } else {
            mv * 10 + (cv - 48) as u64
        };
        k2 = k2 + 1;
    }
    proof {
        assert(hhmm_shape_at(timespec@, ci as int));
        lemma_colon_position(timespec@, ci as int);
    }
    if hv > 23 {
        return ParseOutcome::Invalid("Hours must be between 00 and 23".to_owned());
    }
    if mv > 59 {
        return ParseOutcome::Invalid("Minutes must be between 00 and 59".to_owned());
    }
    proof {
        lemma_resolve_hhmm(hv as int, mv as int, *now);
    }
    let cand = LocalInstant {
        year: now.year,
        month: now.month,
        day: now.day,
        hour: hv as u32,
        minute: mv as u32,
        second: 0,
        offset_seconds: now.offset_seconds,
    };
    let cand_sod: u32 = (hv as u32) * 3600 + (mv as u32) * 60;
    let now_sod: u32 = now.hour * 3600 + now.minute * 60 + now.second;
    let t: LocalInstant = if cand_sod < now_sod {
        cand.next_day()
    } else {
        cand
    };
    ParseOutcome::Resolved(t)
}

/// The character of a single decimal digit.
pub open spec fn digit_char(d: int) -> char {
    ((48 + d) as u8) as char
}

/// A value written as two decimal digits, zero-padded.
pub open spec fn two_digit_text(v: int) -> Seq<char> {
    seq![digit_char(v / 10), digit_char(v % 10)]
}

/// A clock time written as the five-character zero-padded `HH:MM` text.
pub open spec fn hhmm_text(h: int, m: int) -> Seq<char> {
    two_digit_text(h) + seq![':'] + two_digit_text(m)
}

/// A two-digit text denotes the value it was written from.
pub proof fn lemma_two_digit_val(v: int)
    requires
        0 <= v <= 99,
    ensures
        digits_val(two_digit_text(v)) == v,
{
    let t = two_digit_text(v);
    let head = seq![digit_char(v / 10)];
    assert(head.drop_last() =~= Seq::<char>::empty());
    assert(digits_val(Seq::<char>::empty()) == 0);
    assert(digits_val(head) == digit_val(digit_char(v / 10)));
    assert(t.drop_last() =~= head);
    assert(t.last() == digit_char(v % 10));
    assert(digits_val(t) == digits_val(head) * 10 + digit_val(digit_char(v % 10)));
    assert(digit_val(digit_char(v / 10)) == v / 10);
    assert(digit_val(digit_char(v % 10)) == v % 10);
}

/// Law: for every hour in 0..=23 and minute in 0..=59, the zero-padded
/// `HH:MM` text matches the clock-time grammar with exactly those field
/// values, so parsing it succeeds, and the instant it resolves to is
/// well-formed, keeps the requested hour and minute, has zero seconds, and
/// is never earlier than "now".
pub proof fn lemma_valid_clock_time_parses(h: int, m: int, now: LocalInstant)
    requires
        0 <= h <= 23,
        0 <= m <= 59,
        now.wf(),
        now.year < YEAR_MAX,
    ensures
        hhmm_shape(hhmm_text(h, m)),
        hour_val(hhmm_text(h, m)) == h,
        minute_val(hhmm_text(h, m)) == m,
        resolve_hhmm(h, m, now).wf(),
        resolve_hhmm(h, m, now).hour == h,
        resolve_hhmm(h, m, now).minute == m,
        resolve_hhmm(h, m, now).second == 0,
        resolve_hhmm(h, m, now).epoch() >= now.epoch(),
{
    let s = hhmm_text(h, m);
    assert(s.len() == 5);
    assert(s[0] == digit_char(h / 10));
    assert(s[1] == digit_char(h % 10));
    assert(s[2] == ':');
    assert(s[3] == digit_char(m / 10));
    assert(s[4] == digit_char(m % 10));
    assert(forall|d: int|
        0 <= d <= 9 ==> is_digit_char(#[trigger] digit_char(d)) && digit_val(digit_char(d)) == d);
    assert(hhmm_shape_at(s, 2));
    lemma_colon_position(s, 2);
    assert(s.subrange(0, 2) =~= seq![digit_char(h / 10), digit_char(h % 10)]);
    assert(s.subrange(3, 5) =~= seq![digit_char(m / 10), digit_char(m % 10)]);
    lemma_two_digit_val(h);
    lemma_two_digit_val(m);
    lemma_resolve_hhmm(h, m, now);
}

/// Relies on chrono's `FromStr` for `DateTime<Local>`: it parses relaxed
/// RFC 3339 (date, time, explicit offset) through `DateTime<FixedOffset>`,
/// so acceptance and the absolute instant are functions of the text alone;
/// the result is then rendered in the machine's local timezone, whose
/// calendar fields and offset chrono keeps within the ranges of
/// `LocalInstant::wf`.
#[verifier::external_body]
fn chrono_parse_local(timespec: &str) -> (r: Option<LocalInstant>)
    ensures
        r is Some <==> iso_instant_of(timespec@) is Some,
        r matches Some(t) ==> t.wf() && iso_instant_of(timespec@) == Some(t.epoch()),
{
    match timespec.parse::<chrono::DateTime<chrono::Local>>() {
        Ok(dt) => Some(LocalInstant {
            year: dt.year() as i64,
            month: dt.month(),
            day: dt.day(),
            hour: dt.hour(),
            minute: dt.minute(),
            second: dt.second(),
            offset_seconds: dt.offset().local_minus_utc() as i64,
        }),
        Err(_) => None,
    }
}

/// The full-timestamp strategy: the whole text as an RFC 3339-style
/// date-time with an explicit offset, rendered in the local timezone.
/// A text its grammar does not accept is not applicable, so the chain can
/// report that no grammar matched.
pub fn parse_iso8601(timespec: &String) -> (r: ParseOutcome)
    ensures
        iso_instant_of(timespec@) is Some ==> (r matches ParseOutcome::Resolved(t) && t.wf()
            && iso_instant_of(timespec@) == Some(t.epoch())),
        iso_instant_of(timespec@) is None ==> r is NotApplicable,
{
    match chrono_parse_local(timespec.as_str()) {
        Some(t) => ParseOutcome::Resolved(t),
        None => ParseOutcome::NotApplicable,
    }
}

/// The strategy chain: the clock-time strategy first, then the
/// full-timestamp strategy.  The first strategy to resolve wins; a strategy
/// whose grammar matched but whose data was out of range ends the parse
/// with its own failure; when every strategy is not applicable, the parse
/// fails with the generic no-grammar-matched error.
pub fn parse(timespec: String, now: &LocalInstant) -> (r: Result<LocalInstant, String>)
    requires
        now.wf(),
        now.year < YEAR_MAX,
    ensures
        hhmm_shape(timespec@) && hour_val(timespec@) > 23 ==> (r matches Err(e) && e@
            == hours_range_msg()),
        hhmm_shape(timespec@) && hour_val(timespec@) <= 23 && minute_val(timespec@) > 59 ==> (
        r matches Err(e) && e@ == minutes_range_msg()),
        hhmm_shape(timespec@) && hour_val(timespec@) <= 23 && minute_val(timespec@) <= 59 ==> (
        r matches Ok(t) && t == resolve_hhmm(hour_val(timespec@), minute_val(timespec@), *now)
            && t.wf() && t.epoch() >= now.epoch()),
        !hhmm_shape(timespec@) && iso_instant_of(timespec@) is Some ==> (r matches Ok(t) && t.wf()
            && iso_instant_of(timespec@) == Some(t.epoch())),
        !hhmm_shape(timespec@) && iso_instant_of(timespec@) is None ==> (r matches Err(e) && e@
            == no_match_msg()),
{
    match parse_hhmm(&timespec, now) {
        ParseOutcome::Resolved(t) => Ok(t),
        ParseOutcome::Invalid(e) => Err(e),
        ParseOutcome::NotApplicable => match parse_iso8601(&timespec) {
            ParseOutcome::Resolved(t) => Ok(t),
            ParseOutcome::Invalid(e) => Err(e),
            ParseOutcome::NotApplicable => Err("Cannot parse timespec".to_owned()),
        },
    }
}

} // verus!
