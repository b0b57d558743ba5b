//! Directory time values: counts of 100-nanosecond ticks since
//! 1601-01-01T00:00:00Z.
use vstd::prelude::*;
use vstd::string::StrSliceExecFns;
use vstd::string::StringExecFns;

verus! {

/// Ticks in one second.
pub const TICKS_PER_SECOND: u128 = 10_000_000;

/// Ticks in one day.
pub const TICKS_PER_DAY: u128 = 864_000_000_000;

/// Seconds from 1601-01-01 to 1970-01-01.
pub const EPOCH_OFFSET_SECONDS: u128 = 11_644_473_600;

/// Largest count of seconds since 1970-01-01 that is rendered as a date.
pub const MAX_UNIX_SECONDS: i64 = 4_398_046_511_104;

/// Errors of the time codec.
#[derive(Debug, Clone, Copy, PartialEq, Eq, Structural)]
pub enum TimeError {
    /// A value is not a decimal integer, or lies outside the supported range.
    Parse,
    /// A relative time would fall before the epoch.
    Range,
}

/// The text that chrono renders for a count of seconds since 1970-01-01 UTC,
/// as `YYYY-MM-DD HH:MM:SS`.
pub uninterp spec fn utc_text(unix_secs: int) -> Seq<char>;

/// Relies on chrono's `DateTime::<Utc>::from_timestamp` and `format`: the
/// text depends on the seconds alone, and `from_timestamp` is `None` only
/// where the day count leaves the calendar's years (about 262,000 either way
/// of year 0), far beyond the `MAX_UNIX_SECONDS` bound (about 139,000 years).
#[verifier::external_body]
fn format_utc(unix_secs: i64) -> (r: Option<String>)
    ensures
        r matches Some(s) ==> s@ == utc_text(unix_secs as int),
        -MAX_UNIX_SECONDS <= unix_secs <= MAX_UNIX_SECONDS ==> r is Some,
{
    match chrono::DateTime::<chrono::Utc>::from_timestamp(unix_secs, 0) {
        Some(d) => Some(d.format("%Y-%m-%d %H:%M:%S").to_string()),
        None => None,
    }
}

/// The text of a tick value that was never set.
pub open spec fn never_text() -> Seq<char> {
    "0000-00-00 00:00:00"@
}

/// The decoded text of a tick count, or `None` where it lies beyond the
/// supported range.
pub open spec fn decode_spec(ticks: nat) -> Option<Seq<char>> {
    if ticks == 0 {
        Some(never_text())
    } else if ticks / (TICKS_PER_SECOND as nat) <= MAX_UNIX_SECONDS + EPOCH_OFFSET_SECONDS {
        Some(utc_text(ticks / (TICKS_PER_SECOND as nat) - EPOCH_OFFSET_SECONDS))
    } else {
        None
    }
}

/// Renders a tick count as `YYYY-MM-DD HH:MM:SS` in UTC; zero means "never".
pub fn decode(ticks: u128) -> (r: Result<String, TimeError>)
    ensures
        ok_text(r) == decode_spec(ticks as nat),
        r is Err ==> r == Err::<String, TimeError>(TimeError::Parse),
{
    if ticks == 0 {
        return Ok(String::from_str("0000-00-00 00:00:00"));
    }
    let secs = ticks / TICKS_PER_SECOND;
    if secs > MAX_UNIX_SECONDS as u128 + EPOCH_OFFSET_SECONDS {
        return Err(TimeError::Parse);
    }
    let unix = secs as i64 - EPOCH_OFFSET_SECONDS as i64;
    match format_utc(unix) {
        Some(s) => Ok(s),
        None => Err(TimeError::Parse),
    }
}

/// The text of a successful result.
pub open spec fn ok_text<E>(r: Result<String, E>) -> Option<Seq<char>> {
    match r {
        Ok(s) => Some(s@),
        Err(_) => None,
    }
}

/// A character is a decimal digit.
pub open spec fn is_digit(c: char) -> bool {
    '0' <= c && c <= '9'
}

/// The value of a decimal digit.
pub open spec fn digit_value(c: char) -> nat {
    ((c as u32) - ('0' as u32)) as nat
}

/// A non-empty run of decimal digits.
pub open spec fn is_decimal(s: Seq<char>) -> bool {
    s.len() > 0 && forall|i: int| 0 <= i < s.len() ==> is_digit(#[trigger] s[i])
}

/// The value of a run of decimal digits.
pub open spec fn decimal_value(s: Seq<char>) -> nat
    decreases s.len(),
{
    if s.len() == 0 {
        0
    } else {
        decimal_value(s.drop_last()) * 10 + digit_value(s.last())
    }
}

proof fn lemma_prefix_value_le(s: Seq<char>, k: int)
    requires
        0 <= k <= s.len(),
    ensures
        decimal_value(s.subrange(0, k)) <= decimal_value(s),
    decreases s.len() - k,
{
    if k < s.len() {
        lemma_prefix_value_le(s, k + 1);
        assert(s.subrange(0, k + 1).drop_last() =~= s.subrange(0, k));
    } else {
        assert(s.subrange(0, k) =~= s);
    }
}

/// Reads a decimal integer; `None` for anything but a non-empty run of
/// digits whose value fits in 128 bits.
pub fn parse_decimal(s: &str) -> (r: Option<u128>)
    ensures
        r == (if is_decimal(s@) && decimal_value(s@) <= u128::MAX {
            Some(decimal_value(s@) as u128)
        } else {
            None
        }),
{
    let n = s.unicode_len();
    if n == 0 {
        return None;
    }
    let mut i: usize = 0;
    while i < n
        invariant
            n == s@.len(),
            i <= n,
            forall|j: int| 0 <= j < i ==> is_digit(#[trigger] s@[j]),
        decreases n - i,
    {
        let c = s.get_char(i);
        if !('0' <= c && c <= '9') {
            return None;
        }
        i = i + 1;
    }
    let mut acc: u128 = 0;
    let mut k: usize = 0;
    while k < n
        invariant
            n == s@.len(),
            k <= n,
            is_decimal(s@),
            acc == decimal_value(s@.subrange(0, k as int)),
        decreases n - k,
    {
        let c = s.get_char(k);
        let d = (c as u32 - '0' as u32) as u128;
        assert(s@.subrange(0, k + 1).drop_last() =~= s@.subrange(0, k as int));
        assert(is_digit(s@[k as int]));
        if acc > (u128::MAX - d) / 10 {
            proof {
                lemma_prefix_value_le(s@, k + 1);
            }
            return None;
        }
        acc = acc * 10 + d;
        k = k + 1;
    }
    assert(s@.subrange(0, n as int) =~= s@);
    Some(acc)
}

/// Decodes a tick count written in decimal.
pub fn decode_text(s: &str) -> (r: Result<String, TimeError>)
    ensures
        ok_text(r) == decode_value_spec(s@),
        r is Err ==> r == Err::<String, TimeError>(TimeError::Parse),
{
    match parse_decimal(s) {
        Some(t) => decode(t),
        None => Err(TimeError::Parse),
    }
}

/// The decoded text of a decimal tick count.
pub open spec fn decode_value_spec(s: Seq<char>) -> Option<Seq<char>> {
    if is_decimal(s) && decimal_value(s) <= u128::MAX {
        decode_spec(decimal_value(s))
    } else {
        None
    }
}

/// `now - delta` in ticks; a `delta` reaching before the epoch is a range error.
pub fn encode_offset(now: u128, delta: u128) -> (r: Result<u128, TimeError>)
    ensures
        delta <= now ==> r == Ok::<u128, TimeError>((now - delta) as u128),
        delta > now ==> r == Err::<u128, TimeError>(TimeError::Range),
{
    if delta > now {
        Err(TimeError::Range)
    } else {
        Ok(now - delta)
    }
}

/// A longer look-back gives an earlier instant, and any positive look-back
/// gives an instant before `now`.
pub proof fn lemma_offset_decreasing(now: u128, shorter: u128, longer: u128)
    requires
        0 < shorter < longer <= now,
    ensures
        (now - longer) < (now - shorter),
        (now - shorter) < now,
        (now - longer) < now,
{
}

/// Ticks in a year of 365 days.
pub const YEAR_TICKS: u128 = 365 * TICKS_PER_DAY;

/// Ticks in 30 days.
pub const MONTH_TICKS: u128 = 30 * TICKS_PER_DAY;

/// Ticks in 7 days.
pub const WEEK_TICKS: u128 = 7 * TICKS_PER_DAY;

/// The instants that queries can refer to, fixed once per run.
#[derive(Debug, Clone, Copy, PartialEq, Eq, Structural)]
pub struct TimeReference {
    pub now: u128,
    pub one_year_ago: u128,
    pub thirty_days_ago: u128,
    pub seven_days_ago: u128,
}

impl TimeReference {
    /// The instants relative to `now`; a range error where a year before
    /// `now` falls before the epoch.
    pub fn at(now: u128) -> (r: Result<TimeReference, TimeError>)
        ensures
            now >= YEAR_TICKS ==> r == Ok::<TimeReference, TimeError>(
                TimeReference {
                    now,
                    one_year_ago: (now - YEAR_TICKS) as u128,
                    thirty_days_ago: (now - MONTH_TICKS) as u128,
                    seven_days_ago: (now - WEEK_TICKS) as u128,
                },
            ),
            now < YEAR_TICKS ==> r == Err::<TimeReference, TimeError>(TimeError::Range),
            r matches Ok(t) ==> t.one_year_ago < t.thirty_days_ago && t.thirty_days_ago
                < t.seven_days_ago && t.seven_days_ago < t.now,
    {
        let one_year_ago = match encode_offset(now, YEAR_TICKS) {
            Ok(t) => t,
            Err(e) => return Err(e),
        };
        let thirty_days_ago = match encode_offset(now, MONTH_TICKS) {
            Ok(t) => t,
            Err(e) => return Err(e),
        };
        let seven_days_ago = match encode_offset(now, WEEK_TICKS) {
            Ok(t) => t,
            Err(e) => return Err(e),
        };
        Ok(TimeReference { now, one_year_ago, thirty_days_ago, seven_days_ago })
    }
}

/// Ticks from 1601-01-01 to 1970-01-01.
pub const EPOCH_OFFSET_TICKS: u128 = EPOCH_OFFSET_SECONDS * TICKS_PER_SECOND;

/// The tick count of an instant given in nanoseconds since 1970-01-01.
pub fn ticks_from_unix_nanos(nanos: u128) -> (r: u128)
    ensures
        r == nanos / 100 + EPOCH_OFFSET_TICKS,
{
    let t = nanos / 100;
    assert(t <= u128::MAX / 100) by (nonlinear_arith)
        requires
            t == nanos / 100,
    ;
    t + EPOCH_OFFSET_TICKS
}

/// The character of a digit value below ten.
pub open spec fn digit_char(d: nat) -> char {
    "0123456789"@[d as int]
}

/// The decimal text of a number, without leading zeros.
pub open spec fn decimal_text(n: nat) -> Seq<char>
    decreases n,
{
    if n < 10 {
        seq![digit_char(n)]
    } else {
        decimal_text(n / 10).push(digit_char(n % 10))
    }
}

/// Appends the decimal text of `n` to `out`.
pub fn push_decimal(out: &mut String, n: u128)
    ensures
        final(out)@ == old(out)@ + decimal_text(n as nat),
    decreases n,
{
    if n >= 10 {
        push_decimal(out, n / 10);
    }
    let d = (n % 10) as usize;
    let digits = "0123456789";
    proof {
        reveal_strlit("0123456789");
    }
    let piece = digits.substring_char(d, d + 1);
    out.append(piece);
    assert(piece@ =~= seq![digit_char(d as nat)]);
    assert(out@ =~= old(out)@ + decimal_text(n as nat));
}

/// The decimal text of a number.
pub fn to_decimal(n: u128) -> (r: String)
    ensures
        r@ == decimal_text(n as nat),
{
    let mut out = String::new();
    push_decimal(&mut out, n);
    assert(out@ =~= decimal_text(n as nat));
    out
}

} // verus!
