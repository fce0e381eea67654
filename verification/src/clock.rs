//! Wall-clock timestamps and durations.

use vstd::prelude::*;
use vstd::string::*;
use crate::text;
use crate::text::padded_string;

verus! {

broadcast use vstd::seq_lib::group_seq_properties;

/// A reading of the system's local time.
#[derive(Clone, Copy)]
pub struct LocalTime {
    pub year: u16,
    pub month: u16,
    pub day: u16,
    pub hour: u16,
    pub minute: u16,
    pub second: u16,
    pub milliseconds: u16,
}

/// `t` as `year-month-day hour:minute:second.milliseconds`.
pub open spec fn timestamp(t: LocalTime) -> Seq<char> {
    text::padded(t.year as nat, 4) + "-"@ + text::padded(t.month as nat, 2) + "-"@ + text::padded(
        t.day as nat,
        2,
    ) + " "@ + text::padded(t.hour as nat, 2) + ":"@ + text::padded(t.minute as nat, 2) + ":"@
        + text::padded(t.second as nat, 2) + "."@ + text::padded(t.milliseconds as nat, 3)
}

/// The timestamp of `t`.
pub fn timestamp_iso(t: &LocalTime) -> (s: String)
    ensures
        s@ == timestamp(*t),
{
    let mut s = padded_string(t.year as u64, 4);
    s.append("-");
    s.append(padded_string(t.month as u64, 2).as_str());
    s.append("-");
    s.append(padded_string(t.day as u64, 2).as_str());
    s.append(" ");
    s.append(padded_string(t.hour as u64, 2).as_str());
    s.append(":");
    s.append(padded_string(t.minute as u64, 2).as_str());
    s.append(":");
    s.append(padded_string(t.second as u64, 2).as_str());
    s.append(".");
    s.append(padded_string(t.milliseconds as u64, 3).as_str());
    s
}

/// The whole milliseconds between two readings, in nanoseconds, of a clock; none
/// where the second is the earlier one. (A duration too long for 64 bits wraps.)
pub open spec fn elapsed(start: u128, now: u128) -> u64 {
    let nanos: int = if now >= start { now - start } else { 0 };
    (nanos / 1_000_000 % 0x1_0000_0000_0000_0000) as u64
}

/// The whole milliseconds from `start` to `now`.
pub fn elapsed_millis(start: u128, now: u128) -> (ms: u64)
    ensures
        ms == elapsed(start, now),
{
    let nanos: u128 = if now >= start {
        now - start
    } else {
        0
    };
    (nanos / 1_000_000 % 0x1_0000_0000_0000_0000) as u64
}

/// A timestamp of a time within the ranges of the calendar is always equally long.
pub proof fn law_timestamp_width(t: LocalTime)
    requires
        t.year <= 9999,
        t.month <= 12,
        t.day <= 31,
        t.hour <= 23,
        t.minute <= 59,
        t.second <= 59,
        t.milliseconds <= 999,
    ensures
        timestamp(t).len() == 23,
{
    reveal_strlit("-");
    reveal_strlit(" ");
    reveal_strlit(":");
    reveal_strlit(".");
    reveal_with_fuel(text::pow10, 5);
    text::law_padded_width(t.year as nat, 4);
    text::law_padded_width(t.month as nat, 2);
    text::law_padded_width(t.day as nat, 2);
    text::law_padded_width(t.hour as nat, 2);
    text::law_padded_width(t.minute as nat, 2);
    text::law_padded_width(t.second as nat, 2);
    text::law_padded_width(t.milliseconds as nat, 3);
}

/// The milliseconds between two readings of a clock are the whole ones that fit into
/// the time between them; there are none where the second is the earlier one. Only of
/// a time too long for 64 bits is a part left out.
pub proof fn law_elapsed(start: u128, now: u128)
    ensures
        now <= start ==> elapsed(start, now) == 0,
        start <= now && now - start < 0x1_0000_0000_0000_0000 * 1_000_000 ==> elapsed(start, now)
            * 1_000_000 <= now - start < (elapsed(start, now) + 1) * 1_000_000,
        start <= now ==> ((now - start) / 1_000_000 - elapsed(start, now))
            % 0x1_0000_0000_0000_0000 == 0,
{
}

/// A timestamp reads back, part by part, as the time it stands for.
pub proof fn law_timestamp_reads_back(t: LocalTime)
    requires
        t.year <= 9999,
        t.month <= 99,
        t.day <= 99,
        t.hour <= 99,
        t.minute <= 99,
        t.second <= 99,
        t.milliseconds <= 999,
    ensures
        timestamp(t).len() == 23,
        text::number(timestamp(t).subrange(0, 4)) == t.year,
        timestamp(t)[4] == '-',
        text::number(timestamp(t).subrange(5, 7)) == t.month,
        timestamp(t)[7] == '-',
        text::number(timestamp(t).subrange(8, 10)) == t.day,
        timestamp(t)[10] == ' ',
        text::number(timestamp(t).subrange(11, 13)) == t.hour,
        timestamp(t)[13] == ':',
        text::number(timestamp(t).subrange(14, 16)) == t.minute,
        timestamp(t)[16] == ':',
        text::number(timestamp(t).subrange(17, 19)) == t.second,
        timestamp(t)[19] == '.',
        text::number(timestamp(t).subrange(20, 23)) == t.milliseconds,
{
    reveal_strlit("-");
    reveal_strlit(" ");
    reveal_strlit(":");
    reveal_strlit(".");
    reveal_with_fuel(text::pow10, 5);
    let s = timestamp(t);
    let y = text::padded(t.year as nat, 4);
    let o = text::padded(t.month as nat, 2);
    let d = text::padded(t.day as nat, 2);
    let h = text::padded(t.hour as nat, 2);
    let m = text::padded(t.minute as nat, 2);
    let c = text::padded(t.second as nat, 2);
    let l = text::padded(t.milliseconds as nat, 3);
    text::law_padded_width(t.year as nat, 4);
    text::law_padded_width(t.month as nat, 2);
    text::law_padded_width(t.day as nat, 2);
    text::law_padded_width(t.hour as nat, 2);
    text::law_padded_width(t.minute as nat, 2);
    text::law_padded_width(t.second as nat, 2);
    text::law_padded_width(t.milliseconds as nat, 3);
    text::law_padded_reads_back(t.year as nat, 4);
    text::law_padded_reads_back(t.month as nat, 2);
    text::law_padded_reads_back(t.day as nat, 2);
    text::law_padded_reads_back(t.hour as nat, 2);
    text::law_padded_reads_back(t.minute as nat, 2);
    text::law_padded_reads_back(t.second as nat, 2);
    text::law_padded_reads_back(t.milliseconds as nat, 3);
    assert(s.subrange(0, 4) =~= y);
    assert(s.subrange(5, 7) =~= o);
    assert(s.subrange(8, 10) =~= d);
    assert(s.subrange(11, 13) =~= h);
    assert(s.subrange(14, 16) =~= m);
    assert(s.subrange(17, 19) =~= c);
    assert(s.subrange(20, 23) =~= l);
}

/// What a timestamp writes, whatever the time.
pub proof fn law_timestamp_parts(t: LocalTime)
    ensures
        timestamp(t) == text::padded(t.year as nat, 4) + "-"@ + text::padded(t.month as nat, 2)
            + "-"@ + text::padded(t.day as nat, 2) + " "@ + text::padded(t.hour as nat, 2) + ":"@
            + text::padded(t.minute as nat, 2) + ":"@ + text::padded(t.second as nat, 2) + "."@
            + text::padded(t.milliseconds as nat, 3),
{
}

} // verus!
