use vstd::prelude::*;
use crate::text::{
    chars_to_string, lemma_lex_le_common_prefix, lemma_lex_le_pad2, lemma_lex_le_pad4,
    lemma_lex_le_strict_prefix, lex_le, pad2_chars, pad4_chars, push_pad2, push_pad4,
};
use chrono::{Datelike, Timelike};

verus! {

/// A wall-clock instant at second precision, held as plain calendar fields.
/// The application obtains one from the system clock through
/// [`now_timestamp`]; the library never reads the clock on its own.
#[derive(Clone, Copy, Debug, PartialEq, Eq, Structural)]
pub struct Timestamp {
    pub year: u16,
    pub month: u8,
    pub day: u8,
    pub hour: u8,
    pub minute: u8,
    pub second: u8,
}

impl Timestamp {
    /// Field ranges of a calendar instant the library accepts.
    pub open spec fn valid(self) -> bool {
        self.year <= 9999 && 1 <= self.month <= 12 && 1 <= self.day <= 31 && self.hour < 24
            && self.minute < 60 && self.second < 60
    }

    /// Lexicographic order on (year, month, day, hour, minute, second).
    pub open spec fn le(self, other: Timestamp) -> bool {
        if self.year != other.year {
            self.year < other.year
        } else if self.month != other.month {
            self.month < other.month
        } else if self.day != other.day {
            self.day < other.day
        } else if self.hour != other.hour {
            self.hour < other.hour
        } else if self.minute != other.minute {
            self.minute < other.minute
        } else {
            self.second <= other.second
        }
    }

    /// Whether `self` is at or before `other`.
    pub fn is_before_or_at(&self, other: &Timestamp) -> (b: bool)
        ensures
            b == self.le(*other),
    {
        if self.year != other.year {
            self.year < other.year
        } else if self.month != other.month {
            self.month < other.month
        } else if self.day != other.day {
            self.day < other.day
        } else if self.hour != other.hour {
            self.hour < other.hour
        } else if self.minute != other.minute {
            self.minute < other.minute
        } else {
            self.second <= other.second
        }
    }

    /// The characters of the `YYYY-MM-DD HH:MM:SS` rendering.
    pub open spec fn display_chars(self) -> Seq<char> {
        pad4_chars(self.year as nat) + seq!['-'] + pad2_chars(self.month as nat) + seq!['-']
            + pad2_chars(self.day as nat) + seq![' '] + pad2_chars(self.hour as nat) + seq![':']
            + pad2_chars(self.minute as nat) + seq![':'] + pad2_chars(self.second as nat)
    }

    /// The characters of the `YYYY-MM-DDTHH:MM:SS` rendering used in the
    /// metadata block of a note file.
    pub open spec fn iso_chars(self) -> Seq<char> {
        pad4_chars(self.year as nat) + seq!['-'] + pad2_chars(self.month as nat) + seq!['-']
            + pad2_chars(self.day as nat) + seq!['T'] + pad2_chars(self.hour as nat) + seq![':']
            + pad2_chars(self.minute as nat) + seq![':'] + pad2_chars(self.second as nat)
    }

    /// The characters of the `YYYYMMDDTHHMMSS` rendering used as a note id.
    pub open spec fn compact_chars(self) -> Seq<char> {
        pad4_chars(self.year as nat) + pad2_chars(self.month as nat) + pad2_chars(self.day as nat)
            + seq!['T'] + pad2_chars(self.hour as nat) + pad2_chars(self.minute as nat)
            + pad2_chars(self.second as nat)
    }

    /// Renders `YYYY-MM-DD HH:MM:SS`.
    pub fn format_display(&self) -> (r: String)
        requires
            self.valid(),
        ensures
            r@ == self.display_chars(),
    {
        let mut v: Vec<char> = Vec::new();
        push_pad4(&mut v, self.year);
        v.push('-');
        push_pad2(&mut v, self.month);
        v.push('-');
        push_pad2(&mut v, self.day);
        v.push(' ');
        push_pad2(&mut v, self.hour);
        v.push(':');
        push_pad2(&mut v, self.minute);
        v.push(':');
        push_pad2(&mut v, self.second);
        assert(v@ =~= self.display_chars());
        chars_to_string(&v)
    }

    /// Renders `YYYY-MM-DDTHH:MM:SS`.
    pub fn format_iso(&self) -> (r: String)
        requires
            self.valid(),
        ensures
            r@ == self.iso_chars(),
    {
        let mut v: Vec<char> = Vec::new();
        push_pad4(&mut v, self.year);
        v.push('-');
        push_pad2(&mut v, self.month);
        v.push('-');
        push_pad2(&mut v, self.day);
        v.push('T');
        push_pad2(&mut v, self.hour);
        v.push(':');
        push_pad2(&mut v, self.minute);
        v.push(':');
        push_pad2(&mut v, self.second);
        assert(v@ =~= self.iso_chars());
        chars_to_string(&v)
    }
}

/// Produces the time-derived note identifier: `YYYYMMDDTHHMMSS` of the given
/// instant, so that identifiers of later instants sort lexicographically
/// after earlier ones. No uniqueness is guaranteed beyond one per second.
pub fn generate_zettel_id(now: &Timestamp) -> (r: String)
    requires
        now.valid(),
    ensures
        r@ == now.compact_chars(),
{
    let mut v: Vec<char> = Vec::new();
    push_pad4(&mut v, now.year);
    push_pad2(&mut v, now.month);
    push_pad2(&mut v, now.day);
    v.push('T');
    push_pad2(&mut v, now.hour);
    push_pad2(&mut v, now.minute);
    push_pad2(&mut v, now.second);
    assert(v@ =~= now.compact_chars());
    chars_to_string(&v)
}

/// Relies on `chrono::Local::now` with `Datelike` and `Timelike`: the month
/// is 1 to 12, the day 1 to 31, the hour below 24, the minute and second
/// below 60. Nothing is promised of the year, which depends on the clock.
#[verifier::external_body]
fn clock_now_parts() -> (r: (i32, u8, u8, u8, u8, u8))
    ensures
        1 <= r.1 <= 12,
        1 <= r.2 <= 31,
        r.3 < 24,
        r.4 < 60,
        r.5 < 60,
{
    let t = chrono::Local::now().naive_local();
    (
        t.year(),
        t.month() as u8,
        t.day() as u8,
        t.hour() as u8,
        t.minute() as u8,
        t.second() as u8,
    )
}

/// Reads the system clock. Whatever the clock reports, the result is a valid
/// calendar instant: a year outside 0 to 9999 is clamped to that range.
pub fn now_timestamp() -> (r: Timestamp)
    ensures
        r.valid(),
{
    let (y, month, day, hour, minute, second) = clock_now_parts();
    let year: u16 = if y < 0 {
        0
    } else if y > 9999 {
        9999
    } else {
        y as u16
    };
    Timestamp { year, month, day, hour, minute, second }
}


/// Identifiers sort with time: an instant at or before another renders to a
/// note id that sorts lexicographically at or before the other's, so notes
/// created later never sort before earlier ones.
pub proof fn lemma_zettel_id_sorted(t1: Timestamp, t2: Timestamp)
    requires
        t1.valid(),
        t2.valid(),
        t1.le(t2),
    ensures
        lex_le(t1.compact_chars(), t2.compact_chars()),
{
    let y1 = pad4_chars(t1.year as nat);
    let mo1 = pad2_chars(t1.month as nat);
    let d1 = pad2_chars(t1.day as nat);
    let h1 = pad2_chars(t1.hour as nat);
    let mi1 = pad2_chars(t1.minute as nat);
    let s1 = pad2_chars(t1.second as nat);
    let y2 = pad4_chars(t2.year as nat);
    let mo2 = pad2_chars(t2.month as nat);
    let d2 = pad2_chars(t2.day as nat);
    let h2 = pad2_chars(t2.hour as nat);
    let mi2 = pad2_chars(t2.minute as nat);
    let s2 = pad2_chars(t2.second as nat);
    let ra1 = mo1 + (d1 + (seq!['T'] + (h1 + (mi1 + s1))));
    let ra2 = mo2 + (d2 + (seq!['T'] + (h2 + (mi2 + s2))));
    let rb1 = d1 + (seq!['T'] + (h1 + (mi1 + s1)));
    let rb2 = d2 + (seq!['T'] + (h2 + (mi2 + s2)));
    let rc1 = seq!['T'] + (h1 + (mi1 + s1));
    let rc2 = seq!['T'] + (h2 + (mi2 + s2));
    let rd1 = h1 + (mi1 + s1);
    let rd2 = h2 + (mi2 + s2);
    let re1 = mi1 + s1;
    let re2 = mi2 + s2;
    assert(t1.compact_chars() =~= y1 + ra1);
    assert(t2.compact_chars() =~= y2 + ra2);
    if t1.year < t2.year {
        lemma_lex_le_pad4(t1.year as nat, t2.year as nat);
        lemma_lex_le_strict_prefix(y1, y2, ra1, ra2);
    } else {
        assert(t1.year == t2.year);
        lemma_lex_le_common_prefix(y1, ra1, ra2);
        if t1.month < t2.month {
            lemma_lex_le_pad2(t1.month as nat, t2.month as nat);
            lemma_lex_le_strict_prefix(mo1, mo2, rb1, rb2);
        } else {
            assert(t1.month == t2.month);
            lemma_lex_le_common_prefix(mo1, rb1, rb2);
            if t1.day < t2.day {
                lemma_lex_le_pad2(t1.day as nat, t2.day as nat);
                lemma_lex_le_strict_prefix(d1, d2, rc1, rc2);
            } else {
                assert(t1.day == t2.day);
                lemma_lex_le_common_prefix(d1, rc1, rc2);
                lemma_lex_le_common_prefix(seq!['T'], rd1, rd2);
                if t1.hour < t2.hour {
                    lemma_lex_le_pad2(t1.hour as nat, t2.hour as nat);
                    lemma_lex_le_strict_prefix(h1, h2, re1, re2);
                } else {
                    assert(t1.hour == t2.hour);
                    lemma_lex_le_common_prefix(h1, re1, re2);
                    if t1.minute < t2.minute {
                        lemma_lex_le_pad2(t1.minute as nat, t2.minute as nat);
                        lemma_lex_le_strict_prefix(mi1, mi2, s1, s2);
                    } else {
                        assert(t1.minute == t2.minute);
                        lemma_lex_le_common_prefix(mi1, s1, s2);
                        assert(t1.second <= t2.second);
                        lemma_lex_le_pad2(t1.second as nat, t2.second as nat);
                    }
                }
            }
        }
    }
}

} // verus!
