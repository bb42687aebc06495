//! Subtitle timestamps: four fields and the millisecond count they stand for.

use crate::decimal::{padded_decimal, push_padded};
use vstd::arithmetic::div_mod::{
    lemma_div_is_ordered, lemma_fundamental_div_mod, lemma_fundamental_div_mod_converse,
    lemma_small_mod,
};
use vstd::prelude::*;

verus! {

/// Milliseconds in one second.
pub const MS_PER_SECOND: u64 = 1_000;

/// Milliseconds in one minute.
pub const MS_PER_MINUTE: u64 = 60_000;

/// Milliseconds in one hour.
pub const MS_PER_HOUR: u64 = 3_600_000;

/// Number of values the hours field can take.
pub const HOURS_MODULUS: u64 = 0x1_0000_0000;

/// A point on a subtitle track's time axis.
///
/// The fields are not range-checked: a timestamp read from text may carry
/// minutes or seconds up to 99, since the text format fixes only the number
/// of digits.
#[derive(Debug, Clone, Copy, PartialEq, Eq, Structural)]
pub struct Timestamp {
    pub hours: u32,
    pub minutes: u32,
    pub seconds: u32,
    pub milliseconds: u32,
}

impl Timestamp {
    /// The millisecond count this timestamp stands for.
    pub open spec fn ms(self) -> nat {
        (self.hours * MS_PER_HOUR + self.minutes * MS_PER_MINUTE + self.seconds * MS_PER_SECOND
            + self.milliseconds) as nat
    }

    /// The timestamp that decomposes `ms` into hours, minutes, seconds and
    /// milliseconds. The hours field keeps the low 32 bits of the hour count.
    pub open spec fn of_ms(ms: nat) -> Timestamp {
        Timestamp {
            hours: ((ms / MS_PER_HOUR as nat) % HOURS_MODULUS as nat) as u32,
            minutes: ((ms % MS_PER_HOUR as nat) / MS_PER_MINUTE as nat) as u32,
            seconds: ((ms % MS_PER_MINUTE as nat) / MS_PER_SECOND as nat) as u32,
            milliseconds: (ms % MS_PER_SECOND as nat) as u32,
        }
    }

    /// Every field fits the number of digits the text format gives it: two
    /// for hours, minutes and seconds, three for milliseconds.
    pub open spec fn fits_format(self) -> bool {
        &&& self.hours <= 99
        &&& self.minutes <= 99
        &&& self.seconds <= 99
        &&& self.milliseconds <= 999
    }

    /// The hour count of `self.ms() + offset` fits the hours field, so that
    /// moving the timestamp by `offset` loses nothing.
    pub open spec fn keeps_hours(self, offset: int) -> bool {
        (self.ms() + offset) / (MS_PER_HOUR as int) < HOURS_MODULUS
    }

    /// Minutes and seconds below 60, milliseconds below 1000.
    pub open spec fn is_normalized(self) -> bool {
        &&& self.minutes < 60
        &&& self.seconds < 60
        &&& self.milliseconds < 1000
    }

    /// `self` is not later than `other`, comparing hours first, then
    /// minutes, seconds and milliseconds.
    pub open spec fn not_after(self, other: Timestamp) -> bool {
        ||| self.hours < other.hours
        ||| self.hours == other.hours && self.minutes < other.minutes
        ||| self.hours == other.hours && self.minutes == other.minutes && self.seconds
            < other.seconds
        ||| self.hours == other.hours && self.minutes == other.minutes && self.seconds
            == other.seconds && self.milliseconds <= other.milliseconds
    }

    /// The timestamp as text: `HH:MM:SS,mmm`, each field padded with zeros
    /// to its width and longer where its value needs more digits.
    pub open spec fn rendered(self) -> Seq<char> {
        padded_decimal(self.hours as nat, 2) + seq![':'] + padded_decimal(self.minutes as nat, 2)
            + seq![':'] + padded_decimal(self.seconds as nat, 2) + seq![','] + padded_decimal(
            self.milliseconds as nat,
            3,
        )
    }

    /// The timestamp moved by `offset` milliseconds, and not before zero.
    pub open spec fn shifted(self, offset: int) -> Timestamp {
        if self.ms() + offset < 0 {
            Timestamp::of_ms(0)
        } else {
            Timestamp::of_ms((self.ms() + offset) as nat)
        }
    }

    /// Converts the timestamp to milliseconds.
    pub fn to_ms(&self) -> (ms: u64)
        ensures
            ms == self.ms(),
    {
        (self.hours as u64) * MS_PER_HOUR + (self.minutes as u64) * MS_PER_MINUTE + (
        self.seconds as u64) * MS_PER_SECOND + (self.milliseconds as u64)
    }

    /// Creates the timestamp for a millisecond count. An hour count beyond
    /// what the hours field holds is cut to its low 32 bits; any other count
    /// is kept in full.
    pub fn from_ms(ms: u64) -> (t: Timestamp)
        ensures
            t == Timestamp::of_ms(ms as nat),
            t.is_normalized(),
            ms / MS_PER_HOUR < HOURS_MODULUS ==> t.ms() == ms,
    {
        proof {
            if ms / MS_PER_HOUR < HOURS_MODULUS {
                lemma_of_ms_then_ms(ms as nat);
            }
        }
        let hours = ((ms / MS_PER_HOUR) % HOURS_MODULUS) as u32;
        let minutes = ((ms % MS_PER_HOUR) / MS_PER_MINUTE) as u32;
        let seconds = ((ms % MS_PER_MINUTE) / MS_PER_SECOND) as u32;
        let milliseconds = (ms % MS_PER_SECOND) as u32;
        Timestamp { hours, minutes, seconds, milliseconds }
    }

    /// Tells whether minutes and seconds are below 60 and milliseconds
    /// below 1000. Reading subtitle text does not ask for it.
    pub fn has_fields_in_range(&self) -> (b: bool)
        ensures
            b == self.is_normalized(),
    {
        self.minutes < 60 && self.seconds < 60 && self.milliseconds < 1000
    }

    /// Appends the timestamp as text to `out`.
    pub fn render_into(&self, out: &mut String)
        ensures
            final(out)@ == old(out)@ + self.rendered(),
    {
        push_padded(out, self.hours, 2);
        out.push(':');
        push_padded(out, self.minutes, 2);
        out.push(':');
        push_padded(out, self.seconds, 2);
        out.push(',');
        push_padded(out, self.milliseconds, 3);
        assert(out@ =~= old(out)@ + self.rendered());
    }

    /// The timestamp as text.
    pub fn render(&self) -> (text: String)
        ensures
            text@ == self.rendered(),
    {
        let mut text = String::new();
        self.render_into(&mut text);
        assert(text@ =~= self.rendered());
        text
    }

    /// The timestamp moved by `offset_ms` milliseconds. A move to before
    /// zero ends at zero.
    pub fn shift(&self, offset_ms: i64) -> (t: Timestamp)
        ensures
            t == self.shifted(offset_ms as int),
    {
        let moved: i128 = self.to_ms() as i128 + offset_ms as i128;
        if moved < 0 {
            Timestamp::from_ms(0)
        } else {
            Timestamp::from_ms(moved as u64)
        }
    }
}

/// Decomposing a millisecond count and recomposing it gives the count back,
/// as long as its hour count fits the hours field.
pub proof fn lemma_of_ms_then_ms(ms: nat)
    requires
        ms / (MS_PER_HOUR as nat) < HOURS_MODULUS,
    ensures
        Timestamp::of_ms(ms).ms() == ms,
{
    let x = ms as int;
    let hours = x / 3_600_000;
    let in_hour = x % 3_600_000;
    let minutes = in_hour / 60_000;
    let in_minute = in_hour % 60_000;
    let seconds = in_minute / 1_000;
    let millis = in_minute % 1_000;
    lemma_fundamental_div_mod(x, 3_600_000);
    lemma_fundamental_div_mod(in_hour, 60_000);
    lemma_fundamental_div_mod(in_minute, 1_000);
    lemma_fundamental_div_mod_converse(x, 60_000, hours * 60 + minutes, in_minute);
    lemma_fundamental_div_mod_converse(x, 1_000, (hours * 60 + minutes) * 60 + seconds, millis);
    lemma_small_mod(hours as nat, 0x1_0000_0000);
    let t = Timestamp::of_ms(ms);
    assert(t.hours == hours);
    assert(t.minutes == minutes);
    assert(t.seconds == seconds);
    assert(t.milliseconds == millis);
}

/// Composing a normalized timestamp and decomposing the count gives the
/// timestamp back.
pub proof fn lemma_ms_then_of_ms(t: Timestamp)
    requires
        t.is_normalized(),
    ensures
        Timestamp::of_ms(t.ms()) == t,
{
    let x = t.ms() as int;
    let h = t.hours as int;
    let m = t.minutes as int;
    let s = t.seconds as int;
    let l = t.milliseconds as int;
    lemma_fundamental_div_mod_converse(x, 3_600_000, h, m * 60_000 + s * 1_000 + l);
    lemma_fundamental_div_mod_converse(m * 60_000 + s * 1_000 + l, 60_000, m, s * 1_000 + l);
    lemma_fundamental_div_mod_converse(x, 60_000, h * 60 + m, s * 1_000 + l);
    lemma_fundamental_div_mod_converse(s * 1_000 + l, 1_000, s, l);
    lemma_fundamental_div_mod_converse(x, 1_000, h * 3_600 + m * 60 + s, l);
}

/// A shift by zero leaves a normalized timestamp as it is.
pub proof fn lemma_shift_zero(t: Timestamp)
    requires
        t.is_normalized(),
    ensures
        t.shifted(0) == t,
{
    lemma_ms_then_of_ms(t);
}

/// A shift by zero leaves the millisecond count of any timestamp as it is,
/// as long as its hour count fits the hours field.
pub proof fn lemma_shift_zero_keeps_ms(t: Timestamp)
    requires
        t.keeps_hours(0),
    ensures
        t.shifted(0).ms() == t.ms(),
{
    lemma_of_ms_then_ms(t.ms());
}

/// Two shifts in a row equal one shift by the sum of the offsets, where the
/// first neither stops at zero nor outgrows the hours field.
pub proof fn lemma_shift_twice(t: Timestamp, a: i64, b: i64)
    requires
        0 <= t.ms() + a,
        t.keeps_hours(a as int),
    ensures
        t.shifted(a as int).shifted(b as int) == t.shifted(a + b),
{
    lemma_of_ms_then_ms((t.ms() + a) as nat);
}

/// Where the first of two shifts stops at zero, the second starts from zero:
/// what was cut off is not given back.
pub proof fn lemma_shift_after_clamp(t: Timestamp, a: i64, b: i64)
    requires
        t.ms() + a <= 0,
    ensures
        t.shifted(a as int).shifted(b as int) == Timestamp::of_ms(0).shifted(b as int),
        b >= 0 ==> t.shifted(a as int).shifted(b as int) == Timestamp::of_ms(b as nat),
        b <= 0 ==> t.shifted(a as int).shifted(b as int) == Timestamp::of_ms(0),
{
    lemma_of_ms_then_ms(0);
}

/// Normalized timestamps are ordered as their millisecond counts are.
pub proof fn lemma_order_is_that_of_ms(a: Timestamp, b: Timestamp)
    requires
        a.is_normalized(),
        b.is_normalized(),
    ensures
        a.not_after(b) <==> a.ms() <= b.ms(),
{
}

/// A later millisecond count gives a timestamp that is not earlier, as long
/// as its hour count fits the hours field.
pub proof fn lemma_of_ms_keeps_order(earlier: nat, later: nat)
    requires
        earlier <= later,
        later / (MS_PER_HOUR as nat) < HOURS_MODULUS,
    ensures
        Timestamp::of_ms(earlier).not_after(Timestamp::of_ms(later)),
{
    lemma_div_is_ordered(earlier as int, later as int, 3_600_000);
    lemma_of_ms_then_ms(earlier);
    lemma_of_ms_then_ms(later);
    lemma_order_is_that_of_ms(Timestamp::of_ms(earlier), Timestamp::of_ms(later));
}

} // verus!
