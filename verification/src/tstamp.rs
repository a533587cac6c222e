//! The packed five-byte timestamp used by group and entry records.
//!
//! Five bytes `b0..b4` carry (year, month, day, hour, minute, second)
//! as a fixed bit-packing of its own; it is not affected by the
//! little-endian convention of the integer fields around it.

use vstd::prelude::*;

use chrono::{Datelike, Timelike};

use crate::error::V1KpdbError;

verus! {

/// A calendar timestamp, held as plain fields.
///
/// The sentinel "never" is year 2999, month 12, day 28, 23:59:59.
#[derive(Clone, Copy, Debug, PartialEq, Eq, Structural)]
pub struct TimeStamp {
    pub year: u16,
    pub month: u8,
    pub day: u8,
    pub hour: u8,
    pub minute: u8,
    pub second: u8,
}

impl TimeStamp {
    /// A calendar-plausible timestamp: every field within the range a
    /// real date and time can take.
    pub open spec fn valid(self) -> bool {
        &&& self.year <= 16383
        &&& 1 <= self.month <= 12
        &&& 1 <= self.day <= 31
        &&& self.hour <= 23
        &&& self.minute <= 59
        &&& self.second <= 59
    }

    /// The widest set of field values that the five-byte packing can
    /// carry faithfully.  Every decoded timestamp lies in it, so packing
    /// and unpacking are mutual inverses on this set; files written by
    /// other tools may hold values (month 0, day 0) that are not
    /// `valid` but are still packable.
    pub open spec fn packable(self) -> bool {
        &&& self.year <= 16383
        &&& self.month <= 15
        &&& self.day <= 31
        &&& self.hour <= 31
        &&& self.minute <= 63
        &&& self.second <= 63
    }

    /// The five-byte packing of `self`.
    pub open spec fn spec_bytes(self) -> Seq<u8> {
        seq![
            (self.year >> 6) as u8,
            (((self.year & 0x3F) << 2) as u8) | (self.month >> 2),
            ((self.month & 0x3) << 6) | (self.day << 1) | (self.hour >> 4),
            ((self.hour & 0xF) << 4) | (self.minute >> 2),
            ((self.minute & 0x3) << 6) | self.second,
        ]
    }

    /// The timestamp that the five bytes of `b` starting at `i` encode.
    pub open spec fn spec_of_bytes(b: Seq<u8>, i: int) -> TimeStamp {
        TimeStamp {
            year: ((b[i] as u16) << 6) | ((b[i + 1] as u16) >> 2),
            month: ((b[i + 1] & 0x3) << 2) | (b[i + 2] >> 6),
            day: (b[i + 2] >> 1) & 0x1F,
            hour: ((b[i + 2] & 0x1) << 4) | (b[i + 3] >> 4),
            minute: ((b[i + 3] & 0xF) << 2) | (b[i + 4] >> 6),
            second: b[i + 4] & 0x3F,
        }
    }

    /// The sentinel that stands for "never expires".
    pub fn never() -> (r: TimeStamp)
        ensures
            r == (TimeStamp { year: 2999, month: 12, day: 28, hour: 23, minute: 59, second: 59 }),
            r.valid(),
    {
        TimeStamp { year: 2999, month: 12, day: 28, hour: 23, minute: 59, second: 59 }
    }

    /// The all-zero timestamp, as files written by reference tools use
    /// for fields they leave unset.
    pub fn zero() -> (r: TimeStamp)
        ensures
            r == (TimeStamp { year: 0, month: 0, day: 0, hour: 0, minute: 0, second: 0 }),
            r.packable(),
    {
        TimeStamp { year: 0, month: 0, day: 0, hour: 0, minute: 0, second: 0 }
    }

    /// Appends the five-byte packing of `self` to `out`.
    pub fn pack_into(&self, out: &mut Vec<u8>)
        requires
            self.packable(),
        ensures
            final(out)@ == old(out)@ + self.spec_bytes(),
    {
        out.push((self.year >> 6) as u8);
        out.push((((self.year & 0x3F) << 2) as u8) | (self.month >> 2));
        out.push(((self.month & 0x3) << 6) | (self.day << 1) | (self.hour >> 4));
        out.push(((self.hour & 0xF) << 4) | (self.minute >> 2));
        out.push(((self.minute & 0x3) << 6) | self.second);
        assert(out@ =~= old(out)@ + self.spec_bytes());
    }

    /// Decodes the five bytes of `s` starting at `pos`.
    pub fn unpack(s: &[u8], pos: usize) -> (r: Result<TimeStamp, V1KpdbError>)
        ensures
            pos + 5 <= s@.len() ==> r == Ok::<TimeStamp, V1KpdbError>(
                TimeStamp::spec_of_bytes(s@, pos as int),
            ),
            pos + 5 > s@.len() ==> r == Err::<TimeStamp, V1KpdbError>(V1KpdbError::ConvertErr),
            r is Ok ==> r->Ok_0.packable(),
    {
        if s.len() < 5 || pos > s.len() - 5 {
            return Err(V1KpdbError::ConvertErr);
        }
        let b0 = s[pos];
        let b1 = s[pos + 1];
        let b2 = s[pos + 2];
        let b3 = s[pos + 3];
        let b4 = s[pos + 4];
        let t = TimeStamp {
            year: ((b0 as u16) << 6) | ((b1 as u16) >> 2),
            month: ((b1 & 0x3) << 2) | (b2 >> 6),
            day: (b2 >> 1) & 0x1F,
            hour: ((b2 & 0x1) << 4) | (b3 >> 4),
            minute: ((b3 & 0xF) << 2) | (b4 >> 6),
            second: b4 & 0x3F,
        };
        proof {
            lemma_unpacked_packable(b0, b1, b2, b3, b4);
        }
        Ok(t)
    }
}

/// Every decoded timestamp lies in the packable set.
proof fn lemma_unpacked_packable(b0: u8, b1: u8, b2: u8, b3: u8, b4: u8)
    by (bit_vector)
    ensures
        ((b0 as u16) << 6) | ((b1 as u16) >> 2) <= 16383,
        ((b1 & 0x3) << 2) | (b2 >> 6) <= 15,
        (b2 >> 1) & 0x1F <= 31,
        ((b2 & 0x1) << 4) | (b3 >> 4) <= 31,
        ((b3 & 0xF) << 2) | (b4 >> 6) <= 63,
        ((b4 & 0x3) << 6) | b4 & 0x3F <= 255,
        b4 & 0x3F <= 63,
{
}

/// Unpacking the packing of any packable timestamp gives the timestamp
/// back, field for field.
pub proof fn lemma_timestamp_pack_round_trip(t: TimeStamp)
    requires
        t.packable(),
    ensures
        TimeStamp::spec_of_bytes(t.spec_bytes(), 0) == t,
{
    lemma_pack_fields(t.year, t.month, t.day, t.hour, t.minute, t.second);
}

/// Decoding the encoding of each field, stated over the scalar fields
/// so that the bit-vector solver can discharge it.
proof fn lemma_pack_fields(y: u16, mo: u8, d: u8, h: u8, mi: u8, s: u8)
    by (bit_vector)
    requires
        y <= 16383,
        mo <= 15,
        d <= 31,
        h <= 31,
        mi <= 63,
        s <= 63,
    ensures
        ((((y >> 6) as u8) as u16) << 6) | ((((((y & 0x3F) << 2) as u8) | (mo >> 2)) as u16) >> 2)
            == y,
        ((((((y & 0x3F) << 2) as u8) | (mo >> 2)) & 0x3) << 2)
            | ((((mo & 0x3) << 6) | (d << 1) | (h >> 4)) >> 6) == mo,
        (((((mo & 0x3) << 6) | (d << 1) | (h >> 4)) >> 1) & 0x1F) == d,
        (((((mo & 0x3) << 6) | (d << 1) | (h >> 4)) & 0x1) << 4)
            | ((((h & 0xF) << 4) | (mi >> 2)) >> 4) == h,
        (((((h & 0xF) << 4) | (mi >> 2)) & 0xF) << 2) | ((((mi & 0x3) << 6) | s) >> 6) == mi,
        (((mi & 0x3) << 6) | s) & 0x3F == s,
{
}

/// For every timestamp within the calendar ranges, decode of encode is
/// the identity: the five-byte packing loses nothing.
pub proof fn lemma_timestamp_round_trip(t: TimeStamp)
    requires
        t.valid(),
    ensures
        TimeStamp::spec_of_bytes(t.spec_bytes(), 0) == t,
{
    lemma_timestamp_pack_round_trip(t);
}

/// Relies on chrono::Local::now and its Datelike and Timelike
/// accessors: the month is 1 to 12, the day 1 to 31, the hour below
/// 24 and the minute and second below 60; nothing can be promised of
/// the year the clock reports.
#[verifier::external_body]
fn now_parts() -> (r: (i32, u32, u32, u32, u32, u32))
    ensures
        1 <= r.1 <= 12,
        1 <= r.2 <= 31,
        r.3 < 24,
        r.4 < 60,
        r.5 < 60,
{
    let n = chrono::Local::now();
    (n.year(), n.month(), n.day(), n.hour(), n.minute(), n.second())
}

/// The current local calendar time, clamped into the range the
/// five-byte packing can carry.
pub fn now() -> (r: TimeStamp)
    ensures
        r.valid(),
{
    let (y, mo, d, h, mi, s) = now_parts();
    let year: u16 = if y < 0 {
        0
    } else if y > 16383 {
        16383
    } else {
        y as u16
    };
    TimeStamp {
        year,
        month: mo as u8,
        day: d as u8,
        hour: h as u8,
        minute: mi as u8,
        second: s as u8,
    }
}

} // verus!
