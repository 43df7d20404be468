//! Fixes from the B records of an IGC flight log.
//!
//! A B record starts with the letter `B`, then holds the time of day as
//! `hhmmss`, the latitude as two digits of degrees, five digits of
//! thousandths of a minute and `N` or `S`, the longitude as three digits of
//! degrees, five digits of thousandths of a minute and `E` or `W`, a capital
//! letter for the validity of the fix, and the GPS and the pressure altitude
//! in metres, each as five digits or as a minus sign and four digits.
//! Whatever follows is not read.

use vstd::prelude::*;
use vstd::string::StringSliceAdditionalSpecFns;

verus! {

/// What a B record takes of a line.
pub const RECORD_LENGTH: usize = 35;

/// The thousandths of a minute of arc in a degree.
pub const UNITS_PER_DEGREE: i32 = 60000;

/// A fix as a flight recorder logs it.
#[derive(Clone, Copy, Debug, PartialEq, Eq, Structural)]
pub struct Fix {
    /// The time of day, in seconds.
    pub seconds_since_midnight: u32,
    /// The latitude in thousandths of a minute of arc, north positive.
    pub latitude: i32,
    /// The longitude in thousandths of a minute of arc, east positive.
    pub longitude: i32,
    /// The altitude by GPS, in metres.
    pub altitude_gps: i16,
    /// The altitude by pressure, in metres.
    pub altitude_pressure: i16,
}

/// The byte is a decimal digit.
pub open spec fn is_digit(b: u8) -> bool {
    0x30 <= b <= 0x39
}

/// The bytes of `s` from `from` up to `to` are decimal digits.
pub open spec fn digits_in(s: Seq<u8>, from: int, to: int) -> bool {
    forall|i: int| from <= i < to ==> is_digit(#[trigger] s[i])
}

/// The number that the digits of `s` from `from` up to `to` write.
pub open spec fn number_in(s: Seq<u8>, from: int, to: int) -> int
    decreases to - from,
{
    if to <= from {
        0
    } else {
        number_in(s, from, to - 1) * 10 + (s[to - 1] - 0x30)
    }
}

/// One more than the largest number of `len` digits.
pub open spec fn limit(len: nat) -> int
    decreases len,
{
    if len == 0 {
        1
    } else {
        10 * limit((len - 1) as nat)
    }
}

/// The five bytes of `s` from `from` write an altitude: five digits, or a
/// minus sign and four digits.
pub open spec fn is_altitude_in(s: Seq<u8>, from: int) -> bool {
    digits_in(s, from, from + 5) || (s[from] == 0x2d && digits_in(s, from + 1, from + 5))
}

/// The altitude that the five bytes of `s` from `from` write.
pub open spec fn altitude_in(s: Seq<u8>, from: int) -> int {
    if s[from] == 0x2d {
        -number_in(s, from + 1, from + 5)
    } else {
        number_in(s, from, from + 5)
    }
}

/// The line starts with a B record whose altitudes a fix can hold.
pub open spec fn is_b_record(line: Seq<u8>) -> bool {
    &&& line.len() >= RECORD_LENGTH
    &&& line[0] == 0x42
    &&& digits_in(line, 1, 14)
    &&& (line[14] == 0x4e || line[14] == 0x53)
    &&& digits_in(line, 15, 23)
    &&& (line[23] == 0x45 || line[23] == 0x57)
    &&& 0x41 <= line[24] <= 0x5a
    &&& is_altitude_in(line, 25)
    &&& altitude_in(line, 25) <= i16::MAX
    &&& is_altitude_in(line, 30)
    &&& altitude_in(line, 30) <= i16::MAX
}

/// The angle that a record writes as degrees from `from` up to `mid`, as
/// thousandths of a minute from there up to `to`, and as a letter for the
/// hemisphere at `to`, which is `negative` on the southern and the western.
pub open spec fn angle_in(s: Seq<u8>, from: int, mid: int, to: int, negative: u8) -> int {
    let size = number_in(s, from, mid) * UNITS_PER_DEGREE + number_in(s, mid, to);
    if s[to] == negative {
        -size
    } else {
        size
    }
}

/// The fix that a B record holds.
pub open spec fn fix_of(line: Seq<u8>) -> Fix {
    Fix {
        seconds_since_midnight: (number_in(line, 1, 3) * 3600 + number_in(line, 3, 5) * 60
            + number_in(line, 5, 7)) as u32,
        latitude: angle_in(line, 7, 9, 14, 0x53) as i32,
        longitude: angle_in(line, 15, 18, 23, 0x57) as i32,
        altitude_gps: altitude_in(line, 25) as i16,
        altitude_pressure: altitude_in(line, 30) as i16,
    }
}

/// Reads the number that `len` digits write, if digits they are.
fn read_number(bytes: &[u8], from: usize, len: usize) -> (n: Option<u32>)
    requires
        from + len <= bytes.len(),
        len <= 5,
    ensures
        n is Some <==> digits_in(bytes@, from as int, from + len),
        n matches Some(v) ==> v == number_in(bytes@, from as int, from + len) && v < limit(
            len as nat,
        ),
{
    let mut value: u32 = 0;
    let mut i: usize = 0;
    proof {
        reveal_with_fuel(limit, 6);
    }
    while i < len
        invariant
            from + len <= bytes.len(),
            len <= 5,
            i <= len,
            digits_in(bytes@, from as int, from + i),
            value == number_in(bytes@, from as int, from + i),
            value < limit(i as nat),
        decreases len - i,
    {
        let b = bytes[from + i];
        if b < 0x30 || b > 0x39 {
            assert(!is_digit(bytes@[from + i]));
            return None;
        }
        proof {
            reveal_with_fuel(limit, 6);
        }
        value = value * 10 + (b - 0x30) as u32;
        i += 1;
    }
    Some(value)
}

/// Reads the altitude that five bytes write, if they write one that fits.
fn read_altitude(bytes: &[u8], from: usize) -> (altitude: Option<i16>)
    requires
        from + 5 <= bytes.len(),
    ensures
        altitude is Some <==> is_altitude_in(bytes@, from as int) && altitude_in(
            bytes@,
            from as int,
        ) <= i16::MAX,
        altitude matches Some(v) ==> v == altitude_in(bytes@, from as int),
{
    proof {
        reveal_with_fuel(limit, 6);
    }
    if bytes[from] == 0x2d {
        assert(!is_digit(bytes@[from as int]));
        match read_number(bytes, from + 1, 4) {
            Some(v) => Some(-(v as i16)),
            None => None,
        }
    } else {
        match read_number(bytes, from, 5) {
            Some(v) => if v <= 32767 {
                Some(v as i16)
            } else {
                None
            },
            None => {
                assert(!digits_in(bytes@, from + 1, from + 5) || !is_digit(bytes@[from as int]));
                None
            },
        }
    }
}

/// Reads an angle: degrees, thousandths of a minute, and a letter for the
/// hemisphere, which is `positive` or `negative`.
fn read_angle(
    bytes: &[u8],
    from: usize,
    mid: usize,
    to: usize,
    positive: u8,
    negative: u8,
) -> (angle: Option<i32>)
    requires
        from < mid <= from + 3,
        to == mid + 5,
        to < bytes.len(),
        positive != negative,
    ensures
        angle is Some <==> digits_in(bytes@, from as int, to as int) && (bytes@[to as int]
            == positive || bytes@[to as int] == negative),
        angle matches Some(v) ==> v == angle_in(
            bytes@,
            from as int,
            mid as int,
            to as int,
            negative,
        ),
{
    proof {
        reveal_with_fuel(limit, 6);
    }
    let degrees = match read_number(bytes, from, mid - from) {
        Some(v) => v,
        None => {
            return None;
        },
    };
    let minutes = match read_number(bytes, mid, 5) {
        Some(v) => v,
        None => {
            return None;
        },
    };
    let size: i32 = degrees as i32 * UNITS_PER_DEGREE + minutes as i32;
    let letter = bytes[to];
    if letter == positive {
        Some(size)
    } else if letter == negative {
        Some(-size)
    } else {
        None
    }
}

/// Reads the fix of a B record.
///
/// Returns `None` for a line that does not start with a B record, and for a
/// record with an altitude above 32767 m.
pub fn parse_fix(line: &str) -> (fix: Option<Fix>)
    ensures
        fix == if is_b_record(line.spec_bytes()) {
            Some(fix_of(line.spec_bytes()))
        } else {
            None
        },
{
    let bytes = line.as_bytes();
    if bytes.len() < RECORD_LENGTH || bytes[0] != 0x42 {
        return None;
    }
    proof {
        reveal_with_fuel(limit, 6);
    }
    let hours = match read_number(bytes, 1, 2) {
        Some(v) => v,
        None => {
            return None;
        },
    };
    let minutes = match read_number(bytes, 3, 2) {
        Some(v) => v,
        None => {
            return None;
        },
    };
    let seconds = match read_number(bytes, 5, 2) {
        Some(v) => v,
        None => {
            return None;
        },
    };
    let latitude = match read_angle(bytes, 7, 9, 14, 0x4e, 0x53) {
        Some(v) => v,
        None => {
            return None;
        },
    };
    let longitude = match read_angle(bytes, 15, 18, 23, 0x45, 0x57) {
        Some(v) => v,
        None => {
            return None;
        },
    };
    let validity = bytes[24];
    if validity < 0x41 || validity > 0x5a {
        return None;
    }
    let altitude_gps = match read_altitude(bytes, 25) {
        Some(v) => v,
        None => {
            return None;
        },
    };
    let altitude_pressure = match read_altitude(bytes, 30) {
        Some(v) => v,
        None => {
            return None;
        },
    };
    Some(
        Fix {
            seconds_since_midnight: hours * 3600 + minutes * 60 + seconds,
            latitude,
            longitude,
            altitude_gps,
            altitude_pressure,
        },
    )
}

} // verus!
