//! The five-byte frame the sensor sends, and the readings it carries.
use vstd::prelude::*;

verus! {

/// Why a measurement failed.
#[derive(Clone, Copy, Debug, PartialEq, Eq, Structural)]
pub enum Error {
    /// The four data bytes do not add up to the checksum byte.
    Crc,
    /// The line did not change level within the polling budget.
    Timeout,
}

/// A temperature in tenths of a degree Celsius.
#[derive(Clone, Copy, Debug, PartialEq, Eq, Structural)]
pub struct Temperature(pub i16);

/// A relative humidity in tenths of a percent.
#[derive(Clone, Copy, Debug, PartialEq, Eq, Structural)]
pub struct Humidity(pub u16);

/// Number of bytes in a frame: two of humidity, two of temperature, one checksum.
pub const FRAME_LEN: usize = 5;

/// The 8-bit wrapping sum of the four data bytes.
pub open spec fn checksum_of(f: Seq<u8>) -> u8 {
    ((f[0] + f[1] + f[2] + f[3]) % 256) as u8
}

/// Tenths of a degree: bit 7 of the integer byte is the sign, the rest the magnitude.
pub open spec fn temperature_tenths(b2: u8, b3: u8) -> int {
    let magnitude = (b2 % 128) * 10 + b3;
    if b2 >= 128 {
        -magnitude
    } else {
        magnitude
    }
}

/// Tenths of a percent.
pub open spec fn humidity_tenths(b0: u8, b1: u8) -> int {
    b0 * 10 + b1
}

/// What a received frame reads as: its readings when the checksum byte
/// matches, else a checksum error.
pub open spec fn decoded(f: Seq<u8>) -> Result<(Temperature, Humidity), Error> {
    if checksum_of(f) != f[4] {
        Err(Error::Crc)
    } else {
        Ok(
            (
                Temperature(temperature_tenths(f[2], f[3]) as i16),
                Humidity(humidity_tenths(f[0], f[1]) as u16),
            ),
        )
    }
}

/// The wrapping sum of bytes 0 to 3 of a frame.
pub fn checksum(data: &[u8; FRAME_LEN]) -> (r: u8)
    ensures
        r == checksum_of(data@),
{
    let s = data[0].wrapping_add(data[1]).wrapping_add(data[2]).wrapping_add(data[3]);
    assert(s == checksum_of(data@));
    s
}

/// Checks a received frame and turns it into a temperature and a humidity.
pub fn decode(data: &[u8; FRAME_LEN]) -> (r: Result<(Temperature, Humidity), Error>)
    ensures
        r == decoded(data@),
{
    if checksum(data) != data[4] {
        return Err(Error::Crc);
    }
    let b2 = data[2];
    let low = b2 & 0x7f;
    assert(low == b2 % 128) by (bit_vector)
        requires
            low == b2 & 0x7f,
    ;
    let mut temp: i16 = (low as i16) * 10 + (data[3] as i16);
    let negative = b2 & 0x80 != 0;
    assert(negative == (b2 >= 128)) by (bit_vector)
        requires
            negative == (b2 & 0x80 != 0),
    ;
    if negative {
        temp = -temp;
    }
    let humidity: u16 = (data[0] as u16) * 10 + (data[1] as u16);
    Ok((Temperature(temp), Humidity(humidity)))
}

} // verus!
