//! Binary-coded decimal and minute:second:frame positions.

use vstd::prelude::*;

verus! {

/// Sectors in one second of disc time.
pub const SECTORS_PER_SECOND: u32 = 75;

/// The byte whose high nibble is the tens of `v` and whose low nibble is its ones.
/// Tens that do not fit in four bits lose their high bits.
pub open spec fn bcd(v: int) -> int {
    (16 * (v / 10)) % 256 + v % 10
}

/// The position `sectors` as minutes, seconds and frames in BCD.  Minutes are kept
/// modulo 256.
pub open spec fn msf(sectors: int) -> Seq<u8> {
    seq![
        bcd((sectors / 4500) % 256) as u8,
        bcd((sectors / 75) % 60) as u8,
        bcd(sectors % 75) as u8,
    ]
}

/// The number that a BCD byte stands for.
pub open spec fn from_bcd(b: int) -> int {
    10 * (b / 16) + b % 16
}

/// Encode a value (0..=99) as a single Binary-Coded-Decimal byte.
pub fn to_bcd(v: u8) -> (r: u8)
    ensures
        r == bcd(v as int),
{
    let hi: u8 = v / 10;
    let lo: u8 = v % 10;
    assert(((hi << 4u8) | lo) == (16 * hi) % 256 + lo) by (bit_vector)
        requires
            lo < 10u8,
    ;
    (hi << 4) | lo
}

/// Convert an LBA sector count into a 3-byte BCD MSF (Minutes:Seconds:Frames).
pub fn msf_bcd_from_sectors(sectors: u32) -> (r: [u8; 3])
    ensures
        r@ == msf(sectors as int),
{
    let frames: u32 = sectors % SECTORS_PER_SECOND;
    let total_seconds: u32 = sectors / SECTORS_PER_SECOND;
    let seconds: u32 = total_seconds % 60;
    let minutes: u32 = total_seconds / 60;
    let low_minutes: u8 = #[verifier::truncate] (minutes as u8);
    assert(low_minutes == minutes % 256) by (bit_vector)
        requires
            low_minutes == minutes as u8,
    ;
    let r: [u8; 3] = [to_bcd(low_minutes), to_bcd(seconds as u8), to_bcd(frames as u8)];
    assert(r@ =~= msf(sectors as int));
    r
}

/// Decoding the BCD byte of a two-digit number gives the number back.
pub proof fn law_bcd_round_trip(v: int)
    requires
        0 <= v <= 99,
    ensures
        0 <= bcd(v) <= 0x99,
        from_bcd(bcd(v)) == v,
{
}

/// The three bytes of a position below one hundred minutes determine it.
pub proof fn law_msf_round_trip(sectors: int)
    requires
        0 <= sectors < 450000,
    ensures
        from_bcd(msf(sectors)[0] as int) * 4500 + from_bcd(msf(sectors)[1] as int) * 75 + from_bcd(
            msf(sectors)[2] as int,
        ) == sectors,
{
    let total_seconds = sectors / 75;
    let m = total_seconds / 60;
    let s = total_seconds % 60;
    let f = sectors % 75;
    assert(sectors / 4500 == m && m % 256 == m);
    law_bcd_round_trip(m);
    law_bcd_round_trip(s);
    law_bcd_round_trip(f);
    assert(msf(sectors) =~= seq![bcd(m) as u8, bcd(s) as u8, bcd(f) as u8]);
    assert(sectors == m * 4500 + s * 75 + f);
}

/// The nibbles of a BCD byte are the last digit of the number and, modulo 16, what stands
/// ahead of it.
#[verifier::rlimit(40)]
pub proof fn law_bcd_digits(v: int)
    requires
        0 <= v <= 255,
    ensures
        0 <= bcd(v) <= 255,
        bcd(v) % 16 == v % 10,
        bcd(v) / 16 == (v / 10) % 16,
{
    law_bcd_byte(v);
    let tens = (v / 10) % 16;
    let ones = v % 10;
    assert((16 * tens + ones) % 16 == ones && (16 * tens + ones) / 16 == tens);
}

/// A BCD byte has the last digit of the number in its low nibble and in its high nibble,
/// modulo 16, what stands ahead of it; a number below 100 is one of two digits.
#[verifier::rlimit(40)]
pub proof fn law_bcd_byte(v: int)
    requires
        0 <= v <= 255,
    ensures
        bcd(v) == 16 * ((v / 10) % 16) + v % 10,
        v < 160 ==> bcd(v) == 16 * (v / 10) + v % 10,
        0 <= bcd(v) <= 255,
{
    let t = v / 10;
    if t < 16 {
        assert(t % 16 == t);
    } else {
        assert(t % 16 == t - 16);
        assert((16 * t) % 256 == 16 * t - 256);
    }
}

/// A number of two digits has its tens in the high nibble and its ones in the low one.
pub proof fn law_bcd_tens_and_ones(tens: int, ones: int)
    requires
        0 <= tens < 10,
        0 <= ones < 10,
    ensures
        bcd(10 * tens + ones) == 16 * tens + ones,
{
    assert((10 * tens + ones) / 10 == tens);
    assert((10 * tens + ones) % 10 == ones);
}

/// The digits of a position: frames of a 75th of a second, seconds below 60, and minutes
/// modulo 256.
#[verifier::rlimit(40)]
pub proof fn law_msf_digits(sectors: int, m: int, s: int, f: int)
    requires
        0 <= m,
        0 <= s < 60,
        0 <= f < 75,
        sectors == (m * 60 + s) * 75 + f,
    ensures
        msf(sectors).len() == 3,
        msf(sectors)[2] % 16 == f % 10,
        msf(sectors)[2] / 16 == f / 10,
        msf(sectors)[1] % 16 == s % 10,
        msf(sectors)[1] / 16 == s / 10,
        msf(sectors)[0] % 16 == (m % 256) % 10,
        msf(sectors)[0] / 16 == ((m % 256) / 10) % 16,
{
    assert(sectors / 4500 == m && (sectors / 75) % 60 == s && sectors % 75 == f);
    law_bcd_digits(m % 256);
    law_bcd_digits(s);
    law_bcd_digits(f);
}

} // verus!
