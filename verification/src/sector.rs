//! Where sectors lie in hunks, and where user data lies in sectors.

use vstd::prelude::*;
use crate::cache::CD_FRAME_2352;
use crate::track::CdPayloadKind;

verus! {

/// Size of a raw CD sector that its 96 subchannel bytes follow.
pub const CD_FRAME_2448: usize = 2448;

/// The sizes that a sector takes in an image: without or with subchannel bytes.
pub open spec fn is_frame_size(frame_bytes: int) -> bool {
    frame_bytes == 2352 || frame_bytes == 2448
}

/// The user data bytes of a sector.
pub open spec fn payload_size(kind: CdPayloadKind) -> int {
    match kind {
        CdPayloadKind::Mode1_2048 => 2048,
        CdPayloadKind::Mode2Form1_2048 => 2048,
        CdPayloadKind::Mode2Form2_2324 => 2324,
    }
}

/// Where the user data begins in a sector: behind the sync bytes and the header, and in
/// mode 2 also behind the subheader.
pub open spec fn payload_start(kind: CdPayloadKind) -> int {
    match kind {
        CdPayloadKind::Mode1_2048 => 16,
        CdPayloadKind::Mode2Form1_2048 => 24,
        CdPayloadKind::Mode2Form2_2324 => 24,
    }
}

/// Sector `k` of a hunk, without subchannel bytes.
pub open spec fn sector_in(hunk: Seq<u8>, frame_bytes: int, k: int) -> Seq<u8> {
    hunk.subrange(k * frame_bytes, k * frame_bytes + CD_FRAME_2352)
}

/// The low 32 bits of a hunk number, which is what an image is asked for.
pub open spec fn hunk_number(n: int) -> u32 {
    (n % 0x1_0000_0000) as u32
}

/// What an image holds, by hunk number: hunks of `hunk_size` bytes.
pub struct Disc {
    pub hunks: spec_fn(u32) -> Seq<u8>,
    pub hunk_size: int,
}

impl Disc {
    pub open spec fn wf(self) -> bool {
        &&& 0 <= self.hunk_size <= u32::MAX
        &&& forall|h: u32| (#[trigger] (self.hunks)(h)).len() == self.hunk_size
    }

    /// Sector `f`, without subchannel bytes.  Each hunk holds as many whole sectors as fit,
    /// and hunk numbers are cut to 32 bits.
    pub open spec fn sector(self, frame_bytes: int, f: int) -> Seq<u8> {
        let per = self.hunk_size / frame_bytes;
        sector_in((self.hunks)(hunk_number(f / per)), frame_bytes, f % per)
    }

    /// The byte at position `p`, hunk behind hunk.
    pub open spec fn byte(self, p: int) -> u8 {
        (self.hunks)(hunk_number(p / self.hunk_size))[p % self.hunk_size]
    }
}

/// A hunk that is large enough holds a sector, and never more sectors than bytes.
pub proof fn lemma_sectors_per_hunk(hunk_size: int, frame_bytes: int)
    requires
        is_frame_size(frame_bytes),
        0 <= hunk_size,
    ensures
        0 <= hunk_size / frame_bytes <= hunk_size,
        0 < hunk_size / frame_bytes <==> frame_bytes <= hunk_size,
        (hunk_size / frame_bytes) * frame_bytes <= hunk_size,
{
    if frame_bytes == 2352 {
        assert(hunk_size / frame_bytes == hunk_size / 2352);
        assert((hunk_size / frame_bytes) * frame_bytes == (hunk_size / 2352) * 2352);
    } else {
        assert(hunk_size / frame_bytes == hunk_size / 2448);
        assert((hunk_size / frame_bytes) * frame_bytes == (hunk_size / 2448) * 2448);
    }
}

/// A sector lies inside its hunk.
pub proof fn lemma_sector_inside(hunk_size: int, frame_bytes: int, k: int)
    requires
        is_frame_size(frame_bytes),
        0 <= hunk_size,
        0 <= k < hunk_size / frame_bytes,
    ensures
        0 <= k * frame_bytes,
        k * frame_bytes + frame_bytes <= hunk_size,
{
    lemma_sectors_per_hunk(hunk_size, frame_bytes);
    let per = hunk_size / frame_bytes;
    assert(0 <= k * frame_bytes && k * frame_bytes + frame_bytes <= per * frame_bytes)
        by (nonlinear_arith)
        requires
            0 <= k < per,
            0 <= frame_bytes,
    ;
}

/// The user data bytes of a sector.
pub fn payload_len(kind: CdPayloadKind) -> (r: usize)
    ensures
        r == payload_size(kind),
{
    match kind {
        CdPayloadKind::Mode1_2048 | CdPayloadKind::Mode2Form1_2048 => 2048,
        CdPayloadKind::Mode2Form2_2324 => 2324,
    }
}

/// Where the user data begins in a sector.
pub fn payload_offset(kind: CdPayloadKind) -> (r: usize)
    ensures
        r == payload_start(kind),
{
    match kind {
        CdPayloadKind::Mode1_2048 => 16,
        CdPayloadKind::Mode2Form1_2048 => 24,
        CdPayloadKind::Mode2Form2_2324 => 24,
    }
}

/// The low 32 bits of a hunk number.
pub fn low_hunk_number(n: u64) -> (r: u32)
    ensures
        r == hunk_number(n as int),
{
    let r: u32 = #[verifier::truncate] (n as u32);
    assert(r == n % 0x1_0000_0000) by (bit_vector)
        requires
            r == n as u32,
    ;
    r
}

/// What kind of data sector the raw sector is, by its mode byte and, in mode 2, the form
/// bit of its submode byte.  A sector of another mode is no data sector.
pub open spec fn sector_payload(sec: Seq<u8>, allow_form2: bool) -> Option<CdPayloadKind> {
    if sec[15] == 1 {
        Some(CdPayloadKind::Mode1_2048)
    } else if sec[15] == 2 {
        // The form bit has the value 0x20.
        if (sec[18] / 32) % 2 == 1 && allow_form2 {
            Some(CdPayloadKind::Mode2Form2_2324)
        } else {
            Some(CdPayloadKind::Mode2Form1_2048)
        }
    } else {
        None
    }
}

/// What kind of data sector the raw sector is, if it is one.
pub fn classify_sector(sec: &[u8], allow_form2: bool) -> (r: Option<CdPayloadKind>)
    requires
        sec@.len() == CD_FRAME_2352,
    ensures
        r == sector_payload(sec@, allow_form2),
{
    let mode: u8 = sec[15];
    if mode == 0x01 {
        Some(CdPayloadKind::Mode1_2048)
    } else if mode == 0x02 {
        // Subheader: bytes 16-23 of the raw sector; the submode is byte 18, and its bit 5
        // (0x20) tells Form 2.
        let sm: u8 = sec[18];
        assert((sm & 0x20u8 != 0) == ((sm / 32) % 2 == 1)) by (bit_vector);
        if (sm & 0x20) != 0 && allow_form2 {
            Some(CdPayloadKind::Mode2Form2_2324)
        } else {
            Some(CdPayloadKind::Mode2Form1_2048)
        }
    } else {
        None
    }
}

/// Sector `k` of a hunk, without subchannel bytes.
pub fn slice_sector(hunk: &[u8], frame_bytes: usize, k: u64) -> (r: &[u8])
    requires
        is_frame_size(frame_bytes as int),
        k < hunk@.len() as int / frame_bytes as int,
        hunk@.len() <= u32::MAX,
    ensures
        r@ == sector_in(hunk@, frame_bytes as int, k as int),
        r@.len() == CD_FRAME_2352,
{
    proof {
        lemma_sector_inside(hunk@.len() as int, frame_bytes as int, k as int);
    }
    let base: usize = (k * frame_bytes as u64) as usize;
    vstd::slice::slice_subrange(hunk, base, base + CD_FRAME_2352)
}

/// A raw sector is a data sector where its mode byte is 1 or 2, whatever its other bytes
/// are.  Of mode 2, the form bit of the submode byte tells the two forms apart, where the
/// second is permitted.
pub proof fn law_sector_kind(sec: Seq<u8>, other: Seq<u8>, allow_form2: bool)
    ensures
        sec[15] == 1 <==> sector_payload(sec, allow_form2) == Some(CdPayloadKind::Mode1_2048),
        sec[15] == 2 && (!allow_form2 || sec[18] % 64 < 32) <==> sector_payload(sec, allow_form2)
            == Some(CdPayloadKind::Mode2Form1_2048),
        sec[15] == 2 && allow_form2 && sec[18] % 64 >= 32 <==> sector_payload(sec, allow_form2)
            == Some(CdPayloadKind::Mode2Form2_2324),
        sec[15] != 1 && sec[15] != 2 <==> sector_payload(sec, allow_form2) is None,
        sec[15] == other[15] && sec[18] == other[18] ==> sector_payload(sec, allow_form2)
            == sector_payload(other, allow_form2),
{
}

/// The user data of a sector: in mode 1, 2048 bytes behind 16; in mode 2, 2048 bytes in
/// form 1 and 2324 bytes in form 2, behind 24.  Error correction follows.
pub proof fn law_user_data_layout(kind: CdPayloadKind)
    ensures
        kind == CdPayloadKind::Mode1_2048 <==> payload_start(kind) == 16,
        kind != CdPayloadKind::Mode1_2048 <==> payload_start(kind) == 24,
        kind == CdPayloadKind::Mode2Form2_2324 <==> payload_size(kind) == 2324,
        kind != CdPayloadKind::Mode2Form2_2324 <==> payload_size(kind) == 2048,
{
}

/// The sectors of a hunk lie one behind the other, each with its subchannel bytes, which
/// are left out: byte `i` of sector `k`.
pub proof fn law_sector_in_hunk(hunk: Seq<u8>, frame_bytes: int, k: int, i: int)
    requires
        frame_bytes == 2352 || frame_bytes == 2448,
        0 <= k,
        0 <= i < 2352,
        k * frame_bytes + frame_bytes <= hunk.len(),
    ensures
        is_frame_size(frame_bytes),
        sector_in(hunk, frame_bytes, k).len() == 2352,
        sector_in(hunk, frame_bytes, k)[i] == hunk[k * frame_bytes + i],
{
    assert(0 <= k * frame_bytes) by (nonlinear_arith)
        requires
            0 <= k,
            0 <= frame_bytes,
    ;
}

/// Where a hunk holds `per` whole sectors, sector `q * per + r` of a disc is sector `r` of
/// hunk `q`, for hunk numbers of 32 bits.
pub proof fn law_sector_of_disc(
    disc: Disc,
    frame_bytes: int,
    per: int,
    q: int,
    r: int,
    i: int,
)
    requires
        disc.wf(),
        frame_bytes == 2352 || frame_bytes == 2448,
        0 < per,
        per * frame_bytes <= disc.hunk_size < (per + 1) * frame_bytes,
        0 <= q < 0x1_0000_0000,
        0 <= r < per,
        0 <= i < 2352,
    ensures
        disc.sector(frame_bytes, q * per + r).len() == 2352,
        disc.sector(frame_bytes, q * per + r)[i] == (disc.hunks)(q as u32)[r * frame_bytes + i],
{
    assert((per + 1) * frame_bytes == per * frame_bytes + frame_bytes) by (nonlinear_arith);
    vstd::arithmetic::div_mod::lemma_fundamental_div_mod_converse(
        disc.hunk_size,
        frame_bytes,
        per,
        disc.hunk_size - per * frame_bytes,
    );
    vstd::arithmetic::div_mod::lemma_fundamental_div_mod_converse(q * per + r, per, q, r);
    lemma_sector_inside(disc.hunk_size, frame_bytes, r);
    assert((disc.hunks)(q as u32).len() == disc.hunk_size);
    law_sector_in_hunk((disc.hunks)(q as u32), frame_bytes, r, i);
}

/// Byte `q * hunk_size + r` of a disc is byte `r` of hunk `q`, for hunk numbers of 32 bits.
pub proof fn law_byte_of_disc(disc: Disc, q: int, r: int)
    requires
        0 <= q < 0x1_0000_0000,
        0 <= r < disc.hunk_size,
    ensures
        disc.byte(q * disc.hunk_size + r) == (disc.hunks)(q as u32)[r],
{
    vstd::arithmetic::div_mod::lemma_fundamental_div_mod_converse(
        q * disc.hunk_size + r,
        disc.hunk_size,
        q,
        r,
    );
}

/// Hunk numbers are cut to 32 bits.
pub proof fn law_hunk_numbers_wrap(n: int, k: int)
    requires
        0 <= n < 0x1_0000_0000,
        0 <= k,
    ensures
        hunk_number(n + k * 0x1_0000_0000) == n,
{
}

} // verus!
