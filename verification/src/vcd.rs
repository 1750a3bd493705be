//! The header of a VCD file: a 1 MiB table of contents in the cue2pops v2.0 layout,
//! which the raw disc image follows.

use vstd::prelude::*;
use crate::bcd::{bcd, law_bcd_byte, law_bcd_tens_and_ones, msf, msf_bcd_from_sectors, to_bcd};
use crate::track::{TrackInfo, TrackKind};

verus! {

/// Size of the VCD header: 1 MiB.
pub const VCD_HEADER_SIZE: usize = 0x10_0000;

/// The pregap that the layout counts in: 2 seconds at 75 sectors a second.
pub const VCD_PREGAP_SECTORS: u32 = 150;

/// The cue2pops v2.0 signature ("kHn "), at offset 0x400.
pub const VCD_SIGNATURE: [u8; 4] = [0x6B, 0x48, 0x6E, 0x20];

/// The most track entries that fit between the descriptors and the signature.
pub const VCD_MAX_TRACKS: usize = 99;

/// The byte that marks a track or a disc as audio or data.
pub open spec fn content_byte(kind: TrackKind) -> u8 {
    if kind == TrackKind::Audio {
        0x01
    } else {
        0x41
    }
}

/// The content byte of the track at the given end of the table; data where there is no
/// track.
pub open spec fn content_at(tracks: Seq<TrackInfo>, i: int) -> u8 {
    if 0 <= i < tracks.len() {
        content_byte(tracks[i].kind)
    } else {
        0x41
    }
}

/// The number of track entries in the header.
pub open spec fn entry_count(tracks: Seq<TrackInfo>) -> int {
    if tracks.len() < 99 {
        tracks.len() as int
    } else {
        99
    }
}

/// The track count that the header states: at least one, at most 99.
pub open spec fn stated_count(tracks: Seq<TrackInfo>) -> int {
    if tracks.len() < 1 {
        1
    } else {
        entry_count(tracks)
    }
}

/// The sectors of the first `n` tracks, without gaps.
pub open spec fn frames_before(tracks: Seq<TrackInfo>, n: int) -> int
    decreases n,
{
    if n <= 0 {
        0
    } else {
        frames_before(tracks, n - 1) + tracks[n - 1].frames
    }
}

/// The sector of INDEX 00 of track `e`.
pub open spec fn index00(tracks: Seq<TrackInfo>, e: int) -> int {
    if e == 0 {
        0
    } else if tracks[e].pregap > 0 {
        frames_before(tracks, e) + 300
    } else {
        frames_before(tracks, e) + 150
    }
}

/// The sector of INDEX 01 of track `e`.
pub open spec fn index01(tracks: Seq<TrackInfo>, e: int) -> int {
    if e == 0 {
        150
    } else if tracks[e].pregap > 0 {
        frames_before(tracks, e) + 450
    } else {
        frames_before(tracks, e) + 150
    }
}

/// The low 32 bits of the sector count, which is what the header states.
pub open spec fn stated_sectors(total_frames: u64) -> u32 {
    (total_frames % 0x1_0000_0000) as u32
}

/// Byte `o` of the 10-byte entry of track `e`.
pub open spec fn entry_byte(tracks: Seq<TrackInfo>, e: int, o: int) -> u8 {
    if o == 0 {
        content_byte(tracks[e].kind)
    } else if o == 2 {
        bcd((tracks[e].number % 100) as int) as u8
    } else if 3 <= o < 6 {
        msf(index00(tracks, e))[o - 3]
    } else if 7 <= o < 10 {
        msf(index01(tracks, e))[o - 7]
    } else {
        0
    }
}

/// Byte `k` of a number of four bytes, least significant first.
pub open spec fn le_byte(x: u32, k: int) -> u8 {
    if k == 0 {
        (x % 256) as u8
    } else if k == 1 {
        ((x / 256) % 256) as u8
    } else if k == 2 {
        ((x / 65536) % 256) as u8
    } else {
        (x / 16777216) as u8
    }
}

/// Byte `i` of the header of a disc with the given tracks and sector count.
pub open spec fn header_byte(tracks: Seq<TrackInfo>, total_frames: u64, i: int) -> u8 {
    // Descriptor A0: first track and disc type.
    if i == 0 {
        content_at(tracks, 0)
    } else if i == 2 {
        0xA0
    } else if i == 7 {
        0x01
    } else if i == 8 {
        0x20
    }  // Descriptor A1: last track and content type.
     else if i == 10 || i == 20 {
        content_at(tracks, tracks.len() - 1)
    } else if i == 12 {
        0xA1
    } else if i == 17 {
        bcd(stated_count(tracks)) as u8
    }  // Descriptor A2: lead-out.
     else if i == 22 {
        0xA2
    } else if 27 <= i < 30 {
        msf(stated_sectors(total_frames) + 150)[i - 27]
    }  // Track entries.
     else if 30 <= i < 30 + 10 * entry_count(tracks) {
        entry_byte(tracks, (i - 30) / 10, (i - 30) % 10)
    }  // Signature and sector counts.
     else if 1024 <= i < 1028 {
        VCD_SIGNATURE@[i - 1024]
    } else if 1032 <= i < 1036 {
        le_byte(stated_sectors(total_frames), i - 1032)
    } else if 1036 <= i < 1040 {
        le_byte(stated_sectors(total_frames), i - 1036)
    } else {
        0
    }
}

/// The VCD header of a disc with the given tracks and sector count.
pub open spec fn vcd_header(tracks: Seq<TrackInfo>, total_frames: u64) -> Seq<u8> {
    Seq::new(VCD_HEADER_SIZE as nat, |i: int| header_byte(tracks, total_frames, i))
}

/// Every sector position that the header states fits in 32 bits, and so does the sum
/// of the sectors of the tracks that it lists.
pub open spec fn header_fits(tracks: Seq<TrackInfo>, total_frames: u64) -> bool {
    &&& stated_sectors(total_frames) + 150 <= u32::MAX
    &&& frames_before(tracks, entry_count(tracks)) <= u32::MAX
    &&& forall|e: int|
        0 <= e < entry_count(tracks) ==> #[trigger] index01(tracks, e) <= u32::MAX
}

proof fn lemma_frames_before_monotone(tracks: Seq<TrackInfo>, i: int, j: int)
    requires
        0 <= i <= j,
    ensures
        0 <= frames_before(tracks, i) <= frames_before(tracks, j),
    decreases j,
{
    if i < j {
        lemma_frames_before_monotone(tracks, i, j - 1);
    } else if j > 0 {
        lemma_frames_before_monotone(tracks, i - 1, j - 1);
    }
}

/// The low 32 bits of a sector count.
pub fn low_word(x: u64) -> (r: u32)
    ensures
        r == stated_sectors(x),
{
    let r: u32 = #[verifier::truncate] (x as u32);
    assert(r == x % 0x1_0000_0000) by (bit_vector)
        requires
            r == x as u32,
    ;
    r
}

fn le_bytes(x: u32) -> (r: [u8; 4])
    ensures
        r@.len() == 4,
        forall|k: int| 0 <= k < 4 ==> #[trigger] r@[k] == le_byte(x, k),
{
    [(x % 256) as u8, ((x / 256) % 256) as u8, ((x / 65536) % 256) as u8, (x / 16777216) as u8]
}

fn content(kind: TrackKind) -> (r: u8)
    ensures
        r == content_byte(kind),
{
    if kind == TrackKind::Audio {
        0x01
    } else {
        0x41
    }
}

/// Whether the positions in the header of such a disc fit in its fields.
pub fn vcd_header_fits(tracks: &[TrackInfo], total_frames: u64) -> (r: bool)
    ensures
        r == header_fits(tracks@, total_frames),
{
    let ghost ts = tracks@;
    if low_word(total_frames) > 0xFFFF_FFFF - VCD_PREGAP_SECTORS {
        return false;
    }
    let n: usize = if tracks.len() < VCD_MAX_TRACKS {
        tracks.len()
    } else {
        VCD_MAX_TRACKS
    };
    let mut sum: u64 = 0;
    let mut e: usize = 0;
    while e < n
        invariant
            e <= n,
            n <= 99,
            ts == tracks@,
            n == entry_count(ts),
            sum == frames_before(ts, e as int),
            sum <= e * 0xFFFF_FFFF,
            forall|j: int| 0 <= j < e ==> #[trigger] index01(ts, j) <= u32::MAX,
        decreases n - e,
    {
        let t: TrackInfo = tracks[e];
        let position: u64 = if e == 0 {
            150
        } else if t.pregap > 0 {
            sum + 450
        } else {
            sum + 150
        };
        assert(position == index01(ts, e as int));
        if position > 0xFFFF_FFFF {
            return false;
        }
        sum = sum + t.frames as u64;
        e += 1;
    }
    sum <= 0xFFFF_FFFF
}

fn entry_bytes(tracks: &[TrackInfo], e: usize, accumulated: u32) -> (r: [u8; 10])
    requires
        e < tracks@.len(),
        accumulated == frames_before(tracks@, e as int),
        index01(tracks@, e as int) <= u32::MAX,
    ensures
        forall|k: int| 0 <= k < 10 ==> #[trigger] r@[k] == entry_byte(tracks@, e as int, k),
{
    let t: TrackInfo = tracks[e];
    let (index00_sector, index01_sector): (u32, u32) = if e == 0 {
        (0, VCD_PREGAP_SECTORS)
    } else if t.pregap > 0 {
        let i00: u32 = accumulated + VCD_PREGAP_SECTORS + VCD_PREGAP_SECTORS;
        (i00, i00 + VCD_PREGAP_SECTORS)
    } else {
        let s: u32 = accumulated + VCD_PREGAP_SECTORS;
        (s, s)
    };
    let m0: [u8; 3] = msf_bcd_from_sectors(index00_sector);
    let m1: [u8; 3] = msf_bcd_from_sectors(index01_sector);
    let number: u8 = to_bcd((t.number % 100) as u8);
    [content(t.kind), 0, number, m0[0], m0[1], m0[2], 0, m1[0], m1[1], m1[2]]
}

fn write_entry(h: &mut Vec<u8>, offset: usize, bytes: [u8; 10])
    requires
        offset + 10 <= old(h)@.len(),
    ensures
        final(h)@.len() == old(h)@.len(),
        forall|i: int|
            0 <= i < final(h)@.len() ==> #[trigger] final(h)@[i] == (if offset <= i < offset + 10 {
                bytes@[i - offset]
            } else {
                old(h)@[i]
            }),
{
    let size: usize = h.len();
    let mut k: usize = 0;
    while k < 10
        invariant
            k <= 10,
            offset + 10 <= size,
            h@.len() == size,
            size == old(h)@.len(),
            forall|i: int|
                0 <= i < h@.len() ==> #[trigger] h@[i] == (if offset <= i < offset + k {
                    bytes@[i - offset]
                } else {
                    old(h)@[i]
                }),
        decreases 10 - k,
    {
        h.set(offset + k, bytes[k]);
        k = k + 1;
    }
}

fn write_entries(h: &mut Vec<u8>, tracks: &[TrackInfo], n: usize)
    requires
        n == entry_count(tracks@),
        old(h)@.len() == VCD_HEADER_SIZE,
        frames_before(tracks@, n as int) <= u32::MAX,
        forall|e: int| 0 <= e < n ==> #[trigger] index01(tracks@, e) <= u32::MAX,
    ensures
        final(h)@.len() == VCD_HEADER_SIZE,
        forall|i: int|
            0 <= i < VCD_HEADER_SIZE ==> #[trigger] final(h)@[i] == (if 30 <= i < 30 + 10 * n {
                entry_byte(tracks@, (i - 30) / 10, (i - 30) % 10)
            } else {
                old(h)@[i]
            }),
{
    let mut accumulated: u32 = 0;
    let mut e: usize = 0;
    while e < n
        invariant
            e <= n,
            n == entry_count(tracks@),
            frames_before(tracks@, n as int) <= u32::MAX,
            forall|j: int| 0 <= j < n ==> #[trigger] index01(tracks@, j) <= u32::MAX,
            accumulated == frames_before(tracks@, e as int),
            h@.len() == VCD_HEADER_SIZE,
            forall|i: int|
                0 <= i < VCD_HEADER_SIZE ==> #[trigger] h@[i] == (if 30 <= i < 30 + 10 * e {
                    entry_byte(tracks@, (i - 30) / 10, (i - 30) % 10)
                } else {
                    old(h)@[i]
                }),
        decreases n - e,
    {
        let ghost before = h@;
        let offset: usize = 30 + 10 * e;
        proof {
            assert(index01(tracks@, e as int) <= u32::MAX);
            lemma_frames_before_monotone(tracks@, e + 1, n as int);
        }
        let bytes: [u8; 10] = entry_bytes(tracks, e, accumulated);
        write_entry(h, offset, bytes);
        proof {
            assert forall|i: int| 0 <= i < VCD_HEADER_SIZE implies #[trigger] h@[i] == (if 30 <= i
                < 30 + 10 * (e + 1) {
                entry_byte(tracks@, (i - 30) / 10, (i - 30) % 10)
            } else {
                old(h)@[i]
            }) by {
                if offset <= i < offset + 10 {
                    assert(h@[i] == bytes@[i - offset]);
                    assert((i - 30) / 10 == e && (i - 30) % 10 == i - offset);
                } else {
                    assert(h@[i] == before[i]);
                }
            }
        }
        accumulated = accumulated + tracks[e].frames;
        e += 1;
    }
}

/// Build the 1 MiB VCD header (cue2pops v2.0 layout) for a disc with the given track
/// table and total raw-sector count. See <https://github.com/leji-a/psx-vcd>.
pub fn build_vcd_header(tracks: &[TrackInfo], total_frames: u64) -> (r: Vec<u8>)
    requires
        header_fits(tracks@, total_frames),
    ensures
        r@ == vcd_header(tracks@, total_frames),
{
    let ghost ts = tracks@;
    let mut h: Vec<u8> = vec![0u8; VCD_HEADER_SIZE];

    let total_sectors: u32 = low_word(total_frames);
    let count: usize = tracks.len();
    let track_count: u8 = if count < 1 {
        1
    } else if count > VCD_MAX_TRACKS {
        99
    } else {
        count as u8
    };
    let first_content: u8 = if count == 0 {
        0x41
    } else {
        content(tracks[0].kind)
    };
    let last_content: u8 = if count == 0 {
        0x41
    } else {
        content(tracks[count - 1].kind)
    };

    // Descriptor A0 (first track / disc type).
    h.set(0, first_content);
    h.set(2, 0xA0);
    h.set(7, 0x01);  // first track number
    h.set(8, 0x20);  // CD-XA disc type

    // Descriptor A1 (last track / content type).
    h.set(10, last_content);
    h.set(12, 0xA1);
    h.set(17, to_bcd(track_count));
    h.set(20, last_content);

    // Descriptor A2 (lead-out): 150 sectors are added for the lead-out MSF.
    h.set(22, 0xA2);
    let leadout: [u8; 3] = msf_bcd_from_sectors(total_sectors + VCD_PREGAP_SECTORS);
    h.set(27, leadout[0]);
    h.set(28, leadout[1]);
    h.set(29, leadout[2]);

    // Track entries (10 bytes each), starting at offset 0x1E.
    let n: usize = if count < VCD_MAX_TRACKS {
        count
    } else {
        VCD_MAX_TRACKS
    };
    write_entries(&mut h, tracks, n);

    // Signature at 0x400 and total sector counts at 0x408 / 0x40C.
    let sector_bytes: [u8; 4] = le_bytes(total_sectors);
    h.set(1024, VCD_SIGNATURE[0]);
    h.set(1025, VCD_SIGNATURE[1]);
    h.set(1026, VCD_SIGNATURE[2]);
    h.set(1027, VCD_SIGNATURE[3]);
    h.set(1032, sector_bytes[0]);
    h.set(1033, sector_bytes[1]);
    h.set(1034, sector_bytes[2]);
    h.set(1035, sector_bytes[3]);
    h.set(1036, sector_bytes[0]);
    h.set(1037, sector_bytes[1]);
    h.set(1038, sector_bytes[2]);
    h.set(1039, sector_bytes[3]);
    assert(h@ =~= vcd_header(ts, total_frames));
    h
}

/// A number from its four bytes, least significant first.
pub open spec fn from_le(b: Seq<u8>) -> int {
    b[0] + 256 * b[1] + 65536 * b[2] + 16777216 * b[3]
}

/// Whatever the tracks are, the header is 1 MiB long, bears the signature, and states the
/// sector count twice.
pub proof fn law_header_frame(tracks: Seq<TrackInfo>, total_frames: u64)
    ensures
        vcd_header(tracks, total_frames).len() == VCD_HEADER_SIZE,
        vcd_header(tracks, total_frames).subrange(1024, 1028) == VCD_SIGNATURE@,
        from_le(vcd_header(tracks, total_frames).subrange(1032, 1036)) == stated_sectors(
            total_frames,
        ),
        from_le(vcd_header(tracks, total_frames).subrange(1036, 1040)) == stated_sectors(
            total_frames,
        ),
{
    let h = vcd_header(tracks, total_frames);
    assert(h.subrange(1024, 1028) =~= VCD_SIGNATURE@);
}

/// Track entries do not run into the signature: of more than 99 tracks, the header lists
/// the first 99.  Only the content type, bytes 10 and 20, is that of the very last track.
pub proof fn law_header_lists_99(tracks: Seq<TrackInfo>, total_frames: u64)
    requires
        tracks.len() > 99,
    ensures
        vcd_header(tracks, total_frames) == vcd_header(tracks.take(99), total_frames).update(
            10,
            content_byte(tracks.last().kind),
        ).update(20, content_byte(tracks.last().kind)),
{
    let a = vcd_header(tracks, total_frames);
    let b = vcd_header(tracks.take(99), total_frames).update(
        10,
        content_byte(tracks.last().kind),
    ).update(20, content_byte(tracks.last().kind));
    assert forall|i: int| 0 <= i < VCD_HEADER_SIZE implies a[i] == b[i] by {
        if 30 <= i < 1020 {
            lemma_frames_before_take(tracks, 99, (i - 30) / 10);
        }
    }
    assert(a =~= b);
}

proof fn lemma_frames_before_take(tracks: Seq<TrackInfo>, n: int, e: int)
    requires
        0 <= e <= n <= tracks.len(),
    ensures
        frames_before(tracks.take(n), e) == frames_before(tracks, e),
    decreases e,
{
    if e > 0 {
        lemma_frames_before_take(tracks, n, e - 1);
    }
}

/// The bytes at `at` are a position on the disc: minutes modulo 256, seconds and frames of a
/// 75th of a second, each byte with the tens in its high nibble and the ones in its low one.
pub open spec fn shows_position(h: Seq<u8>, at: int, position: int) -> bool {
    let m = (position / 4500) % 256;
    let s = (position / 75) % 60;
    let f = position % 75;
    &&& h[at] == 16 * ((m / 10) % 16) + m % 10
    &&& h[at + 1] == 16 * (s / 10) + s % 10
    &&& h[at + 2] == 16 * (f / 10) + f % 10
}

/// The fixed bytes of a header: the descriptors A0, A1 and A2, the first track number, the
/// disc type CD-XA and the signature "kHn ".
#[verifier::rlimit(40)]
pub proof fn law_header_marks(tracks: Seq<TrackInfo>, total_frames: u64)
    ensures
        ({
            let h = vcd_header(tracks, total_frames);
            &&& h.len() == 1024 * 1024
            &&& h[2] == 0xA0
            &&& h[7] == 0x01
            &&& h[8] == 0x20
            &&& h[12] == 0xA1
            &&& h[22] == 0xA2
            &&& h[1024] == 0x6B
            &&& h[1025] == 0x48
            &&& h[1026] == 0x6E
            &&& h[1027] == 0x20
        }),
{
}

/// The bytes that state something: all others of a header are 0.
#[verifier::rlimit(40)]
pub proof fn law_header_is_zero_elsewhere(tracks: Seq<TrackInfo>, total_frames: u64, i: int)
    requires
        0 <= i < 1024 * 1024,
        i != 0 && i != 2 && i != 7 && i != 8 && i != 10 && i != 12 && i != 17 && i != 20,
        i != 22 && i != 27 && i != 28 && i != 29,
        30 <= i < 1020 ==> i >= 30 + 10 * tracks.len() || (i - 30) % 10 == 1 || (i - 30) % 10 == 6,
        !(1024 <= i < 1028),
        !(1032 <= i < 1040),
    ensures
        vcd_header(tracks, total_frames)[i] == 0,
{
}

/// The content bytes of a header, of the disc by its first track, of its contents by its
/// last one, and of each of the first 99 tracks, are 0x01 for audio and 0x41 for data of
/// any kind.
#[verifier::rlimit(40)]
pub proof fn law_header_content(tracks: Seq<TrackInfo>, total_frames: u64, e: int)
    requires
        0 <= e < tracks.len(),
    ensures
        ({
            let h = vcd_header(tracks, total_frames);
            &&& h[0] == (if tracks[0].kind is Audio { 0x01u8 } else { 0x41u8 })
            &&& h[10] == (if tracks[tracks.len() - 1].kind is Audio { 0x01u8 } else { 0x41u8 })
            &&& h[20] == h[10]
            &&& e < 99 ==> h[30 + 10 * e] == (if tracks[e].kind is Audio { 0x01u8 } else { 0x41u8 })
        }),
        ({
            let h = vcd_header(Seq::empty(), total_frames);
            h[0] == 0x41 && h[10] == 0x41 && h[20] == 0x41
        }),
{
    let i = 30 + 10 * e;
    assert((i - 30) / 10 == e && (i - 30) % 10 == 0);
}

/// The counts of a header: of tracks, at least 1 and at most 99, by its digits; and twice
/// of sectors, modulo 2^32, least significant byte first.
#[verifier::rlimit(40)]
pub proof fn law_header_counts(tracks: Seq<TrackInfo>, total_frames: u64)
    ensures
        ({
            let h = vcd_header(tracks, total_frames);
            let count = if tracks.len() == 0 {
                1
            } else if tracks.len() > 99 {
                99
            } else {
                tracks.len() as int
            };
            &&& h[17] == 16 * (count / 10) + count % 10
            &&& h[1032] + 256 * h[1033] + 65536 * h[1034] + 16777216 * h[1035] == total_frames
                % 0x1_0000_0000
            &&& h[1036] == h[1032] && h[1037] == h[1033] && h[1038] == h[1034] && h[1039]
                == h[1035]
        }),
{
    law_bcd_byte(stated_count(tracks));
}

#[verifier::rlimit(40)]
proof fn lemma_shows(h: Seq<u8>, at: int, position: int)
    requires
        0 <= position,
        h[at] == msf(position)[0],
        h[at + 1] == msf(position)[1],
        h[at + 2] == msf(position)[2],
    ensures
        shows_position(h, at, position),
{
    law_bcd_byte((position / 4500) % 256);
    law_bcd_byte((position / 75) % 60);
    law_bcd_byte(position % 75);
}

/// The lead-out of a disc lies 150 sectors behind its last one.
#[verifier::rlimit(40)]
pub proof fn law_header_lead_out(tracks: Seq<TrackInfo>, total_frames: u64)
    ensures
        shows_position(
            vcd_header(tracks, total_frames),
            27,
            total_frames as int % 0x1_0000_0000 + 150,
        ),
{
    lemma_shows(
        vcd_header(tracks, total_frames),
        27,
        total_frames as int % 0x1_0000_0000 + 150,
    );
}

proof fn lemma_frames_before_is(tracks: Seq<TrackInfo>, ahead: spec_fn(int) -> int, e: int)
    requires
        0 <= e <= tracks.len(),
        ahead(0) == 0,
        forall|i: int|
            0 <= i < tracks.len() ==> ahead(i + 1) == ahead(i) + (#[trigger] tracks[i]).frames,
    ensures
        frames_before(tracks, e) == ahead(e),
        0 <= frames_before(tracks, e),
    decreases e,
{
    if e > 0 {
        lemma_frames_before_is(tracks, ahead, e - 1);
        assert(ahead(e - 1 + 1) == ahead(e - 1) + tracks[e - 1].frames);
    }
}

proof fn lemma_entry_at(tracks: Seq<TrackInfo>, total_frames: u64, e: int, o: int)
    requires
        0 <= e < tracks.len(),
        e < 99,
        0 <= o < 10,
    ensures
        vcd_header(tracks, total_frames)[30 + 10 * e + o] == entry_byte(tracks, e, o),
{
    let i = 30 + 10 * e + o;
    assert((i - 30) / 10 == e && (i - 30) % 10 == o);
    assert(header_byte(tracks, total_frames, i) == entry_byte(tracks, e, o));
}

#[verifier::rlimit(40)]
proof fn lemma_entry_positions(tracks: Seq<TrackInfo>, total_frames: u64, e: int)
    requires
        0 <= e < tracks.len(),
        e < 99,
        0 <= frames_before(tracks, e),
    ensures
        shows_position(
            vcd_header(tracks, total_frames),
            30 + 10 * e + 3,
            index00(tracks, e),
        ),
        shows_position(
            vcd_header(tracks, total_frames),
            30 + 10 * e + 7,
            index01(tracks, e),
        ),
{
    let h = vcd_header(tracks, total_frames);
    let at = 30 + 10 * e;
    let i00 = index00(tracks, e);
    let i01 = index01(tracks, e);
    assert(h[at + 3] == msf(i00)[0]) by {
        lemma_entry_at(tracks, total_frames, e, 3);
    }
    assert(h[at + 4] == msf(i00)[1]) by {
        lemma_entry_at(tracks, total_frames, e, 4);
    }
    assert(h[at + 5] == msf(i00)[2]) by {
        lemma_entry_at(tracks, total_frames, e, 5);
    }
    assert(h[at + 7] == msf(i01)[0]) by {
        lemma_entry_at(tracks, total_frames, e, 7);
    }
    assert(h[at + 8] == msf(i01)[1]) by {
        lemma_entry_at(tracks, total_frames, e, 8);
    }
    assert(h[at + 9] == msf(i01)[2]) by {
        lemma_entry_at(tracks, total_frames, e, 9);
    }
    lemma_shows(h, at + 3, i00);
    lemma_shows(h, at + 7, i01);
}

/// The entry of each of the first 99 tracks has the last two digits of its number, the tens
/// in the high nibble.
#[verifier::rlimit(40)]
pub proof fn law_header_track_number(
    tracks: Seq<TrackInfo>,
    total_frames: u64,
    e: int,
    hundreds: int,
    tens: int,
    ones: int,
)
    requires
        0 <= e < tracks.len(),
        e < 99,
        0 <= hundreds,
        0 <= tens < 10,
        0 <= ones < 10,
        tracks[e].number == 100 * hundreds + 10 * tens + ones,
    ensures
        vcd_header(tracks, total_frames)[30 + 10 * e + 2] == 16 * tens + ones,
{
    let v = 10 * tens + ones;
    assert(tracks[e].number as int % 100 == v);
    law_bcd_tens_and_ones(tens, ones);
    lemma_entry_at(tracks, total_frames, e, 2);
}

/// Where each of the first 99 tracks begins.  The first track begins at 0 and plays from
/// 150.  Each other one begins behind the sectors of the tracks ahead of it, `ahead`, and
/// 150 more, and plays from there; or, where it has a pregap, begins 150 later, and plays
/// from another 150 later.
#[verifier::rlimit(40)]
pub proof fn law_header_track_positions(
    tracks: Seq<TrackInfo>,
    total_frames: u64,
    e: int,
    ahead: spec_fn(int) -> int,
)
    requires
        0 <= e < tracks.len(),
        e < 99,
        ahead(0) == 0,
        forall|i: int|
            0 <= i < tracks.len() ==> ahead(i + 1) == ahead(i) + (#[trigger] tracks[i]).frames,
    ensures
        shows_position(
            vcd_header(tracks, total_frames),
            30 + 10 * e + 3,
            if e == 0 {
                0
            } else if tracks[e].pregap > 0 {
                ahead(e) + 300
            } else {
                ahead(e) + 150
            },
        ),
        shows_position(
            vcd_header(tracks, total_frames),
            30 + 10 * e + 7,
            if e == 0 {
                150
            } else if tracks[e].pregap > 0 {
                ahead(e) + 450
            } else {
                ahead(e) + 150
            },
        ),
{
    lemma_frames_before_is(tracks, ahead, e);
    lemma_entry_positions(tracks, total_frames, e);
    assert(index00(tracks, e) == (if e == 0 {
        0
    } else if tracks[e].pregap > 0 {
        ahead(e) + 300
    } else {
        ahead(e) + 150
    }));
    assert(index01(tracks, e) == (if e == 0 {
        150
    } else if tracks[e].pregap > 0 {
        ahead(e) + 450
    } else {
        ahead(e) + 150
    }));
}

/// When a header can be made: when the sectors of the disc, modulo 2 to the 32, leave room
/// for 150 more in 32 bits, and so do the positions of the tracks that it lists, the first 99
/// at most, and their sectors together.  `ahead` counts the sectors of the tracks.
#[verifier::rlimit(40)]
pub proof fn law_header_can_be_made(
    tracks: Seq<TrackInfo>,
    total_frames: u64,
    ahead: spec_fn(int) -> int,
)
    requires
        ahead(0) == 0,
        forall|i: int|
            0 <= i < tracks.len() ==> ahead(i + 1) == ahead(i) + (#[trigger] tracks[i]).frames,
    ensures
        header_fits(tracks, total_frames) <==> {
            &&& total_frames % 0x1_0000_0000 + 150 <= 0xFFFF_FFFF
            &&& ahead(if tracks.len() < 99 { tracks.len() as int } else { 99 }) <= 0xFFFF_FFFF
            &&& forall|e: int|
                0 < e < tracks.len() && e < 99 ==> ahead(e) + (if (#[trigger] tracks[e]).pregap
                    > 0 {
                    450int
                } else {
                    150
                }) <= 0xFFFF_FFFF
        },
{
    let n = entry_count(tracks);
    lemma_frames_before_is(tracks, ahead, n);
    assert forall|e: int| 0 <= e < n implies #[trigger] frames_before(tracks, e) == ahead(e) by {
        lemma_frames_before_is(tracks, ahead, e);
    }
    assert forall|e: int| 0 < e < n implies #[trigger] index01(tracks, e) == ahead(e) + (if (
    #[trigger] tracks[e]).pregap > 0 {
        450int
    } else {
        150
    }) by {
        assert(frames_before(tracks, e) == ahead(e));
    }
    if header_fits(tracks, total_frames) {
        assert forall|e: int| 0 < e < tracks.len() && e < 99 implies ahead(e) + (if (
        #[trigger] tracks[e]).pregap > 0 {
            450int
        } else {
            150
        }) <= 0xFFFF_FFFF by {
            assert(index01(tracks, e) <= u32::MAX);
        }
    }
    if forall|e: int|
        0 < e < tracks.len() && e < 99 ==> ahead(e) + (if (#[trigger] tracks[e]).pregap > 0 {
            450int
        } else {
            150
        }) <= 0xFFFF_FFFF {
        assert forall|e: int| 0 <= e < n implies #[trigger] index01(tracks, e) <= u32::MAX by {
            if e > 0 {
                assert(tracks[e].pregap >= 0);
            }
        }
    }
}

} // verus!
