//! The search for the first data sector.

use chd2iso_fuse::scan::{quick_scan_first_data, ScanStep};
use chd2iso_fuse::sector::classify_sector;
use chd2iso_fuse::track::CdPayloadKind;

/// Sectors of the given size with the given mode and submode bytes, `per` to a hunk with
/// some room to spare.
fn image(modes: &[(u8, u8)], frame_bytes: usize, per: usize) -> Vec<Vec<u8>> {
    let mut hunks = Vec::new();
    for chunk in modes.chunks(per) {
        let mut hunk = vec![0xEE; per * frame_bytes + 100];
        for (k, (mode, sm)) in chunk.iter().enumerate() {
            hunk[k * frame_bytes + 15] = *mode;
            hunk[k * frame_bytes + 18] = *sm;
        }
        hunks.push(hunk);
    }
    hunks
}

fn search(
    modes: &[(u8, u8)],
    frame_bytes: usize,
    per: usize,
    total: u64,
    form2: bool,
) -> (u64, CdPayloadKind) {
    let hunks = image(modes, frame_bytes, per);
    let hunk_size = (per * frame_bytes + 100) as u32;
    let mut scan = quick_scan_first_data(total, form2, frame_bytes, hunk_size);
    let mut last = None;
    loop {
        match scan.next() {
            ScanStep::Hunk(h) => {
                assert_ne!(last, Some(h));
                last = Some(h);
                scan.inspect(&hunks[h as usize]);
            }
            ScanStep::Done(f, kind) => return (f, kind),
        }
    }
}

#[test]
fn the_first_data_sector_is_found() {
    let mut modes = vec![(0, 0); 30];
    modes[17] = (1, 0);
    modes[18] = (2, 0);
    for (fb, per) in [(2352, 1), (2352, 4), (2448, 8), (2448, 50)] {
        assert_eq!(search(&modes, fb, per, 30, false), (17, CdPayloadKind::Mode1_2048));
    }
    modes[3] = (2, 0x08);
    assert_eq!(search(&modes, 2448, 8, 30, false), (3, CdPayloadKind::Mode2Form1_2048));
    modes[0] = (2, 0x28);
    assert_eq!(search(&modes, 2352, 8, 30, false), (0, CdPayloadKind::Mode2Form1_2048));
    assert_eq!(search(&modes, 2352, 8, 30, true), (0, CdPayloadKind::Mode2Form2_2324));
}

#[test]
fn without_a_data_sector_the_start_is_taken() {
    assert_eq!(search(&[(0, 0); 10], 2352, 4, 10, true), (0, CdPayloadKind::Mode1_2048));
    assert_eq!(search(&[], 2352, 4, 0, true), (0, CdPayloadKind::Mode1_2048));
    // Sectors behind the end of the disc do not count.
    let mut modes = vec![(0, 0); 10];
    modes[7] = (1, 0);
    assert_eq!(search(&modes, 2352, 10, 7, true), (0, CdPayloadKind::Mode1_2048));
    assert_eq!(search(&modes, 2352, 10, 8, true), (7, CdPayloadKind::Mode1_2048));
}

#[test]
fn two_thousand_sectors_are_searched() {
    let mut modes = vec![(0, 0); 2001];
    modes[2000] = (1, 0);
    assert_eq!(search(&modes, 2352, 300, 2001, false), (0, CdPayloadKind::Mode1_2048));
    modes[1999] = (1, 0);
    assert_eq!(search(&modes, 2352, 300, 2001, false), (1999, CdPayloadKind::Mode1_2048));
}

#[test]
fn sectors_are_told_by_their_mode() {
    let mut sec = vec![0u8; 2352];
    assert_eq!(classify_sector(&sec, true), None);
    sec[15] = 1;
    assert_eq!(classify_sector(&sec, true), Some(CdPayloadKind::Mode1_2048));
    sec[15] = 3;
    assert_eq!(classify_sector(&sec, true), None);
    sec[15] = 2;
    for sm in 0..=255u8 {
        sec[18] = sm;
        let form2 = sm & 0x20 != 0;
        let kind = if form2 {
            CdPayloadKind::Mode2Form2_2324
        } else {
            CdPayloadKind::Mode2Form1_2048
        };
        assert_eq!(classify_sector(&sec, true), Some(kind));
        assert_eq!(classify_sector(&sec, false), Some(CdPayloadKind::Mode2Form1_2048));
    }
}
