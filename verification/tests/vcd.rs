//! The VCD header and the BCD times in it.

use chd2iso_fuse::bcd::{msf_bcd_from_sectors, to_bcd};
use chd2iso_fuse::track::{TrackInfo, TrackKind};
use chd2iso_fuse::vcd::{
    build_vcd_header, low_word, vcd_header_fits, VCD_HEADER_SIZE, VCD_SIGNATURE,
};

fn track(number: u32, kind: TrackKind, frames: u32, pregap: u32) -> TrackInfo {
    TrackInfo { number, kind, frames, pregap, postgap: 0 }
}

#[test]
fn vcd_msf_bcd_conversion() {
    // 0 sectors -> 00:00:00
    assert_eq!(msf_bcd_from_sectors(0), [0x00, 0x00, 0x00]);
    // 150 sectors = 2 seconds -> 00:02:00
    assert_eq!(msf_bcd_from_sectors(150), [0x00, 0x02, 0x00]);
    // 1 minute 30 seconds 50 frames = (90*75 + 50) = 6800 sectors
    assert_eq!(msf_bcd_from_sectors(90 * 75 + 50), [0x01, 0x30, 0x50]);
}

#[test]
fn vcd_header_single_data_track() {
    let tracks = vec![TrackInfo {
        number: 1,
        kind: TrackKind::Mode2Form1,
        frames: 10_000,
        pregap: 0,
        postgap: 0,
    }];
    let total_frames = 10_000u64;
    let h = build_vcd_header(&tracks, total_frames);

    assert_eq!(h.len(), VCD_HEADER_SIZE);

    // Descriptor A0 (data disc, CD-XA).
    assert_eq!(h[0], 0x41);
    assert_eq!(h[2], 0xA0);
    assert_eq!(h[7], 0x01);
    assert_eq!(h[8], 0x20);

    // Descriptor A1 (data content, one track).
    assert_eq!(h[10], 0x41);
    assert_eq!(h[12], 0xA1);
    assert_eq!(h[17], to_bcd(1));
    assert_eq!(h[20], 0x41);

    // Descriptor A2 lead-out = total + 150 sectors.
    assert_eq!(h[22], 0xA2);
    assert_eq!(
        [h[27], h[28], h[29]],
        msf_bcd_from_sectors(total_frames as u32 + 150)
    );

    // First track entry: type DATA, number 1, INDEX 00 = 0, INDEX 01 = 150.
    assert_eq!(h[30], 0x41);
    assert_eq!(h[32], to_bcd(1));
    assert_eq!([h[33], h[34], h[35]], msf_bcd_from_sectors(0));
    assert_eq!([h[37], h[38], h[39]], msf_bcd_from_sectors(150));

    // cue2pops signature and duplicated little-endian sector counts.
    assert_eq!(&h[1024..1028], &VCD_SIGNATURE);
    assert_eq!(&h[1032..1036], &(total_frames as u32).to_le_bytes());
    assert_eq!(&h[1036..1040], &(total_frames as u32).to_le_bytes());
}

#[test]
fn vcd_header_data_plus_audio_track() {
    let tracks = vec![
        TrackInfo {
            number: 1,
            kind: TrackKind::Mode2Form1,
            frames: 20_000,
            pregap: 0,
            postgap: 0,
        },
        TrackInfo {
            number: 2,
            kind: TrackKind::Audio,
            frames: 5_000,
            pregap: 0,
            postgap: 0,
        },
    ];
    let total_frames = 25_000u64;
    let h = build_vcd_header(&tracks, total_frames);

    // Last track is audio -> A1 content type is CDDA (0x01).
    assert_eq!(h[10], 0x01);
    assert_eq!(h[17], to_bcd(2));
    assert_eq!(h[20], 0x01);

    // Track 2 entry (offset 40): audio type, number 2,
    // INDEX 00 = INDEX 01 = track1_frames + 150.
    assert_eq!(h[40], 0x01);
    assert_eq!(h[42], to_bcd(2));
    let expected = msf_bcd_from_sectors(20_000 + 150);
    assert_eq!([h[43], h[44], h[45]], expected);
    assert_eq!([h[47], h[48], h[49]], expected);
}

#[test]
fn bcd_digits() {
    assert_eq!(to_bcd(0), 0x00);
    assert_eq!(to_bcd(9), 0x09);
    assert_eq!(to_bcd(10), 0x10);
    assert_eq!(to_bcd(99), 0x99);
    for v in 0..100u8 {
        let b = to_bcd(v);
        assert_eq!((b >> 4) * 10 + (b & 0x0F), v);
    }
    // Beyond two digits the tens do not fit, and their low bits stay.
    assert_eq!(to_bcd(160), 0x00);
    assert_eq!(to_bcd(255), 0x95);
}

#[test]
fn msf_counts_minutes_seconds_and_frames() {
    assert_eq!(msf_bcd_from_sectors(74), [0x00, 0x00, 0x74]);
    assert_eq!(msf_bcd_from_sectors(75), [0x00, 0x01, 0x00]);
    assert_eq!(msf_bcd_from_sectors(60 * 75 - 1), [0x00, 0x59, 0x74]);
    assert_eq!(msf_bcd_from_sectors(449_999), [0x99, 0x59, 0x74]);
    let value = |b: u8| ((b >> 4) * 10 + (b & 0x0F)) as u32;
    for sectors in (0..450_000).step_by(997) {
        let [m, s, f] = msf_bcd_from_sectors(sectors);
        assert_eq!((value(m) * 60 + value(s)) * 75 + value(f), sectors);
    }
    // 256 minutes come round to none.
    assert_eq!(msf_bcd_from_sectors(256 * 60 * 75), [0x00, 0x00, 0x00]);
}

#[test]
fn vcd_header_track_with_pregap() {
    let tracks = vec![
        track(1, TrackKind::Audio, 1000, 0),
        track(102, TrackKind::Mode1, 2000, 7),
        track(3, TrackKind::Audio, 10, 0),
    ];
    let h = build_vcd_header(&tracks, 3010);
    assert_eq!(h[0], 0x01);
    assert_eq!(h[40], 0x41);
    assert_eq!(h[42], 0x02);
    assert_eq!(h[43..46], msf_bcd_from_sectors(1300));
    assert_eq!(h[47..50], msf_bcd_from_sectors(1450));
    assert_eq!(h[53..56], msf_bcd_from_sectors(3150));
    assert_eq!(h[57..60], msf_bcd_from_sectors(3150));
    // Behind the last entry there is nothing up to the signature.
    assert!(h[60..1024].iter().all(|b| *b == 0));
    assert!(h[1028..1032].iter().all(|b| *b == 0));
    assert!(h[1040..].iter().all(|b| *b == 0));
}

#[test]
fn vcd_header_without_tracks() {
    let h = build_vcd_header(&[], 0x0102_0304);
    assert_eq!((h[0], h[10], h[17], h[20]), (0x41, 0x41, 0x01, 0x41));
    assert!(h[30..1024].iter().all(|b| *b == 0));
    assert_eq!(h[1032..1036], [4, 3, 2, 1]);
    assert_eq!(h[1036..1040], [4, 3, 2, 1]);
}

#[test]
fn vcd_header_lists_at_most_99_tracks() {
    let tracks: Vec<TrackInfo> =
        (1..=120).map(|n| track(n, TrackKind::Audio, 100, 0)).collect();
    let h = build_vcd_header(&tracks, 12_000);
    assert_eq!(h[17], 0x99);
    assert_eq!(h[30 + 98 * 10 + 2], 0x99);
    assert!(h[1020..1024].iter().all(|b| *b == 0));
    assert_eq!(&h[1024..1028], &VCD_SIGNATURE);
    let mut tracks = tracks;
    tracks[119].kind = TrackKind::Mode1;
    let h = build_vcd_header(&tracks, 12_000);
    let mut first = build_vcd_header(&tracks[..99], 12_000);
    assert_eq!((first[10], first[20]), (0x01, 0x01));
    first[10] = 0x41;
    first[20] = 0x41;
    assert_eq!(h, first);
}

#[test]
fn vcd_header_that_does_not_fit() {
    assert!(vcd_header_fits(&[], 0));
    assert!(vcd_header_fits(&[], (u32::MAX - 150) as u64));
    assert!(!vcd_header_fits(&[], (u32::MAX - 149) as u64));
    // Only the low 32 bits of the sector count are stated.
    assert!(vcd_header_fits(&[], 0x1_0000_0000));
    let huge = track(1, TrackKind::Audio, u32::MAX, 0);
    assert!(vcd_header_fits(&[huge], 5));
    assert!(!vcd_header_fits(&[huge, track(2, TrackKind::Audio, 1, 0)], 5));
    let almost = track(1, TrackKind::Audio, u32::MAX - 400, 0);
    assert!(vcd_header_fits(&[almost, track(2, TrackKind::Audio, 1, 0)], 5));
    assert!(!vcd_header_fits(&[almost, track(2, TrackKind::Audio, 1, 1)], 5));
}

#[test]
fn low_words() {
    assert_eq!(low_word(7), 7);
    assert_eq!(low_word(0x1_0000_0007), 7);
    assert_eq!(low_word(u64::MAX), u32::MAX);
}
