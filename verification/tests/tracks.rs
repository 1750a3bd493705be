//! Track lines, track tables and the table of contents.

use chd::metadata::{KnownMetadata, MetadataTag};
use chd2iso_fuse::track::{
    first_data_track, parse_all_tracks_from_metadata, parse_cd_toc_from_metadata,
    parse_track_line, toc_positions_fit, CdPayloadKind, MetaRecord, TrackInfo, TrackKind,
};

fn record(tag: u32, text: &str) -> MetaRecord {
    MetaRecord { tag, value: text.as_bytes().to_vec() }
}

fn track(number: u32, kind: TrackKind, frames: u32, pregap: u32, postgap: u32) -> TrackInfo {
    TrackInfo { number, kind, frames, pregap, postgap }
}

#[test]
fn parse_mode1_track_line() {
    let line = "TRACK:1 TYPE:MODE1 SUBTYPE:NONE FRAMES:26888 PREGAP:0 PGTYPE:MODE1 PGSUB:RW_RAW POSTGAP:0";
    let ti = parse_track_line(line).expect("should parse MODE1 track");

    assert_eq!(ti.number, 1);
    assert_eq!(ti.kind, TrackKind::Mode1);
    assert_eq!(ti.frames, 26888);
    assert_eq!(ti.pregap, 0);
    assert_eq!(ti.postgap, 0);
}

#[test]
fn parse_mode2_2048_track_line() {
    let line = "TRACK:2 TYPE:MODE2/2048 FRAMES:1234 PREGAP:5 POSTGAP:6";
    let ti = parse_track_line(line).expect("should parse MODE2/2048 track");

    assert_eq!(ti.number, 2);
    assert_eq!(ti.kind, TrackKind::Mode2Form1);
    assert_eq!(ti.frames, 1234);
    assert_eq!(ti.pregap, 5);
    assert_eq!(ti.postgap, 6);
}

#[test]
fn parse_mode2_2324_track_line() {
    let line = "TRACK:3 TYPE:MODE2/2324 FRAMES:567 PREGAP:0 POSTGAP:0";
    let ti = parse_track_line(line).expect("should parse MODE2/2324 track");

    assert_eq!(ti.number, 3);
    assert_eq!(ti.kind, TrackKind::Mode2Form2);
    assert_eq!(ti.frames, 567);
}

#[test]
fn parse_malformed_track_line() {
    let line = "TRACK:4 FRAMES:100";
    assert!(parse_track_line(line).is_none());
}

#[test]
fn track_type_names() {
    let cases = [
        ("MODE1", TrackKind::Mode1),
        ("MODE2/2048", TrackKind::Mode2Form1),
        ("MODE2_FORM1", TrackKind::Mode2Form1),
        ("MODE2/2324", TrackKind::Mode2Form2),
        ("MODE2_FORM2", TrackKind::Mode2Form2),
        ("MODE2/2352", TrackKind::Mode2Raw),
        ("MODE2_RAW", TrackKind::Mode2Raw),
        ("CDI/2352", TrackKind::Mode2Raw),
        ("AUDIO", TrackKind::Audio),
        ("MODE2_X_2048", TrackKind::Mode2Form1),
        ("MODE2-2324B", TrackKind::Mode2Form2),
        ("MODE2_20480_2324", TrackKind::Mode2Form1),
        ("MODE1/2048", TrackKind::Audio),
        ("mode1", TrackKind::Audio),
        ("", TrackKind::Audio),
    ];
    for (name, kind) in cases {
        let ti = parse_track_line(&format!("TRACK:1 TYPE:{name}")).expect("parses");
        assert_eq!(ti.kind, kind, "{name}");
    }
}

#[test]
fn track_line_without_number_or_type() {
    assert!(parse_track_line("").is_none());
    assert!(parse_track_line("TYPE:AUDIO FRAMES:3").is_none());
    assert!(parse_track_line("TRACK:x TYPE:AUDIO").is_none());
    // What comes later counts, even where it writes no number.
    assert!(parse_track_line("TRACK:1 TYPE:AUDIO TRACK:-1").is_none());
    assert!(parse_track_line("TRACK:1 TYPE:AUDIO TRACK:4294967296").is_none());
}

#[test]
fn track_line_fields() {
    // Separators are white space and commas; the value goes on behind the first colon.
    let ti = parse_track_line("TRACK:7,,TYPE:AUDIO\tFRAMES:+9\u{a0}PREGAP:z,POSTGAP:1:2").unwrap();
    assert_eq!(ti, track(7, TrackKind::Audio, 9, 0, 0));
    let ti = parse_track_line("TRACK:4294967295 TYPE:AUDIO FRAMES:007 FRAMES:8").unwrap();
    assert_eq!(ti, track(u32::MAX, TrackKind::Audio, 8, 0, 0));
    let ti = parse_track_line("TRACK:1 TYPE:AUDIO FRAMES:8 FRAMES:").unwrap();
    assert_eq!(ti.frames, 0);
}

#[test]
fn track_table_takes_track_records_in_number_order() {
    let old = KnownMetadata::CdRomTrack.metatag();
    let new = KnownMetadata::CdRomTrack2.metatag();
    let records = vec![
        record(new, "TRACK:2 TYPE:AUDIO FRAMES:20"),
        record(0x4744_4444, "TRACK:9 TYPE:AUDIO"),
        record(old, "TRACK:1 TYPE:MODE1 FRAMES:10"),
        record(new, "no track"),
        record(new, "TRACK:2 TYPE:MODE1 FRAMES:21"),
    ];
    let tracks = parse_all_tracks_from_metadata(&records);
    assert_eq!(
        tracks,
        vec![
            track(1, TrackKind::Mode1, 10, 0, 0),
            track(2, TrackKind::Audio, 20, 0, 0),
            track(2, TrackKind::Mode1, 21, 0, 0),
        ]
    );
}

#[test]
fn track_record_bytes_are_decoded_lossily() {
    let tag = KnownMetadata::CdRomTrack2.metatag();
    // The byte 0xFF becomes a replacement character, which makes the value no number.
    let mut value = b"TRACK:1 TYPE:AUDIO FRAMES:5".to_vec();
    value.push(0xFF);
    let tracks = parse_all_tracks_from_metadata(&[MetaRecord { tag, value }]);
    assert_eq!(tracks, vec![track(1, TrackKind::Audio, 0, 0, 0)]);
    // A trailing zero byte is part of the last value.
    let tracks = parse_all_tracks_from_metadata(&[record(tag, "TRACK:1 TYPE:AUDIO FRAMES:5\0")]);
    assert_eq!(tracks, vec![track(1, TrackKind::Audio, 0, 0, 0)]);
    // Two bytes, one character: an em space separates fields.
    let tracks =
        parse_all_tracks_from_metadata(&[record(tag, "TRACK:1\u{2003}TYPE:AUDIO FRAMES:5")]);
    assert_eq!(tracks, vec![track(1, TrackKind::Audio, 5, 0, 0)]);
}

#[test]
fn toc_finds_the_first_data_track() {
    let tag = KnownMetadata::CdRomTrack2.metatag();
    let records = vec![
        record(tag, "TRACK:2 TYPE:MODE2_RAW FRAMES:500 PREGAP:150 POSTGAP:9"),
        record(tag, "TRACK:1 TYPE:AUDIO FRAMES:1000 PREGAP:20 POSTGAP:3"),
    ];
    assert_eq!(
        parse_cd_toc_from_metadata(&records, false),
        Some((20 + 1000 + 3 + 150, CdPayloadKind::Mode2Form1_2048, Some(500)))
    );
    assert_eq!(parse_cd_toc_from_metadata(&[], false), None);
    assert_eq!(
        parse_cd_toc_from_metadata(&[record(tag, "TRACK:1 TYPE:AUDIO FRAMES:1000")], true),
        None
    );
}

#[test]
fn form2_tracks_need_permission() {
    let tracks = vec![
        track(1, TrackKind::Mode2Form2, 10, 0, 0),
        track(2, TrackKind::Mode1, 20, 2, 0),
    ];
    assert_eq!(
        first_data_track(&tracks, false),
        Some((12, CdPayloadKind::Mode1_2048, Some(20)))
    );
    assert_eq!(
        first_data_track(&tracks, true),
        Some((0, CdPayloadKind::Mode2Form2_2324, Some(10)))
    );
    assert_eq!(first_data_track(&tracks[..1], false), None);
    assert_eq!(
        first_data_track(&[track(1, TrackKind::Mode2Form1, 4, 1, 0)], false),
        Some((1, CdPayloadKind::Mode2Form1_2048, Some(4)))
    );
}

#[test]
fn permission_for_form2_changes_nothing_else() {
    let kinds = [
        TrackKind::Audio,
        TrackKind::Mode1,
        TrackKind::Mode2Form1,
        TrackKind::Mode2Form2,
        TrackKind::Mode2Raw,
    ];
    for a in kinds {
        for b in kinds {
            for c in kinds {
                let tracks = [track(1, a, 10, 1, 2), track(2, b, 20, 3, 4), track(3, c, 30, 5, 6)];
                assert!(toc_positions_fit(&tracks, true) && toc_positions_fit(&tracks, false));
                let with = first_data_track(&tracks, true);
                let without = first_data_track(&tracks, false);
                if let Some((lba, kind, _)) = without {
                    assert_ne!(kind, CdPayloadKind::Mode2Form2_2324);
                    assert!(lba >= with.unwrap().0);
                }
                match with {
                    Some((_, CdPayloadKind::Mode2Form2_2324, _)) => {}
                    _ => assert_eq!(with, without),
                }
            }
        }
    }
}
