//! What images are served as, and the order of the index.

use chd::metadata::{KnownMetadata, MetadataTag};
use chd2iso_fuse::index::{
    build_index_entry, BackingKind, CdProbe, Found, IndexBuilder, IndexEntry, ProbeStep, Settings,
};
use chd2iso_fuse::track::{CdPayloadKind, MetaRecord, TrackInfo, TrackKind};
use std::path::PathBuf;

fn settings(vcd: bool, form2: bool) -> Settings {
    Settings {
        cache_hunks: 256,
        cache_bytes: 1 << 20,
        max_open_chds: 8,
        cd_allow_form2: form2,
        vcd,
        recursive: false,
    }
}

fn record(text: &str) -> MetaRecord {
    MetaRecord { tag: KnownMetadata::CdRomTrack2.metatag(), value: text.as_bytes().to_vec() }
}

fn probe(stem: &str, unit: u32, bytes: u64, s: &Settings) -> CdProbe {
    match build_index_entry(Some(stem), unit, bytes, s) {
        ProbeStep::Metadata(p) => p,
        other => panic!("{other:?}"),
    }
}

fn entry(step: ProbeStep) -> Option<Found> {
    match step {
        ProbeStep::Entry(f) => f,
        other => panic!("{other:?}"),
    }
}

#[test]
fn images_without_cd_sectors_are_served_as_they_are() {
    let s = settings(true, true);
    let (name, kind, size) =
        entry(build_index_entry(Some("Disc"), 2048, 4_700_000_001, &s)).unwrap();
    assert_eq!(name, "Disc.iso");
    assert!(matches!(kind, BackingKind::Dvd2048));
    assert_eq!(size, 4_700_000_001);
    let (name, kind, size) = entry(build_index_entry(None, 512, 1000, &s)).unwrap();
    assert_eq!(name, "unknown.iso");
    assert!(matches!(kind, BackingKind::Raw2048));
    assert_eq!(size, 1000);
}

#[test]
fn cd_images_need_their_metadata() {
    let p = probe("a", 2352, 2352 * 10 + 5, &settings(false, true));
    assert_eq!((p.frame_bytes, p.total_frames, p.vcd, p.allow_form2), (2352, 10, false, true));
    assert_eq!(p.stem, "a");
    let p = probe("a", 2448, 2448 * 7, &settings(true, false));
    assert_eq!((p.frame_bytes, p.total_frames, p.vcd, p.allow_form2), (2448, 7, true, false));
}

#[test]
fn cd_images_with_a_data_track() {
    let p = probe("Game", 2448, 2448 * 1000, &settings(false, false));
    let records = [
        record("TRACK:1 TYPE:MODE1 FRAMES:600 PREGAP:4"),
        record("TRACK:2 TYPE:AUDIO FRAMES:300"),
    ];
    let (name, kind, size) = entry(p.metadata(&records)).unwrap();
    assert_eq!(name, "Game.iso");
    assert_eq!(size, 600 * 2048);
    match kind {
        BackingKind::Cd2352 { first_data_lba, payload_kind, track_frames, frame_bytes } => {
            assert_eq!(first_data_lba, 4);
            assert_eq!(payload_kind, CdPayloadKind::Mode1_2048);
            assert_eq!(track_frames, Some(600));
            assert_eq!(frame_bytes, 2448);
        }
        other => panic!("{other:?}"),
    }
}

#[test]
fn metadata_is_taken_where_its_positions_fit() {
    let records = [record("TRACK:1 TYPE:MODE1 FRAMES:600 PREGAP:4")];
    let p = probe("Game", 2352, 2352 * 1000, &settings(false, false));
    let step = p.checked_metadata(&records).expect("positions fit");
    assert_eq!(entry(step).unwrap().2, 600 * 2048);
    let p = probe("Game", 2352, 2352 * 1000, &settings(false, false));
    assert!(matches!(p.checked_metadata(&[]), Some(ProbeStep::Scan(_))));
    let p = probe("Game", 2352, 2352 * 1000, &settings(true, false));
    assert_eq!(entry(p.checked_metadata(&records).unwrap()).unwrap().0, "Game.vcd");
}

#[test]
fn form2_images_are_served_raw_where_permitted() {
    let records = [record("TRACK:1 TYPE:MODE2/2324 FRAMES:10")];
    let p = probe("Movie", 2352, 2352 * 10, &settings(false, true));
    let (name, kind, size) = entry(p.metadata(&records)).unwrap();
    assert_eq!(name, "Movie (Form2).bin");
    assert_eq!(size, 23240);
    assert!(matches!(
        kind,
        BackingKind::Cd2352 { payload_kind: CdPayloadKind::Mode2Form2_2324, .. }
    ));
    // Where it is not, the first sectors are searched.
    let p = probe("Movie", 2352, 2352 * 10, &settings(false, false));
    assert!(matches!(p.metadata(&records), ProbeStep::Scan(_)));
    // A search does not make it permitted.
    let p = probe("Movie", 2352, 2352 * 10, &settings(false, false));
    assert!(p.scanned(0, CdPayloadKind::Mode2Form2_2324).is_none());
    let p = probe("Movie", 2352, 2352 * 10, &settings(false, true));
    let (name, _, size) = p.scanned(3, CdPayloadKind::Mode2Form2_2324).unwrap();
    assert_eq!((name.as_str(), size), ("Movie (Form2).bin", 7 * 2324));
}

#[test]
fn cd_images_without_a_track_are_served_from_the_sector_found() {
    let p = probe("x", 2352, 2352 * 50, &settings(false, false));
    let p = match p.metadata(&[]) {
        ProbeStep::Scan(p) => p,
        other => panic!("{other:?}"),
    };
    let (name, kind, size) = p.scanned(20, CdPayloadKind::Mode2Form1_2048).unwrap();
    assert_eq!(name, "x.iso");
    assert_eq!(size, 30 * 2048);
    assert!(matches!(
        kind,
        BackingKind::Cd2352 { first_data_lba: 20, track_frames: None, frame_bytes: 2352, .. }
    ));
}

#[test]
fn vcd_entries() {
    let p = probe("Game", 2448, 2448 * 33, &settings(true, false));
    let (name, kind, size) =
        entry(p.metadata(&[record("TRACK:1 TYPE:AUDIO FRAMES:33")])).unwrap();
    assert_eq!(name, "Game.vcd");
    assert_eq!(size, (1 << 20) + 33 * 2352);
    match kind {
        BackingKind::Vcd { total_frames, frame_bytes, tracks } => {
            assert_eq!((total_frames, frame_bytes), (33, 2448));
            assert_eq!(tracks.len(), 1);
            assert_eq!(tracks[0].kind, TrackKind::Audio);
        }
        other => panic!("{other:?}"),
    }
    // Without track metadata, one data track spans the disc.
    let p = probe("Game", 2352, 2352 * 33, &settings(true, false));
    let (_, kind, _) = entry(p.metadata(&[])).unwrap();
    match kind {
        BackingKind::Vcd { tracks, .. } => assert_eq!(
            *tracks,
            vec![TrackInfo {
                number: 1,
                kind: TrackKind::Mode2Form1,
                frames: 33,
                pregap: 0,
                postgap: 0
            }]
        ),
        other => panic!("{other:?}"),
    }
}

fn dvd(name: &str, size: u64) -> Found {
    (name.to_string(), BackingKind::Dvd2048, size)
}

fn names(index: &[IndexEntry]) -> Vec<(&str, u64, u64)> {
    index.iter().map(|e| (e.name.as_str(), e.ino, e.iso_size)).collect()
}

#[test]
fn the_index_is_ordered_by_lower_case_name() {
    let mut b = IndexBuilder::new(PathBuf::from("/src"), false);
    for (n, size) in [("b.iso", 1), ("A.iso", 2), ("a.iso", 3), ("C.iso", 4), ("a.ISO", 5)] {
        b.add(PathBuf::from(n), dvd(n, size));
    }
    let index = b.finish();
    assert_eq!(
        names(&index),
        vec![
            ("A.iso", 2, 2),
            ("a.iso", 3, 3),
            ("a.ISO", 4, 5),
            ("b.iso", 5, 1),
            ("C.iso", 6, 4),
        ]
    );
    assert_eq!(index[0].chd_path, PathBuf::from("A.iso"));
}

#[test]
fn letters_beyond_ascii_are_lowered_too() {
    let mut b = IndexBuilder::new(PathBuf::from("/src"), false);
    for n in ["\u{c9}b", "\u{e9}a", "_", "Z", "\u{1f600}", "\u{ffee}"] {
        b.add(PathBuf::from(n), dvd(n, 0));
    }
    let index = b.finish();
    let got: Vec<&str> = index.iter().map(|e| e.name.as_str()).collect();
    let mut want = vec!["\u{c9}b", "\u{e9}a", "_", "Z", "\u{1f600}", "\u{ffee}"];
    want.sort_by_key(|n| n.to_lowercase());
    assert_eq!(got, want);
    assert_eq!(got[0], "_");
    assert_eq!(got[2], "\u{e9}a");
}

#[test]
fn the_walk_takes_images_and_directories() {
    let mut b = IndexBuilder::new(PathBuf::from("/src"), false);
    assert_eq!(b.next_dir(), Some(PathBuf::from("/src")));
    assert_eq!(
        b.visit(PathBuf::from("/src/a.chd"), false, Some("chd")),
        Some(PathBuf::from("/src/a.chd"))
    );
    assert_eq!(
        b.visit(PathBuf::from("/src/b.CHD"), false, Some("CHD")),
        Some(PathBuf::from("/src/b.CHD"))
    );
    assert_eq!(b.visit(PathBuf::from("/src/c.iso"), false, Some("iso")), None);
    assert_eq!(b.visit(PathBuf::from("/src/d"), false, None), None);
    assert_eq!(b.visit(PathBuf::from("/src/e.chd"), true, Some("chd")), None);
    assert_eq!(b.next_dir(), None);

    let mut b = IndexBuilder::new(PathBuf::from("/src"), true);
    assert_eq!(b.next_dir(), Some(PathBuf::from("/src")));
    assert_eq!(b.visit(PathBuf::from("/src/e"), true, None), None);
    assert_eq!(b.visit(PathBuf::from("/src/f"), true, None), None);
    assert_eq!(b.next_dir(), Some(PathBuf::from("/src/f")));
    assert_eq!(b.next_dir(), Some(PathBuf::from("/src/e")));
    assert_eq!(b.next_dir(), None);
}

/// Walk a tree of (directory, item, is a directory) to its end.  The probe makes something
/// of images whose name does not begin with a `_`.
fn walk_tree(tree: &[(&str, &str, bool)], recursive: bool) -> Vec<String> {
    let mut b = IndexBuilder::new(PathBuf::from("/r"), recursive);
    while let Some(dir) = b.next_dir() {
        for (d, name, is_dir) in tree {
            if dir != PathBuf::from(d) {
                continue;
            }
            let path = dir.join(name);
            let extension = path.extension().and_then(|e| e.to_str()).map(str::to_string);
            if let Some(path) = b.visit(path, *is_dir, extension.as_deref()) {
                if !name.starts_with('_') {
                    b.add(path, dvd(name, 1));
                }
            }
        }
    }
    let index = b.finish();
    index.iter().map(|e| e.chd_path.to_str().unwrap().to_string()).collect()
}

#[test]
fn a_walk_finds_each_image_once() {
    let tree = [
        ("/r", "b.chd", false),
        ("/r", "x", true),
        ("/r", "y.chd", true),
        ("/r", "_skipped.chd", false),
        ("/r", "a.iso", false),
        ("/r/x", "a.CHD", false),
        ("/r/x", "z", true),
        ("/r/x/z", "d.Chd", false),
        ("/r/y.chd", "c.chd", false),
        ("/elsewhere", "e.chd", false),
    ];
    assert_eq!(walk_tree(&tree, false), ["/r/b.chd"]);
    assert_eq!(
        walk_tree(&tree, true),
        ["/r/x/a.CHD", "/r/b.chd", "/r/y.chd/c.chd", "/r/x/z/d.Chd"]
    );
}
