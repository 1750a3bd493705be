//! The state of the file system: lookups, attributes, listings, handles and reads.

use chd2iso_fuse::attr::{
    default_file_attr, file_attr_for, root_attr, Attr, FileTime, HostStat, NodeKind,
};
use chd2iso_fuse::fs::{
    inode_attr, lookup_attr, FsError, FsState, Node, ReadStart,
};
use chd2iso_fuse::index::{BackingKind, Found, IndexBuilder, Settings};
use chd2iso_fuse::track::{CdPayloadKind, TrackInfo, TrackKind};
use chd2iso_fuse::vcd::build_vcd_header;
use std::path::PathBuf;
use std::sync::Arc;

fn settings(cache_hunks: usize, max_open_chds: usize) -> Settings {
    Settings {
        cache_hunks,
        cache_bytes: 1 << 24,
        max_open_chds,
        cd_allow_form2: false,
        vcd: false,
        recursive: false,
    }
}

fn state(files: Vec<Found>) -> FsState {
    let mut walk = IndexBuilder::new(PathBuf::from("/src"), false);
    for f in files {
        let path = PathBuf::from(format!("/src/{}.chd", f.0));
        walk.add(path, f);
    }
    let mut fs = FsState::new(settings(16, 2));
    fs.build_index(walk);
    fs
}

fn dvd(name: &str, size: u64) -> Found {
    (name.to_string(), BackingKind::Dvd2048, size)
}

fn three() -> FsState {
    state(vec![dvd("c", 3000), dvd("a", 1), dvd("B", 512)])
}

#[test]
fn lookup_by_name() {
    let fs = three();
    assert_eq!(fs.len(), 3);
    let e = fs.lookup("B").unwrap();
    assert_eq!((e.ino, e.iso_size), (3, 512));
    assert_eq!(e.chd_path, PathBuf::from("/src/B.chd"));
    assert_eq!(fs.lookup("b").unwrap_err(), FsError::NotFound);
    assert_eq!(fs.lookup("").unwrap_err(), FsError::NotFound);
    // Of two files with one name, the first listed one is found.
    let fs = state(vec![dvd("a", 1), dvd("a", 2)]);
    assert_eq!(fs.lookup("a").unwrap().ino, 2);
    assert_eq!(fs.lookup("a").unwrap().iso_size, 1);
}

#[test]
fn getattr_by_inode() {
    let fs = three();
    assert!(matches!(fs.getattr(1), Ok(Node::Root)));
    match fs.getattr(4) {
        Ok(Node::File(e)) => assert_eq!(e.name, "c"),
        _ => panic!("no file"),
    }
    for ino in [0, 5, u64::MAX] {
        assert!(matches!(fs.getattr(ino), Err(FsError::NotFound)));
    }
    assert_eq!(fs.find(2).unwrap().name, "a");
    assert!(fs.find(1).is_none());
}

#[test]
fn attributes_of_files() {
    let fs = three();
    let stat = HostStat { mtime: 1_000, ctime: 2_000, uid: 7, gid: 8 };
    let e = fs.lookup("c").unwrap();
    let want = Attr {
        ino: 4,
        size: 3000,
        blocks: 6,
        atime: FileTime::Now,
        mtime: FileTime::SinceEpoch(1_000),
        ctime: FileTime::SinceEpoch(2_000),
        crtime: FileTime::SinceEpoch(0),
        kind: NodeKind::RegularFile,
        perm: 0o444,
        nlink: 1,
        uid: 7,
        gid: 8,
        rdev: 0,
        flags: 0,
        blksize: 4096,
    };
    assert_eq!(file_attr_for(e, &stat), want);
    assert_eq!(lookup_attr(e, Some(stat), 1, 2), want);
    assert_eq!(inode_attr(e, Some(stat)), Ok(want));
    let filled =
        Attr { mtime: FileTime::Now, ctime: FileTime::Now, uid: 1, gid: 2, ..want };
    assert_eq!(default_file_attr(e, 1, 2), filled);
    assert_eq!(lookup_attr(e, None, 1, 2), filled);
    assert_eq!(inode_attr(e, None), Err(FsError::Io));
    let blocks = |name: &str| default_file_attr(fs.lookup(name).unwrap(), 0, 0).blocks;
    assert_eq!((blocks("a"), blocks("B")), (1, 1));
    let fs = state(vec![dvd("e", 0), dvd("f", u64::MAX)]);
    assert_eq!(default_file_attr(fs.find(2).unwrap(), 0, 0).blocks, 0);
    assert_eq!(default_file_attr(fs.find(3).unwrap(), 0, 0).blocks, 1 << 55);
}

#[test]
fn attributes_of_the_root() {
    let a = root_attr(5, 6);
    assert_eq!((a.ino, a.size, a.blocks, a.perm, a.nlink), (1, 0, 1, 0o755, 2));
    assert_eq!((a.uid, a.gid, a.rdev, a.flags, a.blksize), (5, 6, 0, 0, 4096));
    assert_eq!(a.kind, NodeKind::Directory);
    assert_eq!((a.mtime, a.crtime), (FileTime::Now, FileTime::SinceEpoch(0)));
}

fn listing(fs: &FsState, offset: u64) -> Vec<(u64, u64, NodeKind, String)> {
    let items = fs.readdir(1, offset).unwrap();
    items.into_iter().map(|d| (d.ino, d.offset, d.kind, d.name)).collect()
}

#[test]
fn the_directory_lists_itself_and_the_files() {
    let fs = three();
    let all = listing(&fs, 0);
    assert_eq!(
        all,
        vec![
            (1, 1, NodeKind::Directory, ".".to_string()),
            (1, 2, NodeKind::Directory, "..".to_string()),
            (2, 3, NodeKind::RegularFile, "a".to_string()),
            (3, 4, NodeKind::RegularFile, "B".to_string()),
            (4, 5, NodeKind::RegularFile, "c".to_string()),
        ]
    );
    // A listing goes on behind the entry that it ended with.
    for k in 1..all.len() {
        assert_eq!(listing(&fs, all[k].1), all[k + 1..]);
    }
    // Behind the directory's own entry it goes on with the files.
    assert_eq!(listing(&fs, 1), all[2..]);
    assert_eq!(listing(&fs, u64::MAX), vec![]);
    for d in fs.readdir(1, 0).unwrap() {
        assert_eq!(d.ends_listing(), d.kind == NodeKind::RegularFile);
    }
    assert_eq!(fs.readdir(2, 0).unwrap_err(), FsError::NotDirectory);
    assert_eq!(fs.readdir(0, 0).unwrap_err(), FsError::NotDirectory);
}

#[test]
fn handles_are_numbered_and_released() {
    let mut fs = three();
    assert!(fs.handles_left());
    assert_eq!(fs.open(9, true), Err(FsError::NotFound));
    assert_eq!(fs.open(9, false), Err(FsError::NotFound));
    assert_eq!(fs.open(2, false), Err(FsError::Io));
    assert_eq!(fs.open(2, true), Ok(1));
    assert_eq!(fs.open(2, true), Ok(2));
    assert!(matches!(fs.read(2, 1, 0, 1), Ok(ReadStart::Job(_))));
    fs.release(1);
    assert!(matches!(fs.read(2, 1, 0, 1), Err(FsError::BadHandle)));
    assert!(matches!(fs.read(2, 2, 0, 1), Ok(ReadStart::Job(_))));
    fs.release(77);
    assert_eq!(fs.open(3, true), Ok(3));
}

#[test]
fn refused_and_empty_reads() {
    let mut fs = three();
    assert!(matches!(fs.read(9, 1, 0, 1), Err(FsError::NotFound)));
    assert!(matches!(fs.read(1, 1, 0, 0), Err(FsError::NotFound)));
    assert!(matches!(fs.read(2, 1, 0, 1), Err(FsError::BadHandle)));
    // A read of nothing needs no handle.
    assert!(matches!(fs.read(2, 1, 0, 0), Ok(ReadStart::Nothing)));
}

fn run(fs: &mut FsState, ino: u64, fh: u64, offset: u64, n: u32, hunks: &[Vec<u8>]) -> Vec<u8> {
    let mut job = match fs.read(ino, fh, offset, n) {
        Ok(ReadStart::Job(j)) => j,
        _ => panic!("no job"),
    };
    while !fs.advance(&mut job) {
        assert!(fs.can_store());
        let h = job.needed_hunk(hunks[0].len() as u32).unwrap();
        fs.supply(&mut job, &hunks[h as usize]);
    }
    job.finish()
}

fn hunks(size: usize, n: usize) -> Vec<Vec<u8>> {
    (0..n).map(|h| (0..size).map(|i| (i * 31 + h * 7 + i / 256) as u8).collect()).collect()
}

#[test]
fn reads_of_a_dvd() {
    let mut fs = three();
    let img = hunks(1000, 3);
    let fh = fs.open(4, true).unwrap();
    let bytes = img.concat();
    assert_eq!(run(&mut fs, 4, fh, 0, 10_000, &img), bytes);
    assert_eq!(run(&mut fs, 4, fh, 999, 2, &img), bytes[999..1001]);
    assert_eq!(run(&mut fs, 4, fh, 3000, 5, &img), vec![]);
}

#[test]
fn reads_of_a_cd() {
    let kind = BackingKind::Cd2352 {
        first_data_lba: 1,
        payload_kind: CdPayloadKind::Mode2Form1_2048,
        track_frames: Some(3),
        frame_bytes: 2448,
    };
    let mut fs = state(vec![("x.iso".to_string(), kind, 3 * 2048)]);
    let img = hunks(2 * 2448, 2);
    let mut want = Vec::new();
    for f in 1..4 {
        let at = f % 2 * 2448 + 24;
        want.extend_from_slice(&img[f / 2][at..at + 2048]);
    }
    let fh = fs.open(2, true).unwrap();
    assert_eq!(run(&mut fs, 2, fh, 0, 1 << 20, &img), want);
    assert_eq!(run(&mut fs, 2, fh, 2047, 3, &img), want[2047..2050]);
}

#[test]
fn reads_of_a_vcd() {
    let tracks =
        vec![TrackInfo { number: 1, kind: TrackKind::Audio, frames: 4, pregap: 0, postgap: 0 }];
    let kind =
        BackingKind::Vcd { total_frames: 4, frame_bytes: 2352, tracks: Arc::new(tracks.clone()) };
    let mut fs = state(vec![("x.vcd".to_string(), kind, (1 << 20) + 4 * 2352)]);
    let img = hunks(2 * 2352, 2);
    let mut want = build_vcd_header(&tracks, 4);
    want.extend_from_slice(&img.concat());
    let fh = fs.open(2, true).unwrap();
    assert!(fs.can_read(2, fh, 0, 1));
    assert!(fs.can_read(3, fh, 0, 1));
    assert_eq!(run(&mut fs, 2, fh, 0, 1 << 21, &img), want);
    assert_eq!(run(&mut fs, 2, fh, (1 << 20) - 4, 8, &img), want[(1 << 20) - 4..(1 << 20) + 4]);
    let huge = BackingKind::Vcd {
        total_frames: u32::MAX as u64,
        frame_bytes: 2352,
        tracks: Arc::new(Vec::new()),
    };
    let small = BackingKind::Vcd {
        total_frames: 1,
        frame_bytes: 2352,
        tracks: Arc::new(Vec::new()),
    };
    let mut fs = state(vec![
        ("y.vcd".to_string(), huge, (1 << 20) + u32::MAX as u64 * 2352),
        ("z.vcd".to_string(), small, (1 << 20) + 2352),
    ]);
    let fh = fs.open(2, true).unwrap();
    assert!(!fs.can_read(2, fh, 0, 1));
    // Without bytes of the header it does not matter.
    assert!(fs.can_read(2, fh, 0, 0));
    assert!(fs.can_read(2, fh, 1 << 20, 1));
    assert!(fs.can_read(2, fh + 1, 0, 1));
    // Nor where a header is cached for the handle's file.
    assert!(fs.can_read(3, fh, 0, 1));
    assert!(matches!(fs.read(3, fh, 0, 1), Ok(ReadStart::Job(_))));
    assert!(fs.can_read(2, fh, 0, 1));
}

#[test]
fn open_images_have_slots() {
    let mut fs = three();
    assert_eq!(fs.get_chd(2), None);
    assert_eq!(fs.put_chd(2, 0), None);
    assert_eq!(fs.get_chd(2), Some(0));
    assert_eq!(fs.put_chd(3, 1), None);
    assert_eq!(fs.put_chd(4, 2), Some(0));
    assert_eq!(fs.get_chd(2), None);
    assert_eq!(fs.get_chd(4), Some(2));
}

#[test]
fn capacities_of_zero_are_replaced() {
    let mut fs = FsState::new(settings(0, 0));
    for f in 0..8 {
        assert_eq!(fs.put_chd(f, f), None);
    }
    assert_eq!(fs.put_chd(8, 8), Some(0));
    assert_eq!(fs.len(), 0);
}

#[test]
fn handles_keep_the_path_of_their_image() {
    let mut fs = three();
    let fh = fs.open(3, true).unwrap();
    assert_eq!(fs.image_path(fh), Some(&PathBuf::from("/src/B.chd")));
    assert_eq!(fs.image_path(fh + 1), None);
    // Even where the index is built anew.
    let mut walk = IndexBuilder::new(PathBuf::from("/other"), false);
    walk.add(PathBuf::from("/other/x.chd"), dvd("x", 9));
    fs.build_index(walk);
    assert_eq!(fs.len(), 1);
    assert_eq!(fs.image_path(fh), Some(&PathBuf::from("/src/B.chd")));
    assert!(matches!(fs.read(3, fh, 0, 1), Err(FsError::NotFound)));
    fs.release(fh);
    assert_eq!(fs.image_path(fh), None);
}

#[test]
fn the_nth_file_opened_gets_handle_n() {
    let mut fs = three();
    let mut n = 0;
    for round in 0..20u64 {
        assert_eq!(fs.open(2 + round % 3, false), Err(FsError::Io));
        assert_eq!(fs.open(99, true), Err(FsError::NotFound));
        n += 1;
        assert_eq!(fs.open(2 + round % 3, true), Ok(n));
        if round % 2 == 0 {
            fs.release(n);
        }
        let _ = fs.read(2, n, 0, 1);
        let _ = fs.put_chd(round, round);
        n += 1;
        assert_eq!(fs.alloc_fh(), n);
    }
}

#[test]
fn sector_numbers_beyond_64_bits() {
    let kind = BackingKind::Cd2352 {
        first_data_lba: u64::MAX - 1,
        payload_kind: CdPayloadKind::Mode1_2048,
        track_frames: Some(3),
        frame_bytes: 2352,
    };
    let mut fs = state(vec![("x.iso".to_string(), kind, 3 * 2048)]);
    let fh = fs.open(2, true).unwrap();
    assert!(fs.can_read(2, fh, 0, 2 * 2048));
    assert!(!fs.can_read(2, fh, 0, 2 * 2048 + 1));
    assert!(!fs.can_read(2, fh, 2 * 2048, 1));
    assert!(fs.can_read(2, fh, 3 * 2048, 1));
    assert!(matches!(fs.read(2, fh, 2048, 2048), Ok(ReadStart::Job(_))));
}

#[test]
fn reads_in_pieces_join() {
    let tracks =
        vec![TrackInfo { number: 1, kind: TrackKind::Audio, frames: 4, pregap: 0, postgap: 0 }];
    let kind = BackingKind::Vcd { total_frames: 4, frame_bytes: 2448, tracks: Arc::new(tracks) };
    let mut fs = state(vec![("x.vcd".to_string(), kind, (1 << 20) + 4 * 2352)]);
    let img = hunks(3 * 2448, 2);
    let fh = fs.open(2, true).unwrap();
    let start = (1 << 20) - 100;
    for (a, b) in [(1, 1), (100, 1), (99, 3000), (3000, 3000), (9000, 9000), (20_000, 5)] {
        let left = run(&mut fs, 2, fh, start, a, &img);
        let right = run(&mut fs, 2, fh, start + a as u64, b, &img);
        assert_eq!(run(&mut fs, 2, fh, start, a + b, &img), [left, right].concat());
    }
}

#[test]
fn reads_in_progress_do_not_disturb_each_other() {
    let cd = |frame_bytes: usize| BackingKind::Cd2352 {
        first_data_lba: 0,
        payload_kind: CdPayloadKind::Mode1_2048,
        track_frames: None,
        frame_bytes,
    };
    let files = vec![
        ("a.iso".to_string(), cd(2352), 6 * 2048),
        ("b.iso".to_string(), cd(2448), 6 * 2048),
    ];
    let mut walk = IndexBuilder::new(PathBuf::from("/src"), false);
    for f in files {
        walk.add(PathBuf::from("/src/x.chd"), f);
    }
    // Three sectors fit the cache, so that the reads displace each other's.
    let mut fs = FsState::new(settings(3, 2));
    fs.build_index(walk);
    let images = [hunks(2 * 2352, 3), hunks(3 * 2448 + 7, 2)];
    let fhs = [fs.open(2, true).unwrap(), fs.open(3, true).unwrap()];
    let mut alone = Vec::new();
    for f in 0..2 {
        alone.push(run(&mut fs, 2 + f as u64, fhs[f], 100, 10_000, &images[f]));
    }
    let mut jobs = Vec::new();
    for k in 0..6 {
        match fs.read(2 + k % 2, fhs[(k % 2) as usize], 100, 10_000) {
            Ok(ReadStart::Job(j)) => jobs.push(((k % 2) as usize, j)),
            _ => panic!("no job"),
        }
    }
    let mut going = true;
    while going {
        going = false;
        for (f, job) in jobs.iter_mut() {
            if !fs.advance(job) {
                going = true;
                let h = job.needed_hunk(images[*f][0].len() as u32).unwrap();
                fs.supply(job, &images[*f][h as usize]);
            }
        }
    }
    for (f, job) in jobs {
        assert_eq!(job.finish(), alone[f]);
    }
}
