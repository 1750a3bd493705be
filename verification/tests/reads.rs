//! Reads, carried out on images, against what the files hold.

use chd2iso_fuse::cache::{FrameCache, HeaderCache, CD_FRAME_2352};
use chd2iso_fuse::read::{read_image, read_iso_from_cd, read_vcd, ReadJob};
use chd2iso_fuse::track::{CdPayloadKind, TrackInfo, TrackKind};
use chd2iso_fuse::vcd::{build_vcd_header, VCD_HEADER_SIZE};

struct Image {
    hunk_size: usize,
    hunks: Vec<Vec<u8>>,
}

fn image(hunk_size: usize, n: usize) -> Image {
    let mut x: u32 = 12345;
    let mut hunks = Vec::new();
    for _ in 0..n {
        let mut hunk = Vec::with_capacity(hunk_size);
        for _ in 0..hunk_size {
            x = x.wrapping_mul(1_103_515_245).wrapping_add(12345);
            hunk.push((x >> 16) as u8);
        }
        hunks.push(hunk);
    }
    Image { hunk_size, hunks }
}

impl Image {
    fn bytes(&self) -> Vec<u8> {
        self.hunks.concat()
    }

    fn sector(&self, frame_bytes: usize, f: usize) -> &[u8] {
        let per = self.hunk_size / frame_bytes;
        let from = f % per * frame_bytes;
        &self.hunks[f / per][from..from + CD_FRAME_2352]
    }

    /// Carry a read out.  The number of hunks that it took comes with its bytes.
    fn run(&self, mut job: ReadJob, cache: &mut FrameCache) -> (Vec<u8>, usize) {
        let mut taken = 0;
        while !job.advance(cache) {
            let h = job.needed_hunk(self.hunk_size as u32).expect("a hunk");
            job.supply(cache, &self.hunks[h as usize]);
            taken += 1;
        }
        (job.finish(), taken)
    }
}

fn excerpt(file: &[u8], offset: usize, n: usize) -> &[u8] {
    let from = offset.min(file.len());
    &file[from..(from + n).min(file.len())]
}

#[test]
fn a_flat_read_gives_the_bytes_of_the_image() {
    let img = image(4096, 5);
    let file = &img.bytes()[..20_000];
    let mut cache = FrameCache::new(8, 1 << 20);
    for offset in [0, 1, 4095, 4096, 9000, 19_999, 20_000, 30_000] {
        for n in [0, 1, 100, 4096, 4097, 50_000] {
            let job = read_image(9, offset as u64, n as u32, 20_000);
            assert!(job.is_flat());
            assert_eq!(job.file_id(), 9);
            assert_eq!(img.run(job, &mut cache).0, excerpt(file, offset, n), "{offset} {n}");
        }
    }
    // The image is read directly, so nothing is cached.
    assert_eq!(img.run(read_image(9, 0, 10, 20_000), &mut cache).1, 1);
    assert_eq!(img.run(read_image(9, 0, 10, 20_000), &mut cache).1, 1);
}

#[test]
fn the_end_of_a_read_does_not_overflow() {
    let img = image(64, 1);
    let mut cache = FrameCache::new(8, 1 << 20);
    let job = read_image(9, u64::MAX, u32::MAX, 64);
    assert_eq!(img.run(job, &mut cache).0, Vec::<u8>::new());
    let job = read_image(9, 60, u32::MAX, 64);
    assert_eq!(img.run(job, &mut cache).0, &img.hunks[0][60..]);
}

#[test]
fn a_cd_read_gives_the_user_data() {
    let kinds = [
        (CdPayloadKind::Mode1_2048, 16, 2048),
        (CdPayloadKind::Mode2Form1_2048, 24, 2048),
        (CdPayloadKind::Mode2Form2_2324, 24, 2324),
    ];
    for frame_bytes in [2352, 2448] {
        // Three sectors to a hunk, and some bytes that belong to none.
        let img = image(3 * frame_bytes + 50, 4);
        for (kind, start, unit) in kinds {
            let first = 2;
            let mut file = Vec::new();
            for f in first..12 {
                file.extend_from_slice(&img.sector(frame_bytes, f)[start..start + unit]);
            }
            let mut cache = FrameCache::new(4, 1 << 20);
            for offset in [0, 5, unit - 1, unit, 3 * unit + 7, 10 * unit - 1, 10 * unit] {
                for n in [1, 40, unit, unit + 1, 2 * unit + 3, 100_000] {
                    let job = read_iso_from_cd(
                        7,
                        first as u64,
                        kind,
                        offset as u64,
                        n as u32,
                        file.len() as u64,
                        frame_bytes,
                    );
                    assert!(!job.is_flat());
                    assert_eq!(img.run(job, &mut cache).0, excerpt(&file, offset, n));
                }
            }
        }
    }
}

#[test]
fn cached_sectors_are_not_read_again() {
    let img = image(2 * 2352, 4);
    let mut cache = FrameCache::new(16, 1 << 20);
    let job = |offset: u64, n: u32| {
        read_iso_from_cd(7, 0, CdPayloadKind::Mode1_2048, offset, n, 8 * 2048, 2352)
    };
    let (whole, taken) = img.run(job(0, 8 * 2048), &mut cache);
    assert_eq!(taken, 8);
    let (again, taken) = img.run(job(0, 8 * 2048), &mut cache);
    assert_eq!(taken, 0);
    assert_eq!(whole, again);
    // In pieces it is the same.
    let (a, _) = img.run(job(0, 3000), &mut cache);
    let (b, _) = img.run(job(3000, 8 * 2048), &mut cache);
    assert_eq!(whole, [a, b].concat());
    // Another file's sectors are its own.
    let other = read_iso_from_cd(8, 0, CdPayloadKind::Mode1_2048, 0, 2048, 8 * 2048, 2352);
    assert_eq!(img.run(other, &mut cache).1, 1);
}

#[test]
fn a_small_cache_does_not_change_what_is_read() {
    let img = image(4 * 2448, 3);
    let mut cache = FrameCache::new(1, 0);
    let job = || read_iso_from_cd(7, 1, CdPayloadKind::Mode2Form1_2048, 9, 20_000, 22_528, 2448);
    let (a, first) = img.run(job(), &mut cache);
    let (b, second) = img.run(job(), &mut cache);
    assert_eq!(a, b);
    assert_eq!((first, second), (10, 10));
    assert_eq!(a.len(), 20_000);
}

#[test]
fn hunks_too_small_for_a_sector() {
    let job = read_iso_from_cd(7, 0, CdPayloadKind::Mode1_2048, 0, 1, 2048, 2352);
    assert_eq!(job.needed_hunk(2351), None);
    assert_eq!(job.needed_hunk(0), None);
    assert_eq!(job.needed_hunk(2352), Some(0));
    let job = read_iso_from_cd(7, 0, CdPayloadKind::Mode1_2048, 0, 1, 2048, 2448);
    assert_eq!(job.needed_hunk(2447), None);
}

#[test]
fn hunk_numbers_are_cut_to_32_bits() {
    let job = read_image(7, 0x5_0000_0003, 1, u64::MAX);
    assert_eq!(job.needed_hunk(1), Some(3));
    assert_eq!(job.needed_hunk(2), Some(0x8000_0001));
}

#[test]
fn a_vcd_is_its_header_and_the_raw_sectors() {
    let tracks =
        [TrackInfo { number: 1, kind: TrackKind::Mode2Raw, frames: 6, pregap: 0, postgap: 0 }];
    for frame_bytes in [2352, 2448] {
        let img = image(2 * frame_bytes, 3);
        let mut file = build_vcd_header(&tracks, 6);
        for f in 0..6 {
            file.extend_from_slice(img.sector(frame_bytes, f));
        }
        let mut headers = HeaderCache::new(2);
        let mut cache = FrameCache::new(4, 1 << 20);
        let h = VCD_HEADER_SIZE;
        for offset in [0, 1020, h - 1, h, h + 1, h + 2352, h + 6 * 2352 - 1, h + 6 * 2352] {
            for n in [1, 20, 2352, 5000, 2_000_000] {
                let job = read_vcd(
                    &mut headers,
                    7,
                    &tracks,
                    6,
                    frame_bytes,
                    offset as u64,
                    n as u32,
                );
                assert_eq!(img.run(job, &mut cache).0, excerpt(&file, offset, n), "{offset} {n}");
            }
        }
    }
}
