//! The caches: what they keep, and what leaves first.

use chd2iso_fuse::cache::{FrameCache, HeaderCache, OpenImages, CD_FRAME_2352};
use chd2iso_fuse::track::{TrackInfo, TrackKind};
use chd2iso_fuse::vcd::build_vcd_header;
use std::sync::Arc;

fn frame(b: u8) -> Vec<u8> {
    vec![b; CD_FRAME_2352]
}

#[test]
fn sectors_that_were_put_in_are_found() {
    let mut c = FrameCache::new(4, 1 << 20);
    assert_eq!(c.get(1, 5), None);
    c.put(1, 5, frame(7));
    c.put(2, 5, frame(8));
    assert_eq!(c.get(1, 5), Some(frame(7)));
    assert_eq!(c.get(2, 5), Some(frame(8)));
    assert_eq!(c.get(1, 6), None);
    c.put(1, 5, frame(9));
    assert_eq!(c.get(1, 5), Some(frame(9)));
    assert!(c.can_store());
}

#[test]
fn the_least_recently_used_sector_leaves_a_full_cache() {
    let mut c = FrameCache::new(2, 1 << 20);
    c.put(1, 0, frame(0));
    c.put(1, 1, frame(1));
    assert_eq!(c.get(1, 0), Some(frame(0)));
    c.put(1, 2, frame(2));
    assert_eq!(c.get(1, 1), None);
    assert_eq!(c.get(1, 0), Some(frame(0)));
    assert_eq!(c.get(1, 2), Some(frame(2)));
}

#[test]
fn the_byte_limit_makes_sectors_leave() {
    let mut c = FrameCache::new(100, 2 * CD_FRAME_2352);
    for i in 0..5u8 {
        c.put(1, i as u64, frame(i));
    }
    assert_eq!(c.get(1, 2), None);
    assert_eq!(c.get(1, 3), Some(frame(3)));
    assert_eq!(c.get(1, 4), Some(frame(4)));
    // A limit below one sector still keeps the last one.
    let mut c = FrameCache::new(100, 10);
    c.put(1, 0, frame(0));
    c.put(1, 1, frame(1));
    assert_eq!(c.get(1, 0), None);
    assert_eq!(c.get(1, 1), Some(frame(1)));
}

#[test]
fn replaced_sectors_stay_counted() {
    // Two sectors' bytes are permitted.  The one that is put in twice counts twice, so it
    // leaves when another comes.
    let mut c = FrameCache::new(100, 2 * CD_FRAME_2352);
    c.put(1, 0, frame(0));
    c.put(1, 0, frame(0));
    assert_eq!(c.get(1, 0), Some(frame(0)));
    c.put(1, 1, frame(1));
    assert_eq!(c.get(1, 0), None);
    assert_eq!(c.get(1, 1), Some(frame(1)));
}

#[test]
fn a_byte_count_without_room() {
    let mut c = FrameCache::new(4, usize::MAX);
    assert!(c.can_store());
    c.put(1, 0, frame(0));
    assert!(c.can_store());
}

#[test]
fn headers_are_made_once() {
    let one = [TrackInfo { number: 1, kind: TrackKind::Audio, frames: 9, pregap: 0, postgap: 0 }];
    let mut c = HeaderCache::new(1);
    assert!(!c.has_header(2));
    let a = c.get_vcd_header(2, &one, 9);
    assert_eq!(*a, build_vcd_header(&one, 9));
    // The cached header is served, whatever the tracks are.
    let b = c.get_vcd_header(2, &[], 1);
    assert!(Arc::ptr_eq(&a, &b));
    assert!(c.has_header(2));
    // Another file takes its place.
    let d = c.get_vcd_header(3, &[], 1);
    assert_eq!(*d, build_vcd_header(&[], 1));
    let e = c.get_vcd_header(2, &[], 1);
    assert_eq!(*e, *d);
}

#[test]
fn open_images_are_closed_in_order_of_use() {
    let mut t = OpenImages::new(2);
    assert_eq!(t.get(10), None);
    assert_eq!(t.put(10, 0), None);
    assert_eq!(t.put(11, 1), None);
    assert_eq!(t.get(10), Some(0));
    assert_eq!(t.put(12, 2), Some(1));
    assert_eq!(t.get(11), None);
    assert_eq!(t.get(12), Some(2));
    // The image of a file that is opened again takes the place of the older one.
    assert_eq!(t.put(10, 3), Some(0));
    assert_eq!(t.get(10), Some(3));
}
