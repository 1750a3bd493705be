//! Reading a range of a served file.
//!
//! A read is a job that is carried out piece by piece: from cached sectors as far as they
//! reach, and else from the hunk of the image that it asks for.

use vstd::prelude::*;
use crate::cache::{
    entries_after_header, evict, header_served, law_frame_cache_has_room, lemma_evict_members,
    lemma_lru_put, lemma_lru_touch, lemma_put_wf, lemma_touch_wf, lru_at, lru_has, lru_index,
    lru_value, CacheModel, FrameCache, HeaderCache, CD_FRAME_2352,
};
use crate::sector::{
    hunk_number, is_frame_size, lemma_sector_inside, lemma_sectors_per_hunk, low_hunk_number,
    payload_len, payload_offset, payload_size, payload_start, sector_in, slice_sector, Disc,
};
use crate::track::{CdPayloadKind, TrackInfo};
use crate::vcd::{header_fits, vcd_header, VCD_HEADER_SIZE};

verus! {

/// Where the bytes of a file come from.
#[derive(Clone, Copy)]
pub enum Source {
    /// The file is the image as it is.
    Flat,
    /// From position `origin` on, the file is a part of each sector of the image from
    /// sector `base` on: `unit` bytes behind the first `skip` bytes.
    Sectors { origin: u64, base: u64, skip: usize, unit: usize, frame_bytes: usize },
}

impl Source {
    pub open spec fn wf(self) -> bool {
        match self {
            Source::Flat => true,
            Source::Sectors { origin, base, skip, unit, frame_bytes } => {
                &&& is_frame_size(frame_bytes as int)
                &&& unit == 2048 || unit == 2324 || unit == 2352
                &&& skip + unit <= CD_FRAME_2352
            },
        }
    }
}

/// The mathematical reading of a read.
pub struct JobModel {
    /// The file whose image is read.
    pub file_id: u64,
    pub source: Source,
    /// The position in the file at which the read begins.
    pub offset: int,
    /// The position that it has come to.
    pub pos: int,
    /// The position at which it ends.
    pub end: int,
    /// What has been read.
    pub out: Seq<u8>,
}

impl JobModel {
    pub open spec fn wf(self) -> bool {
        &&& self.source.wf()
        &&& 0 <= self.offset <= self.pos <= self.end <= u64::MAX
        &&& self.end - self.offset <= u32::MAX
        &&& self.out.len() == self.pos - self.offset
        &&& self.pos < self.end ==> (self.source matches Source::Sectors {
            origin,
            base,
            skip,
            unit,
            frame_bytes,
        } ==> origin <= self.pos && base + (self.end - 1 - origin) / (unit as int) <= u64::MAX)
    }

    /// Something is left to read.
    pub open spec fn going(self) -> bool {
        self.pos < self.end
    }

    /// The sector that the next byte comes from.
    pub open spec fn sector(self) -> int {
        let s = self.source;
        s->base + (self.pos - s->origin) / (s->unit as int)
    }

    /// The place of the next byte in its part of the sector.
    pub open spec fn within(self) -> int {
        (self.pos - self.source->origin) % (self.source->unit as int)
    }

    /// The key of that sector in the sector cache.
    pub open spec fn key(self) -> (u64, u64) {
        (self.file_id, self.sector() as u64)
    }

    /// The number of bytes that the current sector gives.
    pub open spec fn sector_take(self) -> int {
        if self.source->unit - self.within() < self.end - self.pos {
            self.source->unit - self.within()
        } else {
            self.end - self.pos
        }
    }

    /// The read after it is given the current sector.
    pub open spec fn with_sector(self, frame: Seq<u8>) -> JobModel {
        let from = self.source->skip + self.within();
        JobModel {
            pos: self.pos + self.sector_take(),
            out: self.out + frame.subrange(from, from + self.sector_take()),
            ..self
        }
    }

    /// The number of bytes that the current hunk of `hunk_size` bytes gives, where the
    /// file is the image as it is.
    pub open spec fn hunk_take(self, hunk_size: int) -> int {
        let left = hunk_size - self.pos % hunk_size;
        if left < self.end - self.pos {
            left
        } else {
            self.end - self.pos
        }
    }

    /// The read after it is given the current hunk, where the file is the image as it is.
    pub open spec fn with_hunk(self, hunk: Seq<u8>) -> JobModel {
        let from = self.pos % (hunk.len() as int);
        let take = self.hunk_take(hunk.len() as int);
        JobModel { pos: self.pos + take, out: self.out + hunk.subrange(from, from + take), ..self }
    }

    /// The number of the hunk that is needed, in an image with hunks of `hunk_size` bytes;
    /// none where a hunk does not hold a whole sector.
    pub open spec fn needed_hunk(self, hunk_size: int) -> Option<u32> {
        match self.source {
            Source::Flat => Some(hunk_number(self.pos / hunk_size)),
            Source::Sectors { origin, base, skip, unit, frame_bytes } => if hunk_size
                / (frame_bytes as int) == 0 {
                None
            } else {
                Some(hunk_number(self.sector() / (hunk_size / (frame_bytes as int))))
            },
        }
    }

    /// The sector that the needed hunk holds.
    pub open spec fn sector_of(self, hunk: Seq<u8>) -> Seq<u8> {
        let fb = self.source->frame_bytes as int;
        sector_in(hunk, fb, self.sector() % (hunk.len() as int / fb))
    }
}

/// The read and the sector cache after the read has taken what is cached: sector after
/// sector, as long as the next one is there.
pub open spec fn served(j: JobModel, c: CacheModel) -> (JobModel, CacheModel)
    decreases j.end - j.pos,
{
    if j.wf() && j.going() && j.source is Sectors && lru_has(c.entries, j.key()) {
        proof {
            lemma_sector_take(j);
        }
        served(j.with_sector(lru_value(c.entries, j.key())), c.touch(j.key()))
    } else {
        (j, c)
    }
}

/// The read and the sector cache after the read is given the hunk that it needs.
pub open spec fn supplied(j: JobModel, c: CacheModel, hunk: Seq<u8>) -> (JobModel, CacheModel) {
    match j.source {
        Source::Flat => (j.with_hunk(hunk), c),
        Source::Sectors { origin, base, skip, unit, frame_bytes } => {
            let frame = j.sector_of(hunk);
            (j.with_sector(frame), c.put(j.key(), frame))
        },
    }
}

/// The hunk can be given to the read: it is as large as hunks are and large enough.
pub open spec fn can_supply(j: JobModel, c: CacheModel, hunk_size: int) -> bool {
    match j.source {
        Source::Flat => 0 < hunk_size <= u32::MAX,
        Source::Sectors { origin, base, skip, unit, frame_bytes } => {
            &&& frame_bytes <= hunk_size <= u32::MAX
            &&& c.has_room()
        },
    }
}

/// While there is something to read, the current sector gives at least one byte, and no
/// more than are left in it and in the read.
pub proof fn lemma_sector_take(j: JobModel)
    requires
        j.wf(),
        j.going(),
        j.source is Sectors,
    ensures
        0 <= j.within() < j.source->unit,
        0 < j.sector_take() <= j.source->unit - j.within(),
        j.sector_take() <= j.end - j.pos,
        j.source->base <= j.sector() <= u64::MAX,
{
    let d = j.pos - j.source->origin;
    let e = j.end - 1 - j.source->origin;
    let u = j.source->unit as int;
    if u == 2048 {
        assert(d / u == d / 2048 && d % u == d % 2048 && e / u == e / 2048);
    } else if u == 2324 {
        assert(d / u == d / 2324 && d % u == d % 2324 && e / u == e / 2324);
    } else {
        assert(d / u == d / 2352 && d % u == d % 2352 && e / u == e / 2352);
    }
}

proof fn lemma_sector_step(j: JobModel, frame: Seq<u8>)
    requires
        j.wf(),
        j.going(),
        j.source is Sectors,
        frame.len() == CD_FRAME_2352,
    ensures
        j.pos < j.with_sector(frame).pos <= j.end,
        j.with_sector(frame).wf(),
{
    lemma_sector_take(j);
}

/// A read of a served file under way.
pub struct ReadJob {
    file_id: u64,
    source: Source,
    offset: u64,
    pos: u64,
    end: u64,
    out: Vec<u8>,
}

impl View for ReadJob {
    type V = JobModel;

    closed spec fn view(&self) -> JobModel {
        JobModel {
            file_id: self.file_id,
            source: self.source,
            offset: self.offset as int,
            pos: self.pos as int,
            end: self.end as int,
            out: self.out@,
        }
    }
}

fn extend(out: &mut Vec<u8>, bytes: &[u8], from: usize, take: usize)
    requires
        from + take <= bytes@.len(),
        bytes@.len() <= usize::MAX,
    ensures
        final(out)@ == old(out)@ + bytes@.subrange(from as int, from + take),
{
    let part: &[u8] = vstd::slice::slice_subrange(bytes, from, from + take);
    out.extend_from_slice(part);
    assert(out@ =~= old(out)@ + bytes@.subrange(from as int, from + take));
}

/// Where a read of `size` bytes at `offset` ends in a file of `len` bytes: at the end of
/// the file at the latest, and at its own start where that lies beyond.
pub open spec fn read_end(len: int, offset: int, size: int) -> int {
    if offset >= len {
        offset
    } else if offset + size < len {
        offset + size
    } else {
        len
    }
}

/// A read of `size` bytes at `offset` of an image that is served as it is, as a file of
/// `len` bytes.
pub open spec fn flat_job(file_id: u64, offset: int, size: int, len: int) -> JobModel {
    JobModel {
        file_id,
        source: Source::Flat,
        offset,
        pos: offset,
        end: read_end(len, offset, size),
        out: Seq::empty(),
    }
}

/// The user data of a disc from sector `start_frame` on.
pub open spec fn cd_source(start_frame: u64, kind: CdPayloadKind, frame_bytes: usize) -> Source {
    Source::Sectors {
        origin: 0,
        base: start_frame,
        skip: payload_start(kind) as usize,
        unit: payload_size(kind) as usize,
        frame_bytes,
    }
}

/// A read of `size` bytes at `offset` of the user data of a disc from sector
/// `start_frame` on, as a file of `max_len` bytes.
pub open spec fn cd_job(
    file_id: u64,
    start_frame: u64,
    kind: CdPayloadKind,
    offset: int,
    size: int,
    max_len: int,
    frame_bytes: usize,
) -> JobModel {
    JobModel {
        file_id,
        source: cd_source(start_frame, kind, frame_bytes),
        offset,
        pos: offset,
        end: read_end(max_len, offset, size),
        out: Seq::empty(),
    }
}

/// The number of the last sector that such a read takes fits in 64 bits.
pub open spec fn cd_fits(
    start_frame: int,
    kind: CdPayloadKind,
    offset: int,
    size: int,
    max_len: int,
) -> bool {
    offset < max_len && size > 0 ==> start_frame + (read_end(max_len, offset, size) - 1)
        / payload_size(kind) <= u64::MAX
}

/// The raw sectors of a disc behind a VCD header.
pub open spec fn vcd_source(frame_bytes: usize) -> Source {
    Source::Sectors {
        origin: VCD_HEADER_SIZE as u64,
        base: 0,
        skip: 0,
        unit: CD_FRAME_2352,
        frame_bytes,
    }
}

/// A read of `size` bytes at `offset` of a VCD file with the given header and number of
/// sectors.  What lies in the header is read at once.
pub open spec fn vcd_job(
    file_id: u64,
    header: Seq<u8>,
    total_frames: int,
    offset: int,
    size: int,
    frame_bytes: usize,
) -> JobModel {
    let end = read_end(VCD_HEADER_SIZE + total_frames * CD_FRAME_2352, offset, size);
    let header_end = if end < VCD_HEADER_SIZE {
        end
    } else {
        VCD_HEADER_SIZE as int
    };
    JobModel {
        file_id,
        source: vcd_source(frame_bytes),
        offset,
        pos: if offset < VCD_HEADER_SIZE {
            header_end
        } else {
            offset
        },
        end,
        out: if offset < VCD_HEADER_SIZE {
            header.subrange(offset, header_end)
        } else {
            Seq::empty()
        },
    }
}

fn end_of_read(len: u64, offset: u64, size: u32) -> (r: u64)
    ensures
        r == read_end(len as int, offset as int, size as int),
{
    if offset >= len {
        return offset;
    }
    let end: u64 = offset.saturating_add(size as u64);
    if end < len {
        end
    } else {
        len
    }
}

/// Begin a read of an image that is served as it is, as a file of `len` bytes.
pub fn read_image(file_id: u64, offset: u64, size: u32, len: u64) -> (r: ReadJob)
    ensures
        r@ == flat_job(file_id, offset as int, size as int, len as int),
        r@.wf(),
{
    ReadJob {
        file_id,
        source: Source::Flat,
        offset,
        pos: offset,
        end: end_of_read(len, offset, size),
        out: Vec::new(),
    }
}

/// Whether the number of the last sector that a read of the user data of a disc takes fits
/// in 64 bits.
pub fn cd_read_fits(
    start_frame: u64,
    payload_kind: CdPayloadKind,
    offset: u64,
    size: u32,
    max_len: u64,
) -> (r: bool)
    ensures
        r == cd_fits(start_frame as int, payload_kind, offset as int, size as int, max_len as int),
{
    if offset >= max_len || size == 0 {
        return true;
    }
    let last: u64 = end_of_read(max_len, offset, size) - 1;
    last / payload_len(payload_kind) as u64 <= u64::MAX - start_frame
}

/// Begin a read of the user data of a disc from sector `start_frame` on, as a file of
/// `max_len` bytes.
pub fn read_iso_from_cd(
    file_id: u64,
    start_frame: u64,
    payload_kind: CdPayloadKind,
    offset: u64,
    size: u32,
    max_len: u64,
    frame_bytes: usize,
) -> (r: ReadJob)
    requires
        is_frame_size(frame_bytes as int),
        cd_fits(start_frame as int, payload_kind, offset as int, size as int, max_len as int),
    ensures
        r@ == cd_job(
            file_id,
            start_frame,
            payload_kind,
            offset as int,
            size as int,
            max_len as int,
            frame_bytes,
        ),
        r@.wf(),
{
    let source: Source = Source::Sectors {
        origin: 0,
        base: start_frame,
        skip: payload_offset(payload_kind),
        unit: payload_len(payload_kind),
        frame_bytes,
    };
    ReadJob {
        file_id,
        source,
        offset,
        pos: offset,
        end: end_of_read(max_len, offset, size),
        out: Vec::new(),
    }
}

/// Begin a read of a VCD file: its header, and behind it the raw sectors of the disc.
pub fn read_vcd(
    headers: &mut HeaderCache,
    file_id: u64,
    tracks: &[TrackInfo],
    total_frames: u64,
    frame_bytes: usize,
    offset: u64,
    size: u32,
) -> (r: ReadJob)
    requires
        old(headers).wf(),
        is_frame_size(frame_bytes as int),
        VCD_HEADER_SIZE + total_frames * CD_FRAME_2352 <= u64::MAX,
        offset < VCD_HEADER_SIZE && !lru_has(old(headers).entries(), file_id) ==> header_fits(
            tracks@,
            total_frames,
        ),
    ensures
        final(headers).wf(),
        final(headers).capacity() == old(headers).capacity(),
        final(headers).entries() == (if offset < VCD_HEADER_SIZE {
            entries_after_header(
                old(headers).entries(),
                old(headers).capacity() as int,
                file_id,
                vcd_header(tracks@, total_frames),
            )
        } else {
            old(headers).entries()
        }),
        r@ == vcd_job(
            file_id,
            header_served(
                old(headers).entries(),
                file_id,
                vcd_header(tracks@, total_frames),
            ),
            total_frames as int,
            offset as int,
            size as int,
            frame_bytes,
        ),
        r@.wf(),
{
    let header_size: u64 = VCD_HEADER_SIZE as u64;
    let total: u64 = header_size + total_frames * CD_FRAME_2352 as u64;
    let end: u64 = end_of_read(total, offset, size);
    let mut out: Vec<u8> = Vec::new();
    let mut pos: u64 = offset;
    if pos < header_size {
        let header = headers.get_vcd_header(file_id, tracks, total_frames);
        let header_end: u64 = if end < header_size {
            end
        } else {
            header_size
        };
        extend(&mut out, header.as_slice(), pos as usize, (header_end - pos) as usize);
        pos = header_end;
    }
    let source: Source = Source::Sectors {
        origin: header_size,
        base: 0,
        skip: 0,
        unit: CD_FRAME_2352,
        frame_bytes,
    };
    ReadJob { file_id, source, offset, pos, end, out }
}

impl ReadJob {
    /// Whether the file is the image as it is.
    pub fn is_flat(&self) -> (r: bool)
        ensures
            r == (self@.source is Flat),
    {
        match self.source {
            Source::Flat => true,
            Source::Sectors { .. } => false,
        }
    }

    /// The file whose image is read.
    pub fn file_id(&self) -> (r: u64)
        ensures
            r == self@.file_id,
    {
        self.file_id
    }

    fn take_sector(&mut self, frame: &[u8])
        requires
            old(self)@.wf(),
            old(self)@.going(),
            old(self)@.source is Sectors,
            frame@.len() == CD_FRAME_2352,
        ensures
            final(self)@ == old(self)@.with_sector(frame@),
            final(self)@.wf(),
    {
        proof {
            lemma_sector_take(self@);
            lemma_sector_step(self@, frame@);
        }
        if let Source::Sectors { origin, base: _, skip, unit, frame_bytes: _ } = self.source {
            let within: u64 = (self.pos - origin) % (unit as u64);
            let avail: u64 = unit as u64 - within;
            let left: u64 = self.end - self.pos;
            let take: u64 = if avail < left {
                avail
            } else {
                left
            };
            extend(&mut self.out, frame, skip + within as usize, take as usize);
            self.pos = self.pos + take;
        }
    }

    fn current_sector(&self) -> (r: u64)
        requires
            self@.wf(),
            self@.going(),
            self@.source is Sectors,
        ensures
            r == self@.sector(),
    {
        proof {
            lemma_sector_take(self@);
        }
        match self.source {
            Source::Sectors { origin, base, skip: _, unit, frame_bytes: _ } => base + (self.pos
                - origin) / (unit as u64),
            Source::Flat => 0,
        }
    }

    /// Take what is cached.  The result tells whether the read is complete; if it is not,
    /// a hunk is needed.
    pub fn advance(&mut self, cache: &mut FrameCache) -> (done: bool)
        requires
            old(self)@.wf(),
            old(cache)@.wf(),
        ensures
            (final(self)@, final(cache)@) == served(old(self)@, old(cache)@),
            final(self)@.wf(),
            final(cache)@.wf(),
            done == !final(self)@.going(),
    {
        let ghost all = served(self@, cache@);
        while self.pos < self.end && !self.is_flat()
            invariant
                self@.wf(),
                cache@.wf(),
                all == served(self@, cache@),
                all == served(old(self)@, old(cache)@),
            decreases self.end - self.pos,
        {
            let sector: u64 = self.current_sector();
            let ghost j = self@;
            let ghost c = cache@;
            match cache.get(self.file_id, sector) {
                Some(frame) => {
                    proof {
                        lemma_sector_step(j, frame@);
                    }
                    self.take_sector(frame.as_slice());
                },
                None => {
                    assert(cache@ == c);
                    return false;
                },
            }
        }
        self.pos == self.end
    }

    /// The number of the hunk that is needed next, in an image with hunks of `hunk_size`
    /// bytes; none where a hunk does not hold a whole sector.
    pub fn needed_hunk(&self, hunk_size: u32) -> (r: Option<u32>)
        requires
            self@.wf(),
            self@.going(),
            self@.source is Flat ==> hunk_size > 0,
        ensures
            r == self@.needed_hunk(hunk_size as int),
    {
        match self.source {
            Source::Flat => Some(low_hunk_number(self.pos / hunk_size as u64)),
            Source::Sectors { origin: _, base: _, skip: _, unit: _, frame_bytes } => {
                let frames_per_hunk: u64 = hunk_size as u64 / frame_bytes as u64;
                if frames_per_hunk == 0 {
                    return None;
                }
                let sector: u64 = self.current_sector();
                Some(low_hunk_number(sector / frames_per_hunk))
            },
        }
    }

    /// Take the hunk that was needed.  The sector that it is needed for is cached.
    pub fn supply(&mut self, cache: &mut FrameCache, hunk: &[u8])
        requires
            old(self)@.wf(),
            old(self)@.going(),
            old(cache)@.wf(),
            can_supply(old(self)@, old(cache)@, hunk@.len() as int),
        ensures
            (final(self)@, final(cache)@) == supplied(old(self)@, old(cache)@, hunk@),
            final(self)@.wf(),
            final(cache)@.wf(),
            final(self)@.pos > old(self)@.pos,
    {
        let hunk_size: u64 = hunk.len() as u64;
        match self.source {
            Source::Flat => {
                proof {
                    vstd::arithmetic::div_mod::lemma_mod_bound(self.pos as int, hunk_size as int);
                }
                let within: u64 = self.pos % hunk_size;
                let avail: u64 = hunk_size - within;
                let left: u64 = self.end - self.pos;
                let take: u64 = if avail < left {
                    avail
                } else {
                    left
                };
                extend(&mut self.out, hunk, within as usize, take as usize);
                self.pos = self.pos + take;
            },
            Source::Sectors { origin: _, base: _, skip: _, unit: _, frame_bytes } => {
                let sector: u64 = self.current_sector();
                proof {
                    lemma_sectors_per_hunk(hunk_size as int, frame_bytes as int);
                    vstd::arithmetic::div_mod::lemma_mod_bound(
                        sector as int,
                        hunk_size as int / frame_bytes as int,
                    );
                }
                let frames_per_hunk: u64 = hunk_size / frame_bytes as u64;
                // Always the 2352-byte raw sector; subchannel bytes, if any, are dropped.
                let frame: &[u8] = slice_sector(hunk, frame_bytes, sector % frames_per_hunk);
                proof {
                    lemma_sector_step(self@, frame@);
                }
                cache.put(self.file_id, sector, vstd::slice::slice_to_vec(frame));
                self.take_sector(frame);
            },
        }
    }

    /// What was read.
    pub fn finish(self) -> (r: Vec<u8>)
        ensures
            r@ == self@.out,
    {
        self.out
    }
}

/// The number of the hunk that the byte at position `p` of a file comes from, in an image
/// with hunks of `hunk_size` bytes.
pub open spec fn hunk_of(source: Source, hunk_size: int, p: int) -> u32 {
    match source {
        Source::Flat => hunk_number(p / hunk_size),
        Source::Sectors { origin, base, skip, unit, frame_bytes } => hunk_number(
            (base + (p - origin) / (unit as int)) / (hunk_size / (frame_bytes as int)),
        ),
    }
}

/// The byte at position `p` of a file that is served from `disc`.  What lies ahead of the
/// disc is `head`.
pub open spec fn file_byte(source: Source, head: Seq<u8>, disc: Disc, p: int) -> u8 {
    match source {
        Source::Flat => disc.byte(p),
        Source::Sectors { origin, base, skip, unit, frame_bytes } => if p < origin {
            head[p]
        } else {
            disc.sector(frame_bytes as int, base + (p - origin) / (unit as int))[skip + (p - origin)
                % (unit as int)]
        },
    }
}

/// The bytes of a file from position `from` up to position `to`.
pub open spec fn file_bytes(
    source: Source,
    head: Seq<u8>,
    disc: Disc,
    from: int,
    to: int,
) -> Seq<u8> {
    Seq::new((to - from) as nat, |i: int| file_byte(source, head, disc, from + i))
}

/// What has been read is what the file holds.
pub open spec fn faithful(j: JobModel, head: Seq<u8>, disc: Disc) -> bool {
    j.out == file_bytes(j.source, head, disc, j.offset, j.pos)
}

/// The cached sectors of the file are the sectors of its disc.
pub open spec fn coherent(c: CacheModel, file_id: u64, disc: Disc, frame_bytes: int) -> bool {
    forall|e: ((u64, u64), Seq<u8>)| #[trigger]
        c.entries.contains(e) && e.0.0 == file_id ==> e.1 == disc.sector(
            frame_bytes,
            e.0.1 as int,
        )
}

/// The cached sectors that a read can take are those of the disc.
pub open spec fn takes_disc(j: JobModel, c: CacheModel, disc: Disc) -> bool {
    j.source matches Source::Sectors { origin, base, skip, unit, frame_bytes } ==> coherent(
        c,
        j.file_id,
        disc,
        frame_bytes as int,
    )
}

proof fn lemma_needed_sector(j: JobModel, disc: Disc)
    requires
        j.wf(),
        j.going(),
        j.source is Sectors,
        disc.wf(),
        j.source->frame_bytes <= disc.hunk_size,
    ensures
        0 < disc.hunk_size / (j.source->frame_bytes as int),
        j.needed_hunk(disc.hunk_size) is Some,
        j.sector_of((disc.hunks)(j.needed_hunk(disc.hunk_size)->0)) == disc.sector(
            j.source->frame_bytes as int,
            j.sector(),
        ),
        disc.sector(j.source->frame_bytes as int, j.sector()).len() == CD_FRAME_2352,
{
    let fb = j.source->frame_bytes as int;
    lemma_sectors_per_hunk(disc.hunk_size, fb);
    let per = disc.hunk_size / fb;
    lemma_sector_take(j);
    vstd::arithmetic::div_mod::lemma_mod_bound(j.sector(), per);
    lemma_sector_inside(disc.hunk_size, fb, j.sector() % per);
    let h = hunk_number(j.sector() / per);
    assert((disc.hunks)(h).len() == disc.hunk_size);
}

proof fn lemma_same_sector(d: int, u: int, k: int)
    requires
        u == 2048 || u == 2324 || u == 2352,
        0 <= d,
        0 <= k < u - d % u,
    ensures
        (d + k) / u == d / u,
        (d + k) % u == d % u + k,
{
    if u == 2048 {
        assert(d % u == d % 2048 && (d + k) / u == (d + k) / 2048 && (d + k) % u == (d + k)
            % 2048);
    } else if u == 2324 {
        assert(d % u == d % 2324 && (d + k) / u == (d + k) / 2324 && (d + k) % u == (d + k)
            % 2324);
    } else {
        assert(d % u == d % 2352 && (d + k) / u == (d + k) / 2352 && (d + k) % u == (d + k)
            % 2352);
    }
}

proof fn lemma_sector_faithful(j: JobModel, frame: Seq<u8>, head: Seq<u8>, disc: Disc)
    requires
        j.wf(),
        j.going(),
        j.source is Sectors,
        faithful(j, head, disc),
        frame.len() == CD_FRAME_2352,
        frame == disc.sector(j.source->frame_bytes as int, j.sector()),
    ensures
        faithful(j.with_sector(frame), head, disc),
{
    lemma_sector_take(j);
    let k = j.with_sector(frame);
    let want = file_bytes(k.source, head, disc, k.offset, k.pos);
    assert forall|i: int| 0 <= i < k.out.len() implies k.out[i] == want[i] by {
        if i < j.out.len() {
            assert(j.out[i] == file_bytes(j.source, head, disc, j.offset, j.pos)[i]);
        } else {
            let d = j.pos - j.source->origin;
            lemma_same_sector(d, j.source->unit as int, i - j.out.len());
            assert(j.offset + i - j.source->origin == d + (i - j.out.len()));
        }
    }
    assert(k.out =~= want);
}

proof fn lemma_hunk_faithful(j: JobModel, head: Seq<u8>, disc: Disc)
    requires
        j.wf(),
        j.going(),
        j.source is Flat,
        faithful(j, head, disc),
        disc.wf(),
        0 < disc.hunk_size,
    ensures
        ({
            let k = j.with_hunk((disc.hunks)(j.needed_hunk(disc.hunk_size)->0));
            &&& k.wf()
            &&& j.pos < k.pos
            &&& faithful(k, head, disc)
        }),
{
    let hunk_size = disc.hunk_size;
    let h = j.pos / hunk_size;
    let r = j.pos % hunk_size;
    vstd::arithmetic::div_mod::lemma_mod_bound(j.pos, hunk_size);
    vstd::arithmetic::div_mod::lemma_fundamental_div_mod(j.pos, hunk_size);
    let hunk = (disc.hunks)(hunk_number(h));
    assert(hunk.len() == hunk_size);
    let k = j.with_hunk(hunk);
    let want = file_bytes(k.source, head, disc, k.offset, k.pos);
    assert forall|i: int| 0 <= i < k.out.len() implies k.out[i] == want[i] by {
        if i < j.out.len() {
            assert(j.out[i] == file_bytes(j.source, head, disc, j.offset, j.pos)[i]);
        } else {
            let n = i - j.out.len();
            assert(hunk_size * h == h * hunk_size) by (nonlinear_arith);
            assert(j.offset + i == h * hunk_size + (r + n));
            vstd::arithmetic::div_mod::lemma_fundamental_div_mod_converse(
                j.offset + i,
                hunk_size,
                h,
                r + n,
            );
        }
    }
    assert(k.out =~= want);
}

proof fn lemma_coherent_touch(
    c: CacheModel,
    k: (u64, u64),
    file_id: u64,
    disc: Disc,
    frame_bytes: int,
)
    requires
        c.wf(),
        coherent(c, file_id, disc, frame_bytes),
    ensures
        c.touch(k).wf(),
        coherent(c.touch(k), file_id, disc, frame_bytes),
{
    lemma_lru_touch(c.entries, k);
    lemma_touch_wf(c, k);
}

proof fn lemma_coherent_put(
    c: CacheModel,
    k: (u64, u64),
    frame: Seq<u8>,
    file_id: u64,
    disc: Disc,
    frame_bytes: int,
)
    requires
        c.wf(),
        coherent(c, file_id, disc, frame_bytes),
        k.0 == file_id ==> frame == disc.sector(frame_bytes, k.1 as int),
    ensures
        coherent(c.put(k, frame), file_id, disc, frame_bytes),
{
    let kept = evict(c.entries, c.bytes + frame.len(), c.limit).0;
    lemma_evict_members(c.entries, c.bytes + frame.len(), c.limit);
    lemma_lru_put(kept, c.capacity, k, frame);
    let t = c.put(k, frame).entries;
    assert forall|e: ((u64, u64), Seq<u8>)| #[trigger]
        t.contains(e) && e.0.0 == file_id implies e.1 == disc.sector(
        frame_bytes,
        e.0.1 as int,
    ) by {
        if e != (k, frame) {
            assert(kept.contains(e));
            assert(c.entries.contains(e));
        }
    }
}

/// What a read takes from the cache is what the file holds, as long as the cached sectors
/// of the file are those of its disc; and so they stay.
pub proof fn law_cached_read(j: JobModel, c: CacheModel, head: Seq<u8>, disc: Disc)
    requires
        j.wf(),
        c.wf(),
        faithful(j, head, disc),
        takes_disc(j, c, disc),
    ensures
        ({
            let (k, d) = served(j, c);
            &&& k.wf()
            &&& d.wf()
            &&& k == (JobModel { pos: k.pos, out: k.out, ..j })
            &&& d == (CacheModel { entries: d.entries, ..c })
            &&& j.pos <= k.pos
            &&& faithful(k, head, disc)
            &&& takes_disc(k, d, disc)
        }),
    decreases j.end - j.pos,
{
    if j.wf() && j.going() && j.source is Sectors && lru_has(c.entries, j.key()) {
        let fb = j.source->frame_bytes as int;
        lemma_sector_take(j);
        let i = lru_index(c.entries, j.key());
        assert(lru_at(c.entries, j.key(), i));
        assert(c.entries.contains(c.entries[i]));
        let frame = lru_value(c.entries, j.key());
        assert(frame == disc.sector(fb, j.sector()));
        lemma_sector_step(j, frame);
        lemma_sector_faithful(j, frame, head, disc);
        lemma_coherent_touch(c, j.key(), j.file_id, disc, fb);
        law_cached_read(j.with_sector(frame), c.touch(j.key()), head, disc);
    }
}

/// What a read takes from the hunk that it needs is what the file holds, and the sector
/// that is cached on the way is that of the disc.
pub proof fn law_supplied_read(j: JobModel, c: CacheModel, head: Seq<u8>, disc: Disc)
    requires
        j.wf(),
        j.going(),
        c.wf(),
        disc.wf(),
        can_supply(j, c, disc.hunk_size),
        faithful(j, head, disc),
        takes_disc(j, c, disc),
    ensures
        j.needed_hunk(disc.hunk_size) is Some,
        j.needed_hunk(disc.hunk_size)->0 == hunk_of(j.source, disc.hunk_size, j.pos),
        ({
            let (k, d) = supplied(j, c, (disc.hunks)(j.needed_hunk(disc.hunk_size)->0));
            &&& k.wf()
            &&& d.wf()
            &&& k == (JobModel { pos: k.pos, out: k.out, ..j })
            &&& d.limit == c.limit
            &&& j.pos < k.pos
            &&& faithful(k, head, disc)
            &&& takes_disc(k, d, disc)
        }),
{
    match j.source {
        Source::Flat => {
            lemma_hunk_faithful(j, head, disc);
        },
        Source::Sectors { origin, base, skip, unit, frame_bytes } => {
            let fb = frame_bytes as int;
            lemma_sector_take(j);
            lemma_needed_sector(j, disc);
            let frame = disc.sector(fb, j.sector());
            lemma_sector_step(j, frame);
            lemma_sector_faithful(j, frame, head, disc);
            lemma_put_wf(c, j.key(), frame);
            lemma_coherent_put(c, j.key(), frame, j.file_id, disc, fb);
        },
    }
}

/// The cached sectors of a file are untouched by reads of other files.
pub proof fn law_other_files_unaffected(
    j: JobModel,
    c: CacheModel,
    hunk: Seq<u8>,
    file_id: u64,
    disc: Disc,
    frame_bytes: int,
)
    requires
        j.wf(),
        c.wf(),
        j.file_id != file_id,
        coherent(c, file_id, disc, frame_bytes),
    ensures
        coherent(served(j, c).1, file_id, disc, frame_bytes),
        coherent(supplied(j, c, hunk).1, file_id, disc, frame_bytes),
    decreases j.end - j.pos,
{
    if j.source is Sectors {
        lemma_coherent_put(c, j.key(), j.sector_of(hunk), file_id, disc, frame_bytes);
    }
    if j.going() && j.source is Sectors && lru_has(c.entries, j.key()) {
        lemma_sector_take(j);
        let i = lru_index(c.entries, j.key());
        assert(lru_at(c.entries, j.key(), i));
        let frame = lru_value(c.entries, j.key());
        lemma_sector_step(j, frame);
        lemma_coherent_touch(c, j.key(), file_id, disc, frame_bytes);
        law_other_files_unaffected(
            j.with_sector(frame),
            c.touch(j.key()),
            hunk,
            file_id,
            disc,
            frame_bytes,
        );
    }
}

/// The read and the sector cache when the read is complete: it takes what is cached, is
/// given the hunk that it needs, and so on to its end.  There is no outcome where it fails:
/// where a hunk that it needs cannot be read or holds no whole sector, or the cache cannot
/// count one more.
pub open spec fn read_outcome(
    j: JobModel,
    c: CacheModel,
    disc: Disc,
    readable: spec_fn(u32) -> bool,
) -> Option<(JobModel, CacheModel)>
    decreases j.end - j.pos,
    when j.wf() && c.wf() && disc.wf()
    via read_outcome_ends
{
    let (k, d) = served(j, c);
    if !k.going() {
        Some((k, d))
    } else if can_supply(k, d, disc.hunk_size) && readable(k.needed_hunk(disc.hunk_size)->0) {
        let (l, e) = supplied(k, d, (disc.hunks)(k.needed_hunk(disc.hunk_size)->0));
        read_outcome(l, e, disc, readable)
    } else {
        None
    }
}

#[via_fn]
proof fn read_outcome_ends(
    j: JobModel,
    c: CacheModel,
    disc: Disc,
    readable: spec_fn(u32) -> bool,
) {
    lemma_served_goes_on(j, c);
    let (k, d) = served(j, c);
    if k.going() && can_supply(k, d, disc.hunk_size) {
        match k.source {
            Source::Flat => {
                vstd::arithmetic::div_mod::lemma_mod_bound(k.pos, disc.hunk_size);
                let h = k.needed_hunk(disc.hunk_size)->0;
                assert((disc.hunks)(h).len() == disc.hunk_size);
            },
            Source::Sectors { .. } => {
                lemma_sector_take(k);
            },
        }
    }
}

proof fn lemma_served_goes_on(j: JobModel, c: CacheModel)
    requires
        j.wf(),
        c.wf(),
    ensures
        served(j, c).0.wf(),
        served(j, c).0.pos >= j.pos,
        served(j, c).0 == (JobModel { pos: served(j, c).0.pos, out: served(j, c).0.out, ..j }),
    decreases j.end - j.pos,
{
    if j.going() && j.source is Sectors && lru_has(c.entries, j.key()) {
        lemma_sector_take(j);
        let i = lru_index(c.entries, j.key());
        assert(lru_at(c.entries, j.key(), i));
        let frame = lru_value(c.entries, j.key());
        lemma_sector_step(j, frame);
        lemma_touch_wf(c, j.key());
        lemma_served_goes_on(j.with_sector(frame), c.touch(j.key()));
    }
}

/// A read that does not fail gives exactly the bytes that the file holds there, whatever
/// is cached of it: as long as the cached sectors of the file are those of its disc.  And
/// so they are afterwards.
pub proof fn law_read_gives_file(
    j: JobModel,
    c: CacheModel,
    head: Seq<u8>,
    disc: Disc,
    readable: spec_fn(u32) -> bool,
)
    requires
        j.wf(),
        c.wf(),
        disc.wf(),
        faithful(j, head, disc),
        takes_disc(j, c, disc),
    ensures
        read_outcome(j, c, disc, readable) matches Some((k, d)) ==> {
            &&& !k.going()
            &&& k.out == file_bytes(j.source, head, disc, j.offset, j.end)
            &&& d.wf()
            &&& takes_disc(j, d, disc)
        },
    decreases j.end - j.pos,
{
    law_cached_read(j, c, head, disc);
    let (k, d) = served(j, c);
    if k.going() && can_supply(k, d, disc.hunk_size) {
        law_supplied_read(k, d, head, disc);
        let (l, e) = supplied(k, d, (disc.hunks)(k.needed_hunk(disc.hunk_size)->0));
        law_read_gives_file(l, e, head, disc, readable);
    }
}

/// A read does not fail while the hunks that it needs can be read and are large enough, and
/// the cache's byte count cannot overflow.
pub proof fn law_read_succeeds(
    j: JobModel,
    c: CacheModel,
    head: Seq<u8>,
    disc: Disc,
    readable: spec_fn(u32) -> bool,
)
    requires
        j.wf(),
        c.wf(),
        disc.wf(),
        faithful(j, head, disc),
        takes_disc(j, c, disc),
        c.limit + 2 * CD_FRAME_2352 <= usize::MAX,
        j.going() ==> match j.source {
            Source::Flat => 0 < disc.hunk_size,
            Source::Sectors { origin, base, skip, unit, frame_bytes } => frame_bytes
                <= disc.hunk_size,
        },
        forall|p: int|
            j.pos <= p < j.end ==> readable(#[trigger] hunk_of(j.source, disc.hunk_size, p)),
    ensures
        read_outcome(j, c, disc, readable) is Some,
    decreases j.end - j.pos,
{
    law_cached_read(j, c, head, disc);
    let (k, d) = served(j, c);
    if k.going() {
        law_frame_cache_has_room(d);
        law_supplied_read(k, d, head, disc);
        assert(readable(hunk_of(j.source, disc.hunk_size, k.pos)));
        let (l, e) = supplied(k, d, (disc.hunks)(k.needed_hunk(disc.hunk_size)->0));
        law_read_succeeds(l, e, head, disc, readable);
    }
}

/// A read of `n` bytes at `offset` of a file of `len` bytes takes exactly those of the bytes
/// asked for that the file has: all `n` where it goes so far, and else all that are left.
/// It takes none where it begins at the end of the file or beyond, however large the file
/// is.
pub proof fn law_read_range(len: int, offset: int, n: int, p: int)
    requires
        0 <= len,
        0 <= offset,
        0 <= n,
    ensures
        offset + n <= len ==> read_end(len, offset, n) - offset == n,
        offset <= len < offset + n ==> read_end(len, offset, n) - offset == len - offset,
        len <= offset ==> read_end(len, offset, n) - offset == 0,
        offset <= p < read_end(len, offset, n) <==> offset <= p < len && p < offset + n,
        read_end(len, 0, len) == len,
{
}

/// A read goes on where the read ahead of it ends: two reads, one behind the other, reach as
/// far as one of both sizes together.
pub proof fn law_reads_are_adjacent(len: int, offset: int, a: int, b: int)
    requires
        0 <= len,
        0 <= offset <= len,
        0 <= a,
        0 <= b,
    ensures
        read_end(len, read_end(len, offset, a), b) == read_end(len, offset, a + b),
{
}

/// What a read of an image that is served as it is begins with: nothing has been read, and
/// the bytes to read are those asked for that the file has.
pub proof fn law_flat_read_begins(file_id: u64, offset: int, n: int, len: int, p: int)
    requires
        0 <= len,
        0 <= offset,
        0 <= n,
    ensures
        ({
            let j = flat_job(file_id, offset, n, len);
            &&& j.file_id == file_id
            &&& j.source == Source::Flat
            &&& j.offset == offset
            &&& j.pos == offset
            &&& j.out.len() == 0
            &&& j.pos <= p < j.end <==> offset <= p < len && p < offset + n
            &&& offset <= j.end
        }),
{
}

/// What a read of the user data of a disc begins with.  Its bytes come from behind the first
/// 16 bytes of each sector in mode 1 and the first 24 in mode 2: 2324 of each in form 2 of
/// mode 2, and else 2048.
pub proof fn law_cd_read_begins(
    file_id: u64,
    start_frame: u64,
    kind: CdPayloadKind,
    offset: int,
    n: int,
    len: int,
    frame_bytes: usize,
    p: int,
)
    requires
        0 <= len,
        0 <= offset,
        0 <= n,
    ensures
        ({
            let j = cd_job(file_id, start_frame, kind, offset, n, len, frame_bytes);
            &&& j.file_id == file_id
            &&& j.source is Sectors
            &&& j.source->origin == 0
            &&& j.source->base == start_frame
            &&& kind == CdPayloadKind::Mode1_2048 ==> j.source->skip == 16 && j.source->unit
                == 2048
            &&& kind == CdPayloadKind::Mode2Form1_2048 ==> j.source->skip == 24
                && j.source->unit == 2048
            &&& kind == CdPayloadKind::Mode2Form2_2324 ==> j.source->skip == 24
                && j.source->unit == 2324
            &&& j.source->frame_bytes == frame_bytes
            &&& j.offset == offset
            &&& j.pos == offset
            &&& j.out.len() == 0
            &&& j.pos <= p < j.end <==> offset <= p < len && p < offset + n
            &&& offset <= j.end
        }),
{
}

/// What a read of a VCD begins with.  The file is 1 MiB of header and then 2352 bytes of
/// each sector.  What is asked for of the header has been read.
pub proof fn law_vcd_read_begins(
    file_id: u64,
    header: Seq<u8>,
    total_frames: int,
    offset: int,
    n: int,
    frame_bytes: usize,
    p: int,
)
    requires
        header.len() == 1048576,
        0 <= total_frames,
        0 <= offset,
        0 <= n,
    ensures
        ({
            let j = vcd_job(file_id, header, total_frames, offset, n, frame_bytes);
            let len = 1048576 + total_frames * 2352;
            &&& j.file_id == file_id
            &&& j.source is Sectors
            &&& j.source->origin == 1048576
            &&& j.source->base == 0
            &&& j.source->skip == 0
            &&& j.source->unit == 2352
            &&& j.source->frame_bytes == frame_bytes
            &&& j.offset == offset
            &&& offset <= j.pos <= j.end
            &&& offset <= p < j.end <==> offset <= p < len && p < offset + n
            &&& offset <= p < j.pos <==> offset <= p < j.end && p < 1048576
            &&& j.out.len() == j.pos - offset
            &&& offset <= p < j.pos ==> j.out[p - offset] == header[p]
        }),
{
}

/// A read can begin exactly where the number of the sector of each byte that it takes fits
/// in 64 bits.
pub proof fn law_cd_read_can_begin(
    start_frame: int,
    kind: CdPayloadKind,
    offset: int,
    n: int,
    len: int,
    p: int,
)
    requires
        0 <= offset,
        0 <= n,
    ensures
        len <= offset || n == 0 ==> cd_fits(start_frame, kind, offset, n, len),
        offset <= p < len && p < offset + n && cd_fits(start_frame, kind, offset, n, len)
            && kind == CdPayloadKind::Mode2Form2_2324 ==> start_frame + p / 2324 <= u64::MAX,
        offset <= p < len && p < offset + n && cd_fits(start_frame, kind, offset, n, len)
            && kind != CdPayloadKind::Mode2Form2_2324 ==> start_frame + p / 2048 <= u64::MAX,
        offset <= p < len && p < offset + n && (p + 1 == len || p + 1 == offset + n) && kind
            == CdPayloadKind::Mode2Form2_2324 && start_frame + p / 2324 <= u64::MAX ==> cd_fits(
            start_frame,
            kind,
            offset,
            n,
            len,
        ),
        offset <= p < len && p < offset + n && (p + 1 == len || p + 1 == offset + n) && kind
            != CdPayloadKind::Mode2Form2_2324 && start_frame + p / 2048 <= u64::MAX ==> cd_fits(
            start_frame,
            kind,
            offset,
            n,
            len,
        ),
{
}

/// What a sector gives to a read.  Where the read has come to byte `r` of the data of the
/// `q`-th sector, it is the sector `q` behind the first one that is needed, and the bytes
/// from there on are taken: all that the sector has, or all that are left to read.
pub proof fn law_sector_gives(j: JobModel, frame: Seq<u8>, q: int, r: int, i: int)
    requires
        j.source is Sectors,
        0 < j.source->unit,
        frame.len() == 2352,
        j.source->skip + j.source->unit <= 2352,
        0 <= q,
        0 <= r < j.source->unit,
        j.pos == j.source->origin + q * j.source->unit + r,
        j.pos < j.end,
        j.source->base + q <= u64::MAX,
    ensures
        j.key().0 == j.file_id,
        j.key().1 == j.source->base + q,
        ({
            let k = j.with_sector(frame);
            &&& k == (JobModel { pos: k.pos, out: k.out, ..j })
            &&& k.pos <= j.end
            &&& k.pos == j.end || k.pos == j.source->origin + (q + 1) * j.source->unit
            &&& k.pos - j.pos <= j.source->unit - r
            &&& k.out.len() == j.out.len() + (k.pos - j.pos)
            &&& 0 <= i < j.out.len() ==> k.out[i] == j.out[i]
            &&& 0 <= i < k.pos - j.pos ==> k.out[j.out.len() + i] == frame[j.source->skip + r + i]
        }),
{
    let unit = j.source->unit as int;
    vstd::arithmetic::div_mod::lemma_fundamental_div_mod_converse(
        j.pos - j.source->origin,
        unit,
        q,
        r,
    );
    assert((q + 1) * unit == q * unit + unit) by (nonlinear_arith);
}

/// What a hunk gives to a read of an image that is served as it is.  Where the read has come
/// to byte `r` of hunk `q`, that hunk is needed, and the bytes from there on are taken: all
/// that the hunk has, or all that are left to read.
pub proof fn law_hunk_gives(j: JobModel, hunk: Seq<u8>, q: int, r: int, i: int)
    requires
        j.source is Flat,
        0 <= q < 0x1_0000_0000,
        0 <= r < hunk.len(),
        j.pos == q * hunk.len() + r,
        j.pos < j.end,
    ensures
        j.needed_hunk(hunk.len() as int) == Some(q as u32),
        ({
            let k = j.with_hunk(hunk);
            &&& k == (JobModel { pos: k.pos, out: k.out, ..j })
            &&& k.pos <= j.end
            &&& k.pos == j.end || k.pos == (q + 1) * hunk.len()
            &&& k.pos - j.pos <= hunk.len() - r
            &&& k.out.len() == j.out.len() + (k.pos - j.pos)
            &&& 0 <= i < j.out.len() ==> k.out[i] == j.out[i]
            &&& 0 <= i < k.pos - j.pos ==> k.out[j.out.len() + i] == hunk[r + i]
        }),
{
    let size = hunk.len() as int;
    vstd::arithmetic::div_mod::lemma_fundamental_div_mod_converse(j.pos, size, q, r);
    assert((q + 1) * size == q * size + size) by (nonlinear_arith);
}

/// Which hunk a sector is taken from.  Where a hunk holds `per` whole sectors, sector
/// `a * per + b` is sector `b` of hunk `a`; and no hunk is asked for where it does not hold
/// a whole sector.
pub proof fn law_hunk_of_sector(j: JobModel, hunk: Seq<u8>, per: int, a: int, b: int, i: int)
    requires
        j.source is Sectors,
        j.source->frame_bytes == 2352 || j.source->frame_bytes == 2448,
        0 <= per,
        per * j.source->frame_bytes <= hunk.len() < (per + 1) * j.source->frame_bytes,
        0 <= a < 0x1_0000_0000,
        per > 0 ==> 0 <= b < per && j.sector() == a * per + b,
        0 <= i < 2352,
    ensures
        per == 0 <==> j.needed_hunk(hunk.len() as int) is None,
        per > 0 ==> j.needed_hunk(hunk.len() as int) == Some(a as u32),
        per > 0 ==> j.sector_of(hunk).len() == 2352,
        per > 0 ==> j.sector_of(hunk)[i] == hunk[b * j.source->frame_bytes + i],
{
    let fb = j.source->frame_bytes as int;
    let size = hunk.len() as int;
    assert((per + 1) * fb == per * fb + fb) by (nonlinear_arith);
    vstd::arithmetic::div_mod::lemma_fundamental_div_mod_converse(size, fb, per, size - per * fb);
    if per > 0 {
        vstd::arithmetic::div_mod::lemma_fundamental_div_mod_converse(j.sector(), per, a, b);
        lemma_sector_inside(size, fb, b);
    }
}

/// A read takes all that is cached for it: it stops only at its end, or at a sector that is
/// not cached.
pub proof fn law_cached_sectors_are_taken(j: JobModel, c: CacheModel)
    requires
        j.wf(),
        c.wf(),
    ensures
        ({
            let (k, d) = served(j, c);
            &&& j.source is Flat ==> k == j && d == c
            &&& k.pos < k.end && k.source is Sectors ==> forall|i: int|
                0 <= i < d.entries.len() ==> (#[trigger] d.entries[i]).0 != k.key()
            &&& k.pos == j.pos ==> d == c
        }),
    decreases j.end - j.pos,
{
    if j.going() && j.source is Sectors && lru_has(c.entries, j.key()) {
        lemma_sector_take(j);
        let i = lru_index(c.entries, j.key());
        assert(lru_at(c.entries, j.key(), i));
        let frame = lru_value(c.entries, j.key());
        lemma_sector_step(j, frame);
        lemma_touch_wf(c, j.key());
        law_cached_sectors_are_taken(j.with_sector(frame), c.touch(j.key()));
        lemma_served_goes_on(j.with_sector(frame), c.touch(j.key()));
    } else {
        assert forall|i: int| 0 <= i < c.entries.len() && j.going() && j.source is Sectors implies (
        #[trigger] c.entries[i]).0 != j.key() by {
            assert(!lru_at(c.entries, j.key(), i));
        }
    }
}

/// The sector that a read is given from a hunk is cached, as the most recent one; a read of
/// an image that is served as it is caches nothing.
pub proof fn law_supplied_sector_is_cached(j: JobModel, c: CacheModel, hunk: Seq<u8>)
    ensures
        j.source is Flat ==> supplied(j, c, hunk).1 == c,
        j.source is Sectors ==> supplied(j, c, hunk).1.entries.len() > 0,
        j.source is Sectors ==> supplied(j, c, hunk).1.entries.last() == (
            (j.file_id, j.sector() as u64),
            j.sector_of(hunk),
        ),
{
}

} // verus!
