//! What the served files hold, and that reads give it.

use vstd::prelude::*;
use crate::cache::{
    entries_after_header, header_served, headers_agree, law_headers_agree, CacheModel,
    CD_FRAME_2352,
};
use crate::fs::{built_header, entry_job, read_fits, read_refusal, reads_header, FsModel};
use crate::index::{kind_fits, IndexEntry, KindModel, FIRST_INO};
use crate::read::{
    can_supply, cd_fits, coherent, faithful, file_bytes, hunk_of, law_cached_read,
    law_other_files_unaffected, law_read_gives_file, law_read_succeeds, law_supplied_read,
    read_end, read_outcome, served, supplied, takes_disc, JobModel, Source,
};
use crate::sector::{
    hunk_number, law_byte_of_disc, law_sector_of_disc, lemma_sectors_per_hunk, payload_size,
    payload_start, Disc,
};
use crate::track::CdPayloadKind;
use crate::vcd::{vcd_header, VCD_HEADER_SIZE};

verus! {

/// The first `n` bytes of the data of a disc from sector `first` on: `unit` bytes of each
/// sector, behind its first `skip` bytes.
pub open spec fn sector_data(
    disc: Disc,
    frame_bytes: int,
    first: int,
    skip: int,
    unit: int,
    n: int,
) -> Seq<u8> {
    Seq::new(n as nat, |p: int| disc.sector(frame_bytes, first + p / unit)[skip + p % unit])
}

/// What a file of the given make and size holds, served from `disc`.
///
/// A DVD image is served as it is; a CD image as the user data of its sectors; a VCD is its
/// header, and behind it the raw sectors of the disc.
pub open spec fn contents(kind: KindModel, size: int, disc: Disc) -> Seq<u8> {
    match kind {
        KindModel::Dvd2048 => Seq::new(size as nat, |p: int| disc.byte(p)),
        KindModel::Raw2048 => Seq::new(size as nat, |p: int| disc.byte(p)),
        KindModel::Cd2352 { first_data_lba, payload_kind, track_frames, frame_bytes } =>
            sector_data(
                disc,
                frame_bytes,
                first_data_lba,
                payload_start(payload_kind),
                payload_size(payload_kind),
                size,
            ),
        KindModel::Vcd { total_frames, frame_bytes, tracks } => vcd_header(tracks, total_frames)
            + sector_data(
            disc,
            frame_bytes,
            0,
            0,
            CD_FRAME_2352 as int,
            total_frames * CD_FRAME_2352,
        ),
    }
}

/// The `n` bytes of a file at `offset`, as far as the file goes.
pub open spec fn excerpt(file: Seq<u8>, offset: int, n: int) -> Seq<u8> {
    if offset >= file.len() {
        Seq::empty()
    } else {
        file.subrange(offset, read_end(file.len() as int, offset, n))
    }
}

/// An excerpt is made of the excerpts on both sides of a cut.
pub proof fn lemma_excerpts_join(file: Seq<u8>, offset: int, a: int, b: int)
    requires
        0 <= offset,
        0 <= a,
        0 <= b,
    ensures
        excerpt(file, offset, a + b) == excerpt(file, offset, a) + excerpt(file, offset + a, b),
{
    assert(excerpt(file, offset, a + b) =~= excerpt(file, offset, a) + excerpt(
        file,
        offset + a,
        b,
    ));
}

/// The cached sectors of a file of the given make are those of its disc, where it is
/// served by sectors.
pub open spec fn cache_agrees(kind: KindModel, c: CacheModel, file_id: u64, disc: Disc) -> bool {
    match kind {
        KindModel::Cd2352 { first_data_lba, payload_kind, track_frames, frame_bytes } => coherent(
            c,
            file_id,
            disc,
            frame_bytes,
        ),
        KindModel::Vcd { total_frames, frame_bytes, tracks } => coherent(
            c,
            file_id,
            disc,
            frame_bytes,
        ),
        _ => true,
    }
}

/// The numbers of the sectors that a read takes fit in 64 bits.
pub open spec fn sectors_fit(kind: KindModel, size: int, offset: int, n: int) -> bool {
    kind matches KindModel::Cd2352 { first_data_lba, payload_kind, track_frames, frame_bytes }
        ==> cd_fits(first_data_lba, payload_kind, offset, n, size)
}

/// The disc can serve all of a file of the given make and size: its hunks are large enough,
/// and there are enough of them.
pub open spec fn holds_file(
    kind: KindModel,
    size: int,
    disc: Disc,
    readable: spec_fn(u32) -> bool,
    hunk_count: int,
) -> bool {
    &&& 0 <= hunk_count <= 0x1_0000_0000
    &&& forall|h: u32| h < hunk_count ==> #[trigger] readable(h)
    &&& 0 < disc.hunk_size
    &&& match kind {
        KindModel::Dvd2048 => size <= disc.hunk_size * hunk_count,
        KindModel::Raw2048 => size <= disc.hunk_size * hunk_count,
        KindModel::Cd2352 { first_data_lba, payload_kind, track_frames, frame_bytes } => {
            &&& frame_bytes <= disc.hunk_size
            &&& first_data_lba + size / payload_size(payload_kind) <= (disc.hunk_size
                / frame_bytes) * hunk_count
        },
        KindModel::Vcd { total_frames, frame_bytes, tracks } => {
            &&& frame_bytes <= disc.hunk_size
            &&& total_frames <= (disc.hunk_size / frame_bytes) * hunk_count
        },
    }
}

proof fn lemma_unit_div(p: int, unit: int, frames: int)
    requires
        unit == 2048 || unit == 2324 || unit == 2352,
        0 <= p < frames * unit,
    ensures
        0 <= p / unit < frames,
        0 <= p % unit < unit,
{
    if unit == 2048 {
        assert(p / unit == p / 2048 && p % unit == p % 2048 && frames * unit == frames * 2048);
    } else if unit == 2324 {
        assert(p / unit == p / 2324 && p % unit == p % 2324 && frames * unit == frames * 2324);
    } else {
        assert(p / unit == p / 2352 && p % unit == p % 2352 && frames * unit == frames * 2352);
    }
}

proof fn lemma_hunk_inside(x: int, per: int, hunk_count: int)
    requires
        0 < per,
        0 <= x < per * hunk_count,
        hunk_count <= 0x1_0000_0000,
    ensures
        hunk_number(x / per) < hunk_count,
{
    vstd::arithmetic::div_mod::lemma_multiply_divide_lt(x, per, hunk_count);
    vstd::arithmetic::div_mod::lemma_div_pos_is_pos(x, per);
}

proof fn lemma_hunks_readable(
    kind: KindModel,
    size: int,
    file_id: u64,
    offset: int,
    n: int,
    disc: Disc,
    readable: spec_fn(u32) -> bool,
    hunk_count: int,
)
    requires
        kind_fits(kind, size),
        0 <= size <= u64::MAX,
        0 <= offset <= u64::MAX,
        0 <= n <= u32::MAX,
        disc.wf(),
        holds_file(kind, size, disc, readable, hunk_count),
    ensures
        ({
            let j = entry_job(kind, size, file_id, built_header(kind), offset, n);
            forall|p: int|
                j.pos <= p < j.end ==> readable(#[trigger] hunk_of(j.source, disc.hunk_size, p))
        }),
{
    let j = entry_job(kind, size, file_id, built_header(kind), offset, n);
    assert forall|p: int| j.pos <= p < j.end implies readable(
        #[trigger] hunk_of(j.source, disc.hunk_size, p),
    ) by {
        match kind {
            KindModel::Cd2352 { first_data_lba, payload_kind, track_frames, frame_bytes } => {
                let unit = payload_size(payload_kind);
                lemma_sectors_per_hunk(disc.hunk_size, frame_bytes);
                lemma_unit_div(p, unit, size / unit);
                lemma_hunk_inside(
                    first_data_lba + p / unit,
                    disc.hunk_size / frame_bytes,
                    hunk_count,
                );
            },
            KindModel::Vcd { total_frames, frame_bytes, tracks } => {
                lemma_sectors_per_hunk(disc.hunk_size, frame_bytes);
                lemma_unit_div(p - VCD_HEADER_SIZE, 2352, total_frames as int);
                lemma_hunk_inside(
                    (p - VCD_HEADER_SIZE) / 2352,
                    disc.hunk_size / frame_bytes,
                    hunk_count,
                );
            },
            _ => {
                lemma_hunk_inside(p, disc.hunk_size, hunk_count);
            },
        }
    }
}

proof fn lemma_held_sectors_fit(
    kind: KindModel,
    size: int,
    offset: int,
    n: int,
    disc: Disc,
    readable: spec_fn(u32) -> bool,
    hunk_count: int,
)
    requires
        kind_fits(kind, size),
        0 <= offset,
        0 <= n,
        disc.wf(),
        holds_file(kind, size, disc, readable, hunk_count),
    ensures
        sectors_fit(kind, size, offset, n),
{
    if let KindModel::Cd2352 { first_data_lba, payload_kind, track_frames, frame_bytes } = kind {
        let unit = payload_size(payload_kind);
        let per = disc.hunk_size / frame_bytes;
        lemma_sectors_per_hunk(disc.hunk_size, frame_bytes);
        assert(per * hunk_count <= 0xFFFF_FFFF * 0x1_0000_0000) by (nonlinear_arith)
            requires
                0 < per <= 0xFFFF_FFFF,
                0 <= hunk_count <= 0x1_0000_0000,
        ;
        if offset < size && n > 0 {
            lemma_unit_div(read_end(size, offset, n) - 1, unit, size / unit);
        }
    }
}

proof fn lemma_entry_job(
    kind: KindModel,
    size: int,
    file_id: u64,
    offset: int,
    n: int,
    c: CacheModel,
    disc: Disc,
)
    requires
        kind_fits(kind, size),
        0 <= size <= u64::MAX,
        0 <= offset <= u64::MAX,
        0 <= n <= u32::MAX,
        sectors_fit(kind, size, offset, n),
        cache_agrees(kind, c, file_id, disc),
    ensures
        ({
            let j = entry_job(kind, size, file_id, built_header(kind), offset, n);
            &&& j.wf()
            &&& faithful(j, built_header(kind), disc)
            &&& takes_disc(j, c, disc)
        }),
{
    let head = built_header(kind);
    let j = entry_job(kind, size, file_id, head, offset, n);
    assert(j.out =~= file_bytes(j.source, head, disc, j.offset, j.pos));
}

/// The bytes of a file between the ends of a read are those that its contents have there.
pub proof fn lemma_file_is_contents(
    kind: KindModel,
    size: int,
    file_id: u64,
    offset: int,
    n: int,
    disc: Disc,
)
    requires
        kind_fits(kind, size),
        0 <= size <= u64::MAX,
        0 <= offset,
        0 <= n,
    ensures
        contents(kind, size, disc).len() == size,
        ({
            let head = built_header(kind);
            let j = entry_job(kind, size, file_id, head, offset, n);
            file_bytes(j.source, head, disc, offset, j.end) == excerpt(
                contents(kind, size, disc),
                offset,
                n,
            )
        }),
{
    let head = built_header(kind);
    let j = entry_job(kind, size, file_id, head, offset, n);
    let out = file_bytes(j.source, head, disc, offset, j.end);
    assert(out =~= excerpt(contents(kind, size, disc), offset, n));
}

/// A read of a served file that does not fail gives exactly the bytes that the file holds
/// at that place, as far as it goes, and leaves the cached sectors those of the disc:
/// whatever is cached of the file, and whatever else.
pub proof fn law_read_serves_file(
    kind: KindModel,
    size: int,
    file_id: u64,
    offset: int,
    n: int,
    c: CacheModel,
    disc: Disc,
    readable: spec_fn(u32) -> bool,
)
    requires
        kind_fits(kind, size),
        0 <= size <= u64::MAX,
        0 <= offset <= u64::MAX,
        0 <= n <= u32::MAX,
        sectors_fit(kind, size, offset, n),
        c.wf(),
        disc.wf(),
        cache_agrees(kind, c, file_id, disc),
    ensures
        contents(kind, size, disc).len() == size,
        ({
            let j = entry_job(kind, size, file_id, built_header(kind), offset, n);
            read_outcome(j, c, disc, readable) matches Some((k, d)) ==> {
                &&& k.out == excerpt(contents(kind, size, disc), offset, n)
                &&& d.wf()
                &&& cache_agrees(kind, d, file_id, disc)
            }
        }),
{
    let head = built_header(kind);
    let j = entry_job(kind, size, file_id, head, offset, n);
    lemma_entry_job(kind, size, file_id, offset, n, c, disc);
    law_read_gives_file(j, c, head, disc, readable);
    lemma_file_is_contents(kind, size, file_id, offset, n, disc);
}

/// A read of a served file does not fail while the disc can serve all of the file, and the
/// cache's byte count cannot overflow.
pub proof fn law_read_of_held_file_succeeds(
    kind: KindModel,
    size: int,
    file_id: u64,
    offset: int,
    n: int,
    c: CacheModel,
    disc: Disc,
    readable: spec_fn(u32) -> bool,
    hunk_count: int,
)
    requires
        kind_fits(kind, size),
        0 <= size <= u64::MAX,
        0 <= offset <= u64::MAX,
        0 <= n <= u32::MAX,
        c.wf(),
        c.limit + 2 * CD_FRAME_2352 <= usize::MAX,
        disc.wf(),
        cache_agrees(kind, c, file_id, disc),
        holds_file(kind, size, disc, readable, hunk_count),
    ensures
        read_outcome(
            entry_job(kind, size, file_id, built_header(kind), offset, n),
            c,
            disc,
            readable,
        ) is Some,
{
    let head = built_header(kind);
    let j = entry_job(kind, size, file_id, head, offset, n);
    lemma_held_sectors_fit(kind, size, offset, n, disc, readable, hunk_count);
    lemma_entry_job(kind, size, file_id, offset, n, c, disc);
    lemma_hunks_readable(kind, size, file_id, offset, n, disc, readable, hunk_count);
    law_read_succeeds(j, c, head, disc, readable);
}

/// The VCD headers of the files, by inode.
pub open spec fn own_headers(entries: Seq<IndexEntry>) -> spec_fn(u64) -> Seq<u8> {
    |ino: u64| built_header(entries[ino - FIRST_INO].kind@)
}

/// What is cached is true of the discs: each cached header is that of its file, and the
/// cached sectors of each file are those of its disc.
pub open spec fn caches_agree(m: FsModel, discs: spec_fn(u64) -> Disc) -> bool {
    &&& headers_agree(m.headers, own_headers(m.entries))
    &&& forall|f: u64| (#[trigger] m.entry(f)) matches Some(e) ==> cache_agrees(
        e.kind@,
        m.frames,
        f,
        discs(f),
    )
}

/// A file is read under a handle of its own.
pub open spec fn own_handle(m: FsModel, ino: u64, fh: u64) -> bool {
    m.entry(ino) is Some && m.handles.contains_key(fh) && m.handles[fh].file_id == ino
}

/// The read that `FsState::read` begins under a file's own handle.
pub open spec fn own_job(m: FsModel, ino: u64, offset: u64, n: u32) -> JobModel {
    let e = m.entry(ino)->0;
    entry_job(
        e.kind@,
        e.iso_size as int,
        ino,
        header_served(m.headers, ino, built_header(e.kind@)),
        offset as int,
        n as int,
    )
}

/// The bytes that a read under a file's own handle replies, unless it fails.
pub open spec fn own_reply(
    m: FsModel,
    ino: u64,
    offset: u64,
    n: u32,
    disc: Disc,
    readable: spec_fn(u32) -> bool,
) -> Option<Seq<u8>> {
    if n == 0 {
        Some(Seq::empty())
    } else {
        match read_outcome(own_job(m, ino, offset, n), m.frames, disc, readable) {
            Some((k, d)) => Some(k.out),
            None => None,
        }
    }
}

/// While nothing is cached, what is cached is true of all discs.
pub proof fn law_empty_caches_agree(m: FsModel, discs: spec_fn(u64) -> Disc)
    requires
        m.frames.entries.len() == 0,
        m.headers.len() == 0,
    ensures
        caches_agree(m, discs),
{
}

/// The start of a read under the file's own handle leaves what is cached true of the discs.
pub proof fn law_read_keeps_agreement(
    m: FsModel,
    ino: u64,
    fh: u64,
    offset: u64,
    n: u32,
    discs: spec_fn(u64) -> Disc,
)
    requires
        m.wf(),
        caches_agree(m, discs),
        own_handle(m, ino, fh),
        reads_header(m, ino, fh, offset, n),
    ensures
        caches_agree(
            FsModel {
                headers: entries_after_header(
                    m.headers,
                    m.headers_cap,
                    ino,
                    built_header(m.entry(ino)->0.kind@),
                ),
                ..m
            },
            discs,
        ),
{
    law_headers_agree(m.headers, m.headers_cap, ino, own_headers(m.entries));
    let after = FsModel {
        headers: entries_after_header(
            m.headers,
            m.headers_cap,
            ino,
            built_header(m.entry(ino)->0.kind@),
        ),
        ..m
    };
    assert forall|f: u64| (#[trigger] after.entry(f)) matches Some(e) implies cache_agrees(
        after.entry(f)->0.kind@,
        after.frames,
        f,
        discs(f),
    ) by {
        assert(m.entry(f) == after.entry(f));
    }
}

/// Each step of a read under the file's own handle, be it from the cache or from the disc,
/// leaves what is cached true of the discs: of the file's own and of all others.
pub proof fn law_steps_keep_agreement(
    m: FsModel,
    j: JobModel,
    head: Seq<u8>,
    discs: spec_fn(u64) -> Disc,
)
    requires
        m.wf(),
        caches_agree(m, discs),
        m.entry(j.file_id) is Some,
        j.wf(),
        discs(j.file_id).wf(),
        faithful(j, head, discs(j.file_id)),
        own_source(m.entry(j.file_id)->0.kind@, j.source),
    ensures
        caches_agree(FsModel { frames: served(j, m.frames).1, ..m }, discs),
        j.going() && can_supply(j, m.frames, discs(j.file_id).hunk_size) ==> caches_agree(
            FsModel {
                frames: supplied(
                    j,
                    m.frames,
                    (discs(j.file_id).hunks)(j.needed_hunk(discs(j.file_id).hunk_size)->0),
                ).1,
                ..m
            },
            discs,
        ),
{
    let own = discs(j.file_id);
    let hunk = (own.hunks)(j.needed_hunk(own.hunk_size)->0);
    let after = FsModel { frames: served(j, m.frames).1, ..m };
    let later = FsModel { frames: supplied(j, m.frames, hunk).1, ..m };
    let goes = j.going() && can_supply(j, m.frames, own.hunk_size);
    assert(m.entry(j.file_id) is Some);
    law_cached_read(j, m.frames, head, own);
    if goes {
        law_supplied_read(j, m.frames, head, own);
    }
    assert forall|f: u64| m.entry(f) is Some implies {
        &&& cache_agrees((#[trigger] m.entry(f))->0.kind@, after.frames, f, discs(f))
        &&& goes ==> cache_agrees(m.entry(f)->0.kind@, later.frames, f, discs(f))
    } by {
        if f != j.file_id {
            match m.entry(f)->0.kind@ {
                KindModel::Cd2352 { frame_bytes, .. } => {
                    law_other_files_unaffected(j, m.frames, hunk, f, discs(f), frame_bytes);
                },
                KindModel::Vcd { frame_bytes, .. } => {
                    law_other_files_unaffected(j, m.frames, hunk, f, discs(f), frame_bytes);
                },
                _ => {},
            }
        }
    }
    assert forall|f: u64| (#[trigger] after.entry(f)) is Some implies cache_agrees(
        after.entry(f)->0.kind@,
        after.frames,
        f,
        discs(f),
    ) by {
        assert(m.entry(f) == after.entry(f));
    }
    assert forall|f: u64| goes && (#[trigger] later.entry(f)) is Some implies cache_agrees(
        later.entry(f)->0.kind@,
        later.frames,
        f,
        discs(f),
    ) by {
        assert(m.entry(f) == later.entry(f));
    }
}

proof fn lemma_outcome_keeps_agreement(
    m: FsModel,
    j: JobModel,
    head: Seq<u8>,
    discs: spec_fn(u64) -> Disc,
    readable: spec_fn(u32) -> bool,
)
    requires
        m.wf(),
        caches_agree(m, discs),
        m.entry(j.file_id) is Some,
        j.wf(),
        discs(j.file_id).wf(),
        faithful(j, head, discs(j.file_id)),
        own_source(m.entry(j.file_id)->0.kind@, j.source),
    ensures
        read_outcome(j, m.frames, discs(j.file_id), readable) matches Some((k, d)) ==> d.wf()
            && caches_agree(FsModel { frames: d, ..m }, discs),
    decreases j.end - j.pos,
{
    let disc = discs(j.file_id);
    assert(m.entry(j.file_id) is Some);
    law_cached_read(j, m.frames, head, disc);
    law_steps_keep_agreement(m, j, head, discs);
    let (k, d) = served(j, m.frames);
    let after = FsModel { frames: d, ..m };
    assert(after.entry(j.file_id) == m.entry(j.file_id));
    if k.going() && can_supply(k, d, disc.hunk_size) {
        law_supplied_read(k, d, head, disc);
        law_steps_keep_agreement(after, k, head, discs);
        let (l, e) = supplied(k, d, (disc.hunks)(k.needed_hunk(disc.hunk_size)->0));
        let later = FsModel { frames: e, ..m };
        assert(later.entry(j.file_id) == m.entry(j.file_id));
        lemma_outcome_keeps_agreement(later, l, head, discs, readable);
    }
}

/// A whole read under the file's own handle leaves what is cached true of the discs.
pub proof fn law_whole_read_keeps_agreement(
    m: FsModel,
    ino: u64,
    fh: u64,
    offset: u64,
    n: u32,
    discs: spec_fn(u64) -> Disc,
    readable: spec_fn(u32) -> bool,
)
    requires
        m.wf(),
        caches_agree(m, discs),
        own_handle(m, ino, fh),
        n != 0,
        read_fits(m, ino, fh, offset, n),
        discs(ino).wf(),
    ensures
        read_outcome(own_job(m, ino, offset, n), m.frames, discs(ino), readable) matches Some(
            (k, d),
        ) ==> d.wf() && caches_agree(FsModel { frames: d, ..m }, discs),
{
    lemma_own_job(m, ino, fh, offset, n, discs);
    let head = built_header(m.entry(ino)->0.kind@);
    lemma_outcome_keeps_agreement(m, own_job(m, ino, offset, n), head, discs, readable);
}

/// The read that begins under a file's own handle is well formed, of the file's make, and
/// has read nothing yet that is not so.
pub proof fn lemma_own_job(
    m: FsModel,
    ino: u64,
    fh: u64,
    offset: u64,
    n: u32,
    discs: spec_fn(u64) -> Disc,
)
    requires
        m.wf(),
        caches_agree(m, discs),
        own_handle(m, ino, fh),
        n != 0,
        read_fits(m, ino, fh, offset, n),
    ensures
        ({
            let e = m.entry(ino)->0;
            let head = built_header(e.kind@);
            let j = own_job(m, ino, offset, n);
            &&& j == entry_job(e.kind@, e.iso_size as int, ino, head, offset as int, n as int)
            &&& kind_fits(e.kind@, e.iso_size as int)
            &&& j.wf()
            &&& j.file_id == ino
            &&& j.offset == offset
            &&& faithful(j, head, discs(ino))
            &&& own_source(e.kind@, j.source)
        }),
{
    let e = m.entry(ino)->0;
    assert(own_headers(m.entries)(ino) == built_header(e.kind@));
    law_headers_agree(m.headers, m.headers_cap, ino, own_headers(m.entries));
    assert(e.wf());
    lemma_entry_job(
        e.kind@,
        e.iso_size as int,
        ino,
        offset as int,
        n as int,
        m.frames,
        discs(ino),
    );
}

/// The source is that of a file of the given make.
pub open spec fn own_source(kind: KindModel, source: Source) -> bool {
    match kind {
        KindModel::Cd2352 { first_data_lba, payload_kind, track_frames, frame_bytes } => source
            is Sectors && source->frame_bytes == frame_bytes,
        KindModel::Vcd { total_frames, frame_bytes, tracks } => source is Sectors
            && source->frame_bytes == frame_bytes,
        _ => source is Flat,
    }
}

/// A read of an open file under its own handle is not refused, and unless it fails it gives
/// exactly the bytes that the file holds there: as long as what is cached is true of the
/// discs.
pub proof fn law_open_file_reads_contents(
    m: FsModel,
    ino: u64,
    fh: u64,
    offset: u64,
    n: u32,
    discs: spec_fn(u64) -> Disc,
    readable: spec_fn(u32) -> bool,
)
    requires
        m.wf(),
        caches_agree(m, discs),
        own_handle(m, ino, fh),
        read_fits(m, ino, fh, offset, n),
        discs(ino).wf(),
    ensures
        read_refusal(m, ino, fh, n) is None,
        own_source(m.entry(ino)->0.kind@, own_job(m, ino, offset, n).source),
        ({
            let e = m.entry(ino)->0;
            let file = contents(e.kind@, e.iso_size as int, discs(ino));
            &&& file.len() == e.iso_size
            &&& own_reply(m, ino, offset, n, discs(ino), readable) matches Some(data) ==> data
                == excerpt(file, offset as int, n as int)
        }),
{
    let e = m.entry(ino)->0;
    assert(own_headers(m.entries)(ino) == built_header(e.kind@));
    law_headers_agree(m.headers, m.headers_cap, ino, own_headers(m.entries));
    assert(e.wf());
    law_read_serves_file(
        e.kind@,
        e.iso_size as int,
        ino,
        offset as int,
        n as int,
        m.frames,
        discs(ino),
        readable,
    );
    if n == 0 {
        let file = contents(e.kind@, e.iso_size as int, discs(ino));
        assert(Seq::<u8>::empty() =~= excerpt(file, offset as int, 0));
    }
}

/// The file of a CD begins with the user data of the sector that it is served from: of the
/// first sector of a track, or of the sector that a search found.
pub proof fn law_file_begins_at_first_sector(
    first_data_lba: int,
    payload_kind: CdPayloadKind,
    track_frames: Option<u64>,
    frame_bytes: int,
    size: int,
    disc: Disc,
    p: int,
)
    requires
        0 <= p < payload_size(payload_kind),
        p < size,
    ensures
        contents(
            KindModel::Cd2352 { first_data_lba, payload_kind, track_frames, frame_bytes },
            size,
            disc,
        )[p] == disc.sector(frame_bytes, first_data_lba)[payload_start(payload_kind) + p],
{
    let unit = payload_size(payload_kind);
    vstd::arithmetic::div_mod::lemma_small_mod(p as nat, unit as nat);
    vstd::arithmetic::div_mod::lemma_basic_div(p, unit);
}

/// A read of `n` bytes at `offset` of a file gives exactly the bytes asked for that the file
/// has, each where it is.
pub proof fn law_excerpt(file: Seq<u8>, offset: int, n: int, i: int)
    requires
        0 <= offset,
        0 <= n,
    ensures
        offset + n <= file.len() ==> excerpt(file, offset, n).len() == n,
        offset <= file.len() < offset + n ==> excerpt(file, offset, n).len() == file.len()
            - offset,
        file.len() <= offset ==> excerpt(file, offset, n).len() == 0,
        0 <= i < excerpt(file, offset, n).len() ==> excerpt(file, offset, n)[i] == file[offset + i],
{
}

/// A read of all of a file gives the file, and so do reads of `n` bytes, one behind the
/// other: byte `p` is byte `p % n` of the read at `p - p % n`.
pub proof fn law_reads_give_whole_file(file: Seq<u8>, n: int, p: int)
    requires
        0 < n,
        0 <= p < file.len(),
    ensures
        excerpt(file, 0, file.len() as int) == file,
        p % n < excerpt(file, p - p % n, n).len(),
        excerpt(file, p - p % n, n)[p % n] == file[p],
{
    vstd::arithmetic::div_mod::lemma_mod_bound(p, n);
    vstd::arithmetic::div_mod::lemma_fundamental_div_mod(p, n);
    assert(0 <= n * (p / n)) by {
        vstd::arithmetic::div_mod::lemma_div_pos_is_pos(p, n);
        vstd::arithmetic::mul::lemma_mul_nonnegative(n, p / n);
    }
    assert(excerpt(file, 0, file.len() as int) =~= file);
}

/// An image that is no CD is served as it is: byte `r` of hunk `q` is byte
/// `q * hunk_size + r` of the file.
pub proof fn law_image_is_served_as_it_is(size: int, disc: Disc, q: int, r: int)
    requires
        0 <= q < 0x1_0000_0000,
        0 <= r < disc.hunk_size,
        0 <= q * disc.hunk_size + r < size,
    ensures
        contents(KindModel::Dvd2048, size, disc).len() == size,
        contents(KindModel::Dvd2048, size, disc)[q * disc.hunk_size + r] == (disc.hunks)(
            q as u32,
        )[r],
        contents(KindModel::Raw2048, size, disc) == contents(KindModel::Dvd2048, size, disc),
{
    law_byte_of_disc(disc, q, r);
    assert(contents(KindModel::Raw2048, size, disc) =~= contents(KindModel::Dvd2048, size, disc));
}

/// A CD is served as the user data of its sectors.  Byte `q * unit + r` of the file is byte
/// `r` of the user data of the `q`-th sector behind the first one.  A sector lies where the
/// image has it: sector `b` of hunk `a`, where a hunk holds `per` sectors and the sector has
/// the number `a * per + b`.
pub proof fn law_cd_is_user_data(
    kind: KindModel,
    size: int,
    disc: Disc,
    per: int,
    a: int,
    b: int,
    q: int,
    r: int,
)
    requires
        kind is Cd2352,
        disc.wf(),
        kind->Cd2352_frame_bytes == 2352 || kind->Cd2352_frame_bytes == 2448,
        0 < per,
        per * kind->Cd2352_frame_bytes <= disc.hunk_size < (per + 1) * kind->Cd2352_frame_bytes,
        0 <= a < 0x1_0000_0000,
        0 <= b < per,
        0 <= q,
        kind->first_data_lba + q == a * per + b,
        0 <= r,
    ensures
        0 <= size ==> contents(kind, size, disc).len() == size,
        kind->payload_kind == CdPayloadKind::Mode1_2048 && r < 2048 && q * 2048 + r < size
            ==> contents(kind, size, disc)[q * 2048 + r] == (disc.hunks)(a as u32)[b
            * kind->Cd2352_frame_bytes + 16 + r],
        kind->payload_kind == CdPayloadKind::Mode2Form1_2048 && r < 2048 && q * 2048 + r < size
            ==> contents(kind, size, disc)[q * 2048 + r] == (disc.hunks)(a as u32)[b
            * kind->Cd2352_frame_bytes + 24 + r],
        kind->payload_kind == CdPayloadKind::Mode2Form2_2324 && r < 2324 && q * 2324 + r < size
            ==> contents(kind, size, disc)[q * 2324 + r] == (disc.hunks)(a as u32)[b
            * kind->Cd2352_frame_bytes + 24 + r],
{
    let fb = kind->Cd2352_frame_bytes;
    let unit = payload_size(kind->payload_kind);
    let start = payload_start(kind->payload_kind);
    if r < unit {
        vstd::arithmetic::div_mod::lemma_fundamental_div_mod_converse(q * unit + r, unit, q, r);
        law_sector_of_disc(disc, fb, per, a, b, start + r);
    }
}

/// A VCD is its header of 1 MiB, and behind it the raw sectors of the disc, from the first
/// on: byte `r` of sector `q` is byte `1048576 + q * 2352 + r` of the file.
pub proof fn law_vcd_is_header_and_disc(
    kind: KindModel,
    size: int,
    disc: Disc,
    per: int,
    a: int,
    b: int,
    r: int,
    p: int,
)
    requires
        kind is Vcd,
        disc.wf(),
        kind->Vcd_frame_bytes == 2352 || kind->Vcd_frame_bytes == 2448,
        0 < per,
        per * kind->Vcd_frame_bytes <= disc.hunk_size < (per + 1) * kind->Vcd_frame_bytes,
        0 <= a < 0x1_0000_0000,
        0 <= b < per,
        0 <= a * per + b < kind->total_frames,
        0 <= r < 2352,
        0 <= p < 1048576,
    ensures
        contents(kind, size, disc).len() == 1048576 + kind->total_frames * 2352,
        contents(kind, size, disc)[p] == vcd_header(kind->tracks, kind->total_frames)[p],
        contents(kind, size, disc)[1048576 + (a * per + b) * 2352 + r] == (disc.hunks)(
            a as u32,
        )[b * kind->Vcd_frame_bytes + r],
{
    let f = a * per + b;
    law_sector_of_disc(disc, kind->Vcd_frame_bytes, per, a, b, r);
    assert((f * 2352 + r) / 2352 == f && (f * 2352 + r) % 2352 == r);
}

} // verus!
