//! The state of the file system and what it answers: lookups, attributes, listings, open
//! files and reads.

use std::collections::HashMap;
use std::path::PathBuf;
use vstd::prelude::*;
use crate::attr::{
    attr_for, default_attr, default_file_attr, file_attr_for, Attr, HostStat, NodeKind, ROOT_INO,
};
use crate::cache::{
    entries_after_header, header_served, headers_fit, lru_displaced, lru_fits, lru_has, lru_put,
    lru_touch, lru_value, CacheModel, FrameCache, HeaderCache, OpenImages,
};
use crate::index::{
    is_index, numbered, BackingKind, IndexBuilder, IndexEntry, KindModel, Settings, FIRST_INO,
};
use crate::read::{
    can_supply, cd_fits, cd_job, cd_read_fits, flat_job, read_image, read_iso_from_cd, read_vcd,
    served, supplied, vcd_job, JobModel, ReadJob,
};
use crate::sector::payload_len;
use crate::sort::stable_sorted;
use crate::text::{
    first_index, is_ascii_text, is_first, lemma_first_index_complete, lemma_first_index_is,
    lemma_first_index_none, lower_letters, lowercase,
};
use crate::vcd::{header_fits, vcd_header, vcd_header_fits, VCD_HEADER_SIZE};

verus! {

/// Why a request is refused.
#[derive(Debug, Clone, Copy, PartialEq, Eq, Structural)]
pub enum FsError {
    /// There is no such file.
    NotFound,
    /// The image cannot be read.
    Io,
    /// The file is not open under that handle.
    BadHandle,
    /// It is not the directory.
    NotDirectory,
}

/// `PathBuf`'s `clone`: the same path.
pub assume_specification[ <PathBuf as Clone>::clone ](p: &PathBuf) -> (r: PathBuf)
    ensures
        r == *p,
;

/// An open file: its inode and the path of its image.
#[derive(Debug)]
pub struct Handle {
    pub file_id: u64,
    pub chd_path: PathBuf,
}

/// The mathematical reading of the file system's state.
pub struct FsModel {
    /// The served files.
    pub entries: Seq<IndexEntry>,
    /// The open handles, and the file that each was opened for.
    pub handles: Map<u64, Handle>,
    /// The number of the next handle.
    pub next_fh: int,
    /// The open images, least recently used first: file and slot.
    pub images: Seq<(u64, u64)>,
    /// The most images that are open.
    pub images_cap: int,
    /// The sector cache.
    pub frames: CacheModel,
    /// The cached VCD headers, least recently used first.
    pub headers: Seq<(u64, Seq<u8>)>,
    /// The most headers that are cached.
    pub headers_cap: int,
}

impl FsModel {
    pub open spec fn wf(self) -> bool {
        &&& is_index(self.entries)
        &&& lru_fits(self.images, self.images_cap)
        &&& self.frames.wf()
        &&& headers_fit(self.headers, self.headers_cap)
        &&& 0 <= self.next_fh <= u64::MAX
        &&& forall|fh: u64| #[trigger]
            self.handles.contains_key(fh) ==> fh < self.next_fh
    }

    /// The file with the given inode.
    pub open spec fn entry(self, ino: u64) -> Option<IndexEntry> {
        if FIRST_INO <= ino < FIRST_INO + self.entries.len() {
            Some(self.entries[ino - FIRST_INO])
        } else {
            None
        }
    }

    /// The file with the given name; of several, the one listed first.
    pub open spec fn named(self, name: Seq<char>) -> Option<IndexEntry> {
        match first_index(self.entries, has_name(name)) {
            Some(i) => Some(self.entries[i]),
            None => None,
        }
    }

    /// The state after a file is opened.
    pub open spec fn opened(self, ino: u64) -> FsModel {
        let handle = Handle { file_id: ino, chd_path: self.entry(ino)->0.chd_path };
        FsModel {
            handles: self.handles.insert(self.next_fh as u64, handle),
            next_fh: self.next_fh + 1,
            ..self
        }
    }

    /// The state after a handle is given up.
    pub open spec fn released(self, fh: u64) -> FsModel {
        FsModel { handles: self.handles.remove(fh), ..self }
    }
}

/// The test for a file's name.
pub open spec fn has_name(name: Seq<char>) -> spec_fn(IndexEntry) -> bool {
    |e: IndexEntry| e.name@ == name
}

/// What an inode stands for.
pub enum Node<'a> {
    Root,
    File(&'a IndexEntry),
}

/// The state of the file system.
pub struct FsState {
    entries: Vec<IndexEntry>,
    handles: HashMap<u64, Handle>,
    next_fh: u64,
    open_chds: OpenImages,
    frame_cache: FrameCache,
    vcd_header_cache: HeaderCache,
}

impl View for FsState {
    type V = FsModel;

    closed spec fn view(&self) -> FsModel {
        FsModel {
            entries: self.entries@,
            handles: self.handles@,
            next_fh: self.next_fh as int,
            images: self.open_chds.entries(),
            images_cap: self.open_chds.capacity() as int,
            frames: self.frame_cache@,
            headers: self.vcd_header_cache.entries(),
            headers_cap: self.vcd_header_cache.capacity() as int,
        }
    }
}

/// The capacity that a setting asks for; 0 asks for the default.
pub open spec fn capacity_or(setting: usize, default: usize) -> usize {
    if setting == 0 {
        default
    } else {
        setting
    }
}

fn capacity(setting: usize, default: usize) -> (r: usize)
    ensures
        r == capacity_or(setting, default),
{
    if setting == 0 {
        default
    } else {
        setting
    }
}

impl FsState {
    /// The state before anything is indexed, opened or cached.
    pub fn new(settings: Settings) -> (r: FsState)
        requires
            settings.cache_hunks <= usize::MAX / 128,
            settings.max_open_chds <= usize::MAX / 128,
        ensures
            r@.wf(),
            r@ == (FsModel {
                entries: Seq::empty(),
                handles: Map::empty(),
                next_fh: 1,
                images: Seq::empty(),
                images_cap: capacity_or(settings.max_open_chds, 8) as int,
                frames: CacheModel {
                    entries: Seq::empty(),
                    capacity: capacity_or(settings.cache_hunks, 64) as int,
                    bytes: 0,
                    limit: settings.cache_bytes as int,
                },
                headers: Seq::empty(),
                headers_cap: capacity_or(settings.max_open_chds, 8) as int,
            }),
    {
        broadcast use vstd::std_specs::hash::group_hash_axioms;

        let cache_cap: usize = capacity(settings.cache_hunks, 64);
        let open_chds_cap: usize = capacity(settings.max_open_chds, 8);
        FsState {
            entries: Vec::new(),
            handles: HashMap::new(),
            next_fh: 1,
            open_chds: OpenImages::new(open_chds_cap),
            frame_cache: FrameCache::new(cache_cap, settings.cache_bytes),
            vcd_header_cache: HeaderCache::new(open_chds_cap),
        }
    }

    /// Take over the files that a walk has found.
    pub fn build_index(&mut self, walk: IndexBuilder)
        requires
            old(self)@.wf(),
            walk@.wf(),
            walk@.found.len() + FIRST_INO <= u64::MAX,
        ensures
            final(self)@.wf(),
            final(self)@ == (FsModel {
                entries: numbered(stable_sorted(walk@.found)),
                ..old(self)@
            }),
            forall|i: int|
                0 <= i < walk@.found.len() && is_ascii_text(
                    (#[trigger] walk@.found[i]).name@,
                ) ==> lowercase(walk@.found[i].name@) == lower_letters(walk@.found[i].name@),
    {
        self.entries = walk.finish();
    }

    /// The number of served files.
    pub fn len(&self) -> (r: usize)
        ensures
            r == self@.entries.len(),
    {
        self.entries.len()
    }

    /// The slot of the file's open image, which becomes the most recently used, if it is
    /// open.
    pub fn get_chd(&mut self, file_id: u64) -> (r: Option<u64>)
        requires
            old(self)@.wf(),
        ensures
            final(self)@.wf(),
            r == (if lru_has(old(self)@.images, file_id) {
                Some(lru_value(old(self)@.images, file_id))
            } else {
                None
            }),
            final(self)@ == (FsModel {
                images: lru_touch(old(self)@.images, file_id),
                ..old(self)@
            }),
    {
        self.open_chds.get(file_id)
    }

    /// Note that the file's image has been opened in `slot`.  The slot whose image is to
    /// be closed for it is returned.
    pub fn put_chd(&mut self, file_id: u64, slot: u64) -> (r: Option<u64>)
        requires
            old(self)@.wf(),
        ensures
            final(self)@.wf(),
            r == (match lru_displaced(old(self)@.images, old(self)@.images_cap, file_id) {
                Some(e) => Some(e.1),
                None => None,
            }),
            final(self)@ == (FsModel {
                images: lru_put(old(self)@.images, old(self)@.images_cap, file_id, slot),
                ..old(self)@
            }),
    {
        self.open_chds.put(file_id, slot)
    }

    /// The number of a new handle.
    pub fn alloc_fh(&mut self) -> (r: u64)
        requires
            old(self)@.next_fh < u64::MAX,
        ensures
            old(self)@.wf() ==> final(self)@.wf(),
            r == old(self)@.next_fh,
            final(self)@ == (FsModel { next_fh: old(self)@.next_fh + 1, ..old(self)@ }),
    {
        let fh: u64 = self.next_fh;
        self.next_fh = fh + 1;
        fh
    }

    /// The file with the given inode.
    pub fn find(&self, ino: u64) -> (r: Option<&IndexEntry>)
        ensures
            match r {
                Some(e) => self@.entry(ino) == Some(*e),
                None => self@.entry(ino) is None,
            },
    {
        if ino >= FIRST_INO && ino - FIRST_INO < self.entries.len() as u64 {
            Some(&self.entries[(ino - FIRST_INO) as usize])
        } else {
            None
        }
    }

    /// The file with the given name; of several, the one listed first.
    pub fn lookup(&self, name: &str) -> (r: Result<&IndexEntry, FsError>)
        ensures
            match r {
                Ok(e) => self@.named(name@) == Some(*e),
                Err(e) => e == FsError::NotFound && self@.named(name@) is None,
            },
    {
        let wanted: String = name.to_owned();
        let mut i: usize = 0;
        while i < self.entries.len()
            invariant
                wanted@ == name@,
                i <= self.entries@.len(),
                forall|j: int| 0 <= j < i ==> (#[trigger] self.entries@[j]).name@ != name@,
            decreases self.entries@.len() - i,
        {
            if self.entries[i].name == wanted {
                proof {
                    assert(is_first(self.entries@, has_name(name@), i as int));
                    lemma_first_index_is(self.entries@, has_name(name@), i as int);
                }
                return Ok(&self.entries[i]);
            }
            i = i + 1;
        }
        proof {
            lemma_first_index_none(self.entries@, has_name(name@));
        }
        Err(FsError::NotFound)
    }

    /// What the inode stands for.
    pub fn getattr(&self, ino: u64) -> (r: Result<Node<'_>, FsError>)
        ensures
            match r {
                Ok(Node::Root) => ino == ROOT_INO,
                Ok(Node::File(e)) => ino != ROOT_INO && self@.entry(ino) == Some(*e),
                Err(e) => e == FsError::NotFound && ino != ROOT_INO && self@.entry(ino) is None,
            },
    {
        if ino == ROOT_INO {
            return Ok(Node::Root);
        }
        match self.find(ino) {
            Some(e) => Ok(Node::File(e)),
            None => Err(FsError::NotFound),
        }
    }

    /// The entries of the directory from `offset` on.
    pub fn readdir(&self, ino: u64, offset: u64) -> (r: Result<Vec<DirItem>, FsError>)
        requires
            self@.wf(),
        ensures
            match r {
                Ok(items) => ino == ROOT_INO && dir_items(items@) == listing(
                    self@.entries,
                    offset as int,
                ),
                Err(e) => ino != ROOT_INO && e == FsError::NotDirectory,
            },
    {
        if ino != ROOT_INO {
            return Err(FsError::NotDirectory);
        }
        let mut items: Vec<DirItem> = Vec::new();
        let mut idx: u64 = offset;
        if idx == 0 {
            items.push(
                DirItem {
                    ino: ROOT_INO,
                    offset: 1,
                    kind: NodeKind::Directory,
                    name: ".".to_owned(),
                },
            );
            items.push(
                DirItem {
                    ino: ROOT_INO,
                    offset: 2,
                    kind: NodeKind::Directory,
                    name: "..".to_owned(),
                },
            );
            idx = 2;
        }
        let ghost head = dir_items(items@);
        assert(head =~= listing_head(offset as int));
        let mut i: usize = 0;
        while i < self.entries.len()
            invariant
                self@.wf(),
                i <= self.entries@.len(),
                self.entries@ == self@.entries,
                idx == (if offset == 0 {
                    2
                } else {
                    offset
                }),
                head == listing_head(offset as int),
                dir_items(items@) == head + file_items(self.entries@).take(i as int).skip(
                    listing_start(i as int, offset as int),
                ),
            decreases self.entries@.len() - i,
        {
            let ghost before = dir_items(items@);
            let ghost files = file_items(self.entries@);
            let ent_idx: u64 = i as u64 + 3;
            if ent_idx > idx {
                let e: &IndexEntry = &self.entries[i];
                items.push(
                    DirItem {
                        ino: e.ino,
                        offset: ent_idx,
                        kind: NodeKind::RegularFile,
                        name: e.name.as_str().to_owned(),
                    },
                );
                assert(dir_items(items@) =~= before.push(files[i as int]));
            }
            assert(dir_items(items@) =~= head + files.take(i + 1).skip(
                listing_start(i + 1, offset as int),
            ));
            i = i + 1;
        }
        assert(file_items(self.entries@).take(self.entries@.len() as int) =~= file_items(
            self.entries@,
        ));
        Ok(items)
    }

    /// Open the file with the given inode, whose image the host can open or not.
    pub fn open(&mut self, ino: u64, can_open: bool) -> (r: Result<u64, FsError>)
        requires
            old(self)@.wf(),
            open_reply(old(self)@, ino, can_open) is Ok ==> old(self)@.next_fh < u64::MAX,
        ensures
            final(self)@.wf(),
            r == open_reply(old(self)@, ino, can_open),
            final(self)@ == (if r is Ok {
                old(self)@.opened(ino)
            } else {
                old(self)@
            }),
    {
        broadcast use vstd::std_specs::hash::group_hash_axioms;

        let chd_path: PathBuf = match self.find(ino) {
            Some(e) => e.chd_path.clone(),
            None => {
                return Err(FsError::NotFound);
            },
        };
        if !can_open {
            return Err(FsError::Io);
        }
        let fh: u64 = self.alloc_fh();
        self.handles.insert(fh, Handle { file_id: ino, chd_path });
        Ok(fh)
    }

    /// Give up a handle.
    pub fn release(&mut self, fh: u64)
        requires
            old(self)@.wf(),
        ensures
            final(self)@.wf(),
            final(self)@ == old(self)@.released(fh),
    {
        broadcast use vstd::std_specs::hash::group_hash_axioms;

        self.handles.remove(&fh);
        assert forall|h: u64| #[trigger] self@.handles.contains_key(h) implies h
            < self@.next_fh by {
            assert(old(self)@.handles.contains_key(h));
        }
    }

    /// The path of the image that is open under the handle.
    pub fn image_path(&self, fh: u64) -> (r: Option<&PathBuf>)
        ensures
            match r {
                Some(p) => self@.handles.contains_key(fh) && *p == self@.handles[fh].chd_path,
                None => !self@.handles.contains_key(fh),
            },
    {
        broadcast use vstd::std_specs::hash::group_hash_axioms;

        match self.handles.get(&fh) {
            Some(h) => Some(&h.chd_path),
            None => None,
        }
    }

    /// Whether there is a number left for one more handle.
    pub fn handles_left(&self) -> (r: bool)
        ensures
            r == (self@.next_fh < u64::MAX),
    {
        self.next_fh < u64::MAX
    }

    /// Whether a read can begin: see `read_fits`.
    pub fn can_read(&self, ino: u64, fh: u64, offset: u64, size: u32) -> (r: bool)
        ensures
            r == read_fits(self@, ino, fh, offset, size),
    {
        broadcast use vstd::std_specs::hash::group_hash_axioms;

        let file_id: u64 = match self.handles.get(&fh) {
            Some(h) => h.file_id,
            None => {
                return true;
            },
        };
        if size == 0 {
            return true;
        }
        match self.find(ino) {
            Some(e) => match &e.kind {
                BackingKind::Cd2352 { first_data_lba, payload_kind, .. } => cd_read_fits(
                    *first_data_lba,
                    *payload_kind,
                    offset,
                    size,
                    e.iso_size,
                ),
                BackingKind::Vcd { total_frames, frame_bytes: _, tracks } => {
                    offset >= VCD_HEADER_SIZE as u64 || self.vcd_header_cache.has_header(file_id)
                        || vcd_header_fits(tracks.as_slice(), *total_frames)
                },
                _ => true,
            },
            None => true,
        }
    }

    /// Begin a read of `size` bytes at `offset` of the file with the given inode, opened
    /// under the given handle.
    pub fn read(&mut self, ino: u64, fh: u64, offset: u64, size: u32) -> (r: Result<
        ReadStart,
        FsError,
    >)
        requires
            old(self)@.wf(),
            read_fits(old(self)@, ino, fh, offset, size),
        ensures
            final(self)@.wf(),
            final(self)@ == (if reads_header(old(self)@, ino, fh, offset, size) {
                FsModel {
                    headers: entries_after_header(
                        old(self)@.headers,
                        old(self)@.headers_cap,
                        old(self)@.handles[fh].file_id,
                        built_header(old(self)@.entry(ino)->0.kind@),
                    ),
                    ..old(self)@
                }
            } else {
                old(self)@
            }),
            match r {
                Err(e) => read_refusal(old(self)@, ino, fh, size) == Some(e),
                Ok(start) => {
                    &&& read_refusal(old(self)@, ino, fh, size) is None
                    &&& (start is Nothing <==> size == 0)
                    &&& (start matches ReadStart::Job(j) ==> {
                        let e = old(self)@.entry(ino)->0;
                        let file_id = old(self)@.handles[fh].file_id;
                        &&& j@.wf()
                        &&& j@ == entry_job(
                            e.kind@,
                            e.iso_size as int,
                            file_id,
                            header_served(old(self)@.headers, file_id, built_header(e.kind@)),
                            offset as int,
                            size as int,
                        )
                    })
                },
            },
    {
        broadcast use vstd::std_specs::hash::group_hash_axioms;

        if ino < FIRST_INO || ino - FIRST_INO >= self.entries.len() as u64 {
            return Err(FsError::NotFound);
        }
        if size == 0 {
            return Ok(ReadStart::Nothing);
        }
        let file_id: u64 = match self.handles.get(&fh) {
            Some(h) => h.file_id,
            None => {
                return Err(FsError::BadHandle);
            },
        };
        let e: &IndexEntry = &self.entries[(ino - FIRST_INO) as usize];
        assert(e.wf());
        let job: ReadJob = match &e.kind {
            BackingKind::Dvd2048 | BackingKind::Raw2048 => read_image(
                file_id,
                offset,
                size,
                e.iso_size,
            ),
            BackingKind::Cd2352 { first_data_lba, payload_kind, track_frames, frame_bytes } => {
                let max_len: u64 = match track_frames {
                    Some(frames) => *frames * payload_len(*payload_kind) as u64,
                    None => e.iso_size,
                };
                read_iso_from_cd(
                    file_id,
                    *first_data_lba,
                    *payload_kind,
                    offset,
                    size,
                    max_len,
                    *frame_bytes,
                )
            },
            BackingKind::Vcd { total_frames, frame_bytes, tracks } => read_vcd(
                &mut self.vcd_header_cache,
                file_id,
                tracks.as_slice(),
                *total_frames,
                *frame_bytes,
                offset,
                size,
            ),
        };
        Ok(ReadStart::Job(job))
    }

    /// Take what is cached for a read.  The result tells whether the read is complete; if
    /// it is not, a hunk is needed.
    pub fn advance(&mut self, job: &mut ReadJob) -> (done: bool)
        requires
            old(self)@.wf(),
            old(job)@.wf(),
        ensures
            final(self)@.wf(),
            final(job)@.wf(),
            (final(job)@, final(self)@.frames) == served(old(job)@, old(self)@.frames),
            final(self)@ == (FsModel { frames: final(self)@.frames, ..old(self)@ }),
            done == !final(job)@.going(),
    {
        job.advance(&mut self.frame_cache)
    }

    /// Whether the sector cache can count one more sector.
    pub fn can_store(&self) -> (r: bool)
        ensures
            r == self@.frames.has_room(),
    {
        self.frame_cache.can_store()
    }

    /// Give a read the hunk that it needs.
    pub fn supply(&mut self, job: &mut ReadJob, hunk: &[u8])
        requires
            old(self)@.wf(),
            old(job)@.wf(),
            old(job)@.going(),
            can_supply(old(job)@, old(self)@.frames, hunk@.len() as int),
        ensures
            final(self)@.wf(),
            final(job)@.wf(),
            (final(job)@, final(self)@.frames) == supplied(
                old(job)@,
                old(self)@.frames,
                hunk@,
            ),
            final(self)@ == (FsModel { frames: final(self)@.frames, ..old(self)@ }),
            final(job)@.pos > old(job)@.pos,
    {
        job.supply(&mut self.frame_cache, hunk);
    }
}

/// The attributes with which a file is found by name.  Where the host states nothing of its
/// image, they are filled in.
pub fn lookup_attr(e: &IndexEntry, stat: Option<HostStat>, euid: u32, egid: u32) -> (r: Attr)
    requires
        stat matches Some(st) ==> st.dated(),
    ensures
        r == (match stat {
            Some(st) => attr_for(*e, st),
            None => default_attr(*e, euid, egid),
        }),
{
    match stat {
        Some(st) => file_attr_for(e, &st),
        None => default_file_attr(e, euid, egid),
    }
}

/// The attributes of a file that is known by its inode.  They cannot be had where the host
/// states nothing of its image.
pub fn inode_attr(e: &IndexEntry, stat: Option<HostStat>) -> (r: Result<Attr, FsError>)
    requires
        stat matches Some(st) ==> st.dated(),
    ensures
        r == (match stat {
            Some(st) => Ok(attr_for(*e, st)),
            None => Err(FsError::Io),
        }),
{
    match stat {
        Some(st) => Ok(file_attr_for(e, &st)),
        None => Err(FsError::Io),
    }
}

/// The beginning of a read.
pub enum ReadStart {
    /// No bytes are asked for, and none are given.
    Nothing,
    /// Bytes are to be read.
    Job(ReadJob),
}

/// A read of `n` bytes at `offset` of a file with the given make and size, under a handle
/// of the file `file_id`.  `header` is the VCD header that is served.
pub open spec fn entry_job(
    kind: KindModel,
    size: int,
    file_id: u64,
    header: Seq<u8>,
    offset: int,
    n: int,
) -> JobModel {
    match kind {
        KindModel::Dvd2048 => flat_job(file_id, offset, n, size),
        KindModel::Raw2048 => flat_job(file_id, offset, n, size),
        KindModel::Cd2352 { first_data_lba, payload_kind, track_frames, frame_bytes } => cd_job(
            file_id,
            first_data_lba as u64,
            payload_kind,
            offset,
            n,
            size,
            frame_bytes as usize,
        ),
        KindModel::Vcd { total_frames, frame_bytes, tracks } => vcd_job(
            file_id,
            header,
            total_frames as int,
            offset,
            n,
            frame_bytes as usize,
        ),
    }
}

/// The VCD header of a file; that of a file of another make does not matter.
pub open spec fn built_header(kind: KindModel) -> Seq<u8> {
    match kind {
        KindModel::Vcd { total_frames, frame_bytes, tracks } => vcd_header(tracks, total_frames),
        _ => Seq::empty(),
    }
}

/// Why a read is refused, if it is.
pub open spec fn read_refusal(m: FsModel, ino: u64, fh: u64, size: u32) -> Option<FsError> {
    if m.entry(ino) is None {
        Some(FsError::NotFound)
    } else if size != 0 && !m.handles.contains_key(fh) {
        Some(FsError::BadHandle)
    } else {
        None
    }
}

/// The read takes bytes of a VCD header.
pub open spec fn reads_header(m: FsModel, ino: u64, fh: u64, offset: u64, size: u32) -> bool {
    &&& read_refusal(m, ino, fh, size) is None
    &&& size != 0
    &&& m.entry(ino)->0.kind@ is Vcd
    &&& offset < VCD_HEADER_SIZE
}

/// Whether the read can begin, where it is not refused and asks for bytes: the number of
/// each CD sector that it takes fits in 64 bits, and a VCD header that it takes is cached or
/// can be made.
pub open spec fn read_fits(m: FsModel, ino: u64, fh: u64, offset: u64, size: u32) -> bool {
    let e = m.entry(ino)->0;
    read_refusal(m, ino, fh, size) is None && size != 0 ==> match e.kind@ {
        KindModel::Cd2352 { first_data_lba, payload_kind, track_frames, frame_bytes } => cd_fits(
            first_data_lba,
            payload_kind,
            offset as int,
            size as int,
            e.iso_size as int,
        ),
        KindModel::Vcd { total_frames, frame_bytes, tracks } => {
            ||| offset >= VCD_HEADER_SIZE
            ||| lru_has(m.headers, m.handles[fh].file_id)
            ||| header_fits(tracks, total_frames)
        },
        _ => true,
    }
}

/// One entry of the directory.
#[derive(Debug)]
pub struct DirItem {
    pub ino: u64,
    /// Where a listing goes on behind this entry.
    pub offset: u64,
    pub kind: NodeKind,
    pub name: String,
}

impl DirItem {
    /// Whether a listing that has no room for this entry ends here.
    pub fn ends_listing(&self) -> (r: bool)
        ensures
            r == (self.kind == NodeKind::RegularFile),
    {
        self.kind == NodeKind::RegularFile
    }
}

/// The mathematical reading of a `DirItem`.
pub struct ItemModel {
    pub ino: u64,
    pub offset: int,
    pub kind: NodeKind,
    pub name: Seq<char>,
}

impl View for DirItem {
    type V = ItemModel;

    open spec fn view(&self) -> ItemModel {
        ItemModel {
            ino: self.ino,
            offset: self.offset as int,
            kind: self.kind,
            name: self.name@,
        }
    }
}

/// The entries by their reading.
pub open spec fn dir_items(s: Seq<DirItem>) -> Seq<ItemModel> {
    s.map_values(|d: DirItem| d@)
}

/// The entries of the files, behind those of the directory itself.
pub open spec fn file_items(entries: Seq<IndexEntry>) -> Seq<ItemModel> {
    Seq::new(
        entries.len(),
        |i: int|
            ItemModel {
                ino: entries[i].ino,
                offset: i + 3,
                kind: NodeKind::RegularFile,
                name: entries[i].name@,
            },
    )
}

/// The entries of the directory itself, which a listing from the start begins with.
pub open spec fn listing_head(offset: int) -> Seq<ItemModel> {
    if offset == 0 {
        seq![
            ItemModel { ino: ROOT_INO, offset: 1, kind: NodeKind::Directory, name: "."@ },
            ItemModel { ino: ROOT_INO, offset: 2, kind: NodeKind::Directory, name: ".."@ },
        ]
    } else {
        Seq::empty()
    }
}

/// The first of `n` files that a listing from `offset` on holds.
pub open spec fn listing_start(n: int, offset: int) -> int {
    if offset <= 2 {
        0
    } else if offset - 2 < n {
        offset - 2
    } else {
        n
    }
}

/// What a listing from `offset` on holds.
pub open spec fn listing(entries: Seq<IndexEntry>, offset: int) -> Seq<ItemModel> {
    listing_head(offset) + file_items(entries).skip(listing_start(entries.len() as int, offset))
}

/// What a request to open a file is answered.
pub open spec fn open_reply(m: FsModel, ino: u64, can_open: bool) -> Result<u64, FsError> {
    if m.entry(ino) is None {
        Err(FsError::NotFound)
    } else if !can_open {
        Err(FsError::Io)
    } else {
        Ok(m.next_fh as u64)
    }
}

/// A file is found by its inode, and inodes are neither shared nor the directory's.
pub proof fn law_inode_finds_file(m: FsModel, ino: u64, i: int)
    requires
        m.wf(),
        0 <= i < m.entries.len(),
    ensures
        m.entries[i].ino != ROOT_INO,
        m.entry(m.entries[i].ino) == Some(m.entries[i]),
        m.entry(ino) matches Some(e) ==> e.ino == ino && m.entries.contains(e),
        m.entry(ino) is None ==> m.entries[i].ino != ino,
{
}

/// What is found by name is found by its inode, too, and each listed name finds a file of
/// that name.
pub proof fn law_name_finds_file(m: FsModel, name: Seq<char>, i: int)
    requires
        m.wf(),
        0 <= i < m.entries.len(),
    ensures
        m.named(m.entries[i].name@) matches Some(e) && e.name@ == m.entries[i].name@,
        m.named(name) matches Some(e) ==> e.name@ == name && m.entry(e.ino) == Some(e),
        m.named(name) is None ==> m.entries[i].name@ != name,
{
    lemma_first_index_complete(m.entries, has_name(m.entries[i].name@), i);
    if m.named(name) is Some {
        let k = first_index(m.entries, has_name(name))->0;
        assert(is_first(m.entries, has_name(name), k));
    }
    if m.entries[i].name@ == name {
        lemma_first_index_complete(m.entries, has_name(name), i);
    }
}

/// A file that was opened can be read under its handle, which no other open file has, until
/// the handle is given up; other handles are not affected.
pub proof fn law_handle_lives_until_release(m: FsModel, ino: u64, other: u64, size: u32)
    requires
        m.wf(),
        m.entry(ino) is Some,
        size != 0,
        other != m.next_fh,
    ensures
        ({
            let fh = m.next_fh as u64;
            &&& !m.handles.contains_key(fh)
            &&& read_refusal(m, ino, fh, size) == Some(FsError::BadHandle)
            &&& read_refusal(m.opened(ino), ino, fh, size) is None
            &&& m.opened(ino).handles[fh].file_id == ino
            &&& m.opened(ino).handles[fh].chd_path == m.entry(ino)->0.chd_path
            &&& read_refusal(m.opened(ino).released(fh), ino, fh, size) == Some(FsError::BadHandle)
            &&& read_refusal(m.opened(ino), ino, other, size) == read_refusal(m, ino, other, size)
            &&& read_refusal(m.released(fh), ino, other, size) == read_refusal(m, ino, other, size)
        }),
{
}

/// What can happen to the state.
pub enum Request {
    /// A file is asked to be opened.
    Open { ino: u64, can_open: bool },
    /// The number of a new handle is taken, without a file.
    Alloc,
    /// A handle is given up.
    Release { fh: u64 },
    /// Anything else.  It leaves the state `after`, but does not touch the number of the
    /// next handle.
    Other { after: FsModel },
}

/// The state after a request.
pub open spec fn after_request(m: FsModel, r: Request) -> FsModel {
    match r {
        Request::Open { ino, can_open } => if open_reply(m, ino, can_open) is Ok {
            m.opened(ino)
        } else {
            m
        },
        Request::Alloc => FsModel { next_fh: m.next_fh + 1, ..m },
        Request::Release { fh } => m.released(fh),
        Request::Other { after } => FsModel { next_fh: m.next_fh, ..after },
    }
}

/// The state after requests, one after the other.
pub open spec fn after_requests(m: FsModel, rs: Seq<Request>) -> FsModel
    decreases rs.len(),
{
    if rs.len() == 0 {
        m
    } else {
        after_request(after_requests(m, rs.drop_last()), rs.last())
    }
}

/// The handle that request `i` gives out, if it gives one out.
pub open spec fn given_out(m: FsModel, rs: Seq<Request>, i: int) -> Option<u64> {
    match rs[i] {
        Request::Open { ino, can_open } => match open_reply(
            after_requests(m, rs.take(i)),
            ino,
            can_open,
        ) {
            Ok(fh) => Some(fh),
            Err(_) => None,
        },
        Request::Alloc => Some(after_requests(m, rs.take(i)).next_fh as u64),
        _ => None,
    }
}

/// The number of handles that the first `i` requests give out.
pub open spec fn handles_given(m: FsModel, rs: Seq<Request>, i: int) -> int
    decreases i,
{
    if i <= 0 {
        0
    } else if given_out(m, rs, i - 1) is Some {
        handles_given(m, rs, i - 1) + 1
    } else {
        handles_given(m, rs, i - 1)
    }
}

proof fn lemma_next_handle(m: FsModel, rs: Seq<Request>, i: int)
    requires
        0 <= i <= rs.len(),
    ensures
        after_requests(m, rs.take(i)).next_fh == m.next_fh + handles_given(m, rs, i),
        0 <= handles_given(m, rs, i) <= i,
    decreases i,
{
    if i > 0 {
        lemma_next_handle(m, rs, i - 1);
        assert(rs.take(i).drop_last() =~= rs.take(i - 1));
        assert(rs.take(i).last() == rs[i - 1]);
    }
}

proof fn lemma_handles_given_monotone(m: FsModel, rs: Seq<Request>, i: int, k: int)
    requires
        0 <= i <= k,
    ensures
        handles_given(m, rs, i) <= handles_given(m, rs, k),
    decreases k,
{
    if i < k {
        lemma_handles_given_monotone(m, rs, i, k - 1);
    }
}

/// Handles are numbered from 1 on, one after the other: the n-th handle that is given out,
/// to a file that is opened or by itself, has the number n, whatever is refused, released
/// or read in between.  So no number is given out twice.
pub proof fn law_handles_count_up(m: FsModel, rs: Seq<Request>, i: int, k: int)
    requires
        m.next_fh == 1,
        rs.len() < u64::MAX,
        0 <= i <= k < rs.len(),
    ensures
        given_out(m, rs, k) matches Some(fh) ==> fh == handles_given(m, rs, k) + 1,
        i < k ==> (given_out(m, rs, i) matches Some(a) ==> (given_out(m, rs, k) matches Some(b)
            ==> a < b)),
{
    lemma_next_handle(m, rs, i);
    lemma_next_handle(m, rs, k);
    if i < k {
        lemma_handles_given_monotone(m, rs, i + 1, k);
    }
}

/// A listing that is cut short and goes on behind its last entry holds what the whole
/// listing holds: for each entry but the directory's own first one.
pub proof fn law_listing_goes_on(entries: Seq<IndexEntry>, offset: int, k: int)
    requires
        0 <= offset,
        0 <= k < listing(entries, offset).len(),
        listing(entries, offset)[k].offset != 1,
    ensures
        listing(entries, offset).take(k + 1) + listing(
            entries,
            listing(entries, offset)[k].offset,
        ) == listing(entries, offset),
{
    let whole = listing(entries, offset);
    let o = whole[k].offset;
    let rest = listing(entries, o);
    assert(listing_head(o) =~= Seq::<ItemModel>::empty());
    assert(whole.take(k + 1) + rest =~= whole);
}

/// A listing from the start holds the directory itself, its parent, and each file once, in
/// the order of the index.
pub proof fn law_listing_is_complete(entries: Seq<IndexEntry>, i: int)
    requires
        0 <= i < entries.len(),
    ensures
        listing(entries, 0).len() == entries.len() + 2,
        listing(entries, 0)[0].name == "."@,
        listing(entries, 0)[1].name == ".."@,
        listing(entries, 0)[i + 2].name == entries[i].name@,
        listing(entries, 0)[i + 2].ino == entries[i].ino,
{
}

/// A file is known by its place in the list: the first has inode 2, the next 3, and so on;
/// no other inode is a file's.
pub proof fn law_file_of_inode(m: FsModel, ino: u64, i: int)
    ensures
        m.entry(ino) is Some <==> 2 <= ino < 2 + m.entries.len(),
        0 <= i < m.entries.len() && ino == i + 2 ==> m.entry(ino) == Some(m.entries[i]),
        ino == 1 ==> m.entry(ino) is None && ino == ROOT_INO,
        ino != 1 ==> ino != ROOT_INO,
{
}

/// A name finds the first listed file that has it, letter by letter, and nothing where no
/// file has it.
pub proof fn law_file_of_name(m: FsModel, name: Seq<char>, i: int)
    ensures
        0 <= i < m.entries.len() && m.entries[i].name@ == name && (forall|j: int|
            0 <= j < i ==> (#[trigger] m.entries[j]).name@ != name) ==> m.named(name) == Some(
            m.entries[i],
        ),
        (forall|j: int| 0 <= j < m.entries.len() ==> (#[trigger] m.entries[j]).name@ != name)
            <==> m.named(name) is None,
{
    let p = has_name(name);
    if 0 <= i < m.entries.len() && m.entries[i].name@ == name && (forall|j: int|
        0 <= j < i ==> (#[trigger] m.entries[j]).name@ != name) {
        assert(is_first(m.entries, p, i));
        lemma_first_index_is(m.entries, p, i);
    }
    if forall|j: int| 0 <= j < m.entries.len() ==> (#[trigger] m.entries[j]).name@ != name {
        lemma_first_index_none(m.entries, p);
    }
    if m.named(name) is None {
        assert forall|j: int| 0 <= j < m.entries.len() implies (#[trigger] m.entries[j]).name@
            != name by {
            if m.entries[j].name@ == name {
                lemma_first_index_complete(m.entries, p, j);
            }
        }
    }
}

/// A setting of 0 asks for the default, and any other for itself.
pub proof fn law_capacity(setting: usize, default: usize)
    ensures
        setting == 0 ==> capacity_or(setting, default) == default,
        setting != 0 ==> capacity_or(setting, default) == setting,
{
}

/// What a request to open a file is answered: a handle of its own, unless there is no such
/// file, or the host cannot open its image.
pub proof fn law_open_answers(m: FsModel, ino: u64, can_open: bool)
    requires
        0 <= m.next_fh <= u64::MAX,
    ensures
        ino < 2 || ino >= 2 + m.entries.len() ==> open_reply(m, ino, can_open) == Err::<u64, _>(
            FsError::NotFound,
        ),
        2 <= ino < 2 + m.entries.len() && !can_open ==> open_reply(m, ino, can_open) == Err::<
            u64,
            _,
        >(FsError::Io),
        2 <= ino < 2 + m.entries.len() && can_open <==> open_reply(m, ino, can_open) is Ok,
        open_reply(m, ino, can_open) matches Ok(fh) ==> fh == m.next_fh,
{
}

/// Opening a file adds its handle, and giving a handle up takes it away: nothing else
/// changes.
pub proof fn law_open_and_release_change_handles(m: FsModel, ino: u64, fh: u64)
    requires
        2 <= ino < 2 + m.entries.len(),
        0 <= m.next_fh <= u64::MAX,
    ensures
        ({
            let o = m.opened(ino);
            &&& o.handles.contains_key(fh) <==> m.handles.contains_key(fh) || fh == m.next_fh
            &&& fh != m.next_fh && m.handles.contains_key(fh) ==> o.handles[fh] == m.handles[fh]
            &&& fh == m.next_fh ==> o.handles[fh].file_id == ino && o.handles[fh].chd_path
                == m.entries[ino - 2].chd_path
            &&& o.next_fh == m.next_fh + 1
            &&& o == (FsModel { handles: o.handles, next_fh: o.next_fh, ..m })
        }),
        !m.released(fh).handles.contains_key(fh),
        forall|h: u64|
            h != fh ==> (#[trigger] m.released(fh).handles.contains_key(h)
                <==> m.handles.contains_key(h)),
        forall|h: u64|
            h != fh && m.handles.contains_key(h) ==> #[trigger] m.released(fh).handles[h]
                == m.handles[h],
        m.released(fh) == (FsModel { handles: m.released(fh).handles, ..m }),
{
}

/// Why a read is refused: there is no such file, or bytes are asked for under a handle that
/// is not open.  A read of no bytes needs no handle.
pub proof fn law_read_refusals(m: FsModel, ino: u64, fh: u64, size: u32)
    ensures
        ino < 2 || ino >= 2 + m.entries.len() <==> read_refusal(m, ino, fh, size) == Some(
            FsError::NotFound,
        ),
        2 <= ino < 2 + m.entries.len() && size > 0 && !m.handles.contains_key(fh)
            <==> read_refusal(m, ino, fh, size) == Some(FsError::BadHandle),
        2 <= ino < 2 + m.entries.len() && (size == 0 || m.handles.contains_key(fh))
            <==> read_refusal(m, ino, fh, size) is None,
{
}

/// The header of a VCD is looked up by the reads that take bytes of its first 1 MiB, and by
/// no others.
pub proof fn law_header_is_read(m: FsModel, ino: u64, fh: u64, offset: u64, size: u32)
    ensures
        reads_header(m, ino, fh, offset, size) <==> {
            &&& 2 <= ino < 2 + m.entries.len()
            &&& size > 0
            &&& m.handles.contains_key(fh)
            &&& m.entries[ino - 2].kind is Vcd
            &&& offset < 1048576
        },
{
}

/// Which reads can begin: all but those of a CD whose sector numbers do not fit in 64 bits,
/// and those of a VCD header that can neither be looked up nor made.
pub proof fn law_reads_can_begin(m: FsModel, ino: u64, fh: u64, offset: u64, size: u32)
    ensures
        ino < 2 || ino >= 2 + m.entries.len() ==> read_fits(m, ino, fh, offset, size),
        size == 0 || !m.handles.contains_key(fh) ==> read_fits(m, ino, fh, offset, size),
        2 <= ino < 2 + m.entries.len() && size > 0 && m.handles.contains_key(fh) ==> {
            let e = m.entries[ino - 2];
            read_fits(m, ino, fh, offset, size) <==> match e.kind {
                BackingKind::Dvd2048 => true,
                BackingKind::Raw2048 => true,
                BackingKind::Cd2352 { first_data_lba, payload_kind, .. } => cd_fits(
                    first_data_lba as int,
                    payload_kind,
                    offset as int,
                    size as int,
                    e.iso_size as int,
                ),
                BackingKind::Vcd { total_frames, tracks, .. } => offset >= 1048576 || lru_has(
                    m.headers,
                    m.handles[fh].file_id,
                ) || header_fits(tracks@, total_frames),
            }
        },
{
}

/// What a read of a file begins with, by the file's make.  A CD is read as a file of its
/// size from its first sector on, and a VCD as one of its sectors behind its header.
pub proof fn law_read_by_make(e: IndexEntry, file_id: u64, header: Seq<u8>, offset: int, n: int)
    ensures
        e.kind is Dvd2048 || e.kind is Raw2048 ==> entry_job(
            e.kind@,
            e.iso_size as int,
            file_id,
            header,
            offset,
            n,
        ) == flat_job(file_id, offset, n, e.iso_size as int),
        e.kind matches BackingKind::Cd2352 { first_data_lba, payload_kind, frame_bytes, .. }
            ==> entry_job(e.kind@, e.iso_size as int, file_id, header, offset, n) == cd_job(
            file_id,
            first_data_lba,
            payload_kind,
            offset,
            n,
            e.iso_size as int,
            frame_bytes,
        ),
        e.kind matches BackingKind::Vcd { total_frames, frame_bytes, tracks } ==> entry_job(
            e.kind@,
            e.iso_size as int,
            file_id,
            header,
            offset,
            n,
        ) == vcd_job(file_id, header, total_frames as int, offset, n, frame_bytes)
            && built_header(e.kind@) == vcd_header(tracks@, total_frames),
{
}

/// What a listing holds.  From the start it holds the directory and its parent, which are
/// both the root, and each file; from behind an entry on, each file that follows that entry.
/// A listing goes on behind the directory at 1, behind its parent at 2, and behind the n-th
/// file at n + 2.
pub proof fn law_listing_entries(entries: Seq<IndexEntry>, offset: int, i: int)
    requires
        0 <= offset,
        0 <= i < entries.len(),
    ensures
        ({
            let whole = listing(entries, 0);
            &&& whole.len() == entries.len() + 2
            &&& whole[0] == (ItemModel {
                ino: 1,
                offset: 1,
                kind: NodeKind::Directory,
                name: "."@,
            })
            &&& whole[1] == (ItemModel {
                ino: 1,
                offset: 2,
                kind: NodeKind::Directory,
                name: ".."@,
            })
            &&& whole[i + 2] == (ItemModel {
                ino: entries[i].ino,
                offset: i + 3,
                kind: NodeKind::RegularFile,
                name: entries[i].name@,
            })
        }),
        0 < offset <= 2 ==> listing(entries, offset) == listing(entries, 0).skip(2),
        2 < offset <= entries.len() + 2 ==> listing(entries, offset) == listing(entries, 0).skip(
            offset,
        ),
        entries.len() + 2 <= offset ==> listing(entries, offset).len() == 0,
{
    if 0 < offset <= 2 {
        assert(listing(entries, offset) =~= listing(entries, 0).skip(2));
    }
    if 2 < offset <= entries.len() + 2 {
        assert(listing(entries, offset) =~= listing(entries, 0).skip(offset));
    }
}

/// An entry of a listing is read field by field.
pub proof fn law_listed_items(s: Seq<DirItem>, i: int)
    requires
        0 <= i < s.len(),
    ensures
        dir_items(s).len() == s.len(),
        dir_items(s)[i].ino == s[i].ino,
        dir_items(s)[i].offset == s[i].offset,
        dir_items(s)[i].kind == s[i].kind,
        dir_items(s)[i].name == s[i].name@,
{
}

} // verus!
