//! The index of the served files: what each image is served as, and in which order the
//! files are listed.

use std::path::PathBuf;
use std::sync::Arc;
use vstd::prelude::*;
use crate::cache::CD_FRAME_2352;
use crate::sector::{is_frame_size, payload_len, payload_size, CD_FRAME_2448};
use crate::sort::{
    code_points, is_sorted, law_stable_sort, lemma_code_points_differ, lemma_sort_map,
    lemma_sort_members, lemma_stable_sort_exists, lex_before, lex_lt, stable_sort, stable_sorted,
    Keyed, Ranked,
};
use crate::text::{
    chars_of, eq_ignore_ascii_case, is_ascii_text, law_same_letter, lower_letters, lowercase,
    same_letters, to_lowercase,
};
use crate::track::{
    all_decode, first_data, parse_all_tracks_from_metadata, parse_cd_toc_from_metadata, toc_fits,
    toc_positions_fit, track_table, CdPayloadKind, MetaRecord, TrackInfo, TrackKind,
};
use crate::vcd::{low_word, stated_sectors, VCD_HEADER_SIZE};

verus! {

/// A path of the host file system.
#[verifier::external_type_specification]
#[verifier::external_body]
pub struct ExPathBuf(PathBuf);

/// What the file system is told to do.
#[derive(Debug, Clone, Copy)]
pub struct Settings {
    /// Max in-memory cache entries (frames) across all files
    pub cache_hunks: usize,
    /// Soft cap for cache memory usage (bytes)
    pub cache_bytes: usize,
    /// Max number of simultaneously open image handles
    pub max_open_chds: usize,
    /// Permit exporting Mode2/Form2 payloads as raw 2324-byte sectors
    pub cd_allow_form2: bool,
    /// Serve CD images as .vcd files instead of .iso
    pub vcd: bool,
    /// Recurse into subdirectories when scanning for images
    pub recursive: bool,
}

/// How the bytes of a file come from its image.
#[derive(Debug)]
pub enum BackingKind {
    /// DVD (or generic 2048 units): direct 2048 sector passthrough
    Dvd2048,
    /// CD-style frames (2352 or 2448 bytes) -> user-data view
    Cd2352 {
        first_data_lba: u64,
        payload_kind: CdPayloadKind,
        track_frames: Option<u64>,
        /// Raw frame size in bytes: 2352 (no subchannel) or 2448 (with subchannel)
        frame_bytes: usize,
    },
    /// Raw/unrecognized, default to 2048 passthrough
    Raw2048,
    /// A VCD: a 1 MiB header followed by the raw 2352-byte disc image (all tracks, in
    /// order).
    Vcd {
        /// Number of 2352-byte sectors in the disc image (body length / 2352).
        total_frames: u64,
        /// Raw frame size stored in the image: 2352 or 2448.
        frame_bytes: usize,
        /// Track table used to build the header.
        tracks: Arc<Vec<TrackInfo>>,
    },
}

/// The mathematical reading of a `BackingKind`.
pub enum KindModel {
    Dvd2048,
    Cd2352 {
        first_data_lba: int,
        payload_kind: CdPayloadKind,
        track_frames: Option<u64>,
        frame_bytes: int,
    },
    Raw2048,
    Vcd { total_frames: u64, frame_bytes: int, tracks: Seq<TrackInfo> },
}

impl View for BackingKind {
    type V = KindModel;

    open spec fn view(&self) -> KindModel {
        match *self {
            BackingKind::Dvd2048 => KindModel::Dvd2048,
            BackingKind::Cd2352 { first_data_lba, payload_kind, track_frames, frame_bytes } =>
                KindModel::Cd2352 {
                    first_data_lba: first_data_lba as int,
                    payload_kind,
                    track_frames,
                    frame_bytes: frame_bytes as int,
                },
            BackingKind::Raw2048 => KindModel::Raw2048,
            BackingKind::Vcd { total_frames, frame_bytes, tracks } => KindModel::Vcd {
                total_frames,
                frame_bytes: frame_bytes as int,
                tracks: tracks@,
            },
        }
    }
}

/// The size of a file fits what it is made of.
pub open spec fn kind_fits(kind: KindModel, size: int) -> bool {
    match kind {
        KindModel::Dvd2048 => true,
        KindModel::Raw2048 => true,
        KindModel::Cd2352 { first_data_lba, payload_kind, track_frames, frame_bytes } => {
            let per_sector = payload_size(payload_kind);
            let frames = size / per_sector;
            &&& is_frame_size(frame_bytes)
            &&& 0 <= first_data_lba <= u64::MAX
            &&& size == frames * per_sector
            &&& track_frames matches Some(n) ==> frames == n
        },
        KindModel::Vcd { total_frames, frame_bytes, tracks } => {
            &&& is_frame_size(frame_bytes)
            &&& size == VCD_HEADER_SIZE + total_frames * CD_FRAME_2352
        },
    }
}

/// One served file.
#[derive(Debug)]
pub struct IndexEntry {
    pub ino: u64,
    pub name: String,
    pub chd_path: PathBuf,
    pub kind: BackingKind,
    pub iso_size: u64,
}

impl IndexEntry {
    pub open spec fn wf(&self) -> bool {
        kind_fits(self.kind@, self.iso_size as int)
    }
}

/// A file to be served: its name, what it is made of, and its size.
pub type Found = (String, BackingKind, u64);

/// The file has the given name, make and size, and they fit.
pub open spec fn found_is(f: Found, name: Seq<char>, kind: KindModel, size: int) -> bool {
    &&& f.0@ == name
    &&& f.1@ == kind
    &&& f.2 == size
    &&& kind_fits(kind, size)
}

fn named(stem: &str, suffix: &str) -> (r: String)
    ensures
        r@ == stem@ + suffix@,
{
    let mut r: String = String::new();
    r.append(stem);
    r.append(suffix);
    assert(r@ =~= stem@ + suffix@);
    r
}

/// The name under which the user data of a CD is served.
pub open spec fn cd_name(stem: Seq<char>, payload: CdPayloadKind) -> Seq<char> {
    match payload {
        CdPayloadKind::Mode2Form2_2324 => stem + " (Form2).bin"@,
        _ => stem + ".iso"@,
    }
}

/// What is known of a CD image while its index entry is made.
#[derive(Debug)]
pub struct CdProbe {
    /// The image's file name without its extension.
    pub stem: String,
    pub frame_bytes: usize,
    pub total_frames: u64,
    pub vcd: bool,
    pub allow_form2: bool,
}

impl CdProbe {
    pub open spec fn wf(&self) -> bool {
        &&& is_frame_size(self.frame_bytes as int)
        &&& self.total_frames * CD_FRAME_2352 <= u64::MAX
    }

    /// The size of the image as a VCD file fits in 64 bits.
    pub open spec fn vcd_size_fits(&self) -> bool {
        VCD_HEADER_SIZE + self.total_frames * CD_FRAME_2352 <= u64::MAX
    }
}

/// What making an index entry needs next.
#[derive(Debug)]
pub enum ProbeStep {
    /// The entry is made; there is none where the image is not to be served.
    Entry(Option<Found>),
    /// The image's metadata is needed.
    Metadata(CdProbe),
    /// The metadata names no track to serve: the first sectors are to be searched.
    Scan(CdProbe),
}

/// The name that an image goes by: its file name without the extension, where that is
/// text.
pub open spec fn stem_or_unknown(stem: Option<&str>) -> Seq<char> {
    match stem {
        Some(s) => s@,
        None => "unknown"@,
    }
}

/// Begin the index entry of an image, given its file name without the extension, where
/// that is text, and what its header states.
pub fn build_index_entry(
    stem: Option<&str>,
    unit_bytes: u32,
    logical_bytes: u64,
    settings: &Settings,
) -> (r: ProbeStep)
    ensures
        unit_bytes == 2048 ==> (r matches ProbeStep::Entry(Some(f)) && found_is(
            f,
            stem_or_unknown(stem) + ".iso"@,
            KindModel::Dvd2048,
            logical_bytes as int,
        )),
        unit_bytes == 2352 || unit_bytes == 2448 ==> (r matches ProbeStep::Metadata(p) && p.wf()
            && p.stem@ == stem_or_unknown(stem) && p.frame_bytes == unit_bytes && p.total_frames
            == logical_bytes as int / unit_bytes as int && p.vcd == settings.vcd && p.allow_form2
            == settings.cd_allow_form2),
        unit_bytes != 2048 && unit_bytes != 2352 && unit_bytes != 2448 ==> (
        r matches ProbeStep::Entry(Some(f)) && found_is(
            f,
            stem_or_unknown(stem) + ".iso"@,
            KindModel::Raw2048,
            logical_bytes as int,
        )),
{
    let stem: &str = match stem {
        Some(s) => s,
        None => "unknown",
    };
    if unit_bytes == 2048 {
        return ProbeStep::Entry(Some((named(stem, ".iso"), BackingKind::Dvd2048, logical_bytes)));
    }
    if unit_bytes == 2352 {
        return ProbeStep::Metadata(
            CdProbe {
                stem: stem.to_owned(),
                frame_bytes: CD_FRAME_2352,
                total_frames: logical_bytes / 2352,
                vcd: settings.vcd,
                allow_form2: settings.cd_allow_form2,
            },
        );
    }
    if unit_bytes == 2448 {
        return ProbeStep::Metadata(
            CdProbe {
                stem: stem.to_owned(),
                frame_bytes: CD_FRAME_2448,
                total_frames: logical_bytes / 2448,
                vcd: settings.vcd,
                allow_form2: settings.cd_allow_form2,
            },
        );
    }
    ProbeStep::Entry(Some((named(stem, ".iso"), BackingKind::Raw2048, logical_bytes)))
}

/// The file that serves `frames` sectors from `first_lba` on; none where the payload is
/// not permitted.
pub open spec fn serves_cd(
    r: Option<Found>,
    p: CdProbe,
    first_lba: int,
    payload: CdPayloadKind,
    track_frames: Option<u64>,
    frames: int,
) -> bool {
    if payload == CdPayloadKind::Mode2Form2_2324 && !p.allow_form2 {
        r is None
    } else {
        r is Some && found_is(
            r->0,
            cd_name(p.stem@, payload),
            KindModel::Cd2352 {
                first_data_lba: first_lba,
                payload_kind: payload,
                track_frames,
                frame_bytes: p.frame_bytes as int,
            },
            frames * payload_size(payload),
        )
    }
}

fn cd_entry(
    p: &CdProbe,
    first_lba: u64,
    payload: CdPayloadKind,
    track_frames: Option<u64>,
    frames: u64,
) -> (r: Option<Found>)
    requires
        p.wf(),
        frames * 2324 <= u64::MAX,
        track_frames matches Some(n) ==> n == frames,
    ensures
        serves_cd(r, *p, first_lba as int, payload, track_frames, frames as int),
{
    let name: String = match payload {
        CdPayloadKind::Mode1_2048 | CdPayloadKind::Mode2Form1_2048 => named(
            p.stem.as_str(),
            ".iso",
        ),
        CdPayloadKind::Mode2Form2_2324 => {
            if p.allow_form2 {
                named(p.stem.as_str(), " (Form2).bin")
            } else {
                return None;
            }
        },
    };
    let per_sector: u64 = payload_len(payload) as u64;
    proof {
        if per_sector == 2048 {
            assert(frames * per_sector == frames * 2048);
            assert((frames * per_sector) as int / per_sector as int == (frames * 2048) / 2048);
        } else {
            assert(frames * per_sector == frames * 2324);
            assert((frames * per_sector) as int / per_sector as int == (frames * 2324) / 2324);
        }
    }
    let iso_size: u64 = frames * per_sector;
    let kind: BackingKind = BackingKind::Cd2352 {
        first_data_lba: first_lba,
        payload_kind: payload,
        track_frames,
        frame_bytes: p.frame_bytes,
    };
    Some((name, kind, iso_size))
}

/// The track table of a VCD: that of the metadata or, where it describes no track, one
/// Mode2 data track that spans the disc.
pub open spec fn vcd_tracks(table: Seq<TrackInfo>, total_frames: u64) -> Seq<TrackInfo> {
    if table.len() == 0 {
        seq![
            TrackInfo {
                number: 1,
                kind: TrackKind::Mode2Form1,
                frames: stated_sectors(total_frames),
                pregap: 0,
                postgap: 0,
            },
        ]
    } else {
        table
    }
}

impl CdProbe {
    /// Build a VCD index entry for a CD image: a 1 MiB header followed by the raw
    /// 2352-byte disc image (all tracks, in order).
    pub fn build_vcd_entry(&self, records: &[MetaRecord]) -> (r: Found)
        requires
            self.wf(),
            self.vcd_size_fits(),
        ensures
            found_is(
                r,
                self.stem@ + ".vcd"@,
                KindModel::Vcd {
                    total_frames: self.total_frames,
                    frame_bytes: self.frame_bytes as int,
                    tracks: vcd_tracks(track_table(records@), self.total_frames),
                },
                VCD_HEADER_SIZE + self.total_frames * CD_FRAME_2352,
            ),
            all_decode(records@),
    {
        let mut tracks: Vec<TrackInfo> = parse_all_tracks_from_metadata(records);
        // No CD track metadata: assume a single Mode2 data track spanning the disc.
        if tracks.len() == 0 {
            tracks.push(
                TrackInfo {
                    number: 1,
                    kind: TrackKind::Mode2Form1,
                    frames: low_word(self.total_frames),
                    pregap: 0,
                    postgap: 0,
                },
            );
        }
        assert(tracks@ =~= vcd_tracks(track_table(records@), self.total_frames));
        let name: String = named(self.stem.as_str(), ".vcd");
        let size: u64 = VCD_HEADER_SIZE as u64 + self.total_frames * CD_FRAME_2352 as u64;
        let kind: BackingKind = BackingKind::Vcd {
            total_frames: self.total_frames,
            frame_bytes: self.frame_bytes,
            tracks: Arc::new(tracks),
        };
        (name, kind, size)
    }

    /// What the image's metadata leads to: a VCD; or else a file with the user data of the
    /// first data track, or a search for one where no track is served.
    pub open spec fn leads_to(self, records: Seq<MetaRecord>, step: ProbeStep) -> bool {
        if self.vcd {
            step matches ProbeStep::Entry(Some(f)) && found_is(
                f,
                self.stem@ + ".vcd"@,
                KindModel::Vcd {
                    total_frames: self.total_frames,
                    frame_bytes: self.frame_bytes as int,
                    tracks: vcd_tracks(track_table(records), self.total_frames),
                },
                VCD_HEADER_SIZE + self.total_frames * CD_FRAME_2352,
            )
        } else {
            match first_data(track_table(records), self.allow_form2) {
                Some(x) => step is Entry && serves_cd(
                    step->Entry_0,
                    self,
                    x.0,
                    x.1,
                    Some(x.2 as u64),
                    x.2,
                ),
                None => step == ProbeStep::Scan(self),
            }
        }
    }

    /// Go on with the image's metadata.
    pub fn metadata(self, records: &[MetaRecord]) -> (r: ProbeStep)
        requires
            self.wf(),
            self.vcd ==> self.vcd_size_fits(),
            !self.vcd ==> toc_fits(track_table(records@), self.allow_form2),
        ensures
            self.leads_to(records@, r),
            all_decode(records@),
    {
        if self.vcd {
            return ProbeStep::Entry(Some(self.build_vcd_entry(records)));
        }
        match parse_cd_toc_from_metadata(records, self.allow_form2) {
            Some((first_lba, payload, track_frames)) => {
                let frames: u64 = track_frames.unwrap();
                ProbeStep::Entry(cd_entry(&self, first_lba, payload, track_frames, frames))
            },
            None => ProbeStep::Scan(self),
        }
    }

    /// Go on with the image's metadata, unless it places its tracks at sectors whose numbers
    /// do not fit in 64 bits.
    pub fn checked_metadata(self, records: &[MetaRecord]) -> (r: Option<ProbeStep>)
        requires
            self.wf(),
            self.vcd ==> self.vcd_size_fits(),
        ensures
            r is None <==> !self.vcd && !toc_fits(track_table(records@), self.allow_form2),
            r matches Some(step) ==> self.leads_to(records@, step),
            all_decode(records@),
    {
        let tracks: Vec<TrackInfo> = parse_all_tracks_from_metadata(records);
        if !self.vcd && !toc_positions_fit(tracks.as_slice(), self.allow_form2) {
            return None;
        }
        Some(self.metadata(records))
    }

    /// End with what the search through the first sectors found.
    pub fn scanned(self, first_lba: u64, payload: CdPayloadKind) -> (r: Option<Found>)
        requires
            self.wf(),
            first_lba <= self.total_frames,
        ensures
            serves_cd(
                r,
                self,
                first_lba as int,
                payload,
                None,
                self.total_frames - first_lba,
            ),
    {
        cd_entry(&self, first_lba, payload, None, self.total_frames - first_lba)
    }
}

/// The key of a file in the index: its name in lower case.
impl Ranked for IndexEntry {
    open spec fn rank(&self) -> Seq<int> {
        code_points(lowercase(self.name@))
    }
}

/// A file and the text by which it is listed.
pub struct KeyedEntry {
    pub key: String,
    pub entry: IndexEntry,
}

impl Ranked for KeyedEntry {
    open spec fn rank(&self) -> Seq<int> {
        code_points(self.key@)
    }
}

impl Keyed for KeyedEntry {
    fn before(&self, other: &Self) -> (r: bool) {
        let a: Vec<char> = chars_of(self.key.as_str());
        let b: Vec<char> = chars_of(other.key.as_str());
        lex_before(a.as_slice(), b.as_slice())
    }
}

/// The inode of the first listed file; the root directory has inode 1.
pub const FIRST_INO: u64 = 2;

/// The files with their inodes, which count up in the order of the list.
pub open spec fn numbered(s: Seq<IndexEntry>) -> Seq<IndexEntry> {
    Seq::new(s.len(), |i: int| IndexEntry { ino: (i + FIRST_INO) as u64, ..s[i] })
}

/// The files of the keyed list.
pub open spec fn entries_of(s: Seq<KeyedEntry>) -> Seq<IndexEntry> {
    s.map_values(|k: KeyedEntry| k.entry)
}

/// List the files by ascending key, those with equal keys in the order given, and number
/// them.
pub fn order_entries(items: Vec<KeyedEntry>) -> (r: Vec<IndexEntry>)
    requires
        items@.len() + FIRST_INO <= u64::MAX,
    ensures
        r@ == numbered(entries_of(stable_sorted(items@))),
        r@.len() == items@.len(),
{
    let sorted: Vec<KeyedEntry> = stable_sort(items);
    let ghost all = sorted@;
    let mut r: Vec<IndexEntry> = Vec::new();
    let mut ino: u64 = FIRST_INO;
    for x in it: sorted
        invariant
            it.seq() == all,
            all.len() + FIRST_INO <= u64::MAX,
            ino == it.index() + FIRST_INO,
            r@ == numbered(entries_of(all)).take(it.index()),
    {
        let e: IndexEntry = x.entry;
        r.push(
            IndexEntry {
                ino,
                name: e.name,
                chd_path: e.chd_path,
                kind: e.kind,
                iso_size: e.iso_size,
            },
        );
        assert(r@ =~= numbered(entries_of(all)).take(it.index() + 1));
        ino = ino + 1;
    }
    assert(r@ =~= numbered(entries_of(all)));
    r
}

/// The mathematical reading of a walk over the source directory.
pub struct WalkModel {
    /// Whether subdirectories are walked too.
    pub recursive: bool,
    /// The directories still to be read; the last one is next.
    pub dirs: Seq<PathBuf>,
    /// The files found so far, in the order of the walk, without inodes.
    pub found: Seq<IndexEntry>,
}

impl WalkModel {
    pub open spec fn wf(self) -> bool {
        forall|i: int| 0 <= i < self.found.len() ==> (#[trigger] self.found[i]).wf()
    }

    /// The walk when the next directory is taken.
    pub open spec fn popped(self) -> WalkModel {
        WalkModel { dirs: self.dirs.drop_last(), ..self }
    }

    /// The walk when something is noted that was read from a directory.
    pub open spec fn visited(self, path: PathBuf, is_dir: bool) -> WalkModel {
        if is_dir && self.recursive {
            WalkModel { dirs: self.dirs.push(path), ..self }
        } else {
            self
        }
    }

    /// The walk when the file is noted that an image is served as.
    pub open spec fn added(self, path: PathBuf, file: Found) -> WalkModel {
        WalkModel { found: self.found.push(unlisted(path, file)), ..self }
    }
}

/// The file that an image is served as, before it has an inode.
pub open spec fn unlisted(path: PathBuf, file: Found) -> IndexEntry {
    IndexEntry { ino: 0, name: file.0, chd_path: path, kind: file.1, iso_size: file.2 }
}

/// The beginning of a walk.
pub open spec fn walk_start(root: PathBuf, recursive: bool) -> WalkModel {
    WalkModel { recursive, dirs: seq![root], found: Seq::empty() }
}

/// An image to be probed: a file with the extension `chd`, in any case.
pub open spec fn is_image_file(is_dir: bool, extension: Option<Seq<char>>) -> bool {
    !is_dir && extension is Some && same_letters(extension->0, "chd"@)
}

/// The characters of the extension, if there is one.
pub open spec fn extension_text(extension: Option<&str>) -> Option<Seq<char>> {
    match extension {
        Some(e) => Some(e@),
        None => None,
    }
}

/// A walk over the source directory that collects the files to serve.
pub struct IndexBuilder {
    recursive: bool,
    dirs: Vec<PathBuf>,
    found: Vec<IndexEntry>,
}

impl View for IndexBuilder {
    type V = WalkModel;

    closed spec fn view(&self) -> WalkModel {
        WalkModel { recursive: self.recursive, dirs: self.dirs@, found: self.found@ }
    }
}

impl IndexBuilder {
    /// A walk that begins at `root`.
    pub fn new(root: PathBuf, recursive: bool) -> (r: IndexBuilder)
        ensures
            r@.wf(),
            r@ == walk_start(root, recursive),
    {
        let mut dirs: Vec<PathBuf> = Vec::new();
        dirs.push(root);
        let r: IndexBuilder = IndexBuilder { recursive, dirs, found: Vec::new() };
        assert(r@.dirs =~= seq![root]);
        r
    }

    /// The directory to read next, if any is left.
    pub fn next_dir(&mut self) -> (r: Option<PathBuf>)
        requires
            old(self)@.wf(),
        ensures
            final(self)@.wf(),
            old(self)@.dirs.len() == 0 ==> r is None && final(self)@ == old(self)@,
            old(self)@.dirs.len() > 0 ==> r == Some(old(self)@.dirs.last()) && final(self)@
                == old(self)@.popped(),
    {
        let r: Option<PathBuf> = self.dirs.pop();
        assert(self@.found == old(self)@.found);
        r
    }

    /// Note something that was read from a directory.  It is returned where it is an
    /// image to be probed: a file with the extension `chd`, in any case.  A directory is
    /// noted for reading where subdirectories are walked too.
    pub fn visit(&mut self, path: PathBuf, is_dir: bool, extension: Option<&str>) -> (r: Option<
        PathBuf,
    >)
        requires
            old(self)@.wf(),
        ensures
            final(self)@.wf(),
            final(self)@ == old(self)@.visited(path, is_dir),
            r == (if is_image_file(is_dir, extension_text(extension)) {
                Some(path)
            } else {
                None
            }),
    {
        if is_dir {
            if self.recursive {
                self.dirs.push(path);
            }
            assert(self@.found == old(self)@.found);
            return None;
        }
        match extension {
            Some(e) => {
                if eq_ignore_ascii_case(e, "chd") {
                    Some(path)
                } else {
                    None
                }
            },
            None => None,
        }
    }

    /// Note the file that an image is served as.
    pub fn add(&mut self, path: PathBuf, file: Found)
        requires
            old(self)@.wf(),
            kind_fits(file.1@, file.2 as int),
        ensures
            final(self)@.wf(),
            final(self)@ == old(self)@.added(path, file),
    {
        let (name, kind, size) = file;
        self.found.push(IndexEntry { ino: 0, name, chd_path: path, kind, iso_size: size });
        assert forall|i: int| 0 <= i < self@.found.len() implies (
        #[trigger] self@.found[i]).wf() by {
            if i < old(self)@.found.len() {
                assert(self@.found[i] == old(self)@.found[i]);
            }
        }
    }

    /// The index: the files by their names in lower case, numbered from the first inode.
    pub fn finish(self) -> (r: Vec<IndexEntry>)
        requires
            self@.wf(),
            self@.found.len() + FIRST_INO <= u64::MAX,
        ensures
            r@ == numbered(stable_sorted(self@.found)),
            r@.len() == self@.found.len(),
            is_index(r@),
            forall|i: int|
                0 <= i < self@.found.len() && is_ascii_text(
                    (#[trigger] self@.found[i]).name@,
                ) ==> lowercase(self@.found[i].name@) == lower_letters(self@.found[i].name@),
    {
        let ghost all = self.found@;
        let mut items: Vec<KeyedEntry> = Vec::new();
        for e in it: self.found
            invariant
                it.seq() == all,
                items@.len() == it.index(),
                forall|i: int|
                    0 <= i < it.index() ==> (#[trigger] items@[i]).entry == all[i] && items@[i].key@
                        == lowercase(all[i].name@),
                forall|i: int|
                    0 <= i < it.index() && is_ascii_text((#[trigger] all[i]).name@) ==> lowercase(
                        all[i].name@,
                    ) == lower_letters(all[i].name@),
        {
            let key: String = to_lowercase(e.name.as_str());
            items.push(KeyedEntry { key, entry: e });
        }
        proof {
            let f = |k: KeyedEntry| k.entry;
            assert(items@.map_values(f) =~= all);
            let sorted = stable_sorted(items@);
            lemma_stable_sort_exists(items@);
            assert forall|i: int| 0 <= i < items@.len() implies f(#[trigger] items@[i]).rank()
                == items@[i].rank() by {
                assert(items@[i].entry == all[i]);
            }
            lemma_sort_map(items@, sorted, f);
            lemma_sort_members(all, entries_of(sorted));
            assert forall|i: int| 0 <= i < sorted.len() implies (
            #[trigger] entries_of(sorted)[i]).wf() by {
                let e = entries_of(sorted)[i];
                assert(all.contains(e));
                let j = choose|j: int| 0 <= j < all.len() && all[j] == e;
                assert(self@.found[j].wf());
            }
        }
        let r: Vec<IndexEntry> = order_entries(items);
        proof {
            let sorted = stable_sorted(self@.found);
            assert forall|i: int| 0 <= i < r@.len() implies (#[trigger] r@[i]).ino == i + FIRST_INO
                && r@[i].wf() by {
                assert(r@[i] == numbered(sorted)[i]);
                assert(sorted[i].wf());
            }
        }
        r
    }
}

/// What an index is: its files have the inodes from the first on, and each fits what it
/// is made of.
pub open spec fn is_index(s: Seq<IndexEntry>) -> bool {
    &&& s.len() + FIRST_INO <= u64::MAX
    &&& forall|i: int|
        0 <= i < s.len() ==> (#[trigger] s[i]).ino == i + FIRST_INO && s[i].wf()
}

/// The index lists each file that was found, once, by ascending name in lower case, and
/// gives each an inode of its own that is not the root directory's.
pub proof fn law_index_lists_found(found: Seq<IndexEntry>)
    requires
        found.len() + FIRST_INO <= u64::MAX,
    ensures
        ({
            let index = numbered(stable_sorted(found));
            &&& index.len() == found.len()
            &&& stable_sorted(found).to_multiset() == found.to_multiset()
            &&& forall|i: int|
                0 <= i < index.len() ==> {
                    &&& (#[trigger] index[i]).name == stable_sorted(found)[i].name
                    &&& index[i].chd_path == stable_sorted(found)[i].chd_path
                    &&& index[i].kind == stable_sorted(found)[i].kind
                    &&& index[i].iso_size == stable_sorted(found)[i].iso_size
                }
            &&& is_sorted(index)
            &&& forall|i: int, j: int|
                0 <= i < j < index.len() ==> (#[trigger] index[i]).ino != (#[trigger] index[j]).ino
            &&& forall|i: int| 0 <= i < index.len() ==> (#[trigger] index[i]).ino != 1
        }),
{
    lemma_stable_sort_exists(found);
    let sorted = stable_sorted(found);
    let index = numbered(sorted);
    assert forall|i: int, j: int| 0 <= i < j < index.len() implies !lex_lt(
        #[trigger] index[j].rank(),
        #[trigger] index[i].rank(),
    ) by {
        assert(!lex_lt(sorted[j].rank(), sorted[i].rank()));
    }
}

/// The name that an image goes by is its file name without the extension, or `unknown`
/// where that is no text.
pub proof fn law_stem(s: &str)
    ensures
        stem_or_unknown(Some(s)) == s@,
        stem_or_unknown(None) == "unknown"@,
{
}

/// What is known of a file is what it has: its name, make and size, each field of the make
/// as it is.
pub proof fn law_found_file(f: Found, name: Seq<char>, kind: KindModel, size: int)
    requires
        found_is(f, name, kind, size),
    ensures
        f.0@ == name,
        f.2 == size,
        kind is Dvd2048 <==> f.1 is Dvd2048,
        kind is Raw2048 <==> f.1 is Raw2048,
        kind is Cd2352 <==> f.1 is Cd2352,
        kind is Vcd <==> f.1 is Vcd,
        kind is Cd2352 ==> {
            &&& f.1->first_data_lba == kind->first_data_lba
            &&& f.1->payload_kind == kind->payload_kind
            &&& f.1->track_frames == kind->track_frames
            &&& f.1->Cd2352_frame_bytes == kind->Cd2352_frame_bytes
        },
        kind is Vcd ==> {
            &&& f.1->total_frames == kind->total_frames
            &&& f.1->Vcd_frame_bytes == kind->Vcd_frame_bytes
            &&& f.1->tracks@ == kind->tracks
        },
{
}

/// A CD is served under its name with `.iso`, with 2048 bytes of each of its `frames`
/// sectors; in form 2 of mode 2 it is served by permission only, under its name with
/// ` (Form2).bin`, with 2324 bytes of each.
pub proof fn law_cd_file(
    r: Option<Found>,
    p: CdProbe,
    first_lba: int,
    payload: CdPayloadKind,
    track_frames: Option<u64>,
    frames: int,
)
    requires
        serves_cd(r, p, first_lba, payload, track_frames, frames),
    ensures
        r is None <==> payload == CdPayloadKind::Mode2Form2_2324 && !p.allow_form2,
        r matches Some(f) ==> {
            &&& f.1 is Cd2352
            &&& f.1->first_data_lba == first_lba
            &&& f.1->payload_kind == payload
            &&& f.1->track_frames == track_frames
            &&& f.1->Cd2352_frame_bytes == p.frame_bytes
            &&& payload == CdPayloadKind::Mode2Form2_2324 ==> f.0@ == p.stem@ + " (Form2).bin"@
                && f.2 == frames * 2324
            &&& payload != CdPayloadKind::Mode2Form2_2324 ==> f.0@ == p.stem@ + ".iso"@ && f.2
                == frames * 2048
        },
{
}

/// A VCD is served under the image's name with `.vcd`, with 2352 bytes of each sector of the
/// disc behind 1 MiB of header.  Its tracks are those of the metadata; where there are none,
/// one track in mode 2 that is as long as the disc, modulo 2 to the 32.
pub proof fn law_metadata_of_vcd(p: CdProbe, records: Seq<MetaRecord>, step: ProbeStep)
    requires
        p.vcd,
        p.leads_to(records, step),
    ensures
        step is Entry,
        step->Entry_0 matches Some(f) && {
            &&& f.0@ == p.stem@ + ".vcd"@
            &&& f.2 == 1048576 + p.total_frames * 2352
            &&& f.1 is Vcd
            &&& f.1->total_frames == p.total_frames
            &&& f.1->Vcd_frame_bytes == p.frame_bytes
            &&& track_table(records).len() > 0 ==> f.1->tracks@ == track_table(records)
            &&& track_table(records).len() == 0 ==> {
                &&& f.1->tracks@.len() == 1
                &&& f.1->tracks@[0].number == 1
                &&& f.1->tracks@[0].kind == TrackKind::Mode2Form1
                &&& f.1->tracks@[0].frames == p.total_frames % 0x1_0000_0000
                &&& f.1->tracks@[0].pregap == 0
                &&& f.1->tracks@[0].postgap == 0
            }
        },
{
}

/// Where the metadata names a track to serve, the file has that track's sectors: from its
/// first one on, and as many as it has.  Else the first sectors are searched.
pub proof fn law_metadata_of_cd(p: CdProbe, records: Seq<MetaRecord>, step: ProbeStep)
    requires
        !p.vcd,
        p.leads_to(records, step),
    ensures
        first_data(track_table(records), p.allow_form2) is None <==> step is Scan,
        step is Scan ==> step->Scan_0 == p,
        first_data(track_table(records), p.allow_form2) matches Some(x) ==> {
            &&& step is Entry
            &&& serves_cd(step->Entry_0, p, x.0, x.1, Some(x.2 as u64), x.2)
        },
{
}

/// The parts of a size that fit what a file is made of: a whole number of sectors with 2048
/// or 2324 bytes of user data each, as many as the track has; or a header of 1 MiB and 2352
/// bytes of each sector.
pub proof fn law_sizes(kind: KindModel, size: int)
    ensures
        kind is Dvd2048 || kind is Raw2048 ==> kind_fits(kind, size),
        kind is Cd2352 && kind_fits(kind, size) && kind->payload_kind
            == CdPayloadKind::Mode2Form2_2324 ==> size % 2324 == 0 && (
        kind->track_frames matches Some(n) ==> size == n * 2324),
        kind is Cd2352 && kind_fits(kind, size) && kind->payload_kind
            != CdPayloadKind::Mode2Form2_2324 ==> size % 2048 == 0 && (
        kind->track_frames matches Some(n) ==> size == n * 2048),
        kind is Vcd && kind_fits(kind, size) ==> size == 1048576 + kind->total_frames * 2352,
{
}

/// The inodes of the listed files count up from 2; nothing else of a file is changed.
pub proof fn law_inodes_count_up(s: Seq<IndexEntry>, i: int)
    requires
        0 <= i < s.len(),
        s.len() + 2 <= u64::MAX,
    ensures
        numbered(s).len() == s.len(),
        numbered(s)[i].ino == i + 2,
        numbered(s)[i].name == s[i].name,
        numbered(s)[i].chd_path == s[i].chd_path,
        numbered(s)[i].kind == s[i].kind,
        numbered(s)[i].iso_size == s[i].iso_size,
{
}

/// Files are listed by the code points of their names in lower case.
pub proof fn law_listed_by_lower_case(e: IndexEntry, k: KeyedEntry, i: int)
    ensures
        e.rank().len() == lowercase(e.name@).len(),
        0 <= i < lowercase(e.name@).len() ==> e.rank()[i] == lowercase(e.name@)[i] as int,
        k.rank().len() == k.key@.len(),
        0 <= i < k.key@.len() ==> k.rank()[i] == k.key@[i] as int,
{
}

/// The order of the index.  No file comes behind one whose name in lower case is greater, and
/// files whose names are the same in lower case keep the order in which they were found.
pub proof fn law_index_order(found: Seq<IndexEntry>, i: int, j: int, key: Seq<char>)
    requires
        0 <= i < j < found.len(),
    ensures
        !lex_lt(
            lowercase(stable_sorted(found)[j].name@).map_values(|c: char| c as int),
            lowercase(stable_sorted(found)[i].name@).map_values(|c: char| c as int),
        ),
        stable_sorted(found).filter(|e: IndexEntry| lowercase(e.name@) == key) == found.filter(
            |e: IndexEntry| lowercase(e.name@) == key,
        ),
{
    law_stable_sort(found, i, j, code_points(key));
    let a = lowercase(stable_sorted(found)[j].name@);
    let b = lowercase(stable_sorted(found)[i].name@);
    assert(a.map_values(|c: char| c as int) =~= code_points(a));
    assert(b.map_values(|c: char| c as int) =~= code_points(b));
    let f = |e: IndexEntry| lowercase(e.name@) == key;
    let g = |e: IndexEntry| e.rank() == code_points(key);
    assert forall|e: IndexEntry| #[trigger] f(e) == g(e) by {
        if e.rank() == code_points(key) {
            lemma_code_points_differ(lowercase(e.name@), key);
        }
    }
    assert(f =~= g);
}

/// An image is a file whose extension is the letters c, h and d, each in either case.
pub proof fn law_image_extension(is_dir: bool, extension: Option<Seq<char>>)
    ensures
        is_image_file(is_dir, extension) <==> {
            &&& !is_dir
            &&& extension is Some
            &&& extension->0.len() == 3
            &&& extension->0[0] == 'c' || extension->0[0] == 'C'
            &&& extension->0[1] == 'h' || extension->0[1] == 'H'
            &&& extension->0[2] == 'd' || extension->0[2] == 'D'
        },
{
    reveal_strlit("chd");
    if extension is Some && extension->0.len() == 3 {
        let e = extension->0;
        law_same_letter(e[0], 'c');
        law_same_letter(e[1], 'h');
        law_same_letter(e[2], 'd');
        assert("chd"@[0] == 'c' && "chd"@[1] == 'h' && "chd"@[2] == 'd');
    }
}

/// A walk begins at the root.  A directory that it comes to is read later, before all others
/// that wait, where subdirectories are walked too, and else not at all; the directory that
/// was noted last is the next one.
pub proof fn law_walk_steps(w: WalkModel, root: PathBuf, path: PathBuf, is_dir: bool)
    ensures
        walk_start(root, w.recursive).recursive == w.recursive,
        walk_start(root, w.recursive).dirs.len() == 1,
        walk_start(root, w.recursive).dirs[0] == root,
        walk_start(root, w.recursive).found.len() == 0,
        w.visited(path, is_dir).recursive == w.recursive,
        w.visited(path, is_dir).found == w.found,
        is_dir && w.recursive ==> w.visited(path, is_dir).dirs.last() == path && w.visited(
            path,
            is_dir,
        ).dirs.drop_last() == w.dirs,
        !is_dir || !w.recursive ==> w.visited(path, is_dir).dirs == w.dirs,
        is_dir && w.recursive ==> w.visited(path, is_dir).popped() == w,
        w.popped().recursive == w.recursive,
        w.popped().found == w.found,
        w.dirs.len() > 0 ==> w.popped().dirs.push(w.dirs.last()) == w.dirs,
{
    if is_dir && w.recursive {
        assert(w.visited(path, is_dir).dirs.drop_last() =~= w.dirs);
    }
    if w.dirs.len() > 0 {
        assert(w.popped().dirs.push(w.dirs.last()) =~= w.dirs);
    }
}

/// A file that is found is noted behind those found before, with its image's path and the
/// name, make and size that it is served with.
pub proof fn law_found_file_is_noted(w: WalkModel, path: PathBuf, file: Found)
    ensures
        w.added(path, file).recursive == w.recursive,
        w.added(path, file).dirs == w.dirs,
        w.added(path, file).found.drop_last() == w.found,
        w.added(path, file).found.last().ino == 0,
        w.added(path, file).found.last().chd_path == path,
        w.added(path, file).found.last().name == file.0,
        w.added(path, file).found.last().kind == file.1,
        w.added(path, file).found.last().iso_size == file.2,
        unlisted(path, file) == w.added(path, file).found.last(),
{
    assert(w.added(path, file).found.drop_last() =~= w.found);
}

/// The keyed list holds each file as it is.
pub proof fn law_keyed_files(s: Seq<KeyedEntry>, i: int)
    requires
        0 <= i < s.len(),
    ensures
        entries_of(s).len() == s.len(),
        entries_of(s)[i] == s[i].entry,
{
}

/// Which images can be probed, and which can be served as a VCD: those whose sectors, of 2352
/// bytes each, can be counted in 64 bits, for a VCD behind 1 MiB of header.
pub proof fn law_probe_sizes(p: CdProbe)
    ensures
        p.wf() <==> (p.frame_bytes == 2352 || p.frame_bytes == 2448) && p.total_frames * 2352
            <= 0xFFFF_FFFF_FFFF_FFFF,
        p.vcd_size_fits() <==> 1048576 + p.total_frames * 2352 <= 0xFFFF_FFFF_FFFF_FFFF,
{
}

} // verus!
