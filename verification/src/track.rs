//! The track table of a CD image, as its metadata describes it.

use chd::metadata::{KnownMetadata, MetadataTag};
use vstd::prelude::*;
use vstd::utf8::{decode_utf8, valid_utf8};
use crate::sort::{
    has_rank, is_stable_sort, lemma_stable_sort_exists, lex_lt, of_rank, stable_sort, stable_sorted,
    Keyed, Ranked,
};
use crate::text::{
    begins_with, chars_of, contains, decode_lossy, find_char, find_separator, first_index, has_text,
    is_char, is_first, is_separator, is_text, lemma_first_index_complete, lemma_first_index_is,
    lemma_first_index_none, occurs_at, parse_u32, separator, starts_with, u32_of, utf8_lossy,
};

verus! {

/// What the sectors of a track hold.
#[derive(Debug, Clone, Copy, PartialEq, Eq, Structural)]
pub enum TrackKind {
    Audio,
    Mode1,
    Mode2Form1,
    Mode2Form2,
    Mode2Raw,
}

/// One track of the disc.
#[derive(Debug, Clone, Copy, PartialEq, Eq, Structural)]
pub struct TrackInfo {
    pub number: u32,
    pub kind: TrackKind,
    pub frames: u32,
    pub pregap: u32,
    pub postgap: u32,
}

/// Which part of a raw sector is served as user data.
#[allow(non_camel_case_types)]
#[derive(Debug, Clone, Copy, PartialEq, Eq, Structural)]
pub enum CdPayloadKind {
    Mode1_2048,
    Mode2Form1_2048,
    Mode2Form2_2324,
}

/// One metadata entry of an image: its tag and its bytes.
#[derive(Debug)]
pub struct MetaRecord {
    pub tag: u32,
    pub value: Vec<u8>,
}

/// What the fields read so far say.  A field that comes again replaces what it said
/// before.
#[derive(Clone, Copy)]
pub struct LineState {
    pub number: Option<u32>,
    pub kind: Option<TrackKind>,
    pub frames: u32,
    pub pregap: u32,
    pub postgap: u32,
}

/// What is known before any field.
pub open spec fn no_fields() -> LineState {
    LineState { number: None, kind: None, frames: 0, pregap: 0, postgap: 0 }
}

/// The number that a field's value writes, or zero where it writes none.
pub open spec fn number_or_zero(v: Seq<char>) -> u32 {
    match u32_of(v) {
        Some(n) => n,
        None => 0,
    }
}

/// The track kind that the value of a TYPE field names.
pub open spec fn kind_named(v: Seq<char>) -> TrackKind {
    if v == "MODE1"@ {
        TrackKind::Mode1
    } else if v == "MODE2/2048"@ || v == "MODE2_FORM1"@ {
        TrackKind::Mode2Form1
    } else if v == "MODE2/2324"@ || v == "MODE2_FORM2"@ {
        TrackKind::Mode2Form2
    } else if v == "MODE2/2352"@ || v == "MODE2_RAW"@ || v == "CDI/2352"@ {
        TrackKind::Mode2Raw
    } else if v == "AUDIO"@ {
        TrackKind::Audio
    } else if starts_with(v, "MODE2"@) && contains(v, "2048"@) {
        TrackKind::Mode2Form1
    } else if starts_with(v, "MODE2"@) && contains(v, "2324"@) {
        TrackKind::Mode2Form2
    } else {
        TrackKind::Audio
    }
}

/// `st` after the field with key `k` and value `v`.
pub open spec fn with_pair(st: LineState, k: Seq<char>, v: Seq<char>) -> LineState {
    if k == "TRACK"@ {
        LineState { number: u32_of(v), ..st }
    } else if k == "FRAMES"@ {
        LineState { frames: number_or_zero(v), ..st }
    } else if k == "PREGAP"@ {
        LineState { pregap: number_or_zero(v), ..st }
    } else if k == "POSTGAP"@ {
        LineState { postgap: number_or_zero(v), ..st }
    } else if k == "TYPE"@ {
        LineState { kind: Some(kind_named(v)), ..st }
    } else {
        st
    }
}

/// `st` after the field `tok`: the text before its first ':' is the key, the rest the
/// value.  Text without ':' says nothing.
pub open spec fn with_field(st: LineState, tok: Seq<char>) -> LineState {
    match first_index(tok, is_char(':')) {
        Some(i) => with_pair(st, tok.take(i), tok.skip(i + 1)),
        None => st,
    }
}

/// `st` after the fields of `s`, one after the other.
pub open spec fn with_fields(st: LineState, s: Seq<char>) -> LineState
    decreases s.len(),
{
    match first_index(s, separator()) {
        Some(i) => if 0 <= i < s.len() {
            with_fields(with_field(st, s.take(i)), s.skip(i + 1))
        } else {
            st
        },
        None => with_field(st, s),
    }
}

/// The track that the fields describe: a number and a type are needed.
pub open spec fn track_of(st: LineState) -> Option<TrackInfo> {
    match (st.number, st.kind) {
        (Some(number), Some(kind)) => Some(
            TrackInfo {
                number,
                kind,
                frames: st.frames,
                pregap: st.pregap,
                postgap: st.postgap,
            },
        ),
        _ => None,
    }
}

/// The track that a line of metadata describes, if it describes one.
pub open spec fn line_track(s: Seq<char>) -> Option<TrackInfo> {
    track_of(with_fields(no_fields(), s))
}

fn parse_number_or_zero(v: &[char]) -> (r: u32)
    ensures
        r == number_or_zero(v@),
{
    match parse_u32(v) {
        Some(n) => n,
        None => 0,
    }
}

fn parse_kind(v: &[char]) -> (r: TrackKind)
    ensures
        r == kind_named(v@),
{
    if is_text(v, "MODE1") {
        TrackKind::Mode1
    } else if is_text(v, "MODE2/2048") || is_text(v, "MODE2_FORM1") {
        TrackKind::Mode2Form1
    } else if is_text(v, "MODE2/2324") || is_text(v, "MODE2_FORM2") {
        TrackKind::Mode2Form2
    } else if is_text(v, "MODE2/2352") || is_text(v, "MODE2_RAW") || is_text(v, "CDI/2352") {
        TrackKind::Mode2Raw
    } else if is_text(v, "AUDIO") {
        TrackKind::Audio
    } else if begins_with(v, "MODE2") && has_text(v, "2048") {
        TrackKind::Mode2Form1
    } else if begins_with(v, "MODE2") && has_text(v, "2324") {
        TrackKind::Mode2Form2
    } else {
        TrackKind::Audio
    }
}

fn apply_pair(st: LineState, k: &[char], v: &[char]) -> (r: LineState)
    ensures
        r == with_pair(st, k@, v@),
{
    let mut r: LineState = st;
    if is_text(k, "TRACK") {
        r.number = parse_u32(v);
    } else if is_text(k, "FRAMES") {
        r.frames = parse_number_or_zero(v);
    } else if is_text(k, "PREGAP") {
        r.pregap = parse_number_or_zero(v);
    } else if is_text(k, "POSTGAP") {
        r.postgap = parse_number_or_zero(v);
    } else if is_text(k, "TYPE") {
        r.kind = Some(parse_kind(v));
    }
    r
}

fn apply_field(st: LineState, tok: &[char]) -> (r: LineState)
    ensures
        r == with_field(st, tok@),
{
    let n: usize = tok.len();
    match find_char(tok, ':') {
        Some(i) => {
            let k: &[char] = vstd::slice::slice_subrange(tok, 0, i);
            let v: &[char] = vstd::slice::slice_subrange(tok, i + 1, n);
            assert(k@ =~= tok@.take(i as int));
            assert(v@ =~= tok@.skip(i + 1));
            apply_pair(st, k, v)
        },
        None => st,
    }
}

/// Parse one line of CD track metadata, such as
/// `TRACK:1 TYPE:MODE1 SUBTYPE:NONE FRAMES:26888 PREGAP:0 POSTGAP:0`.
pub fn parse_track_line(s: &str) -> (r: Option<TrackInfo>)
    ensures
        r == line_track(s@),
{
    let chars: Vec<char> = chars_of(s);
    let mut st: LineState = LineState {
        number: None,
        kind: None,
        frames: 0,
        pregap: 0,
        postgap: 0,
    };
    let mut start: usize = 0;
    let mut more: bool = true;
    assert(chars@.skip(0) =~= chars@);
    while more
        invariant
            chars@ == s@,
            start <= chars.len(),
            more ==> with_fields(no_fields(), s@) == with_fields(st, chars@.skip(start as int)),
            !more ==> with_fields(no_fields(), s@) == st,
        decreases chars.len() - start + (if more { 1int } else { 0int }),
    {
        let rest: &[char] = vstd::slice::slice_subrange(chars.as_slice(), start, chars.len());
        assert(rest@ =~= chars@.skip(start as int));
        match find_separator(rest) {
            Some(i) => {
                let tok: &[char] = vstd::slice::slice_subrange(rest, 0, i);
                assert(tok@ =~= rest@.take(i as int));
                st = apply_field(st, tok);
                assert(rest@.skip(i + 1) =~= chars@.skip(start + i + 1));
                start = start + i + 1;
            },
            None => {
                st = apply_field(st, rest);
                more = false;
            },
        }
    }
    match (st.number, st.kind) {
        (Some(number), Some(kind)) => Some(
            TrackInfo {
                number,
                kind,
                frames: st.frames,
                pregap: st.pregap,
                postgap: st.postgap,
            },
        ),
        _ => None,
    }
}

impl Ranked for TrackInfo {
    open spec fn rank(&self) -> Seq<int> {
        seq![self.number as int]
    }
}

impl Keyed for TrackInfo {
    fn before(&self, other: &Self) -> (r: bool) {
        proof {
            reveal_with_fuel(lex_lt, 2);
        }
        self.number < other.number
    }
}

/// The tags of the metadata entries that describe CD tracks: `CHTR` and `CHT2`.
pub open spec fn is_track_tag(tag: u32) -> bool {
    tag == 0x4348_5452 || tag == 0x4348_5432
}

/// The `chd` crate's `KnownMetadata::metatag` of `CdRomTrack` and of `CdRomTrack2`: the
/// four letters `CHTR` and `CHT2`, most significant byte first.
#[verifier::external_body]
fn track_tags() -> (r: (u32, u32))
    ensures
        r.0 == 0x4348_5452,
        r.1 == 0x4348_5432,
{
    (KnownMetadata::CdRomTrack.metatag(), KnownMetadata::CdRomTrack2.metatag())
}

/// The track that a metadata entry describes, if it describes one.
pub open spec fn record_track(r: MetaRecord) -> Option<TrackInfo> {
    if is_track_tag(r.tag) {
        line_track(utf8_lossy(r.value@))
    } else {
        None
    }
}

/// The tracks that the metadata entries describe, in the order of the entries.
pub open spec fn record_tracks(records: Seq<MetaRecord>) -> Seq<TrackInfo> {
    records.filter_map(|r: MetaRecord| record_track(r))
}

/// The tracks that the metadata entries describe, by ascending track number.
pub open spec fn track_table(records: Seq<MetaRecord>) -> Seq<TrackInfo> {
    stable_sorted(record_tracks(records))
}

/// The text of a track entry whose bytes are valid UTF-8 is what they encode.
pub open spec fn decodes(r: MetaRecord) -> bool {
    is_track_tag(r.tag) && valid_utf8(r.value@) ==> utf8_lossy(r.value@) == decode_utf8(r.value@)
}

/// The texts of all track entries whose bytes are valid UTF-8 are what they encode.
pub open spec fn all_decode(records: Seq<MetaRecord>) -> bool {
    forall|i: int| 0 <= i < records.len() ==> decodes(#[trigger] records[i])
}

/// The track that one metadata entry describes, if it describes one.
pub fn parse_track_record(record: &MetaRecord) -> (r: Option<TrackInfo>)
    ensures
        r == record_track(*record),
        decodes(*record),
{
    let tags: (u32, u32) = track_tags();
    if record.tag != tags.0 && record.tag != tags.1 {
        return None;
    }
    let line: String = decode_lossy(record.value.as_slice());
    parse_track_line(line.as_str())
}

/// Parse every CD track described in the image metadata (CHTR/CHT2), sorted by track
/// number.
pub fn parse_all_tracks_from_metadata(records: &[MetaRecord]) -> (r: Vec<TrackInfo>)
    ensures
        r@ == track_table(records@),
        is_stable_sort(record_tracks(records@), r@),
        r@.len() <= records@.len(),
        all_decode(records@),
{
    let mut tracks: Vec<TrackInfo> = Vec::new();
    let ghost f = |r: MetaRecord| record_track(r);
    let mut i: usize = 0;
    proof {
        reveal(Seq::filter_map);
        assert(records@.take(0).filter_map(f) =~= tracks@);
    }
    while i < records.len()
        invariant
            i <= records.len(),
            f == (|r: MetaRecord| record_track(r)),
            tracks@ == records@.take(i as int).filter_map(f),
            tracks@.len() <= i,
            forall|j: int| 0 <= j < i ==> decodes(#[trigger] records@[j]),
        decreases records.len() - i,
    {
        proof {
            reveal(Seq::filter_map);
            assert(records@.take(i + 1).drop_last() =~= records@.take(i as int));
            assert(records@.take(i + 1).last() == records@[i as int]);
        }
        if let Some(t) = parse_track_record(&records[i]) {
            tracks.push(t);
        }
        i += 1;
    }
    assert(records@.take(i as int) =~= records@);
    stable_sort(tracks)
}

/// The part of a data track's sectors that is served, if the track is served.
pub open spec fn payload_of(kind: TrackKind, allow_form2: bool) -> Option<CdPayloadKind> {
    match kind {
        TrackKind::Audio => None,
        TrackKind::Mode1 => Some(CdPayloadKind::Mode1_2048),
        TrackKind::Mode2Form1 => Some(CdPayloadKind::Mode2Form1_2048),
        TrackKind::Mode2Form2 => if allow_form2 {
            Some(CdPayloadKind::Mode2Form2_2324)
        } else {
            None
        },
        TrackKind::Mode2Raw => Some(CdPayloadKind::Mode2Form1_2048),
    }
}

/// The sectors that the first `n` tracks take, gaps included.
pub open spec fn disc_span(tracks: Seq<TrackInfo>, n: int) -> int
    decreases n,
{
    if n <= 0 {
        0
    } else {
        disc_span(tracks, n - 1) + tracks[n - 1].pregap + tracks[n - 1].frames + tracks[n
            - 1].postgap
    }
}

/// The sector at which track `i` of the table begins, behind its pregap.
pub open spec fn track_lba(tracks: Seq<TrackInfo>, i: int) -> int {
    disc_span(tracks, i) + tracks[i].pregap
}

/// The test for a track that is served.
pub open spec fn is_served(allow_form2: bool) -> spec_fn(TrackInfo) -> bool {
    |t: TrackInfo| payload_of(t.kind, allow_form2) is Some
}

/// The first track that is served: where it begins, what of it is served, and how many
/// sectors it has.
pub open spec fn first_data(tracks: Seq<TrackInfo>, allow_form2: bool) -> Option<
    (int, CdPayloadKind, int),
> {
    match first_index(tracks, is_served(allow_form2)) {
        Some(i) => Some(
            (
                track_lba(tracks, i),
                payload_of(tracks[i].kind, allow_form2)->0,
                tracks[i].frames as int,
            ),
        ),
        None => None,
    }
}

/// The sector positions that the search for the first served track goes through fit in
/// 64 bits.
pub open spec fn toc_fits(tracks: Seq<TrackInfo>, allow_form2: bool) -> bool {
    match first_index(tracks, is_served(allow_form2)) {
        Some(i) => track_lba(tracks, i) <= u64::MAX,
        None => disc_span(tracks, tracks.len() as int) <= u64::MAX,
    }
}

proof fn lemma_disc_span_monotone(tracks: Seq<TrackInfo>, i: int, j: int)
    requires
        0 <= i <= j,
    ensures
        0 <= disc_span(tracks, i) <= disc_span(tracks, j),
    decreases j,
{
    if i < j {
        lemma_disc_span_monotone(tracks, i, j - 1);
    } else if j > 0 {
        lemma_disc_span_monotone(tracks, i - 1, j - 1);
    }
}

/// Where the search for the first served track stands at track `i`: it ends there, or it
/// goes through the end of that track.
proof fn lemma_search_goes_on(tracks: Seq<TrackInfo>, allow_form2: bool, i: int)
    requires
        0 <= i < tracks.len(),
        forall|j: int| 0 <= j < i ==> !is_served(allow_form2)(#[trigger] tracks[j]),
    ensures
        is_served(allow_form2)(tracks[i]) ==> first_index(tracks, is_served(allow_form2)) == Some(
            i,
        ),
        !is_served(allow_form2)(tracks[i]) ==> (match first_index(
            tracks,
            is_served(allow_form2),
        ) {
            Some(m) => disc_span(tracks, i + 1) <= track_lba(tracks, m),
            None => disc_span(tracks, i + 1) <= disc_span(tracks, tracks.len() as int),
        }),
{
    let served = is_served(allow_form2);
    if served(tracks[i]) {
        assert(is_first(tracks, served, i));
        lemma_first_index_is(tracks, served, i);
    } else if exists|k: int| 0 <= k < tracks.len() && served(#[trigger] tracks[k]) {
        let k = choose|k: int| 0 <= k < tracks.len() && served(#[trigger] tracks[k]);
        lemma_first_index_complete(tracks, served, k);
        lemma_disc_span_monotone(tracks, i + 1, first_index(tracks, served)->0);
    } else {
        lemma_first_index_none(tracks, served);
        lemma_disc_span_monotone(tracks, i + 1, tracks.len() as int);
    }
}

fn payload(kind: TrackKind, allow_form2: bool) -> (r: Option<CdPayloadKind>)
    ensures
        r == payload_of(kind, allow_form2),
{
    match kind {
        TrackKind::Audio => None,
        TrackKind::Mode1 => Some(CdPayloadKind::Mode1_2048),
        TrackKind::Mode2Form1 => Some(CdPayloadKind::Mode2Form1_2048),
        TrackKind::Mode2Form2 => {
            if allow_form2 {
                Some(CdPayloadKind::Mode2Form2_2324)
            } else {
                None
            }
        },
        // Raw sectors: default to Form1, the layout of a console data track.
        TrackKind::Mode2Raw => Some(CdPayloadKind::Mode2Form1_2048),
    }
}

/// The first track of the table that is served: its first sector, what of its sectors
/// is served, and its sector count.
pub fn first_data_track(tracks: &[TrackInfo], allow_form2: bool) -> (r: Option<
    (u64, CdPayloadKind, Option<u64>),
>)
    requires
        toc_fits(tracks@, allow_form2),
    ensures
        match r {
            Some(x) => x.2 is Some && first_data(tracks@, allow_form2) == Some(
                (x.0 as int, x.1, x.2->0 as int),
            ),
            None => first_data(tracks@, allow_form2) is None,
        },
{
    let ghost served = is_served(allow_form2);
    let ghost ts = tracks@;
    let mut lba: u64 = 0;
    let mut i: usize = 0;
    while i < tracks.len()
        invariant
            i <= tracks.len(),
            ts == tracks@,
            served == is_served(allow_form2),
            toc_fits(ts, allow_form2),
            lba == disc_span(ts, i as int),
            forall|j: int| 0 <= j < i ==> !served(#[trigger] ts[j]),
        decreases tracks.len() - i,
    {
        let t: TrackInfo = tracks[i];
        proof {
            assert(ts[i as int] == t);
            lemma_search_goes_on(ts, allow_form2, i as int);
        }
        lba = lba + t.pregap as u64;
        if let Some(pk) = payload(t.kind, allow_form2) {
            return Some((lba, pk, Some(t.frames as u64)));
        }
        lba = lba + t.frames as u64;
        lba = lba + t.postgap as u64;
        i += 1;
    }
    proof {
        lemma_first_index_none(ts, served);
    }
    None
}

/// Whether the sector positions that the search for the first served track goes through
/// fit in 64 bits.
pub fn toc_positions_fit(tracks: &[TrackInfo], allow_form2: bool) -> (r: bool)
    ensures
        r == toc_fits(tracks@, allow_form2),
{
    let ghost served = is_served(allow_form2);
    let ghost ts = tracks@;
    let mut lba: u64 = 0;
    let mut i: usize = 0;
    while i < tracks.len()
        invariant
            i <= tracks.len(),
            ts == tracks@,
            served == is_served(allow_form2),
            lba == disc_span(ts, i as int),
            forall|j: int| 0 <= j < i ==> !served(#[trigger] ts[j]),
        decreases tracks.len() - i,
    {
        let t: TrackInfo = tracks[i];
        proof {
            assert(ts[i as int] == t);
            lemma_search_goes_on(ts, allow_form2, i as int);
        }
        if t.pregap as u64 > u64::MAX - lba {
            return false;
        }
        lba = lba + t.pregap as u64;
        if payload(t.kind, allow_form2).is_some() {
            return true;
        }
        let rest: u64 = t.frames as u64 + t.postgap as u64;
        if rest > u64::MAX - lba {
            return false;
        }
        lba = lba + rest;
        i += 1;
    }
    proof {
        lemma_first_index_none(ts, served);
    }
    true
}

/// Parse the CD table of contents from the image metadata (CHTR/CHT2): the first sector
/// of the first data track, what of its sectors is served, and its sector count.
pub fn parse_cd_toc_from_metadata(records: &[MetaRecord], allow_form2: bool) -> (r: Option<
    (u64, CdPayloadKind, Option<u64>),
>)
    requires
        toc_fits(track_table(records@), allow_form2),
    ensures
        match r {
            Some(x) => x.2 is Some && first_data(track_table(records@), allow_form2) == Some(
                (x.0 as int, x.1, x.2->0 as int),
            ),
            None => first_data(track_table(records@), allow_form2) is None,
        },
        r matches Some(x) ==> x.2->0 <= u32::MAX,
        all_decode(records@),
{
    let tracks: Vec<TrackInfo> = parse_all_tracks_from_metadata(records);
    first_data_track(tracks.as_slice(), allow_form2)
}

/// The track table holds the tracks that the metadata describes, each as often as it is
/// described, by ascending track number.
pub proof fn law_track_table_ordered(records: Seq<MetaRecord>)
    ensures
        track_table(records).to_multiset() == record_tracks(records).to_multiset(),
        forall|i: int, j: int|
            0 <= i < j < track_table(records).len() ==> (#[trigger] track_table(records)[i]).number
                <= (#[trigger] track_table(records)[j]).number,
{
    lemma_stable_sort_exists(record_tracks(records));
    let t = track_table(records);
    assert forall|i: int, j: int| 0 <= i < j < t.len() implies (#[trigger] t[i]).number <= (
    #[trigger] t[j]).number by {
        assert(!lex_lt(t[j].rank(), t[i].rank()));
    }
}

/// Mode2/Form2 tracks are not served unless that is permitted.  Where the permission is
/// not used, it changes nothing: the first served track is the same.  And without it, the
/// first served track begins no earlier.
pub proof fn law_form2_needs_permission(tracks: Seq<TrackInfo>)
    ensures
        first_data(tracks, false) matches Some(y) ==> y.1 != CdPayloadKind::Mode2Form2_2324,
        first_data(tracks, true) is None ==> first_data(tracks, false) is None,
        first_data(tracks, true) matches Some(x) ==> {
            ||| x.1 == CdPayloadKind::Mode2Form2_2324
            ||| first_data(tracks, false) == Some(x)
        },
        first_data(tracks, true) matches Some(x) ==> (first_data(tracks, false) matches Some(y)
            ==> x.0 <= y.0),
{
    let with = is_served(true);
    let without = is_served(false);
    if first_index(tracks, without) is Some {
        let i = first_index(tracks, without)->0;
        assert(is_first(tracks, without, i));
        assert(with(tracks[i]));
        lemma_first_index_complete(tracks, with, i);
        let k = first_index(tracks, with)->0;
        if k < i {
            lemma_disc_span_monotone(tracks, k + 1, i);
        }
    }
    if first_index(tracks, with) is Some {
        let k = first_index(tracks, with)->0;
        assert(is_first(tracks, with, k));
        if tracks[k].kind != TrackKind::Mode2Form2 {
            assert forall|j: int| 0 <= j < k implies !without(#[trigger] tracks[j]) by {
                assert(!with(tracks[j]));
            }
            assert(is_first(tracks, without, k));
            lemma_first_index_is(tracks, without, k);
        }
    }
}

/// A text without any separator.
pub open spec fn is_one_token(tok: Seq<char>) -> bool {
    forall|i: int| 0 <= i < tok.len() ==> !is_separator(#[trigger] tok[i])
}

/// The token that a key and a value make.
pub open spec fn pair_token(k: Seq<char>, v: Seq<char>) -> Seq<char> {
    k + seq![':'] + v
}

/// A key: a text without a colon.
pub open spec fn is_key(k: Seq<char>) -> bool {
    forall|i: int| 0 <= i < k.len() ==> (#[trigger] k[i]) != ':'
}

proof fn lemma_fields_join(st: LineState, a: Seq<char>, c: char, b: Seq<char>)
    requires
        is_separator(c),
    ensures
        with_fields(st, a + seq![c] + b) == with_fields(with_fields(st, a), b),
    decreases a.len(),
{
    let s = a + seq![c] + b;
    let sep = separator();
    if first_index(a, sep) is Some {
        let i = first_index(a, sep)->0;
        assert(is_first(a, sep, i));
        assert forall|j: int| 0 <= j < i implies !sep(#[trigger] s[j]) by {
            assert(s[j] == a[j]);
            assert(!sep(a[j]));
        }
        assert(s[i] == a[i]);
        assert(is_first(s, sep, i));
        lemma_first_index_is(s, sep, i);
        assert(s.take(i) =~= a.take(i));
        assert(s.skip(i + 1) =~= a.skip(i + 1) + seq![c] + b);
        lemma_fields_join(with_field(st, a.take(i)), a.skip(i + 1), c, b);
    } else {
        let i = a.len() as int;
        assert forall|j: int| 0 <= j < i implies !sep(#[trigger] s[j]) by {
            assert(s[j] == a[j]);
            if sep(a[j]) {
                lemma_first_index_complete(a, sep, j);
            }
        }
        assert(s[i] == c);
        assert(is_first(s, sep, i));
        lemma_first_index_is(s, sep, i);
        assert(s.take(i) =~= a);
        assert(s.skip(i + 1) =~= b);
    }
}

proof fn lemma_token(st: LineState, k: Seq<char>, v: Seq<char>)
    requires
        is_key(k),
        is_one_token(pair_token(k, v)),
    ensures
        with_fields(st, pair_token(k, v)) == with_pair(st, k, v),
{
    let t = pair_token(k, v);
    let i = k.len() as int;
    assert forall|j: int| 0 <= j < t.len() implies !separator()(#[trigger] t[j]) by {}
    lemma_first_index_none(t, separator());
    assert forall|j: int| 0 <= j < i implies !is_char(':')(#[trigger] t[j]) by {
        assert(t[j] == k[j]);
    }
    assert(t[i] == ':');
    assert(is_first(t, is_char(':'), i));
    lemma_first_index_is(t, is_char(':'), i);
    assert(t.take(i) =~= k);
    assert(t.skip(i + 1) =~= v);
}

proof fn lemma_names_differ()
    ensures
        "TRACK"@ != "FRAMES"@,
        "TRACK"@ != "PREGAP"@,
        "TRACK"@ != "POSTGAP"@,
        "TRACK"@ != "TYPE"@,
        "FRAMES"@ != "PREGAP"@,
        "FRAMES"@ != "POSTGAP"@,
        "FRAMES"@ != "TYPE"@,
        "PREGAP"@ != "POSTGAP"@,
        "PREGAP"@ != "TYPE"@,
        "POSTGAP"@ != "TYPE"@,
{
    reveal_strlit("TRACK");
    reveal_strlit("FRAMES");
    reveal_strlit("PREGAP");
    reveal_strlit("POSTGAP");
    reveal_strlit("TYPE");
    assert("TRACK"@.len() == 5 && "FRAMES"@.len() == 6 && "PREGAP"@.len() == 6);
    assert("POSTGAP"@.len() == 7 && "TYPE"@.len() == 4);
    assert("FRAMES"@[0] == 'F' && "PREGAP"@[0] == 'P');
}

/// A field whose key is none of TRACK, FRAMES, PREGAP, POSTGAP and TYPE changes nothing,
/// wherever in the line it stands.
pub proof fn law_other_fields_do_not_matter(
    a: Seq<char>,
    c: char,
    k: Seq<char>,
    v: Seq<char>,
    d: char,
    b: Seq<char>,
)
    requires
        is_separator(c),
        is_separator(d),
        is_key(k),
        is_one_token(pair_token(k, v)),
        k != "TRACK"@,
        k != "FRAMES"@,
        k != "PREGAP"@,
        k != "POSTGAP"@,
        k != "TYPE"@,
    ensures
        line_track(a + seq![c] + pair_token(k, v) + seq![d] + b) == line_track(
            a + seq![c] + b,
        ),
        line_track(pair_token(k, v) + seq![d] + b) == line_track(b),
        line_track(a + seq![c] + pair_token(k, v)) == line_track(a),
{
    let t = pair_token(k, v);
    let st = no_fields();
    let head = a + seq![c] + t;
    assert(head + seq![d] + b =~= a + seq![c] + t + seq![d] + b);
    lemma_fields_join(st, head, d, b);
    lemma_fields_join(st, a, c, t);
    lemma_token(with_fields(st, a), k, v);
    lemma_fields_join(st, a, c, b);
    lemma_fields_join(st, t, d, b);
    lemma_token(st, k, v);
}

/// A text without a colon changes nothing, wherever in the line it stands; so one separator
/// or several between fields make no difference.
pub proof fn law_words_do_not_matter(a: Seq<char>, c: char, w: Seq<char>, d: char, b: Seq<char>)
    requires
        is_separator(c),
        is_separator(d),
        is_key(w),
        is_one_token(w),
    ensures
        line_track(a + seq![c] + w + seq![d] + b) == line_track(a + seq![c] + b),
        line_track(a + seq![c] + w) == line_track(a),
        line_track(w) is None,
{
    let st = no_fields();
    let head = a + seq![c] + w;
    assert(head + seq![d] + b =~= a + seq![c] + w + seq![d] + b);
    lemma_fields_join(st, head, d, b);
    lemma_fields_join(st, a, c, w);
    lemma_fields_join(st, a, c, b);
    assert forall|j: int| 0 <= j < w.len() implies !separator()(#[trigger] w[j]) by {}
    lemma_first_index_none(w, separator());
    assert forall|j: int| 0 <= j < w.len() implies !is_char(':')(#[trigger] w[j]) by {}
    lemma_first_index_none(w, is_char(':'));
}

/// Which separator stands between two parts of a line does not matter.
pub proof fn law_separators_are_alike(a: Seq<char>, c: char, d: char, b: Seq<char>)
    requires
        is_separator(c),
        is_separator(d),
    ensures
        line_track(a + seq![c] + b) == line_track(a + seq![d] + b),
{
    lemma_fields_join(no_fields(), a, c, b);
    lemma_fields_join(no_fields(), a, d, b);
}

proof fn lemma_known_key(k: Seq<char>, v: Seq<char>)
    requires
        k == "TRACK"@ || k == "FRAMES"@ || k == "PREGAP"@ || k == "POSTGAP"@ || k == "TYPE"@,
        is_one_token(v),
    ensures
        is_key(k),
        is_one_token(pair_token(k, v)),
{
    reveal_strlit("TRACK");
    reveal_strlit("FRAMES");
    reveal_strlit("PREGAP");
    reveal_strlit("POSTGAP");
    reveal_strlit("TYPE");
    assert forall|i: int| 0 <= i < k.len() implies (#[trigger] k[i]) != ':' && !is_separator(
        k[i],
    ) by {
        assert(k.len() <= 7);
        let letter = k[i];
        assert('A' <= letter && letter <= 'Z') by {
            if k == "TRACK"@ {
            } else if k == "FRAMES"@ {
            } else if k == "PREGAP"@ {
            } else if k == "POSTGAP"@ {
            } else {
            }
        }
    }
    let t = pair_token(k, v);
    assert forall|i: int| 0 <= i < t.len() implies !is_separator(#[trigger] t[i]) by {
        if i < k.len() {
            assert(t[i] == k[i]);
        } else if i > k.len() {
            assert(t[i] == v[i - k.len() - 1]);
        } else {
            assert(t[i] == ':');
        }
    }
}

proof fn lemma_known_field(l: Seq<char>, c: char, k: Seq<char>, v: Seq<char>)
    requires
        is_separator(c),
        k == "TRACK"@ || k == "FRAMES"@ || k == "PREGAP"@ || k == "POSTGAP"@ || k == "TYPE"@,
        is_one_token(v),
    ensures
        line_track(l + seq![c] + pair_token(k, v)) == track_of(
            with_pair(with_fields(no_fields(), l), k, v),
        ),
{
    lemma_known_key(k, v);
    lemma_fields_join(no_fields(), l, c, pair_token(k, v));
    lemma_token(with_fields(no_fields(), l), k, v);
}

/// What one more field at the end of a line does, by its key: it sets what it names, to the
/// number that its value writes, or 0 where it writes none, or to the kind that it names;
/// what the fields ahead of it said of anything else stays.
#[verifier::rlimit(40)]
pub proof fn law_field_sets_what_it_names(l: Seq<char>, c: char, v: Seq<char>)
    requires
        is_separator(c),
        is_one_token(v),
    ensures
        line_track(l) matches Some(t) ==> {
            &&& line_track(l + seq![c] + pair_token("FRAMES"@, v)) == Some(
                TrackInfo {
                    frames: if u32_of(v) is Some {
                        u32_of(v)->0
                    } else {
                        0
                    },
                    ..t
                },
            )
            &&& line_track(l + seq![c] + pair_token("PREGAP"@, v)) == Some(
                TrackInfo {
                    pregap: if u32_of(v) is Some {
                        u32_of(v)->0
                    } else {
                        0
                    },
                    ..t
                },
            )
            &&& line_track(l + seq![c] + pair_token("POSTGAP"@, v)) == Some(
                TrackInfo {
                    postgap: if u32_of(v) is Some {
                        u32_of(v)->0
                    } else {
                        0
                    },
                    ..t
                },
            )
            &&& line_track(l + seq![c] + pair_token("TRACK"@, v)) == (if u32_of(v) is Some {
                Some(TrackInfo { number: u32_of(v)->0, ..t })
            } else {
                None
            })
            &&& line_track(l + seq![c] + pair_token("TYPE"@, v)) == Some(
                TrackInfo { kind: kind_named(v), ..t },
            )
        },
{
    lemma_names_differ();
    lemma_known_field(l, c, "FRAMES"@, v);
    lemma_known_field(l, c, "PREGAP"@, v);
    lemma_known_field(l, c, "POSTGAP"@, v);
    lemma_known_field(l, c, "TRACK"@, v);
    lemma_known_field(l, c, "TYPE"@, v);
}

/// A track is described by a number and a type, and these alone make a line describe one:
/// its sector count and gaps are then 0.
pub proof fn law_number_and_type_are_needed(c: char, n: Seq<char>, v: Seq<char>)
    requires
        is_separator(c),
        is_one_token(n),
        is_one_token(v),
    ensures
        line_track(Seq::empty()) is None,
        line_track(pair_token("TYPE"@, v)) is None,
        line_track(pair_token("TRACK"@, n)) is None,
        line_track(pair_token("TRACK"@, n) + seq![c] + pair_token("TYPE"@, v)) == (match u32_of(
            n,
        ) {
            Some(number) => Some(
                TrackInfo { number, kind: kind_named(v), frames: 0, pregap: 0, postgap: 0 },
            ),
            None => None,
        }),
        line_track(pair_token("TYPE"@, v) + seq![c] + pair_token("TRACK"@, n)) == line_track(
            pair_token("TRACK"@, n) + seq![c] + pair_token("TYPE"@, v),
        ),
{
    let st = no_fields();
    let e = Seq::<char>::empty();
    lemma_names_differ();
    lemma_known_key("TYPE"@, v);
    lemma_known_key("TRACK"@, n);
    lemma_token(st, "TYPE"@, v);
    lemma_token(st, "TRACK"@, n);
    lemma_fields_join(st, pair_token("TRACK"@, n), c, pair_token("TYPE"@, v));
    lemma_token(with_pair(st, "TRACK"@, n), "TYPE"@, v);
    lemma_fields_join(st, pair_token("TYPE"@, v), c, pair_token("TRACK"@, n));
    lemma_token(with_pair(st, "TYPE"@, v), "TRACK"@, n);
    lemma_first_index_none(e, separator());
    lemma_first_index_none(e, is_char(':'));
}

proof fn lemma_pair_twice(st: LineState, k: Seq<char>, v: Seq<char>, w: Seq<char>)
    ensures
        with_pair(with_pair(st, k, v), k, w) == with_pair(st, k, w),
{
}

/// Of two fields with the same key, the later one counts.
pub proof fn law_last_field_counts(
    l: Seq<char>,
    c: char,
    k: Seq<char>,
    v: Seq<char>,
    d: char,
    w: Seq<char>,
)
    requires
        is_separator(c),
        is_separator(d),
        is_key(k),
        is_one_token(pair_token(k, v)),
        is_one_token(pair_token(k, w)),
    ensures
        line_track(l + seq![c] + pair_token(k, v) + seq![d] + pair_token(k, w)) == line_track(
            l + seq![d] + pair_token(k, w),
        ),
{
    let st = no_fields();
    let m = with_fields(st, l);
    let head = l + seq![c] + pair_token(k, v);
    lemma_fields_join(st, head, d, pair_token(k, w));
    lemma_fields_join(st, l, c, pair_token(k, v));
    lemma_token(m, k, v);
    lemma_token(with_pair(m, k, v), k, w);
    lemma_fields_join(st, l, d, pair_token(k, w));
    lemma_token(m, k, w);
    lemma_pair_twice(m, k, v, w);
}

/// Which kind a type names.  Beside the names that are known, one that starts with MODE2
/// names form 1 or 2 where it tells 2048 or, failing that, 2324 bytes; any other is audio.
#[verifier::rlimit(40)]
pub proof fn law_type_names(v: Seq<char>, rest: Seq<char>)
    ensures
        kind_named(v) == TrackKind::Mode1 <==> v == "MODE1"@,
        kind_named(v) == TrackKind::Mode2Raw <==> v == "MODE2/2352"@ || v == "MODE2_RAW"@ || v
            == "CDI/2352"@,
        kind_named("MODE2_FORM1"@) == TrackKind::Mode2Form1,
        kind_named("MODE2_FORM2"@) == TrackKind::Mode2Form2,
        kind_named("MODE2/2048"@) == TrackKind::Mode2Form1,
        kind_named("MODE2/2324"@) == TrackKind::Mode2Form2,
        kind_named("AUDIO"@) == TrackKind::Audio,
        v == "MODE2"@ + rest && v != "MODE2/2352"@ && v != "MODE2_RAW"@ && v != "MODE2_FORM1"@ && v
            != "MODE2_FORM2"@ ==> {
            &&& kind_named(v) == TrackKind::Mode2Form1 <==> contains(v, "2048"@)
            &&& kind_named(v) == TrackKind::Mode2Form2 <==> contains(v, "2324"@) && !contains(
                v,
                "2048"@,
            )
            &&& kind_named(v) == TrackKind::Audio <==> !contains(v, "2324"@) && !contains(
                v,
                "2048"@,
            )
        },
        !starts_with(v, "MODE2"@) && v != "MODE1"@ && v != "CDI/2352"@ ==> kind_named(v)
            == TrackKind::Audio,
{
    reveal_strlit("MODE1");
    reveal_strlit("MODE2");
    reveal_strlit("MODE2/2048");
    reveal_strlit("MODE2_FORM1");
    reveal_strlit("MODE2/2324");
    reveal_strlit("MODE2_FORM2");
    reveal_strlit("MODE2/2352");
    reveal_strlit("MODE2_RAW");
    reveal_strlit("CDI/2352");
    reveal_strlit("AUDIO");
    reveal_strlit("2048");
    reveal_strlit("2324");
    assert("MODE1"@[4] == '1' && "MODE2"@[4] == '2');
    assert("MODE2/2048"@.take(5) =~= "MODE2"@ && "MODE2/2324"@.take(5) =~= "MODE2"@);
    assert("MODE2_FORM1"@.take(5) =~= "MODE2"@ && "MODE2_FORM2"@.take(5) =~= "MODE2"@);
    assert("MODE2/2352"@.take(5) =~= "MODE2"@ && "MODE2_RAW"@.take(5) =~= "MODE2"@);
    assert("MODE2/2048"@.subrange(6, 10) =~= "2048"@);
    assert("MODE2/2324"@.subrange(6, 10) =~= "2324"@);
    assert(occurs_at("MODE2/2048"@, "2048"@, 6));
    assert(occurs_at("MODE2/2324"@, "2324"@, 6));
    assert("MODE2/2048"@[6] == '2' && "MODE2/2048"@[7] == '0' && "MODE2/2324"@[7] == '3');
    assert("MODE2/2352"@[8] == '5' && "MODE2/2324"@[8] == '2' && "MODE2/2048"@[8] == '4');
    assert("MODE2_FORM1"@[10] == '1' && "MODE2_FORM2"@[10] == '2');
    assert("AUDIO"@[0] == 'A' && "CDI/2352"@[0] == 'C' && "MODE1"@[0] == 'M');
    if v == "MODE2/2324"@ && contains(v, "2048"@) {
        let i = choose|i: int| occurs_at(v, "2048"@, i);
        let p = v.subrange(i, i + 4);
        assert(p[1] == v[i + 1] && p[1] == '0');
        assert(v[0] == 'M' && v[1] == 'O' && v[2] == 'D' && v[3] == 'E' && v[4] == '2');
        assert(v[5] == '/' && v[6] == '2' && v[7] == '3' && v[8] == '2' && v[9] == '4');
    }
    if v == "MODE2"@ + rest {
        assert(v.take(5) =~= "MODE2"@);
    }
}

proof fn lemma_two_fields(
    l: Seq<char>,
    c: char,
    k: Seq<char>,
    v: Seq<char>,
    d: char,
    m: Seq<char>,
    w: Seq<char>,
    e: char,
    b: Seq<char>,
)
    requires
        is_separator(c) && is_separator(d) && is_separator(e),
        is_key(k) && is_key(m),
        is_one_token(pair_token(k, v)) && is_one_token(pair_token(m, w)),
    ensures
        with_fields(
            no_fields(),
            l + seq![c] + pair_token(k, v) + seq![d] + pair_token(m, w) + seq![e] + b,
        ) == with_fields(
            with_pair(with_pair(with_fields(no_fields(), l), k, v), m, w),
            b,
        ),
{
    let st = no_fields();
    let x = pair_token(k, v);
    let y = pair_token(m, w);
    lemma_fields_join(st, l + seq![c] + x + seq![d] + y, e, b);
    lemma_fields_join(st, l + seq![c] + x, d, y);
    lemma_fields_join(st, l, c, x);
    lemma_token(with_fields(st, l), k, v);
    lemma_token(with_pair(with_fields(st, l), k, v), m, w);
}

#[verifier::rlimit(40)]
proof fn lemma_pairs_commute(
    st: LineState,
    k: Seq<char>,
    v: Seq<char>,
    m: Seq<char>,
    w: Seq<char>,
)
    requires
        k != m,
    ensures
        with_pair(with_pair(st, k, v), m, w) == with_pair(with_pair(st, m, w), k, v),
{
    lemma_names_differ();
}

/// Fields with different keys may stand in either order.
#[verifier::rlimit(40)]
pub proof fn law_fields_commute(
    l: Seq<char>,
    c: char,
    k: Seq<char>,
    v: Seq<char>,
    d: char,
    m: Seq<char>,
    w: Seq<char>,
    e: char,
    b: Seq<char>,
)
    requires
        is_separator(c) && is_separator(d) && is_separator(e),
        k != m,
        is_key(k) && is_key(m),
        is_one_token(pair_token(k, v)) && is_one_token(pair_token(m, w)),
    ensures
        line_track(l + seq![c] + pair_token(k, v) + seq![d] + pair_token(m, w) + seq![e] + b)
            == line_track(
            l + seq![c] + pair_token(m, w) + seq![d] + pair_token(k, v) + seq![e] + b,
        ),
{
    lemma_two_fields(l, c, k, v, d, m, w, e, b);
    lemma_two_fields(l, c, m, w, d, k, v, e, b);
    lemma_pairs_commute(with_fields(no_fields(), l), k, v, m, w);
}

/// The metadata entries with the tags `CHTR` and `CHT2` describe the tracks that their text
/// does, and no other entry describes any.  Where the bytes of an entry are valid UTF-8,
/// its text is what they encode.
pub proof fn law_track_entries(r: MetaRecord)
    ensures
        decodes(r) && valid_utf8(r.value@) && (r.tag == 0x43485452 || r.tag == 0x43485432)
            ==> record_track(r) == line_track(decode_utf8(r.value@)),
        r.tag == 0x43485452 || r.tag == 0x43485432 ==> record_track(r) == line_track(
            utf8_lossy(r.value@),
        ),
        r.tag != 0x43485452 && r.tag != 0x43485432 ==> record_track(r) is None,
{
}

/// Each entry adds the track that it describes, if it describes one, behind those of the
/// entries ahead of it.
pub proof fn law_entries_add_tracks(records: Seq<MetaRecord>, r: MetaRecord)
    ensures
        record_tracks(Seq::empty()) == Seq::<TrackInfo>::empty(),
        record_tracks(records.push(r)) == (match record_track(r) {
            Some(t) => record_tracks(records).push(t),
            None => record_tracks(records),
        }),
{
    reveal(Seq::filter_map);
    assert(records.push(r).drop_last() =~= records);
    assert(records.push(r).last() == r);
}

/// Tracks with the same number stand in the table in the order of their entries.
pub proof fn law_equal_numbers_keep_order(records: Seq<MetaRecord>, number: u32)
    ensures
        track_table(records).filter(|t: TrackInfo| t.number == number) == record_tracks(
            records,
        ).filter(|t: TrackInfo| t.number == number),
{
    let all = record_tracks(records);
    let key = seq![number as int];
    lemma_stable_sort_exists(all);
    assert(of_rank(track_table(records), key) == of_rank(all, key));
    assert forall|t: TrackInfo| (t.rank() == key) == (t.number == number) by {
        assert(t.rank()[0] == t.number);
        if t.number == number {
            assert(t.rank() =~= key);
        } else {
            assert(key[0] == number);
        }
    }
    assert(has_rank::<TrackInfo>(key) =~= (|t: TrackInfo| t.number == number));
}

/// What of a track is served: of mode 1 its user data, of mode 2 that of form 1, also where
/// its sectors are raw; that of form 2 only by permission; and of audio nothing.
pub proof fn law_what_is_served(kind: TrackKind, allow_form2: bool)
    ensures
        kind == TrackKind::Audio ==> payload_of(kind, allow_form2) is None,
        kind == TrackKind::Mode1 ==> payload_of(kind, allow_form2) == Some(
            CdPayloadKind::Mode1_2048,
        ),
        kind == TrackKind::Mode2Form1 || kind == TrackKind::Mode2Raw ==> payload_of(
            kind,
            allow_form2,
        ) == Some(CdPayloadKind::Mode2Form1_2048),
        kind == TrackKind::Mode2Form2 && allow_form2 ==> payload_of(kind, allow_form2) == Some(
            CdPayloadKind::Mode2Form2_2324,
        ),
        kind == TrackKind::Mode2Form2 && !allow_form2 ==> payload_of(kind, allow_form2) is None,
{
}

/// A table that begins with a data track is served from there: behind the pregap of the
/// track, and as long as it is.
pub proof fn law_first_track_is_served(t: TrackInfo, rest: Seq<TrackInfo>, allow_form2: bool)
    requires
        t.kind != TrackKind::Audio,
        t.kind == TrackKind::Mode2Form2 ==> allow_form2,
    ensures
        first_data(seq![t] + rest, allow_form2) == Some(
            (
                t.pregap as int,
                if t.kind == TrackKind::Mode1 {
                    CdPayloadKind::Mode1_2048
                } else if t.kind == TrackKind::Mode2Form2 {
                    CdPayloadKind::Mode2Form2_2324
                } else {
                    CdPayloadKind::Mode2Form1_2048
                },
                t.frames as int,
            ),
        ),
{
    let all = seq![t] + rest;
    assert(all[0] == t);
    assert(is_first(all, is_served(allow_form2), 0));
    lemma_first_index_is(all, is_served(allow_form2), 0);
}

proof fn lemma_span_shift(t: TrackInfo, rest: Seq<TrackInfo>, n: int)
    requires
        0 <= n <= rest.len(),
    ensures
        disc_span(seq![t] + rest, n + 1) == t.pregap + t.frames + t.postgap + disc_span(rest, n),
    decreases n,
{
    let all = seq![t] + rest;
    assert(all[n] == (if n == 0 {
        t
    } else {
        rest[n - 1]
    }));
    if n > 0 {
        lemma_span_shift(t, rest, n - 1);
    } else {
        assert(disc_span(all, 0) == 0);
    }
}

/// A track ahead that is not served moves the start of the served one by its sectors, its
/// pregap and its postgap, and changes nothing else.  With no track left, none is served.
pub proof fn law_skipped_track_moves_start(t: TrackInfo, rest: Seq<TrackInfo>, allow_form2: bool)
    requires
        t.kind == TrackKind::Audio || (t.kind == TrackKind::Mode2Form2 && !allow_form2),
    ensures
        first_data(Seq::empty(), allow_form2) is None,
        first_data(seq![t] + rest, allow_form2) == (match first_data(rest, allow_form2) {
            Some(x) => Some((t.pregap + t.frames + t.postgap + x.0, x.1, x.2)),
            None => None,
        }),
{
    let p = is_served(allow_form2);
    let all = seq![t] + rest;
    lemma_first_index_none(Seq::<TrackInfo>::empty(), p);
    if first_index(rest, p) is Some {
        let i = first_index(rest, p)->0;
        assert(is_first(rest, p, i));
        assert forall|j: int| 0 <= j < i + 1 implies !p(#[trigger] all[j]) by {
            if j > 0 {
                assert(all[j] == rest[j - 1]);
                assert(!p(rest[j - 1]));
            }
        }
        assert(all[i + 1] == rest[i]);
        assert(is_first(all, p, i + 1));
        lemma_first_index_is(all, p, i + 1);
        lemma_span_shift(t, rest, i);
    } else {
        assert forall|j: int| 0 <= j < all.len() implies !p(#[trigger] all[j]) by {
            if j > 0 {
                assert(all[j] == rest[j - 1]);
                if p(rest[j - 1]) {
                    lemma_first_index_complete(rest, p, j - 1);
                }
            }
        }
        lemma_first_index_none(all, p);
    }
}

proof fn lemma_disc_span_is(tracks: Seq<TrackInfo>, ahead: spec_fn(int) -> int, n: int)
    requires
        0 <= n <= tracks.len(),
        ahead(0) == 0,
        forall|i: int|
            0 <= i < tracks.len() ==> ahead(i + 1) == ahead(i) + (#[trigger] tracks[i]).pregap
                + tracks[i].frames + tracks[i].postgap,
    ensures
        disc_span(tracks, n) == ahead(n),
        0 <= disc_span(tracks, n) <= n * (3 * u32::MAX),
    decreases n,
{
    if n > 0 {
        lemma_disc_span_is(tracks, ahead, n - 1);
        let t = tracks[n - 1];
        assert(n * (3 * u32::MAX) == (n - 1) * (3 * u32::MAX) + 3 * u32::MAX) by (nonlinear_arith);
    }
}

/// Where the tracks of a table begin.  Track `n` begins behind the pregaps, sectors and
/// postgaps of all tracks ahead of it, `ahead`, and behind its own pregap.
pub proof fn law_track_starts(tracks: Seq<TrackInfo>, ahead: spec_fn(int) -> int, n: int)
    requires
        0 <= n < tracks.len(),
        ahead(0) == 0,
        forall|i: int|
            0 <= i < tracks.len() ==> ahead(i + 1) == ahead(i) + (#[trigger] tracks[i]).pregap
                + tracks[i].frames + tracks[i].postgap,
    ensures
        track_lba(tracks, n) == ahead(n) + tracks[n].pregap,
{
    lemma_disc_span_is(tracks, ahead, n);
}

/// The sector numbers that a table leads to fit in 64 bits where it has no more than
/// 0x5555_5555 tracks.  In general they do exactly where the first sector of the served track
/// does or, where no track is served, the end of the last one: the pregaps, sectors and
/// postgaps of all tracks, `ahead`.
pub proof fn law_toc_fits(
    tracks: Seq<TrackInfo>,
    allow_form2: bool,
    ahead: spec_fn(int) -> int,
)
    requires
        ahead(0) == 0,
        forall|i: int|
            0 <= i < tracks.len() ==> ahead(i + 1) == ahead(i) + (#[trigger] tracks[i]).pregap
                + tracks[i].frames + tracks[i].postgap,
    ensures
        tracks.len() <= 0x5555_5555 ==> toc_fits(tracks, allow_form2),
        first_data(tracks, allow_form2) matches Some(x) ==> (toc_fits(tracks, allow_form2) <==> x.0
            <= u64::MAX),
        first_data(tracks, allow_form2) is None ==> (toc_fits(tracks, allow_form2) <==> ahead(
            tracks.len() as int,
        ) <= u64::MAX),
{
    let n = tracks.len() as int;
    lemma_disc_span_is(tracks, ahead, n);
    if first_index(tracks, is_served(allow_form2)) is Some {
        let i = first_index(tracks, is_served(allow_form2))->0;
        assert(is_first(tracks, is_served(allow_form2), i));
        lemma_disc_span_is(tracks, ahead, i);
        assert((i + 1) * (3 * u32::MAX) == i * (3 * u32::MAX) + 3 * u32::MAX) by (nonlinear_arith);
        if n <= 0x5555_5555 {
            assert((i + 1) * (3 * u32::MAX) <= 0x5555_5555 * (3 * u32::MAX)) by (nonlinear_arith)
                requires
                    i + 1 <= 0x5555_5555,
            ;
        }
    }
    if n <= 0x5555_5555 {
        assert(n * (3 * u32::MAX) <= 0x5555_5555 * (3 * u32::MAX)) by (nonlinear_arith)
            requires
                n <= 0x5555_5555,
        ;
    }
}

} // verus!
