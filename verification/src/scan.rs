//! The search for the first data sector of an image without track metadata.

use vstd::arithmetic::div_mod::{
    lemma_div_pos_is_pos, lemma_fundamental_div_mod, lemma_fundamental_div_mod_converse,
    lemma_mod_bound,
};
use vstd::prelude::*;
use crate::sector::{
    classify_sector, hunk_number, is_frame_size, lemma_sectors_per_hunk, sector_in, sector_payload,
    slice_sector, Disc,
};
use crate::track::CdPayloadKind;

verus! {

/// The most sectors that are searched.
pub const SCAN_LIMIT: u64 = 2000;

/// A search through the first sectors of an image.  It asks for one hunk after the other
/// and is shown each.
#[derive(Clone, Copy)]
pub struct FrameScan {
    /// The next sector to look at, or the one that was found.
    pub frame: u64,
    /// The search ends before this sector.
    pub limit: u64,
    pub frames_per_hunk: u64,
    pub frame_bytes: usize,
    pub hunk_size: u32,
    pub allow_form2: bool,
    /// The first data sector, once it is found, and its kind.
    pub found: Option<(u64, CdPayloadKind)>,
}

/// What a search does next.
#[derive(Clone, Copy)]
pub enum ScanStep {
    /// Look at the hunk with this number.
    Hunk(u32),
    /// The search is over: the first data sector and its kind.
    Done(u64, CdPayloadKind),
}

impl FrameScan {
    pub open spec fn wf(self) -> bool {
        &&& is_frame_size(self.frame_bytes as int)
        &&& self.frames_per_hunk == self.hunk_size as int / self.frame_bytes as int
        &&& self.limit <= SCAN_LIMIT
        &&& self.frame <= self.limit
        &&& self.limit == 0 || self.frames_per_hunk > 0
        &&& self.found matches Some(x) ==> x.0 == self.frame && self.frame < self.limit
    }

    /// The search goes on.
    pub open spec fn going(self) -> bool {
        self.found is None && self.frame < self.limit
    }

    /// What a search that is over answers: the sector that was found and its kind, or the
    /// first sector of the disc, in mode 1, where none was.
    pub open spec fn answer(self) -> (u64, CdPayloadKind) {
        match self.found {
            Some(x) => x,
            None => (0, CdPayloadKind::Mode1_2048),
        }
    }

    /// The first sector behind those that the current hunk shows.
    pub open spec fn stop(self) -> int {
        let end = (self.frame as int / self.frames_per_hunk as int + 1) * self.frames_per_hunk;
        if end < self.limit {
            end
        } else {
            self.limit as int
        }
    }

    /// The kind of data sector that the hunk shows for sector `f`.
    pub open spec fn shown(self, hunk: Seq<u8>, f: int) -> Option<CdPayloadKind> {
        sector_payload(
            sector_in(hunk, self.frame_bytes as int, f % (self.frames_per_hunk as int)),
            self.allow_form2,
        )
    }

    /// `f` is the first data sector that the hunk shows.
    pub open spec fn is_hit(self, hunk: Seq<u8>, f: int) -> bool {
        &&& self.frame <= f < self.stop()
        &&& self.shown(hunk, f) is Some
        &&& forall|g: int| self.frame <= g < f ==> #[trigger] self.shown(hunk, g) is None
    }

    /// The search after the current hunk has been shown.
    pub open spec fn after(self, hunk: Seq<u8>) -> FrameScan {
        if exists|f: int| self.is_hit(hunk, f) {
            let f = choose|f: int| self.is_hit(hunk, f);
            FrameScan {
                frame: f as u64,
                found: Some((f as u64, self.shown(hunk, f)->0)),
                ..self
            }
        } else {
            FrameScan { frame: self.stop() as u64, ..self }
        }
    }

    proof fn lemma_hit_unique(self, hunk: Seq<u8>, f: int)
        requires
            self.is_hit(hunk, f),
        ensures
            (choose|g: int| self.is_hit(hunk, g)) == f,
    {
        let g = choose|g: int| self.is_hit(hunk, g);
        assert(self.is_hit(hunk, g));
        if g < f {
            assert(self.shown(hunk, g) is None);
        } else if f < g {
            assert(self.shown(hunk, f) is None);
        }
    }

    proof fn lemma_stop(self)
        requires
            self.wf(),
            self.going(),
        ensures
            self.frame < self.stop() <= self.limit,
            forall|f: int|
                self.frame <= f < self.stop() ==> #[trigger] (f / (self.frames_per_hunk as int))
                    == self.frame as int / self.frames_per_hunk as int,
            0 <= self.frame as int / self.frames_per_hunk as int <= self.frame,
    {
        let p = self.frames_per_hunk as int;
        let q = self.frame as int / p;
        lemma_fundamental_div_mod(self.frame as int, p);
        lemma_mod_bound(self.frame as int, p);
        assert((q + 1) * p == q * p + p) by (nonlinear_arith);
        assert(p * q == q * p) by (nonlinear_arith);
        lemma_div_pos_is_pos(self.frame as int, p);
        assert(q <= q * p) by (nonlinear_arith)
            requires
                q >= 0,
                p >= 1,
        ;
        assert forall|f: int| self.frame <= f < self.stop() implies #[trigger] (f / p) == q by {
            lemma_fundamental_div_mod_converse(f, p, q, f - q * p);
        }
    }

    /// What to do next.
    pub fn next(&self) -> (r: ScanStep)
        requires
            self.wf(),
        ensures
            match r {
                ScanStep::Hunk(h) => self.going() && h == self.frame as int
                    / self.frames_per_hunk as int,
                ScanStep::Done(f, kind) => !self.going() && (f, kind) == (match self.found {
                    Some(x) => x,
                    None => (0u64, CdPayloadKind::Mode1_2048),
                }) && (f, kind) == self.answer(),
            },
    {
        match self.found {
            Some((f, kind)) => ScanStep::Done(f, kind),
            None => {
                if self.frame < self.limit {
                    proof {
                        self.lemma_stop();
                    }
                    ScanStep::Hunk((self.frame / self.frames_per_hunk) as u32)
                } else {
                    ScanStep::Done(0, CdPayloadKind::Mode1_2048)
                }
            },
        }
    }

    /// Look at the hunk that was asked for.
    pub fn inspect(&mut self, hunk: &[u8])
        requires
            old(self).wf(),
            old(self).going(),
            hunk@.len() == old(self).hunk_size,
        ensures
            final(self).wf(),
            *final(self) == old(self).after(hunk@),
    {
        let ghost start = *self;
        let per_hunk: u64 = self.frames_per_hunk;
        proof {
            start.lemma_stop();
            assert(start.stop() <= SCAN_LIMIT);
        }
        let hunk_index: u64 = self.frame / per_hunk;
        while self.frame < self.limit && self.frame / per_hunk == hunk_index
            invariant
                start == *old(self),
                start.wf(),
                start.going(),
                hunk@.len() == start.hunk_size,
                per_hunk == start.frames_per_hunk,
                per_hunk > 0,
                hunk_index == start.frame as int / per_hunk as int,
                *self == (FrameScan { frame: self.frame, ..start }),
                start.frame <= self.frame <= start.stop(),
                start.frame < start.stop() <= start.limit,
                forall|g: int|
                    start.frame <= g < self.frame ==> #[trigger] start.shown(hunk@, g) is None,
            decreases start.limit - self.frame,
        {
            proof {
                let p = per_hunk as int;
                lemma_mod_bound(self.frame as int, p);
                lemma_fundamental_div_mod(self.frame as int, p);
                assert((hunk_index + 1) * p == p * hunk_index + p) by (nonlinear_arith);
            }
            let k: u64 = self.frame % per_hunk;
            let sec: &[u8] = slice_sector(hunk, self.frame_bytes, k);
            let kind: Option<CdPayloadKind> = classify_sector(sec, self.allow_form2);
            assert(kind == start.shown(hunk@, self.frame as int));
            if let Some(kind) = kind {
                proof {
                    assert(start.is_hit(hunk@, self.frame as int));
                    start.lemma_hit_unique(hunk@, self.frame as int);
                }
                self.found = Some((self.frame, kind));
                return;
            }
            self.frame = self.frame + 1;
        }
        proof {
            start.lemma_stop();
            assert(self.frame == start.stop()) by {
                if self.frame < start.stop() {
                    assert(self.frame as int / (start.frames_per_hunk as int) == hunk_index);
                }
            }
            if exists|f: int| start.is_hit(hunk@, f) {
                let f = choose|f: int| start.is_hit(hunk@, f);
                assert(start.shown(hunk@, f) is None);
            }
        }
    }
}

/// Fallback when metadata is missing: scan early frames to find a data sector.
pub fn quick_scan_first_data(
    total_frames: u64,
    allow_form2: bool,
    frame_bytes: usize,
    hunk_size: u32,
) -> (r: FrameScan)
    requires
        is_frame_size(frame_bytes as int),
        total_frames == 0 || hunk_size >= frame_bytes,
    ensures
        r.wf(),
        r.frame == 0,
        r.found is None,
        r.limit == (if total_frames < SCAN_LIMIT {
            total_frames
        } else {
            SCAN_LIMIT
        }),
        r.limit <= 2000,
        r.limit == total_frames || r.limit == 2000 && total_frames > 2000,
        r.frame_bytes == frame_bytes,
        r.hunk_size == hunk_size,
        r.allow_form2 == allow_form2,
{
    let limit: u64 = if total_frames < SCAN_LIMIT {
        total_frames
    } else {
        SCAN_LIMIT
    };
    proof {
        lemma_sectors_per_hunk(hunk_size as int, frame_bytes as int);
    }
    FrameScan {
        frame: 0,
        limit,
        frames_per_hunk: hunk_size as u64 / frame_bytes as u64,
        frame_bytes,
        hunk_size,
        allow_form2,
        found: None,
    }
}

/// The kind of data sector that sector `f` of the disc is, if it is one.
pub open spec fn disc_payload(s: FrameScan, disc: Disc, f: int) -> Option<CdPayloadKind> {
    sector_payload(disc.sector(s.frame_bytes as int, f), s.allow_form2)
}

/// What the search knows is true of the disc: it has passed over no data sector, and
/// what it found is one.
pub open spec fn scan_agrees(s: FrameScan, disc: Disc) -> bool {
    &&& forall|f: int| 0 <= f < s.frame ==> #[trigger] disc_payload(s, disc, f) is None
    &&& s.found matches Some(x) ==> disc_payload(s, disc, x.0 as int) == Some(x.1)
}

/// The search, run to its end on a disc.
pub open spec fn scan_run(s: FrameScan, disc: Disc) -> FrameScan
    decreases s.limit - s.frame,
{
    if s.going() {
        let t = s.after((disc.hunks)(hunk_number(s.frame as int / s.frames_per_hunk as int)));
        if s.wf() && t.found is None && s.frame < t.frame <= s.limit && t.limit == s.limit {
            scan_run(t, disc)
        } else {
            t
        }
    } else {
        s
    }
}

/// A search finds the first data sector within its limit, if there is one: run on the
/// hunks of a disc, it ends with nothing passed over and, unless none of the sectors
/// is a data sector, with one found.  A fresh search agrees with every disc.
pub proof fn law_scan_finds_first(s: FrameScan, disc: Disc)
    requires
        s.wf(),
        disc.hunk_size == s.hunk_size,
        scan_agrees(s, disc),
    ensures
        ({
            let t = scan_run(s, disc);
            &&& t.wf()
            &&& t.limit == s.limit
            &&& !t.going()
            &&& t.found matches Some(x) ==> {
                &&& x.0 < s.limit
                &&& disc_payload(s, disc, x.0 as int) == Some(x.1)
                &&& forall|f: int| 0 <= f < x.0 ==> #[trigger] disc_payload(s, disc, f) is None
            }
            &&& t.found is None ==> forall|f: int|
                0 <= f < s.limit ==> #[trigger] disc_payload(s, disc, f) is None
        }),
    decreases s.limit - s.frame,
{
    if s.going() {
        s.lemma_stop();
        let p = s.frames_per_hunk as int;
        let h = s.frame as int / p;
        let hunk = (disc.hunks)(hunk_number(h));
        let t = s.after(hunk);
        assert forall|f: int| s.frame <= f < s.stop() implies #[trigger] disc_payload(s, disc, f)
            == s.shown(hunk, f) by {
            assert(f / p == h);
        }
        if exists|f: int| s.is_hit(hunk, f) {
            let f = choose|f: int| s.is_hit(hunk, f);
            assert(s.is_hit(hunk, f));
            assert forall|g: int| 0 <= g < f implies #[trigger] disc_payload(
                s,
                disc,
                g,
            ) is None by {
                if g >= s.frame {
                    assert(s.shown(hunk, g) is None);
                }
            }
        } else {
            assert forall|g: int| 0 <= g < t.frame implies #[trigger] disc_payload(
                t,
                disc,
                g,
            ) is None by {
                assert(disc_payload(t, disc, g) == disc_payload(s, disc, g));
                if g >= s.frame && s.shown(hunk, g) is Some {
                    lemma_hit_exists(s, hunk, g);
                }
            }
            law_scan_finds_first(t, disc);
            assert forall|f: int| disc_payload(t, disc, f) == #[trigger] disc_payload(
                s,
                disc,
                f,
            ) by {}
        }
    }
}

proof fn lemma_hit_exists(s: FrameScan, hunk: Seq<u8>, g: int)
    requires
        s.frame <= g < s.stop(),
        s.shown(hunk, g) is Some,
    ensures
        exists|f: int| s.is_hit(hunk, f),
    decreases g,
{
    if forall|f: int| s.frame <= f < g ==> #[trigger] s.shown(hunk, f) is None {
        assert(s.is_hit(hunk, g));
    } else {
        let f = choose|f: int| s.frame <= f < g && #[trigger] s.shown(hunk, f) is Some;
        lemma_hit_exists(s, hunk, f);
    }
}

/// What a whole search answers: where `f` is the first of the sectors that are searched, at
/// most 2000, whose mode byte is 1 or 2, that sector; and the first sector of the disc, as
/// mode 1, where there is none.
pub proof fn law_search_answer(s: FrameScan, disc: Disc, total_frames: u64, f: int)
    requires
        s.wf(),
        s.frame == 0,
        s.found is None,
        s.limit == total_frames || s.limit == 2000,
        s.limit <= total_frames,
        disc.hunk_size == s.hunk_size,
        0 <= f <= total_frames,
        f <= 2000,
        forall|g: int|
            0 <= g < f ==> (#[trigger] disc.sector(s.frame_bytes as int, g))[15] != 1
                && disc.sector(s.frame_bytes as int, g)[15] != 2,
    ensures
        !scan_run(s, disc).going(),
        f < total_frames && f < 2000 && disc.sector(s.frame_bytes as int, f)[15] == 1
            ==> scan_run(s, disc).answer() == (f as u64, CdPayloadKind::Mode1_2048),
        f < total_frames && f < 2000 && disc.sector(s.frame_bytes as int, f)[15] == 2
            && s.allow_form2 && disc.sector(s.frame_bytes as int, f)[18] % 64 >= 32
            ==> scan_run(s, disc).answer() == (f as u64, CdPayloadKind::Mode2Form2_2324),
        f < total_frames && f < 2000 && disc.sector(s.frame_bytes as int, f)[15] == 2 && !(
        s.allow_form2 && disc.sector(s.frame_bytes as int, f)[18] % 64 >= 32)
            ==> scan_run(s, disc).answer() == (f as u64, CdPayloadKind::Mode2Form1_2048),
        f == total_frames || f == 2000 ==> scan_run(s, disc).answer() == (
            0u64,
            CdPayloadKind::Mode1_2048,
        ),
{
    law_scan_finds_first(s, disc);
    let t = scan_run(s, disc);
    assert forall|g: int| 0 <= g < f implies #[trigger] disc_payload(s, disc, g) is None by {
        assert(disc.sector(s.frame_bytes as int, g)[15] != 1);
    }
    if t.found is Some {
        let x = t.found->0;
        assert(disc_payload(s, disc, x.0 as int) == Some(x.1));
        if f < x.0 {
            assert(disc_payload(s, disc, f) is None);
        }
    } else if f < s.limit {
        assert(disc_payload(s, disc, f) is None);
    }
}

/// A hunk shows all the sectors in it that are searched: unless it shows a data sector or
/// the search is over, the search goes on with the first sector of the next hunk.
pub proof fn law_search_moves_on(s: FrameScan, hunk: Seq<u8>, q: int)
    requires
        s.wf(),
        s.going(),
        q * s.frames_per_hunk <= s.frame < (q + 1) * s.frames_per_hunk,
    ensures
        ({
            let t = s.after(hunk);
            &&& t.limit == s.limit
            &&& t.frames_per_hunk == s.frames_per_hunk
            &&& t.frame_bytes == s.frame_bytes
            &&& t.hunk_size == s.hunk_size
            &&& t.allow_form2 == s.allow_form2
            &&& t.found is None ==> t.frame == s.limit || t.frame == (q + 1) * s.frames_per_hunk
            &&& t.found is None && (q + 1) * s.frames_per_hunk <= s.limit ==> t.frame == (q + 1)
                * s.frames_per_hunk
            &&& t.found matches Some(x) ==> s.frame <= x.0 < s.limit && x.0 < (q + 1)
                * s.frames_per_hunk
        }),
{
    let per = s.frames_per_hunk as int;
    assert((q + 1) * per == q * per + per) by (nonlinear_arith);
    lemma_fundamental_div_mod_converse(s.frame as int, per, q, s.frame - q * per);
    s.lemma_stop();
    if exists|f: int| s.is_hit(hunk, f) {
        let f = choose|f: int| s.is_hit(hunk, f);
        assert(s.is_hit(hunk, f));
    }
}

} // verus!
