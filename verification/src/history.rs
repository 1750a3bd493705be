//! The file system over time: files are opened and released, and reads begin, go on and end
//! in any order.
//!
//! Each event is what one call of a method of `FsState` does to the state, by its contract.

use vstd::prelude::*;
use crate::cache::{entries_after_header, lemma_headers_fit, lru_fits};
use crate::contents::{
    cache_agrees, caches_agree, contents, excerpt, law_empty_caches_agree, law_excerpt,
    law_read_keeps_agreement, law_steps_keep_agreement, lemma_excerpts_join, lemma_file_is_contents,
    lemma_own_job, own_handle, own_job, own_source,
};
use crate::fs::{built_header, entry_job, open_reply, read_fits, reads_header, FsModel};
use crate::index::kind_fits;
use crate::read::{
    can_supply, faithful, law_cached_read, law_supplied_read, served, supplied, takes_disc,
    JobModel,
};
use crate::sector::Disc;

verus! {

/// A read in progress: what was asked for, and how far it has come.
pub struct Pending {
    pub ino: u64,
    pub offset: u64,
    pub n: u32,
    pub job: JobModel,
}

/// The state and the reads in progress.
pub struct Session {
    pub m: FsModel,
    pub pending: Map<int, Pending>,
}

/// What happens.
pub enum Event {
    /// A file is asked to be opened: `FsState::open`.
    Open { ino: u64, can_open: bool },
    /// A handle is given up: `FsState::release`.
    Release { fh: u64 },
    /// The table of open images changes: `FsState::get_chd` and `put_chd`.
    Images { after: Seq<(u64, u64)> },
    /// A read begins: `FsState::read`.
    Begin { id: int, ino: u64, fh: u64, offset: u64, n: u32 },
    /// A read takes what is cached: `FsState::advance`.
    Advance { id: int },
    /// A read is given the hunk that it needs: `FsState::supply`.
    Supply { id: int },
    /// A read ends, be it complete or not.
    End { id: int },
}

/// The event can happen.  A file is read under a handle of its own.
pub open spec fn can_happen(s: Session, ev: Event, discs: spec_fn(u64) -> Disc) -> bool {
    match ev {
        Event::Open { ino, can_open } => open_reply(s.m, ino, can_open) is Ok ==> s.m.next_fh
            < u64::MAX,
        Event::Release { fh } => true,
        Event::Images { after } => lru_fits(after, s.m.images_cap),
        Event::Begin { id, ino, fh, offset, n } => {
            &&& !s.pending.contains_key(id)
            &&& own_handle(s.m, ino, fh)
            &&& n != 0
            &&& read_fits(s.m, ino, fh, offset, n)
        },
        Event::Advance { id } => s.pending.contains_key(id),
        Event::Supply { id } => {
            &&& s.pending.contains_key(id)
            &&& s.pending[id].job.going()
            &&& can_supply(s.pending[id].job, s.m.frames, discs(s.pending[id].ino).hunk_size)
        },
        Event::End { id } => s.pending.contains_key(id),
    }
}

/// The session after the event.
pub open spec fn after_event(s: Session, ev: Event, discs: spec_fn(u64) -> Disc) -> Session {
    match ev {
        Event::Open { ino, can_open } => if open_reply(s.m, ino, can_open) is Ok {
            Session { m: s.m.opened(ino), ..s }
        } else {
            s
        },
        Event::Release { fh } => Session { m: s.m.released(fh), ..s },
        Event::Images { after } => Session { m: FsModel { images: after, ..s.m }, ..s },
        Event::Begin { id, ino, fh, offset, n } => Session {
            m: if reads_header(s.m, ino, fh, offset, n) {
                FsModel {
                    headers: entries_after_header(
                        s.m.headers,
                        s.m.headers_cap,
                        ino,
                        built_header(s.m.entry(ino)->0.kind@),
                    ),
                    ..s.m
                }
            } else {
                s.m
            },
            pending: s.pending.insert(
                id,
                Pending { ino, offset, n, job: own_job(s.m, ino, offset, n) },
            ),
        },
        Event::Advance { id } => {
            let p = s.pending[id];
            let (k, d) = served(p.job, s.m.frames);
            Session {
                m: FsModel { frames: d, ..s.m },
                pending: s.pending.insert(id, Pending { job: k, ..p }),
            }
        },
        Event::Supply { id } => {
            let p = s.pending[id];
            let disc = discs(p.ino);
            let hunk = (disc.hunks)(p.job.needed_hunk(disc.hunk_size)->0);
            let (k, d) = supplied(p.job, s.m.frames, hunk);
            Session {
                m: FsModel { frames: d, ..s.m },
                pending: s.pending.insert(id, Pending { job: k, ..p }),
            }
        },
        Event::End { id } => Session { pending: s.pending.remove(id), ..s },
    }
}

/// The session after the events, one after the other.
pub open spec fn after_events(s: Session, evs: Seq<Event>, discs: spec_fn(u64) -> Disc) -> Session
    decreases evs.len(),
{
    if evs.len() == 0 {
        s
    } else {
        after_event(after_events(s, evs.drop_last(), discs), evs.last(), discs)
    }
}

/// Each event can happen when it does.
pub open spec fn is_history(s: Session, evs: Seq<Event>, discs: spec_fn(u64) -> Disc) -> bool {
    forall|i: int|
        0 <= i < evs.len() ==> can_happen(
            after_events(s, evs.take(i), discs),
            #[trigger] evs[i],
            discs,
        )
}

/// The files are listed, and nothing has been cached or read yet.
pub open spec fn is_start(s: Session, discs: spec_fn(u64) -> Disc) -> bool {
    &&& s.m.wf()
    &&& s.m.frames.entries.len() == 0
    &&& s.m.headers.len() == 0
    &&& s.pending == Map::<int, Pending>::empty()
    &&& forall|ino: u64| (#[trigger] s.m.entry(ino)) is Some ==> discs(ino).wf()
}

/// What a read in progress has read is what the file holds.
pub open spec fn is_true(m: FsModel, p: Pending, discs: spec_fn(u64) -> Disc) -> bool {
    let e = m.entry(p.ino)->0;
    let head = built_header(e.kind@);
    let whole = entry_job(
        e.kind@,
        e.iso_size as int,
        p.ino,
        head,
        p.offset as int,
        p.n as int,
    );
    &&& m.entry(p.ino) is Some
    &&& kind_fits(e.kind@, e.iso_size as int)
    &&& p.job.wf()
    &&& p.job == (JobModel { pos: p.job.pos, out: p.job.out, ..whole })
    &&& faithful(p.job, head, discs(p.ino))
    &&& own_source(e.kind@, p.job.source)
}

/// What holds at every moment: what is cached is true of the discs, and so is what has been
/// read.
pub open spec fn all_true(s: Session, discs: spec_fn(u64) -> Disc) -> bool {
    &&& s.m.wf()
    &&& caches_agree(s.m, discs)
    &&& forall|ino: u64| (#[trigger] s.m.entry(ino)) is Some ==> discs(ino).wf()
    &&& forall|id: int| #[trigger]
        s.pending.contains_key(id) ==> is_true(s.m, s.pending[id], discs)
}

proof fn lemma_entries_fixed(s: Session, ev: Event, discs: spec_fn(u64) -> Disc)
    ensures
        after_event(s, ev, discs).m.entries == s.m.entries,
{
}

proof fn lemma_agreement_of_same(m: FsModel, after: FsModel, discs: spec_fn(u64) -> Disc)
    requires
        caches_agree(m, discs),
        after.entries == m.entries,
        after.frames == m.frames,
        after.headers == m.headers,
    ensures
        caches_agree(after, discs),
{
    assert forall|f: u64| (#[trigger] after.entry(f)) is Some implies cache_agrees(
        after.entry(f)->0.kind@,
        after.frames,
        f,
        discs(f),
    ) by {
        assert(m.entry(f) == after.entry(f));
    }
}

proof fn lemma_event_keeps_truth(s: Session, ev: Event, discs: spec_fn(u64) -> Disc)
    requires
        all_true(s, discs),
        can_happen(s, ev, discs),
    ensures
        all_true(after_event(s, ev, discs), discs),
{
    let t = after_event(s, ev, discs);
    lemma_entries_fixed(s, ev, discs);
    match ev {
        Event::Open { ino, can_open } => {
            lemma_agreement_of_same(s.m, t.m, discs);
        },
        Event::Release { fh } => {
            lemma_agreement_of_same(s.m, t.m, discs);
            assert forall|h: u64| #[trigger] t.m.handles.contains_key(h) implies h
                < t.m.next_fh by {
                assert(s.m.handles.contains_key(h));
            }
        },
        Event::Images { after } => {
            lemma_agreement_of_same(s.m, t.m, discs);
        },
        Event::Begin { id, ino, fh, offset, n } => {
            lemma_own_job(s.m, ino, fh, offset, n, discs);
            if reads_header(s.m, ino, fh, offset, n) {
                law_read_keeps_agreement(s.m, ino, fh, offset, n, discs);
                lemma_headers_fit(
                    s.m.headers,
                    s.m.headers_cap,
                    ino,
                    built_header(s.m.entry(ino)->0.kind@),
                );
            }
        },
        Event::Advance { id } => {
            let p = s.pending[id];
            let head = built_header(s.m.entry(p.ino)->0.kind@);
            assert(takes_disc(p.job, s.m.frames, discs(p.ino)));
            law_cached_read(p.job, s.m.frames, head, discs(p.ino));
            law_steps_keep_agreement(s.m, p.job, head, discs);
        },
        Event::Supply { id } => {
            let p = s.pending[id];
            let head = built_header(s.m.entry(p.ino)->0.kind@);
            assert(takes_disc(p.job, s.m.frames, discs(p.ino)));
            law_supplied_read(p.job, s.m.frames, head, discs(p.ino));
            law_steps_keep_agreement(s.m, p.job, head, discs);
        },
        Event::End { id } => {},
    }
    assert forall|ino: u64| (#[trigger] t.m.entry(ino)) is Some implies discs(ino).wf() by {
        assert(s.m.entry(ino) == t.m.entry(ino));
    }
    assert forall|id: int| #[trigger] t.pending.contains_key(id) implies is_true(
        t.m,
        t.pending[id],
        discs,
    ) by {
        assert(t.m.entry(t.pending[id].ino) == s.m.entry(t.pending[id].ino));
        if s.pending.contains_key(id) {
            assert(is_true(s.m, s.pending[id], discs));
        }
    }
}

/// At every moment of every history, what is cached is true of the discs, and so is what
/// has been read: whatever is opened, released, read and evicted, and in whatever order.
pub proof fn law_history_stays_true(s: Session, evs: Seq<Event>, discs: spec_fn(u64) -> Disc)
    requires
        is_start(s, discs),
        is_history(s, evs, discs),
    ensures
        all_true(after_events(s, evs, discs), discs),
        after_events(s, evs, discs).m.entries == s.m.entries,
    decreases evs.len(),
{
    if evs.len() == 0 {
        law_empty_caches_agree(s.m, discs);
    } else {
        let before = evs.drop_last();
        assert forall|i: int| 0 <= i < before.len() implies can_happen(
            after_events(s, before.take(i), discs),
            #[trigger] before[i],
            discs,
        ) by {
            assert(before.take(i) =~= evs.take(i));
            assert(before[i] == evs[i]);
        }
        law_history_stays_true(s, before, discs);
        assert(before =~= evs.take(evs.len() - 1));
        assert(can_happen(after_events(s, before, discs), evs[evs.len() - 1], discs));
        lemma_entries_fixed(after_events(s, before, discs), evs.last(), discs);
        lemma_event_keeps_truth(after_events(s, before, discs), evs.last(), discs);
    }
}

/// A read of `n` bytes at `offset` of a file is answered `data`: it asks for nothing and is
/// given nothing, or it is complete.
pub open spec fn replies(
    s: Session,
    id: int,
    ino: u64,
    offset: u64,
    n: u32,
    data: Seq<u8>,
) -> bool {
    if n == 0 {
        s.m.entry(ino) is Some && data == Seq::<u8>::empty()
    } else {
        &&& s.pending.contains_key(id)
        &&& s.pending[id].ino == ino
        &&& s.pending[id].offset == offset
        &&& s.pending[id].n == n
        &&& !s.pending[id].job.going()
        &&& data == s.pending[id].job.out
    }
}

/// Whenever a read is answered, the answer is exactly what the file holds there, as far as
/// it goes.
pub proof fn law_reply_is_contents(
    s: Session,
    evs: Seq<Event>,
    discs: spec_fn(u64) -> Disc,
    id: int,
    ino: u64,
    offset: u64,
    n: u32,
    data: Seq<u8>,
)
    requires
        is_start(s, discs),
        is_history(s, evs, discs),
        replies(after_events(s, evs, discs), id, ino, offset, n, data),
    ensures
        s.m.entry(ino) is Some,
        ({
            let e = s.m.entry(ino)->0;
            let file = contents(e.kind@, e.iso_size as int, discs(ino));
            &&& file.len() == e.iso_size
            &&& data == excerpt(file, offset as int, n as int)
        }),
{
    law_history_stays_true(s, evs, discs);
    let t = after_events(s, evs, discs);
    assert(t.m.entry(ino) == s.m.entry(ino));
    if n != 0 {
        assert(is_true(t.m, t.pending[id], discs));
    }
    let e = s.m.entry(ino)->0;
    assert(e.wf());
    lemma_file_is_contents(
        e.kind@,
        e.iso_size as int,
        ino,
        offset as int,
        n as int,
        discs(ino),
    );
    if n == 0 {
        let file = contents(e.kind@, e.iso_size as int, discs(ino));
        assert(data =~= excerpt(file, offset as int, 0));
    }
}

/// A read in two pieces gives what a read in one piece gives.  The three reads may be
/// answered at any moments of a history, in any order, whatever else happens.
pub proof fn law_reads_join(
    s: Session,
    evs: Seq<Event>,
    discs: spec_fn(u64) -> Disc,
    at: (int, int, int),
    ids: (int, int, int),
    ino: u64,
    offset: u64,
    a: u32,
    b: u32,
    data: (Seq<u8>, Seq<u8>, Seq<u8>),
)
    requires
        is_start(s, discs),
        is_history(s, evs, discs),
        0 <= at.0 <= evs.len(),
        0 <= at.1 <= evs.len(),
        0 <= at.2 <= evs.len(),
        a + b <= u32::MAX,
        offset + a + b <= u64::MAX,
        replies(
            after_events(s, evs.take(at.0), discs),
            ids.0,
            ino,
            offset,
            (a + b) as u32,
            data.0,
        ),
        replies(after_events(s, evs.take(at.1), discs), ids.1, ino, offset, a, data.1),
        replies(
            after_events(s, evs.take(at.2), discs),
            ids.2,
            ino,
            (offset + a) as u64,
            b,
            data.2,
        ),
    ensures
        data.0 == data.1 + data.2,
{
    lemma_prefix_is_history(s, evs, discs, at.0);
    lemma_prefix_is_history(s, evs, discs, at.1);
    lemma_prefix_is_history(s, evs, discs, at.2);
    let next = (offset + a) as u64;
    law_reply_is_contents(
        s,
        evs.take(at.0),
        discs,
        ids.0,
        ino,
        offset,
        (a + b) as u32,
        data.0,
    );
    law_reply_is_contents(s, evs.take(at.1), discs, ids.1, ino, offset, a, data.1);
    law_reply_is_contents(s, evs.take(at.2), discs, ids.2, ino, next, b, data.2);
    let e = s.m.entry(ino)->0;
    lemma_excerpts_join(
        contents(e.kind@, e.iso_size as int, discs(ino)),
        offset as int,
        a as int,
        b as int,
    );
}

proof fn lemma_prefix_is_history(
    s: Session,
    evs: Seq<Event>,
    discs: spec_fn(u64) -> Disc,
    n: int,
)
    requires
        is_history(s, evs, discs),
        0 <= n <= evs.len(),
    ensures
        is_history(s, evs.take(n), discs),
{
    let before = evs.take(n);
    assert forall|i: int| 0 <= i < before.len() implies can_happen(
        after_events(s, before.take(i), discs),
        #[trigger] before[i],
        discs,
    ) by {
        assert(before.take(i) =~= evs.take(i));
        assert(before[i] == evs[i]);
    }
}

/// Whenever a read of `n` bytes at `offset` is answered, the answer has exactly the bytes
/// asked for that the file has: `n` where the file goes so far, else all from `offset` on,
/// and none from its end on.  Each is the byte that the file has there.
pub proof fn law_reply_is_exact(
    s: Session,
    evs: Seq<Event>,
    discs: spec_fn(u64) -> Disc,
    id: int,
    ino: u64,
    offset: u64,
    n: u32,
    data: Seq<u8>,
    i: int,
)
    requires
        is_start(s, discs),
        is_history(s, evs, discs),
        replies(after_events(s, evs, discs), id, ino, offset, n, data),
    ensures
        2 <= ino < 2 + s.m.entries.len(),
        ({
            let e = s.m.entries[ino - 2];
            &&& offset + n <= e.iso_size ==> data.len() == n
            &&& offset <= e.iso_size < offset + n ==> data.len() == e.iso_size - offset
            &&& e.iso_size <= offset ==> data.len() == 0
            &&& 0 <= i < data.len() ==> data[i] == contents(
                e.kind@,
                e.iso_size as int,
                discs(ino),
            )[offset + i]
        }),
{
    law_reply_is_contents(s, evs, discs, id, ino, offset, n, data);
    let e = s.m.entries[ino - 2];
    law_excerpt(
        contents(e.kind@, e.iso_size as int, discs(ino)),
        offset as int,
        n as int,
        i,
    );
}

} // verus!
