//! Appending a record, one file operation at a time.
//!
//! [`Store::append`] begins an append. [`Appending::action`] says what to do to
//! the files next. After an action that succeeded, [`Store::advance`] goes on;
//! after one that failed, [`Store::abandon`] closes the store to further use.

use super::{invalid, name, refused, temporary_name, Invalid, Segment, Store};
use super::{SegmentView, StoreView, INDEX_STEP, MAX_SEGMENTS};
use crate::bytes;
use crate::format::{Checkpoint, MAX_PAYLOAD, RECORD_HEADER, SEGMENT_HEADER};
use vstd::prelude::*;

verus! {

/// How far an append has come.
#[derive(Clone, Copy, Debug, PartialEq, Eq, Structural)]
pub enum Stage {
    /// The record needs a new segment, whose file is to be created.
    Create,
    /// The new segment is on disk; the checkpoint that moves to it is not.
    SealSegment { checkpoint: Checkpoint },
    /// The record is to be written behind the last segment's records.
    Write,
    /// The record is on disk; the checkpoint behind it is not.
    SealRecord { checkpoint: Checkpoint },
    /// The record is durable at `offset`.
    Done { offset: u64 },
}

/// An append that has begun.
pub struct Appending {
    offset: u64,
    record: Vec<u8>,
    payload: Ghost<Seq<u8>>,
    stage: Stage,
}

impl Appending {
    /// The record is the encoding of the payload at the offset.
    #[verifier::type_invariant]
    closed spec fn inv(self) -> bool {
        self.record@ == crate::format::record_image(self.offset, self.payload@)
    }
}

/// An append: the offset that the record gets, its payload, and how far the
/// append has come.
#[verifier::ext_equal]
pub struct AppendingView {
    pub offset: u64,
    pub payload: Seq<u8>,
    pub stage: Stage,
}

impl View for Appending {
    type V = AppendingView;

    closed spec fn view(&self) -> AppendingView {
        AppendingView { offset: self.offset, payload: self.payload@, stage: self.stage }
    }
}

/// What to do to the files next.
pub enum Action<'a> {
    /// Create the file `temporary` with the bytes `header`, make it durable,
    /// and give it the name `name`.
    CreateSegment { temporary: String, name: String, header: Vec<u8> },
    /// Write `record` to the file of the segment `base` from byte `position`
    /// on, and make it durable.
    WriteRecord { base: u64, position: u64, record: &'a [u8] },
    /// Replace the checkpoint file.
    SaveCheckpoint { checkpoint: Checkpoint },
    /// Nothing is left to do: the record has the offset `offset`.
    Finished { offset: u64 },
}

/// What to do to the files next.
#[verifier::ext_equal]
pub enum ActionView {
    CreateSegment { base: u64 },
    WriteRecord { base: u64, position: u64, record: Seq<u8> },
    SaveCheckpoint { checkpoint: Checkpoint },
    Finished { offset: u64 },
}

/// Whether a payload of `len` bytes does not fit in the last segment.
pub open spec fn needs_segment(store: StoreView, len: nat) -> bool {
    store.segments.last().byte_end + RECORD_HEADER + len > store.limit
}

/// Why a store refuses to append a payload of `len` bytes, if it does.
pub open spec fn append_refusal(store: StoreView, len: nat) -> Option<Seq<char>> {
    if store.failed {
        Some("store failed; reopen after recovery"@)
    } else if store.checkpoint.end == u64::MAX {
        Some("offset capacity reached"@)
    } else if len > MAX_PAYLOAD {
        Some("payload too large"@)
    } else if SEGMENT_HEADER + RECORD_HEADER + len > store.limit {
        Some("record exceeds segment limit"@)
    } else if needs_segment(store, len) && store.segments.len() == MAX_SEGMENTS {
        Some("segment capacity reached"@)
    } else {
        None
    }
}

/// The checkpoint that moves to a new segment.
pub open spec fn segment_checkpoint(store: StoreView) -> Checkpoint {
    Checkpoint {
        generation: (store.checkpoint.generation + 1) as u64,
        end: store.checkpoint.end,
        base: store.checkpoint.end,
        byte_end: SEGMENT_HEADER as u64,
    }
}

/// The checkpoint behind a new record whose payload has `len` bytes.
pub open spec fn record_checkpoint(store: StoreView, len: nat) -> Checkpoint {
    Checkpoint {
        generation: (store.checkpoint.generation + 1) as u64,
        end: (store.checkpoint.end + 1) as u64,
        base: store.segments.last().base,
        byte_end: (store.segments.last().byte_end + RECORD_HEADER + len) as u64,
    }
}

/// A segment with one more record, whose payload has `len` bytes.
pub open spec fn grown(segment: SegmentView, len: nat) -> SegmentView {
    SegmentView {
        base: segment.base,
        end: (segment.end + 1) as u64,
        byte_end: (segment.byte_end + RECORD_HEADER + len) as u64,
        index: if (segment.end - segment.base) % INDEX_STEP as int == 0 {
            segment.index.push((segment.end, segment.byte_end))
        } else {
            segment.index
        },
    }
}

/// A store that has moved to a new segment.
pub open spec fn with_segment(store: StoreView) -> StoreView {
    StoreView {
        segments: store.segments.push(super::empty_segment(store.checkpoint.end)),
        checkpoint: segment_checkpoint(store),
        ..store
    }
}

/// A store with one more record, whose payload has `len` bytes.
pub open spec fn with_record(store: StoreView, len: nat) -> StoreView {
    StoreView {
        segments: store.segments.update(
            store.segments.len() - 1,
            grown(store.segments.last(), len),
        ),
        checkpoint: record_checkpoint(store, len),
        ..store
    }
}

/// Whether an append fits the store that it was begun on.
pub open spec fn under_way(store: StoreView, a: AppendingView) -> bool {
    &&& store.wf()
    &&& match a.stage {
        Stage::Done { offset } => offset + 1 == store.checkpoint.end,
        _ => {
            &&& a.offset == store.checkpoint.end
            &&& store.checkpoint.end < u64::MAX
            &&& a.payload.len() <= MAX_PAYLOAD
            &&& SEGMENT_HEADER + RECORD_HEADER + a.payload.len() <= store.limit
            &&& match a.stage {
                Stage::Create => needs_segment(store, a.payload.len()) && store.segments.len()
                    < MAX_SEGMENTS,
                Stage::SealSegment { checkpoint } => needs_segment(store, a.payload.len())
                    && store.segments.len() < MAX_SEGMENTS && store.checkpoint.generation
                    < u64::MAX && checkpoint == segment_checkpoint(store),
                Stage::Write => !needs_segment(store, a.payload.len()),
                Stage::SealRecord { checkpoint } => !needs_segment(store, a.payload.len())
                    && store.checkpoint.generation < u64::MAX && checkpoint == record_checkpoint(
                    store,
                    a.payload.len(),
                ),
                Stage::Done { offset } => true,
            }
        },
    }
}

/// What an append does to the files next.
pub open spec fn action_of(store: StoreView, a: AppendingView) -> ActionView {
    match a.stage {
        Stage::Create => ActionView::CreateSegment { base: store.checkpoint.end },
        Stage::SealSegment { checkpoint } => ActionView::SaveCheckpoint { checkpoint },
        Stage::Write => ActionView::WriteRecord {
            base: store.segments.last().base,
            position: store.segments.last().byte_end,
            record: crate::format::record_image(a.offset, a.payload),
        },
        Stage::SealRecord { checkpoint } => ActionView::SaveCheckpoint { checkpoint },
        Stage::Done { offset } => ActionView::Finished { offset },
    }
}

/// The store and the append after the append's action has succeeded, or why
/// the append cannot go on.
pub open spec fn advanced(store: StoreView, a: AppendingView) -> Result<
    (StoreView, AppendingView),
    Seq<char>,
> {
    let len = a.payload.len();
    match a.stage {
        Stage::Create => if store.checkpoint.generation == u64::MAX {
            Err("generation overflow"@)
        } else {
            let stage = Stage::SealSegment { checkpoint: segment_checkpoint(store) };
            Ok((store, AppendingView { stage, ..a }))
        },
        Stage::SealSegment { .. } => Ok(
            (with_segment(store), AppendingView { stage: Stage::Write, ..a }),
        ),
        Stage::Write => if store.checkpoint.generation == u64::MAX {
            Err("generation overflow"@)
        } else {
            let stage = Stage::SealRecord { checkpoint: record_checkpoint(store, len) };
            Ok((store, AppendingView { stage, ..a }))
        },
        Stage::SealRecord { .. } => {
            let stage = Stage::Done { offset: store.checkpoint.end };
            Ok((with_record(store, len), AppendingView { stage, ..a }))
        },
        Stage::Done { .. } => Ok((store, a)),
    }
}

/// Moving to a new segment leaves a store well formed.
pub proof fn lemma_with_segment(store: StoreView, len: nat)
    requires
        store.wf(),
        needs_segment(store, len),
        SEGMENT_HEADER + RECORD_HEADER + len <= store.limit,
        store.segments.len() < MAX_SEGMENTS,
    ensures
        with_segment(store).wf(),
        !needs_segment(with_segment(store), len),
{
    let new = with_segment(store);
    let n = store.segments.len() as int;
    assert(store.segments[n - 1].wf(store.limit));
    assert forall|i: int| 0 <= i < new.segments.len() implies (#[trigger] new.segments[i]).wf(
        new.limit,
    ) by {
        if i < n {
            assert(new.segments[i] == store.segments[i]);
        }
    }
    assert forall|i: int, j: int| 0 <= i && j == i + 1 && j < new.segments.len() implies (
    #[trigger] new.segments[i]).end == (#[trigger] new.segments[j]).base && new.segments[i].base
        < new.segments[i].end by {
        if j < n {
            assert(store.segments[i].end == store.segments[j].base);
        } else {
            assert(new.segments[i] == store.segments[n - 1]);
        }
    }
}

/// Adding a record leaves a store well formed.
pub proof fn lemma_with_record(store: StoreView, len: nat)
    requires
        store.wf(),
        !needs_segment(store, len),
        store.checkpoint.end < u64::MAX,
    ensures
        with_record(store, len).wf(),
{
    let new = with_record(store, len);
    let n = store.segments.len() as int;
    let last = store.segments[n - 1];
    assert(last.wf(store.limit));
    assert(grown(last, len).wf(store.limit)) by {
        let index = grown(last, len).index;
        assert forall|i: int| 0 <= i < index.len() implies last.base <= (
        #[trigger] index[i]).0 <= last.end && SEGMENT_HEADER <= index[i].1 <= last.byte_end by {
            if i < last.index.len() {
                assert(index[i] == last.index[i]);
            }
        }
    }
    assert forall|i: int| 0 <= i < new.segments.len() implies (#[trigger] new.segments[i]).wf(
        new.limit,
    ) by {
        if i < n - 1 {
            assert(new.segments[i] == store.segments[i]);
        }
    }
    assert forall|i: int, j: int| 0 <= i && j == i + 1 && j < new.segments.len() implies (
    #[trigger] new.segments[i]).end == (#[trigger] new.segments[j]).base && new.segments[i].base
        < new.segments[i].end by {
        assert(store.segments[i].end == store.segments[j].base);
    }
}

/// An append goes on to where an append can stand.
pub proof fn lemma_advanced(store: StoreView, a: AppendingView)
    requires
        under_way(store, a),
    ensures
        advanced(store, a) matches Ok((s, b)) ==> under_way(s, b),
{
    let len = a.payload.len();
    match a.stage {
        Stage::SealSegment { .. } => {
            lemma_with_segment(store, len);
        },
        Stage::SealRecord { .. } => {
            lemma_with_record(store, len);
        },
        _ => {},
    }
}

impl Appending {
    /// What to do to the files next.
    pub fn action<'a>(&'a self, store: &Store) -> (action: Action<'a>)
        requires
            under_way(store@, self@),
        ensures
            match action_of(store@, self@) {
                ActionView::CreateSegment { base } => action matches Action::CreateSegment {
                    temporary,
                    name,
                    header,
                } && temporary@ == super::temporary_segment_name(base) && name@
                    == super::segment_name(base) && header@ == crate::format::segment_image(base),
                ActionView::WriteRecord { base, position, record } => action
                    matches Action::WriteRecord { base: b, position: p, record: r } && b == base
                    && p == position && r@ == record,
                ActionView::SaveCheckpoint { checkpoint } => action
                    == Action::SaveCheckpoint { checkpoint },
                ActionView::Finished { offset } => action == Action::Finished { offset },
            },
    {
        proof {
            use_type_invariant(self);
        }
        match self.stage {
            Stage::Create => {
                let base: u64 = store.checkpoint.end;
                let mut header: Vec<u8> = Vec::new();
                bytes::push_all(&mut header, &crate::format::segment_header(base));
                assert(header@ =~= crate::format::segment_image(base));
                Action::CreateSegment { temporary: temporary_name(base), name: name(base), header }
            },
            Stage::SealSegment { checkpoint } => Action::SaveCheckpoint { checkpoint },
            Stage::Write => {
                let last = store.last_segment();
                Action::WriteRecord {
                    base: last.base,
                    position: last.byte_end,
                    record: self.record.as_slice(),
                }
            },
            Stage::SealRecord { checkpoint } => Action::SaveCheckpoint { checkpoint },
            Stage::Done { offset } => Action::Finished { offset },
        }
    }
}

impl Store {
    /// Begins to append a record, or says why the store refuses to.
    pub fn append(&self, payload: &[u8]) -> (r: Result<Appending, Invalid>)
        requires
            self@.wf(),
        ensures
            match append_refusal(self@, payload@.len()) {
                Some(message) => r matches Err(e) && e@ == message,
                None => r matches Ok(a) && under_way(self@, a@) && a@ == (AppendingView {
                    offset: self@.checkpoint.end,
                    payload: payload@,
                    stage: if needs_segment(self@, payload@.len()) {
                        Stage::Create
                    } else {
                        Stage::Write
                    },
                }),
            },
    {
        if self.failed {
            return Err(refused("store failed; reopen after recovery"));
        }
        let offset: u64 = self.checkpoint.end;
        if offset == u64::MAX {
            return Err(refused("offset capacity reached"));
        }
        let record = match crate::format::encode_record(offset, payload) {
            Ok(record) => record,
            Err(message) => {
                return Err(invalid(message));
            },
        };
        proof {
            crate::format::lemma_record_fields(offset, payload@);
        }
        let size: u64 = record.len() as u64;
        if size + SEGMENT_HEADER as u64 > self.segment_limit {
            return Err(refused("record exceeds segment limit"));
        }
        assert(self@.segments.last().wf(self@.limit)) by {
            assert(self@.segments[self@.segments.len() - 1].wf(self@.limit));
        }
        let crowded: bool = self.last_segment().byte_end + size > self.segment_limit;
        if crowded && self.segments.len() == MAX_SEGMENTS {
            return Err(refused("segment capacity reached"));
        }
        let stage = if crowded {
            Stage::Create
        } else {
            Stage::Write
        };
        Ok(Appending { offset, record, payload: Ghost(payload@), stage })
    }

    /// Goes on with an append whose action has succeeded. Where the append
    /// cannot go on, the store has failed.
    pub fn advance(&mut self, appending: &mut Appending) -> (r: Result<(), Invalid>)
        requires
            under_way(old(self)@, old(appending)@),
        ensures
            match advanced(old(self)@, old(appending)@) {
                Ok((store, a)) => r is Ok && final(self)@ == store && final(appending)@ == a
                    && under_way(store, a),
                Err(message) => r matches Err(e) && e@ == message && final(self)@ == (StoreView {
                    failed: true,
                    ..old(self)@
                }) && final(appending)@ == old(appending)@,
            },
            final(self)@.wf(),
    {
        proof {
            use_type_invariant(&*appending);
            if !(appending.stage is Done) {
                crate::format::lemma_record_fields(appending.offset, appending.payload@);
            }
            lemma_advanced(self@, appending@);
        }
        match appending.stage {
            Stage::Create => {
                let generation = match self.next_generation() {
                    Ok(generation) => generation,
                    Err(e) => {
                        return Err(e);
                    },
                };
                let end: u64 = self.checkpoint.end;
                let checkpoint = Checkpoint {
                    generation,
                    end,
                    base: end,
                    byte_end: SEGMENT_HEADER as u64,
                };
                appending.stage = Stage::SealSegment { checkpoint };
            },
            Stage::SealSegment { checkpoint } => {
                let base: u64 = self.checkpoint.end;
                self.checkpoint = checkpoint;
                self.segments.push(
                    Segment { base, end: base, byte_end: SEGMENT_HEADER as u64, index: Vec::new() },
                );
                assert(self@ =~= with_segment(old(self)@));
                appending.stage = Stage::Write;
            },
            Stage::Write => {
                let generation = match self.next_generation() {
                    Ok(generation) => generation,
                    Err(e) => {
                        return Err(e);
                    },
                };
                let last = self.last_segment();
                let checkpoint = Checkpoint {
                    generation,
                    end: self.checkpoint.end + 1,
                    base: last.base,
                    byte_end: last.byte_end + appending.record.len() as u64,
                };
                appending.stage = Stage::SealRecord { checkpoint };
            },
            Stage::SealRecord { checkpoint } => {
                let offset: u64 = self.checkpoint.end;
                let mut last = self.segments.pop().unwrap();
                if (offset - last.base) % INDEX_STEP == 0 {
                    last.index.push((offset, last.byte_end));
                }
                last.end = checkpoint.end;
                last.byte_end = checkpoint.byte_end;
                self.segments.push(last);
                self.checkpoint = checkpoint;
                assert(self@ =~= with_record(old(self)@, appending.payload@.len()));
                appending.stage = Stage::Done { offset };
            },
            Stage::Done { .. } => {},
        }
        Ok(())
    }

    /// The generation of the next checkpoint. Where there is none, the store
    /// has failed.
    fn next_generation(&mut self) -> (r: Result<u64, Invalid>)
        requires
            old(self)@.wf(),
        ensures
            match r {
                Ok(generation) => old(self)@.checkpoint.generation < u64::MAX && generation
                    == old(self)@.checkpoint.generation + 1 && final(self)@ == old(self)@,
                Err(e) => old(self)@.checkpoint.generation == u64::MAX && e@
                    == "generation overflow"@ && final(self)@ == (StoreView {
                    failed: true,
                    ..old(self)@
                }),
            },
    {
        if self.checkpoint.generation == u64::MAX {
            self.failed = true;
            return Err(refused("generation overflow"));
        }
        Ok(self.checkpoint.generation + 1)
    }

    /// Closes the store to further use, because a file operation of an append
    /// has failed.
    pub fn abandon(&mut self)
        ensures
            final(self)@ == (StoreView { failed: true, ..old(self)@ }),
    {
        self.failed = true;
    }
}

} // verus!
