//! What a client that got an offset back can rely on: the record is in the log
//! at that offset, there it is read back, and it survives a restart.

use crate::durability;
use crate::format::{MAX_PAYLOAD, RECORD_HEADER};
use crate::history;
use crate::history::Layout;
use crate::reading;
use crate::replay;
use crate::replay::{Disk, Recovered};
use crate::storage::appending;
use crate::storage::appending::{ActionView, AppendingView, Stage};
use crate::storage::paging;
use crate::storage::StoreView;
use vstd::prelude::*;

verus! {

/// The disk, the store and the append after `n` actions of the append, each of
/// which has succeeded, or why the append cannot go on.
pub open spec fn acted(disk: Disk, store: StoreView, a: AppendingView, n: nat) -> Result<
    (Disk, StoreView, AppendingView),
    Seq<char>,
>
    decreases n,
{
    if n == 0 {
        Ok((disk, store, a))
    } else {
        match appending::advanced(store, a) {
            Err(message) => Err(message),
            Ok((s, b)) => acted(
                durability::performed(disk, appending::action_of(store, a)),
                s,
                b,
                (n - 1) as nat,
            ),
        }
    }
}

/// How many checkpoints an append saves: one behind the record, and one before
/// it where the record needs a new segment.
pub open spec fn generations_needed(a: AppendingView) -> int {
    if a.stage is Create {
        2
    } else {
        1
    }
}

/// An append that is not interrupted ends after at most four actions, with the
/// offset that was the log's end. The log has gained the record there and
/// nothing else has changed.
pub proof fn append_adds_one_record(disk: Disk, layout: Layout, store: StoreView, a: AppendingView)
    -> (next: Layout)
    requires
        durability::tracks(disk, layout, store, a),
        a.stage is Create || a.stage is Write,
        generations_needed(a) <= u64::MAX - store.checkpoint.generation,
    ensures
        store.checkpoint.end == history::log_of(layout).len(),
        history::log_of(next) == history::log_of(layout).push(a.payload),
        acted(disk, store, a, 4) matches Ok((d, s, b)) && durability::tracks(d, next, s, b)
            && b.stage == (Stage::Done { offset: store.checkpoint.end }) && s.limit == store.limit,
{
    reveal_with_fuel(acted, 5);
    history::lemma_log_len(layout);
    durability::append_keeps_disk_and_store_together(disk, layout, store, a);
    let (s1, a1) = appending::advanced(store, a)->Ok_0;
    let d1 = durability::performed(disk, appending::action_of(store, a));
    let l1 = durability::advanced_layout(layout, a);
    durability::append_keeps_disk_and_store_together(d1, l1, s1, a1);
    let (s2, a2) = appending::advanced(s1, a1)->Ok_0;
    let d2 = durability::performed(d1, appending::action_of(s1, a1));
    let l2 = durability::advanced_layout(l1, a1);
    durability::append_keeps_disk_and_store_together(d2, l2, s2, a2);
    let (s3, a3) = appending::advanced(s2, a2)->Ok_0;
    let d3 = durability::performed(d2, appending::action_of(s2, a2));
    let l3 = durability::advanced_layout(l2, a2);
    durability::append_keeps_disk_and_store_together(d3, l3, s3, a3);
    durability::advanced_layout(l3, a3)
}

proof fn lemma_log_fits(layout: Layout)
    requires
        forall|i: int| 0 <= i < layout.len() ==> history::payloads_fit(#[trigger] layout[i]),
    ensures
        history::payloads_fit(history::log_of(layout)),
    decreases layout.len(),
{
    if layout.len() > 0 {
        let before = layout.drop_last();
        assert forall|i: int| 0 <= i < before.len() implies history::payloads_fit(
            #[trigger] before[i],
        ) by {
            assert(before[i] == layout[i]);
        }
        lemma_log_fits(before);
        assert(history::payloads_fit(layout[layout.len() - 1]));
    }
}

/// Reading the record at an offset from the files of a store gives the payload
/// that the log has there.
pub proof fn log_is_read_back(
    layout: Layout,
    limit: u64,
    generation: u64,
    files: Map<u64, Seq<u8>>,
    offset: u64,
    n: nat,
)
    requires
        history::layout_fits(layout, limit),
        replay::holds(files, layout, Seq::empty()),
        offset < history::log_of(layout).len(),
        2 * history::log_of(layout).len() <= n,
    ensures
        ({
            let store = history::store_of(layout, limit, generation);
            let begun = paging::begun(store, offset, 1, (MAX_PAYLOAD + RECORD_HEADER) as u32);
            &&& begun matches Ok(r)
            &&& reading::run(store, files, r, n) matches Ok(s)
            &&& s.at is None
            &&& s.page.records.len() == 1
            &&& s.page.records[0].skip(RECORD_HEADER as int) == history::log_of(
                layout,
            )[offset as int]
        }),
{
    let store = history::store_of(layout, limit, generation);
    let log = history::log_of(layout);
    let room = (MAX_PAYLOAD + RECORD_HEADER) as u32;
    history::lemma_log_len(layout);
    lemma_log_fits(layout);
    replay::lemma_store_wf(layout, limit, generation);
    reading::reading_gives_the_log(
        layout,
        limit,
        generation,
        files,
        Seq::empty(),
        offset,
        1,
        room,
        n,
    );
    reading::reading_one_record_gives_its_payload(log, offset);
}

/// A record whose offset was given back survives a restart: the disk recovers to
/// the very store, and from it every record of the log, the new one too, is read
/// back as it was appended.
pub proof fn acknowledged_record_survives(
    disk: Disk,
    layout: Layout,
    store: StoreView,
    a: AppendingView,
    bases: Seq<u64>,
    offset: u64,
    n: nat,
)
    requires
        durability::tracks(disk, layout, store, a),
        a.stage is Create || a.stage is Write,
        generations_needed(a) <= u64::MAX - store.checkpoint.generation,
        acted(disk, store, a, 4) matches Ok((d, s, b)) ==> replay::listed(d.segments, bases),
        offset <= store.checkpoint.end,
        2 * (store.checkpoint.end + 1) <= n,
    ensures
        ({
            let (d, s, b) = acted(disk, store, a, 4)->Ok_0;
            let begun = paging::begun(s, offset, 1, (MAX_PAYLOAD + RECORD_HEADER) as u32);
            &&& acted(disk, store, a, 4) is Ok
            &&& replay::recovered(store.limit, d, bases) == Ok::<Recovered, Seq<char>>(
                Recovered { store: s, cut: None, outdated: false },
            )
            &&& begun matches Ok(r)
            &&& reading::run(s, d.segments, r, n) matches Ok(t)
            &&& t.at is None
            &&& t.page.records.len() == 1
            &&& t.page.records[0].skip(RECORD_HEADER as int) == if offset < store.checkpoint.end {
                history::log_of(layout)[offset as int]
            } else {
                a.payload
            }
        }),
{
    let next = append_adds_one_record(disk, layout, store, a);
    let (d, s, b) = acted(disk, store, a, 4)->Ok_0;
    let generation = s.checkpoint.generation;
    durability::reopening_gives_the_store(next, store.limit, generation, d, bases);
    log_is_read_back(next, store.limit, generation, d.segments, offset, n);
}

/// Which appends a store refuses, in numbers, and what it says: all where it has
/// failed or its last offset is used, a payload of more than a mebibyte, a record
/// that would not fit in a segment of its own, and one that needs a new segment
/// where there are 64. No other append is refused.
pub proof fn append_is_refused_by_numbers(store: StoreView, len: nat)
    ensures
        ({
            let refusal = appending::append_refusal(store, len);
            let crowded = store.segments.last().byte_end + 24 + len > store.limit;
            if store.failed {
                refusal == Some("store failed; reopen after recovery"@)
            } else if store.checkpoint.end == 0xffff_ffff_ffff_ffff {
                refusal == Some("offset capacity reached"@)
            } else if len > 1024 * 1024 {
                refusal == Some("payload too large"@)
            } else if 32 + 24 + len > store.limit {
                refusal == Some("record exceeds segment limit"@)
            } else if crowded && store.segments.len() == 64 {
                refusal == Some("segment capacity reached"@)
            } else {
                refusal is None
            }
        }),
        appending::needs_segment(store, len) <==> store.segments.last().byte_end + 24 + len
            > store.limit,
{
}

/// How an append of `payload` to a store begins: with a new segment if and only if
/// the record, of 24 bytes and the payload, does not fit behind the last one.
pub open spec fn beginning(store: StoreView, payload: Seq<u8>) -> AppendingView {
    AppendingView {
        offset: store.checkpoint.end,
        payload,
        stage: if store.segments.last().byte_end + 24 + payload.len() > store.limit {
            Stage::Create
        } else {
            Stage::Write
        },
    }
}

/// The layout of a log with one more record: in the last segment where its file
/// has room for the record within the limit, else in a new one.
pub open spec fn extended(layout: Layout, limit: u64, payload: Seq<u8>) -> Layout {
    let n = layout.len() as int;
    if history::file_of(layout, n - 1).len() + 24 + payload.len() > limit {
        layout.push(seq![payload])
    } else {
        layout.update(n - 1, layout[n - 1].push(payload))
    }
}

/// An append to a log, where there is room for the record, is not refused. It
/// adds the record behind the others, in the last segment if it fits there and
/// in a new one only if it does not, gives back the offset that was the log's
/// end, and leaves the disk of the longer log, with a checkpoint at its end whose
/// generation counts the checkpoints saved.
pub proof fn append_extends_the_log(
    layout: Layout,
    limit: u64,
    generation: u64,
    disk: Disk,
    payload: Seq<u8>,
)
    requires
        history::layout_fits(layout, limit),
        disk.checkpoint == history::checkpoint_of(layout, generation).image(),
        replay::holds(disk.segments, layout, Seq::empty()),
        history::log_of(layout).len() < 0xffff_ffff_ffff_ffff,
        payload.len() <= 1024 * 1024,
        32 + 24 + payload.len() <= limit,
        extended(layout, limit, payload).len() <= 64,
        generation + 1 + extended(layout, limit, payload).len() - layout.len()
            <= 0xffff_ffff_ffff_ffff,
    ensures
        ({
            let store = history::store_of(layout, limit, generation);
            let a = beginning(store, payload);
            let next = extended(layout, limit, payload);
            let saved = 1 + next.len() - layout.len();
            &&& appending::append_refusal(store, payload.len()) is None
            &&& appending::under_way(store, a)
            &&& acted(disk, store, a, 4) matches Ok((d, s, b))
            &&& b.stage == (Stage::Done { offset: history::log_of(layout).len() as u64 })
            &&& history::log_of(next) == history::log_of(layout).push(payload)
            &&& history::layout_fits(next, limit)
            &&& s == history::store_of(next, limit, (generation + saved) as u64)
            &&& s.segments.len() == next.len()
            &&& d.checkpoint == history::checkpoint_of(next, (generation + saved) as u64).image()
            &&& replay::holds(d.segments, next, Seq::empty())
        }),
{
    let n = layout.len() as int;
    let store = history::store_of(layout, limit, generation);
    let a = beginning(store, payload);
    let next = extended(layout, limit, payload);
    let base = history::start(layout, n - 1) as u64;
    history::lemma_log_len(layout);
    replay::lemma_store_wf(layout, limit, generation);
    replay::lemma_start_bound(layout, limit, n - 1);
    assert(history::file_of(layout, n - 1).len() <= limit);
    assert(store.segments.last() == history::segment_of(base, layout[n - 1]));
    assert(durability::tracks(disk, layout, store, a));
    reveal_with_fuel(acted, 5);
    durability::append_keeps_disk_and_store_together(disk, layout, store, a);
    let (s1, a1) = appending::advanced(store, a)->Ok_0;
    let d1 = durability::performed(disk, appending::action_of(store, a));
    let l1 = durability::advanced_layout(layout, a);
    durability::append_keeps_disk_and_store_together(d1, l1, s1, a1);
    let (s2, a2) = appending::advanced(s1, a1)->Ok_0;
    let d2 = durability::performed(d1, appending::action_of(s1, a1));
    let l2 = durability::advanced_layout(l1, a1);
    durability::append_keeps_disk_and_store_together(d2, l2, s2, a2);
    let (s3, a3) = appending::advanced(s2, a2)->Ok_0;
    let d3 = durability::performed(d2, appending::action_of(s2, a2));
    let l3 = durability::advanced_layout(l2, a2);
    durability::append_keeps_disk_and_store_together(d3, l3, s3, a3);
    let l4 = durability::advanced_layout(l3, a3);
    if a.stage is Create {
        let more = layout.push(Seq::empty());
        assert(l2 == more);
        assert(more.drop_last() =~= layout);
        assert(l4 == history::with_payload(more, payload));
        assert(more.last().push(payload) =~= seq![payload]);
        assert(l4 =~= next);
    } else {
        assert(l4 == history::with_payload(layout, payload));
        assert(l4 =~= next);
    }
}

/// What an append does to the files at each stage, and when it cannot go on: only
/// where there is no further generation for a checkpoint.
pub proof fn append_goes_step_by_step(store: StoreView, a: AppendingView)
    ensures
        ({
            let last = store.segments.last();
            match a.stage {
                Stage::Create => appending::action_of(store, a) == (ActionView::CreateSegment {
                    base: store.checkpoint.end,
                }),
                Stage::Write => appending::action_of(store, a) == (ActionView::WriteRecord {
                    base: last.base,
                    position: last.byte_end,
                    record: crate::format::record_image(a.offset, a.payload),
                }),
                Stage::SealSegment { checkpoint } => appending::action_of(store, a) == (
                ActionView::SaveCheckpoint { checkpoint }),
                Stage::SealRecord { checkpoint } => appending::action_of(store, a) == (
                ActionView::SaveCheckpoint { checkpoint }),
                Stage::Done { offset } => appending::action_of(store, a) == (
                ActionView::Finished { offset }),
            }
        }),
        match appending::advanced(store, a) {
            Err(message) => (a.stage is Create || a.stage is Write) && store.checkpoint.generation
                == 0xffff_ffff_ffff_ffff && message == "generation overflow"@,
            Ok((s, b)) => {
                &&& (a.stage is Create || a.stage is Write) ==> store.checkpoint.generation
                    < 0xffff_ffff_ffff_ffff && s == store
                &&& a.stage is Create ==> (b.stage matches Stage::SealSegment { checkpoint }
                    && checkpoint.generation == store.checkpoint.generation + 1 && checkpoint.end
                    == store.checkpoint.end && checkpoint.base == store.checkpoint.end
                    && checkpoint.byte_end == 32)
                &&& a.stage is SealSegment ==> b.stage is Write
                &&& a.stage is SealRecord ==> b.stage == (Stage::Done {
                    offset: store.checkpoint.end,
                })
                &&& b.payload == a.payload
                &&& b.offset == a.offset
            },
        },
{
}

} // verus!
