//! What the log promises across restarts: every step of an append keeps the
//! disk and the store together, and wherever the append is interrupted the disk
//! recovers to a log that has lost nothing.

use crate::format::{Checkpoint, MAX_PAYLOAD, RECORD_HEADER, SEGMENT_HEADER};
use crate::history;
use crate::history::Layout;
use crate::replay;
use crate::replay::{Disk, Recovered};
use crate::storage::appending;
use crate::storage::appending::{ActionView, AppendingView, Stage};
use crate::storage::paging;
use crate::storage::paging::PageReadView;
use crate::storage::StoreView;
use vstd::prelude::*;

verus! {

/// A file after `bytes` were written to it from `position` on.
pub open spec fn overwritten(file: Seq<u8>, position: int, bytes: Seq<u8>) -> Seq<u8> {
    let end = position + bytes.len();
    file.take(position) + bytes + if end < file.len() {
        file.skip(end)
    } else {
        Seq::empty()
    }
}

/// A disk after an action of an append.
pub open spec fn performed(disk: Disk, action: ActionView) -> Disk {
    match action {
        ActionView::CreateSegment { base } => Disk {
            segments: disk.segments.insert(base, crate::format::segment_image(base)),
            ..disk
        },
        ActionView::WriteRecord { base, position, record } => Disk {
            segments: disk.segments.insert(
                base,
                overwritten(disk.segments[base], position as int, record),
            ),
            ..disk
        },
        ActionView::SaveCheckpoint { checkpoint } => Disk {
            checkpoint: checkpoint.image(),
            ..disk
        },
        ActionView::Finished { offset } => disk,
    }
}

/// The layout of the segment files while an append to a store of that layout is
/// under way: what the append has written already is behind the checkpoint.
pub open spec fn written_layout(layout: Layout, a: AppendingView) -> Layout {
    match a.stage {
        Stage::SealSegment { .. } => layout.push(Seq::empty()),
        Stage::SealRecord { .. } => history::with_payload(layout, a.payload),
        _ => layout,
    }
}

/// Whether a store of that layout, an append to it and a disk belong together.
pub open spec fn tracks(disk: Disk, layout: Layout, store: StoreView, a: AppendingView) -> bool {
    &&& history::layout_fits(layout, store.limit)
    &&& store == history::store_of(layout, store.limit, store.checkpoint.generation)
    &&& appending::under_way(store, a)
    &&& disk.checkpoint == store.checkpoint.image()
    &&& replay::holds(disk.segments, written_layout(layout, a), Seq::empty())
}

/// The layout of the store after an append's action has succeeded.
pub open spec fn advanced_layout(layout: Layout, a: AppendingView) -> Layout {
    match a.stage {
        Stage::SealSegment { .. } => layout.push(Seq::empty()),
        Stage::SealRecord { .. } => history::with_payload(layout, a.payload),
        _ => layout,
    }
}

/// What the layout of a store says of its last segment.
proof fn lemma_last(layout: Layout, limit: u64, generation: u64)
    requires
        history::layout_fits(layout, limit),
    ensures
        ({
            let store = history::store_of(layout, limit, generation);
            let n = layout.len() as int;
            let last = store.segments.last();
            &&& last.base == history::start(layout, n - 1)
            &&& last.end == history::start(layout, n)
            &&& last.byte_end == history::file_of(layout, n - 1).len()
            &&& store.checkpoint.end == history::start(layout, n)
            &&& (last.byte_end > SEGMENT_HEADER ==> layout.last().len() > 0)
        }),
{
    let n = layout.len() as int;
    replay::lemma_segment_wf(layout, limit, n - 1);
    assert(history::file_of(layout, n - 1).len() <= limit);
}

/// A disk that gets the file of a new segment holds one more segment.
proof fn lemma_holds_segment(layout: Layout, limit: u64, files: Map<u64, Seq<u8>>)
    requires
        history::layout_fits(layout, limit),
        layout.last().len() > 0,
        layout.len() < crate::storage::MAX_SEGMENTS,
        replay::holds(files, layout, Seq::empty()),
    ensures
        ({
            let base = history::start(layout, layout.len() as int) as u64;
            replay::holds(
                files.insert(base, crate::format::segment_image(base)),
                layout.push(Seq::empty()),
                Seq::empty(),
            )
        }),
{
    let n = layout.len() as int;
    let more = layout.push(Seq::empty());
    let base = history::start(layout, n) as u64;
    let after = files.insert(base, crate::format::segment_image(base));
    replay::lemma_new_segment(layout, limit, 0);
    assert forall|i: int| 0 <= i < more.len() implies after.dom().contains(
        history::start(more, i) as u64,
    ) && after[(#[trigger] history::start(more, i)) as u64] == history::file_of(more, i) + if i
        == more.len() - 1 {
        Seq::<u8>::empty()
    } else {
        Seq::empty()
    } by {
        history::lemma_start_prefix(more, layout, i);
        if i < n {
            replay::lemma_starts_differ(more, limit, i, n);
            replay::lemma_start_bound(more, limit, i);
            replay::lemma_start_bound(more, limit, n);
            history::lemma_start_prefix(more, layout, n);
            assert(more[i] == layout[i]);
            assert(files[history::start(layout, i) as u64] == history::file_of(layout, i)
                + Seq::<u8>::empty());
        } else {
            assert(more[i] =~= Seq::<Seq<u8>>::empty());
            assert(history::file_of(more, i) + Seq::<u8>::empty() =~= crate::format::segment_image(
                base,
            ));
        }
    }
    let own = history::bases_of(more);
    assert(own =~= history::bases_of(layout).push(base)) by {
        assert forall|i: int| 0 <= i <= n implies own[i] == history::start(layout, i) as u64 by {
            history::lemma_start_prefix(more, layout, i);
        }
    }
    assert(after.dom() =~= own.to_set()) by {
        assert forall|b: u64| after.dom().contains(b) <==> own.to_set().contains(b) by {
            let old_bases = history::bases_of(layout);
            assert(files.dom().contains(b) <==> old_bases.contains(b));
            if old_bases.contains(b) {
                let i = choose|i: int| 0 <= i < old_bases.len() && old_bases[i] == b;
                assert(own[i] == b);
            }
            if own.contains(b) && b != base {
                let i = choose|i: int| 0 <= i < own.len() && own[i] == b;
                assert(old_bases[i] == b);
            }
            assert(own[n] == base);
        }
    }
}

/// A disk whose last segment's file gets more bytes behind its records holds
/// those bytes there.
proof fn lemma_holds_tail(
    layout: Layout,
    limit: u64,
    files: Map<u64, Seq<u8>>,
    tail: Seq<u8>,
)
    requires
        history::layout_fits(layout, limit),
        replay::holds(files, layout, Seq::empty()),
    ensures
        ({
            let n = layout.len() as int;
            let base = history::start(layout, n - 1) as u64;
            let position = history::file_of(layout, n - 1).len() as int;
            &&& overwritten(files[base], position, tail) == history::file_of(layout, n - 1) + tail
            &&& replay::holds(
                files.insert(base, overwritten(files[base], position, tail)),
                layout,
                tail,
            )
        }),
{
    let n = layout.len() as int;
    let base = history::start(layout, n - 1) as u64;
    let whole = history::file_of(layout, n - 1);
    assert(files[history::start(layout, n - 1) as u64] == whole + Seq::<u8>::empty());
    assert(whole + Seq::<u8>::empty() =~= whole);
    assert(overwritten(whole, whole.len() as int, tail) =~= whole + tail);
    let after = files.insert(base, whole + tail);
    assert forall|i: int| 0 <= i < n implies after.dom().contains(
        history::start(layout, i) as u64,
    ) && after[(#[trigger] history::start(layout, i)) as u64] == history::file_of(layout, i)
        + if i == n - 1 {
        tail
    } else {
        Seq::empty()
    } by {
        if i < n - 1 {
            replay::lemma_starts_differ(layout, limit, i, n - 1);
            replay::lemma_start_bound(layout, limit, i);
            replay::lemma_start_bound(layout, limit, n - 1);
        }
    }
    assert(after.dom() =~= files.dom());
}

/// A disk that holds a whole record behind the last segment's records holds a
/// layout with one more record.
proof fn lemma_holds_record(
    layout: Layout,
    limit: u64,
    files: Map<u64, Seq<u8>>,
    payload: Seq<u8>,
)
    requires
        history::layout_fits(layout, limit),
        payload.len() <= MAX_PAYLOAD,
        history::start(layout, layout.len() as int) < u64::MAX,
        history::file_of(layout, layout.len() - 1).len() + RECORD_HEADER + payload.len() <= limit,
        replay::holds(
            files,
            layout,
            crate::format::record_image(
                history::start(layout, layout.len() as int) as u64,
                payload,
            ),
        ),
    ensures
        replay::holds(files, history::with_payload(layout, payload), Seq::empty()),
{
    let n = layout.len() as int;
    let more = history::with_payload(layout, payload);
    let record = crate::format::record_image(history::start(layout, n) as u64, payload);
    replay::lemma_new_record(layout, limit, 0, payload);
    assert forall|i: int| 0 <= i < n implies files.dom().contains(
        history::start(more, i) as u64,
    ) && files[(#[trigger] history::start(more, i)) as u64] == history::file_of(more, i) + if i
        == n - 1 {
        Seq::<u8>::empty()
    } else {
        Seq::empty()
    } by {
        assert(history::start(more, i) == history::start(layout, i));
        if i < n - 1 {
            assert(more[i] == layout[i]);
            assert(files[history::start(layout, i) as u64] == history::file_of(layout, i)
                + Seq::<u8>::empty());
        } else {
            assert(files[history::start(layout, i) as u64] == history::file_of(layout, i) + record);
            assert(history::file_of(more, i) + Seq::<u8>::empty() =~= history::file_of(more, i));
        }
    }
    assert(history::bases_of(more) =~= history::bases_of(layout)) by {
        assert forall|i: int| 0 <= i < n implies history::bases_of(more)[i] == history::bases_of(
            layout,
        )[i] by {
            assert(history::start(more, i) == history::start(layout, i));
        }
    }
}

/// Every action of an append keeps the disk and the store together: after it,
/// the disk holds what the store says, and the log has gained the record only
/// when the append is done.
pub proof fn append_keeps_disk_and_store_together(
    disk: Disk,
    layout: Layout,
    store: StoreView,
    a: AppendingView,
)
    requires
        tracks(disk, layout, store, a),
        appending::advanced(store, a) is Ok,
    ensures
        ({
            let (s, b) = appending::advanced(store, a)->Ok_0;
            let after = performed(disk, appending::action_of(store, a));
            let next = advanced_layout(layout, a);
            &&& tracks(after, next, s, b)
            &&& history::log_of(next) == if a.stage is SealRecord {
                history::log_of(layout).push(a.payload)
            } else {
                history::log_of(layout)
            }
        }),
{
    let n = layout.len() as int;
    let limit = store.limit;
    let generation = store.checkpoint.generation;
    let after = performed(disk, appending::action_of(store, a));
    lemma_last(layout, limit, generation);
    appending::lemma_advanced(store, a);
    match a.stage {
        Stage::Create => {
            lemma_holds_segment(layout, limit, disk.segments);
        },
        Stage::SealSegment { checkpoint } => {
            replay::lemma_new_segment(layout, limit, generation);
        },
        Stage::Write => {
            let record = crate::format::record_image(a.offset, a.payload);
            lemma_holds_tail(layout, limit, disk.segments, record);
            lemma_holds_record(layout, limit, after.segments, a.payload);
        },
        Stage::SealRecord { checkpoint } => {
            replay::lemma_new_record(layout, limit, generation, a.payload);
        },
        Stage::Done { .. } => {},
    }
}

/// Where the checkpoint of a store stands.
proof fn lemma_located(layout: Layout, limit: u64, generation: u64)
    requires
        history::layout_fits(layout, limit),
    ensures
        replay::located(
            history::checkpoint_of(layout, generation),
            layout,
            layout.len() - 1,
            layout.last().len() as int,
        ),
{
    let n = layout.len() as int;
    lemma_last(layout, limit, generation);
    replay::lemma_start_bound(layout, limit, n - 1);
    assert(history::file_of(layout, n - 1).len() <= limit);
    history::lemma_place_ends(history::start(layout, n - 1) as u64, layout[n - 1]);
}

/// No bytes are the beginning of a record.
proof fn lemma_nothing_torn()
    ensures
        replay::torn(Seq::empty(), 0, Seq::empty()),
{
    assert(crate::format::record_image(0, Seq::empty()).take(0) =~= Seq::<u8>::empty());
}

/// A disk that holds what a store says recovers to that very store, with
/// nothing to mend.
pub proof fn reopening_gives_the_store(
    layout: Layout,
    limit: u64,
    generation: u64,
    disk: Disk,
    bases: Seq<u64>,
)
    requires
        history::layout_fits(layout, limit),
        replay::holds(disk.segments, layout, Seq::empty()),
        disk.checkpoint == history::checkpoint_of(layout, generation).image(),
        replay::listed(disk.segments, bases),
    ensures
        replay::recovered(limit, disk, bases) == Ok::<Recovered, Seq<char>>(
            Recovered {
                store: history::store_of(layout, limit, generation),
                cut: None,
                outdated: false,
            },
        ),
{
    let n = layout.len() as int;
    lemma_located(layout, limit, generation);
    lemma_nothing_torn();
    assert(history::file_of(layout, n - 1).len() <= limit);
    replay::lemma_recovers(
        limit,
        history::checkpoint_of(layout, generation),
        layout,
        n - 1,
        layout.last().len() as int,
        disk,
        bases,
        Seq::empty(),
        0,
        Seq::empty(),
    );
}

/// Wherever an append is interrupted, the disk recovers to the log as it was or
/// to the log with the new record: a record that is whole on disk is kept, and
/// the checkpoint moves behind it.
pub proof fn interrupted_append_loses_nothing(
    disk: Disk,
    layout: Layout,
    store: StoreView,
    a: AppendingView,
    bases: Seq<u64>,
)
    requires
        tracks(disk, layout, store, a),
        replay::listed(disk.segments, bases),
    ensures
        ({
            let ahead = a.stage is SealSegment || a.stage is SealRecord;
            replay::recovered(store.limit, disk, bases) == Ok::<Recovered, Seq<char>>(
                Recovered {
                    store: history::store_of(
                        written_layout(layout, a),
                        store.limit,
                        if ahead {
                            (store.checkpoint.generation + 1) as u64
                        } else {
                            store.checkpoint.generation
                        },
                    ),
                    cut: None,
                    outdated: ahead,
                },
            )
        }),
        history::log_of(written_layout(layout, a)) == if a.stage is SealRecord {
            history::log_of(layout).push(a.payload)
        } else {
            history::log_of(layout)
        },
{
    let n = layout.len() as int;
    let limit = store.limit;
    let checkpoint = store.checkpoint;
    let generation = checkpoint.generation;
    lemma_last(layout, limit, generation);
    lemma_located(layout, limit, generation);
    lemma_nothing_torn();
    let m = layout.last().len() as int;
    let base = history::start(layout, n - 1) as u64;
    match a.stage {
        Stage::SealSegment { .. } => {
            let more = written_layout(layout, a);
            replay::lemma_new_segment(layout, limit, generation);
            history::lemma_start_prefix(more, layout, n - 1);
            assert(more[n - 1] == layout[n - 1]);
            assert(history::file_of(more, n).len() <= limit);
            replay::lemma_recovers(
                limit,
                checkpoint,
                more,
                n - 1,
                m,
                disk,
                bases,
                Seq::empty(),
                0,
                Seq::empty(),
            );
        },
        Stage::SealRecord { .. } => {
            let more = written_layout(layout, a);
            replay::lemma_new_record(layout, limit, generation, a.payload);
            assert(history::start(more, n - 1) == history::start(layout, n - 1));
            assert(more[n - 1] == layout.last().push(a.payload));
            assert(more[n - 1].take(m) =~= layout.last());
            assert(layout[n - 1].take(m) =~= layout.last());
            assert(history::file_of(more, n - 1).len() <= limit);
            replay::lemma_recovers(
                limit,
                checkpoint,
                more,
                n - 1,
                m,
                disk,
                bases,
                Seq::empty(),
                0,
                Seq::empty(),
            );
        },
        _ => {
            reopening_gives_the_store(layout, limit, generation, disk, bases);
        },
    }
}

/// Where only the beginning of a record was written, the disk recovers to the
/// log as it was, and the beginning is cut off.
pub proof fn torn_record_is_cut_off(
    disk: Disk,
    layout: Layout,
    store: StoreView,
    a: AppendingView,
    written: int,
    bases: Seq<u64>,
)
    requires
        tracks(disk, layout, store, a),
        a.stage is Write,
        0 < written < RECORD_HEADER + a.payload.len(),
        replay::listed(disk.segments, bases),
    ensures
        ({
            let last = store.segments.last();
            let record = crate::format::record_image(a.offset, a.payload);
            let after = performed(
                disk,
                ActionView::WriteRecord {
                    base: last.base,
                    position: last.byte_end,
                    record: record.take(written),
                },
            );
            replay::recovered(store.limit, after, bases) == Ok::<Recovered, Seq<char>>(
                Recovered { store, cut: Some(last.byte_end), outdated: false },
            )
        }),
{
    let n = layout.len() as int;
    let limit = store.limit;
    let generation = store.checkpoint.generation;
    let last = store.segments.last();
    let record = crate::format::record_image(a.offset, a.payload);
    let tail = record.take(written);
    crate::format::lemma_record_fields(a.offset, a.payload);
    lemma_last(layout, limit, generation);
    lemma_located(layout, limit, generation);
    lemma_holds_tail(layout, limit, disk.segments, tail);
    let after = performed(
        disk,
        ActionView::WriteRecord { base: last.base, position: last.byte_end, record: tail },
    );
    assert(after.segments.dom() =~= disk.segments.dom()) by {
        assert(disk.segments.dom().contains(history::start(layout, n - 1) as u64));
    }
    replay::lemma_recovers(
        limit,
        store.checkpoint,
        layout,
        n - 1,
        layout.last().len() as int,
        after,
        bases,
        tail,
        a.offset,
        a.payload,
    );
}

/// Records behind the checkpoint that are whole are kept, and the checkpoint
/// moves behind them; the beginning of a record behind them is cut off.
pub proof fn unacknowledged_records_are_kept(
    limit: u64,
    checkpoint: Checkpoint,
    layout: Layout,
    m: int,
    disk: Disk,
    bases: Seq<u64>,
    tail: Seq<u8>,
    payload: Seq<u8>,
)
    requires
        history::layout_fits(layout, limit),
        replay::located(checkpoint, layout, layout.len() - 1, m),
        m < layout.last().len(),
        checkpoint.generation < u64::MAX,
        disk.checkpoint == checkpoint.image(),
        replay::holds(disk.segments, layout, tail),
        replay::listed(disk.segments, bases),
        replay::torn(tail, history::start(layout, layout.len() as int) as u64, payload),
        history::file_of(layout, layout.len() - 1).len() + tail.len() <= limit,
    ensures
        replay::recovered(limit, disk, bases) == Ok::<Recovered, Seq<char>>(
            Recovered {
                store: history::store_of(layout, limit, (checkpoint.generation + 1) as u64),
                cut: if tail.len() > 0 {
                    Some(history::file_of(layout, layout.len() - 1).len() as u64)
                } else {
                    None
                },
                outdated: true,
            },
        ),
{
    replay::lemma_recovers(
        limit,
        checkpoint,
        layout,
        layout.len() - 1,
        m,
        disk,
        bases,
        tail,
        history::start(layout, layout.len() as int) as u64,
        payload,
    );
}

/// A store that has failed refuses appends and reads alike, until it is opened
/// again.
pub proof fn failed_store_refuses(
    store: StoreView,
    len: nat,
    offset: u64,
    max_records: u32,
    max_bytes: u32,
)
    requires
        store.failed,
    ensures
        appending::append_refusal(store, len) == Some("store failed; reopen after recovery"@),
        paging::begun(store, offset, max_records, max_bytes) == Err::<PageReadView, Seq<char>>(
            "store failed"@,
        ),
{
}

/// A new store holds no records, and its first files are those of its layout.
pub proof fn new_store_is_empty(limit: u64)
    requires
        crate::storage::valid_limit(limit),
    ensures
        ({
            let layout = seq![Seq::<Seq<u8>>::empty()];
            let store = crate::storage::new_store(limit);
            &&& history::layout_fits(layout, limit)
            &&& history::log_of(layout) == Seq::<Seq<u8>>::empty()
            &&& store == history::store_of(layout, limit, 0)
            &&& replay::holds(
                map![0u64 => crate::format::segment_image(0)],
                layout,
                Seq::empty(),
            )
        }),
{
    let none = Seq::<Seq<u8>>::empty();
    let layout = seq![none];
    let store = crate::storage::new_store(limit);
    let files = map![0u64 => crate::format::segment_image(0)];
    history::lemma_place_ends(0, none);
    assert(none.take(0) =~= none);
    assert(history::start(layout, 0) == 0);
    assert(history::start(layout, 1) == 0);
    assert(history::file_of(layout, 0) =~= crate::format::segment_image(0));
    assert(layout.drop_last() =~= Seq::<Seq<Seq<u8>>>::empty());
    history::lemma_log_len(layout);
    assert(history::log_of(layout) =~= none);
    assert(history::segment_of(0, none) =~= crate::storage::empty_segment(0));
    assert(store.segments =~= history::segments_of(layout));
    assert(store =~= history::store_of(layout, limit, 0));
    assert(history::file_of(layout, 0) + Seq::<u8>::empty() =~= history::file_of(layout, 0));
    assert(history::bases_of(layout) =~= seq![0u64]);
    assert(files.dom() =~= history::bases_of(layout).to_set()) by {
        assert forall|b: u64| files.dom().contains(b) <==> history::bases_of(
            layout,
        ).to_set().contains(b) by {
            assert(seq![0u64][0] == 0);
        }
    }
}

} // verus!
