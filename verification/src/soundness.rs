//! What an opened store guarantees, whatever the disk held before.
//!
//! A disk that recovers at all recovers to a store whose segment files, once
//! mended, are byte for byte the files of a layout. So damage in front of the
//! log's end is never read as records: it is refused.

use crate::checksum;
use crate::format::{Checkpoint, MAX_PAYLOAD, RECORD_HEADER, SEGMENT_HEADER};
use crate::history;
use crate::history::{Layout, Payloads};
use crate::replay;
use crate::replay::{Disk, Recovered};
use crate::storage::recovery;
use crate::storage::recovery::RecoveryView;
use crate::storage::SegmentView;
use vstd::prelude::*;

verus! {

/// A disk after what an opened store asks for: the last segment's file is cut
/// and the checkpoint file is replaced, each where necessary.
pub open spec fn mended(disk: Disk, r: Recovered) -> Disk {
    let base = r.store.segments.last().base;
    Disk {
        segments: match r.cut {
            Some(n) => disk.segments.insert(base, disk.segments[base].take(n as int)),
            None => disk.segments,
        },
        checkpoint: if r.outdated {
            r.store.checkpoint.image()
        } else {
            disk.checkpoint
        },
    }
}

/// Whether a checkpoint stands behind the first `m` records of the segment
/// `base` with those payloads.
pub open spec fn marks(checkpoint: Checkpoint, base: u64, payloads: Payloads, m: int) -> bool {
    &&& 0 <= m <= payloads.len()
    &&& checkpoint.base == base
    &&& checkpoint.end == base + m
    &&& checkpoint.byte_end == history::record_place(base, payloads, m)
}

/// A scan that ends has found records, byte for byte, up to where it ended. It
/// ended at the file's end or, in the last segment, behind the checkpoint.
proof fn lemma_scan_finds(
    file: Seq<u8>,
    base: u64,
    checkpoint: Checkpoint,
    last: bool,
    payloads: Payloads,
    met: bool,
) -> (found: Payloads)
    requires
        history::payloads_fit(payloads),
        base + payloads.len() <= u64::MAX,
        file.len() <= u64::MAX,
        history::segment_file(base, payloads).len() <= file.len(),
        file.take(history::segment_file(base, payloads).len() as int) == history::segment_file(
            base,
            payloads,
        ),
        recovery::scanned(
            file,
            base,
            checkpoint,
            last,
            replay::progress_at(base, payloads, payloads.len() as int, met),
        ) is Ok,
    ensures
        ({
            let end = recovery::scanned(
                file,
                base,
                checkpoint,
                last,
                replay::progress_at(base, payloads, payloads.len() as int, met),
            )->Ok_0;
            let whole = history::segment_file(base, found);
            &&& history::payloads_fit(found)
            &&& payloads.len() <= found.len()
            &&& base + found.len() <= u64::MAX
            &&& whole.len() <= file.len()
            &&& file.take(whole.len() as int) == whole
            &&& end == replay::progress_at(base, found, found.len() as int, end.protected)
            &&& (end.position == file.len() || (last && base == checkpoint.base
                && checkpoint.byte_end <= end.position))
            &&& (end.protected && !met ==> base == checkpoint.base && checkpoint.end <= base
                + found.len())
            &&& found.take(payloads.len() as int) == payloads
            &&& replay::unfinished(file.skip(whole.len() as int))
            &&& (end.protected && !met ==> exists|m: int| marks(checkpoint, base, found, m))
        }),
    decreases file.len() - history::segment_file(base, payloads).len(),
{
    let n = payloads.len() as int;
    let p = replay::progress_at(base, payloads, n, met);
    let here = history::segment_file(base, payloads).len() as int;
    history::lemma_place_ends(base, payloads);
    assert(payloads.take(n) =~= payloads);
    if here < file.len() {
        let next = (base + n) as u64;
        crate::storage::records::lemma_found_size(file, here, file.len() as int, next);
        match crate::storage::records::found(file, here, file.len() as int, next) {
            Ok(Some(payload)) => {
                let more = payloads.push(payload);
                let q = recovery::stepped(checkpoint, base, p, payload.len());
                history::lemma_push(base, payloads, payload);
                assert forall|k: int| 0 <= k < more.len() implies (#[trigger] more[k]).len()
                    <= MAX_PAYLOAD by {
                    if k < n {
                        assert(more[k] == payloads[k]);
                    }
                }
                let there = history::segment_file(base, more).len() as int;
                assert(file.take(there) =~= history::segment_file(base, more)) by {
                    assert(file.take(there) =~= file.take(here) + file.subrange(here, there));
                }
                history::lemma_place_ends(base, more);
                assert(more.take(n + 1) =~= more);
                assert(q =~= replay::progress_at(base, more, n + 1, q.protected));
                let found = lemma_scan_finds(file, base, checkpoint, last, more, q.protected);
                assert(found.take(n) =~= more.take(n));
                assert(more.take(n) =~= payloads);
                if q.protected && !met {
                    assert(marks(checkpoint, base, found, n + 1));
                }
                found
            },
            _ => {
                replay::lemma_finds_unfinished(file, here, next);
                payloads
            },
        }
    } else {
        payloads
    }
}

/// Whether the segment files scanned so far are those of a layout, but for what
/// is behind the records of the last one.
pub open spec fn backed(r: RecoveryView, layout: Layout, files: Map<u64, Seq<u8>>) -> bool {
    let n = layout.len() as int;
    &&& n == r.segments.len() <= r.bases.len()
    &&& r.segments == history::segments_of(layout)
    &&& r.next == history::start(layout, n)
    &&& r.protected ==> r.checkpoint.end <= r.next
    &&& r.protected ==> exists|c: int, m: int| replay::located(r.checkpoint, layout, c, m)
    &&& n > 0 ==> r.length == files[r.bases[n - 1]].len() <= r.limit
    &&& forall|i: int| 0 <= i < n ==> history::payloads_fit(#[trigger] layout[i])
    &&& forall|i: int|
        0 <= i < n ==> (#[trigger] history::file_of(layout, i)).len() <= r.limit
            && history::file_of(layout, i).len() <= files[r.bases[i]].len()
            && files[r.bases[i]].take(history::file_of(layout, i).len() as int)
            == history::file_of(layout, i) && (i < r.bases.len() - 1 ==> files[r.bases[i]].len()
            == history::file_of(layout, i).len())
    &&& forall|i: int|
        0 <= i < n && i < r.bases.len() - 1 ==> (#[trigger] layout[i]).len() > 0
    &&& forall|i: int| 0 <= i < n ==> #[trigger] r.bases[i] == history::start(layout, i)
    &&& n > 0 && n == r.bases.len() ==> {
        let tail = files[r.bases[n - 1]].skip(history::file_of(layout, n - 1).len() as int);
        replay::unfinished(tail) && (tail.len() > 0 ==> r.checkpoint.base == r.bases[n - 1])
    }
}

/// One more segment file that belongs to the store is that of one more segment.
proof fn lemma_backs_file(r: RecoveryView, layout: Layout, files: Map<u64, Seq<u8>>) -> (more:
    Layout)
    requires
        backed(r, layout, files),
        r.segments.len() < r.bases.len(),
        recovery::scanned_file(r, files[r.bases[r.segments.len() as int]]) is Ok,
    ensures
        backed(
            recovery::scanned_file(r, files[r.bases[r.segments.len() as int]])->Ok_0,
            more,
            files,
        ),
{
    let n = layout.len() as int;
    let base = r.bases[n];
    let file = files[base];
    let last = n + 1 == r.bases.len();
    let s = recovery::scanned_file(r, file)->Ok_0;
    let none = Seq::<Seq<u8>>::empty();
    crate::format::segment_roundtrip(base);
    assert(history::segment_file(base, none) =~= crate::format::segment_image(base));
    history::lemma_place_ends(base, none);
    assert(none.take(0) =~= none);
    let first = recovery::scan_start(r.checkpoint, base, r.protected);
    assert(first =~= replay::progress_at(base, none, 0, first.protected));
    let found = lemma_scan_finds(file, base, r.checkpoint, last, none, first.protected);
    let end = recovery::scanned(file, base, r.checkpoint, last, first)->Ok_0;
    history::lemma_place_ends(base, found);
    assert(found.take(found.len() as int) =~= found);
    let more = layout.push(found);
    assert forall|i: int| 0 <= i <= n implies #[trigger] history::start(more, i)
        == history::start(layout, i) by {
        history::lemma_start_prefix(more, layout, i);
    }
    assert(more[n] == found);
    assert(history::start(more, n) == base);
    assert(history::start(more, n + 1) == base + found.len());
    assert(history::file_of(more, n) == history::segment_file(base, found));
    assert forall|i: int| 0 <= i < n implies #[trigger] history::file_of(more, i)
        == history::file_of(layout, i) by {
        assert(history::start(more, i) == history::start(layout, i));
        assert(more[i] == layout[i]);
    }
    assert forall|i: int| 0 <= i < n + 1 implies history::payloads_fit(#[trigger] more[i]) by {
        if i < n {
            assert(more[i] == layout[i]);
        }
    }
    assert forall|i: int| 0 <= i < n + 1 && i < s.bases.len() - 1 implies (
    #[trigger] more[i]).len() > 0 by {
        if i < n {
            assert(more[i] == layout[i]);
        }
    }
    assert forall|i: int| 0 <= i < n + 1 implies #[trigger] s.bases[i] == history::start(
        more,
        i,
    ) by {
        assert(history::start(more, i) == if i < n {
            history::start(layout, i)
        } else {
            base as nat
        });
    }
    if s.protected {
        if r.protected {
            let (c, m) = choose|c: int, m: int| replay::located(r.checkpoint, layout, c, m);
            assert(history::start(more, c) == history::start(layout, c));
            assert(more[c] == layout[c]);
            assert(replay::located(s.checkpoint, more, c, m));
        } else {
            assert(history::record_place(base, found, 0) == SEGMENT_HEADER) by {
                assert(found.take(0) =~= none);
            }
            let m = if first.protected {
                0
            } else {
                choose|m: int| marks(r.checkpoint, base, found, m)
            };
            assert(marks(r.checkpoint, base, found, m));
            assert(replay::located(s.checkpoint, more, n, m));
        }
    }
    assert(s.segments =~= history::segments_of(more)) by {
        assert forall|i: int| 0 <= i < n + 1 implies s.segments[i] == history::segments_of(
            more,
        )[i] by {
            assert(history::start(more, i) == if i < n {
                history::start(layout, i)
            } else {
                base as nat
            });
            if i < n {
                assert(s.segments[i] == r.segments[i]);
                assert(more[i] == layout[i]);
            } else {
                assert(s.segments[n] =~= history::segment_of(base, found));
            }
        }
    }
    more
}

/// All the segment files are those of a layout.
proof fn lemma_backs_all(r: RecoveryView, layout: Layout, files: Map<u64, Seq<u8>>) -> (all:
    Layout)
    requires
        backed(r, layout, files),
        replay::scanned_all(r, files) is Ok,
    ensures
        ({
            let s = replay::scanned_all(r, files)->Ok_0;
            &&& backed(s, all, files)
            &&& s.segments.len() == s.bases.len()
            &&& s.bases == r.bases
            &&& s.limit == r.limit
            &&& s.checkpoint == r.checkpoint
        }),
    decreases r.bases.len() - r.segments.len(),
{
    if r.segments.len() < r.bases.len() {
        let more = lemma_backs_file(r, layout, files);
        lemma_backs_all(
            recovery::scanned_file(r, files[r.bases[r.segments.len() as int]])->Ok_0,
            more,
            files,
        )
    } else {
        layout
    }
}

/// A disk that recovers has the segment files of a layout, but for what is
/// behind the records of the last one.
proof fn lemma_opened(limit: u64, disk: Disk, bases: Seq<u64>) -> (layout: Layout)
    requires
        replay::recovered(limit, disk, bases) is Ok,
    ensures
        ({
            let checkpoint = crate::format::decoded_checkpoint(disk.checkpoint)->Some_0;
            let s = replay::scanned_all(
                recovery::unscanned(limit, checkpoint, bases),
                disk.segments,
            )->Ok_0;
            &&& history::layout_fits(layout, limit)
            &&& bases == history::bases_of(layout)
            &&& backed(s, layout, disk.segments)
            &&& s.bases == bases
            &&& s.limit == limit
            &&& s.checkpoint == checkpoint
            &&& s.protected
        }),
{
    let checkpoint = crate::format::decoded_checkpoint(disk.checkpoint)->Some_0;
    let first = recovery::unscanned(limit, checkpoint, bases);
    let none = Seq::<Seq<Seq<u8>>>::empty();
    assert(history::segments_of(none) =~= Seq::<SegmentView>::empty());
    assert(first.segments =~= history::segments_of(none));
    let layout = lemma_backs_all(first, none, disk.segments);
    assert(history::layout_fits(layout, limit)) by {
        assert forall|i: int| 0 <= i < layout.len() - 1 implies (#[trigger] layout[i]).len()
            > 0 by {}
    }
    assert(history::bases_of(layout) =~= bases);
    layout
}

/// A disk that recovers is, once mended, the disk of the opened store: its
/// segment files are byte for byte those of a layout whose store was opened,
/// and none of the records in front of the checkpoint is missing.
pub proof fn opened_store_is_backed(limit: u64, disk: Disk, bases: Seq<u64>) -> (layout: Layout)
    requires
        replay::listed(disk.segments, bases),
        replay::recovered(limit, disk, bases) is Ok,
    ensures
        ({
            let r = replay::recovered(limit, disk, bases)->Ok_0;
            let generation = r.store.checkpoint.generation;
            let after = mended(disk, r);
            let checkpoint = crate::format::decoded_checkpoint(disk.checkpoint)->Some_0;
            &&& history::layout_fits(layout, limit)
            &&& r.store == history::store_of(layout, limit, generation)
            &&& replay::holds(after.segments, layout, Seq::empty())
            &&& after.checkpoint == r.store.checkpoint.image()
            &&& checkpoint.end <= history::log_of(layout).len()
        }),
{
    let r = replay::recovered(limit, disk, bases)->Ok_0;
    let checkpoint = crate::format::decoded_checkpoint(disk.checkpoint)->Some_0;
    let layout = lemma_opened(limit, disk, bases);
    let s = replay::scanned_all(
        recovery::unscanned(limit, checkpoint, bases),
        disk.segments,
    )->Ok_0;
    let n = layout.len() as int;
    history::lemma_log_len(layout);
    replay::lemma_segment_wf(layout, limit, n - 1);
    assert(history::file_of(layout, n - 1).len() <= limit);
    let base = history::start(layout, n - 1) as u64;
    assert(s.segments.last() == history::segment_of(base, layout[n - 1]));
    assert(r.store =~= history::store_of(layout, limit, r.store.checkpoint.generation));
    let after = mended(disk, r);
    assert(s.bases[n - 1] == base);
    assert forall|i: int| 0 <= i < n implies after.segments.dom().contains(
        history::start(layout, i) as u64,
    ) && after.segments[(#[trigger] history::start(layout, i)) as u64] == history::file_of(
        layout,
        i,
    ) + if i == n - 1 {
        Seq::<u8>::empty()
    } else {
        Seq::empty()
    } by {
        replay::lemma_start_bound(layout, limit, i);
        let here = history::start(layout, i) as u64;
        let whole = history::file_of(layout, i);
        assert(s.bases[i] == here);
        assert(bases.to_set().contains(here));
        assert(whole + Seq::<u8>::empty() =~= whole);
        let file = disk.segments[here];
        assert(file.take(whole.len() as int) == whole);
        if i < n - 1 {
            replay::lemma_starts_differ(layout, limit, i, n - 1);
            assert(file =~= file.take(whole.len() as int));
        } else if r.cut is None {
            assert(file =~= file.take(whole.len() as int));
        }
    }
    assert(after.segments.dom() =~= disk.segments.dom()) by {
        assert(bases.to_set().contains(base));
    }
    layout
}

/// Two readings of a file's first bytes as the records of a segment agree.
proof fn lemma_one_reading(
    file: Seq<u8>,
    base: u64,
    a: Payloads,
    b: Payloads,
    k: int,
)
    requires
        history::payloads_fit(a),
        history::payloads_fit(b),
        base + a.len() <= u64::MAX,
        base + b.len() <= u64::MAX,
        0 <= k <= a.len(),
        k <= b.len(),
        history::segment_file(base, a).len() <= file.len(),
        file.take(history::segment_file(base, a).len() as int) == history::segment_file(base, a),
        history::record_place(base, b, k) <= file.len(),
        file.take(history::record_place(base, b, k)) == history::segment_file(base, b.take(k)),
    ensures
        a.take(k) == b.take(k),
    decreases k,
{
    if k == 0 {
        assert(a.take(0) =~= b.take(0));
    } else {
        let j = k - 1;
        let c = b.take(k);
        assert forall|i: int| 0 <= i < c.len() implies (#[trigger] c[i]).len() <= MAX_PAYLOAD by {
            assert(c[i] == b[i]);
        }
        assert(c.take(j) =~= b.take(j));
        assert(c[j] == b[j]);
        history::lemma_record_place(base, c, j);
        history::lemma_place_ends(base, c);
        history::lemma_prefix(base, c, j);
        assert(file.take(history::record_place(base, b, j)) =~= history::segment_file(
            base,
            b.take(j),
        ));
        lemma_one_reading(file, base, a, b, j);
        history::lemma_record_place(base, a, j);
        let here = history::record_place(base, a, j);
        let offset = (base + j) as u64;
        let whole = history::segment_file(base, a);
        assert(file.subrange(here, here + RECORD_HEADER + a[j].len()) =~= whole.subrange(
            here,
            here + RECORD_HEADER + a[j].len(),
        ));
        crate::storage::records::lemma_finds_record(file, here, file.len() as int, offset, a[j]);
        assert(file.subrange(here, here + RECORD_HEADER + b[j].len()) =~= history::segment_file(
            base,
            c,
        ).subrange(here, here + RECORD_HEADER + b[j].len()));
        crate::storage::records::lemma_finds_record(file, here, file.len() as int, offset, b[j]);
        assert(a.take(k) =~= a.take(j).push(a[j]));
        assert(b.take(k) =~= b.take(j).push(b[j]));
    }
}

/// A disk fails closed where a record in front of its checkpoint is damaged: if
/// a segment file is intact up to one of the segment's records, and no record
/// is found in that one's place, the disk does not recover, whatever else it
/// holds.
pub proof fn damaged_record_fails_closed(
    layout: Layout,
    limit: u64,
    generation: u64,
    disk: Disk,
    bases: Seq<u64>,
    c: int,
    k: int,
)
    requires
        history::layout_fits(layout, limit),
        disk.checkpoint == history::checkpoint_of(layout, generation).image(),
        disk.segments.dom() == history::bases_of(layout).to_set(),
        replay::listed(disk.segments, bases),
        0 <= c < layout.len(),
        0 <= k < layout[c].len(),
        ({
            let base = history::start(layout, c) as u64;
            let file = disk.segments[base];
            let here = history::record_place(base, layout[c], k);
            &&& here <= file.len()
            &&& file.take(here) == history::segment_file(base, layout[c].take(k))
            &&& !(crate::storage::records::found(
                file,
                here,
                file.len() as int,
                (base + k) as u64,
            ) matches Ok(Some(_)))
        }),
    ensures
        replay::recovered(limit, disk, bases) is Err,
{
    let n = layout.len() as int;
    let base = history::start(layout, c) as u64;
    let file = disk.segments[base];
    let here = history::record_place(base, layout[c], k);
    history::checkpoint_of(layout, generation).checkpoint_roundtrip();
    replay::lemma_start_bound(layout, limit, c);
    replay::lemma_start_bound(layout, limit, c + 1);
    replay::lemma_start_bound(layout, limit, n);
    if replay::recovered(limit, disk, bases) is Ok {
        let other = lemma_opened(limit, disk, bases);
        replay::lemma_listed(layout, limit, disk.segments, bases);
        assert(other.len() == n) by {
            assert(history::bases_of(other).len() == history::bases_of(layout).len());
        }
        assert(history::start(other, c) == history::start(layout, c)) by {
            replay::lemma_start_bound(other, limit, c);
            assert(history::bases_of(other)[c] == history::bases_of(layout)[c]);
        }
        assert(k < other[c].len()) by {
            replay::lemma_start_bound(other, limit, c + 1);
            if c + 1 < n {
                assert(history::bases_of(other)[c + 1] == history::bases_of(layout)[c + 1]);
            }
            assert(history::start(other, c + 1) == history::start(other, c) + other[c].len());
            assert(history::start(layout, c + 1) == history::start(layout, c) + layout[c].len());
        }
        replay::lemma_start_bound(other, limit, c + 1);
        let whole = history::file_of(other, c);
        assert(bases[c] == base);
        assert(whole.len() <= file.len() && file.take(whole.len() as int) == whole);
        assert(history::payloads_fit(other[c]));
        assert(history::payloads_fit(layout[c]));
        lemma_one_reading(file, base, other[c], layout[c], k);
        history::lemma_record_place(base, other[c], k);
        let there = here + RECORD_HEADER + other[c][k].len();
        assert(file.subrange(here, there) =~= whole.subrange(here, there));
        crate::storage::records::lemma_finds_record(
            file,
            here,
            file.len() as int,
            (base + k) as u64,
            other[c][k],
        );
    }
}

/// A disk fails closed where something that is neither a record nor the
/// beginning of one follows the records: behind the checkpoint too, only a
/// record that was not written to its end is cut off.
pub proof fn invalid_suffix_fails_closed(
    limit: u64,
    checkpoint: Checkpoint,
    layout: Layout,
    m: int,
    disk: Disk,
    bases: Seq<u64>,
    tail: Seq<u8>,
)
    requires
        history::layout_fits(layout, limit),
        replay::located(checkpoint, layout, layout.len() - 1, m),
        replay::holds(disk.segments, layout, tail),
        disk.checkpoint == checkpoint.image(),
        replay::listed(disk.segments, bases),
        tail.len() > 0,
        history::file_of(layout, layout.len() - 1).len() + tail.len() <= limit,
        ({
            let file = history::file_of(layout, layout.len() - 1) + tail;
            crate::storage::records::found(
                file,
                file.len() - tail.len(),
                file.len() as int,
                history::start(layout, layout.len() as int) as u64,
            ) is Err
        }),
    ensures
        replay::recovered(limit, disk, bases) is Err,
{
    replay::lemma_refuses_tail(limit, checkpoint, layout, m, disk, bases, tail);
}

/// No record is found where one byte of a record is damaged, unless the damage
/// is in the record's length.
proof fn lemma_damaged_is_not_found(
    file: Seq<u8>,
    here: int,
    offset: u64,
    payload: Seq<u8>,
    k: int,
)
    requires
        payload.len() <= MAX_PAYLOAD,
        0 <= here,
        here + RECORD_HEADER + payload.len() <= file.len(),
        checksum::differ_at(
            crate::format::record_image(offset, payload),
            file.subrange(here, here + RECORD_HEADER + payload.len()),
            k,
        ),
        k < 8 || 12 <= k,
    ensures
        crate::storage::records::found(file, here, file.len() as int, offset) is Err,
{
    let image = crate::format::record_image(offset, payload);
    let damaged = file.subrange(here, here + RECORD_HEADER + payload.len());
    let head = file.subrange(here, here + RECORD_HEADER);
    crate::format::lemma_record_fields(offset, payload);
    crate::format::damaged_byte_of_record_is_refused(offset, payload, damaged, k);
    if k < 8 {
        assert(head.take(8)[k] != image.take(8)[k]);
    } else {
        assert(head.take(8) =~= image.take(8));
        assert(head.subrange(8, 12) =~= image.subrange(8, 12));
    }
}

/// A disk fails closed where one byte of an acknowledged record is damaged,
/// whatever the damage, unless it is in the record's length.
pub proof fn damaged_byte_of_record_fails_closed(
    layout: Layout,
    limit: u64,
    generation: u64,
    disk: Disk,
    bases: Seq<u64>,
    c: int,
    k: int,
    at: int,
)
    requires
        history::layout_fits(layout, limit),
        disk.checkpoint == history::checkpoint_of(layout, generation).image(),
        disk.segments.dom() == history::bases_of(layout).to_set(),
        replay::listed(disk.segments, bases),
        0 <= c < layout.len(),
        0 <= k < layout[c].len(),
        ({
            let base = history::start(layout, c) as u64;
            let here = history::record_place(base, layout[c], k);
            let there = history::record_place(base, layout[c], k + 1);
            &&& checksum::differ_at(history::file_of(layout, c), disk.segments[base], at)
            &&& here <= at < here + 8 || here + 12 <= at < there
        }),
    ensures
        replay::recovered(limit, disk, bases) is Err,
{
    let base = history::start(layout, c) as u64;
    let payloads = layout[c];
    let payload = payloads[k];
    let file = disk.segments[base];
    let whole = history::file_of(layout, c);
    let here = history::record_place(base, payloads, k);
    let offset = (base + k) as u64;
    replay::lemma_start_bound(layout, limit, c);
    replay::lemma_start_bound(layout, limit, c + 1);
    assert(history::payloads_fit(payloads));
    history::lemma_record_place(base, payloads, k);
    history::lemma_prefix(base, payloads, k);
    let there = here + RECORD_HEADER + payload.len();
    let image = crate::format::record_image(offset, payload);
    assert(whole.subrange(here, there) =~= image);
    assert(checksum::differ_at(image, file.subrange(here, there), at - here)) by {
        assert forall|i: int| 0 <= i < image.len() implies image[i] == whole[here + i] by {
            assert(whole.subrange(here, there)[i] == whole[here + i]);
        }
    }
    lemma_damaged_is_not_found(file, here, offset, payload, at - here);
    assert(file.take(here) =~= whole.take(here));
    damaged_record_fails_closed(layout, limit, generation, disk, bases, c, k);
}

/// A disk fails closed where one byte of a segment's header is damaged.
pub proof fn damaged_byte_of_header_fails_closed(
    layout: Layout,
    limit: u64,
    disk: Disk,
    bases: Seq<u64>,
    c: int,
    at: int,
)
    requires
        history::layout_fits(layout, limit),
        disk.segments.dom() == history::bases_of(layout).to_set(),
        replay::listed(disk.segments, bases),
        0 <= c < layout.len(),
        at < SEGMENT_HEADER,
        checksum::differ_at(
            history::file_of(layout, c),
            disk.segments[history::start(layout, c) as u64],
            at,
        ),
    ensures
        replay::recovered(limit, disk, bases) is Err,
{
    let base = history::start(layout, c) as u64;
    let file = disk.segments[base];
    let image = crate::format::segment_image(base);
    replay::lemma_start_bound(layout, limit, c);
    crate::format::segment_roundtrip(base);
    assert(file[at] != image[at]) by {
        assert(history::file_of(layout, c)[at] == image[at]);
    }
    if replay::recovered(limit, disk, bases) is Ok {
        let other = lemma_opened(limit, disk, bases);
        replay::lemma_listed(layout, limit, disk.segments, bases);
        assert(history::bases_of(other).len() == history::bases_of(layout).len());
        replay::lemma_start_bound(other, limit, c);
        assert(history::bases_of(other)[c] == history::bases_of(layout)[c]);
        let whole = history::file_of(other, c);
        assert(bases[c] == base);
        assert(whole.len() <= file.len() && file.take(whole.len() as int) == whole);
        assert(whole[at] == image[at]);
        assert(file.take(whole.len() as int)[at] == file[at]);
    }
}

/// A disk fails closed where one byte of the checkpoint is damaged.
pub proof fn damaged_byte_of_checkpoint_fails_closed(
    limit: u64,
    checkpoint: Checkpoint,
    disk: Disk,
    bases: Seq<u64>,
    at: int,
)
    requires
        checksum::differ_at(checkpoint.image(), disk.checkpoint, at),
    ensures
        replay::recovered(limit, disk, bases) is Err,
{
    checkpoint.damaged_byte_is_refused(disk.checkpoint, at);
}

/// A disk fails closed where a record behind the last one has one damaged byte,
/// unless the damage is in the record's length, though the record was never
/// acknowledged.
pub proof fn damaged_byte_of_suffix_fails_closed(
    limit: u64,
    checkpoint: Checkpoint,
    layout: Layout,
    m: int,
    disk: Disk,
    bases: Seq<u64>,
    tail: Seq<u8>,
    payload: Seq<u8>,
    at: int,
)
    requires
        history::layout_fits(layout, limit),
        replay::located(checkpoint, layout, layout.len() - 1, m),
        replay::holds(disk.segments, layout, tail),
        disk.checkpoint == checkpoint.image(),
        replay::listed(disk.segments, bases),
        history::file_of(layout, layout.len() - 1).len() + tail.len() <= limit,
        payload.len() <= MAX_PAYLOAD,
        checksum::differ_at(
            crate::format::record_image(
                history::start(layout, layout.len() as int) as u64,
                payload,
            ),
            tail,
            at,
        ),
        at < 8 || 12 <= at,
    ensures
        replay::recovered(limit, disk, bases) is Err,
{
    let whole = history::file_of(layout, layout.len() - 1);
    let file = whole + tail;
    let here = whole.len() as int;
    let offset = history::start(layout, layout.len() as int) as u64;
    crate::format::lemma_record_fields(offset, payload);
    assert(file.subrange(here, here + RECORD_HEADER + payload.len()) =~= tail);
    lemma_damaged_is_not_found(file, here, offset, payload, at);
    invalid_suffix_fails_closed(limit, checkpoint, layout, m, disk, bases, tail);
}

/// Whether a disk holds a log: its segment files are those of a layout, with an
/// unfinished record behind the last one's records at most, and its checkpoint
/// stands behind the first `m` records of the segment number `c`. That segment is
/// the last one, unless the last one is new and without records.
pub open spec fn recoverable(
    limit: u64,
    disk: Disk,
    checkpoint: Checkpoint,
    layout: Layout,
    c: int,
    m: int,
    tail: Seq<u8>,
) -> bool {
    let n = layout.len() as int;
    let current = c == n - 1 && m == layout[c].len();
    &&& history::layout_fits(layout, limit)
    &&& replay::holds(disk.segments, layout, tail)
    &&& replay::unfinished(tail)
    &&& history::file_of(layout, n - 1).len() + tail.len() <= limit
    &&& disk.checkpoint == checkpoint.image()
    &&& replay::located(checkpoint, layout, c, m)
    &&& c == n - 1 || (c == n - 2 && m == layout[c].len() && layout[n - 1].len() == 0
        && tail.len() == 0)
    &&& current || checkpoint.generation < u64::MAX
}

/// The store that such a disk recovers to: all the records are kept, an
/// unfinished one is cut off, and the checkpoint moves to the end of the log,
/// with the next generation, unless it is there already.
pub open spec fn recovered_log(
    limit: u64,
    checkpoint: Checkpoint,
    layout: Layout,
    c: int,
    m: int,
    tail: Seq<u8>,
) -> Recovered {
    let n = layout.len() as int;
    let current = c == n - 1 && m == layout[c].len();
    Recovered {
        store: history::store_of(
            layout,
            limit,
            if current {
                checkpoint.generation
            } else {
                (checkpoint.generation + 1) as u64
            },
        ),
        cut: if tail.len() > 0 {
            Some(history::file_of(layout, n - 1).len() as u64)
        } else {
            None
        },
        outdated: !current,
    }
}

/// A disk that holds a log recovers to it.
pub proof fn log_is_recovered(
    limit: u64,
    disk: Disk,
    bases: Seq<u64>,
    checkpoint: Checkpoint,
    layout: Layout,
    c: int,
    m: int,
    tail: Seq<u8>,
)
    requires
        replay::listed(disk.segments, bases),
        recoverable(limit, disk, checkpoint, layout, c, m, tail),
    ensures
        replay::recovered(limit, disk, bases) == Ok::<Recovered, Seq<char>>(
            recovered_log(limit, checkpoint, layout, c, m, tail),
        ),
{
    replay::unfinished_record_is_cut_off(limit, checkpoint, layout, c, m, disk, bases, tail);
}

/// Only a disk that holds a log recovers, and to no other log: whatever else it
/// holds, behind the checkpoint too, is refused.
pub proof fn only_a_log_is_recovered(limit: u64, disk: Disk, bases: Seq<u64>) -> (found: (
    Checkpoint,
    Layout,
    int,
    int,
    Seq<u8>,
))
    requires
        replay::listed(disk.segments, bases),
        replay::recovered(limit, disk, bases) is Ok,
    ensures
        ({
            let (checkpoint, layout, c, m, tail) = found;
            &&& recoverable(limit, disk, checkpoint, layout, c, m, tail)
            &&& replay::recovered(limit, disk, bases)->Ok_0 == recovered_log(
                limit,
                checkpoint,
                layout,
                c,
                m,
                tail,
            )
        }),
{
    let checkpoint = crate::format::decoded_checkpoint(disk.checkpoint)->Some_0;
    let layout = lemma_opened(limit, disk, bases);
    let s = replay::scanned_all(
        recovery::unscanned(limit, checkpoint, bases),
        disk.segments,
    )->Ok_0;
    let n = layout.len() as int;
    let whole = history::file_of(layout, n - 1);
    let base = history::start(layout, n - 1) as u64;
    replay::lemma_start_bound(layout, limit, n - 1);
    assert(s.bases[n - 1] == base);
    let file = disk.segments[base];
    let tail = file.skip(whole.len() as int);
    assert(whole.len() <= file.len() && file.take(whole.len() as int) == whole);
    assert(replay::holds(disk.segments, layout, tail)) by {
        assert forall|i: int| 0 <= i < n implies disk.segments.dom().contains(
            history::start(layout, i) as u64,
        ) && disk.segments[(#[trigger] history::start(layout, i)) as u64] == history::file_of(
            layout,
            i,
        ) + if i == n - 1 {
            tail
        } else {
            Seq::empty()
        } by {
            replay::lemma_start_bound(layout, limit, i);
            let here = history::start(layout, i) as u64;
            let mine = history::file_of(layout, i);
            assert(s.bases[i] == here);
            assert(bases.to_set().contains(here));
            assert(disk.segments[here].take(mine.len() as int) == mine);
            if i < n - 1 {
                assert(disk.segments[here] =~= mine + Seq::<u8>::empty());
            } else {
                assert(disk.segments[here] =~= mine + tail);
            }
        }
    }
    let (c, m) = choose|c: int, m: int| replay::located(checkpoint, layout, c, m);
    let last = s.segments[n - 1];
    replay::lemma_segment_wf(layout, limit, n - 1);
    replay::lemma_start_bound(layout, limit, c);
    if checkpoint.base == base {
        if c != n - 1 {
            replay::lemma_starts_differ(layout, limit, c, n - 1);
        }
    } else {
        assert(s.bases[n - 2] == history::start(layout, n - 2));
        if c != n - 2 {
            replay::lemma_starts_differ(layout, limit, c, n - 2);
        }
        assert(history::start(layout, n - 1) == history::start(layout, n - 2) + layout[n
            - 2].len());
        history::lemma_place_ends(base, layout[n - 1]);
        assert(history::payloads_fit(layout[n - 1]));
        history::lemma_places_grow(base, layout[n - 1], 0, layout[n - 1].len() as int);
    }
    if c == n - 1 && m == layout[c].len() {
    } else if checkpoint.generation == u64::MAX {
        let settled = recovery::settlement(s)->Ok_0;
        assert(settled.outdated()) by {
            assert(last.end == history::start(layout, n));
            assert(history::start(layout, n) == history::start(layout, n - 1) + layout[n
                - 1].len());
        }
    }
    assert(recoverable(limit, disk, checkpoint, layout, c, m, tail));
    log_is_recovered(limit, disk, bases, checkpoint, layout, c, m, tail);
    (checkpoint, layout, c, m, tail)
}

} // verus!
