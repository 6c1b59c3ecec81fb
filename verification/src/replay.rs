//! Which store a disk recovers to.
//!
//! A disk holds segment files and a checkpoint file. Where the files are those
//! of a layout, recovery gives the layout's store.

use crate::bytes;
use crate::format::{Checkpoint, MAX_PAYLOAD, RECORD_HEADER, SEGMENT_HEADER};
use crate::history;
use crate::history::{Layout, Payloads};
use crate::storage::appending;
use crate::storage::recovery;
use crate::storage::recovery::{Progress, RecoveryView};
use crate::storage::{SegmentView, StoreView, INDEX_STEP, MAX_SEGMENTS};
use vstd::prelude::*;

verus! {

/// The files of a store: the segment files by base, and the checkpoint file.
#[verifier::ext_equal]
pub struct Disk {
    pub segments: Map<u64, Seq<u8>>,
    pub checkpoint: Seq<u8>,
}

/// Whether the segment files are those of a layout, with `tail` behind the last
/// one's records.
pub open spec fn holds(files: Map<u64, Seq<u8>>, layout: Layout, tail: Seq<u8>) -> bool {
    let n = layout.len() as int;
    &&& forall|i: int|
        0 <= i < n ==> files.dom().contains(history::start(layout, i) as u64) && files[(
        #[trigger] history::start(layout, i)) as u64] == history::file_of(layout, i) + if i == n
            - 1 {
            tail
        } else {
            Seq::empty()
        }
    &&& files.dom() == history::bases_of(layout).to_set()
}

/// Whether `bases` are the bases of the segment files, in ascending order.
pub open spec fn listed(files: Map<u64, Seq<u8>>, bases: Seq<u64>) -> bool {
    recovery::sorted(bases) && bases.no_duplicates() && bases.to_set() == files.dom()
}

/// Recovery after all the segment files that are left.
pub open spec fn scanned_all(r: RecoveryView, files: Map<u64, Seq<u8>>) -> Result<
    RecoveryView,
    Seq<char>,
>
    decreases r.bases.len() - r.segments.len(),
{
    if r.segments.len() >= r.bases.len() {
        Ok(r)
    } else {
        match recovery::scanned_file(r, files[r.bases[r.segments.len() as int]]) {
            Err(message) => Err(message),
            Ok(s) => scanned_all(s, files),
        }
    }
}

/// An opened store: its state, to how many bytes the last segment's file has to
/// be cut, if so, and whether the checkpoint file has to be replaced.
#[verifier::ext_equal]
pub struct Recovered {
    pub store: StoreView,
    pub cut: Option<u64>,
    pub outdated: bool,
}

/// The store that a disk with those bases recovers to, or why it does not.
pub open spec fn recovered(limit: u64, disk: Disk, bases: Seq<u64>) -> Result<
    Recovered,
    Seq<char>,
> {
    match recovery::opened(limit, disk.checkpoint) {
        Err(message) => Err(message),
        Ok(checkpoint) => match recovery::bases_refusal(bases) {
            Some(message) => Err(message),
            None => match scanned_all(
                recovery::unscanned(limit, checkpoint, bases),
                disk.segments,
            ) {
                Err(message) => Err(message),
                Ok(r) => match recovery::settlement(r) {
                    Err(message) => Err(message),
                    Ok(s) => match recovery::completed(s) {
                        Err(message) => Err(message),
                        Ok(store) => Ok(
                            Recovered { store, cut: s.cut(), outdated: s.outdated() },
                        ),
                    },
                },
            },
        },
    }
}

/// The scan of a segment's file behind its first `k` records.
pub open spec fn progress_at(base: u64, payloads: Payloads, k: int, protected: bool) -> Progress {
    Progress {
        position: history::record_place(base, payloads, k),
        next: (base + k) as u64,
        index: history::index_of(base, payloads.take(k)),
        protected,
    }
}

/// The scan of a file that begins with the file of a segment comes to the end of
/// that segment's records, if the checkpoint is behind one of the records still
/// to come, was met before, or is in another segment.
proof fn lemma_scan_from(
    file: Seq<u8>,
    base: u64,
    payloads: Payloads,
    k: int,
    checkpoint: Checkpoint,
    last: bool,
    m: int,
    met: bool,
)
    requires
        history::payloads_fit(payloads),
        base + payloads.len() <= u64::MAX,
        history::segment_file(base, payloads).len() <= file.len() <= u64::MAX,
        file.take(history::segment_file(base, payloads).len() as int) == history::segment_file(
            base,
            payloads,
        ),
        0 <= k <= payloads.len(),
        0 <= m <= payloads.len(),
        base == checkpoint.base ==> met || k == payloads.len() || (k < m && checkpoint.end == base
            + m && checkpoint.byte_end == history::record_place(base, payloads, m)),
    ensures
        recovery::scanned(file, base, checkpoint, last, progress_at(base, payloads, k, met))
            == recovery::scanned(
            file,
            base,
            checkpoint,
            last,
            progress_at(
                base,
                payloads,
                payloads.len() as int,
                met || (base == checkpoint.base && k < m),
            ),
        ),
    decreases payloads.len() - k,
{
    let n = payloads.len() as int;
    if k < n {
        let here = history::record_place(base, payloads, k);
        let there = history::record_place(base, payloads, k + 1);
        let p = progress_at(base, payloads, k, met);
        let q = recovery::stepped(checkpoint, base, p, payloads[k].len());
        let now = met || recovery::at_checkpoint(checkpoint, base, there, (base + k + 1) as u64);
        history::lemma_record_place(base, payloads, k);
        assert(crate::storage::records::found(file, here, file.len() as int, (base + k) as u64)
            == Ok::<Option<Seq<u8>>, Seq<char>>(Some(payloads[k]))) by {
            let all = history::segment_file(base, payloads);
            assert(file.subrange(here, there) =~= all.subrange(here, there));
            crate::storage::records::lemma_finds_record(
                file,
                here,
                file.len() as int,
                (base + k) as u64,
                payloads[k],
            );
        }
        assert(q == progress_at(base, payloads, k + 1, now)) by {
            assert(payloads.take(k + 1) =~= payloads.take(k).push(payloads[k]));
            history::lemma_push(base, payloads.take(k), payloads[k]);
            assert(q =~= progress_at(base, payloads, k + 1, now));
        }
        if base == checkpoint.base && !met {
            history::lemma_places_grow(base, payloads, k + 1, m);
        }
        lemma_scan_from(file, base, payloads, k + 1, checkpoint, last, m, now);
    }
}

/// Recovery behind the first `i` segments of a layout.
pub open spec fn recovery_at(
    limit: u64,
    checkpoint: Checkpoint,
    layout: Layout,
    i: int,
    protected: bool,
    length: u64,
) -> RecoveryView {
    RecoveryView {
        limit,
        checkpoint,
        bases: history::bases_of(layout),
        segments: history::segments_of(layout).take(i),
        next: history::start(layout, i) as u64,
        protected,
        length,
    }
}

/// Whether `tail` is nothing or the beginning of a record.
pub open spec fn torn(tail: Seq<u8>, offset: u64, payload: Seq<u8>) -> bool {
    &&& payload.len() <= MAX_PAYLOAD
    &&& tail.len() < RECORD_HEADER + payload.len()
    &&& tail == crate::format::record_image(offset, payload).take(tail.len() as int)
}

/// Whether bytes may be what a write of a record left that did not come to its
/// end: they are fewer than a record's header, or begin with the eight bytes that
/// every record begins with and hold a payload's length that reaches past them.
pub open spec fn unfinished(tail: Seq<u8>) -> bool {
    ||| tail.len() < 24
    ||| {
        let length = bytes::le_value(tail.subrange(8, 12));
        &&& tail.take(8) == seq![0x4bu8, 0x4c, 0x47, 0x52, 1, 0, 0, 0]
        &&& length <= 1024 * 1024
        &&& tail.len() < 24 + length
    }
}

/// The beginning of a record is an unfinished one.
pub proof fn torn_is_unfinished(tail: Seq<u8>, offset: u64, payload: Seq<u8>)
    requires
        torn(tail, offset, payload),
    ensures
        unfinished(tail),
{
    assert(tail.subrange(0, tail.len() as int) =~= tail);
    assert(tail.skip(0) =~= tail);
    crate::storage::records::lemma_finds_cut_record(tail, 0, offset, payload, 0);
    lemma_finds_unfinished(tail, 0, 0);
}

/// A segment file that ends in an unfinished record is found to.
pub proof fn lemma_finds_unfinished(file: Seq<u8>, position: int, expected: u64)
    requires
        0 <= position <= file.len(),
    ensures
        unfinished(file.skip(position)) <==> (crate::storage::records::found(
            file,
            position,
            file.len() as int,
            expected,
        ) matches Ok(None)),
{
    let tail = file.skip(position);
    if tail.len() >= 24 {
        let head = file.subrange(position, position + RECORD_HEADER);
        assert(head.take(8) =~= tail.take(8));
        assert(head.subrange(8, 12) =~= tail.subrange(8, 12));
    }
}

/// Whether a checkpoint stands behind the first `m` records of the segment
/// number `c` of a layout.
pub open spec fn located(checkpoint: Checkpoint, layout: Layout, c: int, m: int) -> bool {
    let base = history::start(layout, c);
    &&& 0 <= c < layout.len()
    &&& 0 <= m <= layout[c].len()
    &&& checkpoint.base == base
    &&& checkpoint.end == base + m
    &&& checkpoint.byte_end == history::record_place(base as u64, layout[c], m)
}

/// Different segments of a layout start at different offsets.
pub proof fn lemma_starts_differ(layout: Layout, limit: u64, i: int, j: int)
    requires
        history::layout_fits(layout, limit),
        0 <= i < layout.len(),
        0 <= j < layout.len(),
        i != j,
    ensures
        history::start(layout, i) != history::start(layout, j),
{
    let (a, b) = if i < j {
        (i, j)
    } else {
        (j, i)
    };
    history::lemma_start_grows(layout, a + 1, b);
    assert(layout[a].len() > 0);
}

/// Offsets of a layout fit in a `u64`.
pub proof fn lemma_start_bound(layout: Layout, limit: u64, i: int)
    requires
        history::layout_fits(layout, limit),
        0 <= i <= layout.len(),
    ensures
        history::start(layout, i) <= u64::MAX,
{
    history::lemma_start_grows(layout, i, layout.len() as int);
}

/// The scan of a segment's file, whose checkpoint is behind its first `m`
/// records or in another segment, comes to the end of its records.
proof fn lemma_scan_records(
    base: u64,
    payloads: Payloads,
    checkpoint: Checkpoint,
    last: bool,
    m: int,
    met: bool,
    tail: Seq<u8>,
)
    requires
        history::payloads_fit(payloads),
        base + payloads.len() <= u64::MAX,
        history::segment_file(base, payloads).len() + tail.len() <= u64::MAX,
        unfinished(tail),
        0 <= m <= payloads.len(),
        base == checkpoint.base ==> checkpoint.end == base + m && checkpoint.byte_end
            == history::record_place(base, payloads, m),
        tail.len() > 0 ==> last && base == checkpoint.base,
    ensures
        recovery::scanned(
            history::segment_file(base, payloads) + tail,
            base,
            checkpoint,
            last,
            recovery::scan_start(checkpoint, base, met),
        ) == Ok::<Progress, Seq<char>>(
            Progress {
                position: history::segment_file(base, payloads).len() as int,
                next: (base + payloads.len()) as u64,
                index: history::index_of(base, payloads),
                protected: met || base == checkpoint.base,
            },
        ),
{
    let whole = history::segment_file(base, payloads);
    let file = whole + tail;
    let n = payloads.len() as int;
    history::lemma_place_ends(base, payloads);
    assert(file.take(whole.len() as int) =~= whole);
    assert(payloads.take(0) =~= Seq::<Seq<u8>>::empty());
    assert(payloads.take(n) =~= payloads);
    history::lemma_places_grow(base, payloads, 0, m);
    let start = recovery::scan_start(checkpoint, base, met);
    assert(start.protected == (met || (base == checkpoint.base && m == 0)));
    assert(start =~= progress_at(base, payloads, 0, start.protected));
    lemma_scan_from(file, base, payloads, 0, checkpoint, last, m, start.protected);
    let end = progress_at(base, payloads, n, met || base == checkpoint.base);
    assert(recovery::scanned(file, base, checkpoint, last, end) == Ok::<Progress, Seq<char>>(end))
        by {
        if tail.len() > 0 {
            assert(file.skip(whole.len() as int) =~= tail);
            lemma_finds_unfinished(file, whole.len() as int, (base + n) as u64);
            history::lemma_places_grow(base, payloads, m, n);
        }
    }
}

/// The file of a layout's segment is scanned to what is known of that segment.
#[verifier::rlimit(50)]
proof fn lemma_scan_segment(
    limit: u64,
    checkpoint: Checkpoint,
    layout: Layout,
    c: int,
    m: int,
    i: int,
    length: u64,
    tail: Seq<u8>,
)
    requires
        history::layout_fits(layout, limit),
        0 <= c < layout.len(),
        checkpoint.base == history::start(layout, c),
        i == c ==> located(checkpoint, layout, c, m),
        0 <= i < layout.len(),
        unfinished(tail),
        tail.len() > 0 ==> i == c && i == layout.len() - 1,
        history::file_of(layout, i).len() + tail.len() <= limit,
    ensures
        recovery::scanned_file(
            recovery_at(limit, checkpoint, layout, i, i > c, length),
            history::file_of(layout, i) + tail,
        ) == Ok::<RecoveryView, Seq<char>>(
            recovery_at(
                limit,
                checkpoint,
                layout,
                i + 1,
                i >= c,
                (history::file_of(layout, i).len() + tail.len()) as u64,
            ),
        ),
{
    let r = recovery_at(limit, checkpoint, layout, i, i > c, length);
    let whole = history::file_of(layout, i);
    let file = whole + tail;
    let payloads = layout[i];
    let n = payloads.len() as int;
    let last = i + 1 == layout.len();
    lemma_start_bound(layout, limit, i);
    lemma_start_bound(layout, limit, i + 1);
    let base = history::start(layout, i) as u64;
    assert(base == checkpoint.base <==> i == c) by {
        lemma_start_bound(layout, limit, c);
        if i != c {
            lemma_starts_differ(layout, limit, i, c);
        }
    }
    let k = if i == c {
        m
    } else {
        0
    };
    let end = Progress {
        position: whole.len() as int,
        next: (base + n) as u64,
        index: history::index_of(base, payloads),
        protected: i >= c,
    };
    assert(recovery::scanned(
        file,
        base,
        checkpoint,
        last,
        recovery::scan_start(checkpoint, base, i > c),
    ) == Ok::<Progress, Seq<char>>(end)) by {
        lemma_scan_records(base, payloads, checkpoint, last, k, i > c, tail);
    }
    assert(crate::format::decoded_segment(file.take(SEGMENT_HEADER as int)) == Some(base)
        && SEGMENT_HEADER <= whole.len() && (n > 0 ==> SEGMENT_HEADER < whole.len())) by {
        crate::format::segment_roundtrip(base);
        assert(file.take(SEGMENT_HEADER as int) =~= crate::format::segment_image(base));
        history::lemma_place_ends(base, payloads);
        history::lemma_places_grow(base, payloads, 0, n);
    }
    assert(history::bases_of(layout)[i] == base);
    assert(recovery::wanted(r) == Ok::<Option<u64>, Seq<char>>(Some(base)));
    let s = recovery::scanned_file(r, file)->Ok_0;
    let t = recovery_at(limit, checkpoint, layout, i + 1, i >= c, file.len() as u64);
    assert(s.segments =~= t.segments);
    assert(s =~= t);
}

/// All the segment files of a layout are scanned to what is known of it.
proof fn lemma_scan_all(
    limit: u64,
    checkpoint: Checkpoint,
    layout: Layout,
    c: int,
    m: int,
    files: Map<u64, Seq<u8>>,
    i: int,
    length: u64,
    tail: Seq<u8>,
)
    requires
        history::layout_fits(layout, limit),
        located(checkpoint, layout, c, m),
        holds(files, layout, tail),
        unfinished(tail),
        tail.len() > 0 ==> c == layout.len() - 1,
        history::file_of(layout, layout.len() - 1).len() + tail.len() <= limit,
        0 <= i <= layout.len(),
        i == layout.len() ==> length == history::file_of(layout, i - 1).len() + tail.len(),
    ensures
        scanned_all(recovery_at(limit, checkpoint, layout, i, i > c, length), files) == Ok::<
            RecoveryView,
            Seq<char>,
        >(
            recovery_at(
                limit,
                checkpoint,
                layout,
                layout.len() as int,
                true,
                (history::file_of(layout, layout.len() - 1).len() + tail.len()) as u64,
            ),
        ),
    decreases layout.len() - i,
{
    if i < layout.len() {
        let mine = if i == layout.len() - 1 {
            tail
        } else {
            Seq::empty()
        };
        let whole = history::file_of(layout, i);
        assert(history::payloads_fit(layout[i]));
        assert(files[history::start(layout, i) as u64] == whole + mine);
        lemma_scan_segment(limit, checkpoint, layout, c, m, i, length, mine);
        lemma_scan_all(
            limit,
            checkpoint,
            layout,
            c,
            m,
            files,
            i + 1,
            (whole.len() + mine.len()) as u64,
            tail,
        );
    }
}

/// The segment files before the checkpoint's segment are scanned to what is
/// known of them.
proof fn lemma_scan_before(
    limit: u64,
    checkpoint: Checkpoint,
    layout: Layout,
    c: int,
    files: Map<u64, Seq<u8>>,
    i: int,
    length: u64,
    tail: Seq<u8>,
) -> (reached: u64)
    requires
        history::layout_fits(layout, limit),
        0 <= i <= c < layout.len(),
        checkpoint.base == history::start(layout, c),
        holds(files, layout, tail),
    ensures
        scanned_all(recovery_at(limit, checkpoint, layout, i, false, length), files)
            == scanned_all(recovery_at(limit, checkpoint, layout, c, false, reached), files),
    decreases c - i,
{
    if i < c {
        let whole = history::file_of(layout, i);
        let nothing = Seq::<u8>::empty();
        assert(files[history::start(layout, i) as u64] == whole + nothing);
        assert(whole.len() <= limit);
        lemma_scan_segment(limit, checkpoint, layout, c, 0, i, length, nothing);
        lemma_scan_before(limit, checkpoint, layout, c, files, i + 1, whole.len() as u64, tail)
    } else {
        length
    }
}

/// A disk that holds a layout and then something that is neither a record nor
/// the beginning of one does not recover.
pub proof fn lemma_refuses_tail(
    limit: u64,
    checkpoint: Checkpoint,
    layout: Layout,
    m: int,
    disk: Disk,
    bases: Seq<u64>,
    tail: Seq<u8>,
)
    requires
        history::layout_fits(layout, limit),
        located(checkpoint, layout, layout.len() - 1, m),
        holds(disk.segments, layout, tail),
        disk.checkpoint == checkpoint.image(),
        listed(disk.segments, bases),
        tail.len() > 0,
        history::file_of(layout, layout.len() - 1).len() + tail.len() <= limit,
        ({
            let whole = history::file_of(layout, layout.len() - 1);
            let end = history::start(layout, layout.len() as int) as u64;
            crate::storage::records::found(
                whole + tail,
                whole.len() as int,
                (whole + tail).len() as int,
                end,
            ) is Err
        }),
    ensures
        ({
            let whole = history::file_of(layout, layout.len() - 1);
            let end = history::start(layout, layout.len() as int) as u64;
            recovered(limit, disk, bases) == Err::<Recovered, Seq<char>>(
                crate::storage::records::found(
                    whole + tail,
                    whole.len() as int,
                    (whole + tail).len() as int,
                    end,
                )->Err_0,
            )
        }),
{
    let c = layout.len() - 1;
    let payloads = layout[c];
    let base = checkpoint.base;
    let whole = history::file_of(layout, c);
    let file = whole + tail;
    lemma_listed(layout, limit, disk.segments, bases);
    checkpoint.checkpoint_roundtrip();
    let reached = lemma_scan_before(limit, checkpoint, layout, c, disk.segments, 0, 0, tail);
    let r = recovery_at(limit, checkpoint, layout, c, false, reached);
    let first = recovery::unscanned(limit, checkpoint, bases);
    assert(first =~= recovery_at(limit, checkpoint, layout, 0, false, 0)) by {
        assert(history::segments_of(layout).take(0) =~= Seq::<SegmentView>::empty());
    }
    lemma_start_bound(layout, limit, c);
    lemma_start_bound(layout, limit, c + 1);
    assert(disk.segments[history::start(layout, c) as u64] == file);
    assert(history::payloads_fit(payloads));
    history::lemma_place_ends(base, payloads);
    history::lemma_places_grow(base, payloads, 0, m);
    assert(file.take(whole.len() as int) =~= whole);
    assert(payloads.take(0) =~= Seq::<Seq<u8>>::empty());
    let start = recovery::scan_start(checkpoint, base, false);
    assert(start =~= progress_at(base, payloads, 0, m == 0));
    lemma_scan_from(file, base, payloads, 0, checkpoint, true, m, m == 0);
    crate::format::segment_roundtrip(base);
    assert(file.take(SEGMENT_HEADER as int) =~= crate::format::segment_image(base));
    assert(recovery::scanned_file(r, file) is Err);
}

/// Numbers in ascending order without duplicates are determined by which they
/// are.
proof fn lemma_one_order(a: Seq<u64>, b: Seq<u64>)
    requires
        recovery::sorted(a),
        a.no_duplicates(),
        recovery::sorted(b),
        b.no_duplicates(),
        forall|x: u64| a.contains(x) <==> b.contains(x),
    ensures
        a == b,
    decreases a.len(),
{
    if a.len() == 0 {
        if b.len() > 0 {
            assert(b.contains(b[0]));
            assert(a.contains(b[0]));
        }
    } else {
        assert(a.contains(a[0]));
        assert(b.contains(a[0]));
        assert(a.contains(a.last()));
        assert(b.contains(b.last()));
        assert(a.last() == b.last());
        let c = a.drop_last();
        let d = b.drop_last();
        assert forall|x: u64| c.contains(x) <==> d.contains(x) by {
            if c.contains(x) {
                let i = choose|i: int| 0 <= i < c.len() && c[i] == x;
                assert(a[i] == x);
                assert(a.contains(x));
                let j = choose|j: int| 0 <= j < b.len() && b[j] == x;
                assert(d[j] == x);
            }
            if d.contains(x) {
                let i = choose|i: int| 0 <= i < d.len() && d[i] == x;
                assert(b[i] == x);
                assert(b.contains(x));
                let j = choose|j: int| 0 <= j < a.len() && a[j] == x;
                assert(c[j] == x);
            }
        }
        lemma_one_order(c, d);
        assert(a =~= c.push(a.last()));
        assert(b =~= d.push(b.last()));
    }
}

/// The bases of the segment files of a layout, in ascending order, are those of
/// the layout.
pub proof fn lemma_listed(
    layout: Layout,
    limit: u64,
    files: Map<u64, Seq<u8>>,
    bases: Seq<u64>,
)
    requires
        history::layout_fits(layout, limit),
        files.dom() == history::bases_of(layout).to_set(),
        listed(files, bases),
    ensures
        bases == history::bases_of(layout),
{
    let own = history::bases_of(layout);
    assert forall|i: int, j: int| 0 <= i <= j < own.len() implies own[i] <= own[j] by {
        history::lemma_start_grows(layout, i, j);
        lemma_start_bound(layout, limit, j);
    }
    assert forall|i: int, j: int|
        0 <= i < own.len() && 0 <= j < own.len() && i != j implies own[i] != own[j] by {
        lemma_starts_differ(layout, limit, i, j);
        lemma_start_bound(layout, limit, i);
        lemma_start_bound(layout, limit, j);
    }
    assert forall|x: u64| own.contains(x) <==> bases.contains(x) by {
        assert(own.to_set().contains(x) <==> own.contains(x));
        assert(bases.to_set().contains(x) <==> bases.contains(x));
    }
    lemma_one_order(own, bases);
}

/// A disk that holds a layout, up to an unfinished record behind it,
/// recovers to the layout's store, if its checkpoint is in the last segment or
/// at the end of the segment before a last one without records.
pub proof fn unfinished_record_is_cut_off(
    limit: u64,
    checkpoint: Checkpoint,
    layout: Layout,
    c: int,
    m: int,
    disk: Disk,
    bases: Seq<u64>,
    tail: Seq<u8>,
)
    requires
        history::layout_fits(layout, limit),
        located(checkpoint, layout, c, m),
        holds(disk.segments, layout, tail),
        disk.checkpoint == checkpoint.image(),
        listed(disk.segments, bases),
        unfinished(tail),
        history::file_of(layout, layout.len() - 1).len() + tail.len() <= limit,
        c == layout.len() - 1 || (c == layout.len() - 2 && m == layout[c].len()
            && layout.last().len() == 0 && tail.len() == 0),
        checkpoint.generation < u64::MAX || (c == layout.len() - 1 && m == layout[c].len()),
    ensures
        ({
            let current = c == layout.len() - 1 && m == layout[c].len();
            recovered(limit, disk, bases) == Ok::<Recovered, Seq<char>>(
                Recovered {
                    store: history::store_of(
                        layout,
                        limit,
                        if current {
                            checkpoint.generation
                        } else {
                            (checkpoint.generation + 1) as u64
                        },
                    ),
                    cut: if tail.len() > 0 {
                        Some(history::file_of(layout, layout.len() - 1).len() as u64)
                    } else {
                        None
                    },
                    outdated: !current,
                },
            )
        }),
{
    let n = layout.len() as int;
    lemma_listed(layout, limit, disk.segments, bases);
    checkpoint.checkpoint_roundtrip();
    let base = history::start(layout, c) as u64;
    assert(history::payloads_fit(layout[c]));
    lemma_start_bound(layout, limit, c);
    lemma_start_bound(layout, limit, n);
    lemma_start_bound(layout, limit, n - 1);
    history::lemma_place_ends(base, layout[c]);
    history::lemma_places_grow(base, layout[c], 0, m);
    history::lemma_places_grow(base, layout[c], m, layout[c].len() as int);
    lemma_scan_all(
        limit,
        checkpoint,
        layout,
        c,
        m,
        disk.segments,
        0,
        0,
        tail,
    );
    let first = recovery::unscanned(limit, checkpoint, bases);
    assert(first =~= recovery_at(limit, checkpoint, layout, 0, false, 0)) by {
        assert(history::segments_of(layout).take(0) =~= Seq::<SegmentView>::empty());
    }
    assert(history::segments_of(layout).take(n) =~= history::segments_of(layout));
    let last = history::segments_of(layout).last();
    let last_base = history::start(layout, n - 1) as u64;
    assert(last == history::segment_of(last_base, layout[n - 1]));
    history::lemma_place_ends(last_base, layout[n - 1]);
    assert(history::file_of(layout, n - 1).len() <= limit);
    if c == n - 2 {
        lemma_starts_differ(layout, limit, c, n - 1);
        assert(layout[n - 1].take(0) =~= layout[n - 1]);
    } else if m < layout[c].len() {
        assert(last.end != checkpoint.end);
    }
}

/// A disk that holds a layout, up to the beginning of a record behind it,
/// recovers to the layout's store, if its checkpoint is in the last segment or
/// at the end of the segment before a last one without records.
pub proof fn lemma_recovers(
    limit: u64,
    checkpoint: Checkpoint,
    layout: Layout,
    c: int,
    m: int,
    disk: Disk,
    bases: Seq<u64>,
    tail: Seq<u8>,
    offset: u64,
    payload: Seq<u8>,
)
    requires
        history::layout_fits(layout, limit),
        located(checkpoint, layout, c, m),
        holds(disk.segments, layout, tail),
        disk.checkpoint == checkpoint.image(),
        listed(disk.segments, bases),
        torn(tail, offset, payload),
        history::file_of(layout, layout.len() - 1).len() + tail.len() <= limit,
        c == layout.len() - 1 || (c == layout.len() - 2 && m == layout[c].len()
            && layout.last().len() == 0 && tail.len() == 0),
        checkpoint.generation < u64::MAX || (c == layout.len() - 1 && m == layout[c].len()),
    ensures
        ({
            let current = c == layout.len() - 1 && m == layout[c].len();
            recovered(limit, disk, bases) == Ok::<Recovered, Seq<char>>(
                Recovered {
                    store: history::store_of(
                        layout,
                        limit,
                        if current {
                            checkpoint.generation
                        } else {
                            (checkpoint.generation + 1) as u64
                        },
                    ),
                    cut: if tail.len() > 0 {
                        Some(history::file_of(layout, layout.len() - 1).len() as u64)
                    } else {
                        None
                    },
                    outdated: !current,
                },
            )
        }),
{
    torn_is_unfinished(tail, offset, payload);
    unfinished_record_is_cut_off(limit, checkpoint, layout, c, m, disk, bases, tail);
}

/// What is known of the segments of a layout is well formed.
pub proof fn lemma_segment_wf(layout: Layout, limit: u64, i: int)
    requires
        history::layout_fits(layout, limit),
        0 <= i < layout.len(),
    ensures
        history::segments_of(layout)[i].wf(limit),
        history::segments_of(layout)[i].end == history::start(layout, i + 1),
        history::segments_of(layout)[i].base == history::start(layout, i),
{
    let payloads = layout[i];
    let n = payloads.len() as int;
    let segment = history::segments_of(layout)[i];
    lemma_start_bound(layout, limit, i);
    lemma_start_bound(layout, limit, i + 1);
    let base = history::start(layout, i) as u64;
    assert(history::payloads_fit(payloads));
    assert(history::file_of(layout, i).len() <= limit);
    history::lemma_place_ends(base, payloads);
    history::lemma_places_grow(base, payloads, 0, n);
    history::lemma_index(base, payloads);
    assert forall|j: int| 0 <= j < segment.index.len() implies segment.base <= (
    #[trigger] segment.index[j]).0 < segment.end && SEGMENT_HEADER <= segment.index[j].1
        < segment.byte_end by {
        let k = j * INDEX_STEP;
        assert(history::index_of(base, payloads)[j].0 == base + k);
        history::lemma_record_place(base, payloads, k);
    }
}

/// The store of a layout is well formed.
pub proof fn lemma_store_wf(layout: Layout, limit: u64, generation: u64)
    requires
        history::layout_fits(layout, limit),
    ensures
        history::store_of(layout, limit, generation).wf(),
{
    let segments = history::segments_of(layout);
    let n = layout.len() as int;
    assert forall|i: int| 0 <= i < segments.len() implies (#[trigger] segments[i]).wf(limit) by {
        lemma_segment_wf(layout, limit, i);
    }
    assert forall|i: int, j: int| 0 <= i && j == i + 1 && j < segments.len() implies (
    #[trigger] segments[i]).end == (#[trigger] segments[j]).base && segments[i].base
        < segments[i].end by {
        lemma_segment_wf(layout, limit, i);
        lemma_segment_wf(layout, limit, j);
        assert(layout[i].len() > 0);
    }
    lemma_segment_wf(layout, limit, 0);
    lemma_segment_wf(layout, limit, n - 1);
}

/// Moving to a new segment adds a segment without records to the layout.
pub proof fn lemma_new_segment(layout: Layout, limit: u64, generation: u64)
    requires
        history::layout_fits(layout, limit),
        layout.last().len() > 0,
        layout.len() < MAX_SEGMENTS,
        generation < u64::MAX,
    ensures
        ({
            let more = layout.push(Seq::empty());
            &&& history::layout_fits(more, limit)
            &&& history::log_of(more) == history::log_of(layout)
            &&& appending::with_segment(history::store_of(layout, limit, generation))
                == history::store_of(more, limit, (generation + 1) as u64)
        }),
{
    let more = layout.push(Seq::empty());
    let n = layout.len() as int;
    assert forall|i: int| 0 <= i <= n implies history::start(more, i) == history::start(
        layout,
        i,
    ) by {
        history::lemma_start_prefix(more, layout, i);
    }
    assert(history::start(more, n + 1) == history::start(layout, n));
    lemma_start_bound(layout, limit, n);
    let base = history::start(layout, n) as u64;
    history::lemma_place_ends(base, Seq::empty());
    assert(Seq::<Seq<u8>>::empty().take(0) =~= Seq::<Seq<u8>>::empty());
    assert forall|i: int| 0 <= i < more.len() implies (#[trigger] history::file_of(more, i)).len()
        <= limit by {
        if i < n {
            assert(history::file_of(more, i) == history::file_of(layout, i));
        } else {
            assert(more[i] =~= Seq::<Seq<u8>>::empty());
        }
    }
    assert forall|i: int| 0 <= i < more.len() - 1 implies (#[trigger] more[i]).len() > 0 by {
        if i < n - 1 {
            assert(more[i] == layout[i]);
        } else {
            assert(more[i] == layout.last());
        }
    }
    assert forall|i: int| 0 <= i < more.len() implies history::payloads_fit(
        #[trigger] more[i],
    ) by {
        if i < n {
            assert(more[i] == layout[i]);
        }
    }
    assert(more.drop_last() =~= layout);
    assert(history::log_of(more) =~= history::log_of(layout));
    let s = appending::with_segment(history::store_of(layout, limit, generation));
    let t = history::store_of(more, limit, (generation + 1) as u64);
    assert(s.segments =~= t.segments) by {
        assert forall|i: int| 0 <= i < n implies s.segments[i] == t.segments[i] by {
            assert(more[i] == layout[i]);
        }
        assert(more[n] =~= Seq::<Seq<u8>>::empty());
        assert(history::segment_of(base, Seq::empty()) =~= crate::storage::empty_segment(base));
    }
    assert(s.checkpoint == t.checkpoint);
    assert(s =~= t);
}

/// A record adds its payload to the layout's last segment, and so to the end of
/// the log.
pub proof fn lemma_new_record(layout: Layout, limit: u64, generation: u64, payload: Seq<u8>)
    requires
        history::layout_fits(layout, limit),
        payload.len() <= MAX_PAYLOAD,
        history::start(layout, layout.len() as int) < u64::MAX,
        history::file_of(layout, layout.len() - 1).len() + RECORD_HEADER + payload.len() <= limit,
    ensures
        ({
            let more = history::with_payload(layout, payload);
            let n = layout.len() as int;
            &&& history::layout_fits(more, limit)
            &&& history::log_of(more) == history::log_of(layout).push(payload)
            &&& history::file_of(more, n - 1) == history::file_of(layout, n - 1)
                + crate::format::record_image(history::start(layout, n) as u64, payload)
            &&& forall|i: int|
                0 <= i < n ==> #[trigger] history::start(more, i) == history::start(layout, i)
            &&& forall|i: int| 0 <= i < n - 1 ==> #[trigger] more[i] == layout[i]
            &&& generation < u64::MAX ==> appending::with_record(
                history::store_of(layout, limit, generation),
                payload.len(),
            ) == history::store_of(more, limit, (generation + 1) as u64)
        }),
{
    let more = history::with_payload(layout, payload);
    let n = layout.len() as int;
    let last = layout.last();
    assert forall|i: int| 0 <= i < n implies #[trigger] history::start(more, i) == history::start(
        layout,
        i,
    ) by {
        history::lemma_start_prefix(more, layout, i);
    }
    assert forall|i: int| 0 <= i < n - 1 implies #[trigger] more[i] == layout[i] by {}
    assert(more[n - 1] == last.push(payload));
    assert(layout[n - 1] == last);
    assert(history::start(more, n - 1) == history::start(layout, n - 1));
    assert(history::start(more, n) == history::start(layout, n) + 1);
    lemma_start_bound(layout, limit, n);
    lemma_start_bound(layout, limit, n - 1);
    let base = history::start(layout, n - 1) as u64;
    history::lemma_push(base, last, payload);
    assert(history::payloads_fit(layout[n - 1]));
    assert forall|i: int| 0 <= i < more.len() implies (#[trigger] history::file_of(more, i)).len()
        <= limit by {
        if i < n - 1 {
            assert(history::file_of(more, i) == history::file_of(layout, i));
        }
    }
    assert forall|i: int| 0 <= i < more.len() implies history::payloads_fit(
        #[trigger] more[i],
    ) by {
        if i < n - 1 {
            assert(more[i] == layout[i]);
        } else {
            assert forall|k: int| 0 <= k < more[i].len() implies (#[trigger] more[i][k]).len()
                <= MAX_PAYLOAD by {
                if k < last.len() {
                    assert(more[i][k] == layout[n - 1][k]);
                }
            }
        }
    }
    assert(more.drop_last() =~= layout.drop_last());
    assert(history::log_of(more) =~= history::log_of(layout).push(payload));
    if generation < u64::MAX {
        let s = appending::with_record(
            history::store_of(layout, limit, generation),
            payload.len(),
        );
        let t = history::store_of(more, limit, (generation + 1) as u64);
        let old_last = history::segments_of(layout).last();
        assert(old_last == history::segment_of(base, last));
        assert(history::file_of(layout, n - 1).len() <= limit);
        assert(appending::grown(old_last, payload.len()) =~= history::segment_of(
            base,
            last.push(payload),
        ));
        assert(s.segments =~= t.segments);
        assert(s.checkpoint == t.checkpoint);
        assert(s =~= t);
    }
}

} // verus!
