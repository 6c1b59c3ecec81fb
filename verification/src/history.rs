//! The log as mathematics: payloads in segments, the files that hold them, and
//! the store that describes those files.

use crate::format::{Checkpoint, MAX_PAYLOAD, RECORD_HEADER, SEGMENT_HEADER};
use crate::storage::{SegmentView, StoreView, INDEX_STEP, MAX_SEGMENTS};
use vstd::prelude::*;

verus! {

/// The payloads of a segment.
pub type Payloads = Seq<Seq<u8>>;

/// The payloads of a log, segment by segment.
pub type Layout = Seq<Seq<Seq<u8>>>;

/// The bytes of records that follow each other from offset `base` on.
pub open spec fn records_image(base: nat, payloads: Payloads) -> Seq<u8>
    decreases payloads.len(),
{
    if payloads.len() == 0 {
        Seq::empty()
    } else {
        records_image(base, payloads.drop_last()) + crate::format::record_image(
            (base + payloads.len() - 1) as u64,
            payloads.last(),
        )
    }
}

/// The file of the segment `base` with those payloads.
pub open spec fn segment_file(base: u64, payloads: Payloads) -> Seq<u8> {
    crate::format::segment_image(base) + records_image(base as nat, payloads)
}

/// Where the record number `k` of a segment begins in its file.
pub open spec fn record_place(base: u64, payloads: Payloads, k: int) -> int {
    segment_file(base, payloads.take(k)).len() as int
}

/// The index of a segment: an entry for every record whose number is a multiple
/// of the index step.
pub open spec fn index_of(base: u64, payloads: Payloads) -> Seq<(u64, u64)>
    decreases payloads.len(),
{
    if payloads.len() == 0 {
        Seq::empty()
    } else {
        let before = payloads.drop_last();
        if before.len() % INDEX_STEP as nat == 0 {
            index_of(base, before).push(
                ((base + before.len()) as u64, segment_file(base, before).len() as u64),
            )
        } else {
            index_of(base, before)
        }
    }
}

/// What is known of the segment `base` with those payloads.
pub open spec fn segment_of(base: u64, payloads: Payloads) -> SegmentView {
    SegmentView {
        base,
        end: (base + payloads.len()) as u64,
        byte_end: segment_file(base, payloads).len() as u64,
        index: index_of(base, payloads),
    }
}

/// Whether every payload is within the limit for payloads.
pub open spec fn payloads_fit(payloads: Payloads) -> bool {
    forall|k: int| 0 <= k < payloads.len() ==> (#[trigger] payloads[k]).len() <= MAX_PAYLOAD
}

/// The offset of the first record of segment number `i`.
pub open spec fn start(layout: Layout, i: int) -> nat
    decreases i,
{
    if i <= 0 {
        0
    } else {
        start(layout, i - 1) + layout[i - 1].len()
    }
}

/// The payloads of a log in the order of their offsets.
pub open spec fn log_of(layout: Layout) -> Payloads
    decreases layout.len(),
{
    if layout.len() == 0 {
        Seq::empty()
    } else {
        log_of(layout.drop_last()) + layout.last()
    }
}

/// The file of segment number `i`.
pub open spec fn file_of(layout: Layout, i: int) -> Seq<u8> {
    segment_file(start(layout, i) as u64, layout[i])
}

/// Whether a store whose segments have at most `limit` bytes can have this
/// layout.
pub open spec fn layout_fits(layout: Layout, limit: u64) -> bool {
    &&& crate::storage::valid_limit(limit)
    &&& 1 <= layout.len() <= MAX_SEGMENTS
    &&& start(layout, layout.len() as int) <= u64::MAX
    &&& forall|i: int| 0 <= i < layout.len() ==> payloads_fit(#[trigger] layout[i])
    &&& forall|i: int| 0 <= i < layout.len() ==> (#[trigger] file_of(layout, i)).len() <= limit
    &&& forall|i: int| 0 <= i < layout.len() - 1 ==> (#[trigger] layout[i]).len() > 0
}

/// The segments of a layout.
pub open spec fn segments_of(layout: Layout) -> Seq<SegmentView> {
    Seq::new(layout.len(), |i: int| segment_of(start(layout, i) as u64, layout[i]))
}

/// The bases of a layout's segments.
pub open spec fn bases_of(layout: Layout) -> Seq<u64> {
    Seq::new(layout.len(), |i: int| start(layout, i) as u64)
}

/// The checkpoint at the end of a layout.
pub open spec fn checkpoint_of(layout: Layout, generation: u64) -> Checkpoint {
    let n = layout.len() as int;
    Checkpoint {
        generation,
        end: start(layout, n) as u64,
        base: start(layout, n - 1) as u64,
        byte_end: file_of(layout, n - 1).len() as u64,
    }
}

/// The store of a layout.
pub open spec fn store_of(layout: Layout, limit: u64, generation: u64) -> StoreView {
    StoreView {
        segments: segments_of(layout),
        checkpoint: checkpoint_of(layout, generation),
        limit,
        failed: false,
    }
}

/// A layout with one more record in its last segment.
pub open spec fn with_payload(layout: Layout, payload: Seq<u8>) -> Layout {
    layout.drop_last().push(layout.last().push(payload))
}

/// One more payload puts one more record behind the others.
pub proof fn lemma_push(base: u64, payloads: Payloads, payload: Seq<u8>)
    requires
        payload.len() <= MAX_PAYLOAD,
    ensures
        segment_file(base, payloads.push(payload)) == segment_file(base, payloads)
            + crate::format::record_image((base + payloads.len()) as u64, payload),
        segment_file(base, payloads.push(payload)).len() == segment_file(base, payloads).len()
            + RECORD_HEADER + payload.len(),
        index_of(base, payloads.push(payload)) == if payloads.len() % INDEX_STEP as nat == 0 {
            index_of(base, payloads).push(
                ((base + payloads.len()) as u64, segment_file(base, payloads).len() as u64),
            )
        } else {
            index_of(base, payloads)
        },
{
    let more = payloads.push(payload);
    assert(more.drop_last() =~= payloads);
    crate::format::lemma_record_fields((base + payloads.len()) as u64, payload);
    assert(segment_file(base, more) =~= segment_file(base, payloads) + crate::format::record_image(
        (base + payloads.len()) as u64,
        payload,
    ));
}

/// A segment's file begins with the file that its first records alone would
/// make.
pub proof fn lemma_prefix(base: u64, payloads: Payloads, k: int)
    requires
        payloads_fit(payloads),
        0 <= k <= payloads.len(),
    ensures
        segment_file(base, payloads.take(k)).len() <= segment_file(base, payloads).len(),
        segment_file(base, payloads).take(segment_file(base, payloads.take(k)).len() as int)
            == segment_file(base, payloads.take(k)),
    decreases payloads.len(),
{
    let all = segment_file(base, payloads);
    if k == payloads.len() {
        assert(payloads.take(k) =~= payloads);
        assert(all.take(all.len() as int) =~= all);
    } else {
        let before = payloads.drop_last();
        assert(before.take(k) =~= payloads.take(k));
        assert forall|j: int| 0 <= j < before.len() implies (#[trigger] before[j]).len()
            <= MAX_PAYLOAD by {
            assert(before[j] == payloads[j]);
        }
        lemma_prefix(base, before, k);
        assert(payloads.last() == payloads[payloads.len() - 1]);
        lemma_push(base, before, payloads.last());
        assert(before.push(payloads.last()) =~= payloads);
        let n = segment_file(base, payloads.take(k)).len() as int;
        assert(all.take(n) =~= segment_file(base, before).take(n));
    }
}

/// A record stands in its segment's file where the records before it end.
pub proof fn lemma_record_place(base: u64, payloads: Payloads, k: int)
    requires
        payloads_fit(payloads),
        0 <= k < payloads.len(),
    ensures
        SEGMENT_HEADER <= record_place(base, payloads, k),
        record_place(base, payloads, k + 1) == record_place(base, payloads, k) + RECORD_HEADER
            + payloads[k].len(),
        record_place(base, payloads, k + 1) <= segment_file(base, payloads).len(),
        segment_file(base, payloads).subrange(
            record_place(base, payloads, k),
            record_place(base, payloads, k + 1),
        ) == crate::format::record_image((base + k) as u64, payloads[k]),
{
    let all = segment_file(base, payloads);
    let head = segment_file(base, payloads.take(k));
    let more = segment_file(base, payloads.take(k + 1));
    crate::format::segment_roundtrip(base);
    lemma_prefix(base, payloads, k + 1);
    assert(payloads.take(k + 1) =~= payloads.take(k).push(payloads[k]));
    lemma_push(base, payloads.take(k), payloads[k]);
    let image = crate::format::record_image((base + k) as u64, payloads[k]);
    assert(all.subrange(head.len() as int, more.len() as int) =~= image) by {
        assert(all.take(more.len() as int) == more);
        assert(all.subrange(head.len() as int, more.len() as int) =~= more.subrange(
            head.len() as int,
            more.len() as int,
        ));
        crate::format::lemma_record_fields((base + k) as u64, payloads[k]);
    }
}

/// The first record begins behind the segment header, and where the last one
/// ends the file ends.
pub proof fn lemma_place_ends(base: u64, payloads: Payloads)
    ensures
        record_place(base, payloads, 0) == SEGMENT_HEADER,
        record_place(base, payloads, payloads.len() as int) == segment_file(base, payloads).len(),
{
    crate::format::segment_roundtrip(base);
    assert(payloads.take(payloads.len() as int) =~= payloads);
    assert(payloads.take(0) =~= Seq::<Seq<u8>>::empty());
    assert(records_image(base as nat, payloads.take(0)) =~= Seq::<u8>::empty());
}

/// Later records begin later.
pub proof fn lemma_places_grow(base: u64, payloads: Payloads, j: int, k: int)
    requires
        payloads_fit(payloads),
        0 <= j <= k <= payloads.len(),
    ensures
        record_place(base, payloads, j) + RECORD_HEADER * (k - j) <= record_place(
            base,
            payloads,
            k,
        ),
    decreases k - j,
{
    if j < k {
        lemma_places_grow(base, payloads, j, k - 1);
        lemma_record_place(base, payloads, k - 1);
    }
}

/// The entries of a segment's index are the places of the records that they
/// name.
pub proof fn lemma_index(base: u64, payloads: Payloads)
    requires
        payloads_fit(payloads),
        base + payloads.len() <= u64::MAX,
        segment_file(base, payloads).len() <= u64::MAX,
    ensures
        forall|i: int|
            #![trigger index_of(base, payloads)[i]]
            0 <= i < index_of(base, payloads).len() ==> {
                let k = i * INDEX_STEP;
                &&& k < payloads.len()
                &&& index_of(base, payloads)[i].0 == base + k
                &&& index_of(base, payloads)[i].1 == record_place(base, payloads, k)
            },
        payloads.len() <= INDEX_STEP * index_of(base, payloads).len() < payloads.len() + INDEX_STEP,
    decreases payloads.len(),
{
    if payloads.len() > 0 {
        let before = payloads.drop_last();
        let n = before.len() as int;
        assert forall|j: int| 0 <= j < n implies (#[trigger] before[j]).len() <= MAX_PAYLOAD by {
            assert(before[j] == payloads[j]);
        }
        assert(before =~= payloads.take(n));
        assert(segment_file(base, before).len() <= u64::MAX) by {
            lemma_prefix(base, payloads, n);
        }
        lemma_index(base, before);
        let index = index_of(base, payloads);
        let earlier = index_of(base, before);
        let entry = ((base + n) as u64, segment_file(base, before).len() as u64);
        let count = earlier.len() as int;
        assert(index == if n % INDEX_STEP as int == 0 {
            earlier.push(entry)
        } else {
            earlier
        });
        assert(n % INDEX_STEP as int == 0 ==> count * INDEX_STEP == n);
        assert forall|i: int|
            #![trigger index_of(base, payloads)[i]]
            0 <= i < index_of(base, payloads).len() implies {
            let k = i * INDEX_STEP;
            &&& k < payloads.len()
            &&& index_of(base, payloads)[i].0 == base + k
            &&& index_of(base, payloads)[i].1 == record_place(base, payloads, k)
        } by {
            let k = i * INDEX_STEP;
            if i < count {
                assert(index[i] == index_of(base, before)[i]);
                assert(before.take(k) =~= payloads.take(k));
            } else {
                assert(index[i] == entry);
            }
        }
    }
}

/// The record at an offset, found by segment.
pub proof fn lemma_log_of(layout: Layout, i: int, k: int)
    requires
        0 <= i < layout.len(),
        0 <= k < layout[i].len(),
    ensures
        start(layout, i) + k < log_of(layout).len(),
        log_of(layout)[start(layout, i) + k] == layout[i][k],
        log_of(layout).len() == start(layout, layout.len() as int),
    decreases layout.len(),
{
    let before = layout.drop_last();
    lemma_log_len(layout);
    lemma_start_prefix(layout, before, layout.len() - 1);
    if i < layout.len() - 1 {
        lemma_log_of(before, i, k);
        lemma_start_prefix(layout, before, i);
    } else {
        lemma_log_len(before);
    }
}

/// The log has as many records as the segments together.
pub proof fn lemma_log_len(layout: Layout)
    ensures
        log_of(layout).len() == start(layout, layout.len() as int),
    decreases layout.len(),
{
    if layout.len() > 0 {
        let before = layout.drop_last();
        lemma_log_len(before);
        lemma_start_prefix(layout, before, layout.len() - 1);
    }
}

/// Where a segment starts depends only on those before it.
pub proof fn lemma_start_prefix(a: Layout, b: Layout, i: int)
    requires
        i <= a.len(),
        i <= b.len(),
        forall|k: int| 0 <= k < i ==> a[k] == b[k],
    ensures
        start(a, i) == start(b, i),
    decreases i,
{
    if i > 0 {
        lemma_start_prefix(a, b, i - 1);
    }
}

/// Segments start in the order in which they stand.
pub proof fn lemma_start_grows(layout: Layout, i: int, j: int)
    requires
        0 <= i <= j <= layout.len(),
    ensures
        start(layout, i) <= start(layout, j),
    decreases j - i,
{
    if i < j {
        lemma_start_grows(layout, i, j - 1);
    }
}

/// Which layouts a store can have, in numbers: segments of 56 bytes to 64
/// mebibytes, 1 to 64 of them, all but the last with records, and payloads of at
/// most a mebibyte.
pub proof fn layouts_fit_by_numbers(layout: Layout, limit: u64)
    ensures
        crate::storage::valid_limit(limit) <==> 56 <= limit <= 64 * 1024 * 1024,
        layout_fits(layout, limit) <==> {
            &&& 56 <= limit <= 64 * 1024 * 1024
            &&& 1 <= layout.len() <= 64
            &&& start(layout, layout.len() as int) <= 0xffff_ffff_ffff_ffff
            &&& forall|i: int, k: int|
                0 <= i < layout.len() && 0 <= k < layout[i].len() ==> (
                #[trigger] layout[i][k]).len() <= 1024 * 1024
            &&& forall|i: int|
                0 <= i < layout.len() ==> (#[trigger] file_of(layout, i)).len() <= limit
            &&& forall|i: int| 0 <= i < layout.len() - 1 ==> (#[trigger] layout[i]).len() > 0
        },
{
    let fits = forall|i: int, k: int|
        0 <= i < layout.len() && 0 <= k < layout[i].len() ==> (#[trigger] layout[i][k]).len()
            <= 1024 * 1024;
    if fits {
        assert forall|i: int| 0 <= i < layout.len() implies payloads_fit(#[trigger] layout[i]) by {
            assert forall|k: int| 0 <= k < layout[i].len() implies (#[trigger] layout[i][k]).len()
                <= MAX_PAYLOAD by {}
        }
    }
    if forall|i: int| 0 <= i < layout.len() ==> payloads_fit(#[trigger] layout[i]) {
        assert forall|i: int, k: int| 0 <= i < layout.len() && 0 <= k < layout[i].len() implies (
        #[trigger] layout[i][k]).len() <= 1024 * 1024 by {
            assert(payloads_fit(layout[i]));
        }
    }
}

} // verus!
