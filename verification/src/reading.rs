//! What reading gives back: the records of the log, as they were appended.

use crate::bytes;
use crate::format::{MAX_PAYLOAD, RECORD_HEADER, SEGMENT_HEADER};
use crate::history;
use crate::history::{Layout, Payloads};
use crate::replay;
use crate::storage::paging;
use crate::storage::paging::{PageReadView, Place, ReadRequest};
use crate::storage::{PageView, StoreView};
use crate::text;
use vstd::prelude::*;

verus! {

/// A page with the records that follow on it in the log, as many as its limits
/// allow.
pub open spec fn gathered(log: Payloads, page: PageView, max_records: u32, max_bytes: u32)
    -> PageView
    decreases log.len() - page.next,
{
    if page.next >= log.len() || page.next == u64::MAX || page.records.len() >= max_records
        || paging::total(page.records) + RECORD_HEADER + log[page.next as int].len() > max_bytes {
        page
    } else {
        gathered(
            log,
            PageView {
                end: page.end,
                next: (page.next + 1) as u64,
                records: page.records.push(
                    crate::format::record_image(page.next, log[page.next as int]),
                ),
            },
            max_records,
            max_bytes,
        )
    }
}

/// The page of a log from `offset` on, or the error that its first record is
/// larger than all the room.
pub open spec fn page_of(log: Payloads, offset: u64, max_records: u32, max_bytes: u32) -> Result<
    PageView,
    Seq<char>,
> {
    completed(
        log,
        PageView { end: log.len() as u64, next: offset, records: Seq::empty() },
        max_records,
        max_bytes,
    )
}

/// A page with the records that follow on it, or the error that it has none and
/// the next one is larger than all the room.
pub open spec fn completed(log: Payloads, page: PageView, max_records: u32, max_bytes: u32)
    -> Result<PageView, Seq<char>> {
    if page.next < log.len() && page.records.len() == 0 && RECORD_HEADER
        + log[page.next as int].len() > max_bytes {
        Err(
            "buffer too small: requires "@ + text::decimal(
                (RECORD_HEADER + log[page.next as int].len()) as nat,
            ) + " bytes"@,
        )
    } else {
        Ok(gathered(log, page, max_records, max_bytes))
    }
}

/// Whether the segment files have the bytes that a read needs.
pub open spec fn has_bytes(files: Map<u64, Seq<u8>>, request: ReadRequest) -> bool {
    files.dom().contains(request.base) && request.position + request.length
        <= files[request.base].len()
}

/// A read after at most `n` file operations, each of which has given what the
/// segment files hold, or why it failed.
pub open spec fn run(store: StoreView, files: Map<u64, Seq<u8>>, r: PageReadView, n: nat) -> Result<
    PageReadView,
    Seq<char>,
>
    decreases n,
{
    match paging::needed(store, r) {
        None => Ok(r),
        Some(request) => if n == 0 {
            Ok(r)
        } else if !has_bytes(files, request) {
            Err("file missing or too short"@)
        } else {
            let bytes = files[request.base].subrange(
                request.position as int,
                request.position + request.length,
            );
            match paging::supplied(store, r, bytes) {
                Err(message) => Err(message),
                Ok(s) => run(store, files, s, (n - 1) as nat),
            }
        },
    }
}

/// Whether a read of a layout's store stands at the record number `j` of the
/// segment number `p.segment`.
pub open spec fn stands(layout: Layout, p: Place, j: int) -> bool {
    let base = history::start(layout, p.segment) as u64;
    let payloads = layout[p.segment];
    &&& 0 <= p.segment < layout.len()
    &&& 0 <= j < payloads.len()
    &&& p.current == base + j
    &&& p.position == history::record_place(base, payloads, j)
    &&& p.size matches Some(size) ==> size == RECORD_HEADER + payloads[j].len()
}

/// An index leads to the place of a record.
proof fn lemma_entry_place(base: u64, payloads: Payloads, n: int, next: u64)
    requires
        history::payloads_fit(payloads),
        payloads.len() > 0,
        base + payloads.len() <= u64::MAX,
        history::segment_file(base, payloads).len() <= u64::MAX,
        0 <= n <= history::index_of(base, payloads).len(),
    ensures
        ({
            let (current, position) = paging::entry(
                history::index_of(base, payloads).take(n),
                base,
                next,
            );
            &&& base <= current < base + payloads.len()
            &&& position == history::record_place(base, payloads, current - base)
        }),
    decreases n,
{
    let index = history::index_of(base, payloads);
    history::lemma_place_ends(base, payloads);
    history::lemma_index(base, payloads);
    if n > 0 {
        assert(index.take(n).last() == index[n - 1]);
        assert(index.take(n).drop_last() =~= index.take(n - 1));
        lemma_entry_place(base, payloads, n - 1, next);
    }
}

/// Where a read goes on is at a record of the layout.
proof fn lemma_goes_to(layout: Layout, limit: u64, generation: u64, from: int, next: u64) -> (j:
    int)
    requires
        history::layout_fits(layout, limit),
        0 <= from <= layout.len(),
        from > 0 ==> history::start(layout, from) <= next,
        next <= history::start(layout, layout.len() as int),
    ensures
        ({
            let store = history::store_of(layout, limit, generation);
            match paging::place_from(store.segments, from, next) {
                None => next == history::start(layout, layout.len() as int),
                Some(p) => stands(layout, p, j) && p.size is None && from <= p.segment && p.current
                    <= next < store.segments[p.segment].end,
            }
        }),
    decreases layout.len() - from,
{
    let store = history::store_of(layout, limit, generation);
    if from < layout.len() {
        let payloads = layout[from];
        replay::lemma_segment_wf(layout, limit, from);
        replay::lemma_start_bound(layout, limit, from);
        let base = history::start(layout, from) as u64;
        assert(history::file_of(layout, from).len() <= limit);
        assert(history::payloads_fit(payloads));
        if next < store.segments[from].end {
            let index = history::index_of(base, payloads);
            lemma_entry_place(base, payloads, index.len() as int, next);
            paging::lemma_entry(store.segments[from], limit, index.len() as int, next);
            assert(index.take(index.len() as int) =~= index);
            let (current, position) = paging::entry(index, base, next);
            current - base
        } else {
            lemma_goes_to(layout, limit, generation, from + 1, next)
        }
    } else {
        0
    }
}

/// What the segment file holds where a read stands: the record, whole.
proof fn lemma_stands(
    layout: Layout,
    limit: u64,
    files: Map<u64, Seq<u8>>,
    tail: Seq<u8>,
    p: Place,
    j: int,
)
    requires
        history::layout_fits(layout, limit),
        replay::holds(files, layout, tail),
        stands(layout, p, j),
    ensures
        ({
            let base = history::start(layout, p.segment) as u64;
            let file = files[base];
            let payload = layout[p.segment][j];
            let size = RECORD_HEADER + payload.len();
            let end = history::file_of(layout, p.segment).len();
            &&& payload.len() <= MAX_PAYLOAD
            &&& SEGMENT_HEADER <= p.position
            &&& p.position + size == history::record_place(base, layout[p.segment], j + 1)
            &&& files.dom().contains(base)
            &&& p.position + size <= end <= file.len()
            &&& file.subrange(p.position, p.position + size) == crate::format::record_image(
                p.current,
                payload,
            )
            &&& crate::storage::records::sized(
                file.subrange(p.position, p.position + RECORD_HEADER),
                p.position,
                end - p.position,
            ) == Ok::<Option<int>, Seq<char>>(Some(size))
            &&& crate::storage::records::whole(
                crate::format::record_image(p.current, payload),
                p.current,
            ) == Ok::<Seq<u8>, Seq<char>>(payload)
            &&& history::log_of(layout)[p.current as int] == payload
            &&& p.current < history::log_of(layout).len()
        }),
{
    let i = p.segment;
    let base = history::start(layout, i) as u64;
    let payloads = layout[i];
    let payload = payloads[j];
    let whole = history::file_of(layout, i);
    let file = files[base];
    replay::lemma_start_bound(layout, limit, i);
    assert(history::payloads_fit(payloads));
    assert(file.take(whole.len() as int) =~= whole && whole.len() <= file.len()) by {
        assert(files[history::start(layout, i) as u64].len() >= whole.len());
    }
    history::lemma_record_place(base, payloads, j);
    let there = p.position + RECORD_HEADER + payload.len();
    assert(file.subrange(p.position, there) =~= whole.subrange(p.position, there));
    crate::storage::records::lemma_finds_record(
        file,
        p.position,
        whole.len() as int,
        p.current,
        payload,
    );
    crate::storage::records::lemma_found_size(file, p.position, whole.len() as int, p.current);
    crate::format::record_roundtrip(p.current, payload, Seq::empty());
    let image = crate::format::record_image(p.current, payload);
    assert(image + Seq::<u8>::empty() =~= image);
    history::lemma_log_of(layout, i, j);
}

/// Where a read of a layout's store stands after the record that it stood at.
proof fn lemma_takes(
    layout: Layout,
    limit: u64,
    generation: u64,
    files: Map<u64, Seq<u8>>,
    tail: Seq<u8>,
    r: PageReadView,
    j: int,
) -> (k: int)
    requires
        history::layout_fits(layout, limit),
        replay::holds(files, layout, tail),
        ({
            let store = history::store_of(layout, limit, generation);
            &&& paging::read_wf(store, r)
            &&& r.at matches Some(p) && p.size is Some && stands(layout, p, j) && r.page.next
                < store.segments[p.segment].end
        }),
    ensures
        ({
            let store = history::store_of(layout, limit, generation);
            let log = history::log_of(layout);
            let p = r.at->Some_0;
            let payload = layout[p.segment][j];
            let image = crate::format::record_image(p.current, payload);
            match paging::taken(store, r, p, image) {
                Err(message) => completed(log, r.page, r.max_records, r.max_bytes) == Err::<
                    PageView,
                    Seq<char>,
                >(message),
                Ok(s) => {
                    &&& s.max_records == r.max_records
                    &&& s.max_bytes == r.max_bytes
                    &&& completed(log, r.page, r.max_records, r.max_bytes) == completed(
                        log,
                        s.page,
                        r.max_records,
                        r.max_bytes,
                    )
                    &&& match s.at {
                        None => completed(log, s.page, r.max_records, r.max_bytes) == Ok::<
                            PageView,
                            Seq<char>,
                        >(s.page),
                        Some(q) => stands(layout, q, k) && s.page.next
                            < store.segments[q.segment].end,
                    }
                },
            }
        }),
{
    let store = history::store_of(layout, limit, generation);
    let log = history::log_of(layout);
    let n = layout.len() as int;
    let p = r.at->Some_0;
    let i = p.segment;
    let payload = layout[i][j];
    let image = crate::format::record_image(p.current, payload);
    lemma_stands(layout, limit, files, tail, p, j);
    replay::lemma_segment_wf(layout, limit, i);
    replay::lemma_start_bound(layout, limit, i);
    replay::lemma_start_bound(layout, limit, n);
    history::lemma_log_len(layout);
    history::lemma_start_grows(layout, i + 1, n);
    crate::format::lemma_record_fields(p.current, payload);
    let kept = p.current >= r.page.next;
    let page = if kept {
        PageView {
            end: r.page.end,
            next: (p.current + 1) as u64,
            records: r.page.records.push(image),
        }
    } else {
        r.page
    };
    let fits = !kept || paging::total(r.page.records) + image.len() <= r.max_bytes;
    assert(fits ==> completed(log, r.page, r.max_records, r.max_bytes) == completed(
        log,
        page,
        r.max_records,
        r.max_bytes,
    ));
    assert(history::payloads_fit(layout[i]));
    if !fits || page.records.len() >= r.max_records {
        0
    } else if p.current + 1 < store.segments[i].end {
        let q = Place {
            segment: i,
            current: (p.current + 1) as u64,
            position: p.position + image.len(),
            size: None,
        };
        assert(stands(layout, q, j + 1));
        lemma_stands(layout, limit, files, tail, q, j + 1);
        j + 1
    } else {
        let k = lemma_goes_to(layout, limit, generation, i + 1, page.next);
        if let Some(q) = paging::place_from(store.segments, i + 1, page.next) {
            lemma_stands(layout, limit, files, tail, q, k);
            replay::lemma_segment_wf(layout, limit, q.segment);
        }
        k
    }
}

/// A read of a layout's store, fed with what the segment files hold, ends with
/// the page that the log gives.
proof fn lemma_reads_on(
    layout: Layout,
    limit: u64,
    generation: u64,
    files: Map<u64, Seq<u8>>,
    tail: Seq<u8>,
    r: PageReadView,
    j: int,
    n: nat,
)
    requires
        history::layout_fits(layout, limit),
        replay::holds(files, layout, tail),
        ({
            let store = history::store_of(layout, limit, generation);
            &&& paging::read_wf(store, r)
            &&& r.at matches Some(p) && stands(layout, p, j) && r.page.next
                < store.segments[p.segment].end
            &&& paging::operations_left(store, r) <= n
        }),
    ensures
        ({
            let store = history::store_of(layout, limit, generation);
            let log = history::log_of(layout);
            let end = run(store, files, r, n);
            match completed(log, r.page, r.max_records, r.max_bytes) {
                Err(message) => end == Err::<PageReadView, Seq<char>>(message),
                Ok(page) => end matches Ok(s) && s.at is None && s.page == page,
            }
        }),
    decreases n,
{
    let store = history::store_of(layout, limit, generation);
    let log = history::log_of(layout);
    let p = r.at->Some_0;
    let i = p.segment;
    let base = history::start(layout, i) as u64;
    let payload = layout[i][j];
    let file = files[base];
    lemma_stands(layout, limit, files, tail, p, j);
    replay::lemma_segment_wf(layout, limit, i);
    assert(history::file_of(layout, i).len() <= limit);
    assert(store.segments[i].byte_end == history::file_of(layout, i).len());
    paging::lemma_segment_order(store, i, i);
    let request = paging::needed(store, r)->Some_0;
    let bytes = file.subrange(request.position as int, request.position + request.length);
    paging::lemma_supplied(store, r, bytes);
    if p.size is None {
        let s = paging::supplied(store, r, bytes)->Ok_0;
        lemma_reads_on(layout, limit, generation, files, tail, s, j, (n - 1) as nat);
    } else {
        let k = lemma_takes(layout, limit, generation, files, tail, r, j);
        if let Ok(s) = paging::supplied(store, r, bytes) {
            if s.at is Some {
                lemma_reads_on(layout, limit, generation, files, tail, s, k, (n - 1) as nat);
            }
        }
    }
}

/// Reading gives back what was appended: a read of a store from a disk that
/// holds the store's layout ends, after no more file operations than it says,
/// with the records of the log from `offset` on, as many as the limits allow.
pub proof fn reading_gives_the_log(
    layout: Layout,
    limit: u64,
    generation: u64,
    files: Map<u64, Seq<u8>>,
    tail: Seq<u8>,
    offset: u64,
    max_records: u32,
    max_bytes: u32,
    n: nat,
)
    requires
        history::layout_fits(layout, limit),
        replay::holds(files, layout, tail),
        paging::read_refusal(
            history::store_of(layout, limit, generation),
            offset,
            max_records,
            max_bytes,
        ) is None,
        paging::begun(
            history::store_of(layout, limit, generation),
            offset,
            max_records,
            max_bytes,
        ) matches Ok(r) ==> paging::operations_left(
            history::store_of(layout, limit, generation),
            r,
        ) <= n,
    ensures
        ({
            let store = history::store_of(layout, limit, generation);
            let log = history::log_of(layout);
            &&& paging::begun(store, offset, max_records, max_bytes) is Ok
            &&& {
                let r = paging::begun(store, offset, max_records, max_bytes)->Ok_0;
                let end = run(store, files, r, n);
                match page_of(log, offset, max_records, max_bytes) {
                    Err(message) => end == Err::<PageReadView, Seq<char>>(message),
                    Ok(page) => end matches Ok(s) && s.at is None && s.page == page,
                }
            }
        }),
{
    let store = history::store_of(layout, limit, generation);
    let count = layout.len() as int;
    replay::lemma_store_wf(layout, limit, generation);
    replay::lemma_start_bound(layout, limit, count);
    history::lemma_log_len(layout);
    paging::lemma_begun(store, offset, max_records, max_bytes);
    let j = lemma_goes_to(layout, limit, generation, 0, offset);
    if let Some(p) = paging::place_from(store.segments, 0, offset) {
        lemma_stands(layout, limit, files, tail, p, j);
        replay::lemma_segment_wf(layout, limit, p.segment);
        assert(history::file_of(layout, p.segment).len() <= limit);
        let r = paging::begun(store, offset, max_records, max_bytes)->Ok_0;
        lemma_reads_on(layout, limit, generation, files, tail, r, j, n);
    }
}

/// Reading one record gives back the payload that was appended at its offset,
/// and nothing at the end of the log.
pub proof fn reading_one_record_gives_its_payload(log: Payloads, offset: u64)
    requires
        history::payloads_fit(log),
        offset <= log.len() <= u64::MAX,
    ensures
        ({
            let page = page_of(log, offset, 1, (MAX_PAYLOAD + RECORD_HEADER) as u32);
            &&& page is Ok
            &&& page->Ok_0.end == log.len()
            &&& offset == log.len() ==> page->Ok_0.records.len() == 0
            &&& offset < log.len() ==> page->Ok_0.records.len() == 1
                && page->Ok_0.records[0].skip(RECORD_HEADER as int) == log[offset as int]
                && page->Ok_0.next == offset + 1
        }),
{
    let max_bytes = (MAX_PAYLOAD + RECORD_HEADER) as u32;
    if offset < log.len() {
        let payload = log[offset as int];
        let image = crate::format::record_image(offset, payload);
        crate::format::lemma_record_fields(offset, payload);
        assert(image.skip(RECORD_HEADER as int) =~= image.subrange(24, 24int + payload.len()));
        reveal_with_fuel(gathered, 2);
    }
}

/// Whether the records of a page are those of the log from `offset` up to where
/// to read on from.
pub open spec fn follows(log: Payloads, page: PageView, offset: u64) -> bool {
    &&& offset + page.records.len() == page.next <= log.len()
    &&& forall|i: int|
        0 <= i < page.records.len() ==> #[trigger] page.records[i] == crate::format::record_image(
            (offset + i) as u64,
            log[offset + i],
        )
}

proof fn lemma_gathered(
    log: Payloads,
    page: PageView,
    offset: u64,
    max_records: u32,
    max_bytes: u32,
)
    requires
        history::payloads_fit(log),
        log.len() <= u64::MAX,
        follows(log, page, offset),
        page.records.len() <= max_records,
        paging::total(page.records) <= max_bytes,
    ensures
        ({
            let all = gathered(log, page, max_records, max_bytes);
            &&& follows(log, all, offset)
            &&& all.end == page.end
            &&& all.records.len() <= max_records
            &&& paging::total(all.records) <= max_bytes
            &&& all.next < log.len() ==> all.records.len() == max_records || paging::total(
                all.records,
            ) + RECORD_HEADER + log[all.next as int].len() > max_bytes
        }),
    decreases log.len() - page.next,
{
    if !(page.next >= log.len() || page.next == u64::MAX || page.records.len() >= max_records
        || paging::total(page.records) + RECORD_HEADER + log[page.next as int].len() > max_bytes) {
        let image = crate::format::record_image(page.next, log[page.next as int]);
        let more = PageView {
            end: page.end,
            next: (page.next + 1) as u64,
            records: page.records.push(image),
        };
        crate::format::lemma_record_fields(page.next, log[page.next as int]);
        assert(more.records.drop_last() =~= page.records);
        lemma_gathered(log, more, offset, max_records, max_bytes);
    }
}

/// The page of a log holds consecutive records from `offset` on, within the
/// limits, and leaves out the next one only where there is none or it would
/// exceed them.
pub proof fn page_holds_consecutive_records(
    log: Payloads,
    offset: u64,
    max_records: u32,
    max_bytes: u32,
)
    requires
        history::payloads_fit(log),
        offset <= log.len() <= u64::MAX,
        page_of(log, offset, max_records, max_bytes) is Ok,
    ensures
        ({
            let page = page_of(log, offset, max_records, max_bytes)->Ok_0;
            &&& page.end == log.len()
            &&& follows(log, page, offset)
            &&& page.records.len() <= max_records
            &&& paging::total(page.records) <= max_bytes
            &&& page.next < log.len() ==> page.records.len() == max_records || paging::total(
                page.records,
            ) + RECORD_HEADER + log[page.next as int].len() > max_bytes
        }),
{
    let page = PageView { end: log.len() as u64, next: offset, records: Seq::empty() };
    lemma_gathered(log, page, offset, max_records, max_bytes);
}

/// Whether a page holds nothing but whole records, the first at `offset` and the
/// others at the offsets that follow.
pub open spec fn holds_records(page: PageView, offset: u64) -> bool {
    &&& offset + page.records.len() == page.next
    &&& forall|i: int|
        0 <= i < page.records.len() ==> crate::format::decoded_record(
            #[trigger] page.records[i],
            (offset + i) as u64,
        ) == Ok::<Option<Seq<u8>>, Seq<char>>(Some(page.records[i].skip(RECORD_HEADER as int)))
}

/// Whether the size of the record that a read stands at is the one that the
/// segment file says.
pub open spec fn sized_by(store: StoreView, files: Map<u64, Seq<u8>>, r: PageReadView) -> bool {
    r.at matches Some(p) ==> (p.size matches Some(size) ==> {
        let file = files[store.segments[p.segment].base];
        let head = file.subrange(p.position, p.position + RECORD_HEADER);
        p.position + RECORD_HEADER <= file.len() && size == RECORD_HEADER + crate::format::field(
            head,
            8,
            4,
        )
    })
}

proof fn lemma_reads_records(
    store: StoreView,
    files: Map<u64, Seq<u8>>,
    r: PageReadView,
    offset: u64,
    n: nat,
)
    requires
        paging::read_wf(store, r),
        sized_by(store, files, r),
        holds_records(r.page, offset),
    ensures
        run(store, files, r, n) matches Ok(s) ==> holds_records(s.page, offset),
    decreases n,
{
    if let Some(request) = paging::needed(store, r) {
        if n > 0 && has_bytes(files, request) {
            let p = r.at->Some_0;
            let file = files[request.base];
            paging::lemma_segment_order(store, p.segment, p.segment);
            assert(store.segments[p.segment].wf(store.limit));
            let bytes = file.subrange(
                request.position as int,
                request.position + request.length,
            );
            paging::lemma_supplied(store, r, bytes);
            if let Ok(s) = paging::supplied(store, r, bytes) {
                if p.size is Some {
                    let head = file.subrange(p.position, p.position + RECORD_HEADER);
                    assert(bytes.subrange(8, 12) =~= head.subrange(8, 12));
                    assert(bytes.skip(RECORD_HEADER as int) =~= bytes.subrange(
                        24,
                        bytes.len() as int,
                    ));
                    if s.at is Some && p.current + 1 == store.segments[p.segment].end {
                        paging::lemma_place_from(store, p.segment + 1, s.page.next);
                    }
                }
                lemma_reads_records(store, files, s, offset, (n - 1) as nat);
            }
        }
    }
}

/// Whatever has become of the segment files, a read gives nothing but whole
/// records with their checksums, at the offsets from `offset` on.
pub proof fn only_records_are_read(
    store: StoreView,
    files: Map<u64, Seq<u8>>,
    offset: u64,
    max_records: u32,
    max_bytes: u32,
    n: nat,
)
    requires
        store.wf(),
        paging::begun(store, offset, max_records, max_bytes) is Ok,
    ensures
        run(
            store,
            files,
            paging::begun(store, offset, max_records, max_bytes)->Ok_0,
            n,
        ) matches Ok(s) ==> holds_records(s.page, offset),
{
    let r = paging::begun(store, offset, max_records, max_bytes)->Ok_0;
    paging::lemma_begun(store, offset, max_records, max_bytes);
    paging::lemma_place_from(store, 0, offset);
    lemma_reads_records(store, files, r, offset, n);
}

/// The records of the pages that a reader gets who begins at `offset` and goes
/// on from where each page ends, up to the end of the log or an error.
pub open spec fn all_pages(log: Payloads, offset: u64, max_records: u32, max_bytes: u32) -> Seq<
    Seq<u8>,
>
    decreases log.len() - offset,
{
    match page_of(log, offset, max_records, max_bytes) {
        Ok(page) => if offset < page.next <= log.len() {
            page.records + all_pages(log, page.next, max_records, max_bytes)
        } else {
            Seq::empty()
        },
        Err(_) => Seq::empty(),
    }
}

/// Every page moves a reader on until the end of the log, and the pages one
/// after the other hold every record once, in order, where there is room for
/// each record.
pub proof fn pages_cover_the_log(log: Payloads, offset: u64, max_records: u32, max_bytes: u32)
    requires
        history::payloads_fit(log),
        offset <= log.len() <= u64::MAX,
        max_records > 0,
        forall|i: int|
            offset <= i < log.len() ==> RECORD_HEADER + (#[trigger] log[i]).len() <= max_bytes,
    ensures
        page_of(log, offset, max_records, max_bytes) matches Ok(page) && (offset < log.len()
            ==> offset < page.next),
        all_pages(log, offset, max_records, max_bytes) == Seq::new(
            (log.len() - offset) as nat,
            |i: int| crate::format::record_image((offset + i) as u64, log[offset + i]),
        ),
    decreases log.len() - offset,
{
    let every = Seq::new(
        (log.len() - offset) as nat,
        |i: int| crate::format::record_image((offset + i) as u64, log[offset + i]),
    );
    let all = all_pages(log, offset, max_records, max_bytes);
    if offset < log.len() {
        assert(RECORD_HEADER + log[offset as int].len() <= max_bytes);
    }
    page_holds_consecutive_records(log, offset, max_records, max_bytes);
    let page = page_of(log, offset, max_records, max_bytes)->Ok_0;
    if offset < log.len() {
        assert(page.records.len() > 0);
        pages_cover_the_log(log, page.next, max_records, max_bytes);
    }
    assert(all =~= every);
}

/// Which reads a store refuses, in numbers, and what it says. No other read is
/// refused.
pub proof fn read_is_refused_by_numbers(
    store: StoreView,
    offset: u64,
    max_records: u32,
    max_bytes: u32,
)
    ensures
        ({
            let refusal = paging::read_refusal(store, offset, max_records, max_bytes);
            let valid = 1 <= max_records <= 1024 && 1 <= max_bytes <= 4 * 1024 * 1024;
            if store.failed {
                refusal == Some("store failed"@)
            } else if offset > store.checkpoint.end {
                refusal == Some("offset out of range"@)
            } else if !valid {
                refusal == Some("invalid read limits"@)
            } else {
                refusal is None
            }
        }),
{
}

/// Every read from within a log, for 1 to 1024 records and 1 byte to 4 mebibytes,
/// is taken on and ends with the page that the log gives.
pub proof fn every_valid_read_gives_the_log(
    layout: Layout,
    limit: u64,
    generation: u64,
    files: Map<u64, Seq<u8>>,
    tail: Seq<u8>,
    offset: u64,
    max_records: u32,
    max_bytes: u32,
    n: nat,
)
    requires
        history::layout_fits(layout, limit),
        replay::holds(files, layout, tail),
        offset <= history::log_of(layout).len(),
        1 <= max_records <= 1024,
        1 <= max_bytes <= 4 * 1024 * 1024,
        2 * history::log_of(layout).len() <= n,
    ensures
        ({
            let store = history::store_of(layout, limit, generation);
            let log = history::log_of(layout);
            &&& paging::begun(store, offset, max_records, max_bytes) matches Ok(r)
            &&& match page_of(log, offset, max_records, max_bytes) {
                Err(message) => run(store, files, r, n) == Err::<PageReadView, Seq<char>>(message),
                Ok(page) => run(store, files, r, n) matches Ok(s) && s.at is None && s.page == page,
            }
        }),
{
    let store = history::store_of(layout, limit, generation);
    history::lemma_log_len(layout);
    replay::lemma_start_bound(layout, limit, layout.len() as int);
    reading_gives_the_log(
        layout,
        limit,
        generation,
        files,
        tail,
        offset,
        max_records,
        max_bytes,
        n,
    );
}

/// The log gives a page unless its first record, of 24 bytes and the payload, is
/// larger than all the room, and then says how much room it needs.
pub proof fn page_is_refused_only_for_room(
    log: Payloads,
    offset: u64,
    max_records: u32,
    max_bytes: u32,
)
    ensures
        match page_of(log, offset, max_records, max_bytes) {
            Ok(_) => offset < log.len() ==> 24 + log[offset as int].len() <= max_bytes,
            Err(message) => offset < log.len() && 24 + log[offset as int].len() > max_bytes
                && message == "buffer too small: requires "@ + text::decimal(
                (24 + log[offset as int].len()) as nat,
            ) + " bytes"@,
        },
{
}

/// What a read makes of the bytes that it needed, said of the bytes themselves:
/// of a record's header its size, and of a whole record one more record of the
/// page, if it belongs there and there is room.
pub proof fn supply_is_judged_by_its_bytes(store: StoreView, r: PageReadView, bytes: Seq<u8>)
    requires
        r.at is Some,
    ensures
        ({
            let p = r.at->Some_0;
            let after = paging::supplied(store, r, bytes);
            let length = bytes::le_value(bytes.subrange(8, 12));
            let room = store.segments[p.segment].byte_end - p.position;
            match p.size {
                None => if bytes.take(8) != seq![0x4bu8, 0x4c, 0x47, 0x52, 1, 0, 0, 0] {
                    after == Err::<PageReadView, Seq<char>>(
                        "invalid record header at byte "@ + text::decimal(p.position as nat),
                    )
                } else if length > 1024 * 1024 {
                    after == Err::<PageReadView, Seq<char>>(
                        "oversized record at byte "@ + text::decimal(p.position as nat),
                    )
                } else if room < 24 + length {
                    after == Err::<PageReadView, Seq<char>>("incomplete protected record"@)
                } else {
                    after matches Ok(s) && s.page == r.page && s.at == Some(
                        Place { size: Some(24int + length), ..p },
                    )
                },
                Some(_) => match crate::format::decoded_record(bytes, p.current) {
                    Err(message) => after == Err::<PageReadView, Seq<char>>(message),
                    Ok(None) => after == Err::<PageReadView, Seq<char>>(
                        "incomplete complete-length record"@,
                    ),
                    Ok(Some(_)) => {
                        let wanted = p.current >= r.page.next;
                        let crowded = paging::total(r.page.records) + bytes.len() > r.max_bytes;
                        if wanted && crowded {
                            if r.page.records.len() == 0 {
                                after == Err::<PageReadView, Seq<char>>(
                                    "buffer too small: requires "@ + text::decimal(bytes.len())
                                        + " bytes"@,
                                )
                            } else {
                                after matches Ok(s) && s.page == r.page && s.at is None
                            }
                        } else {
                            match after {
                                Ok(s) => s.page == if wanted {
                                    PageView {
                                        end: r.page.end,
                                        next: (p.current + 1) as u64,
                                        records: r.page.records.push(bytes),
                                    }
                                } else {
                                    r.page
                                },
                                Err(message) => message == "incomplete protected record"@,
                            }
                        }
                    },
                },
            }
        }),
{
}

/// What a read asks for next: the header of the record that it stands at, and then
/// the whole record, and nothing when it is over.
pub proof fn reads_ask_for_one_record(store: StoreView, r: PageReadView)
    requires
        paging::read_wf(store, r),
    ensures
        match paging::needed(store, r) {
            None => r.at is None,
            Some(request) => r.at matches Some(p) && request.base == store.segments[p.segment].base
                && request.position == p.position && request.length == match p.size {
                None => 24,
                Some(size) => size,
            },
        },
{
    if let Some(p) = r.at {
        paging::lemma_segment_order(store, p.segment, p.segment);
        assert(store.segments[p.segment].wf(store.limit));
    }
}

/// The bytes of records together are the sum of the bytes of each.
pub proof fn total_adds_up(records: Seq<Seq<u8>>, i: int)
    requires
        0 <= i <= records.len(),
    ensures
        paging::total(Seq::empty()) == 0,
        paging::total(records) == paging::total(records.take(i)) + paging::total(records.skip(i)),
        i < records.len() ==> paging::total(records.take(i + 1)) == paging::total(records.take(i))
            + records[i].len(),
    decreases records.len(),
{
    if i < records.len() {
        assert(records.take(i + 1).drop_last() =~= records.take(i));
        total_adds_up(records.drop_last(), i);
        assert(records.drop_last().take(i) =~= records.take(i));
        assert(records.drop_last().skip(i) =~= records.skip(i).drop_last());
    } else {
        assert(records.take(i) =~= records);
        assert(records.skip(i) =~= Seq::<Seq<u8>>::empty());
    }
}

proof fn lemma_entry_near(base: u64, payloads: Payloads, n: int, next: u64)
    requires
        history::payloads_fit(payloads),
        base + payloads.len() <= u64::MAX,
        history::segment_file(base, payloads).len() <= u64::MAX,
        0 <= n <= history::index_of(base, payloads).len(),
        base <= next < base + payloads.len(),
        next < base + 64 * n,
    ensures
        paging::entry(history::index_of(base, payloads).take(n), base, next).0 <= next
            < paging::entry(history::index_of(base, payloads).take(n), base, next).0 + 64,
    decreases n,
{
    let index = history::index_of(base, payloads);
    history::lemma_index(base, payloads);
    let part = index.take(n);
    assert(part.last() == index[n - 1]);
    assert(part.drop_last() =~= index.take(n - 1));
    if part.last().0 > next {
        lemma_entry_near(base, payloads, n - 1, next);
    }
}

/// A read begins fewer than 64 records before the first one that it wants.
pub proof fn reads_begin_near_their_record(
    layout: Layout,
    limit: u64,
    generation: u64,
    from: int,
    offset: u64,
)
    requires
        history::layout_fits(layout, limit),
        0 <= from <= layout.len(),
        from > 0 ==> history::start(layout, from) <= offset,
    ensures
        paging::place_from(
            history::store_of(layout, limit, generation).segments,
            from,
            offset,
        ) matches Some(p) ==> p.current <= offset < p.current + 64,
    decreases layout.len() - from,
{
    let segments = history::store_of(layout, limit, generation).segments;
    if from < layout.len() {
        replay::lemma_segment_wf(layout, limit, from);
        if offset < segments[from].end {
            let base = history::start(layout, from) as u64;
            replay::lemma_start_bound(layout, limit, from);
            replay::lemma_start_bound(layout, limit, from + 1);
            let payloads = layout[from];
            let index = history::index_of(base, payloads);
            assert(history::payloads_fit(payloads));
            assert(history::file_of(layout, from).len() <= limit);
            history::lemma_index(base, payloads);
            assert(index.take(index.len() as int) =~= index);
            lemma_entry_near(base, payloads, index.len() as int, offset);
        } else {
            reads_begin_near_their_record(layout, limit, generation, from + 1, offset);
        }
    }
}

} // verus!
