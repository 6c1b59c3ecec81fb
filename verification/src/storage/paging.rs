//! Reading a page of records, one file operation at a time.
//!
//! [`Store::read_page`] begins a read. [`PageRead::request`] says which bytes
//! are needed next, [`PageRead::supply`] takes them, and when no more are needed
//! [`PageRead::page`] gives the page.

use super::records::{check_record, record_size};
use super::{invalid, refused, Invalid, Page, Segment, Store};
use super::{PageView, SegmentView, StoreView};
use crate::format::{MAX_PAYLOAD, RECORD_HEADER, SEGMENT_HEADER};
use crate::text;
use vstd::prelude::*;

verus! {

/// The most records that a page may have.
pub const MAX_PAGE_RECORDS: u32 = 1024;

/// The most bytes that the records of a page may have.
pub const MAX_PAGE_BYTES: u32 = 4 * 1024 * 1024;

/// A read that has begun.
pub struct PageRead {
    page: Page,
    max_records: u32,
    max_bytes: u32,
    reading: bool,
    segment: usize,
    current: u64,
    position: u64,
    size: Option<usize>,
}

/// Where a read stands: at the record `current`, which begins at byte
/// `position` of the segment number `segment`, and whose size is known once its
/// header has been read.
#[verifier::ext_equal]
pub struct Place {
    pub segment: int,
    pub current: u64,
    pub position: int,
    pub size: Option<int>,
}

/// A read: what it has gathered, its limits, and where it stands unless it is
/// over.
#[verifier::ext_equal]
pub struct PageReadView {
    pub page: PageView,
    pub max_records: u32,
    pub max_bytes: u32,
    pub at: Option<Place>,
}

impl View for PageRead {
    type V = PageReadView;

    closed spec fn view(&self) -> PageReadView {
        PageReadView {
            page: self.page@,
            max_records: self.max_records,
            max_bytes: self.max_bytes,
            at: if self.reading {
                Some(
                    Place {
                        segment: self.segment as int,
                        current: self.current,
                        position: self.position as int,
                        size: match self.size {
                            Some(size) => Some(size as int),
                            None => None,
                        },
                    },
                )
            } else {
                None
            },
        }
    }
}

/// The bytes that a read needs next: `length` of them, from byte `position` of
/// the file of the segment `base` on.
#[derive(Clone, Copy, Debug, PartialEq, Eq, Structural)]
pub struct ReadRequest {
    pub base: u64,
    pub position: u64,
    pub length: usize,
}

/// How many bytes records have in all.
pub open spec fn total(records: Seq<Seq<u8>>) -> nat
    decreases records.len(),
{
    if records.len() == 0 {
        0
    } else {
        total(records.drop_last()) + records.last().len()
    }
}

/// Where to begin in a segment to come to the record `next`: at the last index
/// entry that is not behind it, or at the segment's first record.
pub open spec fn entry(index: Seq<(u64, u64)>, base: u64, next: u64) -> (u64, u64)
    decreases index.len(),
{
    if index.len() == 0 {
        (base, SEGMENT_HEADER as u64)
    } else if index.last().0 <= next {
        index.last()
    } else {
        entry(index.drop_last(), base, next)
    }
}

/// Where a read goes on to come to the record `next`: in the first segment from
/// number `from` on that ends behind it.
pub open spec fn place_from(segments: Seq<SegmentView>, from: int, next: u64) -> Option<Place>
    decreases segments.len() - from,
{
    if from < 0 || from >= segments.len() {
        None
    } else if next < segments[from].end {
        let (current, position) = entry(segments[from].index, segments[from].base, next);
        Some(Place { segment: from, current, position: position as int, size: None })
    } else {
        place_from(segments, from + 1, next)
    }
}

/// A read, or the error that no whole header is left where it stands.
pub open spec fn with_room(store: StoreView, r: PageReadView) -> Result<PageReadView, Seq<char>> {
    match r.at {
        Some(p) => if store.segments[p.segment].byte_end - p.position < RECORD_HEADER {
            Err("incomplete protected record"@)
        } else {
            Ok(r)
        },
        None => Ok(r),
    }
}

/// Why a store refuses to read a page, if it does.
pub open spec fn read_refusal(store: StoreView, offset: u64, max_records: u32, max_bytes: u32)
    -> Option<Seq<char>> {
    if store.failed {
        Some("store failed"@)
    } else if offset > store.checkpoint.end {
        Some("offset out of range"@)
    } else if max_records == 0 || max_records > MAX_PAGE_RECORDS || max_bytes == 0 || max_bytes
        > MAX_PAGE_BYTES {
        Some("invalid read limits"@)
    } else {
        None
    }
}

/// A read of a page as it begins.
pub open spec fn begun(store: StoreView, offset: u64, max_records: u32, max_bytes: u32) -> Result<
    PageReadView,
    Seq<char>,
> {
    match read_refusal(store, offset, max_records, max_bytes) {
        Some(message) => Err(message),
        None => with_room(
            store,
            PageReadView {
                page: PageView { end: store.checkpoint.end, next: offset, records: Seq::empty() },
                max_records,
                max_bytes,
                at: place_from(store.segments, 0, offset),
            },
        ),
    }
}

/// A read after the record `p.current`, whose bytes are `bytes`: the record is
/// kept if it is not before the page's first one and there is room for it.
pub open spec fn taken(store: StoreView, r: PageReadView, p: Place, bytes: Seq<u8>) -> Result<
    PageReadView,
    Seq<char>,
> {
    if p.current >= r.page.next && total(r.page.records) + bytes.len() > r.max_bytes {
        if r.page.records.len() == 0 {
            Err("buffer too small: requires "@ + text::decimal(bytes.len()) + " bytes"@)
        } else {
            Ok(PageReadView { at: None, ..r })
        }
    } else {
        let page = if p.current >= r.page.next {
            PageView {
                end: r.page.end,
                next: (p.current + 1) as u64,
                records: r.page.records.push(bytes),
            }
        } else {
            r.page
        };
        let place = Place {
            segment: p.segment,
            current: (p.current + 1) as u64,
            position: p.position + bytes.len(),
            size: None,
        };
        let at = if page.records.len() >= r.max_records {
            None
        } else if place.current < store.segments[p.segment].end {
            Some(place)
        } else {
            place_from(store.segments, p.segment + 1, page.next)
        };
        with_room(store, PageReadView { page, at, ..r })
    }
}

/// A read after the bytes that it needed.
pub open spec fn supplied(store: StoreView, r: PageReadView, bytes: Seq<u8>) -> Result<
    PageReadView,
    Seq<char>,
> {
    let p = r.at->Some_0;
    match p.size {
        None => match super::records::sized(
            bytes,
            p.position,
            store.segments[p.segment].byte_end - p.position,
        ) {
            Err(message) => Err(message),
            Ok(None) => Err("incomplete protected record"@),
            Ok(Some(size)) => Ok(PageReadView { at: Some(Place { size: Some(size), ..p }), ..r }),
        },
        Some(size) => match super::records::whole(bytes, p.current) {
            Err(message) => Err(message),
            Ok(_) => taken(store, r, p, bytes),
        },
    }
}

/// The bytes that a read needs next.
pub open spec fn needed(store: StoreView, r: PageReadView) -> Option<ReadRequest> {
    match r.at {
        None => None,
        Some(p) => Some(
            ReadRequest {
                base: store.segments[p.segment].base,
                position: p.position as u64,
                length: match p.size {
                    None => RECORD_HEADER,
                    Some(size) => size as usize,
                },
            },
        ),
    }
}

/// Whether a read stands where a read of this store can stand.
pub open spec fn read_wf(store: StoreView, r: PageReadView) -> bool {
    &&& store.wf()
    &&& 1 <= r.max_records <= MAX_PAGE_RECORDS
    &&& 1 <= r.max_bytes <= MAX_PAGE_BYTES
    &&& r.page.records.len() <= r.max_records
    &&& total(r.page.records) <= r.max_bytes
    &&& forall|i: int|
        0 <= i < r.page.records.len() ==> RECORD_HEADER <= (#[trigger] r.page.records[i]).len()
    &&& match r.at {
        None => true,
        Some(p) => {
            let segment = store.segments[p.segment];
            &&& 0 <= p.segment < store.segments.len()
            &&& r.page.records.len() < r.max_records
            &&& segment.base <= p.current <= r.page.next
            &&& p.current < segment.end
            &&& SEGMENT_HEADER <= p.position
            &&& match p.size {
                None => p.position + RECORD_HEADER <= segment.byte_end,
                Some(size) => RECORD_HEADER <= size <= RECORD_HEADER + MAX_PAYLOAD && p.position
                    + size <= segment.byte_end,
            }
        },
    }
}

/// How many file operations a read needs at most from where it stands.
pub open spec fn operations_left(store: StoreView, r: PageReadView) -> int {
    match r.at {
        None => 0,
        Some(p) => 2 * (store.checkpoint.end - p.current) - if p.size is Some {
            1int
        } else {
            0
        },
    }
}

/// Segments end in the order in which they stand.
pub proof fn lemma_segment_order(store: StoreView, i: int, j: int)
    requires
        store.wf(),
        0 <= i <= j < store.segments.len(),
    ensures
        store.segments[i].end <= store.segments[j].end,
        i < j ==> store.segments[i].end <= store.segments[j].base,
        store.segments[j].end <= store.checkpoint.end,
    decreases store.segments.len() - i, j - i,
{
    let n = store.segments.len() as int;
    if i < j {
        lemma_segment_order(store, i, j - 1);
        assert(store.segments[j - 1].end == store.segments[j].base);
        assert(store.segments[j].wf(store.limit));
    }
    if j < n - 1 {
        if i < j {
            lemma_segment_order(store, j, j);
        } else {
            assert(store.segments[j].end == store.segments[j + 1].base);
            assert(store.segments[j + 1].wf(store.limit));
            lemma_segment_order(store, j + 1, j + 1);
        }
    }
}

/// An index entry leads to a record of the segment that is not behind `next`.
pub proof fn lemma_entry(segment: SegmentView, limit: u64, n: int, next: u64)
    requires
        segment.wf(limit),
        0 <= n <= segment.index.len(),
        segment.base <= next < segment.end,
    ensures
        ({
            let (current, position) = entry(segment.index.take(n), segment.base, next);
            &&& segment.base <= current <= next
            &&& SEGMENT_HEADER <= position <= segment.byte_end
        }),
    decreases n,
{
    if n > 0 {
        let index = segment.index.take(n);
        assert(index.last() == segment.index[n - 1]);
        assert(index.drop_last() =~= segment.index.take(n - 1));
        lemma_entry(segment, limit, n - 1, next);
    }
}

/// Where a read goes on is in a segment that holds the record `next`.
pub proof fn lemma_place_from(store: StoreView, from: int, next: u64)
    requires
        store.wf(),
        0 <= from <= store.segments.len(),
        from > 0 ==> store.segments[from - 1].end <= next,
    ensures
        match place_from(store.segments, from, next) {
            None => from < store.segments.len() ==> next >= store.checkpoint.end,
            Some(p) => {
                let segment = store.segments[p.segment];
                &&& from <= p.segment < store.segments.len()
                &&& p.size is None
                &&& segment.base <= p.current <= next < segment.end
                &&& SEGMENT_HEADER <= p.position <= segment.byte_end
            },
        },
    decreases store.segments.len() - from,
{
    if from < store.segments.len() {
        let segment = store.segments[from];
        assert(segment.wf(store.limit));
        if next < segment.end {
            if from > 0 {
                assert(store.segments[from - 1].end == segment.base);
            }
            lemma_entry(segment, store.limit, segment.index.len() as int, next);
            assert(segment.index.take(segment.index.len() as int) =~= segment.index);
        } else {
            lemma_place_from(store, from + 1, next);
            if from + 1 == store.segments.len() {
                assert(segment == store.segments.last());
            }
        }
    }
}

/// A read begins where a read can stand.
pub proof fn lemma_begun(store: StoreView, offset: u64, max_records: u32, max_bytes: u32)
    requires
        store.wf(),
    ensures
        begun(store, offset, max_records, max_bytes) matches Ok(r) ==> read_wf(store, r),
{
    lemma_place_from(store, 0, offset);
}

/// The bytes that a read needed bring it to where a read can stand, and nearer
/// to its end.
pub proof fn lemma_supplied(store: StoreView, r: PageReadView, bytes: Seq<u8>)
    requires
        read_wf(store, r),
        needed(store, r) matches Some(request) && bytes.len() == request.length,
    ensures
        supplied(store, r, bytes) matches Ok(s) ==> read_wf(store, s) && 0 <= operations_left(
            store,
            s,
        ) < operations_left(store, r),
{
    let p = r.at->Some_0;
    let segment = store.segments[p.segment];
    lemma_segment_order(store, p.segment, p.segment);
    if let Ok(s) = supplied(store, r, bytes) {
        if p.size is Some && s.at is Some {
            let q = s.at->Some_0;
            let next = s.page.next;
            if p.current + 1 == segment.end {
                lemma_place_from(store, p.segment + 1, next);
                lemma_segment_order(store, p.segment, q.segment);
            }
            lemma_segment_order(store, q.segment, q.segment);
        }
        if p.size is Some {
            assert(r.page.records.push(bytes).drop_last() =~= r.page.records);
        }
    }
}

/// How many bytes records have in all.
fn total_bytes(records: &Vec<Vec<u8>>, max: usize) -> (sum: usize)
    requires
        total(records@.map_values(|r: Vec<u8>| r@)) <= max,
    ensures
        sum == total(records@.map_values(|r: Vec<u8>| r@)),
{
    let ghost views = records@.map_values(|r: Vec<u8>| r@);
    let mut sum: usize = 0;
    let mut i: usize = 0;
    while i < records.len()
        invariant
            i <= records@.len(),
            views == records@.map_values(|r: Vec<u8>| r@),
            total(views) <= max,
            sum == total(views.take(i as int)),
        decreases records@.len() - i,
    {
        proof {
            assert(views.take(i + 1).drop_last() =~= views.take(i as int));
            lemma_total_grows(views, i + 1);
        }
        sum = sum + records[i].len();
        i += 1;
    }
    assert(views.take(views.len() as int) =~= views);
    sum
}

proof fn lemma_total_grows(records: Seq<Seq<u8>>, n: int)
    requires
        0 <= n <= records.len(),
    ensures
        total(records.take(n)) <= total(records),
    decreases records.len(),
{
    if n < records.len() {
        lemma_total_grows(records.drop_last(), n);
        assert(records.drop_last().take(n) =~= records.take(n));
    } else {
        assert(records.take(n) =~= records);
    }
}

impl Segment {
    /// Where to begin in the segment to come to the record `next`.
    fn entry(&self, next: u64) -> (found: (u64, u64))
        ensures
            found == entry(self@.index, self@.base, next),
    {
        let mut n: usize = self.index.len();
        assert(self.index@.take(n as int) =~= self.index@);
        while n > 0
            invariant
                n <= self.index@.len(),
                self@.index == self.index@,
                entry(self@.index, self@.base, next) == entry(
                    self.index@.take(n as int),
                    self@.base,
                    next,
                ),
            decreases n,
        {
            let (offset, position) = self.index[n - 1];
            assert(self.index@.take(n as int).drop_last() =~= self.index@.take(n - 1));
            if offset <= next {
                return (offset, position);
            }
            n -= 1;
        }
        (self.base, SEGMENT_HEADER as u64)
    }
}

impl Store {
    /// Begins to read records from `offset` on: at most `max_records` of them,
    /// with at most `max_bytes` bytes in all.
    pub fn read_page(&self, offset: u64, max_records: u32, max_bytes: u32) -> (r: Result<
        PageRead,
        Invalid,
    >)
        requires
            self@.wf(),
        ensures
            match begun(self@, offset, max_records, max_bytes) {
                Ok(read) => r matches Ok(p) && p@ == read && read_wf(self@, read),
                Err(message) => r matches Err(e) && e@ == message,
            },
    {
        if self.failed {
            return Err(refused("store failed"));
        }
        if offset > self.checkpoint.end {
            return Err(refused("offset out of range"));
        }
        if max_records == 0 || max_records > MAX_PAGE_RECORDS || max_bytes == 0 || max_bytes
            > MAX_PAGE_BYTES {
            return Err(refused("invalid read limits"));
        }
        proof {
            lemma_begun(self@, offset, max_records, max_bytes);
            lemma_place_from(self@, 0, offset);
        }
        let place = self.place(0, offset);
        let (reading, segment, current, position) = match place {
            Some((segment, current, position)) => {
                if !self.has_room(segment, position) {
                    return Err(refused("incomplete protected record"));
                }
                (true, segment, current, position)
            },
            None => (false, 0usize, 0u64, 0u64),
        };
        let read = PageRead {
            page: Page { end: self.checkpoint.end, next: offset, records: Vec::new() },
            max_records,
            max_bytes,
            reading,
            segment,
            current,
            position,
            size: None,
        };
        assert(read@.page.records =~= Seq::<Seq<u8>>::empty());
        Ok(read)
    }

    /// Where a read goes on to come to the record `next`: the number of the
    /// segment, the record to begin with and its place.
    fn place(&self, from: usize, next: u64) -> (place: Option<(usize, u64, u64)>)
        requires
            from <= self@.segments.len(),
        ensures
            match place_from(self@.segments, from as int, next) {
                Some(p) => place matches Some((segment, current, position)) && p == (Place {
                    segment: segment as int,
                    current,
                    position: position as int,
                    size: None,
                }),
                None => place is None,
            },
    {
        let mut i: usize = from;
        while i < self.segments.len()
            invariant
                i <= self.segments@.len(),
                self@.segments.len() == self.segments@.len(),
                place_from(self@.segments, from as int, next) == place_from(
                    self@.segments,
                    i as int,
                    next,
                ),
            decreases self.segments@.len() - i,
        {
            let segment = &self.segments[i];
            assert(segment@ == self@.segments[i as int]);
            if next < segment.end {
                let (current, position) = segment.entry(next);
                return Some((i, current, position));
            }
            i += 1;
        }
        None
    }

    /// Whether a whole header is left from a place in a segment on.
    fn has_room(&self, segment: usize, position: u64) -> (room: bool)
        requires
            segment < self@.segments.len(),
            position <= self@.segments[segment as int].byte_end,
        ensures
            room == (self@.segments[segment as int].byte_end - position >= RECORD_HEADER),
    {
        let segment = &self.segments[segment];
        segment.byte_end - position >= RECORD_HEADER as u64
    }

    /// Begins to read the one record at `offset`.
    pub fn read(&self, offset: u64) -> (r: Result<PageRead, Invalid>)
        requires
            self@.wf(),
        ensures
            match begun(self@, offset, 1, (MAX_PAYLOAD + RECORD_HEADER) as u32) {
                Ok(read) => r matches Ok(p) && p@ == read && read_wf(self@, read),
                Err(message) => r matches Err(e) && e@ == message,
            },
    {
        self.read_page(offset, 1, (MAX_PAYLOAD + RECORD_HEADER) as u32)
    }
}

impl PageRead {
    /// The bytes that the read needs next, or `None` when it is over.
    pub fn request(&self, store: &Store) -> (request: Option<ReadRequest>)
        requires
            read_wf(store@, self@),
        ensures
            request == needed(store@, self@),
    {
        if !self.reading {
            return None;
        }
        let segment = &store.segments[self.segment];
        assert(segment@ == store@.segments[self.segment as int]);
        Some(
            ReadRequest {
                base: segment.base,
                position: self.position,
                length: match self.size {
                    Some(size) => size,
                    None => RECORD_HEADER,
                },
            },
        )
    }

    /// Takes the bytes that the read needed.
    pub fn supply(&mut self, store: &Store, bytes: &[u8]) -> (r: Result<(), Invalid>)
        requires
            read_wf(store@, old(self)@),
            needed(store@, old(self)@) matches Some(request) && bytes@.len() == request.length,
        ensures
            match supplied(store@, old(self)@, bytes@) {
                Ok(read) => r is Ok && final(self)@ == read && read_wf(store@, read)
                    && operations_left(store@, read) < operations_left(store@, old(self)@),
                Err(message) => r matches Err(e) && e@ == message && final(self)@ == old(self)@,
            },
    {
        proof {
            lemma_supplied(store@, self@, bytes@);
            lemma_segment_order(store@, self.segment as int, self.segment as int);
        }
        let segment = &store.segments[self.segment];
        assert(segment@ == store@.segments[self.segment as int]);
        match self.size {
            None => {
                let room: u64 = segment.byte_end - self.position;
                match record_size(bytes, self.position, room) {
                    Ok(Some(size)) => {
                        self.size = Some(size);
                        Ok(())
                    },
                    Ok(None) => Err(refused("incomplete protected record")),
                    Err(e) => Err(e),
                }
            },
            Some(size) => {
                match check_record(bytes, self.current) {
                    Ok(()) => {},
                    Err(e) => {
                        return Err(e);
                    },
                }
                self.take(store, bytes)
            },
        }
    }

    /// Keeps the record that the read stands at, if it belongs to the page, and
    /// goes on.
    fn take(&mut self, store: &Store, bytes: &[u8]) -> (r: Result<(), Invalid>)
        requires
            read_wf(store@, old(self)@),
            old(self)@.at matches Some(p) && p.size == Some(bytes@.len() as int),
        ensures
            match taken(store@, old(self)@, old(self)@.at->Some_0, bytes@) {
                Ok(read) => r is Ok && final(self)@ == read,
                Err(message) => r matches Err(e) && e@ == message && final(self)@ == old(self)@,
            },
    {
        let ghost start = self@;
        let ghost p = start.at->Some_0;
        proof {
            lemma_segment_order(store@, p.segment, p.segment);
        }
        let kept: bool = self.current >= self.page.next;
        if kept {
            let used: usize = total_bytes(&self.page.records, self.max_bytes as usize);
            if used + bytes.len() > self.max_bytes as usize {
                if self.page.records.len() == 0 {
                    let message = text::with_number(
                        "buffer too small: requires ",
                        bytes.len() as u64,
                        " bytes",
                    );
                    return Err(invalid(message));
                }
                self.reading = false;
                return Ok(());
            }
        }
        let next: u64 = if kept {
            self.current + 1
        } else {
            self.page.next
        };
        let count: usize = if kept {
            self.page.records.len() + 1
        } else {
            self.page.records.len()
        };
        let segment = &store.segments[self.segment];
        assert(segment@ == store@.segments[self.segment as int]);
        let place = if count >= self.max_records as usize {
            None
        } else if self.current + 1 < segment.end {
            Some((self.segment, self.current + 1, self.position + bytes.len() as u64))
        } else {
            proof {
                lemma_place_from(store@, p.segment + 1, next);
            }
            store.place(self.segment + 1, next)
        };
        match place {
            Some((number, current, position)) => {
                if !store.has_room(number, position) {
                    return Err(refused("incomplete protected record"));
                }
                self.segment = number;
                self.current = current;
                self.position = position;
                self.size = None;
            },
            None => {
                self.reading = false;
            },
        }
        if kept {
            let mut record: Vec<u8> = Vec::new();
            crate::bytes::push_all(&mut record, bytes);
            assert(record@ =~= bytes@);
            self.page.records.push(record);
            self.page.next = next;
            assert(self@.page.records =~= start.page.records.push(bytes@));
        }
        Ok(())
    }

    /// The page, once the read is over.
    pub fn page(self) -> (page: Page)
        ensures
            page@ == self@.page,
    {
        self.page
    }

    /// The payload of the page's first record, once the read is over.
    pub fn payload(self) -> (payload: Option<Vec<u8>>)
        requires
            forall|i: int|
                0 <= i < self@.page.records.len() ==> RECORD_HEADER <= (
                #[trigger] self@.page.records[i]).len(),
        ensures
            match payload {
                Some(bytes) => self@.page.records.len() > 0 && bytes@
                    == self@.page.records[0].skip(RECORD_HEADER as int),
                None => self@.page.records.len() == 0,
            },
    {
        if self.page.records.len() == 0 {
            return None;
        }
        assert(self@.page.records[0] == self.page.records@[0]@);
        let record = &self.page.records[0];
        Some(crate::bytes::copy_range(record.as_slice(), RECORD_HEADER, record.len()))
    }
}

} // verus!
