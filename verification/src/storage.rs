//! The log on disk, as decisions about files.
//!
//! A store is a directory of segment files and one checkpoint file. The code
//! here never touches a file: it says which file to write or read next, is told
//! what came of it, and keeps the store's state.

use crate::bytes;
use crate::format::{Checkpoint, RECORD_HEADER, SEGMENT_HEADER};
use crate::text;
use vstd::prelude::*;
use vstd::string::*;

pub mod appending;
pub mod paging;
pub mod records;
pub mod recovery;

verus! {

/// The most bytes that a segment may have.
pub const DEFAULT_SEGMENT_LIMIT: u64 = 64 * 1024 * 1024;

/// The most segments that a store may have.
pub const MAX_SEGMENTS: usize = 64;

/// A segment's index has an entry for every record whose place in the segment
/// is a multiple of this.
pub const INDEX_STEP: u64 = 64;

/// Why a store, or a request to it, is invalid.
#[derive(Debug)]
pub struct Invalid {
    pub message: String,
}

impl View for Invalid {
    type V = Seq<char>;

    open spec fn view(&self) -> Seq<char> {
        self.message@
    }
}

/// The error that `message` describes.
pub fn invalid(message: String) -> (e: Invalid)
    ensures
        e@ == message@,
{
    Invalid { message }
}

/// The error that a constant text describes.
pub(crate) fn refused(message: &str) -> (e: Invalid)
    ensures
        e@ == message@,
{
    invalid(message.to_owned())
}

/// The name of the file of the segment whose first record has offset `base`.
pub open spec fn segment_name(base: u64) -> Seq<char> {
    text::padded(base as nat, 20) + ".log"@
}

/// The name that the file of a new segment has until it is complete.
pub open spec fn temporary_segment_name(base: u64) -> Seq<char> {
    text::padded(base as nat, 20) + ".tmp"@
}

/// The name of the file of the segment whose first record has offset `base`.
pub fn name(base: u64) -> (s: String)
    ensures
        s@ == segment_name(base),
{
    let mut s: String = String::new();
    text::push_padded(&mut s, base, 20);
    s.append(".log");
    assert(s@ =~= segment_name(base));
    s
}

/// The name that the file of a new segment has until it is complete.
pub fn temporary_name(base: u64) -> (s: String)
    ensures
        s@ == temporary_segment_name(base),
{
    let mut s: String = String::new();
    text::push_padded(&mut s, base, 20);
    s.append(".tmp");
    assert(s@ =~= temporary_segment_name(base));
    s
}

/// What is known of a segment.
pub struct Segment {
    base: u64,
    end: u64,
    byte_end: u64,
    index: Vec<(u64, u64)>,
}

/// A segment: the offsets of its first record and of the record after its last
/// one, its bytes, and the offsets and places of the indexed records.
#[verifier::ext_equal]
pub struct SegmentView {
    pub base: u64,
    pub end: u64,
    pub byte_end: u64,
    pub index: Seq<(u64, u64)>,
}

impl SegmentView {
    pub open spec fn wf(self, limit: u64) -> bool {
        &&& self.base <= self.end
        &&& SEGMENT_HEADER + RECORD_HEADER * (self.end - self.base) <= self.byte_end <= limit
        &&& self.base == self.end ==> self.byte_end == SEGMENT_HEADER
        &&& forall|i: int|
            0 <= i < self.index.len() ==> self.base <= (#[trigger] self.index[i]).0 < self.end
                && SEGMENT_HEADER <= self.index[i].1 < self.byte_end
    }
}

/// A segment without records.
pub open spec fn empty_segment(base: u64) -> SegmentView {
    SegmentView { base, end: base, byte_end: SEGMENT_HEADER as u64, index: Seq::empty() }
}

impl View for Segment {
    type V = SegmentView;

    closed spec fn view(&self) -> SegmentView {
        SegmentView {
            base: self.base,
            end: self.end,
            byte_end: self.byte_end,
            index: self.index@,
        }
    }
}

/// The views of segments.
pub open spec fn segment_views(segments: Seq<Segment>) -> Seq<SegmentView> {
    segments.map_values(|s: Segment| s@)
}

/// A page of records: the log's end, the offset to read on from, and the
/// records, each with its header.
pub struct Page {
    pub end: u64,
    pub next: u64,
    pub records: Vec<Vec<u8>>,
}

/// A page of records, with the bytes of each.
#[verifier::ext_equal]
pub struct PageView {
    pub end: u64,
    pub next: u64,
    pub records: Seq<Seq<u8>>,
}

impl View for Page {
    type V = PageView;

    open spec fn view(&self) -> PageView {
        PageView {
            end: self.end,
            next: self.next,
            records: self.records@.map_values(|r: Vec<u8>| r@),
        }
    }
}

/// A store's state: its segments in order, the checkpoint, the most bytes that
/// a segment may have, and whether a write has failed.
pub struct Store {
    segments: Vec<Segment>,
    checkpoint: Checkpoint,
    segment_limit: u64,
    failed: bool,
}

#[verifier::ext_equal]
pub struct StoreView {
    pub segments: Seq<SegmentView>,
    pub checkpoint: Checkpoint,
    pub limit: u64,
    pub failed: bool,
}

/// Whether `limit` may be the most bytes of a segment: an empty record has to
/// fit.
pub open spec fn valid_limit(limit: u64) -> bool {
    SEGMENT_HEADER + RECORD_HEADER <= limit <= DEFAULT_SEGMENT_LIMIT
}

/// Whether segments follow each other without gaps from offset 0 on, and only
/// the last one is without records, if any.
pub open spec fn chained(segments: Seq<SegmentView>, limit: u64) -> bool {
    &&& segments.len() > 0 ==> segments[0].base == 0
    &&& forall|i: int| 0 <= i < segments.len() ==> (#[trigger] segments[i]).wf(limit)
    &&& forall|i: int, j: int|
        0 <= i && j == i + 1 && j < segments.len() ==> (#[trigger] segments[i]).end == (
        #[trigger] segments[j]).base && segments[i].base < segments[i].end
}

impl StoreView {
    /// The segments are chained and the checkpoint is at the end of the last
    /// one.
    pub open spec fn wf(self) -> bool {
        &&& valid_limit(self.limit)
        &&& 1 <= self.segments.len() <= MAX_SEGMENTS
        &&& chained(self.segments, self.limit)
        &&& self.checkpoint.end == self.segments.last().end
        &&& self.checkpoint.base == self.segments.last().base
        &&& self.checkpoint.byte_end == self.segments.last().byte_end
    }
}

impl View for Store {
    type V = StoreView;

    closed spec fn view(&self) -> StoreView {
        StoreView {
            segments: segment_views(self.segments@),
            checkpoint: self.checkpoint,
            limit: self.segment_limit,
            failed: self.failed,
        }
    }
}

/// The store of a new directory.
pub open spec fn new_store(limit: u64) -> StoreView {
    StoreView {
        segments: seq![empty_segment(0)],
        checkpoint: Checkpoint {
            generation: 0,
            end: 0,
            base: 0,
            byte_end: SEGMENT_HEADER as u64,
        },
        limit,
        failed: false,
    }
}

/// A new store, and what has to be on disk before it is used: the first
/// segment's file and the checkpoint.
pub struct Initialized {
    pub store: Store,
    pub name: String,
    pub header: Vec<u8>,
    pub checkpoint: Checkpoint,
}

/// Refuses a segment limit that is too small for an empty record or too large.
pub fn check_limit(segment_limit: u64) -> (r: Result<(), Invalid>)
    ensures
        match r {
            Ok(()) => valid_limit(segment_limit),
            Err(e) => !valid_limit(segment_limit) && e@ == "invalid segment limit"@,
        },
{
    if segment_limit < SEGMENT_HEADER as u64 + RECORD_HEADER as u64 || segment_limit
        > DEFAULT_SEGMENT_LIMIT {
        return Err(refused("invalid segment limit"));
    }
    Ok(())
}

impl Store {
    /// Begins a new store with the largest segments.
    pub fn init() -> (r: Result<Initialized, Invalid>)
        ensures
            r matches Ok(new) && new.store@ == new_store(DEFAULT_SEGMENT_LIMIT) && new.store@.wf()
                && new.name@ == segment_name(0) && new.header@ == crate::format::segment_image(0)
                && new.checkpoint == new.store@.checkpoint,
    {
        Self::init_with_limit(DEFAULT_SEGMENT_LIMIT)
    }

    /// Begins a new store whose segments have at most `segment_limit` bytes.
    pub fn init_with_limit(segment_limit: u64) -> (r: Result<Initialized, Invalid>)
        ensures
            match r {
                Ok(new) => {
                    &&& valid_limit(segment_limit)
                    &&& new.store@ == new_store(segment_limit)
                    &&& new.store@.wf()
                    &&& new.name@ == segment_name(0)
                    &&& new.header@ == crate::format::segment_image(0)
                    &&& new.checkpoint == new.store@.checkpoint
                },
                Err(e) => !valid_limit(segment_limit) && e@ == "invalid segment limit"@,
            },
    {
        match check_limit(segment_limit) {
            Ok(()) => {},
            Err(e) => {
                return Err(e);
            },
        }
        let mut header: Vec<u8> = Vec::new();
        bytes::push_all(&mut header, &crate::format::segment_header(0));
        let checkpoint = Checkpoint {
            generation: 0,
            end: 0,
            base: 0,
            byte_end: SEGMENT_HEADER as u64,
        };
        let mut segments: Vec<Segment> = Vec::new();
        segments.push(
            Segment { base: 0, end: 0, byte_end: SEGMENT_HEADER as u64, index: Vec::new() },
        );
        let store = Store { segments, checkpoint, segment_limit, failed: false };
        assert(store@ =~= new_store(segment_limit)) by {
            assert(store@.segments =~= new_store(segment_limit).segments);
        }
        Ok(Initialized { store, name: name(0), header, checkpoint })
    }

    /// The last segment.
    fn last_segment(&self) -> (last: &Segment)
        requires
            self@.wf(),
        ensures
            last@ == self@.segments.last(),
    {
        &self.segments[self.segments.len() - 1]
    }

    /// The offset that the next record will get.
    pub fn end(&self) -> (end: u64)
        ensures
            end == self@.checkpoint.end,
    {
        self.checkpoint.end
    }

    /// The checkpoint at the end of the log.
    pub fn checkpoint(&self) -> (checkpoint: Checkpoint)
        ensures
            checkpoint == self@.checkpoint,
    {
        self.checkpoint
    }

    /// How many segments there are.
    pub fn segment_count(&self) -> (count: usize)
        ensures
            count == self@.segments.len(),
    {
        self.segments.len()
    }
}

} // verus!
