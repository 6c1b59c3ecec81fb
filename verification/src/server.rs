//! What the server does with the bytes of its clients.
//!
//! A client sends frames, each a header of fixed size and a body, and gets one
//! frame back for each. The code here never touches a socket: it reads headers
//! and bodies, says what a request asks for, and spells the replies.

use crate::bytes;
use crate::engine::Description;
use crate::format::MAX_PAYLOAD;
use crate::storage::paging::{MAX_PAGE_BYTES, MAX_PAGE_RECORDS};
use crate::storage::{Page, PageView};
use crate::text;
use vstd::prelude::*;
use vstd::string::*;
use vstd::utf8::*;

pub mod conversation;

verus! {

/// The most clients that are served at a time.
pub const MAX_CONNECTIONS: usize = 32;

/// The bytes of a frame's header.
pub const FRAME_HEADER: usize = 20;

/// The most bytes that a frame's body may have.
pub const MAX_BODY: usize = 4 * 1024 * 1024 + 20;

/// The most bytes that the message of an error reply may have.
pub const MAX_MESSAGE: usize = 256;

/// The bytes that every frame begins with: `KLGN`.
pub open spec fn frame_tag() -> Seq<u8> {
    seq![0x4bu8, 0x4c, 0x47, 0x4e]
}

/// A frame of protocol version 1 without flags.
pub open spec fn frame_image(op: u8, id: u64, body: Seq<u8>) -> Seq<u8> {
    frame_tag() + bytes::be_bytes(1, 2) + seq![op, 0u8] + bytes::be_bytes(id as nat, 8)
        + bytes::be_bytes(body.len(), 4) + body
}

/// The largest place at or before `at` where a character of the text begins or
/// the text ends.
pub open spec fn boundary(text: Seq<u8>, at: nat) -> nat
    decreases at,
{
    if at == 0 || is_char_boundary(text, at as int) {
        at
    } else {
        boundary(text, (at - 1) as nat)
    }
}

/// The bytes of a message, without the characters that do not fit whole into
/// an error reply.
pub open spec fn shortened(message: Seq<char>) -> Seq<u8> {
    let text = encode_utf8(message);
    text.take(
        boundary(
            text,
            if text.len() <= MAX_MESSAGE {
                text.len()
            } else {
                MAX_MESSAGE as nat
            },
        ) as int,
    )
}

/// The body of an error reply.
pub open spec fn error_image(code: u16, outcome: u8, required: u32, message: Seq<char>) -> Seq<u8> {
    bytes::be_bytes(code as nat, 2) + seq![outcome, 0u8] + bytes::be_bytes(required as nat, 4)
        + bytes::be_bytes(shortened(message).len(), 2) + shortened(message)
}

/// An error reply.
pub open spec fn error_reply(
    id: u64,
    code: u16,
    outcome: u8,
    required: u32,
    message: Seq<char>,
) -> Seq<u8> {
    frame_image(255, id, error_image(code, outcome, required, message))
}

/// A frame of protocol version 1 without flags.
pub fn frame(op: u8, id: u64, body: &[u8]) -> (out: Vec<u8>)
    ensures
        out@ == frame_image(op, id, body@),
{
    let mut out: Vec<u8> = Vec::new();
    out.push(0x4b);
    out.push(0x4c);
    out.push(0x47);
    out.push(0x4e);
    bytes::push_be(&mut out, 1, 2);
    out.push(op);
    out.push(0);
    bytes::push_be(&mut out, id, 8);
    bytes::push_be(&mut out, body.len() as u64, 4);
    bytes::push_all(&mut out, body);
    assert(out@ =~= frame_image(op, id, body@));
    out
}

/// An error reply to the request `id`.
pub fn error(id: u64, code: u16, outcome: u8, required: u32, message: &str) -> (out: Vec<u8>)
    ensures
        out@ == error_reply(id, code, outcome, required, message@),
{
    let text = message.as_bytes();
    let mut end: usize = if text.len() <= MAX_MESSAGE {
        text.len()
    } else {
        MAX_MESSAGE
    };
    let ghost start = end;
    while end > 0 && !message.is_char_boundary(end)
        invariant
            end <= start <= MAX_MESSAGE,
            end <= text@.len(),
            text@ == encode_utf8(message@),
            boundary(text@, start as nat) == boundary(text@, end as nat),
        decreases end,
    {
        end -= 1;
    }
    let mut body: Vec<u8> = Vec::new();
    bytes::push_be(&mut body, code as u64, 2);
    body.push(outcome);
    body.push(0);
    bytes::push_be(&mut body, required as u64, 4);
    bytes::push_be(&mut body, end as u64, 2);
    bytes::push_all(&mut body, vstd::slice::slice_subrange(text, 0, end));
    assert(shortened(message@) =~= text@.subrange(0, end as int));
    assert(body@ =~= error_image(code, outcome, required, message@));
    frame(255, id, body.as_slice())
}

/// What a frame's header says.
#[derive(Clone, Copy, Debug, PartialEq, Eq, Structural)]
pub struct Header {
    pub version: u16,
    pub op: u8,
    pub flags: u8,
    pub id: u64,
    pub length: usize,
}

/// Whether a request for `op` may have a body of `length` bytes.
pub open spec fn allowed_length(op: u8, length: nat) -> bool {
    &&& length <= MAX_BODY
    &&& op == 1 ==> length <= MAX_PAYLOAD + 1
    &&& op == 2 ==> length <= 16
    &&& op == 3 ==> length == 0
}

/// What a header says, or nothing where the client is to be cut off: the bytes
/// are no header, or the body would be too long.
pub open spec fn decoded_header(h: Seq<u8>) -> Option<Header> {
    let length = bytes::be_value(h.subrange(16, 20));
    if h.take(4) == frame_tag() && allowed_length(h[6], length) {
        Some(
            Header {
                version: bytes::be_value(h.subrange(4, 6)) as u16,
                op: h[6],
                flags: h[7],
                id: bytes::be_value(h.subrange(8, 16)) as u64,
                length: length as usize,
            },
        )
    } else {
        None
    }
}

/// What a header says, or nothing where the client is to be cut off.
pub fn decode_header(header: &[u8; FRAME_HEADER]) -> (h: Option<Header>)
    ensures
        h == decoded_header(header@),
{
    let header: &[u8] = header.as_slice();
    assert(header@.len() == 20);
    assert(header@.take(4) =~= seq![header@[0], header@[1], header@[2], header@[3]]);
    if header[0] != 0x4b || header[1] != 0x4c || header[2] != 0x47 || header[3] != 0x4e {
        assert(frame_tag()[0] == 0x4b && frame_tag()[1] == 0x4c && frame_tag()[2] == 0x47
            && frame_tag()[3] == 0x4e);
        return None;
    }
    assert(header@.take(4) =~= frame_tag());
    proof {
        bytes::lemma_spans();
        bytes::lemma_be_value_bound(header@.subrange(4, 6));
        bytes::lemma_be_value_bound(header@.subrange(8, 16));
        bytes::lemma_be_value_bound(header@.subrange(16, 20));
    }
    let id: u64 = bytes::read_be(header, 8, 8);
    let version: u16 = bytes::read_be(header, 4, 2) as u16;
    let op: u8 = header[6];
    let length: u64 = bytes::read_be(header, 16, 4);
    if length > MAX_BODY as u64 || (op == 1 && length > MAX_PAYLOAD as u64 + 1) || (op == 2
        && length > 16) || (op == 3 && length > 0) {
        return None;
    }
    Some(Header { version, op, flags: header[7], id, length: length as usize })
}

/// What a client asks for, or the reply to a request that is at fault.
pub enum Request {
    Append { payload: Vec<u8> },
    Read { offset: u64, records: u32, bytes: u32 },
    Describe,
    Refused { reply: Vec<u8> },
}

#[verifier::ext_equal]
pub enum RequestView {
    Append { payload: Seq<u8> },
    Read { offset: u64, records: u32, bytes: u32 },
    Describe,
    Refused { reply: Seq<u8> },
}

impl View for Request {
    type V = RequestView;

    open spec fn view(&self) -> RequestView {
        match *self {
            Request::Append { payload } => RequestView::Append { payload: payload@ },
            Request::Read { offset, records, bytes } => RequestView::Read {
                offset,
                records,
                bytes,
            },
            Request::Describe => RequestView::Describe,
            Request::Refused { reply } => RequestView::Refused { reply: reply@ },
        }
    }
}

/// What an error reply says of the append that was asked for: nothing was
/// appended.
pub const NOT_APPENDED: u8 = 0;

/// What an error reply says of the append that was asked for: it may or may not
/// have happened.
pub const UNKNOWN: u8 = 1;

/// What an error reply says where no append was asked for.
pub const NO_APPEND: u8 = 2;

/// The code and the message of the error reply to a request that is at fault,
/// if it is.
pub open spec fn request_refusal(h: Header, body: Seq<u8>) -> Option<(u16, Seq<char>)> {
    if h.version != 1 {
        Some((2, "unsupported protocol version"@))
    } else if h.flags != 0 {
        Some((1, "unsupported frame flags"@))
    } else if h.op == 1 {
        if body.len() == 0 {
            Some((1, "missing ack mode"@))
        } else if body[0] != 1 {
            Some((3, "unsupported ack mode"@))
        } else {
            None
        }
    } else if h.op == 2 {
        let records = bytes::be_value(body.subrange(8, 12));
        let room = bytes::be_value(body.subrange(12, 16));
        if body.len() != 16 {
            Some((1, "read needs 16 bytes"@))
        } else if records == 0 || records > MAX_PAGE_RECORDS || room == 0 || room
            > MAX_PAGE_BYTES {
            Some((1, "invalid read limits"@))
        } else {
            None
        }
    } else if h.op == 3 {
        None
    } else {
        Some((1, "unknown operation"@))
    }
}

/// What a request asks for.
pub open spec fn requested(h: Header, body: Seq<u8>) -> RequestView {
    match request_refusal(h, body) {
        Some((code, message)) => RequestView::Refused {
            reply: error_reply(
                h.id,
                code,
                if h.op == 1 {
                    NOT_APPENDED
                } else {
                    NO_APPEND
                },
                0,
                message,
            ),
        },
        None => if h.op == 1 {
            RequestView::Append { payload: body.drop_first() }
        } else if h.op == 2 {
            RequestView::Read {
                offset: bytes::be_value(body.subrange(0, 8)) as u64,
                records: bytes::be_value(body.subrange(8, 12)) as u32,
                bytes: bytes::be_value(body.subrange(12, 16)) as u32,
            }
        } else {
            RequestView::Describe
        },
    }
}

/// What a request asks for.
pub fn request(header: &Header, body: &[u8]) -> (r: Request)
    ensures
        r@ == requested(*header, body@),
{
    let id: u64 = header.id;
    let outcome: u8 = if header.op == 1 {
        NOT_APPENDED
    } else {
        NO_APPEND
    };
    if header.version != 1 {
        return Request::Refused {
            reply: error(id, 2, outcome, 0, "unsupported protocol version"),
        };
    }
    if header.flags != 0 {
        return Request::Refused { reply: error(id, 1, outcome, 0, "unsupported frame flags") };
    }
    if header.op == 1 {
        if body.len() == 0 {
            return Request::Refused { reply: error(id, 1, outcome, 0, "missing ack mode") };
        }
        if body[0] != 1 {
            return Request::Refused { reply: error(id, 3, outcome, 0, "unsupported ack mode") };
        }
        let payload = bytes::copy_range(body, 1, body.len());
        assert(payload@ =~= body@.drop_first());
        Request::Append { payload }
    } else if header.op == 2 {
        if body.len() != 16 {
            return Request::Refused { reply: error(id, 1, outcome, 0, "read needs 16 bytes") };
        }
        proof {
            bytes::lemma_spans();
            bytes::lemma_be_value_bound(body@.subrange(0, 8));
            bytes::lemma_be_value_bound(body@.subrange(8, 12));
            bytes::lemma_be_value_bound(body@.subrange(12, 16));
        }
        let offset: u64 = bytes::read_be(body, 0, 8);
        let records: u32 = bytes::read_be(body, 8, 4) as u32;
        let room: u32 = bytes::read_be(body, 12, 4) as u32;
        if records == 0 || records > MAX_PAGE_RECORDS || room == 0 || room > MAX_PAGE_BYTES {
            return Request::Refused { reply: error(id, 1, outcome, 0, "invalid read limits") };
        }
        Request::Read { offset, records, bytes: room }
    } else if header.op == 3 {
        Request::Describe
    } else {
        Request::Refused { reply: error(id, 1, outcome, 0, "unknown operation") }
    }
}

/// The code of the error reply to an append that failed with this message, and
/// what it says of the append.
pub open spec fn append_error(message: Seq<char>) -> (u16, u8) {
    if text::contains_text(message, "overloaded"@) {
        (4, NOT_APPENDED)
    } else if text::contains_text(message, "capacity"@) || text::contains_text(
        message,
        "segment limit"@,
    ) {
        (10, NOT_APPENDED)
    } else if message == "engine unavailable"@ {
        (5, NOT_APPENDED)
    } else if message == "payload too large"@ {
        (1, NOT_APPENDED)
    } else {
        (6, UNKNOWN)
    }
}

/// The reply to an append.
pub open spec fn appended(id: u64, result: Result<u64, Seq<char>>) -> Seq<u8> {
    match result {
        Ok(offset) => frame_image(
            129,
            id,
            bytes::be_bytes(offset as nat, 8) + bytes::be_bytes((offset + 1) as nat, 8),
        ),
        Err(message) => error_reply(
            id,
            append_error(message).0,
            append_error(message).1,
            0,
            message,
        ),
    }
}

/// The reply to the append `id`: the record's offset and the one after it, or
/// the error.
pub fn append_reply(id: u64, result: &Result<u64, String>) -> (out: Vec<u8>)
    requires
        result matches Ok(offset) ==> offset < u64::MAX,
    ensures
        out@ == appended(
            id,
            match *result {
                Ok(offset) => Ok(offset),
                Err(message) => Err(message@),
            },
        ),
{
    match result {
        Ok(offset) => {
            let mut body: Vec<u8> = Vec::with_capacity(16);
            bytes::push_be(&mut body, *offset, 8);
            bytes::push_be(&mut body, *offset + 1, 8);
            assert(body@ =~= bytes::be_bytes(*offset as nat, 8) + bytes::be_bytes(
                (*offset + 1) as nat,
                8,
            ));
            frame(129, id, body.as_slice())
        },
        Err(message) => {
            let message: &str = message.as_str();
            if text::contains(message, "overloaded") {
                error(id, 4, NOT_APPENDED, 0, message)
            } else if text::contains(message, "capacity") || text::contains(
                message,
                "segment limit",
            ) {
                error(id, 10, NOT_APPENDED, 0, message)
            } else if text::same_text(message, "engine unavailable") {
                error(id, 5, NOT_APPENDED, 0, message)
            } else if text::same_text(message, "payload too large") {
                error(id, 1, NOT_APPENDED, 0, message)
            } else {
                error(id, 6, UNKNOWN, 0, message)
            }
        },
    }
}

/// The room that a read would have needed, as its error message says, or 0.
pub open spec fn required_room(message: Seq<char>) -> u32 {
    let before = "buffer too small: requires "@;
    let after = " bytes"@;
    if before.len() + after.len() <= message.len() && text::begins_with(message, before)
        && text::ends_with_text(message, after) {
        match text::parsed(
            message.subrange(before.len() as int, message.len() - after.len()),
            0x1_0000_0000,
        ) {
            Some(room) => room as u32,
            None => 0,
        }
    } else {
        0
    }
}

/// The code of the error reply to a read that failed with this message.
pub open spec fn read_error(message: Seq<char>) -> u16 {
    if required_room(message) != 0 {
        8
    } else if text::contains_text(message, "out of range"@) {
        7
    } else {
        6
    }
}

/// Records one after the other.
pub open spec fn joined(records: Seq<Seq<u8>>) -> Seq<u8>
    decreases records.len(),
{
    if records.len() == 0 {
        Seq::empty()
    } else {
        joined(records.drop_last()) + records.last()
    }
}

/// The body of the reply to a read that gave a page.
pub open spec fn page_image(page: PageView) -> Seq<u8> {
    bytes::be_bytes(page.end as nat, 8) + bytes::be_bytes(page.next as nat, 8) + bytes::be_bytes(
        page.records.len(),
        4,
    ) + joined(page.records)
}

/// The reply to a read.
pub open spec fn read_out(id: u64, result: Result<PageView, Seq<char>>) -> Seq<u8> {
    match result {
        Ok(page) => frame_image(130, id, page_image(page)),
        Err(message) => error_reply(
            id,
            read_error(message),
            NO_APPEND,
            required_room(message),
            message,
        ),
    }
}

/// The room that a read would have needed, as its error message says, or 0.
pub fn room_required(message: &str) -> (room: u32)
    ensures
        room == required_room(message@),
{
    let chars = text::chars_of(message);
    let before = text::chars_of("buffer too small: requires ");
    let after = text::chars_of(" bytes");
    if chars.len() < before.len() || chars.len() - before.len() < after.len() {
        return 0;
    }
    let end: usize = chars.len() - after.len();
    if !text::matches_at(&chars, &before, 0) || !text::matches_at(&chars, &after, end) {
        return 0;
    }
    match text::parse_number(&chars, before.len(), end, 0xffff_ffff) {
        Some(room) => room as u32,
        None => 0,
    }
}

/// The reply to the read `id`: the page, or the error.
pub fn read_reply(id: u64, result: &Result<Page, String>) -> (out: Vec<u8>)
    ensures
        out@ == read_out(
            id,
            match *result {
                Ok(page) => Ok(page@),
                Err(message) => Err(message@),
            },
        ),
{
    match result {
        Ok(page) => {
            let mut body: Vec<u8> = Vec::new();
            bytes::push_be(&mut body, page.end, 8);
            bytes::push_be(&mut body, page.next, 8);
            bytes::push_be(&mut body, page.records.len() as u64, 4);
            let ghost head = body@;
            let ghost records = page@.records;
            let mut i: usize = 0;
            while i < page.records.len()
                invariant
                    i <= page.records.len(),
                    records == page@.records,
                    body@ == head + joined(records.take(i as int)),
                decreases page.records.len() - i,
            {
                bytes::push_all(&mut body, page.records[i].as_slice());
                assert(records.take(i + 1).drop_last() =~= records.take(i as int));
                assert(records.take(i + 1).last() == page.records@[i as int]@);
                i += 1;
                assert(body@ =~= head + joined(records.take(i as int)));
            }
            assert(records.take(i as int) =~= records);
            assert(body@ =~= page_image(page@));
            frame(130, id, body.as_slice())
        },
        Err(message) => {
            let message: &str = message.as_str();
            let required: u32 = room_required(message);
            let code: u16 = if required != 0 {
                8
            } else if text::contains(message, "out of range") {
                7
            } else {
                6
            };
            error(id, code, NO_APPEND, required, message)
        },
    }
}

/// The reply to a question for the state of the log.
pub open spec fn description_image(d: Description) -> Seq<u8> {
    seq![if d.healthy { 1u8 } else { 3u8 }] + Seq::new(7, |i: int| 0u8) + bytes::be_bytes(
        d.end as nat,
        8,
    ) + bytes::be_bytes(d.end as nat, 8) + bytes::be_bytes(d.segments as nat, 4) + bytes::be_bytes(
        d.queued as nat,
        4,
    ) + bytes::be_bytes(d.bytes as nat, 8)
}

/// The reply to the question `id` for the state of the log.
pub fn describe_reply(id: u64, state: &Description) -> (out: Vec<u8>)
    ensures
        out@ == frame_image(131, id, description_image(*state)),
{
    let mut body: Vec<u8> = Vec::new();
    if state.healthy {
        body.push(1);
    } else {
        body.push(3);
    }
    let ghost head = body@;
    let mut zeros: usize = 0;
    while zeros < 7
        invariant
            zeros <= 7,
            body@ == head + Seq::new(zeros as nat, |i: int| 0u8),
        decreases 7 - zeros,
    {
        body.push(0);
        zeros += 1;
        assert(body@ =~= head + Seq::new(zeros as nat, |i: int| 0u8));
    }
    bytes::push_be(&mut body, state.end, 8);
    bytes::push_be(&mut body, state.end, 8);
    bytes::push_be(&mut body, state.segments as u64, 4);
    bytes::push_be(&mut body, state.queued as u64, 4);
    bytes::push_be(&mut body, state.bytes as u64, 8);
    assert(body@ =~= description_image(*state));
    frame(131, id, body.as_slice())
}

/// A block of bytes on its way: how many have been moved, and how many there
/// are.
pub struct Transfer {
    done: usize,
    total: usize,
}

#[verifier::ext_equal]
pub struct TransferView {
    pub done: nat,
    pub total: nat,
}

impl View for Transfer {
    type V = TransferView;

    closed spec fn view(&self) -> TransferView {
        TransferView { done: self.done as nat, total: self.total as nat }
    }
}

/// What came of an attempt to receive bytes.
#[derive(Clone, Copy, Debug, PartialEq, Eq, Structural)]
pub enum Arrival {
    /// Some bytes came.
    Bytes,
    /// The peer was done before the first byte.
    Closed,
    /// The peer was done in the middle.
    Broken,
}

impl Transfer {
    /// A block of `total` bytes of which none has been moved.
    pub fn start(total: usize) -> (t: Transfer)
        ensures
            t@ == (TransferView { done: 0, total: total as nat }),
    {
        Transfer { done: 0, total }
    }

    /// Whether all bytes have been moved.
    pub fn finished(&self) -> (finished: bool)
        ensures
            finished == (self@.done >= self@.total),
    {
        self.done >= self.total
    }

    /// How many bytes have been moved.
    pub fn done(&self) -> (done: usize)
        ensures
            done == self@.done,
    {
        self.done
    }

    /// Takes note that `count` more bytes were received; none means that the
    /// peer sends no more.
    pub fn received(&mut self, count: usize) -> (arrival: Arrival)
        requires
            old(self)@.done + count <= old(self)@.total,
        ensures
            final(self)@ == (TransferView { done: old(self)@.done + count as nat, ..old(self)@ }),
            arrival == if count > 0 {
                Arrival::Bytes
            } else if old(self)@.done == 0 {
                Arrival::Closed
            } else {
                Arrival::Broken
            },
    {
        if count == 0 {
            return if self.done == 0 {
                Arrival::Closed
            } else {
                Arrival::Broken
            };
        }
        self.done = self.done + count;
        Arrival::Bytes
    }

    /// Takes note that `count` more bytes were sent; none means that the peer
    /// takes no more.
    pub fn sent(&mut self, count: usize) -> (moved: bool)
        requires
            old(self)@.done + count <= old(self)@.total,
        ensures
            final(self)@ == (TransferView { done: old(self)@.done + count as nat, ..old(self)@ }),
            moved == (count > 0),
    {
        self.done = self.done + count;
        count > 0
    }
}

/// How many clients are being served.
pub struct Connections {
    active: usize,
}

impl View for Connections {
    type V = nat;

    closed spec fn view(&self) -> nat {
        self.active as nat
    }
}

impl Connections {
    /// No clients yet.
    pub fn none() -> (c: Connections)
        ensures
            c@ == 0,
    {
        Connections { active: 0 }
    }

    /// Whether one more client can be served; if so it is counted.
    pub fn open(&mut self) -> (served: bool)
        ensures
            served == (old(self)@ < MAX_CONNECTIONS),
            final(self)@ == if served {
                old(self)@ + 1
            } else {
                old(self)@
            },
            old(self)@ <= MAX_CONNECTIONS ==> final(self)@ <= MAX_CONNECTIONS,
    {
        if self.active >= MAX_CONNECTIONS {
            return false;
        }
        self.active = self.active + 1;
        true
    }

    /// Takes note that a client is not served any more.
    pub fn close(&mut self)
        requires
            old(self)@ > 0,
        ensures
            final(self)@ == old(self)@ - 1,
    {
        self.active = self.active - 1;
    }

    /// How many clients are being served.
    pub fn active(&self) -> (active: usize)
        ensures
            active == self@,
    {
        self.active
    }
}

} // verus!
