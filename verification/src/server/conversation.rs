//! What clients can rely on: requests are understood as they were spelled, and
//! replies say what came of them.

use super::{Header, RequestView, FRAME_HEADER, MAX_MESSAGE, NOT_APPENDED, NO_APPEND, UNKNOWN};
use crate::bytes;
use crate::engine;
use crate::engine::{Description, EngineView};
use crate::format::MAX_PAYLOAD;
use crate::history;
use crate::history::Payloads;
use crate::reading;
use crate::server;
use crate::storage::paging::{PageReadView, MAX_PAGE_BYTES, MAX_PAGE_RECORDS};
use crate::storage::{appending, paging, PageView, StoreView};
use crate::text;
use vstd::prelude::*;
use vstd::utf8::*;

verus! {

/// The header of a frame, read back, says what the frame was made of, and the
/// body follows it.
pub proof fn frame_roundtrip(op: u8, id: u64, body: Seq<u8>)
    requires
        server::allowed_length(op, body.len()),
    ensures
        server::frame_image(op, id, body).len() == FRAME_HEADER + body.len(),
        server::decoded_header(server::frame_image(op, id, body).take(FRAME_HEADER as int)) == Some(
            Header { version: 1, op, flags: 0, id, length: body.len() as usize },
        ),
        server::frame_image(op, id, body).skip(FRAME_HEADER as int) == body,
{
    bytes::lemma_spans();
    bytes::be_value_of_be_bytes(1, 2);
    bytes::be_value_of_be_bytes(id as nat, 8);
    bytes::be_value_of_be_bytes(body.len(), 4);
    let f = server::frame_image(op, id, body);
    let h = f.take(20);
    assert(h.take(4) =~= server::frame_tag());
    assert(h.subrange(4, 6) =~= bytes::be_bytes(1, 2));
    assert(h.subrange(8, 16) =~= bytes::be_bytes(id as nat, 8));
    assert(h.subrange(16, 20) =~= bytes::be_bytes(body.len(), 4));
    assert(f.skip(20) =~= body);
}

/// A request to append, as a client spells it, is understood: the payload comes
/// out as it went in.
pub proof fn append_request_is_understood(id: u64, payload: Seq<u8>)
    requires
        payload.len() <= MAX_PAYLOAD,
    ensures
        ({
            let f = server::frame_image(1, id, seq![1u8] + payload);
            let h = server::decoded_header(f.take(FRAME_HEADER as int));
            h is Some && server::requested(h->Some_0, f.skip(FRAME_HEADER as int)) == (
            RequestView::Append { payload })
        }),
{
    let body = seq![1u8] + payload;
    frame_roundtrip(1, id, body);
    assert(body.drop_first() =~= payload);
}

/// A request to read, as a client spells it, is understood where its limits are
/// valid.
pub proof fn read_request_is_understood(id: u64, offset: u64, records: u32, room: u32)
    requires
        1 <= records <= MAX_PAGE_RECORDS,
        1 <= room <= MAX_PAGE_BYTES,
    ensures
        ({
            let f = server::frame_image(
                2,
                id,
                bytes::be_bytes(offset as nat, 8) + bytes::be_bytes(records as nat, 4)
                    + bytes::be_bytes(room as nat, 4),
            );
            let h = server::decoded_header(f.take(FRAME_HEADER as int));
            h is Some && server::requested(h->Some_0, f.skip(FRAME_HEADER as int)) == (
            RequestView::Read { offset, records, bytes: room })
        }),
{
    let body = bytes::be_bytes(offset as nat, 8) + bytes::be_bytes(records as nat, 4)
        + bytes::be_bytes(room as nat, 4);
    bytes::lemma_spans();
    bytes::be_value_of_be_bytes(offset as nat, 8);
    bytes::be_value_of_be_bytes(records as nat, 4);
    bytes::be_value_of_be_bytes(room as nat, 4);
    frame_roundtrip(2, id, body);
    assert(body.subrange(0, 8) =~= bytes::be_bytes(offset as nat, 8));
    assert(body.subrange(8, 12) =~= bytes::be_bytes(records as nat, 4));
    assert(body.subrange(12, 16) =~= bytes::be_bytes(room as nat, 4));
}

/// A question for the state of the log, as a client spells it, is understood.
pub proof fn describe_request_is_understood(id: u64)
    ensures
        ({
            let f = server::frame_image(3, id, Seq::empty());
            let h = server::decoded_header(f.take(FRAME_HEADER as int));
            h is Some && server::requested(h->Some_0, f.skip(FRAME_HEADER as int)) is Describe
        }),
{
    frame_roundtrip(3, id, Seq::empty());
}

proof fn lemma_boundary(text: Seq<u8>, at: nat)
    requires
        valid_utf8(text),
        at <= text.len(),
    ensures
        server::boundary(text, at) <= at,
        is_char_boundary(text, server::boundary(text, at) as int),
    decreases at,
{
    if at == 0 {
        is_char_boundary_start_end_of_seq(text);
    } else if !is_char_boundary(text, at as int) {
        lemma_boundary(text, (at - 1) as nat);
    }
}

proof fn lemma_boundary_is_last(text: Seq<u8>, at: nat, other: nat)
    requires
        other <= at,
        is_char_boundary(text, other as int),
    ensures
        other <= server::boundary(text, at),
    decreases at,
{
    if at > other && !is_char_boundary(text, at as int) {
        lemma_boundary_is_last(text, (at - 1) as nat, other);
    }
}

/// A character of a text begins, or the text ends, behind any number of its
/// characters.
proof fn lemma_characters_end_at_boundaries(message: Seq<char>, k: int)
    requires
        0 <= k <= message.len(),
    ensures
        is_char_boundary(encode_utf8(message), encode_utf8(message.take(k)).len() as int),
        encode_utf8(message.take(k)).len() <= encode_utf8(message).len(),
    decreases k,
{
    let text = encode_utf8(message);
    encode_utf8_valid_utf8(message);
    if k == 0 {
        is_char_boundary_start_end_of_seq(text);
    } else {
        let rest = message.drop_first();
        encode_utf8_first_scalar(message);
        assert(pop_first_scalar(text) =~= encode_utf8(rest));
        assert(message.take(k).drop_first() =~= rest.take(k - 1));
        lemma_characters_end_at_boundaries(rest, k - 1);
    }
}

/// The message of an error reply is the beginning of the message that was
/// given, cut between two characters: the whole of it where it fits, else as
/// many characters as fit.
pub proof fn message_is_cut_between_characters(message: Seq<char>) -> (n: int)
    ensures
        0 <= n <= message.len(),
        server::shortened(message) == encode_utf8(message.take(n)),
        server::shortened(message).len() <= MAX_MESSAGE,
        n < message.len() ==> encode_utf8(message.take(n + 1)).len() > MAX_MESSAGE,
{
    let text = encode_utf8(message);
    encode_utf8_valid_utf8(message);
    encode_utf8_decode_utf8(message);
    let limit = if text.len() <= MAX_MESSAGE {
        text.len()
    } else {
        MAX_MESSAGE as nat
    };
    lemma_boundary(text, limit);
    let at = server::boundary(text, limit) as int;
    let first = text.subrange(0, at);
    let rest = text.subrange(at, text.len() as int);
    valid_utf8_split(text, at);
    decode_utf8_split(text, at);
    decode_utf8_encode_utf8(first);
    assert(text.take(at) =~= first);
    let n = decode_utf8(first).len() as int;
    assert(message =~= decode_utf8(first) + decode_utf8(rest));
    assert(message.take(n) =~= decode_utf8(first));
    if n < message.len() {
        let more = encode_utf8(message.take(n + 1));
        lemma_characters_end_at_boundaries(message, n + 1);
        if more.len() <= limit {
            lemma_boundary_is_last(text, limit, more.len());
            lemma_one_more(message, n);
        }
    }
    n
}

proof fn lemma_one_more(message: Seq<char>, n: int)
    requires
        0 <= n < message.len(),
    ensures
        encode_utf8(message.take(n)).len() < encode_utf8(message.take(n + 1)).len(),
    decreases n,
{
    let rest = message.drop_first();
    if n > 0 {
        assert(message.take(n).drop_first() =~= rest.take(n - 1));
        assert(message.take(n + 1).drop_first() =~= rest.take(n));
        lemma_one_more(rest, n - 1);
    }
}

/// Whoever reads an error reply finds the code, what it says of the append, the
/// room required and the message.
pub proof fn error_roundtrip(
    id: u64,
    code: u16,
    outcome: u8,
    required: u32,
    message: Seq<char>,
)
    ensures
        ({
            let f = server::error_reply(id, code, outcome, required, message);
            let body = f.skip(FRAME_HEADER as int);
            &&& server::decoded_header(f.take(FRAME_HEADER as int)) == Some(
                Header {
                    version: 1,
                    op: 255,
                    flags: 0,
                    id,
                    length: (10 + server::shortened(message).len()) as usize,
                },
            )
            &&& body.len() == 10 + server::shortened(message).len()
            &&& bytes::be_value(body.subrange(0, 2)) == code
            &&& body[2] == outcome
            &&& bytes::be_value(body.subrange(4, 8)) == required
            &&& bytes::be_value(body.subrange(8, 10)) == server::shortened(message).len()
            &&& body.skip(10) == server::shortened(message)
        }),
{
    let n = message_is_cut_between_characters(message);
    let body = server::error_image(code, outcome, required, message);
    bytes::lemma_spans();
    bytes::be_value_of_be_bytes(code as nat, 2);
    bytes::be_value_of_be_bytes(required as nat, 4);
    bytes::be_value_of_be_bytes(server::shortened(message).len(), 2);
    frame_roundtrip(255, id, body);
    assert(body.subrange(0, 2) =~= bytes::be_bytes(code as nat, 2));
    assert(body.subrange(4, 8) =~= bytes::be_bytes(required as nat, 4));
    assert(body.subrange(8, 10) =~= bytes::be_bytes(server::shortened(message).len(), 2));
    assert(body.skip(10) =~= server::shortened(message));
}

/// A request that is at fault is answered by an error reply with its number,
/// and where it was an append the reply says that nothing was appended.
pub proof fn faulty_request_is_answered(h: Header, body: Seq<u8>)
    requires
        server::requested(h, body) is Refused,
    ensures
        ({
            let reply = server::requested(h, body)->reply;
            let r = server::decoded_header(reply.take(FRAME_HEADER as int));
            &&& r is Some
            &&& r->Some_0.op == 255
            &&& r->Some_0.id == h.id
            &&& bytes::be_value(reply.skip(FRAME_HEADER as int).subrange(0, 2))
                == server::request_refusal(h, body)->Some_0.0
            &&& reply.skip(FRAME_HEADER as int)[2] == if h.op == 1 {
                NOT_APPENDED
            } else {
                NO_APPEND
            }
        }),
{
    let (code, message) = server::request_refusal(h, body)->Some_0;
    let outcome = if h.op == 1 {
        NOT_APPENDED
    } else {
        NO_APPEND
    };
    error_roundtrip(h.id, code, outcome, 0, message);
}

/// A read whose room is too small for the first record is told how much it
/// needs.
pub proof fn small_room_is_told(size: nat)
    requires
        0 < size < 0x1_0000_0000,
    ensures
        ({
            let message = "buffer too small: requires "@ + text::decimal(size) + " bytes"@;
            server::read_error(message) == 8 && server::required_room(message) == size
        }),
{
    let before = "buffer too small: requires "@;
    let after = " bytes"@;
    let message = before + text::decimal(size) + after;
    assert(message.subrange(0, before.len() as int) =~= before);
    assert(message.subrange(message.len() - after.len(), message.len() as int) =~= after);
    assert(message.subrange(before.len() as int, message.len() - after.len()) =~= text::decimal(
        size,
    ));
    text::parsed_decimal(size, 0x1_0000_0000);
}

/// A read behind the end of the log is told so.
pub proof fn read_behind_the_end_is_told(
    store: StoreView,
    offset: u64,
    records: u32,
    room: u32,
)
    requires
        !store.failed,
        offset > store.checkpoint.end,
    ensures
        ({
            let refusal = paging::read_refusal(store, offset, records, room);
            &&& refusal matches Some(message)
            &&& server::read_error(message) == 7
            &&& server::required_room(message) == 0
        }),
{
    let message = "offset out of range"@;
    reveal_strlit("offset out of range");
    reveal_strlit("out of range");
    reveal_strlit("buffer too small: requires ");
    assert(message.subrange(7, 19) =~= "out of range"@);
    assert(text::stands_at(message, "out of range"@, 7));
    assert(message[0] == 'o');
}

proof fn lemma_lacks(hay: Seq<char>, needle: Seq<char>, k: int)
    requires
        0 <= k < needle.len(),
        forall|i: int| 0 <= i < hay.len() ==> hay[i] != needle[k],
    ensures
        !text::contains_text(hay, needle),
{
    assert forall|at: int| !text::stands_at(hay, needle, at) by {
        if text::stands_at(hay, needle, at) {
            assert(hay.subrange(at, at + needle.len())[k] == hay[at + k]);
        }
    }
}

/// An append that the engine does not take on is answered with the reason, and
/// that nothing was appended.
pub proof fn refused_admission_is_answered(e: EngineView, size: nat)
    ensures
        engine::admission_refusal(e, size) matches Some(message) ==> server::append_error(message)
            == (
            if size > MAX_PAYLOAD {
                1u16
            } else if !e.healthy || !e.accepting {
                5u16
            } else {
                4u16
            },
            NOT_APPENDED,
        ),
{
    reveal_strlit("payload too large");
    reveal_strlit("engine unavailable");
    reveal_strlit("engine overloaded");
    reveal_strlit("overloaded");
    reveal_strlit("capacity");
    reveal_strlit("segment limit");
    assert("engine overloaded"@.subrange(7, 17) =~= "overloaded"@);
    assert(text::stands_at("engine overloaded"@, "overloaded"@, 7));
    lemma_lacks("payload too large"@, "overloaded"@, 1);
    lemma_lacks("payload too large"@, "capacity"@, 0);
    lemma_lacks("payload too large"@, "segment limit"@, 0);
    lemma_lacks("engine unavailable"@, "overloaded"@, 0);
    lemma_lacks("engine unavailable"@, "capacity"@, 0);
    lemma_lacks("engine unavailable"@, "segment limit"@, 0);
    assert("payload too large"@[0] != "engine unavailable"@[0]);
}

/// An append that the store refuses for want of room is answered so, and that
/// nothing was appended.
pub proof fn refused_append_is_answered(store: StoreView, size: nat)
    requires
        !store.failed,
        size <= MAX_PAYLOAD,
    ensures
        appending::append_refusal(store, size) matches Some(message)
            ==> server::append_error(message) == (10u16, NOT_APPENDED),
{
    reveal_strlit("offset capacity reached");
    reveal_strlit("segment capacity reached");
    reveal_strlit("record exceeds segment limit");
    reveal_strlit("overloaded");
    reveal_strlit("capacity");
    reveal_strlit("segment limit");
    lemma_lacks("offset capacity reached"@, "overloaded"@, 1);
    lemma_lacks("segment capacity reached"@, "overloaded"@, 1);
    lemma_lacks("record exceeds segment limit"@, "overloaded"@, 1);
    assert("offset capacity reached"@.subrange(7, 15) =~= "capacity"@);
    assert(text::stands_at("offset capacity reached"@, "capacity"@, 7));
    assert("segment capacity reached"@.subrange(8, 16) =~= "capacity"@);
    assert(text::stands_at("segment capacity reached"@, "capacity"@, 8));
    assert("record exceeds segment limit"@.subrange(15, 28) =~= "segment limit"@);
    assert(text::stands_at("record exceeds segment limit"@, "segment limit"@, 15));
}

/// An append to which the writer gave no reply, or which came to a store that
/// has failed, is not answered as if it were known that nothing was appended.
pub proof fn doubtful_append_is_answered(store: StoreView, size: nat)
    ensures
        server::append_error("append outcome unknown; writer stopped"@) == (6u16, UNKNOWN),
        store.failed ==> (appending::append_refusal(store, size) matches Some(
            message,
        ) && server::append_error(message) == (6u16, UNKNOWN)),
{
    let lost = "append outcome unknown; writer stopped"@;
    let failed = "store failed; reopen after recovery"@;
    reveal_strlit("append outcome unknown; writer stopped");
    reveal_strlit("store failed; reopen after recovery");
    reveal_strlit("overloaded");
    reveal_strlit("capacity");
    reveal_strlit("segment limit");
    reveal_strlit("engine unavailable");
    reveal_strlit("payload too large");
    lemma_lacks(lost, "overloaded"@, 1);
    lemma_lacks(lost, "capacity"@, 7);
    lemma_lacks(lost, "segment limit"@, 2);
    lemma_lacks(failed, "segment limit"@, 2);
    assert forall|at: int| !text::stands_at(failed, "overloaded"@, at) by {
        if text::stands_at(failed, "overloaded"@, at) {
            assert(failed.subrange(at, at + 10)[1] == failed[at + 1]);
            assert(failed.subrange(at, at + 10)[4] == failed[at + 4]);
        }
    }
    assert forall|at: int| !text::stands_at(failed, "capacity"@, at) by {
        if text::stands_at(failed, "capacity"@, at) {
            assert(failed.subrange(at, at + 8)[0] == failed[at]);
            assert(failed.subrange(at, at + 8)[7] == failed[at + 7]);
        }
    }
    assert(lost.len() != "engine unavailable"@.len());
    assert(failed.len() != "engine unavailable"@.len());
}

/// The page of a read fits into one frame.
pub proof fn page_fits_a_frame(store: StoreView, r: PageReadView)
    requires
        paging::read_wf(store, r),
    ensures
        server::allowed_length(130, server::page_image(r.page).len()),
{
    lemma_joined_len(r.page.records);
    bytes::lemma_be_bytes_len(r.page.end as nat, 8);
    bytes::lemma_be_bytes_len(r.page.next as nat, 8);
    bytes::lemma_be_bytes_len(r.page.records.len(), 4);
}

proof fn lemma_joined_len(records: Seq<Seq<u8>>)
    ensures
        server::joined(records).len() == paging::total(records),
    decreases records.len(),
{
    if records.len() > 0 {
        lemma_joined_len(records.drop_last());
    }
}

proof fn lemma_joined(records: Seq<Seq<u8>>, i: int)
    requires
        0 <= i < records.len(),
    ensures
        server::joined(records) == server::joined(records.take(i)) + records[i] + server::joined(
            records.skip(i + 1),
        ),
    decreases records.len(),
{
    if i == records.len() - 1 {
        assert(records.take(i) =~= records.drop_last());
        assert(records.skip(i + 1) =~= Seq::<Seq<u8>>::empty());
        assert(server::joined(records) =~= server::joined(records.take(i)) + records[i]
            + server::joined(records.skip(i + 1)));
    } else {
        let before = records.drop_last();
        lemma_joined(before, i);
        assert(before.take(i) =~= records.take(i));
        assert(before.skip(i + 1) =~= records.skip(i + 1).drop_last());
        assert(records.skip(i + 1).last() == records.last());
        assert(server::joined(records) =~= server::joined(records.take(i)) + records[i]
            + server::joined(records.skip(i + 1)));
    }
}

/// A client can take the records of a page apart again: each stands behind those
/// before it, and decodes to the payload that was appended.
pub proof fn page_can_be_taken_apart(log: Payloads, page: PageView, offset: u64, i: int)
    requires
        history::payloads_fit(log),
        log.len() <= u64::MAX,
        reading::follows(log, page, offset),
        0 <= i < page.records.len(),
    ensures
        ({
            let at = FRAME_HEADER + paging::total(page.records.take(i));
            crate::format::decoded_record(
                server::page_image(page).skip(at),
                (offset + i) as u64,
            ) == Ok::<Option<Seq<u8>>, Seq<char>>(Some(log[offset + i]))
        }),
{
    let records = page.records;
    let body = server::page_image(page);
    let at = 20int + paging::total(records.take(i));
    let rest = server::joined(records.skip(i + 1));
    lemma_joined(records, i);
    lemma_joined_len(records.take(i));
    bytes::lemma_be_bytes_len(page.end as nat, 8);
    bytes::lemma_be_bytes_len(page.next as nat, 8);
    bytes::lemma_be_bytes_len(page.records.len(), 4);
    assert(body.skip(at) =~= records[i] + rest);
    assert(records[i] == crate::format::record_image((offset + i) as u64, log[offset + i]));
    crate::format::record_roundtrip((offset + i) as u64, log[offset + i], rest);
}

/// Where the bytes of a frame stand: `KLGN`, version 1, the operation, no flags, the
/// number of the request, the body's length, and the body, numbers most
/// significant byte first.
pub proof fn frame_bytes_stand_in_place(op: u8, id: u64, body: Seq<u8>)
    requires
        body.len() <= 0xffff_ffff,
    ensures
        ({
            let f = server::frame_image(op, id, body);
            &&& f.len() == 20 + body.len()
            &&& f.take(8) == seq![0x4bu8, 0x4c, 0x47, 0x4e, 0, 1, op, 0]
            &&& bytes::be_value(f.subrange(8, 16)) == id
            &&& bytes::be_value(f.subrange(16, 20)) == body.len()
            &&& f.skip(20) == body
        }),
{
    let f = server::frame_image(op, id, body);
    bytes::lemma_spans();
    bytes::be_value_of_be_bytes(id as nat, 8);
    bytes::be_value_of_be_bytes(body.len(), 4);
    bytes::lemma_be_bytes_len(1, 2);
    reveal_with_fuel(bytes::be_bytes, 3);
    assert(f.take(8) =~= seq![0x4bu8, 0x4c, 0x47, 0x4e, 0, 1, op, 0]);
    assert(f.subrange(8, 16) =~= bytes::be_bytes(id as nat, 8));
    assert(f.subrange(16, 20) =~= bytes::be_bytes(body.len(), 4));
    assert(f.skip(20) =~= body);
}

/// Whether a frame of a reply answers the request `id` with that operation and that
/// body.
pub open spec fn answers(f: Seq<u8>, id: u64, op: u8, body: Seq<u8>) -> bool {
    &&& f.len() == 20 + body.len()
    &&& f.take(8) == seq![0x4bu8, 0x4c, 0x47, 0x4e, 0, 1, op, 0]
    &&& bytes::be_value(f.subrange(8, 16)) == id
    &&& bytes::be_value(f.subrange(16, 20)) == body.len()
    &&& f.skip(20) == body
}

/// The reply to an append that succeeded, read back, names the request and says the
/// record's offset and the one after it.
pub proof fn append_is_answered_with_its_offset(id: u64, offset: u64)
    requires
        offset < 0xffff_ffff_ffff_ffff,
    ensures
        ({
            let f = server::appended(id, Ok(offset));
            let body = f.skip(20);
            &&& answers(f, id, 129, body)
            &&& body.len() == 16
            &&& bytes::be_value(body.subrange(0, 8)) == offset
            &&& bytes::be_value(body.subrange(8, 16)) == offset + 1
        }),
{
    let body = bytes::be_bytes(offset as nat, 8) + bytes::be_bytes((offset + 1) as nat, 8);
    bytes::lemma_spans();
    bytes::be_value_of_be_bytes(offset as nat, 8);
    bytes::be_value_of_be_bytes((offset + 1) as nat, 8);
    frame_bytes_stand_in_place(129, id, body);
    assert(body.subrange(0, 8) =~= bytes::be_bytes(offset as nat, 8));
    assert(body.subrange(8, 16) =~= bytes::be_bytes((offset + 1) as nat, 8));
}

/// Whether a frame is an error reply to the request `id`: its code, what it says of
/// an append, the room required, and as much of the message as fits.
pub open spec fn tells(
    f: Seq<u8>,
    id: u64,
    code: u16,
    outcome: u8,
    required: u32,
    message: Seq<char>,
) -> bool {
    let body = f.skip(20);
    &&& answers(f, id, 255, body)
    &&& body.len() >= 10
    &&& bytes::be_value(body.subrange(0, 2)) == code
    &&& body[2] == outcome
    &&& body[3] == 0
    &&& bytes::be_value(body.subrange(4, 8)) == required
    &&& bytes::be_value(body.subrange(8, 10)) == body.len() - 10
    &&& body.len() <= 10 + 256
    &&& exists|n: int|
        0 <= n <= message.len() && body.skip(10) == #[trigger] encode_utf8(message.take(n)) && (n
            < message.len() ==> encode_utf8(message.take(n + 1)).len() > 256)
}

/// An error reply, read back, tells what it was made of.
pub proof fn errors_are_told(id: u64, code: u16, outcome: u8, required: u32, message: Seq<char>)
    ensures
        tells(
            server::error_reply(id, code, outcome, required, message),
            id,
            code,
            outcome,
            required,
            message,
        ),
{
    let f = server::error_reply(id, code, outcome, required, message);
    let n = message_is_cut_between_characters(message);
    let body = server::error_image(code, outcome, required, message);
    bytes::lemma_be_bytes_len(code as nat, 2);
    bytes::lemma_be_bytes_len(required as nat, 4);
    bytes::lemma_be_bytes_len(server::shortened(message).len(), 2);
    error_roundtrip(id, code, outcome, required, message);
    frame_bytes_stand_in_place(255, id, body);
    assert(body.skip(10) == encode_utf8(message.take(n)));
}

/// The reply to an append that failed tells the message, and by it the code and
/// whether anything was appended: 0 says that nothing was, 1 that nobody knows.
pub proof fn failed_append_is_answered_by_its_message(id: u64, message: Seq<char>)
    ensures
        ({
            let busy = text::contains_text(message, "overloaded"@);
            let room = text::contains_text(message, "capacity"@) || text::contains_text(
                message,
                "segment limit"@,
            );
            let (code, outcome) = if busy {
                (4u16, 0u8)
            } else if room {
                (10u16, 0u8)
            } else if message == "engine unavailable"@ {
                (5u16, 0u8)
            } else if message == "payload too large"@ {
                (1u16, 0u8)
            } else {
                (6u16, 1u8)
            };
            tells(server::appended(id, Err(message)), id, code, outcome, 0, message)
        }),
{
    let (code, outcome) = server::append_error(message);
    errors_are_told(id, code, outcome, 0, message);
}

/// The message of a read that needed more room says how much if and only if it is
/// that message, with a number between its words.
pub proof fn required_room_is_the_number_in_the_message(message: Seq<char>, middle: Seq<char>)
    ensures
        message == "buffer too small: requires "@ + middle + " bytes"@ ==> server::required_room(
            message,
        ) == match text::parsed(middle, 0x1_0000_0000) {
            Some(v) => v as u32,
            None => 0,
        },
        server::required_room(message) != 0 ==> message == "buffer too small: requires "@
            + message.subrange(27, message.len() - 6) + " bytes"@,
{
    let before = "buffer too small: requires "@;
    let after = " bytes"@;
    reveal_strlit("buffer too small: requires ");
    reveal_strlit(" bytes");
    if message == before + middle + after {
        assert(message.subrange(0, before.len() as int) =~= before);
        assert(message.subrange(message.len() - after.len(), message.len() as int) =~= after);
        assert(message.subrange(before.len() as int, message.len() - after.len()) =~= middle);
    }
    if server::required_room(message) != 0 {
        let n = message.len() as int;
        assert(message =~= message.subrange(0, 27) + message.subrange(27, n - 6)
            + message.subrange(n - 6, n));
    }
}

/// The reply to a read that failed tells the message, and by it the code and the
/// room that would have been needed.
pub proof fn failed_read_is_answered_by_its_message(id: u64, message: Seq<char>)
    ensures
        ({
            let room = server::required_room(message);
            let code = if room != 0 {
                8u16
            } else if text::contains_text(message, "out of range"@) {
                7u16
            } else {
                6u16
            };
            tells(server::read_out(id, Err(message)), id, code, 2, room, message)
        }),
{
    errors_are_told(id, server::read_error(message), 2, server::required_room(message), message);
}

/// Records one after the other: each begins where those before it end.
pub proof fn joined_records_stand_in_place(records: Seq<Seq<u8>>, i: int)
    requires
        0 <= i < records.len(),
    ensures
        server::joined(records).len() == paging::total(records),
        paging::total(records.take(i)) + records[i].len() <= paging::total(records),
        server::joined(records).subrange(
            paging::total(records.take(i)) as int,
            (paging::total(records.take(i)) + records[i].len()) as int,
        ) == records[i],
{
    let at = paging::total(records.take(i)) as int;
    lemma_joined(records, i);
    lemma_joined_len(records);
    lemma_joined_len(records.take(i));
    assert(server::joined(records).subrange(at, at + records[i].len()) =~= records[i]);
}

/// The reply to a read that gave a page, read back, names the request and says the
/// log's end, where to read on from, how many records there are, and the records.
pub proof fn read_is_answered_with_its_page(id: u64, page: PageView)
    requires
        page.records.len() <= 0xffff_ffff,
        20 + paging::total(page.records) <= 0xffff_ffff,
    ensures
        ({
            let f = server::read_out(id, Ok(page));
            let body = f.skip(20);
            &&& answers(f, id, 130, body)
            &&& body.len() == 20 + paging::total(page.records)
            &&& bytes::be_value(body.subrange(0, 8)) == page.end
            &&& bytes::be_value(body.subrange(8, 16)) == page.next
            &&& bytes::be_value(body.subrange(16, 20)) == page.records.len()
            &&& body.skip(20) == server::joined(page.records)
        }),
{
    let body = server::page_image(page);
    bytes::lemma_spans();
    bytes::be_value_of_be_bytes(page.end as nat, 8);
    bytes::be_value_of_be_bytes(page.next as nat, 8);
    bytes::be_value_of_be_bytes(page.records.len(), 4);
    lemma_joined_len(page.records);
    frame_bytes_stand_in_place(130, id, body);
    assert(body.subrange(0, 8) =~= bytes::be_bytes(page.end as nat, 8));
    assert(body.subrange(8, 16) =~= bytes::be_bytes(page.next as nat, 8));
    assert(body.subrange(16, 20) =~= bytes::be_bytes(page.records.len(), 4));
    assert(body.skip(20) =~= server::joined(page.records));
}

/// The reply to a question for the state of the log, read back, names the request
/// and says whether the log is healthy, its end, twice, and its segments and queue.
pub proof fn state_is_answered(id: u64, d: Description)
    requires
        d.segments <= 0xffff_ffff,
        d.queued <= 0xffff_ffff,
    ensures
        ({
            let f = server::frame_image(131, id, server::description_image(d));
            let body = f.skip(20);
            &&& answers(f, id, 131, body)
            &&& body.len() == 40
            &&& body[0] == if d.healthy {
                1u8
            } else {
                3u8
            }
            &&& forall|i: int| 1 <= i < 8 ==> body[i] == 0
            &&& bytes::be_value(body.subrange(8, 16)) == d.end
            &&& bytes::be_value(body.subrange(16, 24)) == d.end
            &&& bytes::be_value(body.subrange(24, 28)) == d.segments
            &&& bytes::be_value(body.subrange(28, 32)) == d.queued
            &&& bytes::be_value(body.subrange(32, 40)) == d.bytes
        }),
{
    let body = server::description_image(d);
    bytes::lemma_spans();
    bytes::be_value_of_be_bytes(d.end as nat, 8);
    bytes::be_value_of_be_bytes(d.segments as nat, 4);
    bytes::be_value_of_be_bytes(d.queued as nat, 4);
    bytes::be_value_of_be_bytes(d.bytes as nat, 8);
    frame_bytes_stand_in_place(131, id, body);
    assert(body.subrange(8, 16) =~= bytes::be_bytes(d.end as nat, 8));
    assert(body.subrange(16, 24) =~= bytes::be_bytes(d.end as nat, 8));
    assert(body.subrange(24, 28) =~= bytes::be_bytes(d.segments as nat, 4));
    assert(body.subrange(28, 32) =~= bytes::be_bytes(d.queued as nat, 4));
    assert(body.subrange(32, 40) =~= bytes::be_bytes(d.bytes as nat, 8));
}

/// What a header of 20 bytes says, said of the bytes themselves; a client is cut off
/// if and only if they do not begin with `KLGN` or promise a body that is too long
/// for the operation.
pub proof fn header_is_read_by_its_bytes(h: Seq<u8>)
    requires
        h.len() == 20,
    ensures
        ({
            let length = bytes::be_value(h.subrange(16, 20));
            let long = length > 4 * 1024 * 1024 + 20 || (h[6] == 1 && length > 1024 * 1024 + 1) || (
            h[6] == 2 && length > 16) || (h[6] == 3 && length > 0);
            match server::decoded_header(h) {
                None => h.take(4) != seq![0x4bu8, 0x4c, 0x47, 0x4e] || long,
                Some(header) => {
                    &&& h.take(4) == seq![0x4bu8, 0x4c, 0x47, 0x4e]
                    &&& !long
                    &&& header.version == bytes::be_value(h.subrange(4, 6))
                    &&& header.op == h[6]
                    &&& header.flags == h[7]
                    &&& header.id == bytes::be_value(h.subrange(8, 16))
                    &&& header.length == length
                },
            }
        }),
{
    bytes::lemma_spans();
    bytes::lemma_be_value_bound(h.subrange(4, 6));
    bytes::lemma_be_value_bound(h.subrange(8, 16));
    bytes::lemma_be_value_bound(h.subrange(16, 20));
}

/// What a request asks for, by the numbers of its header and the bytes of its body,
/// and what is told to a client whose request is at fault.
pub proof fn requests_are_judged_by_their_bytes(h: Header, body: Seq<u8>)
    ensures
        ({
            let asked = server::requested(h, body);
            let records = bytes::be_value(body.subrange(8, 12));
            let room = bytes::be_value(body.subrange(12, 16));
            let valid = 1 <= records <= 1024 && 1 <= room <= 4 * 1024 * 1024;
            let outcome = if h.op == 1 {
                0u8
            } else {
                2u8
            };
            let plain = h.version == 1 && h.flags == 0;
            &&& h.version != 1 ==> refuses(asked, h.id, 2, outcome, "unsupported protocol version"@)
            &&& h.version == 1 && h.flags != 0 ==> refuses(
                asked,
                h.id,
                1,
                outcome,
                "unsupported frame flags"@,
            )
            &&& plain && h.op == 1 && body.len() == 0 ==> refuses(
                asked,
                h.id,
                1,
                0,
                "missing ack mode"@,
            )
            &&& plain && h.op == 1 && body.len() > 0 && body[0] != 1 ==> refuses(
                asked,
                h.id,
                3,
                0,
                "unsupported ack mode"@,
            )
            &&& plain && h.op == 1 && body.len() > 0 && body[0] == 1 ==> asked == (
            RequestView::Append { payload: body.skip(1) })
            &&& plain && h.op == 2 && body.len() != 16 ==> refuses(
                asked,
                h.id,
                1,
                2,
                "read needs 16 bytes"@,
            )
            &&& plain && h.op == 2 && body.len() == 16 && !valid ==> refuses(
                asked,
                h.id,
                1,
                2,
                "invalid read limits"@,
            )
            &&& plain && h.op == 2 && body.len() == 16 && valid ==> (asked
                matches RequestView::Read { offset, records: r, bytes: b } && offset
                == bytes::be_value(body.subrange(0, 8)) && r == records && b == room)
            &&& plain && h.op == 3 ==> asked is Describe
            &&& plain && h.op != 1 && h.op != 2 && h.op != 3 ==> refuses(
                asked,
                h.id,
                1,
                2,
                "unknown operation"@,
            )
        }),
{
    if let Some((code, message)) = server::request_refusal(h, body) {
        errors_are_told(
            h.id,
            code,
            if h.op == 1 {
                0u8
            } else {
                2u8
            },
            0,
            message,
        );
    }
    if body.len() > 0 {
        assert(body.skip(1) =~= body.drop_first());
    }
    if body.len() == 16 {
        bytes::lemma_spans();
        bytes::lemma_be_value_bound(body.subrange(0, 8));
        bytes::lemma_be_value_bound(body.subrange(8, 12));
        bytes::lemma_be_value_bound(body.subrange(12, 16));
    }
}

/// Whether a request is refused with that code, that word on an append and that
/// message.
pub open spec fn refuses(
    asked: RequestView,
    id: u64,
    code: u16,
    outcome: u8,
    message: Seq<char>,
) -> bool {
    asked is Refused && tells(asked->reply, id, code, outcome, 0, message)
}

} // verus!
