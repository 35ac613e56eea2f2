//! The frames of the wire protocol. Every frame has a fixed size and starts
//! with a 32-bit kind; all numbers have their least significant byte first.
//!
//! A request is 140 bytes: the kind, then room for the largest request,
//! which is a record: a name field of 128 bytes, the wave and the time. A
//! reply is 1364 bytes: the kind, then room for ten records.

use vstd::prelude::*;
use vstd::utf8::*;
use crate::STRING_BUFFER_SIZE;
use crate::bytes::{le_bytes, le_value, push_all, push_u32_le, push_zeros, read_u32_le, zeros};
use crate::database::{Attempt, Record};
use crate::text::{ascii_text, is_ascii_bytes, lemma_ascii_bytes_decode};

verus! {

/// The size of a record on the wire: name field, wave and time.
pub const RECORD_SIZE: usize = 136;

/// The size of a request frame.
pub const PACKET_SIZE: usize = 140;

/// The number of record slots in a reply.
pub const RECORD_SLOTS: usize = 10;

/// The size of a reply frame.
pub const RESPONSE_SIZE: usize = 1364;

/// The kind of a request for the best entries.
pub const CLIENT_PACKET_TYPE_GET_INFO: u32 = 0;

/// The kind of a request that submits a record.
pub const CLIENT_PACKET_TYPE_SEND_RECORD: u32 = 1;

/// The kind of a request for a sign of life.
pub const CLIENT_PACKET_TYPE_PING: u32 = 2;

/// The kind of a reply that holds the best entries.
pub const SERVER_PACKET_TYPE_RECORDS: u32 = 0;

/// The kind of a reply that is a sign of life.
pub const SERVER_PACKET_TYPE_PING: u32 = 1;

/// What a request frame says.
pub enum Request {
    GetInfo,
    SendRecord { name: Seq<u8>, wave: u32, time: u32 },
    Ping,
    Unknown { kind: u32 },
}

/// The payload of a request that submits a record, as it stands in the
/// frame: the name field is not yet checked.
pub struct PacketSendRecord {
    pub string_buffer: [u8; STRING_BUFFER_SIZE],
    pub wave: u32,
    pub time: u32,
}

/// A request, told apart by its kind.
pub enum ClientPacket {
    GetInfo,
    SendRecord(PacketSendRecord),
    Ping,
    Unknown(u32),
}

impl View for ClientPacket {
    type V = Request;

    open spec fn view(&self) -> Request {
        match *self {
            ClientPacket::GetInfo => Request::GetInfo,
            ClientPacket::SendRecord(p) => Request::SendRecord {
                name: p.string_buffer@,
                wave: p.wave,
                time: p.time,
            },
            ClientPacket::Ping => Request::Ping,
            ClientPacket::Unknown(kind) => Request::Unknown { kind },
        }
    }
}

/// What a frame of 140 bytes says. Only the kind decides how the rest is
/// read; the bytes that a kind does not use are ignored.
pub open spec fn request_of(frame: Seq<u8>) -> Request {
    let kind = le_value(frame, 0);
    if kind == CLIENT_PACKET_TYPE_GET_INFO {
        Request::GetInfo
    } else if kind == CLIENT_PACKET_TYPE_SEND_RECORD {
        Request::SendRecord {
            name: frame.subrange(4, 132),
            wave: le_value(frame, 132),
            time: le_value(frame, 136),
        }
    } else if kind == CLIENT_PACKET_TYPE_PING {
        Request::Ping
    } else {
        Request::Unknown { kind }
    }
}

impl ClientPacket {
    /// Reads a request frame.
    pub fn decode(frame: &[u8; PACKET_SIZE]) -> (p: ClientPacket)
        ensures
            p@ == request_of(frame@),
    {
        let bytes = frame.as_slice();
        let kind = read_u32_le(bytes, 0);
        if kind == CLIENT_PACKET_TYPE_GET_INFO {
            ClientPacket::GetInfo
        } else if kind == CLIENT_PACKET_TYPE_SEND_RECORD {
            let mut string_buffer = [0u8; STRING_BUFFER_SIZE];
            let mut i: usize = 0;
            while i < STRING_BUFFER_SIZE
                invariant
                    i <= STRING_BUFFER_SIZE,
                    bytes@ == frame@,
                    forall|k: int| 0 <= k < i ==> string_buffer@[k] == frame@[4 + k],
                decreases STRING_BUFFER_SIZE - i,
            {
                string_buffer[i] = bytes[4 + i];
                i = i + 1;
            }
            assert(string_buffer@ =~= frame@.subrange(4, 132));
            let wave = read_u32_le(bytes, 132);
            let time = read_u32_le(bytes, 136);
            ClientPacket::SendRecord(PacketSendRecord { string_buffer, wave, time })
        } else if kind == CLIENT_PACKET_TYPE_PING {
            ClientPacket::Ping
        } else {
            ClientPacket::Unknown(kind)
        }
    }
}

/// The name's encoding is no longer than the name field.
pub open spec fn fits_name_field(name: Seq<char>) -> bool {
    encode_utf8(name).len() <= STRING_BUFFER_SIZE
}

/// The name field of a record: the name's encoding, then zero bytes up to
/// the size of the field.
pub open spec fn name_field(name: Seq<char>) -> Seq<u8> {
    encode_utf8(name) + zeros((STRING_BUFFER_SIZE - encode_utf8(name).len()) as nat)
}

/// A record as it stands in a reply: name field, wave, time.
pub open spec fn slot(a: Attempt) -> Seq<u8> {
    name_field(a.name) + le_bytes(a.wave) + le_bytes(a.time)
}

/// The slots of the given attempts, one after the other.
pub open spec fn slots(best: Seq<Attempt>) -> Seq<u8>
    decreases best.len(),
{
    if best.len() == 0 {
        Seq::empty()
    } else {
        slots(best.drop_last()) + slot(best.last())
    }
}

/// The reply that holds the given attempts: the kind, their slots in
/// order, and zero bytes in place of the slots that stay free.
pub open spec fn records_frame(best: Seq<Attempt>) -> Seq<u8> {
    le_bytes(SERVER_PACKET_TYPE_RECORDS) + slots(best) + zeros(
        ((RECORD_SLOTS - best.len()) * RECORD_SIZE) as nat,
    )
}

/// The reply that is a sign of life: the kind, then zero bytes.
pub open spec fn ping_frame() -> Seq<u8> {
    le_bytes(SERVER_PACKET_TYPE_PING) + zeros((RESPONSE_SIZE - 4) as nat)
}

/// The slots of attempts whose names fit the name field take 136 bytes
/// each.
pub proof fn lemma_slots_len(best: Seq<Attempt>)
    requires
        forall|i: int| 0 <= i < best.len() ==> fits_name_field(#[trigger] best[i].name),
    ensures
        slots(best).len() == RECORD_SIZE * best.len(),
    decreases best.len(),
{
    if best.len() > 0 {
        let front = best.drop_last();
        assert forall|i: int| 0 <= i < front.len() implies fits_name_field(
            #[trigger] front[i].name,
        ) by {
            assert(front[i] == best[i]);
        }
        lemma_slots_len(front);
        assert(fits_name_field(best[best.len() - 1].name));
    }
}

/// A reply with up to ten attempts whose names fit the name field has the
/// size of a reply frame.
pub proof fn lemma_records_frame_len(best: Seq<Attempt>)
    requires
        best.len() <= RECORD_SLOTS,
        forall|i: int| 0 <= i < best.len() ==> fits_name_field(#[trigger] best[i].name),
    ensures
        records_frame(best).len() == RESPONSE_SIZE,
        ping_frame().len() == RESPONSE_SIZE,
{
    lemma_slots_len(best);
}

/// The reply that holds no attempt is all zero bytes.
pub proof fn lemma_empty_records_frame()
    ensures
        records_frame(Seq::empty()) == zeros(RESPONSE_SIZE as nat),
{
    assert(records_frame(Seq::empty()) =~= zeros(RESPONSE_SIZE as nat));
}

/// A name taken from a name field of ASCII bytes is written back as the
/// same 128 bytes.
pub proof fn lemma_name_field_round_trip(field: Seq<u8>)
    requires
        field.len() == STRING_BUFFER_SIZE,
        is_ascii_bytes(field),
    ensures
        fits_name_field(ascii_text(field)),
        name_field(ascii_text(field)) == field,
{
    lemma_ascii_bytes_decode(field);
    decode_utf8_encode_utf8(field);
    assert(name_field(ascii_text(field)) =~= field);
}

/// Writes the reply that holds the given records.
pub fn encode_records(best: &Vec<&Record>) -> (frame: Vec<u8>)
    requires
        best@.len() <= RECORD_SLOTS,
        forall|i: int| 0 <= i < best@.len() ==> fits_name_field((#[trigger] best@[i]).name@),
    ensures
        frame@ == records_frame(Seq::new(best@.len(), |i: int| best@[i]@)),
        frame@.len() == RESPONSE_SIZE,
{
    let ghost all = Seq::new(best@.len(), |i: int| best@[i]@);
    let mut frame: Vec<u8> = Vec::new();
    push_u32_le(&mut frame, SERVER_PACKET_TYPE_RECORDS);
    let n: usize = best.len();
    let mut i: usize = 0;
    assert(all.take(0) =~= Seq::<Attempt>::empty());
    assert(frame@ =~= le_bytes(0) + slots(all.take(0)));
    while i < n
        invariant
            i <= n <= 10,
            n == best@.len(),
            all == Seq::new(best@.len(), |i: int| best@[i]@),
            forall|k: int| 0 <= k < best@.len() ==> fits_name_field((#[trigger] best@[k]).name@),
            frame@ == le_bytes(0) + slots(all.take(i as int)),
            frame@.len() == 4 + 136 * i,
        decreases n - i,
    {
        let ghost before = frame@;
        let ghost done = all.take(i as int);
        let ghost next = all.take(i + 1);
        let record: &Record = best[i];
        assert(next.drop_last() =~= done);
        assert(next.last() == record@);
        assert(fits_name_field(best@[i as int].name@));
        let name = record.name.as_str().as_bytes();
        push_all(&mut frame, name);
        push_zeros(&mut frame, STRING_BUFFER_SIZE - name.len());
        push_u32_le(&mut frame, record.wave);
        push_u32_le(&mut frame, record.time);
        assert(frame@ =~= before + slot(record@));
        assert(le_bytes(0) + slots(done) + slot(record@) =~= le_bytes(0) + (slots(done) + slot(
            record@,
        )));
        i = i + 1;
    }
    assert(all.take(n as int) =~= all);
    push_zeros(&mut frame, (RECORD_SLOTS - n) * RECORD_SIZE);
    frame
}

/// Writes the reply that is a sign of life.
pub fn encode_ping() -> (frame: Vec<u8>)
    ensures
        frame@ == ping_frame(),
        frame@.len() == RESPONSE_SIZE,
{
    let mut frame: Vec<u8> = Vec::new();
    push_u32_le(&mut frame, SERVER_PACKET_TYPE_PING);
    push_zeros(&mut frame, RESPONSE_SIZE - 4);
    frame
}

} // verus!
