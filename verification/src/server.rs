//! One connection's side of the protocol: what the server does with what
//! one read from the connection brought, as a step from the state before
//! to the state after and the reply to send.

use vstd::prelude::*;
use vstd::utf8::*;
use vstd::slice::slice_to_vec;
use crate::database::{add_record, get_records, Attempt, Database, Record, TOP_COUNT};
use crate::bytes::zeros;
use crate::ranking::{
    entry_after, lemma_submit_entries_come_from, lemma_submit_holds_entry,
    lemma_submit_never_regresses, submit,
};
use crate::text::{
    ascii_text, is_ascii_bytes, lemma_ascii_bytes_decode, lemma_ascii_text_bytes, text_from_utf8,
};
use crate::wire::{
    encode_ping, encode_records, fits_name_field, lemma_empty_records_frame,
    lemma_name_field_round_trip, name_field, ping_frame, records_frame, request_of, ClientPacket,
    PacketSendRecord, Request, PACKET_SIZE, RESPONSE_SIZE,
};
use crate::STRING_BUFFER_SIZE;

verus! {

/// Whether a connection is still read from.
#[derive(Clone, Copy, Debug, PartialEq, Eq)]
pub enum ConnectionState {
    Active,
    Closed,
}

/// What one read from the connection brought: a failure, or a buffer of
/// the size of a frame and the number of bytes that were read into it.
pub enum ReadOutcome {
    Failed,
    Read { bytes: [u8; PACKET_SIZE], count: usize },
}

/// The handler of one connection.
pub struct Server {
    state: ConnectionState,
}

impl View for Server {
    type V = ConnectionState;

    closed spec fn view(&self) -> ConnectionState {
        self.state
    }
}

/// The entries that a reply to a query holds: the first ten, or all where
/// there are fewer.
pub open spec fn best_of(board: Seq<Attempt>) -> Seq<Attempt> {
    board.take(if board.len() >= TOP_COUNT { TOP_COUNT as int } else { board.len() as int })
}

/// Every name fits the name field of a record on the wire.
pub open spec fn sendable(best: Seq<Attempt>) -> bool {
    forall|i: int| 0 <= i < best.len() ==> fits_name_field(#[trigger] best[i].name)
}

/// The reply to a query, if the leaderboard has one: none where one of the
/// entries to send has a name that does not fit its field.
pub open spec fn records_reply(board: Seq<Attempt>) -> Option<Seq<u8>> {
    if sendable(best_of(board)) {
        Some(records_frame(best_of(board)))
    } else {
        None
    }
}

/// The leaderboard after a record came in with the given name field. A
/// field that holds a byte from `0x80` on is no name, and nothing changes;
/// else the whole field, padding included, is the player's name.
pub open spec fn board_after_record(board: Seq<Attempt>, field: Seq<u8>, wave: u32, time: u32) -> Seq<
    Attempt,
> {
    if is_ascii_bytes(field) {
        submit(board, ascii_text(field), wave, time)
    } else {
        board
    }
}

/// What a step leaves behind: the connection's state, the leaderboard and
/// the reply to send, if any.
pub struct Step {
    pub state: ConnectionState,
    pub board: Seq<Attempt>,
    pub reply: Option<Seq<u8>>,
}

/// The step that ends the connection: nothing changes, nothing is sent.
pub open spec fn closing(board: Seq<Attempt>) -> Step {
    Step { state: ConnectionState::Closed, board, reply: None }
}

/// What the server does with one read.
///
/// A closed connection stays closed. A failed read, or one that brought
/// less than a frame, closes the connection. A full frame is answered by
/// its kind: a query with the best entries, a record with nothing, a ping
/// with a ping, and any other kind is passed over. A query that cannot be
/// answered, because a name among the best entries does not fit a frame,
/// closes the connection.
pub open spec fn step(state: ConnectionState, board: Seq<Attempt>, read: ReadOutcome) -> Step {
    match (state, read) {
        (ConnectionState::Closed, _) => closing(board),
        (ConnectionState::Active, ReadOutcome::Failed) => closing(board),
        (ConnectionState::Active, ReadOutcome::Read { bytes, count }) => {
            if count < PACKET_SIZE {
                closing(board)
            } else {
                match request_of(bytes@) {
                    Request::GetInfo => match records_reply(board) {
                        Some(frame) => Step {
                            state: ConnectionState::Active,
                            board,
                            reply: Some(frame),
                        },
                        None => closing(board),
                    },
                    Request::SendRecord { name, wave, time } => Step {
                        state: ConnectionState::Active,
                        board: board_after_record(board, name, wave, time),
                        reply: None,
                    },
                    Request::Ping => Step {
                        state: ConnectionState::Active,
                        board,
                        reply: Some(ping_frame()),
                    },
                    Request::Unknown { kind } => Step {
                        state: ConnectionState::Active,
                        board,
                        reply: None,
                    },
                }
            }
        },
    }
}

/// A record whose name field is not well-formed UTF-8, or is text beyond
/// ASCII, changes nothing: the leaderboard stays as it is, nothing is
/// sent, and the connection stays open.
pub proof fn lemma_record_without_name_changes_nothing(
    board: Seq<Attempt>,
    bytes: [u8; PACKET_SIZE],
    count: usize,
)
    requires
        count >= PACKET_SIZE,
        request_of(bytes@) matches Request::SendRecord { name, .. } && !(valid_utf8(name)
            && is_ascii_chars(decode_utf8(name))),
    ensures
        step(ConnectionState::Active, board, ReadOutcome::Read { bytes, count }) == (Step {
            state: ConnectionState::Active,
            board,
            reply: None,
        }),
{
    if let Request::SendRecord { name, wave, time } = request_of(bytes@) {
        if is_ascii_bytes(name) {
            lemma_ascii_bytes_decode(name);
        }
    }
}

/// A record whose name field holds ASCII bytes only is entered under the
/// name that these bytes spell, and can be sent back as it came.
pub proof fn lemma_record_with_name_is_entered(
    board: Seq<Attempt>,
    bytes: [u8; PACKET_SIZE],
    count: usize,
)
    requires
        count >= PACKET_SIZE,
        request_of(bytes@) matches Request::SendRecord { name, .. } && is_ascii_bytes(name),
    ensures
        ({
            let after = step(ConnectionState::Active, board, ReadOutcome::Read { bytes, count });
            &&& request_of(bytes@) matches Request::SendRecord { name, wave, time }
            &&& after.state == ConnectionState::Active
            &&& after.reply is None
            &&& after.board == submit(board, ascii_text(name), wave, time)
            &&& after.board.contains(entry_after(board, ascii_text(name), wave, time))
            &&& name_field(ascii_text(name)) == name
        }),
{
    if let Request::SendRecord { name, wave, time } = request_of(bytes@) {
        lemma_submit_holds_entry(board, ascii_text(name), wave, time);
        lemma_name_field_round_trip(name);
    }
}

/// A leaderboard whose every name fits the name field stays so whatever a
/// read brings, and every query on it is answered.
pub proof fn lemma_sendable_board_stays_sendable(
    state: ConnectionState,
    board: Seq<Attempt>,
    read: ReadOutcome,
)
    requires
        sendable(board),
    ensures
        sendable(step(state, board, read).board),
        records_reply(board) == Some(records_frame(best_of(board))),
{
    assert forall|i: int| 0 <= i < best_of(board).len() implies fits_name_field(
        #[trigger] best_of(board)[i].name,
    ) by {
        assert(best_of(board)[i] == board[i]);
    }
    if let ReadOutcome::Read { bytes, count } = read {
        if let Request::SendRecord { name, wave, time } = request_of(bytes@) {
            if is_ascii_bytes(name) {
                let text = ascii_text(name);
                let after = submit(board, text, wave, time);
                lemma_name_field_round_trip(name);
                lemma_submit_entries_come_from(board, text, wave, time);
                lemma_submit_never_regresses(board, text, wave, time);
                assert forall|k: int| 0 <= k < after.len() implies fits_name_field(
                    #[trigger] after[k].name,
                ) by {
                    if after[k] != entry_after(board, text, wave, time) {
                        let i = choose|i: int| 0 <= i < board.len() && board[i] == after[k];
                        assert(fits_name_field(board[i].name));
                    }
                }
            }
        }
    }
}

/// A step that closes the connection, and a step on a closed connection,
/// leave the leaderboard as it is and send nothing.
pub proof fn lemma_closing_changes_nothing(
    state: ConnectionState,
    board: Seq<Attempt>,
    read: ReadOutcome,
)
    requires
        step(state, board, read).state == ConnectionState::Closed,
    ensures
        step(state, board, read) == closing(board),
{
}

/// A query on an empty leaderboard is answered with a frame of zero
/// bytes: the kind of a reply with records, and ten empty slots.
pub proof fn lemma_query_on_empty_board(bytes: [u8; PACKET_SIZE], count: usize)
    requires
        count >= PACKET_SIZE,
        request_of(bytes@) == Request::GetInfo,
    ensures
        step(ConnectionState::Active, Seq::empty(), ReadOutcome::Read { bytes, count }) == (Step {
            state: ConnectionState::Active,
            board: Seq::empty(),
            reply: Some(zeros(RESPONSE_SIZE as nat)),
        }),
{
    assert(best_of(Seq::<Attempt>::empty()) =~= Seq::<Attempt>::empty());
    lemma_empty_records_frame();
}

/// The bytes of a reply, if there is one.
pub open spec fn reply_bytes(reply: Option<Vec<u8>>) -> Option<Seq<u8>> {
    match reply {
        Some(frame) => Some(frame@),
        None => None,
    }
}

impl Server {
    /// The handler of a connection that was just accepted.
    pub fn new() -> (server: Server)
        ensures
            server@ == ConnectionState::Active,
    {
        Server { state: ConnectionState::Active }
    }

    /// Whether the connection is still to be read from.
    pub fn is_active(&self) -> (active: bool)
        ensures
            active == (self@ == ConnectionState::Active),
    {
        match self.state {
            ConnectionState::Active => true,
            ConnectionState::Closed => false,
        }
    }

    /// Takes what one read brought and does what it asks for. Returns the
    /// reply to send, if there is one.
    pub fn run(&mut self, db: &mut Database, read: ReadOutcome) -> (reply: Option<Vec<u8>>)
        ensures
            final(self)@ == step(old(self)@, old(db)@, read).state,
            final(db)@ == step(old(self)@, old(db)@, read).board,
            reply_bytes(reply) == step(old(self)@, old(db)@, read).reply,
            final(db).path_text() == old(db).path_text(),
    {
        if !self.is_active() {
            return None;
        }
        let frame = match read {
            ReadOutcome::Failed => {
                self.state = ConnectionState::Closed;
                return None;
            },
            ReadOutcome::Read { bytes, count } => {
                if count < PACKET_SIZE {
                    self.state = ConnectionState::Closed;
                    return None;
                }
                bytes
            },
        };
        match ClientPacket::decode(&frame) {
            ClientPacket::GetInfo => {
                let reply = Server::handle_get_records(db);
                if reply.is_none() {
                    self.state = ConnectionState::Closed;
                }
                reply
            },
            ClientPacket::SendRecord(packet) => {
                Server::handle_send_record(&packet, db);
                None
            },
            ClientPacket::Ping => Some(Server::send_ping()),
            ClientPacket::Unknown(_) => None,
        }
    }

    /// The reply to a query: the frame that holds the best entries, or
    /// none where one of them has a name that does not fit a frame.
    pub fn handle_get_records(db: &Database) -> (reply: Option<Vec<u8>>)
        ensures
            reply_bytes(reply) == records_reply(db@),
    {
        let best = get_records(db);
        let ghost all = Seq::new(best@.len(), |i: int| best@[i]@);
        assert(all =~= best_of(db@));
        let n: usize = best.len();
        let mut i: usize = 0;
        while i < n
            invariant
                i <= n,
                n == best@.len(),
                all == Seq::new(best@.len(), |i: int| best@[i]@),
                all == best_of(db@),
                forall|k: int| 0 <= k < i ==> fits_name_field((#[trigger] best@[k]).name@),
            decreases n - i,
        {
            let record: &Record = best[i];
            if record.name.as_str().as_bytes().len() > STRING_BUFFER_SIZE {
                assert(!fits_name_field(all[i as int].name));
                return None;
            }
            i = i + 1;
        }
        assert forall|k: int| 0 <= k < all.len() implies fits_name_field(#[trigger] all[k].name) by {
            assert(fits_name_field(best@[k].name@));
        }
        Some(encode_records(&best))
    }

    /// Enters the record that a request holds, if its name field is a
    /// name.
    pub fn handle_send_record(packet: &PacketSendRecord, db: &mut Database)
        ensures
            final(db)@ == board_after_record(
                old(db)@,
                packet.string_buffer@,
                packet.wave,
                packet.time,
            ),
            final(db).path_text() == old(db).path_text(),
    {
        let field = packet.string_buffer.as_slice();
        proof {
            if is_ascii_bytes(field@) {
                lemma_ascii_bytes_decode(field@);
            }
        }
        let name = match text_from_utf8(slice_to_vec(field)) {
            Some(name) => name,
            None => {
                return ;
            },
        };
        if !name.as_str().is_ascii() {
            return ;
        }
        proof {
            lemma_ascii_text_bytes(field@);
            lemma_ascii_bytes_decode(field@);
        }
        add_record(db, name, packet.wave, packet.time);
    }

    /// The reply to a ping.
    pub fn send_ping() -> (frame: Vec<u8>)
        ensures
            frame@ == ping_frame(),
    {
        encode_ping()
    }
}

} // verus!
