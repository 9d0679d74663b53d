//! One connection from its first byte to its close: records are decoded,
//! inserts change the store, queries are answered in order, and the first
//! record that breaks the protocol ends it.

use crate::message::{
    encode_message, lemma_parse_encode, parse_record, Insert, Message, MessageParseError, Query,
    OPCODE_INSERT, OPCODE_QUERY,
};
use crate::reader::{after_record, first_record, has_record, ReadStep, Reader};
use crate::store::{
    distinct_timestamps, lemma_mean_of_covered_entries, lemma_range_mean_bounds,
    lemma_store_of_entries, prices_of, range_mean, store_of, timestamps_of, total_of,
    truncated_quotient, State,
};
use crate::wire::{be_bytes, i32_to_be};
use vstd::prelude::*;

verus! {

/// Whether a store takes a message: every query, and every insert at a
/// timestamp that has no price yet.
pub open spec fn accepts(data: Map<i32, i32>, message: Message) -> bool {
    match message {
        Message::Insert(insert) => !data.contains_key(insert.timestamp),
        Message::Query(_) => true,
    }
}

/// The store after a message that it takes.
pub open spec fn data_after(data: Map<i32, i32>, message: Message) -> Map<i32, i32> {
    match message {
        Message::Insert(insert) => data.insert(insert.timestamp, insert.price),
        Message::Query(_) => data,
    }
}

/// The answer owed to a message: the range mean for a query, none for an insert.
pub open spec fn answer_to(data: Map<i32, i32>, message: Message) -> Option<i32> {
    match message {
        Message::Insert(_) => None,
        Message::Query(query) => Some(range_mean(data, query.min_time, query.max_time) as i32),
    }
}

/// The bytes written for an answer: four big-endian bytes, or nothing.
pub open spec fn answer_bytes(answer: Option<i32>) -> Seq<u8> {
    match answer {
        Some(mean) => be_bytes(mean as int),
        None => Seq::empty(),
    }
}

/// Applies one message to the store. An insert is recorded and gets no
/// answer; a query gets the mean over its range and changes nothing; an insert
/// at a timestamp that already has a price is an error and changes nothing.
pub fn handle_message(message: Message, state: &mut State) -> (result: Result<Option<i32>, ()>)
    ensures
        accepts(old(state)@, message) ==> result == Ok::<Option<i32>, ()>(
            answer_to(old(state)@, message),
        ) && final(state)@ == data_after(old(state)@, message),
        !accepts(old(state)@, message) ==> result == Err::<Option<i32>, ()>(()) && final(state)@
            == old(state)@,
{
    match message {
        Message::Insert(insert) => match state.insert(insert) {
            Ok(()) => Ok(None),
            Err(_) => Err(()),
        },
        Message::Query(query) => Ok(Some(state.select_mean(&query))),
    }
}

/// What a connection is at a moment: the prices stored, the bytes buffered
/// and not yet consumed, and whether it is still open.
pub struct Session {
    pub data: Map<i32, i32>,
    pub buffer: Seq<u8>,
    pub open: bool,
}

/// The result of working through a buffer.
pub struct Drained {
    /// The store afterwards.
    pub data: Map<i32, i32>,
    /// The bytes that were not consumed.
    pub rest: Seq<u8>,
    /// The answers written, in order.
    pub output: Seq<u8>,
    /// False once a record broke the protocol.
    pub open: bool,
}

/// Works through the whole records at the front of `buffer`, one after
/// another, starting from `data`. It stops before a partial record, which
/// stays buffered, and at the first record that does not parse or that the
/// store does not take, which closes the connection with no answer to it.
pub open spec fn drain(data: Map<i32, i32>, buffer: Seq<u8>) -> Drained
    decreases buffer.len(),
{
    if !has_record(buffer) {
        Drained { data, rest: buffer, output: Seq::empty(), open: true }
    } else {
        match parse_record(first_record(buffer)) {
            Ok(message) => if accepts(data, message) {
                let later = drain(data_after(data, message), after_record(buffer));
                Drained {
                    data: later.data,
                    rest: later.rest,
                    output: answer_bytes(answer_to(data, message)) + later.output,
                    open: later.open,
                }
            } else {
                Drained { data, rest: after_record(buffer), output: Seq::empty(), open: false }
            },
            Err(_) => Drained {
                data,
                rest: after_record(buffer),
                output: Seq::empty(),
                open: false,
            },
        }
    }
}

/// The session after the stream delivered `bytes`, none of them meaning that
/// the stream has ended. A closed session ignores them.
pub open spec fn session_after(session: Session, bytes: Seq<u8>) -> Session {
    if session.open {
        let drained = drain(session.data, session.buffer + bytes);
        Session {
            data: drained.data,
            buffer: drained.rest,
            open: drained.open && bytes.len() > 0,
        }
    } else {
        session
    }
}

/// The bytes written when the stream delivered `bytes` to a session.
pub open spec fn output_of(session: Session, bytes: Seq<u8>) -> Seq<u8> {
    if session.open {
        drain(session.data, session.buffer + bytes).output
    } else {
        Seq::empty()
    }
}

/// What a session has become and written after the stream delivered the
/// chunks one after another.
pub open spec fn delivered(session: Session, chunks: Seq<Seq<u8>>) -> (Session, Seq<u8>)
    decreases chunks.len(),
{
    if chunks.len() == 0 {
        (session, Seq::empty())
    } else {
        let next = session_after(session, chunks.first());
        let (last, later) = delivered(next, chunks.drop_first());
        (last, output_of(session, chunks.first()) + later)
    }
}

/// A record whose opcode is neither `I` nor `Q` closes the connection: no
/// answer is written for it, nothing after it is looked at, and the store
/// stays as it was.
pub proof fn lemma_invalid_opcode_closes(data: Map<i32, i32>, buffer: Seq<u8>)
    requires
        has_record(buffer),
        buffer[0] != OPCODE_INSERT,
        buffer[0] != OPCODE_QUERY,
    ensures
        !drain(data, buffer).open,
        drain(data, buffer).output == Seq::<u8>::empty(),
        drain(data, buffer).data == data,
{
}

/// An insert at a timestamp that already has a price closes the connection:
/// no answer is written, and the store keeps the price it had.
pub proof fn lemma_duplicate_insert_closes(data: Map<i32, i32>, buffer: Seq<u8>)
    requires
        has_record(buffer),
        parse_record(first_record(buffer)) matches Ok(Message::Insert(insert))
            && data.contains_key(insert.timestamp),
    ensures
        !drain(data, buffer).open,
        drain(data, buffer).output == Seq::<u8>::empty(),
        drain(data, buffer).data == data,
{
}

/// Two inserts in a row at one timestamp close the connection with nothing
/// written, whatever the store held before and whatever follows them.
pub proof fn lemma_repeated_timestamp_closes(
    data: Map<i32, i32>,
    timestamp: i32,
    first_price: i32,
    second_price: i32,
    tail: Seq<u8>,
)
    ensures
        ({
            let first = Message::Insert(Insert { timestamp, price: first_price });
            let second = Message::Insert(Insert { timestamp, price: second_price });
            let drained = drain(data, encode_message(first) + encode_message(second) + tail);
            !drained.open && drained.output == Seq::<u8>::empty()
        }),
{
    let first = Message::Insert(Insert { timestamp, price: first_price });
    let second = Message::Insert(Insert { timestamp, price: second_price });
    let buffer = encode_message(first) + encode_message(second) + tail;
    lemma_parse_encode(first);
    lemma_parse_encode(second);
    assert(first_record(buffer) =~= encode_message(first));
    let rest = after_record(buffer);
    assert(rest =~= encode_message(second) + tail);
    assert(first_record(rest) =~= encode_message(second));
    if !data.contains_key(timestamp) {
        let later = drain(data_after(data, first), rest);
        assert(!later.open);
        assert(later.output == Seq::<u8>::empty());
        assert(drain(data, buffer).output =~= Seq::<u8>::empty());
    }
}

/// Working through `front + back` is working through `front` and then, if
/// the connection is still open, through what `front` left followed by `back`.
pub proof fn lemma_drain_append(data: Map<i32, i32>, front: Seq<u8>, back: Seq<u8>)
    ensures
        ({
            let whole = drain(data, front + back);
            let first = drain(data, front);
            let second = drain(first.data, first.rest + back);
            if first.open {
                &&& whole.data == second.data
                &&& whole.rest == second.rest
                &&& whole.open == second.open
                &&& whole.output == first.output + second.output
            } else {
                &&& whole.data == first.data
                &&& !whole.open
                &&& whole.output == first.output
            }
        }),
    decreases front.len(),
{
    let first = drain(data, front);
    if !has_record(front) {
        assert(first.output + drain(data, front + back).output =~= drain(
            data,
            front + back,
        ).output);
    } else {
        assert(first_record(front + back) =~= first_record(front));
        assert(after_record(front + back) =~= after_record(front) + back);
        match parse_record(first_record(front)) {
            Ok(message) => {
                if accepts(data, message) {
                    let next = data_after(data, message);
                    lemma_drain_append(next, after_record(front), back);
                    let head = answer_bytes(answer_to(data, message));
                    let later = drain(next, after_record(front));
                    if later.open {
                        let second = drain(later.data, later.rest + back);
                        assert(head + (later.output + second.output) =~= (head + later.output)
                            + second.output);
                    }
                }
            },
            Err(_) => {},
        }
    }
}

/// Chunks that each hold at least one byte make up a stream of at least one
/// byte, if there is a chunk at all.
pub proof fn lemma_flatten_nonempty(chunks: Seq<Seq<u8>>)
    requires
        chunks.len() > 0,
        forall|i: int| 0 <= i < chunks.len() ==> (#[trigger] chunks[i]).len() > 0,
    ensures
        chunks.flatten().len() > 0,
{
    assert(chunks.flatten() == chunks.first() + chunks.drop_first().flatten());
}

/// Framing does not depend on how the stream is cut: delivered in chunks of
/// at least one byte each, however small, the bytes leave the same store,
/// the same answers and the same open or closed connection as delivered all
/// at once, and on an open connection the same bytes buffered.
pub proof fn lemma_fragmentation(session: Session, chunks: Seq<Seq<u8>>)
    requires
        chunks.len() > 0,
        forall|i: int| 0 <= i < chunks.len() ==> (#[trigger] chunks[i]).len() > 0,
    ensures
        ({
            let (pieces, written) = delivered(session, chunks);
            let once = session_after(session, chunks.flatten());
            &&& pieces.data == once.data
            &&& pieces.open == once.open
            &&& pieces.open ==> pieces.buffer == once.buffer
            &&& written == output_of(session, chunks.flatten())
        }),
    decreases chunks.len(),
{
    let head = chunks.first();
    let tail = chunks.drop_first();
    let next = session_after(session, head);
    let (pieces, later) = delivered(next, tail);
    assert(chunks.flatten() == head + tail.flatten());
    assert(chunks[0].len() > 0);
    if tail.len() == 0 {
        assert(tail.flatten() =~= Seq::<u8>::empty());
        assert(head + tail.flatten() =~= head);
        assert(output_of(session, head) + later =~= output_of(session, head));
    } else {
        assert forall|i: int| 0 <= i < tail.len() implies (#[trigger] tail[i]).len() > 0 by {
            assert(tail[i] == chunks[i + 1]);
        }
        lemma_fragmentation(next, tail);
        lemma_flatten_nonempty(tail);
        lemma_flatten_nonempty(chunks);
        if session.open {
            lemma_drain_append(session.data, session.buffer + head, tail.flatten());
            assert((session.buffer + head) + tail.flatten() =~= session.buffer + (head
                + tail.flatten()));
            if !next.open {
                assert(output_of(session, head) + later =~= output_of(session, head));
            }
        } else {
            assert(output_of(session, head) + later =~= Seq::<u8>::empty());
        }
    }
}

/// The records that spell the entries as inserts, one after another.
pub open spec fn insert_records(entries: Seq<Insert>) -> Seq<u8>
    decreases entries.len(),
{
    if entries.len() == 0 {
        Seq::empty()
    } else {
        insert_records(entries.drop_last()) + encode_message(Message::Insert(entries.last()))
    }
}

/// Inserts at distinct timestamps, sent to a new connection, are all
/// recorded: the store holds them, nothing is written, nothing stays
/// buffered, and the connection stays open.
pub proof fn lemma_drain_inserts(entries: Seq<Insert>)
    requires
        distinct_timestamps(entries),
    ensures
        drain(Map::empty(), insert_records(entries)) == (Drained {
            data: store_of(entries),
            rest: Seq::empty(),
            output: Seq::empty(),
            open: true,
        }),
    decreases entries.len(),
{
    if entries.len() > 0 {
        let rest = entries.drop_last();
        let last = entries.last();
        let record = encode_message(Message::Insert(last));
        assert(distinct_timestamps(rest)) by {
            assert forall|i: int, j: int| 0 <= i < j < rest.len() implies (
            #[trigger] rest[i]).timestamp != (#[trigger] rest[j]).timestamp by {
                assert(rest[i] == entries[i] && rest[j] == entries[j]);
            }
        }
        lemma_drain_inserts(rest);
        lemma_drain_append(Map::empty(), insert_records(rest), record);
        assert(Seq::<u8>::empty() + record =~= record);
        lemma_parse_encode(Message::Insert(last));
        assert(first_record(record) =~= record);
        assert(after_record(record) =~= Seq::<u8>::empty());
        assert(!store_of(rest).contains_key(last.timestamp)) by {
            lemma_store_of_entries(rest);
            if timestamps_of(rest).to_set().contains(last.timestamp) {
                let j = choose|j: int|
                    0 <= j < timestamps_of(rest).len() && timestamps_of(rest)[j] == last.timestamp;
                assert(entries[j].timestamp == entries[entries.len() - 1].timestamp);
            }
        }
        let later = drain(store_of(entries), Seq::<u8>::empty());
        assert(later.output =~= Seq::<u8>::empty());
        assert(drain(store_of(rest), record).output =~= Seq::<u8>::empty());
        assert(drain(Map::empty(), insert_records(entries)).output =~= Seq::<u8>::empty());
    }
}

/// Inserts at distinct timestamps followed by a query whose range covers
/// them all, sent to a new connection, are answered with four bytes: the sum
/// of the prices divided by their number, rounded toward zero, in big-endian
/// two's complement, and 0 where there is no insert.
pub proof fn lemma_inserts_then_query(entries: Seq<Insert>, min_time: i32, max_time: i32)
    requires
        distinct_timestamps(entries),
        forall|i: int|
            0 <= i < entries.len() ==> min_time <= (#[trigger] entries[i]).timestamp <= max_time,
    ensures
        ({
            let query = Message::Query(Query { min_time, max_time });
            let mean = if entries.len() == 0 {
                0
            } else {
                truncated_quotient(total_of(prices_of(entries)), entries.len() as int)
            };
            &&& i32::MIN <= mean <= i32::MAX
            &&& drain(Map::empty(), insert_records(entries) + encode_message(query)) == (Drained {
                data: store_of(entries),
                rest: Seq::empty(),
                output: be_bytes(mean),
                open: true,
            })
        }),
{
    let query = Message::Query(Query { min_time, max_time });
    let record = encode_message(query);
    let data = store_of(entries);
    lemma_drain_inserts(entries);
    lemma_drain_append(Map::empty(), insert_records(entries), record);
    assert(Seq::<u8>::empty() + record =~= record);
    lemma_parse_encode(query);
    assert(first_record(record) =~= record);
    assert(after_record(record) =~= Seq::<u8>::empty());
    lemma_mean_of_covered_entries(entries, min_time, max_time);
    lemma_store_of_entries(entries);
    assert(data.dom().finite()) by {
        vstd::seq_lib::seq_to_set_is_finite(timestamps_of(entries));
    }
    lemma_range_mean_bounds(data, min_time, max_time);
    let mean = range_mean(data, min_time, max_time);
    let later = drain(data, Seq::<u8>::empty());
    assert(later.output =~= Seq::<u8>::empty());
    assert(answer_bytes(answer_to(data, query)) == be_bytes(mean));
    assert(drain(data, record).output =~= be_bytes(mean));
    assert(Seq::<u8>::empty() + be_bytes(mean) =~= be_bytes(mean));
}

/// The handler of one connection.
pub struct Connection {
    reader: Reader,
    state: State,
    open: bool,
}

impl View for Connection {
    type V = Session;

    closed spec fn view(&self) -> Session {
        Session { data: self.state@, buffer: self.reader@, open: self.open }
    }
}

impl Connection {
    /// A connection as it is accepted: open, nothing stored, nothing buffered.
    pub fn new() -> (connection: Connection)
        ensures
            connection@ == (Session {
                data: Map::<i32, i32>::empty(),
                buffer: Seq::<u8>::empty(),
                open: true,
            }),
    {
        Connection { reader: Reader::new(), state: State::default(), open: true }
    }

    /// Whether the connection is still open.
    pub fn is_open(&self) -> (open: bool)
        ensures
            open == self@.open,
    {
        self.open
    }

    /// Takes the bytes of one read from the stream, none of them meaning that
    /// the stream has ended, works through every whole record now buffered,
    /// and returns the bytes to write back.
    pub fn receive(&mut self, bytes: &[u8]) -> (output: Vec<u8>)
        ensures
            final(self)@ == session_after(old(self)@, bytes@),
            output@ == output_of(old(self)@, bytes@),
    {
        let mut output: Vec<u8> = Vec::new();
        if !self.open {
            return output;
        }
        let ghost whole = drain(old(self)@.data, old(self)@.buffer + bytes@);
        let ghost mut current = old(self)@.buffer + bytes@;
        let mut step = self.reader.receive(bytes);
        let mut open = true;
        loop
            invariant_except_break
                open,
                match step {
                    ReadStep::Message(message) => has_record(current) && parse_record(
                        first_record(current),
                    ) == Ok::<Message, MessageParseError>(message),
                    ReadStep::Closed => if has_record(current) {
                        parse_record(first_record(current)) is Err
                    } else {
                        bytes@.len() == 0
                    },
                    ReadStep::NeedData => !has_record(current),
                },
                self.reader@ == (if has_record(current) {
                    after_record(current)
                } else {
                    current
                }),
                whole.data == drain(self.state@, current).data,
                whole.rest == drain(self.state@, current).rest,
                whole.open == drain(self.state@, current).open,
                whole.output == output@ + drain(self.state@, current).output,
            ensures
                whole.data == self.state@,
                whole.rest == self.reader@,
                whole.output == output@,
                open ==> whole.open,
                whole.open && bytes@.len() > 0 ==> open,
            decreases current.len(),
        {
            match step {
                ReadStep::Message(message) => {
                    match handle_message(message, &mut self.state) {
                        Ok(Some(mean)) => {
                            let answer: [u8; 4] = i32_to_be(mean);
                            let ghost written = output@;
                            output.push(answer[0]);
                            output.push(answer[1]);
                            output.push(answer[2]);
                            output.push(answer[3]);
                            assert(output@ =~= written + be_bytes(mean as int));
                        },
                        Ok(None) => {},
                        Err(_) => {
                            open = false;
                            assert(output@ + Seq::<u8>::empty() =~= output@);
                            break ;
                        },
                    }
                    proof {
                        let later = drain(self.state@, after_record(current));
                        assert(whole.output =~= output@ + later.output);
                        current = after_record(current);
                    }
                    step = self.reader.read();
                },
                ReadStep::Closed => {
                    assert(output@ + Seq::<u8>::empty() =~= output@);
                    open = false;
                    break ;
                },
                ReadStep::NeedData => {
                    assert(output@ + Seq::<u8>::empty() =~= output@);
                    break ;
                },
            }
        }
        self.open = open && bytes.len() > 0;
        output
    }
}

} // verus!
