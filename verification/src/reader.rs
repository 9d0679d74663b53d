//! Framing: cutting a stream of bytes, however it is delivered, into
//! nine-byte records.

use crate::message::{parse_record, Message, MessageParseError, RECORD_LEN};
use vstd::prelude::*;

verus! {

/// Where reading stands after a step.
#[derive(Clone, Copy, Debug, PartialEq, Eq, Structural)]
pub enum ReadStep {
    /// A record was taken from the buffer and parsed to this message.
    Message(Message),
    /// Nothing more will be read: a record did not parse, or the stream ended.
    Closed,
    /// The buffer holds no whole record; more bytes are wanted from the stream.
    NeedData,
}

/// Whether a buffer holds at least one whole record.
pub open spec fn has_record(buffer: Seq<u8>) -> bool {
    buffer.len() >= RECORD_LEN
}

/// The first record of a buffer that holds one.
pub open spec fn first_record(buffer: Seq<u8>) -> Seq<u8> {
    buffer.subrange(0, RECORD_LEN as int)
}

/// What is left of a buffer once its first record is taken.
pub open spec fn after_record(buffer: Seq<u8>) -> Seq<u8> {
    buffer.subrange(RECORD_LEN as int, buffer.len() as int)
}

/// The step that the outcome of parsing a record amounts to: a parsed message
/// is passed on, a record that does not parse ends the reading.
pub open spec fn step_of(parsed: Result<Message, MessageParseError>) -> ReadStep {
    match parsed {
        Ok(message) => ReadStep::Message(message),
        Err(_) => ReadStep::Closed,
    }
}

/// The step taken on a buffer before any byte is asked of the stream.
pub open spec fn read_step(buffer: Seq<u8>) -> ReadStep {
    if has_record(buffer) {
        step_of(parse_record(first_record(buffer)))
    } else {
        ReadStep::NeedData
    }
}

/// The buffer that a step leaves behind: without its first record, if it had one.
pub open spec fn read_rest(buffer: Seq<u8>) -> Seq<u8> {
    if has_record(buffer) {
        after_record(buffer)
    } else {
        buffer
    }
}

/// The step taken once the stream has delivered `bytes` to be put behind
/// `buffer`; no bytes means that the stream has ended, and a partial record
/// left at that point is dropped.
pub open spec fn receive_step(buffer: Seq<u8>, bytes: Seq<u8>) -> ReadStep {
    if has_record(buffer + bytes) {
        step_of(parse_record(first_record(buffer + bytes)))
    } else if bytes.len() == 0 {
        ReadStep::Closed
    } else {
        ReadStep::NeedData
    }
}

/// The bytes of one connection that have arrived and are not yet consumed.
pub struct Reader {
    remaining_buffer: Vec<u8>,
}

impl View for Reader {
    type V = Seq<u8>;

    closed spec fn view(&self) -> Seq<u8> {
        self.remaining_buffer@
    }
}

impl Reader {
    /// A reader with nothing buffered.
    pub fn new() -> (reader: Reader)
        ensures
            reader@ == Seq::<u8>::empty(),
    {
        Reader { remaining_buffer: Vec::new() }
    }

    /// Takes the first record from the buffer, if it holds a whole one, and
    /// parses it; the rest of the buffer stays. With eight bytes or fewer the
    /// buffer is left alone.
    pub fn extract_next_bytes(&mut self) -> (next: Option<Result<Message, MessageParseError>>)
        ensures
            has_record(old(self)@) ==> next == Some(parse_record(first_record(old(self)@)))
                && final(self)@ == after_record(old(self)@),
            !has_record(old(self)@) ==> next is None && final(self)@ == old(self)@,
    {
        if self.remaining_buffer.len() > 8 {
            let rest: Vec<u8> = self.remaining_buffer.split_off(9);
            let next: [u8; 9] = [
                self.remaining_buffer[0],
                self.remaining_buffer[1],
                self.remaining_buffer[2],
                self.remaining_buffer[3],
                self.remaining_buffer[4],
                self.remaining_buffer[5],
                self.remaining_buffer[6],
                self.remaining_buffer[7],
                self.remaining_buffer[8],
            ];
            assert(next@ =~= first_record(old(self)@));
            self.remaining_buffer = rest;
            Some(Message::try_from(next))
        } else {
            None
        }
    }

    /// Puts bytes that the stream delivered behind those already buffered.
    pub fn fill(&mut self, bytes: &[u8])
        ensures
            final(self)@ == old(self)@ + bytes@,
    {
        self.remaining_buffer.extend_from_slice(bytes);
        assert(self.remaining_buffer@ =~= old(self)@ + bytes@);
    }

    /// One step of reading on what is buffered: the next message if a whole
    /// record is there, the end if that record does not parse, and otherwise
    /// the request for more bytes.
    pub fn read(&mut self) -> (step: ReadStep)
        ensures
            step == read_step(old(self)@),
            final(self)@ == read_rest(old(self)@),
    {
        match self.extract_next_bytes() {
            Some(Ok(message)) => ReadStep::Message(message),
            Some(Err(_)) => ReadStep::Closed,
            None => ReadStep::NeedData,
        }
    }

    /// One step of reading after the stream delivered `bytes`, none of them
    /// meaning that the stream has ended.
    pub fn receive(&mut self, bytes: &[u8]) -> (step: ReadStep)
        ensures
            step == receive_step(old(self)@, bytes@),
            final(self)@ == read_rest(old(self)@ + bytes@),
    {
        self.fill(bytes);
        match self.extract_next_bytes() {
            Some(Ok(message)) => ReadStep::Message(message),
            Some(Err(_)) => ReadStep::Closed,
            None => {
                if bytes.len() == 0 {
                    ReadStep::Closed
                } else {
                    ReadStep::NeedData
                }
            },
        }
    }
}

} // verus!
