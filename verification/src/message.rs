//! The typed form of a nine-byte record: an opcode byte followed by two
//! big-endian signed 32-bit operands.

use crate::wire::{be_bytes, be_i32, i32_from_be, i32_to_be, lemma_be_bytes_of_decoded, lemma_be_roundtrip};
use vstd::prelude::*;
use vstd::slice::slice_to_vec;

verus! {

/// Length of a record on the wire.
pub const RECORD_LEN: usize = 9;

/// Opcode byte of an insert record, the letter `I`.
pub const OPCODE_INSERT: u8 = 0x49;

/// Opcode byte of a query record, the letter `Q`.
pub const OPCODE_QUERY: u8 = 0x51;

/// A price observed at a point in time.
#[derive(Clone, Copy, Debug, PartialEq, Eq, Structural)]
pub struct Insert {
    pub timestamp: i32,
    pub price: i32,
}

/// A request for the mean price over a closed range of timestamps.
#[derive(Clone, Copy, Debug, PartialEq, Eq, Structural)]
pub struct Query {
    pub min_time: i32,
    pub max_time: i32,
}

/// A record after parsing.
#[derive(Clone, Copy, Debug, PartialEq, Eq, Structural)]
pub enum Message {
    Insert(Insert),
    Query(Query),
}

/// Why bytes could not be read as a message.
#[derive(Clone, Debug, PartialEq, Eq)]
pub enum MessageParseError {
    /// The opcode byte is neither `I` nor `Q`; holds that byte as a character.
    InvalidMessageType(char),
    /// An operand was given in other than four bytes; holds those bytes.
    ByteRangeError(Vec<u8>),
}

/// A signed 32-bit operand read from the wire.
#[derive(Clone, Copy, Debug, PartialEq, Eq, Structural)]
pub struct I32Result(pub i32);

impl I32Result {
    /// Reads an operand from a slice, which must hold exactly four bytes.
    pub fn try_from(value: &[u8]) -> (result: Result<I32Result, MessageParseError>)
        ensures
            value@.len() == 4 ==> result == Ok::<I32Result, MessageParseError>(
                I32Result(be_i32(value@[0], value@[1], value@[2], value@[3]) as i32),
            ),
            value@.len() != 4 ==> (result matches Err(MessageParseError::ByteRangeError(bytes))
                && bytes@ == value@),
    {
        if value.len() == 4 {
            Ok(I32Result(i32_from_be(value[0], value[1], value[2], value[3])))
        } else {
            Err(MessageParseError::ByteRangeError(slice_to_vec(value)))
        }
    }
}

impl From<I32Result> for i32 {
    fn from(result: I32Result) -> (value: i32) {
        result.0
    }
}

impl vstd::std_specs::convert::FromSpecImpl<I32Result> for i32 {
    open spec fn obeys_from_spec() -> bool {
        true
    }

    open spec fn from_spec(result: I32Result) -> i32 {
        result.0
    }
}

/// The first operand of a record of at least nine bytes.
pub open spec fn first_operand(record: Seq<u8>) -> i32 {
    be_i32(record[1], record[2], record[3], record[4]) as i32
}

/// The second operand of a record of at least nine bytes.
pub open spec fn second_operand(record: Seq<u8>) -> i32 {
    be_i32(record[5], record[6], record[7], record[8]) as i32
}

/// What a nine-byte record means: the opcode selects the kind of message, and
/// the two operands fill its fields in order. Any other opcode is an error
/// that names the byte.
pub open spec fn parse_record(record: Seq<u8>) -> Result<Message, MessageParseError> {
    if record[0] == OPCODE_INSERT {
        Ok(
            Message::Insert(
                Insert { timestamp: first_operand(record), price: second_operand(record) },
            ),
        )
    } else if record[0] == OPCODE_QUERY {
        Ok(
            Message::Query(
                Query { min_time: first_operand(record), max_time: second_operand(record) },
            ),
        )
    } else {
        Err(MessageParseError::InvalidMessageType(record[0] as char))
    }
}

/// The nine bytes that spell a message on the wire.
pub open spec fn encode_message(message: Message) -> Seq<u8> {
    match message {
        Message::Insert(Insert { timestamp, price }) => seq![OPCODE_INSERT] + be_bytes(
            timestamp as int,
        ) + be_bytes(price as int),
        Message::Query(Query { min_time, max_time }) => seq![OPCODE_QUERY] + be_bytes(
            min_time as int,
        ) + be_bytes(max_time as int),
    }
}

impl Message {
    /// Parses one record.
    pub fn try_from(value: [u8; 9]) -> (result: Result<Message, MessageParseError>)
        ensures
            result == parse_record(value@),
    {
        let message_type: u8 = value[0];
        let lhs: i32 = i32_from_be(value[1], value[2], value[3], value[4]);
        let rhs: i32 = i32_from_be(value[5], value[6], value[7], value[8]);
        if message_type == OPCODE_INSERT {
            Ok(Message::Insert(Insert { timestamp: lhs, price: rhs }))
        } else if message_type == OPCODE_QUERY {
            Ok(Message::Query(Query { min_time: lhs, max_time: rhs }))
        } else {
            Err(MessageParseError::InvalidMessageType(message_type as char))
        }
    }

    /// Writes the message as one record.
    pub fn to_bytes(&self) -> (bytes: [u8; 9])
        ensures
            bytes@ == encode_message(*self),
    {
        let (opcode, lhs, rhs): (u8, i32, i32) = match self {
            Message::Insert(insert) => (OPCODE_INSERT, insert.timestamp, insert.price),
            Message::Query(query) => (OPCODE_QUERY, query.min_time, query.max_time),
        };
        let a: [u8; 4] = i32_to_be(lhs);
        let b: [u8; 4] = i32_to_be(rhs);
        let bytes: [u8; 9] = [opcode, a[0], a[1], a[2], a[3], b[0], b[1], b[2], b[3]];
        assert(bytes@ =~= encode_message(*self));
        bytes
    }
}

/// Parsing the bytes of a message gives the message back: the opcode and both
/// operands survive the trip over the wire.
pub proof fn lemma_parse_encode(message: Message)
    ensures
        encode_message(message).len() == RECORD_LEN,
        parse_record(encode_message(message)) == Ok::<Message, MessageParseError>(message),
{
    match message {
        Message::Insert(Insert { timestamp, price }) => {
            lemma_be_roundtrip(timestamp as int);
            lemma_be_roundtrip(price as int);
        },
        Message::Query(Query { min_time, max_time }) => {
            lemma_be_roundtrip(min_time as int);
            lemma_be_roundtrip(max_time as int);
        },
    }
}

/// A record that parses is spelled back byte for byte by the message it
/// parses to.
pub proof fn lemma_encode_parse(record: Seq<u8>)
    requires
        record.len() == RECORD_LEN,
        parse_record(record) is Ok,
    ensures
        encode_message(parse_record(record)->Ok_0) == record,
{
    lemma_be_bytes_of_decoded(record[1], record[2], record[3], record[4]);
    lemma_be_bytes_of_decoded(record[5], record[6], record[7], record[8]);
    assert(encode_message(parse_record(record)->Ok_0) =~= record);
}

} // verus!
