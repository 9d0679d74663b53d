use means::message::{Insert, Message, MessageParseError, Query};
use means::reader::{ReadStep, Reader};

const INSERT: [u8; 9] = [0x49, 0x00, 0x00, 0x30, 0x39, 0x00, 0x00, 0x00, 0x65];
const QUERY: [u8; 9] = [0x51, 0x00, 0x00, 0x30, 0x00, 0x00, 0x00, 0x40, 0x00];
const BAD: [u8; 9] = [0x5a, 0x00, 0x00, 0x30, 0x00, 0x00, 0x00, 0x40, 0x00];

fn insert_message() -> Message {
    Message::Insert(Insert { timestamp: 12345, price: 101 })
}

fn query_message() -> Message {
    Message::Query(Query { min_time: 12288, max_time: 16384 })
}

#[test]
fn empty_buffer_holds_no_record() {
    let mut reader = Reader::new();
    assert_eq!(reader.extract_next_bytes(), None);
    assert_eq!(reader.read(), ReadStep::NeedData);
}

#[test]
fn eight_bytes_are_no_record() {
    let mut reader = Reader::new();
    reader.fill(&INSERT[0..8]);
    assert_eq!(reader.extract_next_bytes(), None);
    reader.fill(&INSERT[8..9]);
    assert_eq!(reader.extract_next_bytes(), Some(Ok(insert_message())));
    assert_eq!(reader.extract_next_bytes(), None);
}

#[test]
fn nine_bytes_are_one_record() {
    let mut reader = Reader::new();
    reader.fill(&QUERY);
    assert_eq!(reader.extract_next_bytes(), Some(Ok(query_message())));
    assert_eq!(reader.extract_next_bytes(), None);
}

#[test]
fn records_come_out_in_order_and_the_rest_stays() {
    let mut reader = Reader::new();
    let mut bytes = Vec::new();
    bytes.extend_from_slice(&INSERT);
    bytes.extend_from_slice(&QUERY);
    bytes.extend_from_slice(&INSERT[0..5]);
    reader.fill(&bytes);
    assert_eq!(reader.extract_next_bytes(), Some(Ok(insert_message())));
    assert_eq!(reader.extract_next_bytes(), Some(Ok(query_message())));
    assert_eq!(reader.extract_next_bytes(), None);
    reader.fill(&INSERT[5..9]);
    assert_eq!(reader.extract_next_bytes(), Some(Ok(insert_message())));
    assert_eq!(reader.extract_next_bytes(), None);
}

#[test]
fn record_that_does_not_parse_is_still_consumed() {
    let mut reader = Reader::new();
    reader.fill(&BAD);
    reader.fill(&QUERY);
    assert_eq!(
        reader.extract_next_bytes(),
        Some(Err(MessageParseError::InvalidMessageType('Z')))
    );
    assert_eq!(reader.extract_next_bytes(), Some(Ok(query_message())));
}

#[test]
fn read_gives_message_end_or_request() {
    let mut reader = Reader::new();
    reader.fill(&INSERT);
    reader.fill(&BAD);
    reader.fill(&[1, 2, 3]);
    assert_eq!(reader.read(), ReadStep::Message(insert_message()));
    assert_eq!(reader.read(), ReadStep::Closed);
    assert_eq!(reader.read(), ReadStep::NeedData);
}

#[test]
fn receive_asks_for_more_until_a_record_is_whole() {
    let mut reader = Reader::new();
    for i in 0..8 {
        assert_eq!(reader.receive(&INSERT[i..i + 1]), ReadStep::NeedData);
    }
    assert_eq!(reader.receive(&INSERT[8..9]), ReadStep::Message(insert_message()));
    assert_eq!(reader.read(), ReadStep::NeedData);
}

#[test]
fn receive_gives_the_first_of_several_records() {
    let mut reader = Reader::new();
    let mut bytes = Vec::new();
    bytes.extend_from_slice(&INSERT);
    bytes.extend_from_slice(&QUERY);
    assert_eq!(reader.receive(&bytes), ReadStep::Message(insert_message()));
    assert_eq!(reader.read(), ReadStep::Message(query_message()));
    assert_eq!(reader.read(), ReadStep::NeedData);
}

#[test]
fn end_of_stream_closes() {
    let mut reader = Reader::new();
    assert_eq!(reader.receive(&[]), ReadStep::Closed);
}

#[test]
fn end_of_stream_drops_a_partial_record() {
    let mut reader = Reader::new();
    assert_eq!(reader.receive(&INSERT[0..4]), ReadStep::NeedData);
    assert_eq!(reader.receive(&[]), ReadStep::Closed);
}

#[test]
fn receive_closes_on_a_record_that_does_not_parse() {
    let mut reader = Reader::new();
    assert_eq!(reader.receive(&BAD), ReadStep::Closed);
}

#[test]
fn fragments_decode_like_the_whole() {
    let mut stream = Vec::new();
    for i in 0..20 {
        stream.extend_from_slice(
            &Message::Insert(Insert { timestamp: i, price: i * 3 - 7 }).to_bytes(),
        );
        stream.extend_from_slice(
            &Message::Query(Query { min_time: -i, max_time: i }).to_bytes(),
        );
    }
    stream.extend_from_slice(&[0x49, 1, 2]);

    let mut whole = Reader::new();
    whole.fill(&stream);
    let mut expected = Vec::new();
    while let Some(next) = whole.extract_next_bytes() {
        expected.push(next);
    }
    assert_eq!(expected.len(), 40);

    for size in [1, 2, 3, 4, 5, 7, 8, 9, 10, 13, 64] {
        let mut reader = Reader::new();
        let mut decoded = Vec::new();
        for chunk in stream.chunks(size) {
            reader.fill(chunk);
            while let Some(next) = reader.extract_next_bytes() {
                decoded.push(next);
            }
        }
        assert_eq!(decoded, expected);
    }
}
