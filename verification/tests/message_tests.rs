use reassembly::message::MessageError;
use reassembly::message::OrderedMessage;

#[test]
fn message_works() {
    let message = OrderedMessage { data: vec![123], index: 1 };
    let bytes = message.into_bytes();

    let expected = vec![0, 0, 0, 0, 0, 0, 0, 1, 123];
    assert_eq!(expected, bytes);
}

#[test]
fn message_round_trips_through_bytes() {
    let message = OrderedMessage { data: vec![9, 8, 7, 6], index: 260 };
    let bytes = message.clone().into_bytes();
    let decoded = OrderedMessage::try_from_bytes(bytes).unwrap();
    assert_eq!(message, decoded);
}

#[test]
fn empty_payload_round_trips_through_bytes() {
    let message = OrderedMessage { data: Vec::new(), index: u64::MAX - 1 };
    let bytes = message.clone().into_bytes();
    assert_eq!(8, bytes.len());
    let decoded = OrderedMessage::try_from_bytes(bytes).unwrap();
    assert_eq!(message, decoded);
}

#[test]
fn message_decoding_fails_when_too_short() {
    let bytes = vec![0, 1, 2, 3, 4, 5, 6];
    assert_eq!(
        MessageError::TooShort,
        OrderedMessage::try_from_bytes(bytes).unwrap_err()
    );
}

#[test]
fn message_decoding_reads_index_and_payload() {
    let bytes = vec![0, 0, 0, 0, 0, 0, 1, 0, 42, 43];
    let decoded = OrderedMessage::try_from_bytes(bytes).unwrap();
    assert_eq!(256, decoded.index);
    assert_eq!(vec![42, 43], decoded.data);
}
