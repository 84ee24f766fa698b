use reassembly::message::OrderedMessage;
use reassembly::response::Response;
use reassembly::response::ResponseError;

#[test]
fn response_works() {
    let message = OrderedMessage { data: vec![222], index: 1 };
    let response = Response::new(111, message);
    let bytes = response.into_bytes();

    assert_eq!(
        vec![0, 0, 0, 0, 0, 0, 0, 111, 0, 0, 0, 0, 0, 0, 0, 1, 222],
        bytes
    );
}

#[test]
fn fails_when_zero_bytes_are_supplied() {
    let response_bytes = Vec::new();

    assert_eq!(
        ResponseError::NoData,
        Response::try_from_bytes(&response_bytes).unwrap_err()
    );
}

#[test]
fn fails_when_connection_id_bytes_are_too_short() {
    let response_bytes = vec![0, 1, 2, 3, 4, 5, 6];
    assert_eq!(
        ResponseError::ConnectionIdTooShort,
        Response::try_from_bytes(&response_bytes).unwrap_err()
    );
}

#[test]
fn works_when_there_is_no_data() {
    let message = OrderedMessage { data: Vec::new(), index: 1 };
    let mut message_bytes = message.clone().into_bytes();
    let mut response_bytes: Vec<u8> = vec![0, 1, 2, 3, 4, 5, 6, 7];
    response_bytes.append(&mut message_bytes);
    let expected = Response::new(u64::from_be_bytes([0, 1, 2, 3, 4, 5, 6, 7]), message);
    let actual = Response::try_from_bytes(&response_bytes).unwrap();
    assert_eq!(expected.connection_id, actual.connection_id);
    assert_eq!(expected.message, actual.message);
}

#[test]
fn works_when_there_is_data() {
    let response_bytes = vec![
        0, 1, 2, 3, 4, 5, 6, 7, 0, 0, 0, 0, 0, 0, 0, 1, 255, 255, 255,
    ];
    let expected = Response::new(
        u64::from_be_bytes([0, 1, 2, 3, 4, 5, 6, 7]),
        OrderedMessage {
            index: 1,
            data: vec![255, 255, 255],
        },
    );
    let actual = Response::try_from_bytes(&response_bytes).unwrap();
    assert_eq!(expected.connection_id, actual.connection_id);
    assert_eq!(expected.message, actual.message);
}

#[test]
fn fails_when_fragment_index_bytes_are_too_short() {
    // eight id bytes followed by a seven-byte remainder: too short for the
    // fragment index
    let response_bytes = vec![0, 0, 0, 0, 0, 0, 0, 111, 1, 2, 3, 4, 5, 6, 7];
    assert_eq!(
        ResponseError::OrderedMessageDeserializationError,
        Response::try_from_bytes(&response_bytes).unwrap_err()
    );
}

#[test]
fn response_round_trips_through_bytes() {
    let message = OrderedMessage { data: vec![222], index: 1 };
    let response = Response::new(111, message);
    let bytes = response.into_bytes();

    let decoded = Response::try_from_bytes(&bytes).unwrap();
    assert_eq!(111, decoded.connection_id);
    assert_eq!(1, decoded.message.index);
    assert_eq!(vec![222], decoded.message.data);
}
