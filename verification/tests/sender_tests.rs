use reassembly::sender::OrderedMessageSender;

#[test]
fn increase_as_messages_are_sent() {
    let mut sender = OrderedMessageSender::new();
    let first_bytes = vec![1, 2, 3, 4];
    let second_bytes = vec![5, 6, 7, 8];

    let first_message = sender.packetize(first_bytes);

    assert_eq!(first_message.index, 0);

    let second_message = sender.packetize(second_bytes);
    assert_eq!(second_message.index, 1);
}

#[test]
fn packetize_keeps_the_bytes_intact() {
    let mut sender = OrderedMessageSender::new();
    let message = sender.packetize(vec![5, 4, 3]);
    assert_eq!(vec![5, 4, 3], message.data);
}
