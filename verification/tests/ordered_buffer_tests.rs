use reassembly::ordered_buffer::Message;
use reassembly::ordered_buffer::OrderedMessageBuffer;
use reassembly::ordered_buffer::OrderedMessageSender;

#[test]
fn increase_as_fragments_are_sent() {
    let mut packetizer = OrderedMessageSender::new(4);
    let first_bytes = vec![1, 2, 3, 4];
    let second_bytes = vec![5, 6, 7, 8];

    let first_fragments = packetizer.packetize(first_bytes);
    assert_eq!(1, first_fragments.len());
    let first_indexes: Vec<u64> = first_fragments.iter().map(|frag| frag.index).collect();
    assert_eq!(first_indexes, vec![0]);

    let second_fragments = packetizer.packetize(second_bytes);
    assert_eq!(1, second_fragments.len());
    let second_indexes: Vec<u64> = second_fragments.iter().map(|frag| frag.index).collect();
    assert_eq!(second_indexes, vec![1]);
}

#[test]
fn sender_produces_a_vec_with_a_single_fragment() {
    let mut packetizer = OrderedMessageSender::new(4);
    let bytes: Vec<u8> = vec![1, 2, 3, 4];
    let output = packetizer.packetize(bytes);
    assert_eq!(1, output.len());
    assert_eq!(0, output.first().unwrap().index);
}

#[test]
fn sender_produces_a_vec_with_a_single_fragment_under_larger_max() {
    let mut packetizer = OrderedMessageSender::new(5);
    let bytes: Vec<u8> = vec![1, 2, 3, 4];
    let output = packetizer.packetize(bytes);
    assert_eq!(1, output.len());
    assert_eq!(0, output.first().unwrap().index);
}

#[test]
fn lib_produces_a_vec_with_modulo_fragments() {
    let mut packetizer = OrderedMessageSender::new(3);
    let bytes: Vec<u8> = vec![1, 2, 3, 4];
    let output = packetizer.packetize(bytes);
    assert_eq!(2, output.len());
    // check that indexes increase properly
    assert_eq!(0, output[0].index);
    assert_eq!(1, output[1].index);
}

#[test]
fn read_returns_ordered_bytes_and_resets_buffer() {
    let mut buffer = OrderedMessageBuffer::new();

    let first_frag = Message { data: vec![1, 2, 3, 4], index: 0 };
    let second_frag = Message { data: vec![5, 6, 7, 8], index: 1 };

    buffer.write(first_frag);
    let first_read = buffer.read().unwrap();
    assert_eq!(vec![1, 2, 3, 4], first_read);

    buffer.write(second_frag);
    let second_read = buffer.read().unwrap();
    assert_eq!(vec![5, 6, 7, 8], second_read);

    assert_eq!(None, buffer.read()); // second read on fully ordered result set is empty
}

#[test]
fn lib_test_multiple_adds_stacks_up_bytes_in_the_buffer() {
    let mut buffer = OrderedMessageBuffer::new();

    let first_frag = Message { data: vec![1, 2, 3, 4], index: 0 };
    let second_frag = Message { data: vec![5, 6, 7, 8], index: 1 };

    buffer.write(first_frag);
    buffer.write(second_frag);
    let second_read = buffer.read();
    assert_eq!(vec![1, 2, 3, 4, 5, 6, 7, 8], second_read.unwrap());
    assert_eq!(None, buffer.read()); // second read on fully ordered result set is empty
}

#[test]
fn out_of_order_adds_results_in_ordered_byte_vector() {
    let mut buffer = OrderedMessageBuffer::new();

    let first_frag = Message { data: vec![1, 2, 3, 4], index: 0 };
    let second_frag = Message { data: vec![5, 6, 7, 8], index: 1 };

    buffer.write(second_frag);
    buffer.write(first_frag);
    let read = buffer.read();
    assert_eq!(vec![1, 2, 3, 4, 5, 6, 7, 8], read.unwrap());
    assert_eq!(None, buffer.read()); // second read on fully ordered result set is empty
}

fn setup() -> OrderedMessageBuffer {
    let mut buffer = OrderedMessageBuffer::new();

    let zero_frag = Message { data: vec![0, 0, 0, 0], index: 0 };
    let one_frag = Message { data: vec![1, 1, 1, 1], index: 1 };
    let three_frag = Message { data: vec![3, 3, 3, 3], index: 3 };

    buffer.write(zero_frag);
    buffer.write(one_frag);
    buffer.write(three_frag);
    buffer
}

#[test]
fn everything_up_to_the_indexing_gap_is_returned_xxx() {
    let mut buffer = setup();
    let ordered_bytes = buffer.read().unwrap();
    assert_eq!([0, 0, 0, 0, 1, 1, 1, 1].to_vec(), ordered_bytes);

    // we shouldn't get any more from a second attempt if nothing is added
    assert_eq!(None, buffer.read());

    // let's add another fragment, leaving a gap in place at index 2
    let five_frag = Message { data: vec![5, 5, 5, 5], index: 5 };
    buffer.write(five_frag);
    assert_eq!(None, buffer.read());
}

#[test]
fn filling_the_gap_allows_us_to_get_everything() {
    let mut buffer = setup();
    buffer.read(); // that burns the first two. We still have a gap before the 3s.

    let two_frag = Message { data: vec![2, 2, 2, 2], index: 2 };
    buffer.write(two_frag);

    let more_ordered_bytes = buffer.read().unwrap();
    assert_eq!([2, 2, 2, 2, 3, 3, 3, 3].to_vec(), more_ordered_bytes);

    // let's add another fragment
    let five_frag = Message { data: vec![5, 5, 5, 5], index: 5 };
    buffer.write(five_frag);

    assert_eq!(None, buffer.read());

    // let's fill in the gap of 4s now and read again
    let four_frag = Message { data: vec![4, 4, 4, 4], index: 4 };
    buffer.write(four_frag);

    assert_eq!([4, 4, 4, 4, 5, 5, 5, 5].to_vec(), buffer.read().unwrap());

    // at this point we should again get back nothing if we try a read
    assert_eq!(None, buffer.read());
}

#[test]
fn duplicate_index_keeps_the_first_fragment() {
    let mut buffer = OrderedMessageBuffer::new();
    buffer.write(Message { data: vec![1], index: 0 });
    buffer.write(Message { data: vec![2], index: 0 });
    assert_eq!(vec![1], buffer.read().unwrap());
    assert_eq!(None, buffer.read());
}

#[test]
fn already_delivered_index_is_dropped() {
    let mut buffer = OrderedMessageBuffer::new();
    buffer.write(Message { data: vec![1], index: 0 });
    assert_eq!(vec![1], buffer.read().unwrap());

    // a duplicate delivery of index 0 arrives after it was already read
    buffer.write(Message { data: vec![9], index: 0 });
    assert_eq!(None, buffer.read());
}

#[test]
fn empty_payloads_are_delivered_in_order() {
    let mut buffer = OrderedMessageBuffer::new();
    buffer.write(Message { data: Vec::new(), index: 0 });
    buffer.write(Message { data: vec![7], index: 1 });
    assert_eq!(vec![7], buffer.read().unwrap());
    assert_eq!(None, buffer.read());
}

#[test]
fn sender_covers_the_whole_input() {
    let mut packetizer = OrderedMessageSender::new(2);
    let bytes: Vec<u8> = vec![10, 20, 30, 40, 50];
    let output = packetizer.packetize(bytes.clone());

    // ceil(5 / 2) fragments, payloads concatenating back to the input
    assert_eq!(3, output.len());
    let mut reassembled: Vec<u8> = Vec::new();
    for frag in &output {
        reassembled.extend_from_slice(&frag.data);
    }
    assert_eq!(bytes, reassembled);
}

#[test]
fn sender_yields_no_fragments_for_empty_input() {
    let mut packetizer = OrderedMessageSender::new(4);
    assert_eq!(0, packetizer.packetize(Vec::new()).len());
    // the counter has not moved
    assert_eq!(0, packetizer.packetize(vec![1])[0].index);
}

#[test]
fn fragments_travel_from_sender_to_buffer() {
    let mut sender = OrderedMessageSender::new(4);
    let mut buffer = OrderedMessageBuffer::new();
    let bytes: Vec<u8> = vec![1, 2, 3, 4, 5, 6, 7, 8, 9];

    let fragments = sender.packetize(bytes.clone());
    // deliver them in reverse order; the buffer corrects it
    for frag in fragments.into_iter().rev() {
        buffer.write(frag);
    }
    assert_eq!(bytes, buffer.read().unwrap());
    assert_eq!(None, buffer.read());
}
