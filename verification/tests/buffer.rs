use ordered_buffer::buffer::OrderedMessageBuffer;
use ordered_buffer::message::Message;

#[test]
fn read_returns_ordered_bytes_and_resets_buffer() {
    let mut buffer = OrderedMessageBuffer::new();

    let first_message = Message {
        data: vec![1, 2, 3, 4],
        index: 0,
    };
    let second_message = Message {
        data: vec![5, 6, 7, 8],
        index: 1,
    };

    buffer.write(first_message);
    let first_read = buffer.read().unwrap();
    assert_eq!(vec![1, 2, 3, 4], first_read);

    buffer.write(second_message);
    let second_read = buffer.read().unwrap();
    assert_eq!(vec![5, 6, 7, 8], second_read);

    assert_eq!(None, buffer.read()); // second read on fully ordered result set is empty
}

#[test]
fn test_multiple_adds_stacks_up_bytes_in_the_buffer() {
    let mut buffer = OrderedMessageBuffer::new();

    let first_message = Message {
        data: vec![1, 2, 3, 4],
        index: 0,
    };
    let second_message = Message {
        data: vec![5, 6, 7, 8],
        index: 1,
    };

    buffer.write(first_message);
    buffer.write(second_message);
    let second_read = buffer.read();
    assert_eq!(vec![1, 2, 3, 4, 5, 6, 7, 8], second_read.unwrap());
    assert_eq!(None, buffer.read()); // second read on fully ordered result set is empty
}

#[test]
fn out_of_order_adds_results_in_ordered_byte_vector() {
    let mut buffer = OrderedMessageBuffer::new();

    let first_message = Message {
        data: vec![1, 2, 3, 4],
        index: 0,
    };
    let second_message = Message {
        data: vec![5, 6, 7, 8],
        index: 1,
    };

    buffer.write(second_message);
    buffer.write(first_message);
    let read = buffer.read();
    assert_eq!(vec![1, 2, 3, 4, 5, 6, 7, 8], read.unwrap());
    assert_eq!(None, buffer.read()); // second read on fully ordered result set is empty
}

fn setup() -> OrderedMessageBuffer {
    let mut buffer = OrderedMessageBuffer::new();

    let zero_message = Message {
        data: vec![0, 0, 0, 0],
        index: 0,
    };
    let one_message = Message {
        data: vec![1, 1, 1, 1],
        index: 1,
    };

    let three_message = Message {
        data: vec![3, 3, 3, 3],
        index: 3,
    };

    buffer.write(zero_message);
    buffer.write(one_message);
    buffer.write(three_message);
    buffer
}

#[test]
fn everything_up_to_the_indexing_gap_is_returned_xxx() {
    let mut buffer = setup();
    let ordered_bytes = buffer.read().unwrap();
    assert_eq!([0, 0, 0, 0, 1, 1, 1, 1].to_vec(), ordered_bytes);

    // we shouldn't get any more from a second attempt if nothing is added
    assert_eq!(None, buffer.read());

    // let's add another message, leaving a gap in place at index 2
    let five_message = Message {
        data: vec![5, 5, 5, 5],
        index: 5,
    };
    buffer.write(five_message);
    assert_eq!(None, buffer.read());
}

#[test]
fn filling_the_gap_allows_us_to_get_everything() {
    let mut buffer = setup();
    buffer.read(); // that burns the first two. We still have a gap before the 3s.

    let two_message = Message {
        data: vec![2, 2, 2, 2],
        index: 2,
    };
    buffer.write(two_message);

    let more_ordered_bytes = buffer.read().unwrap();
    assert_eq!([2, 2, 2, 2, 3, 3, 3, 3].to_vec(), more_ordered_bytes);

    // let's add another message
    let five_message = Message {
        data: vec![5, 5, 5, 5],
        index: 5,
    };
    buffer.write(five_message);

    assert_eq!(None, buffer.read());

    // let's fill in the gap of 4s now and read again
    let four_message = Message {
        data: vec![4, 4, 4, 4],
        index: 4,
    };
    buffer.write(four_message);

    assert_eq!([4, 4, 4, 4, 5, 5, 5, 5].to_vec(), buffer.read().unwrap());

    // at this point we should again get back nothing if we try a read
    assert_eq!(None, buffer.read());
}

#[test]
fn reading_an_empty_buffer_yields_nothing() {
    let mut buffer = OrderedMessageBuffer::new();
    assert_eq!(None, buffer.read());
    assert_eq!(None, buffer.read());
}

#[test]
fn a_chunk_past_the_watermark_is_withheld() {
    let mut buffer = OrderedMessageBuffer::new();
    buffer.write(Message {
        data: vec![9, 9],
        index: 1,
    });
    // index 0 has not arrived, so nothing is contiguous yet
    assert_eq!(None, buffer.read());
}

#[test]
fn a_batch_of_three_drains_over_two_reads() {
    // a single read releases only up to one index past the watermark, so a
    // fresh batch of 0, 1, 2 comes out as 0 and 1 first, then 2
    let mut buffer = OrderedMessageBuffer::new();
    buffer.write(Message {
        data: vec![10, 11],
        index: 0,
    });
    buffer.write(Message {
        data: vec![20, 21],
        index: 1,
    });
    buffer.write(Message {
        data: vec![30, 31],
        index: 2,
    });
    assert_eq!(vec![10, 11, 20, 21], buffer.read().unwrap());
    assert_eq!(vec![30, 31], buffer.read().unwrap());
    assert_eq!(None, buffer.read());
}

#[test]
fn any_permutation_drains_in_order() {
    // indices 0..=3 written as 2, 0, 3, 1: repeated reads interspersed with
    // the remaining writes eventually yield the payloads in index order
    let mut buffer = OrderedMessageBuffer::new();
    let mut collected: Vec<u8> = Vec::new();

    buffer.write(Message {
        data: vec![2, 2],
        index: 2,
    });
    assert_eq!(None, buffer.read());
    buffer.write(Message {
        data: vec![0, 0],
        index: 0,
    });
    if let Some(bytes) = buffer.read() {
        collected.extend(bytes);
    }
    buffer.write(Message {
        data: vec![3, 3],
        index: 3,
    });
    buffer.write(Message {
        data: vec![1, 1],
        index: 1,
    });
    while let Some(bytes) = buffer.read() {
        collected.extend(bytes);
    }
    assert_eq!(vec![0, 0, 1, 1, 2, 2, 3, 3], collected);
    assert_eq!(None, buffer.read());
}

#[test]
fn write_order_does_not_change_the_result() {
    let first_message = Message {
        data: vec![1, 2, 3, 4],
        index: 0,
    };
    let second_message = Message {
        data: vec![5, 6, 7, 8],
        index: 1,
    };
    let first_again = Message {
        data: vec![1, 2, 3, 4],
        index: 0,
    };
    let second_again = Message {
        data: vec![5, 6, 7, 8],
        index: 1,
    };

    let mut forward = OrderedMessageBuffer::new();
    forward.write(first_message);
    forward.write(second_message);

    let mut backward = OrderedMessageBuffer::new();
    backward.write(second_again);
    backward.write(first_again);

    assert_eq!(forward.read(), backward.read());
    assert_eq!(forward.read(), backward.read());
}

#[test]
fn no_bytes_are_lost_or_duplicated_across_an_interleaving() {
    // every index 0..=4 is supplied exactly once, with reads interspersed;
    // the reads together return every payload byte exactly once, in order
    let mut buffer = OrderedMessageBuffer::new();
    let mut collected: Vec<u8> = Vec::new();

    buffer.write(Message {
        data: vec![40, 41, 42],
        index: 4,
    });
    buffer.write(Message {
        data: vec![0, 1, 2],
        index: 0,
    });
    while let Some(bytes) = buffer.read() {
        collected.extend(bytes);
    }
    buffer.write(Message {
        data: vec![20],
        index: 2,
    });
    buffer.write(Message {
        data: vec![10, 11],
        index: 1,
    });
    while let Some(bytes) = buffer.read() {
        collected.extend(bytes);
    }
    buffer.write(Message {
        data: vec![30],
        index: 3,
    });
    while let Some(bytes) = buffer.read() {
        collected.extend(bytes);
    }
    assert_eq!(vec![0, 1, 2, 10, 11, 20, 30, 40, 41, 42], collected);
    assert_eq!(None, buffer.read());
}

#[test]
fn an_empty_payload_is_released_like_any_other() {
    let mut buffer = OrderedMessageBuffer::new();
    buffer.write(Message {
        data: vec![],
        index: 0,
    });
    assert_eq!(Some(Vec::new()), buffer.read());
    assert_eq!(None, buffer.read());

    buffer.write(Message {
        data: vec![7],
        index: 1,
    });
    assert_eq!(vec![7], buffer.read().unwrap());
}
