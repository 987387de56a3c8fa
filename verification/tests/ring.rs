use udpcast::diskio::{can_write, fetch, next_read, next_write, release, store, Stretch};
use udpcast::fifo::Fifo;
use udpcast::produconsum::{ProduceError, Produconsum};

#[test]
fn account_counts() {
    let mut p = Produconsum::new(10, "test");
    assert_eq!(p.get_size(), 10);
    assert_eq!(p.get_name(), "test");
    assert_eq!(p.get_waiting(), 0);
    assert_eq!(p.consume(3), None);
    assert_eq!(p.produce(7), Ok(true));
    assert_eq!(p.get_waiting(), 7);
    assert_eq!(p.get_producer_position(), 7);
    assert_eq!(p.consume(3), Some(7));
    assert_eq!(p.produce(1), Ok(false));
    assert_eq!(p.consumed(5), 5);
    assert_eq!(p.get_waiting(), 3);
    assert_eq!(p.get_consumer_position(), 5);
}

#[test]
fn account_refuses_what_does_not_fit() {
    let mut p = Produconsum::new(10, "test");
    assert_eq!(p.produce(11), Err(ProduceError::TooLarge));
    assert_eq!(p.produce(8), Ok(false));
    assert_eq!(p.produce(3), Err(ProduceError::NoRoom));
    assert_eq!(p.get_waiting(), 8);
    assert_eq!(p.produce(2), Ok(false));
    assert_eq!(p.get_waiting(), 10);
}

#[test]
fn account_goes_round() {
    let mut p = Produconsum::new(10, "test");
    for _ in 0..50 {
        assert_eq!(p.produce(7), Ok(false));
        assert_eq!(p.get_waiting(), 7);
        assert_eq!(p.consumed(7), 7);
        assert_eq!(p.get_waiting(), 0);
    }
    assert_eq!(p.get_consumer_position(), 0);
    assert_eq!(p.get_producer_position(), 0);
}

#[test]
fn consuming_undoes_producing() {
    let mut p = Produconsum::new(10, "test");
    assert_eq!(p.produce(4), Ok(false));
    assert_eq!(p.produce(6), Ok(false));
    p.consumed(6);
    assert_eq!(p.get_waiting(), 4);
}

#[test]
fn end_gives_what_there_is() {
    let mut p = Produconsum::new(10, "test");
    assert_eq!(p.produce(2), Ok(false));
    assert_eq!(p.consume(5), None);
    assert_eq!(p.consume_any(), Some(2));
    assert_eq!(p.consume(5), None);
    assert!(p.produce_end());
    assert_eq!(p.consume(5), Some(2));
    p.consumed(2);
    assert_eq!(p.consume_any(), Some(0));
}

#[test]
fn time_gives_what_there_is() {
    let mut p = Produconsum::new(10, "test");
    assert_eq!(p.consume_any_with_timeout(false), None);
    assert_eq!(p.consume_any_with_timeout(true), Some(0));
}

#[test]
fn contiguous_part_ends_with_the_ring() {
    let mut p = Produconsum::new(10, "test");
    assert_eq!(p.produce(8), Ok(false));
    p.consumed(8);
    assert_eq!(p.produce(6), Ok(false));
    assert_eq!(p.consume_contiguous_min_amount(1), Some(2));
    p.consumed(2);
    assert_eq!(p.consume_contiguous_min_amount(1), Some(4));
    assert_eq!(p.consume_contiguous_min_amount(5), None);
}

#[test]
fn ring_is_read_as_it_was_written() {
    let mut f = Fifo::new(1);
    assert_eq!(f.data_buf_size, 4096);
    let data: Vec<u8> = (0..200u8).collect();
    f.write_at(4000, &data);
    let mut back = vec![0u8; 200];
    f.read_at(4000, &mut back);
    assert_eq!(back, data);
    assert_eq!(f.buffer[4095], 95);
    assert_eq!(f.buffer[0], 96);
    f.write_at(150, &[1, 2, 3]);
    f.read_at(4000, &mut back);
    assert_eq!(back, data);
}

#[test]
fn ring_as_a_whole() {
    let mut f = Fifo::new(1);
    let n = f.with_buffer_mut(|b| {
        b[7] = 9;
        b.len()
    });
    assert_eq!(n, 4096);
    assert_eq!(f.with_buffer(|b| b[7]), 9);
    assert_eq!(f.free_mem_queue.get_waiting(), 4096);
    assert_eq!(f.free_mem_queue.get_name(), "free mem");
    assert_eq!(f.data.get_name(), "receive");
}

#[test]
fn file_passes_through_the_ring() {
    let input: Vec<u8> = (0..200_000usize).map(|i| (i % 253) as u8).collect();
    let mut output: Vec<u8> = Vec::new();
    let mut fifo = Fifo::new(12);
    assert!(can_write(&fifo));
    let mut at = 0;
    let mut ended = false;
    loop {
        match next_read(&mut fifo) {
            Stretch::Part { pos, bytes } if !ended => {
                let n = bytes.min(input.len() - at).min(5000);
                if n == 0 {
                    fifo.data.produce_end();
                    ended = true;
                } else {
                    assert!(store(&mut fifo, pos, &input[at..at + n]).is_ok());
                    at += n;
                }
            }
            _ => {}
        }
        match next_write(&mut fifo) {
            Stretch::Part { pos, bytes } => {
                output.extend(fetch(&fifo, pos, bytes));
                assert!(release(&mut fifo, bytes).is_ok());
            }
            Stretch::Wait => {}
            Stretch::End => break,
        }
    }
    assert_eq!(output, input);
}

#[test]
fn pieces_end_with_a_disk_block() {
    let mut fifo = Fifo::new(3);
    assert_eq!(next_read(&mut fifo), Stretch::Part { pos: 0, bytes: 12288 });
    assert!(store(&mut fifo, 0, &[7; 5000]).is_ok());
    assert_eq!(next_read(&mut fifo), Stretch::Part { pos: 5000, bytes: 7288 });
    assert_eq!(next_write(&mut fifo), Stretch::Part { pos: 0, bytes: 4096 });
    assert_eq!(release(&mut fifo, 4096), Ok(false));
    assert_eq!(next_write(&mut fifo), Stretch::Wait);
    fifo.data.produce_end();
    assert_eq!(next_write(&mut fifo), Stretch::Part { pos: 4096, bytes: 904 });
    assert_eq!(release(&mut fifo, 904), Ok(false));
    assert_eq!(next_write(&mut fifo), Stretch::End);
}

#[test]
fn input_waits_for_memory() {
    let mut fifo = Fifo::new(1);
    assert!(store(&mut fifo, 0, &[1; 4096]).is_ok());
    assert_eq!(next_read(&mut fifo), Stretch::Wait);
    assert_eq!(release(&mut fifo, 4096), Ok(true));
    assert_eq!(next_read(&mut fifo), Stretch::Part { pos: 0, bytes: 4096 });
}

#[test]
fn storing_too_much_is_refused() {
    let mut fifo = Fifo::new(1);
    assert!(store(&mut fifo, 0, &[1; 4096]).is_ok());
    assert_eq!(store(&mut fifo, 0, &[2; 1]), Err(ProduceError::NoRoom));
    assert_eq!(release(&mut fifo, 4096), Ok(false));
    assert_eq!(release(&mut fifo, 4096), Err(ProduceError::NoRoom));
}
