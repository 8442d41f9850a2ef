use std::collections::VecDeque;

use nucleon::connection::{
    Connection, Effect, ReadOutcome, ReadStatus, Reading, WriteError, WriteOutcome, WriteStatus,
};
use nucleon::events::EventSet;

fn sending(messages: &[&[u8]]) -> Connection {
    let mut connection = Connection::new(5, true);
    let messages: VecDeque<Vec<u8>> = messages.iter().map(|bytes| bytes.to_vec()).collect();
    connection.send_messages(messages);
    connection
}

#[test]
fn a_new_connection_listens_for_errors_and_hang_ups() {
    let connection = Connection::new(9, false);
    assert_eq!(9, connection.token);
    assert_eq!(
        EventSet { readable: false, writable: false, error: true, hup: true },
        connection.interest
    );
    assert!(connection.send_queue.is_empty());
    assert!(connection.end_token.is_none());
    assert!(!connection.connected);
    assert!(!connection.timeout);
}

#[test]
fn registrations_carry_token_and_interest() {
    let mut connection = Connection::new(9, false);
    connection.interest.insert(EventSet::readable());
    let interest = connection.interest;
    assert_eq!(Effect::Register { token: 9, interest }, connection.register());
    assert_eq!(
        Effect::Reregister { token: 9, interest, required: false },
        connection.reregister(false)
    );
    assert_eq!(Effect::Deregister { token: 9 }, connection.deregister());
}

#[test]
fn messages_queue_up() {
    let mut connection = sending(&[b"a", b"bc"]);
    assert!(connection.interest.writable);
    connection.send_messages(VecDeque::from(vec![b"d".to_vec()]));
    assert_eq!(
        vec![b"a".to_vec(), b"bc".to_vec(), b"d".to_vec()],
        Vec::from(connection.send_queue)
    );
}

#[test]
fn one_buffer_is_written() {
    let mut connection = sending(&[b"abc", b"d"]);
    assert_eq!(Ok(false), connection.write_one_buf(WriteOutcome::WouldBlock));
    assert_eq!(b"abc".to_vec(), connection.send_queue[0]);
    assert_eq!(Ok(false), connection.write_one_buf(WriteOutcome::Wrote(0)));
    assert_eq!(b"abc".to_vec(), connection.send_queue[0]);
    assert_eq!(Ok(false), connection.write_one_buf(WriteOutcome::Wrote(2)));
    assert_eq!(b"c".to_vec(), connection.send_queue[0]);
    assert_eq!(Ok(true), connection.write_one_buf(WriteOutcome::Wrote(1)));
    assert_eq!(b"d".to_vec(), connection.send_queue[0]);
    assert_eq!(Err(WriteError::Socket), connection.write_one_buf(WriteOutcome::Failed));
    assert!(connection.send_queue.is_empty());
    assert_eq!(Err(WriteError::EmptyQueue), connection.write_one_buf(WriteOutcome::Wrote(1)));
}

#[test]
fn a_write_goes_on_while_whole_buffers_go_out() {
    let mut connection = sending(&[b"abc", b"d", b"e"]);
    assert_eq!(WriteStatus::More, connection.write(WriteOutcome::Wrote(3)));
    assert_eq!(WriteStatus::More, connection.write(WriteOutcome::Wrote(1)));
    assert_eq!(
        WriteStatus::Finished { flushed_everything: false },
        connection.write(WriteOutcome::WouldBlock)
    );
    assert_eq!(
        WriteStatus::Finished { flushed_everything: true },
        connection.write(WriteOutcome::Wrote(1))
    );
    assert!(connection.send_queue.is_empty());
}

#[test]
fn an_empty_send_queue_is_flushed() {
    for outcome in [WriteOutcome::WouldBlock, WriteOutcome::Wrote(1), WriteOutcome::Failed] {
        let mut connection = Connection::new(5, true);
        assert_eq!(WriteStatus::Finished { flushed_everything: true }, connection.write(outcome));
        assert!(connection.send_queue.is_empty());
    }
}

#[test]
fn a_failed_write_loses_one_buffer() {
    let mut connection = sending(&[b"abc", b"d"]);
    assert_eq!(WriteStatus::Failed, connection.write(WriteOutcome::Failed));
    assert_eq!(vec![b"d".to_vec()], Vec::from(connection.send_queue));
}

#[test]
fn a_read_gathers_chunks_in_order() {
    let mut reading = Reading::begin(3);
    assert_eq!(ReadStatus::More, reading.read(ReadOutcome::Data(vec![1, 2])));
    assert_eq!(ReadStatus::More, reading.read(ReadOutcome::Data(vec![3])));
    assert_eq!(
        ReadStatus::Finished { exhausted_kernel: false },
        reading.read(ReadOutcome::Data(vec![4]))
    );
    assert_eq!(0, reading.left);
    assert_eq!(vec![vec![1, 2], vec![3], vec![4]], Vec::from(reading.messages));
}

#[test]
fn a_read_ends_when_the_kernel_is_exhausted() {
    let mut reading = Reading::begin(2);
    assert_eq!(
        ReadStatus::Finished { exhausted_kernel: true },
        reading.read(ReadOutcome::WouldBlock)
    );
    assert_eq!(
        ReadStatus::Finished { exhausted_kernel: true },
        reading.read(ReadOutcome::Data(vec![]))
    );
    assert_eq!(ReadStatus::Failed, reading.read(ReadOutcome::Failed));
    assert_eq!(2, reading.left);
    assert!(reading.messages.is_empty());
}
