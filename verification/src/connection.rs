//! One end of a tunnel: its interests, its send queue and its other end.
use std::collections::VecDeque;
use vstd::prelude::*;

use crate::events::EventSet;

verus! {

/// How many bytes one read may deliver.
pub const BUFFER_SIZE: usize = 8192;

/// How many buffers may wait in the send queue of a connection.
pub const MAX_BUFFERS_PER_CONNECTION: usize = 16;

/// An operation on a socket that the event loop is asked to carry out.
#[derive(Clone, Copy, PartialEq, Eq, Structural, Debug)]
pub enum Effect {
    /// Give the socket that was just accepted or just connected to the connection `token`, in
    /// place of the one it had.
    Attach { token: usize, socket: Socket },
    /// Register the socket of `token` for `interest`, edge triggered and one shot.
    Register { token: usize, interest: EventSet },
    /// Register the socket of `token` again, for `interest`, edge triggered and one shot.
    /// Where `required` is false a failure is only worth a message.
    Reregister { token: usize, interest: EventSet, required: bool },
    /// Take the socket of `token` out of the event loop.
    Deregister { token: usize },
    /// Drop the socket of `token`.
    Close { token: usize },
    /// Arm the connect timeout of `token`, `ms` milliseconds long.
    StartTimeout { token: usize, ms: u64 },
    /// Cancel the connect timeout of `token`.
    ClearTimeout { token: usize },
    /// The connection `token` has finished connecting.
    Connected { token: usize },
}

/// Where the socket of a connection comes from.
#[derive(Clone, Copy, PartialEq, Eq, Structural, Debug)]
pub enum Socket {
    /// It was accepted from a client.
    Accepted,
    /// It was opened to a backend server.
    Opened,
}

/// What came of one attempt to read from a socket.
#[derive(Debug)]
pub enum ReadOutcome {
    /// The kernel has nothing for us right now.
    WouldBlock,
    /// These bytes were read; none at all at the end of the stream.
    Data(Vec<u8>),
    /// The socket reported an error.
    Failed,
}

/// A [`ReadOutcome`] as a mathematical value.
pub enum ReadOutcomeView {
    WouldBlock,
    Data(Seq<u8>),
    Failed,
}

impl View for ReadOutcome {
    type V = ReadOutcomeView;

    open spec fn view(&self) -> ReadOutcomeView {
        match self {
            ReadOutcome::WouldBlock => ReadOutcomeView::WouldBlock,
            ReadOutcome::Data(bytes) => ReadOutcomeView::Data(bytes@),
            ReadOutcome::Failed => ReadOutcomeView::Failed,
        }
    }
}

/// What came of one attempt to write to a socket.
#[derive(Clone, Copy, PartialEq, Eq, Structural, Debug)]
pub enum WriteOutcome {
    /// The kernel takes nothing right now.
    WouldBlock,
    /// The kernel took this many bytes.
    Wrote(usize),
    /// The socket reported an error.
    Failed,
}

/// Whether a read is over.
#[derive(Clone, Copy, PartialEq, Eq, Structural, Debug)]
pub enum ReadStatus {
    /// There is room for another buffer: read again.
    More,
    /// The read is over. `exhausted_kernel` says that the kernel has no more data to give.
    Finished { exhausted_kernel: bool },
    /// The socket reported an error.
    Failed,
}

/// Whether a write is over.
#[derive(Clone, Copy, PartialEq, Eq, Structural, Debug)]
pub enum WriteStatus {
    /// A whole buffer went out and others wait: write again.
    More,
    /// The write is over. `flushed_everything` says that the send queue is empty.
    Finished { flushed_everything: bool },
    /// The socket reported an error.
    Failed,
}

/// Why a buffer could not be written.
#[derive(Clone, Copy, PartialEq, Eq, Structural, Debug)]
pub enum WriteError {
    /// There is no buffer in the send queue.
    EmptyQueue,
    /// The socket reported an error.
    Socket,
}

/// The buffers that a read has gathered, and how many more it may gather.
pub struct Reading {
    pub left: usize,
    pub messages: VecDeque<Vec<u8>>,
}

/// A [`Reading`] as a mathematical value.
#[verifier::ext_equal]
pub struct ReadingView {
    pub left: nat,
    pub messages: Seq<Seq<u8>>,
}

/// The contents of a queue of buffers.
pub open spec fn buffers(queue: Seq<Vec<u8>>) -> Seq<Seq<u8>> {
    queue.map_values(|buffer: Vec<u8>| buffer@)
}

impl View for Reading {
    type V = ReadingView;

    open spec fn view(&self) -> ReadingView {
        ReadingView { left: self.left as nat, messages: buffers(self.messages@) }
    }
}

impl ReadingView {
    /// A read of at most `nb_buffers` buffers that has not begun.
    pub open spec fn begin(nb_buffers: nat) -> ReadingView {
        ReadingView { left: nb_buffers, messages: seq![] }
    }

    /// The read after one more attempt: only bytes are kept, and they take one buffer.
    pub open spec fn read(self, outcome: ReadOutcomeView) -> ReadingView {
        match outcome {
            ReadOutcomeView::Data(bytes) if bytes.len() > 0 => ReadingView {
                left: (self.left - 1) as nat,
                messages: self.messages.push(bytes),
            },
            _ => self,
        }
    }

    /// Whether the read is over after that attempt: nothing to read and the end of the stream
    /// both exhaust the kernel, and bytes end the read only where they take the last buffer.
    pub open spec fn status(self, outcome: ReadOutcomeView) -> ReadStatus {
        match outcome {
            ReadOutcomeView::WouldBlock => ReadStatus::Finished { exhausted_kernel: true },
            ReadOutcomeView::Data(bytes) => if bytes.len() == 0 {
                ReadStatus::Finished { exhausted_kernel: true }
            } else if self.left > 1 {
                ReadStatus::More
            } else {
                ReadStatus::Finished { exhausted_kernel: false }
            },
            ReadOutcomeView::Failed => ReadStatus::Failed,
        }
    }
}

impl Reading {
    /// Begins a read of at most `nb_buffers` buffers.
    pub fn begin(nb_buffers: usize) -> (reading: Reading)
        ensures
            reading@ == ReadingView::begin(nb_buffers as nat),
    {
        let reading = Reading { left: nb_buffers, messages: VecDeque::with_capacity(nb_buffers) };
        assert(reading@.messages =~= seq![]);
        reading
    }

    /// Takes in what came of one attempt to read.
    pub fn read(&mut self, outcome: ReadOutcome) -> (status: ReadStatus)
        requires
            old(self)@.left > 0,
        ensures
            final(self)@ == old(self)@.read(outcome@),
            status == old(self)@.status(outcome@),
    {
        match outcome {
            ReadOutcome::WouldBlock => ReadStatus::Finished { exhausted_kernel: true },
            ReadOutcome::Data(bytes) => {
                if bytes.len() == 0 {
                    return ReadStatus::Finished { exhausted_kernel: true };
                }
                let ghost gathered = self.messages@;
                let ghost read = bytes@;
                self.messages.push_back(bytes);
                self.left = self.left - 1;
                assert(buffers(self.messages@) =~= buffers(gathered).push(read));
                if self.left > 0 {
                    ReadStatus::More
                } else {
                    ReadStatus::Finished { exhausted_kernel: false }
                }
            },
            ReadOutcome::Failed => ReadStatus::Failed,
        }
    }
}

/// One end of a tunnel.
pub struct Connection {
    /// The token under which its socket is known to the event loop.
    pub token: usize,
    /// The events it is interested in.
    pub interest: EventSet,
    /// The buffers that wait to be sent out, the next one first.
    pub send_queue: VecDeque<Vec<u8>>,
    /// The other end of the tunnel.
    pub end_token: Option<usize>,
    /// Whether the socket is connected, or still waits for an answer.
    pub connected: bool,
    /// Whether a connect timeout was armed for it.
    pub timeout: bool,
}

/// A [`Connection`] as a mathematical value.
#[verifier::ext_equal]
pub struct ConnectionView {
    pub token: usize,
    pub interest: EventSet,
    pub queue: Seq<Seq<u8>>,
    pub end: Option<usize>,
    pub connected: bool,
    pub timeout: bool,
}

impl View for Connection {
    type V = ConnectionView;

    open spec fn view(&self) -> ConnectionView {
        ConnectionView {
            token: self.token,
            interest: self.interest,
            queue: buffers(self.send_queue@),
            end: self.end_token,
            connected: self.connected,
            timeout: self.timeout,
        }
    }
}

impl ConnectionView {
    /// A connection just created: it is interested only in errors and in the hang up.
    pub open spec fn fresh(token: usize, connected: bool) -> ConnectionView {
        ConnectionView {
            token,
            interest: EventSet { readable: false, writable: false, error: true, hup: true },
            queue: seq![],
            end: None,
            connected,
            timeout: false,
        }
    }

    /// The connection with `messages` at the end of its send queue.
    pub open spec fn send_messages(self, messages: Seq<Seq<u8>>) -> ConnectionView {
        ConnectionView {
            queue: self.queue + messages,
            interest: EventSet { writable: true, ..self.interest },
            ..self
        }
    }

    /// The connection after one attempt to write its first buffer. Bytes that the kernel took
    /// are gone from the front of the queue; after an error the whole buffer is.
    pub open spec fn write_one_buf(self, outcome: WriteOutcome) -> ConnectionView {
        if self.queue.len() == 0 {
            self
        } else {
            let queue = match outcome {
                WriteOutcome::WouldBlock => self.queue,
                WriteOutcome::Wrote(n) => if n < self.queue[0].len() {
                    self.queue.update(0, self.queue[0].skip(n as int))
                } else {
                    self.queue.skip(1)
                },
                WriteOutcome::Failed => self.queue.skip(1),
            };
            ConnectionView { queue, ..self }
        }
    }

    /// Whether that attempt sent the totality of the first buffer.
    pub open spec fn wrote_one_buf(self, outcome: WriteOutcome) -> Result<bool, WriteError> {
        if self.queue.len() == 0 {
            Err(WriteError::EmptyQueue)
        } else {
            match outcome {
                WriteOutcome::WouldBlock => Ok(false),
                WriteOutcome::Wrote(n) => Ok(n >= self.queue[0].len()),
                WriteOutcome::Failed => Err(WriteError::Socket),
            }
        }
    }

    /// Whether the flush of the send queue is over after that attempt. An empty send queue is
    /// flushed without any attempt.
    pub open spec fn write_status(self, outcome: WriteOutcome) -> WriteStatus {
        if self.queue.len() == 0 {
            WriteStatus::Finished { flushed_everything: true }
        } else {
            match self.wrote_one_buf(outcome) {
                Err(_) => WriteStatus::Failed,
                Ok(wrote_everything) => if !wrote_everything {
                    WriteStatus::Finished { flushed_everything: false }
                } else if self.queue.len() == 1 {
                    WriteStatus::Finished { flushed_everything: true }
                } else {
                    WriteStatus::More
                },
            }
        }
    }
}

impl Connection {
    /// A connection without another end and with an empty send queue.
    pub fn new(token: usize, connected: bool) -> (connection: Connection)
        ensures
            connection@ == ConnectionView::fresh(token, connected),
    {
        let mut interest = EventSet::hup();
        interest.insert(EventSet::error());
        let connection = Connection {
            token,
            interest,
            send_queue: VecDeque::with_capacity(MAX_BUFFERS_PER_CONNECTION),
            end_token: None,
            connected,
            timeout: false,
        };
        assert(connection@.queue =~= seq![]);
        connection
    }

    /// Takes in what came of one attempt to write the first buffer of the send queue, and says
    /// whether the totality of it was sent.
    pub fn write_one_buf(&mut self, outcome: WriteOutcome) -> (result: Result<bool, WriteError>)
        ensures
            final(self)@ == old(self)@.write_one_buf(outcome),
            result == old(self)@.wrote_one_buf(outcome),
    {
        let ghost before = self.send_queue@;
        match self.send_queue.pop_front() {
            None => Err(WriteError::EmptyQueue),
            Some(mut buffer) => {
                let ghost front = buffer@;
                assert(buffers(before)[0] == front);
                assert(buffers(self.send_queue@) =~= buffers(before).skip(1));
                match outcome {
                    WriteOutcome::WouldBlock => {
                        self.send_queue.push_front(buffer);
                        assert(buffers(self.send_queue@) =~= buffers(before));
                        Ok(false)
                    },
                    WriteOutcome::Wrote(n) => {
                        if n < buffer.len() {
                            let rest = buffer.split_off(n);
                            assert(rest@ =~= front.skip(n as int));
                            self.send_queue.push_front(rest);
                            assert(buffers(self.send_queue@) =~= buffers(before).update(
                                0,
                                front.skip(n as int),
                            ));
                            Ok(false)
                        } else {
                            Ok(true)
                        }
                    },
                    WriteOutcome::Failed => Err(WriteError::Socket),
                }
            },
        }
    }

    /// Takes in what came of one attempt to write while the send queue is flushed, and says
    /// whether the flush is over. With an empty send queue there is nothing to attempt:
    /// everything is flushed, whatever the outcome says.
    pub fn write(&mut self, outcome: WriteOutcome) -> (status: WriteStatus)
        ensures
            final(self)@ == old(self)@.write_one_buf(outcome),
            status == old(self)@.write_status(outcome),
    {
        assert(self@.queue.len() == self.send_queue@.len());
        if self.send_queue.len() == 0 {
            return WriteStatus::Finished { flushed_everything: true };
        }
        match self.write_one_buf(outcome) {
            Err(_) => WriteStatus::Failed,
            Ok(wrote_everything) => {
                assert(self@.queue.len() == self.send_queue@.len());
                if !wrote_everything {
                    WriteStatus::Finished { flushed_everything: false }
                } else if self.send_queue.len() == 0 {
                    WriteStatus::Finished { flushed_everything: true }
                } else {
                    WriteStatus::More
                }
            },
        }
    }

    /// Queues outgoing messages and takes interest in write events.
    pub fn send_messages(&mut self, messages: VecDeque<Vec<u8>>)
        ensures
            final(self)@ == old(self)@.send_messages(buffers(messages@)),
    {
        let ghost before = self.send_queue@;
        let ghost sent = messages@;
        let mut messages = messages;
        self.send_queue.append(&mut messages);
        self.interest.insert(EventSet::writable());
        assert(buffers(self.send_queue@) =~= buffers(before) + buffers(sent));
    }

    /// The registration of the connection with the event loop.
    pub fn register(&self) -> (effect: Effect)
        ensures
            effect == (Effect::Register { token: self@.token, interest: self@.interest }),
    {
        Effect::Register { token: self.token, interest: self.interest }
    }

    /// The renewal of that registration, after which the connection is notified again.
    pub fn reregister(&self, required: bool) -> (effect: Effect)
        ensures
            effect == (Effect::Reregister {
                token: self@.token,
                interest: self@.interest,
                required,
            }),
    {
        Effect::Reregister { token: self.token, interest: self.interest, required }
    }

    /// The end of that registration.
    pub fn deregister(&self) -> (effect: Effect)
        ensures
            effect == (Effect::Deregister { token: self@.token }),
    {
        Effect::Deregister { token: self.token }
    }
}

} // verus!
