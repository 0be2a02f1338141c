//! Messages out of a stream of bytes.
use vstd::prelude::*;

verus! {

/// How many bytes can wait to be decoded.
pub const FRAME_CAPACITY: usize = 65536;

/// Bytes that were read from a stream and not decoded yet.
pub struct FrameBuffer {
    bytes: Vec<u8>,
}

/// The outcome of trying to decode a message from what is waiting.
#[derive(Debug, Clone, Copy, PartialEq, Eq)]
pub enum Decoded {
    /// A message that took this many bytes.
    Message(usize),
    /// The start of a message.
    Partial,
    /// Something that is no message.
    Invalid,
}

/// What to do next with a stream.
#[derive(Debug, Clone, Copy, PartialEq, Eq)]
pub enum FrameStep {
    /// Try to decode a message.
    Decode,
    /// Read more bytes.
    Read,
    /// The stream is closed.
    Closed,
    /// The stream is broken.
    Failed,
}

impl View for FrameBuffer {
    type V = Seq<u8>;

    closed spec fn view(&self) -> Seq<u8> {
        self.bytes@
    }
}

/// What is waiting after an attempt to decode it.
pub open spec fn after_decoding(waiting: Seq<u8>, decoded: Decoded) -> Seq<u8> {
    match decoded {
        Decoded::Message(num_bytes) => if num_bytes <= waiting.len() {
            waiting.subrange(num_bytes as int, waiting.len() as int)
        } else {
            waiting
        },
        _ => waiting,
    }
}

/// What to do after an attempt to decode what was waiting.
pub open spec fn step_after_decoding(waiting: Seq<u8>, decoded: Decoded) -> FrameStep {
    match decoded {
        Decoded::Message(num_bytes) => if num_bytes > waiting.len() {
            FrameStep::Failed
        } else if num_bytes == waiting.len() {
            FrameStep::Read
        } else {
            FrameStep::Decode
        },
        Decoded::Partial => FrameStep::Read,
        Decoded::Invalid => FrameStep::Failed,
    }
}

impl FrameBuffer {
    /// Nothing is waiting.
    pub fn new() -> (buffer: Self)
        ensures
            buffer@ == Seq::<u8>::empty(),
    {
        FrameBuffer { bytes: Vec::new() }
    }

    /// How many more bytes can wait.
    pub fn spare(&self) -> (spare: usize)
        ensures
            spare == if self@.len() <= FRAME_CAPACITY {
                FRAME_CAPACITY - self@.len()
            } else {
                0
            },
    {
        if self.bytes.len() <= FRAME_CAPACITY {
            FRAME_CAPACITY - self.bytes.len()
        } else {
            0
        }
    }

    /// The bytes that are waiting.
    pub fn waiting(&self) -> (bytes: &[u8])
        ensures
            bytes@ == self@,
    {
        self.bytes.as_slice()
    }

    /// Takes what was read. Reading nothing means that the stream is closed, or
    /// that a message is larger than what can wait.
    pub fn read(&mut self, bytes: &[u8]) -> (step: FrameStep)
        ensures
            final(self)@ == old(self)@ + bytes@,
            step == if bytes@.len() == 0 {
                FrameStep::Closed
            } else {
                FrameStep::Decode
            },
    {
        crate::shared::append_bytes(&mut self.bytes, bytes);
        if bytes.len() == 0 {
            FrameStep::Closed
        } else {
            FrameStep::Decode
        }
    }

    /// Goes on after an attempt to decode what is waiting: a decoded message is
    /// taken off.
    pub fn decoded(&mut self, decoded: Decoded) -> (step: FrameStep)
        ensures
            final(self)@ == after_decoding(old(self)@, decoded),
            step == step_after_decoding(old(self)@, decoded),
    {
        match decoded {
            Decoded::Message(num_bytes) => {
                if num_bytes > self.bytes.len() {
                    return FrameStep::Failed;
                }
                let rest = self.bytes.split_off(num_bytes);
                self.bytes = rest;
                if self.bytes.len() == 0 {
                    FrameStep::Read
                } else {
                    FrameStep::Decode
                }
            },
            Decoded::Partial => FrameStep::Read,
            Decoded::Invalid => FrameStep::Failed,
        }
    }
}

/// No byte is lost or seen twice: what a message took and what is left make up
/// what was waiting.
pub proof fn no_byte_is_lost(waiting: Seq<u8>, num_bytes: usize)
    requires
        num_bytes <= waiting.len(),
    ensures
        waiting.subrange(0, num_bytes as int) + after_decoding(waiting, Decoded::Message(num_bytes))
            == waiting,
{
    assert(waiting.subrange(0, num_bytes as int) + after_decoding(
        waiting,
        Decoded::Message(num_bytes),
    ) =~= waiting);
}

} // verus!
