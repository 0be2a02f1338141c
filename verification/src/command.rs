//! Client commands and the pool they wait in before being proposed.
use crate::crypto::{update_u32, update_u64};
use crate::shared::append_bytes;
use std::sync::Arc;
use vstd::prelude::*;

verus! {

/// Identifies a client. Identifiers are assigned dynamically and carry no
/// order.
#[derive(Debug, Clone, Copy, PartialEq, Eq, Hash)]
pub struct ClientId(pub u32);

/// Orders the commands of one client: a greater number comes later.
pub type ClientSeq = u64;

/// A client's command.
#[derive(Debug, Clone, PartialEq, Eq)]
pub struct Command {
    pub client_id: ClientId,
    pub seq: ClientSeq,
    pub op: Vec<u8>,
}

/// A batch of commands.
pub type Commands = Arc<Vec<Command>>;

impl Command {
    /// The bytes that a command contributes to a digest.
    pub open spec fn hash_bytes(self) -> Seq<u8> {
        vstd::bytes::spec_u32_to_le_bytes(self.client_id.0) + vstd::bytes::spec_u64_to_le_bytes(
            self.seq,
        ) + self.op@
    }

    /// Appends the command's bytes to a byte string that is to be hashed.
    pub fn update(&self, state: &mut Vec<u8>)
        ensures
            final(state)@ == old(state)@ + self.hash_bytes(),
    {
        update_u32(state, self.client_id.0);
        update_u64(state, self.seq);
        append_bytes(state, self.op.as_slice());
    }
}

/// The bytes that a batch contributes to a digest: those of its commands in
/// order.
pub open spec fn batch_bytes(commands: Seq<Command>) -> Seq<u8>
    decreases commands.len(),
{
    if commands.len() == 0 {
        Seq::empty()
    } else {
        batch_bytes(commands.drop_last()) + commands.last().hash_bytes()
    }
}

/// The bytes of a batch that are to be hashed.
pub fn collect_batch_bytes(commands: &Vec<Command>) -> (bytes: Vec<u8>)
    ensures
        bytes@ == batch_bytes(commands@),
{
    let mut bytes: Vec<u8> = Vec::new();
    let mut i: usize = 0;
    while i < commands.len()
        invariant
            i <= commands@.len(),
            bytes@ == batch_bytes(commands@.subrange(0, i as int)),
        decreases commands@.len() - i,
    {
        commands[i].update(&mut bytes);
        i += 1;
        assert(commands@.subrange(0, i as int).drop_last() =~= commands@.subrange(0, i - 1));
    }
    assert(commands@.subrange(0, i as int) =~= commands@);
    bytes
}

/// Commands that wait to be proposed, in the order of their arrival.
pub struct CommandPool {
    commands: Vec<Command>,
}

impl View for CommandPool {
    type V = Seq<Command>;

    closed spec fn view(&self) -> Seq<Command> {
        self.commands@
    }
}

/// How many commands the next batch takes from a pool of `len` commands.
pub open spec fn batch_len(len: nat, max_size: usize) -> int {
    if len <= max_size {
        len as int
    } else {
        max_size as int
    }
}

impl CommandPool {
    /// An empty pool.
    pub fn close_loop() -> (pool: Self)
        ensures
            pool@ == Seq::<Command>::empty(),
    {
        CommandPool { commands: Vec::new() }
    }

    /// Adds a command at the end.
    pub fn push(&mut self, command: Command)
        ensures
            final(self)@ == old(self)@.push(command),
    {
        self.commands.push(command);
    }

    /// Takes the oldest commands, at most `max_size` of them; nothing from an
    /// empty pool.
    pub fn close_batch(&mut self, max_size: usize) -> (batch: Option<Commands>)
        ensures
            batch is None <==> old(self)@.len() == 0,
            batch is None ==> final(self)@ == old(self)@,
            batch matches Some(commands) ==> {
                let n = batch_len(old(self)@.len(), max_size);
                &&& (*commands)@ == old(self)@.subrange(0, n)
                &&& final(self)@ == old(self)@.subrange(n, old(self)@.len() as int)
            },
    {
        if self.commands.len() == 0 {
            return None;
        }
        let size: usize = if self.commands.len() <= max_size {
            self.commands.len()
        } else {
            max_size
        };
        let mut rest = self.commands.split_off(size);
        std::mem::swap(&mut rest, &mut self.commands);
        Some(Arc::new(rest))
    }
}

} // verus!
