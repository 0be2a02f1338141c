//! A key-value store of texts.
use super::{
    contents, pair_contents, AppProtocol, DataShardingApp,
    DataShardingExecuteOutput, DataShardingExecuteState,
};
use crate::shared::{copy_bytes, same_bytes, Bytes};
use crate::state::Duplicate;
use std::sync::Arc;
use vstd::prelude::*;
use vstd::utf8::encode_utf8;

verus! {

/// The store itself: all its data is kept elsewhere.
#[derive(Debug, Clone, Copy)]
pub struct Kv;

impl View for Kv {
    type V = Kv;

    open spec fn view(&self) -> Kv {
        *self
    }
}

/// An operation. `T` stands for a text.
#[derive(Debug, Clone, PartialEq, Eq)]
pub enum KvOp<T = String> {
    Put(T, T),
    Get(T),
}

impl View for KvOp {
    type V = KvOp<Seq<char>>;

    open spec fn view(&self) -> KvOp<Seq<char>> {
        match *self {
            KvOp::Put(key, value) => KvOp::Put(key@, value@),
            KvOp::Get(key) => KvOp::Get(key@),
        }
    }
}

/// The result of an operation. `T` stands for a text.
#[derive(Debug, Clone, PartialEq, Eq)]
pub enum KvRes<T = String> {
    Put,
    Get(Option<T>),
}

/// The content of a text, if there is one.
pub open spec fn optional_text(text: Option<String>) -> Option<Seq<char>> {
    match text {
        Some(text) => Some(text@),
        None => None,
    }
}

impl View for KvRes {
    type V = KvRes<Seq<char>>;

    open spec fn view(&self) -> KvRes<Seq<char>> {
        match *self {
            KvRes::Put => KvRes::Put,
            KvRes::Get(value) => KvRes::Get(optional_text(value)),
        }
    }
}

impl Duplicate for KvRes {
    fn duplicate(&self) -> (copy: Self) {
        match self {
            KvRes::Put => KvRes::Put,
            KvRes::Get(Some(value)) => KvRes::Get(Some(value.clone())),
            KvRes::Get(None) => KvRes::Get(None),
        }
    }
}

impl AppProtocol for Kv {
    type Op = KvOp;

    type Res = KvRes;
}

/// The encoding of a text.
pub uninterp spec fn text_encoding(text: Seq<char>) -> Seq<u8>;

/// The text that a byte string starts with an encoding of.
pub uninterp spec fn text_decoding(bytes: Seq<u8>) -> Option<Seq<char>>;

/// Calls `bincode::encode_to_vec` with the standard configuration: a function
/// of the text alone, from which decoding gives back the text.
#[verifier::external_body]
fn encode_text(text: &String) -> (bytes: Vec<u8>)
    ensures
        bytes@ == text_encoding(text@),
        text_decoding(bytes@) == Some(text@),
{
    bincode::encode_to_vec(text, bincode::config::standard()).unwrap()
}

/// Calls `bincode::borrow_decode_from_slice` with the standard configuration: a
/// function of the bytes alone, which fails unless they start with an encoding
/// of a text.
#[verifier::external_body]
fn decode_text(bytes: &Vec<u8>) -> (text: Option<String>)
    ensures
        optional_text(text) == text_decoding(bytes@),
{
    bincode::borrow_decode_from_slice::<&str, _>(bytes, bincode::config::standard())
        .ok()
        .map(|(text, _)| text.to_owned())
}

/// The execution of an operation. `T` stands for a text.
#[derive(Debug)]
pub enum KvExecute<T = String> {
    Put(T, T),
    /// The value of the key is not known yet.
    Get(T),
    Found(Option<T>),
}

impl View for KvExecute {
    type V = KvExecute<Seq<char>>;

    open spec fn view(&self) -> KvExecute<Seq<char>> {
        match *self {
            KvExecute::Put(key, value) => KvExecute::Put(key@, value@),
            KvExecute::Get(key) => KvExecute::Get(key@),
            KvExecute::Found(value) => KvExecute::Found(optional_text(value)),
        }
    }
}

/// A key as a byte string.
fn key_bytes(key: &String) -> (bytes: Bytes)
    ensures
        (*bytes)@ == encode_utf8(key@),
{
    Arc::new(copy_bytes(key.as_str().as_bytes()))
}

impl DataShardingApp for Kv {
    type ExecuteState = KvExecute;

    open spec fn new_execute_spec(app: Kv, op: KvOp<Seq<char>>) -> KvExecute<Seq<char>> {
        match op {
            KvOp::Put(key, value) => KvExecute::Put(key, value),
            KvOp::Get(key) => KvExecute::Get(key),
        }
    }

    fn new_execute(&self, op: KvOp) -> (execute: KvExecute) {
        match op {
            KvOp::Put(key, value) => KvExecute::Put(key, value),
            KvOp::Get(key) => KvExecute::Get(key),
        }
    }
}

impl DataShardingExecuteState for KvExecute {
    type Res = KvRes;

    open spec fn proceed_spec(state: KvExecute<Seq<char>>) -> (
        KvExecute<Seq<char>>,
        DataShardingExecuteOutput<KvRes<Seq<char>>, Seq<Seq<u8>>, Seq<(Seq<u8>, Seq<u8>)>>,
    ) {
        (
            state,
            match state {
                KvExecute::Put(key, value) => DataShardingExecuteOutput::Complete(
                    KvRes::Put,
                    seq![(encode_utf8(key), text_encoding(value))],
                ),
                KvExecute::Get(key) => DataShardingExecuteOutput::Pending(
                    seq![encode_utf8(key)],
                ),
                KvExecute::Found(value) => DataShardingExecuteOutput::Complete(
                    KvRes::Get(value),
                    Seq::empty(),
                ),
            },
        )
    }

    /// A value that encodes no text reads as no value.
    open spec fn install_spec(
        state: KvExecute<Seq<char>>,
        key: Seq<u8>,
        value: Option<Seq<u8>>,
    ) -> KvExecute<Seq<char>> {
        match state {
            KvExecute::Get(expected) => if key == encode_utf8(expected) {
                KvExecute::Found(
                    match value {
                        Some(bytes) => text_decoding(bytes),
                        None => None,
                    },
                )
            } else {
                state
            },
            _ => state,
        }
    }

    fn proceed(&mut self) -> (output: DataShardingExecuteOutput<KvRes>)
        ensures
            old(self)@ matches KvExecute::Put(_, value) ==> (output
                matches DataShardingExecuteOutput::Complete(_, writes) && writes@.len() == 1
                && text_decoding((*writes@[0].1)@) == Some(value)),
    {
        match self {
            KvExecute::Put(key, value) => {
                let mut writes: Vec<(Bytes, Bytes)> = Vec::new();
                writes.push((key_bytes(key), Arc::new(encode_text(value))));
                assert(pair_contents(writes@) =~= seq![
                    (encode_utf8(key@), text_encoding(value@)),
                ]);
                DataShardingExecuteOutput::Complete(KvRes::Put, writes)
            },
            KvExecute::Get(key) => {
                let mut keys: Vec<Bytes> = Vec::new();
                keys.push(key_bytes(key));
                assert(contents(keys@) =~= seq![encode_utf8(key@)]);
                DataShardingExecuteOutput::Pending(keys)
            },
            KvExecute::Found(value) => {
                let writes: Vec<(Bytes, Bytes)> = Vec::new();
                assert(pair_contents(writes@) =~= Seq::empty());
                let res = match value {
                    Some(text) => KvRes::Get(Some(text.clone())),
                    None => KvRes::Get(None),
                };
                DataShardingExecuteOutput::Complete(res, writes)
            },
        }
    }

    fn install(&mut self, key: Bytes, value: Option<Bytes>) {
        let matches = match self {
            KvExecute::Get(expected) => {
                same_bytes(key.as_slice(), expected.as_str().as_bytes())
            },
            _ => false,
        };
        if matches {
            *self = KvExecute::Found(
                match value {
                    Some(bytes) => decode_text(&bytes),
                    None => None,
                },
            );
        }
    }
}

/// What was put is what is read: an operation that reads a key finds the text
/// in the bytes that an operation has written under the key.
pub proof fn get_finds_put(key: Seq<char>, value: Seq<char>, bytes: Seq<u8>)
    requires
        bytes == text_encoding(value),
        text_decoding(bytes) == Some(value),
    ensures
        <KvExecute as DataShardingExecuteState>::proceed_spec(KvExecute::Put(key, value)).1
            == DataShardingExecuteOutput::<
            KvRes<Seq<char>>,
            Seq<Seq<u8>>,
            Seq<(Seq<u8>, Seq<u8>)>,
        >::Complete(KvRes::Put, seq![(encode_utf8(key), bytes)]),
        ({
            let got = <KvExecute as DataShardingExecuteState>::install_spec(
                KvExecute::Get(key),
                encode_utf8(key),
                Some(bytes),
            );
            <KvExecute as DataShardingExecuteState>::proceed_spec(got).1
                == DataShardingExecuteOutput::<
                KvRes<Seq<char>>,
                Seq<Seq<u8>>,
                Seq<(Seq<u8>, Seq<u8>)>,
            >::Complete(KvRes::Get(Some(value)), Seq::empty())
        }),
{
}

} // verus!
