//! What applications look like to the services that run them.
use crate::shared::Bytes;
use crate::state::Duplicate;
use vstd::prelude::*;

pub mod kv;
pub mod null;
pub mod utxo;
pub mod utxo_laws;
pub mod ycsb;

verus! {

/// The operations of an application, and their results.
pub trait AppProtocol {
    type Op: View;

    type Res: Duplicate;
}

/// An application that keeps its state to itself.
pub trait AppState: AppProtocol + View {
    spec fn execute_spec(state: Self::V, op: <Self::Op as View>::V) -> (
        Self::V,
        <Self::Res as View>::V,
    );

    /// Executes an operation.
    fn execute(&mut self, op: Self::Op) -> (res: Self::Res)
        ensures
            (final(self)@, res@) == Self::execute_spec(old(self)@, op@),
    ;
}

/// How far the execution of an operation has come. `K` stands for keys, `R`
/// for the result, `W` for writes.
#[derive(Debug)]
pub enum DataShardingExecuteOutput<R, K = Vec<Bytes>, W = Vec<(Bytes, Bytes)>> {
    /// The values of some keys are needed.
    Pending(K),
    /// The result, and the values to be written.
    Complete(R, W),
}

/// The contents of byte strings.
pub open spec fn contents(list: Seq<Bytes>) -> Seq<Seq<u8>> {
    list.map_values(|bytes: Bytes| (*bytes)@)
}

/// The contents of pairs of byte strings.
pub open spec fn pair_contents(list: Seq<(Bytes, Bytes)>) -> Seq<(Seq<u8>, Seq<u8>)> {
    list.map_values(|pair: (Bytes, Bytes)| ((*pair.0)@, (*pair.1)@))
}

impl<R: View> View for DataShardingExecuteOutput<R> {
    type V = DataShardingExecuteOutput<R::V, Seq<Seq<u8>>, Seq<(Seq<u8>, Seq<u8>)>>;

    open spec fn view(&self) -> DataShardingExecuteOutput<
        R::V,
        Seq<Seq<u8>>,
        Seq<(Seq<u8>, Seq<u8>)>,
    > {
        match *self {
            DataShardingExecuteOutput::Pending(keys) => DataShardingExecuteOutput::Pending(
                contents(keys@),
            ),
            DataShardingExecuteOutput::Complete(res, writes) => {
                DataShardingExecuteOutput::Complete(res@, pair_contents(writes@))
            },
        }
    }
}

/// The content of a value, if there is one.
pub open spec fn optional_content(value: Option<Bytes>) -> Option<Seq<u8>> {
    match value {
        Some(bytes) => Some((*bytes)@),
        None => None,
    }
}

/// The execution of an operation on data that is kept elsewhere. Keys and
/// values cross this boundary as byte strings.
pub trait DataShardingExecuteState: View {
    type Res: View;

    spec fn proceed_spec(state: Self::V) -> (
        Self::V,
        DataShardingExecuteOutput<
            <Self::Res as View>::V,
            Seq<Seq<u8>>,
            Seq<(Seq<u8>, Seq<u8>)>,
        >,
    );

    spec fn install_spec(state: Self::V, key: Seq<u8>, value: Option<Seq<u8>>) -> Self::V;

    /// Goes on with the execution, as far as the values at hand allow.
    fn proceed(&mut self) -> (output: DataShardingExecuteOutput<Self::Res>)
        ensures
            (final(self)@, output@) == Self::proceed_spec(old(self)@),
    ;

    /// Takes the value of a key.
    fn install(&mut self, key: Bytes, value: Option<Bytes>)
        ensures
            final(self)@ == Self::install_spec(old(self)@, (*key)@, optional_content(value)),
    ;
}

/// An application that runs on data kept elsewhere.
pub trait DataShardingApp: AppProtocol + View {
    type ExecuteState: DataShardingExecuteState<Res = Self::Res>;

    spec fn new_execute_spec(app: Self::V, op: <Self::Op as View>::V) -> <Self::ExecuteState as View>::V;

    /// Starts to execute an operation.
    fn new_execute(&self, op: Self::Op) -> (execute: Self::ExecuteState)
        ensures
            execute@ == Self::new_execute_spec(self@, op@),
    ;
}

} // verus!
