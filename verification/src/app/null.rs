//! An application that does nothing.
use super::{
    pair_contents, AppProtocol, AppState, DataShardingApp, DataShardingExecuteOutput,
    DataShardingExecuteState,
};
use crate::shared::Bytes;
use vstd::prelude::*;

verus! {

/// The application, and the execution of one of its operations.
#[derive(Debug, Clone, Copy)]
pub struct Null;

impl View for Null {
    type V = Null;

    open spec fn view(&self) -> Null {
        *self
    }
}

impl AppProtocol for Null {
    type Op = ();

    type Res = ();
}

impl AppState for Null {
    open spec fn execute_spec(state: Null, op: ()) -> (Null, ()) {
        (state, ())
    }

    fn execute(&mut self, op: ()) -> (res: ()) {
    }
}

impl DataShardingApp for Null {
    type ExecuteState = Null;

    open spec fn new_execute_spec(app: Null, op: ()) -> Null {
        Null
    }

    fn new_execute(&self, op: ()) -> (execute: Null) {
        Null
    }
}

impl DataShardingExecuteState for Null {
    type Res = ();

    open spec fn proceed_spec(state: Null) -> (
        Null,
        DataShardingExecuteOutput<(), Seq<Seq<u8>>, Seq<(Seq<u8>, Seq<u8>)>>,
    ) {
        (state, DataShardingExecuteOutput::Complete((), Seq::empty()))
    }

    open spec fn install_spec(state: Null, key: Seq<u8>, value: Option<Seq<u8>>) -> Null {
        state
    }

    fn proceed(&mut self) -> (output: DataShardingExecuteOutput<()>) {
        let writes: Vec<(Bytes, Bytes)> = Vec::new();
        assert(pair_contents(writes@) =~= Seq::empty());
        DataShardingExecuteOutput::Complete((), writes)
    }

    fn install(&mut self, key: Bytes, value: Option<Bytes>) {
    }
}

} // verus!
