//! The operations of a key-value benchmark.
use crate::state::Duplicate;
use vstd::prelude::*;

verus! {

/// An operation. `T` stands for a text.
#[derive(Debug, Clone, PartialEq, Eq)]
pub enum YcsbOp<T = String> {
    Insert(T, T),
    Update(T, T),
    Get(T),
}

impl View for YcsbOp {
    type V = YcsbOp<Seq<char>>;

    open spec fn view(&self) -> YcsbOp<Seq<char>> {
        match *self {
            YcsbOp::Insert(key, value) => YcsbOp::Insert(key@, value@),
            YcsbOp::Update(key, value) => YcsbOp::Update(key@, value@),
            YcsbOp::Get(key) => YcsbOp::Get(key@),
        }
    }
}

/// The result of an operation. `T` stands for a text.
#[derive(Debug, Clone, PartialEq, Eq)]
pub enum YcsbRes<T = String> {
    Done,
    Get(T),
    NotFound,
}

impl View for YcsbRes {
    type V = YcsbRes<Seq<char>>;

    open spec fn view(&self) -> YcsbRes<Seq<char>> {
        match *self {
            YcsbRes::Done => YcsbRes::Done,
            YcsbRes::Get(value) => YcsbRes::Get(value@),
            YcsbRes::NotFound => YcsbRes::NotFound,
        }
    }
}

impl Duplicate for YcsbRes {
    fn duplicate(&self) -> (copy: Self) {
        match self {
            YcsbRes::Done => YcsbRes::Done,
            YcsbRes::Get(value) => YcsbRes::Get(value.clone()),
            YcsbRes::NotFound => YcsbRes::NotFound,
        }
    }
}

} // verus!
