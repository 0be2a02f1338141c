//! A ledger of unspent outputs.
use crate::crypto::{update_u32, update_u64, Digest};
use vstd::prelude::*;

verus! {

broadcast use vstd::array::group_array_axioms;

/// Identifies an output: the transaction that made it, and its index there.
#[derive(Debug, Clone, Copy, PartialEq, Eq, Hash)]
pub struct UtxoId(pub Digest, pub u32);

/// What an output is worth.
#[derive(Debug, Clone, Copy, PartialEq, Eq)]
pub struct UtxoData {
    pub value: u64,
}

/// Where the value of a transaction comes from. `S` stands for a list of
/// outputs.
#[derive(Debug, Clone)]
pub enum UtxoOpInput<S = Vec<(UtxoId, UtxoData)>> {
    /// It is made up.
    Mint,
    /// Outputs are spent.
    Spend(S),
}

/// A transaction.
#[derive(Debug, Clone)]
pub struct UtxoOp {
    pub input: UtxoOpInput,
    pub outputs: Vec<UtxoData>,
}

/// Why a transaction is refused.
#[derive(Debug, Clone, Copy, PartialEq, Eq)]
pub enum UtxoError {
    InsufficientFunds,
}

/// The outputs that a transaction spends.
pub open spec fn spent(input: UtxoOpInput) -> Seq<(UtxoId, UtxoData)> {
    match input {
        UtxoOpInput::Mint => Seq::empty(),
        UtxoOpInput::Spend(spend) => spend@,
    }
}

/// The bytes that identify what a transaction spends.
pub open spec fn spend_bytes(spend: Seq<(UtxoId, UtxoData)>) -> Seq<u8>
    decreases spend.len(),
{
    if spend.len() == 0 {
        Seq::empty()
    } else {
        let (id, data) = spend.last();
        spend_bytes(spend.drop_last()) + id.0.0@ + vstd::bytes::spec_u32_to_le_bytes(id.1)
            + vstd::bytes::spec_u64_to_le_bytes(data.value)
    }
}

/// The bytes that identify what a transaction makes.
pub open spec fn output_bytes(outputs: Seq<UtxoData>) -> Seq<u8>
    decreases outputs.len(),
{
    if outputs.len() == 0 {
        Seq::empty()
    } else {
        output_bytes(outputs.drop_last()) + vstd::bytes::spec_u64_to_le_bytes(
            outputs.last().value,
        )
    }
}

/// What outputs are worth together.
pub open spec fn total_value(outputs: Seq<UtxoData>) -> nat
    decreases outputs.len(),
{
    if outputs.len() == 0 {
        0
    } else {
        total_value(outputs.drop_last()) + outputs.last().value as nat
    }
}

impl UtxoOp {
    pub open spec fn tx_id_spec(self) -> Digest {
        Digest::of_spec(spend_bytes(spent(self.input)) + output_bytes(self.outputs@))
    }

    /// Identifies the transaction.
    pub fn tx_id(&self) -> (id: Digest)
        ensures
            id == self.tx_id_spec(),
    {
        let mut state: Vec<u8> = Vec::new();
        match &self.input {
            UtxoOpInput::Mint => {
                assert(state@ =~= spend_bytes(Seq::empty()));
            },
            UtxoOpInput::Spend(spend) => {
                let mut i: usize = 0;
                while i < spend.len()
                    invariant
                        i <= spend@.len(),
                        state@ == spend_bytes(spend@.subrange(0, i as int)),
                    decreases spend@.len() - i,
                {
                    let (id, data) = spend[i];
                    id.0.update(&mut state);
                    update_u32(&mut state, id.1);
                    update_u64(&mut state, data.value);
                    i += 1;
                    assert(spend@.subrange(0, i as int).drop_last() =~= spend@.subrange(0, i - 1));
                }
                assert(spend@.subrange(0, i as int) =~= spend@);
            },
        }
        let ghost before = state@;
        let mut i: usize = 0;
        assert(state@ =~= before + output_bytes(self.outputs@.subrange(0, 0)));
        while i < self.outputs.len()
            invariant
                i <= self.outputs@.len(),
                state@ == before + output_bytes(self.outputs@.subrange(0, i as int)),
            decreases self.outputs@.len() - i,
        {
            update_u64(&mut state, self.outputs[i].value);
            i += 1;
            assert(self.outputs@.subrange(0, i as int).drop_last() =~= self.outputs@.subrange(
                0,
                i - 1,
            ));
            assert(state@ =~= before + output_bytes(self.outputs@.subrange(0, i as int)));
        }
        assert(self.outputs@.subrange(0, i as int) =~= self.outputs@);
        Digest::of(state.as_slice())
    }

    /// What the outputs are worth together.
    pub fn total_output(&self) -> (total: u128)
        ensures
            total == total_value(self.outputs@),
    {
        let mut total: u128 = 0;
        let mut i: usize = 0;
        while i < self.outputs.len()
            invariant
                i <= self.outputs@.len(),
                total == total_value(self.outputs@.subrange(0, i as int)),
                total <= i * 0xffff_ffff_ffff_ffff,
            decreases self.outputs@.len() - i,
        {
            assert(self.outputs@.subrange(0, i + 1).drop_last() =~= self.outputs@.subrange(
                0,
                i as int,
            ));
            assert((i + 1) * 0xffff_ffff_ffff_ffff <= 0xffff_ffff_ffff_ffff
                * 0xffff_ffff_ffff_ffff) by (nonlinear_arith)
                requires
                    i + 1 <= 0xffff_ffff_ffff_ffff,
            ;
            assert((i + 1) * 0xffff_ffff_ffff_ffff == i * 0xffff_ffff_ffff_ffff
                + 0xffff_ffff_ffff_ffff) by (nonlinear_arith);
            total = total + self.outputs[i].value as u128;
            i += 1;
        }
        assert(self.outputs@.subrange(0, i as int) =~= self.outputs@);
        total
    }
}

/// Whether two outputs are the same.
pub fn same_id(a: &UtxoId, b: &UtxoId) -> (same: bool)
    ensures
        same == (*a == *b),
{
    a.0.same(&b.0) && a.1 == b.1
}

/// A part of the ledger.
pub struct Utxo {
    entries: Vec<(UtxoId, UtxoData)>,
}

/// The outputs that entries stand for: a later entry hides an earlier one.
pub open spec fn ledger(entries: Seq<(UtxoId, UtxoData)>) -> Map<UtxoId, UtxoData>
    decreases entries.len(),
{
    if entries.len() == 0 {
        Map::empty()
    } else {
        ledger(entries.drop_last()).insert(entries.last().0, entries.last().1)
    }
}

impl View for Utxo {
    type V = Map<UtxoId, UtxoData>;

    closed spec fn view(&self) -> Map<UtxoId, UtxoData> {
        ledger(self.entries@)
    }
}

/// What a list of outputs is worth in a part of the ledger.
pub open spec fn worth(shard: Map<UtxoId, UtxoData>, spend: Seq<(UtxoId, UtxoData)>) -> nat
    decreases spend.len(),
{
    if spend.len() == 0 {
        0
    } else {
        worth(shard, spend.drop_last()) + if shard.contains_key(spend.last().0) {
            shard[spend.last().0].value as nat
        } else {
            0
        }
    }
}

/// A part of the ledger without some outputs.
pub open spec fn without_spent(
    shard: Map<UtxoId, UtxoData>,
    spend: Seq<(UtxoId, UtxoData)>,
) -> Map<UtxoId, UtxoData>
    decreases spend.len(),
{
    if spend.len() == 0 {
        shard
    } else {
        without_spent(shard, spend.drop_last()).remove(spend.last().0)
    }
}

impl Utxo {
    /// A part without outputs.
    pub fn new() -> (shard: Self)
        ensures
            shard@ == Map::<UtxoId, UtxoData>::empty(),
    {
        Utxo { entries: Vec::new() }
    }

    /// An output, if it is there.
    pub fn get(&self, id: &UtxoId) -> (data: Option<UtxoData>)
        ensures
            data == if self@.contains_key(*id) {
                Some(self@[*id])
            } else {
                None
            },
    {
        let mut i: usize = self.entries.len();
        let ghost all = self.entries@;
        assert(all.subrange(0, all.len() as int) =~= all);
        while i > 0
            invariant
                i <= self.entries@.len(),
                all == self.entries@,
                self@.contains_key(*id) == ledger(all.subrange(0, i as int)).contains_key(*id),
                self@.contains_key(*id) ==> self@[*id] == ledger(all.subrange(0, i as int))[*id],
            decreases i,
        {
            let ghost earlier = all.subrange(0, i as int);
            assert(earlier.last() == all[i - 1]);
            assert(earlier.drop_last() =~= all.subrange(0, i - 1));
            if same_id(&self.entries[i - 1].0, id) {
                return Some(self.entries[i - 1].1);
            }
            i -= 1;
        }
        None
    }

    /// Takes an output out.
    pub fn remove(&mut self, id: &UtxoId)
        ensures
            final(self)@ == old(self)@.remove(*id),
    {
        let ghost all = self.entries@;
        let mut kept: Vec<(UtxoId, UtxoData)> = Vec::new();
        let mut i: usize = 0;
        assert(ledger(all.subrange(0, 0)).remove(*id) =~= Map::empty());
        while i < self.entries.len()
            invariant
                i <= self.entries@.len(),
                all == self.entries@,
                ledger(kept@) == ledger(all.subrange(0, i as int)).remove(*id),
            decreases self.entries@.len() - i,
        {
            let ghost next = all.subrange(0, i + 1);
            assert(next.last() == all[i as int]);
            assert(next.drop_last() =~= all.subrange(0, i as int));
            let entry = self.entries[i];
            if !same_id(&entry.0, id) {
                let ghost before = kept@;
                kept.push(entry);
                assert(kept@.drop_last() =~= before);
                assert(ledger(kept@) =~= ledger(next).remove(*id));
            } else {
                assert(ledger(kept@) =~= ledger(next).remove(*id));
            }
            i += 1;
        }
        assert(all.subrange(0, i as int) =~= all);
        self.entries = kept;
    }

    /// Takes the outputs out that a transaction spends.
    pub fn remove_input(&mut self, input: &UtxoOpInput)
        ensures
            final(self)@ == without_spent(old(self)@, spent(*input)),
    {
        match input {
            UtxoOpInput::Mint => {},
            UtxoOpInput::Spend(spend) => {
                let mut i: usize = 0;
                assert(spend@.subrange(0, 0) =~= Seq::empty());
                while i < spend.len()
                    invariant
                        i <= spend@.len(),
                        self@ == without_spent(old(self)@, spend@.subrange(0, i as int)),
                    decreases spend@.len() - i,
                {
                    self.remove(&spend[i].0);
                    i += 1;
                    assert(spend@.subrange(0, i as int).drop_last() =~= spend@.subrange(0, i - 1));
                }
                assert(spend@.subrange(0, i as int) =~= spend@);
            },
        }
    }

    /// Adds an output.
    pub fn insert_output(&mut self, id: UtxoId, data: UtxoData)
        ensures
            final(self)@ == old(self)@.insert(id, data),
    {
        self.entries.push((id, data));
        assert(self.entries@.drop_last() =~= old(self).entries@);
    }

    /// Whether the outputs that a transaction spends are worth an amount here;
    /// if they are not, how much they are worth.
    pub fn total_input(&self, input: &UtxoOpInput, needed: u128) -> (total: Option<u128>)
        ensures
            match total {
                None => worth(self@, spent(*input)) >= needed,
                Some(total) => total == worth(self@, spent(*input)) && total < needed,
            },
    {
        let mut total: u128 = 0;
        match input {
            UtxoOpInput::Mint => {
                assert(spent(*input) =~= Seq::empty());
            },
            UtxoOpInput::Spend(spend) => {
                let mut i: usize = 0;
                assert(spend@.subrange(0, 0) =~= Seq::empty());
                while i < spend.len()
                    invariant
                        i <= spend@.len(),
                        spend@ == spent(*input),
                        total == worth(self@, spend@.subrange(0, i as int)),
                    decreases spend@.len() - i,
                {
                    assert(spend@.subrange(0, i + 1).drop_last() =~= spend@.subrange(0, i as int));
                    if total >= needed {
                        proof {
                            lemma_worth_grows(self@, spend@, i as int);
                        }
                        return None;
                    }
                    match self.get(&spend[i].0) {
                        Some(data) => {
                            if total > u128::MAX - data.value as u128 {
                                proof {
                                    lemma_worth_grows(self@, spend@, i + 1);
                                }
                                return None;
                            }
                            total = total + data.value as u128;
                        },
                        None => {},
                    }
                    i += 1;
                }
                assert(spend@.subrange(0, i as int) =~= spend@);
            },
        }
        if total >= needed {
            None
        } else {
            Some(total)
        }
    }
}

proof fn lemma_worth_grows(
    shard: Map<UtxoId, UtxoData>,
    spend: Seq<(UtxoId, UtxoData)>,
    i: int,
)
    requires
        0 <= i <= spend.len(),
    ensures
        worth(shard, spend.subrange(0, i)) <= worth(shard, spend),
    decreases spend.len() - i,
{
    if i == spend.len() {
        assert(spend.subrange(0, i) =~= spend);
    } else {
        assert(spend.subrange(0, i + 1).drop_last() =~= spend.subrange(0, i));
        lemma_worth_grows(shard, spend, i + 1);
    }
}

} // verus!
