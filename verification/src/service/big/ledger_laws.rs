//! What transactions do to the ledger as a whole, whatever its shards.
use super::app::{
    has_shards, make_in, outputs_with, shard_of_id, spend_in, worth_in,
    LedgerShards, ShardIndex, UtxoPlan,
};
use crate::app::utxo::{without_spent, worth, UtxoData, UtxoId, UtxoOp};
use vstd::prelude::*;

verus! {

/// What an output of the ledger holds: it is in its own shard, or nowhere.
pub open spec fn entry(shards: LedgerShards, num_shard: ShardIndex, id: UtxoId) -> Option<UtxoData> {
    let home = shard_of_id(num_shard, id);
    if shards.contains_key(home) && shards[home].contains_key(id) {
        Some(shards[home][id])
    } else {
        None
    }
}

/// Whether every output is in its own shard.
pub open spec fn all_home(shards: LedgerShards, num_shard: ShardIndex) -> bool {
    forall|index: ShardIndex, id: UtxoId|
        shards.contains_key(index) && #[trigger] shards[index].contains_key(id) ==> index
            == shard_of_id(num_shard, id)
}

/// Whether a list of outputs has an output.
pub open spec fn lists(spend: Seq<(UtxoId, UtxoData)>, id: UtxoId) -> bool {
    exists|i: int| 0 <= i < spend.len() && (#[trigger] spend[i]).0 == id
}

/// What a transaction makes of an output: the last of those it makes under that
/// identifier.
pub open spec fn made(outputs: Seq<(ShardIndex, UtxoId, UtxoData)>, id: UtxoId) -> Option<UtxoData>
    decreases outputs.len(),
{
    if outputs.len() == 0 {
        None
    } else if outputs.last().1 == id {
        Some(outputs.last().2)
    } else {
        made(outputs.drop_last(), id)
    }
}

/// An output is looked for where it was made: the shard that one transaction
/// makes an output in is among those that another looks in which spends it.
pub proof fn spent_where_made(
    making: UtxoPlan,
    spending: UtxoPlan,
    num_shard: ShardIndex,
    i: int,
    j: int,
)
    requires
        has_shards(making, num_shard),
        has_shards(spending, num_shard),
        0 <= i < making.outputs.len(),
        spending.spend is Some,
        0 <= j < spending.spend->Some_0.len(),
        spending.spend->Some_0[j].0 == making.outputs[i].1,
    ensures
        spending.input_shards.contains(making.outputs[i].0),
{
    let index = making.outputs[i].0;
    assert(shard_of_id(num_shard, spending.spend->Some_0[j].0) == index);
}

proof fn lemma_without_spent(
    shard: Map<UtxoId, UtxoData>,
    spend: Seq<(UtxoId, UtxoData)>,
    id: UtxoId,
)
    ensures
        without_spent(shard, spend).contains_key(id) <==> shard.contains_key(id) && !lists(
            spend,
            id,
        ),
        without_spent(shard, spend).contains_key(id) ==> without_spent(shard, spend)[id]
            == shard[id],
    decreases spend.len(),
{
    if spend.len() > 0 {
        let shorter = spend.drop_last();
        lemma_without_spent(shard, shorter, id);
        assert(lists(spend, id) == (lists(shorter, id) || spend.last().0 == id)) by {
            if lists(shorter, id) {
                let i = choose|i: int| 0 <= i < shorter.len() && (#[trigger] shorter[i]).0 == id;
                assert(spend[i].0 == id);
            }
            assert(spend[spend.len() - 1] == spend.last());
            if lists(spend, id) && spend.last().0 != id {
                let i = choose|i: int| 0 <= i < spend.len() && (#[trigger] spend[i]).0 == id;
                assert(shorter[i].0 == id);
            }
        }
    }
}

proof fn lemma_spend_in(
    shards: LedgerShards,
    indices: Seq<ShardIndex>,
    spend: Seq<(UtxoId, UtxoData)>,
    index: ShardIndex,
    id: UtxoId,
)
    requires
        forall|i: int| 0 <= i < indices.len() ==> shards.contains_key(#[trigger] indices[i]),
    ensures
        spend_in(shards, indices, spend).dom() == shards.dom(),
        spend_in(shards, indices, spend)[index].contains_key(id) <==> shards[index].contains_key(
            id,
        ) && !(indices.contains(index) && lists(spend, id)),
        spend_in(shards, indices, spend)[index].contains_key(id) ==> spend_in(
            shards,
            indices,
            spend,
        )[index][id] == shards[index][id],
    decreases indices.len(),
{
    if indices.len() > 0 {
        let shorter = indices.drop_last();
        let last = indices.last();
        assert(indices[indices.len() - 1] == last);
        assert forall|i: int| 0 <= i < shorter.len() implies shards.contains_key(
            #[trigger] shorter[i],
        ) by {
            assert(shorter[i] == indices[i]);
        }
        lemma_spend_in(shards, shorter, spend, index, id);
        let before = spend_in(shards, shorter, spend);
        lemma_without_spent(before[last], spend, id);
        assert(indices.contains(index) == (shorter.contains(index) || index == last)) by {
            if shorter.contains(index) {
                let i = shorter.index_of(index);
                assert(indices[i] == index);
            }
            if indices.contains(index) && index != last {
                let i = indices.index_of(index);
                assert(shorter[i] == index);
            }
        }
        assert(spend_in(shards, indices, spend).dom() =~= shards.dom());
    }
}

proof fn lemma_make_in(
    shards: LedgerShards,
    outputs: Seq<(ShardIndex, UtxoId, UtxoData)>,
    num_shard: ShardIndex,
    index: ShardIndex,
    id: UtxoId,
)
    requires
        forall|i: int|
            0 <= i < outputs.len() ==> shards.contains_key((#[trigger] outputs[i]).0)
                && outputs[i].0 == shard_of_id(num_shard, outputs[i].1),
    ensures
        ({
            let after = make_in(shards, outputs);
            let here = made(outputs, id) is Some && index == shard_of_id(num_shard, id);
            &&& after.dom() == shards.dom()
            &&& after[index].contains_key(id) <==> shards[index].contains_key(id) || here
            &&& here ==> Some(after[index][id]) == made(outputs, id)
            &&& !here && shards[index].contains_key(id) ==> after[index][id] == shards[index][id]
        }),
    decreases outputs.len(),
{
    if outputs.len() > 0 {
        let shorter = outputs.drop_last();
        assert(shards.contains_key(outputs[outputs.len() - 1].0));
        assert forall|i: int| 0 <= i < shorter.len() implies shards.contains_key(
            (#[trigger] shorter[i]).0,
        ) && shorter[i].0 == shard_of_id(num_shard, shorter[i].1) by {
            assert(shorter[i] == outputs[i]);
        }
        lemma_make_in(shards, shorter, num_shard, index, id);
        assert(make_in(shards, outputs).dom() =~= shards.dom());
    }
}

proof fn lemma_at_hand(plan: UtxoPlan, shards: LedgerShards)
    requires
        plan.required(shards.dom()) == Set::<ShardIndex>::empty(),
    ensures
        forall|i: int|
            0 <= i < plan.input_shards.len() ==> shards.contains_key(
                #[trigger] plan.input_shards[i],
            ),
        forall|i: int|
            0 <= i < plan.outputs.len() ==> shards.contains_key((#[trigger] plan.outputs[i]).0),
{
    assert forall|i: int| 0 <= i < plan.input_shards.len() implies shards.contains_key(
        #[trigger] plan.input_shards[i],
    ) by {
        let index = plan.input_shards[i];
        assert(plan.input_shards.contains(index));
        assert(!plan.required(shards.dom()).contains(index));
    }
    assert forall|i: int| 0 <= i < plan.outputs.len() implies shards.contains_key(
        (#[trigger] plan.outputs[i]).0,
    ) by {
        let index = plan.outputs[i].0;
        assert(plan.concerns(index));
        assert(!plan.required(shards.dom()).contains(index));
    }
}

/// What a transaction does to the ledger: an output that it makes holds what it
/// says, one that it spends is gone, and all others are as they were. And every
/// output stays in its own shard.
pub proof fn execution_changes_ledger(
    plan: UtxoPlan,
    num_shard: ShardIndex,
    shards: LedgerShards,
    id: UtxoId,
)
    requires
        has_shards(plan, num_shard),
        plan.required(shards.dom()) == Set::<ShardIndex>::empty(),
        all_home(shards, num_shard),
    ensures
        entry(plan.execute(shards), num_shard, id) == match made(plan.outputs, id) {
            Some(data) => Some(data),
            None => if plan.spend is Some && lists(plan.spend->Some_0, id) {
                None
            } else {
                entry(shards, num_shard, id)
            },
        },
        all_home(plan.execute(shards), num_shard),
{
    lemma_at_hand(plan, shards);
    let spend = match plan.spend {
        Some(spend) => spend,
        None => Seq::empty(),
    };
    let spent = spend_in(shards, plan.input_shards, spend);
    let after = plan.execute(shards);
    let home = shard_of_id(num_shard, id);
    lemma_spend_in(shards, plan.input_shards, spend, home, id);
    lemma_make_in(spent, plan.outputs, num_shard, home, id);
    if lists(spend, id) {
        let i = choose|i: int| 0 <= i < spend.len() && (#[trigger] spend[i]).0 == id;
        assert(shard_of_id(num_shard, plan.spend->Some_0[i].0) == home);
        assert(plan.input_shards.contains(home));
    }
    if made(plan.outputs, id) is Some {
        lemma_made(plan.outputs, id);
        let i = choose|i: int| 0 <= i < plan.outputs.len() && (#[trigger] plan.outputs[i]).1 == id;
        assert(shards.contains_key(plan.outputs[i].0));
    }
    assert forall|index: ShardIndex, other: UtxoId|
        after.contains_key(index) && #[trigger] after[index].contains_key(other) implies index
        == shard_of_id(num_shard, other) by {
        lemma_spend_in(shards, plan.input_shards, spend, index, other);
        lemma_make_in(spent, plan.outputs, num_shard, index, other);
        if shards[index].contains_key(other) {
            assert(shards.contains_key(index));
        }
    }
}

proof fn lemma_made(outputs: Seq<(ShardIndex, UtxoId, UtxoData)>, id: UtxoId)
    ensures
        made(outputs, id) is Some <==> exists|i: int|
            0 <= i < outputs.len() && (#[trigger] outputs[i]).1 == id,
    decreases outputs.len(),
{
    if outputs.len() > 0 {
        let shorter = outputs.drop_last();
        lemma_made(shorter, id);
        assert(outputs[outputs.len() - 1] == outputs.last());
        if exists|i: int| 0 <= i < shorter.len() && (#[trigger] shorter[i]).1 == id {
            let i = choose|i: int| 0 <= i < shorter.len() && (#[trigger] shorter[i]).1 == id;
            assert(outputs[i].1 == id);
        }
        if exists|i: int| 0 <= i < outputs.len() && (#[trigger] outputs[i]).1 == id {
            let i = choose|i: int| 0 <= i < outputs.len() && (#[trigger] outputs[i]).1 == id;
            if i < shorter.len() {
                assert(shorter[i].1 == id);
            }
        }
    }
}

/// What a list of outputs is worth, by what the ledger holds.
pub open spec fn entries_worth(
    shards: LedgerShards,
    num_shard: ShardIndex,
    spend: Seq<(UtxoId, UtxoData)>,
) -> nat
    decreases spend.len(),
{
    if spend.len() == 0 {
        0
    } else {
        entries_worth(shards, num_shard, spend.drop_last()) + match entry(
            shards,
            num_shard,
            spend.last().0,
        ) {
            Some(data) => data.value as nat,
            None => 0,
        }
    }
}

/// What some shards hold of an output.
spec fn held(shards: LedgerShards, indices: Seq<ShardIndex>, id: UtxoId) -> nat
    decreases indices.len(),
{
    if indices.len() == 0 {
        0
    } else {
        held(shards, indices.drop_last(), id) + if shards[indices.last()].contains_key(id) {
            shards[indices.last()][id].value as nat
        } else {
            0
        }
    }
}

proof fn lemma_worth_splits(
    shards: LedgerShards,
    indices: Seq<ShardIndex>,
    spend: Seq<(UtxoId, UtxoData)>,
)
    requires
        spend.len() > 0,
    ensures
        worth_in(shards, indices, spend) == worth_in(shards, indices, spend.drop_last()) + held(
            shards,
            indices,
            spend.last().0,
        ),
    decreases indices.len(),
{
    if indices.len() > 0 {
        lemma_worth_splits(shards, indices.drop_last(), spend);
        let shard = shards[indices.last()];
        assert(worth(shard, spend) == worth(shard, spend.drop_last()) + if shard.contains_key(
            spend.last().0,
        ) {
            shard[spend.last().0].value as nat
        } else {
            0
        });
    }
}

proof fn lemma_worth_of_nothing(shards: LedgerShards, indices: Seq<ShardIndex>)
    ensures
        worth_in(shards, indices, Seq::empty()) == 0,
    decreases indices.len(),
{
    if indices.len() > 0 {
        lemma_worth_of_nothing(shards, indices.drop_last());
    }
}

proof fn lemma_held(
    shards: LedgerShards,
    num_shard: ShardIndex,
    indices: Seq<ShardIndex>,
    id: UtxoId,
)
    requires
        all_home(shards, num_shard),
        indices.no_duplicates(),
        forall|i: int| 0 <= i < indices.len() ==> shards.contains_key(#[trigger] indices[i]),
    ensures
        held(shards, indices, id) == if indices.contains(shard_of_id(num_shard, id)) {
            match entry(shards, num_shard, id) {
                Some(data) => data.value as nat,
                None => 0,
            }
        } else {
            0
        },
    decreases indices.len(),
{
    if indices.len() > 0 {
        let shorter = indices.drop_last();
        let last = indices.last();
        let home = shard_of_id(num_shard, id);
        assert(indices[indices.len() - 1] == last);
        assert forall|i: int| 0 <= i < shorter.len() implies shards.contains_key(
            #[trigger] shorter[i],
        ) by {
            assert(shorter[i] == indices[i]);
        }
        lemma_held(shards, num_shard, shorter, id);
        if shorter.contains(home) {
            let i = shorter.index_of(home);
            assert(indices[i] == home);
            assert(indices[i] != indices[indices.len() - 1]);
        }
        if indices.contains(home) && home != last {
            let i = indices.index_of(home);
            assert(shorter[i] == home);
        }
        if shards[last].contains_key(id) {
            assert(last == home);
        }
    }
}

/// What a transaction spends is worth what the ledger holds of it: every output
/// that it lists counts with its value, wherever it is. So it is refused exactly
/// if that is less than what it makes.
pub proof fn refused_if_insufficient(plan: UtxoPlan, num_shard: ShardIndex, shards: LedgerShards)
    requires
        has_shards(plan, num_shard),
        plan.required(shards.dom()) == Set::<ShardIndex>::empty(),
        all_home(shards, num_shard),
        plan.spend is Some,
    ensures
        plan.insufficient(shards) <==> entries_worth(shards, num_shard, plan.spend->Some_0)
            < plan.total_output,
{
    lemma_at_hand(plan, shards);
    let spend = plan.spend->Some_0;
    lemma_spend_worth(plan, num_shard, shards, spend.len() as int);
    assert(spend.subrange(0, spend.len() as int) =~= spend);
}

proof fn lemma_spend_worth(
    plan: UtxoPlan,
    num_shard: ShardIndex,
    shards: LedgerShards,
    num: int,
)
    requires
        has_shards(plan, num_shard),
        all_home(shards, num_shard),
        plan.spend is Some,
        0 <= num <= plan.spend->Some_0.len(),
        forall|i: int|
            0 <= i < plan.input_shards.len() ==> shards.contains_key(
                #[trigger] plan.input_shards[i],
            ),
    ensures
        worth_in(shards, plan.input_shards, plan.spend->Some_0.subrange(0, num)) == entries_worth(
            shards,
            num_shard,
            plan.spend->Some_0.subrange(0, num),
        ),
    decreases num,
{
    let some = plan.spend->Some_0.subrange(0, num);
    if num == 0 {
        assert(some =~= Seq::empty());
        lemma_worth_of_nothing(shards, plan.input_shards);
    } else {
        let fewer = plan.spend->Some_0.subrange(0, num - 1);
        assert(some.drop_last() =~= fewer);
        assert(some.last() == plan.spend->Some_0[num - 1]);
        lemma_spend_worth(plan, num_shard, shards, num - 1);
        lemma_worth_splits(shards, plan.input_shards, some);
        lemma_held(shards, num_shard, plan.input_shards, some.last().0);
        assert(plan.input_shards.contains(shard_of_id(num_shard, plan.spend->Some_0[num - 1].0)));
    }
}

/// A transaction makes every one of its outputs, under its own number.
pub proof fn every_output_is_made(op: UtxoOp, shards: Seq<ShardIndex>, i: int)
    requires
        0 <= i < op.outputs@.len() <= u32::MAX,
    ensures
        made(outputs_with(op, shards), UtxoId(op.tx_id_spec(), i as u32)) == Some(op.outputs@[i]),
{
    let all = outputs_with(op, shards);
    assert(all.subrange(0, all.len() as int) =~= all);
    lemma_output_made(op, shards, i, all.len() as int);
}

proof fn lemma_output_made(op: UtxoOp, shards: Seq<ShardIndex>, i: int, num: int)
    requires
        0 <= i < num <= op.outputs@.len() <= u32::MAX,
    ensures
        made(outputs_with(op, shards).subrange(0, num), UtxoId(op.tx_id_spec(), i as u32)) == Some(
            op.outputs@[i],
        ),
    decreases num,
{
    let some = outputs_with(op, shards).subrange(0, num);
    assert(some.drop_last() =~= outputs_with(op, shards).subrange(0, num - 1));
    assert(some.last() == outputs_with(op, shards)[num - 1]);
    if i < num - 1 {
        assert((num - 1) as u32 != i as u32);
        lemma_output_made(op, shards, i, num - 1);
    }
}

} // verus!
