//! What becomes of outputs that are spent.
use super::utxo::{ledger, without_spent, worth, UtxoData, UtxoId};
use vstd::prelude::*;

verus! {

/// Whether an output is among those that are spent.
pub open spec fn is_spent(spend: Seq<(UtxoId, UtxoData)>, id: UtxoId) -> bool {
    exists|i: int| 0 <= i < spend.len() && (#[trigger] spend[i]).0 == id
}

/// What is spent is gone, and all else stays as it was.
pub proof fn spent_is_gone(
    shard: Map<UtxoId, UtxoData>,
    spend: Seq<(UtxoId, UtxoData)>,
    id: UtxoId,
)
    ensures
        without_spent(shard, spend).contains_key(id) <==> shard.contains_key(id) && !is_spent(
            spend,
            id,
        ),
        without_spent(shard, spend).contains_key(id) ==> without_spent(shard, spend)[id]
            == shard[id],
    decreases spend.len(),
{
    if spend.len() > 0 {
        let shorter = spend.drop_last();
        spent_is_gone(shard, shorter, id);
        let last = spend.len() - 1;
        if is_spent(shorter, id) {
            let i = choose|i: int| 0 <= i < shorter.len() && (#[trigger] shorter[i]).0 == id;
            assert(spend[i].0 == id);
        }
        if is_spent(spend, id) {
            let i = choose|i: int| 0 <= i < spend.len() && (#[trigger] spend[i]).0 == id;
            if i < last {
                assert(shorter[i].0 == id);
            }
        }
        assert(spend[last].0 == spend.last().0);
    }
}

/// What is spent twice is worth nothing the second time.
pub proof fn spent_is_worth_nothing(
    shard: Map<UtxoId, UtxoData>,
    spend: Seq<(UtxoId, UtxoData)>,
    again: Seq<(UtxoId, UtxoData)>,
)
    requires
        forall|i: int| 0 <= i < again.len() ==> is_spent(spend, (#[trigger] again[i]).0),
    ensures
        worth(without_spent(shard, spend), again) == 0,
    decreases again.len(),
{
    if again.len() > 0 {
        let shorter = again.drop_last();
        assert forall|i: int| 0 <= i < shorter.len() implies is_spent(
            spend,
            (#[trigger] shorter[i]).0,
        ) by {
            assert(shorter[i] == again[i]);
        }
        spent_is_worth_nothing(shard, spend, shorter);
        assert(is_spent(spend, again[again.len() - 1].0));
        spent_is_gone(shard, spend, again.last().0);
    }
}

/// What outputs are worth goes by what the ledger holds of them, not by what the
/// transaction says of them; those that the ledger does not hold are worth
/// nothing.
pub proof fn worth_goes_by_ledger(
    shard: Map<UtxoId, UtxoData>,
    a: Seq<(UtxoId, UtxoData)>,
    b: Seq<(UtxoId, UtxoData)>,
    more: (UtxoId, UtxoData),
)
    requires
        a.len() == b.len(),
        forall|i: int| 0 <= i < a.len() ==> (#[trigger] a[i]).0 == b[i].0,
    ensures
        worth(shard, a) == worth(shard, b),
        worth(shard, a.push(more)) == worth(shard, a) + if shard.contains_key(more.0) {
            shard[more.0].value as nat
        } else {
            0
        },
    decreases a.len(),
{
    assert(a.push(more).drop_last() =~= a);
    if a.len() > 0 {
        assert(a[a.len() - 1].0 == b[b.len() - 1].0);
        assert forall|i: int| 0 <= i < a.drop_last().len() implies (
        #[trigger] a.drop_last()[i]).0 == b.drop_last()[i].0 by {
            assert(a[i].0 == b[i].0);
        }
        worth_goes_by_ledger(shard, a.drop_last(), b.drop_last(), more);
    }
}

/// An output in the ledger is the last that was entered under its identifier.
pub proof fn ledger_holds_last_entry(entries: Seq<(UtxoId, UtxoData)>, i: int)
    requires
        0 <= i < entries.len(),
        forall|j: int| i < j < entries.len() ==> (#[trigger] entries[j]).0 != entries[i].0,
    ensures
        ledger(entries).contains_key(entries[i].0),
        ledger(entries)[entries[i].0] == entries[i].1,
    decreases entries.len(),
{
    let last = entries.len() - 1;
    if i < last {
        let shorter = entries.drop_last();
        assert forall|j: int| i < j < shorter.len() implies (#[trigger] shorter[j]).0
            != shorter[i].0 by {
            assert(entries[j].0 != entries[i].0);
        }
        ledger_holds_last_entry(shorter, i);
        assert(entries[last].0 != entries[i].0);
    }
}

} // verus!
