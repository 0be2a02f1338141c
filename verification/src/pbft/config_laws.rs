//! How many replicas it takes, and who speaks for whom.
use super::message::Message;
use super::replica::ReplicaState;
use super::replica_core::ReplicaCoreConfig;
use super::ViewNum;
use crate::command::Command;
use crate::crypto::PublicKey;
use vstd::arithmetic::div_mod::{
    lemma_fundamental_div_mod, lemma_fundamental_div_mod_converse, lemma_mod_bound,
    lemma_small_mod,
};
use vstd::prelude::*;

verus! {

/// Where more than two thirds of the replicas are correct, those alone make a
/// quorum, and two quorums have more replicas in common than can be faulty.
pub proof fn quorums_suffice_and_overlap(config: ReplicaCoreConfig)
    requires
        config.wf(),
        config.num_replica > 3 * config.num_faulty_replica,
    ensures
        config.quorum() <= config.num_replica - config.num_faulty_replica,
        2 * config.quorum() - config.num_replica > config.num_faulty_replica,
{
}

/// Replicas are primaries in turn: every replica is the primary of the view with
/// its number, and after the primary of a view comes the next replica, after the
/// last one the first.
pub proof fn primaries_take_turns(config: ReplicaCoreConfig, view_num: ViewNum)
    requires
        config.wf(),
        view_num < u64::MAX,
    ensures
        config.primary_of_spec(view_num) < config.num_replica,
        config.id < config.num_replica ==> config.is_primary(config.id as ViewNum),
        config.primary_of_spec((view_num + 1) as ViewNum) == if config.primary_of_spec(view_num) + 1
            == config.num_replica {
            0
        } else {
            config.primary_of_spec(view_num) + 1
        },
{
    let n = config.num_replica as int;
    let x = view_num as int;
    lemma_mod_bound(x, n);
    lemma_mod_bound(x + 1, n);
    lemma_fundamental_div_mod(x, n);
    let q = x / n;
    if config.id < config.num_replica {
        lemma_small_mod(config.id as nat, config.num_replica as nat);
    }
    if x % n + 1 == n {
        assert(x + 1 == n * (q + 1)) by (nonlinear_arith)
            requires
                x == n * q + x % n,
                x % n + 1 == n,
        ;
        lemma_fundamental_div_mod_converse(x + 1, n, q + 1, 0);
    } else {
        lemma_fundamental_div_mod_converse(x + 1, n, q, x % n + 1);
    }
}

/// A message is checked against the key of who is to have sent it: a vote against
/// its voter's, a proposal against the primary's. Without a key for them, it
/// cannot be checked.
pub proof fn checked_against_senders_key(
    state: ReplicaState,
    message: Message<Seq<Command>>,
    keys: Seq<PublicKey>,
)
    ensures
        ({
            let sender = match message {
                Message::Prepare(vote) => vote.replica_id as int,
                Message::Commit(vote) => vote.replica_id as int,
                Message::PrePrepare(_, _) => state.core.config.primary_of_spec(
                    state.core.view_num,
                ) as int,
            };
            let key = state.verification_key(message, keys);
            &&& key is Some <==> sender < keys.len()
            &&& key is Some ==> key == Some(keys[sender])
        }),
{
}

} // verus!
