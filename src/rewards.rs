use vstd::prelude::*;
use crate::asset::{keys_of, Asset, AssetInfo, AssetKey};
use crate::decimal::{
    atomics_limit, decimal_checked_add, decimal_checked_sub, decimal_from_ratio, decimal_mul_floor,
    owed_units, ratio_atomics, Decimal,
};
use crate::error::ContractError;
use crate::info::Info;
use crate::ledger::Ledger;

verus! {

/// An outbound transfer of `amount` units of `asset` to `recipient`.
#[derive(Clone, Debug, PartialEq, Eq)]
pub struct Transfer {
    pub asset: AssetInfo,
    pub amount: u128,
    pub recipient: String,
}

/// The newly arrived reward: what the balance grew by, or zero where it shrank.
pub open spec fn reward_of(previous: u128, current: u128) -> nat {
    if current >= previous {
        (current - previous) as nat
    } else {
        0
    }
}

/// One asset's settlement: from its global index (absent if never
/// initialized), the user's snapshot, the new reward and the two shares, the
/// new global index and the units owed to the user.
pub open spec fn settle_step(
    global: Option<nat>,
    snapshot: nat,
    reward: nat,
    user_share: nat,
    total_share: nat,
) -> Result<(nat, nat), ContractError> {
    match global {
        None => Err(ContractError::GlobalIndexNotFound),
        Some(g) => if total_share == 0 {
            Err(ContractError::DivideByZero)
        } else {
            let new_global = g + ratio_atomics(reward, total_share);
            if new_global >= atomics_limit() || snapshot > new_global {
                Err(ContractError::Overflow)
            } else if owed_units((new_global - snapshot) as nat, user_share) > u128::MAX {
                Err(ContractError::Overflow)
            } else {
                Ok((new_global, owed_units((new_global - snapshot) as nat, user_share)))
            }
        },
    }
}

/// How many assets a settlement covers: the tracked assets that both
/// balance lists reach.
pub open spec fn settled_count(info: Info, previous: Seq<Asset>, current: Seq<u128>) -> int {
    let n = info.asset_infos@.len() as int;
    let n = if previous.len() < n { previous.len() as int } else { n };
    if current.len() < n { current.len() as int } else { n }
}

/// The settlement of the `i`-th tracked asset against the store as it stood
/// before the call.
pub open spec fn settle_at(
    ledger: Ledger,
    info: Info,
    previous: Seq<Asset>,
    current: Seq<u128>,
    i: int,
    user: Seq<char>,
    user_share: nat,
    total_share: nat,
) -> Result<(nat, nat), ContractError> {
    let key = info.asset_infos@[i]@;
    settle_step(
        if ledger.globals().contains_key(key) {
            Some(ledger.globals()[key].value())
        } else {
            None
        },
        ledger.user_value(user, key),
        reward_of(previous[i].amount, current[i]),
        user_share,
        total_share,
    )
}

/// The settlement of each asset that a call covers, in order.
pub open spec fn settle_results(
    ledger: Ledger,
    info: Info,
    previous: Seq<Asset>,
    current: Seq<u128>,
    user: Seq<char>,
    user_share: nat,
    total_share: nat,
) -> Seq<Result<(nat, nat), ContractError>> {
    Seq::new(
        settled_count(info, previous, current) as nat,
        |i: int| settle_at(ledger, info, previous, current, i, user, user_share, total_share),
    )
}

/// Whether `key` is none of the first `k` of `keys`.
spec fn unsettled(keys: Seq<AssetKey>, k: int, key: AssetKey) -> bool {
    forall|j: int| 0 <= j < k ==> keys[j] != key
}

/// Where the payout goes: the given receiver, else the user.
pub open spec fn payee(receiver: Option<String>, user: Seq<char>) -> Seq<char> {
    match receiver {
        Some(r) => r@,
        None => user,
    }
}

/// Settles the rewards of `user` on every tracked asset.
///
/// `previous_assets_balances` are the balances the caller saw before, and
/// `current_balances` the balances held now, both position by position with
/// the tracked assets. The reward of each asset folds into its global index
/// at `old_total_share`; the user is paid `old_user_share` times the growth of
/// the index since their snapshot, and the snapshot moves to the new index.
/// Without a tracked-asset configuration nothing happens. On any error the
/// store is left as it was.
pub fn handle_rewards(
    ledger: &mut Ledger,
    info: &Option<Info>,
    previous_assets_balances: &Vec<Asset>,
    current_balances: &Vec<u128>,
    old_user_share: u128,
    old_total_share: u128,
    user: &String,
    receiver: Option<String>,
) -> (r: Result<Vec<Transfer>, ContractError>)
    requires
        old(ledger).wf(),
        info matches Some(inf) ==> inf.wf(),
    ensures
        final(ledger).wf(),
        r is Err ==> *final(ledger) == *old(ledger),
        info is None ==> (r matches Ok(ts) && ts@.len() == 0 && *final(ledger) == *old(ledger)),
        info matches Some(inf) ==> {
            let outs = settle_results(
                *old(ledger),
                *inf,
                previous_assets_balances@,
                current_balances@,
                user@,
                old_user_share as nat,
                old_total_share as nat,
            );
            let keys = keys_of(inf.asset_infos@).take(outs.len() as int);
            &&& (r is Ok <==> forall|i: int| 0 <= i < outs.len() ==> outs[i] is Ok)
            &&& (r matches Err(e) ==> exists|i: int|
                0 <= i < outs.len() && outs[i] == Err::<(nat, nat), ContractError>(e) && forall|
                    j: int,
                | 0 <= j < i ==> outs[j] is Ok)
            &&& (r matches Ok(ts) ==> {
                &&& ts@.len() == outs.len()
                &&& forall|i: int|
                    0 <= i < outs.len() ==> {
                        &&& ts@[i].asset@ == keys[i]
                        &&& ts@[i].amount == outs[i]->Ok_0.1
                        &&& ts@[i].recipient@ == payee(receiver, user@)
                        &&& final(ledger).globals().contains_key(keys[i])
                        &&& final(ledger).globals()[keys[i]].value() == outs[i]->Ok_0.0
                        &&& final(ledger).users().contains_key((user@, keys[i]))
                        &&& final(ledger).users()[(user@, keys[i])].value() == outs[i]->Ok_0.0
                    }
                &&& forall|k: AssetKey|
                    !keys.contains(k) ==> final(ledger).globals().contains_key(k)
                        == old(ledger).globals().contains_key(k) && (old(
                        ledger,
                    ).globals().contains_key(k) ==> final(ledger).globals()[k] == old(
                        ledger,
                    ).globals()[k])
                &&& forall|u: Seq<char>, k: AssetKey|
                    !(u == user@ && keys.contains(k)) ==> final(ledger).users().contains_key((u, k))
                        == old(ledger).users().contains_key((u, k)) && (old(
                        ledger,
                    ).users().contains_key((u, k)) ==> final(ledger).users()[(u, k)] == old(
                        ledger,
                    ).users()[(u, k)])
            })
        },
{
    let inf = match info {
        None => {
            return Ok(Vec::new());
        },
        Some(inf) => inf,
    };
    let mut n: usize = inf.asset_infos.len();
    if previous_assets_balances.len() < n {
        n = previous_assets_balances.len();
    }
    if current_balances.len() < n {
        n = current_balances.len();
    }
    let ghost n_spec = settled_count(*inf, previous_assets_balances@, current_balances@);
    let ghost outs = settle_results(
        *ledger,
        *inf,
        previous_assets_balances@,
        current_balances@,
        user@,
        old_user_share as nat,
        old_total_share as nat,
    );
    assert(n == n_spec);

    // First every new index and payout, reading the store only.
    let mut updates: Vec<(Decimal, u128)> = Vec::new();
    let mut i: usize = 0;
    while i < n
        invariant
            *info == Some(*inf),
            n == n_spec,
            outs.len() == n,
            outs == settle_results(
                *ledger,
                *inf,
                previous_assets_balances@,
                current_balances@,
                user@,
                old_user_share as nat,
                old_total_share as nat,
            ),
            n <= inf.asset_infos@.len(),
            n <= previous_assets_balances@.len(),
            n <= current_balances@.len(),
            ledger.wf(),
            *ledger == *old(ledger),
            i <= n,
            updates@.len() == i,
            forall|j: int|
                0 <= j < i ==> outs[j] is Ok && updates@[j].0.value() == outs[j]->Ok_0.0
                    && updates@[j].1 == outs[j]->Ok_0.1,
        decreases n - i,
    {
        let asset = &inf.asset_infos[i];
        let previous = previous_assets_balances[i].amount;
        let current = current_balances[i];
        let reward: u128 = if current >= previous {
            current - previous
        } else {
            0
        };
        let global = match ledger.global_index(asset) {
            None => {
                assert(outs[i as int] == Err::<(nat, nat), ContractError>(ContractError::GlobalIndexNotFound));
                return Err(ContractError::GlobalIndexNotFound);
            },
            Some(g) => g,
        };
        let gain = match decimal_from_ratio(reward, old_total_share) {
            None => {
                assert(outs[i as int] == Err::<(nat, nat), ContractError>(ContractError::DivideByZero));
                return Err(ContractError::DivideByZero);
            },
            Some(d) => d,
        };
        let new_global = match decimal_checked_add(global, gain) {
            None => {
                assert(outs[i as int] == Err::<(nat, nat), ContractError>(ContractError::Overflow));
                return Err(ContractError::Overflow);
            },
            Some(d) => d,
        };
        let snapshot = ledger.user_index(user, asset);
        let growth = match decimal_checked_sub(new_global, snapshot) {
            None => {
                assert(outs[i as int] == Err::<(nat, nat), ContractError>(ContractError::Overflow));
                return Err(ContractError::Overflow);
            },
            Some(d) => d,
        };
        let owed = match decimal_mul_floor(old_user_share, growth) {
            None => {
                assert(outs[i as int] == Err::<(nat, nat), ContractError>(ContractError::Overflow));
                return Err(ContractError::Overflow);
            },
            Some(v) => v,
        };
        updates.push((new_global, owed));
        i = i + 1;
    }

    // Then commit them all.
    let recipient = match receiver {
        Some(r) => r,
        None => user.clone(),
    };
    let ghost keys = keys_of(inf.asset_infos@).take(n as int);
    let mut transfers: Vec<Transfer> = Vec::new();
    let mut k: usize = 0;
    while k < n
        invariant
            *info == Some(*inf),
            n == n_spec,
            outs.len() == n,
            n <= inf.asset_infos@.len(),
            inf.wf(),
            keys == keys_of(inf.asset_infos@).take(n as int),
            updates@.len() == n,
            forall|j: int|
                0 <= j < n ==> outs[j] is Ok && updates@[j].0.value() == outs[j]->Ok_0.0
                    && updates@[j].1 == outs[j]->Ok_0.1,
            recipient@ == payee(receiver, user@),
            ledger.wf(),
            k <= n,
            transfers@.len() == k,
            forall|j: int|
                0 <= j < k ==> {
                    &&& transfers@[j].asset@ == keys[j]
                    &&& transfers@[j].amount == updates@[j].1
                    &&& transfers@[j].recipient@ == recipient@
                    &&& ledger.globals().contains_key(keys[j])
                    &&& ledger.globals()[keys[j]] == updates@[j].0
                    &&& ledger.users().contains_key((user@, keys[j]))
                    &&& ledger.users()[(user@, keys[j])] == updates@[j].0
                },
            forall|key: AssetKey|
                #![trigger old(ledger).globals().contains_key(key)]
                #![trigger ledger.globals().contains_key(key)]
                unsettled(keys, k as int, key) ==> (ledger.globals().contains_key(key)
                    == old(ledger).globals().contains_key(key)),
            forall|key: AssetKey|
                #![trigger old(ledger).globals()[key]]
                unsettled(keys, k as int, key) && old(ledger).globals().contains_key(key) ==> (
                ledger.globals()[key] == old(ledger).globals()[key]),
            forall|u: Seq<char>, key: AssetKey|
                #![trigger old(ledger).users().contains_key((u, key))]
                #![trigger ledger.users().contains_key((u, key))]
                (u != user@ || unsettled(keys, k as int, key)) ==> (ledger.users().contains_key((u, key))
                    == old(ledger).users().contains_key((u, key))),
            forall|u: Seq<char>, key: AssetKey|
                #![trigger old(ledger).users()[(u, key)]]
                (u != user@ || unsettled(keys, k as int, key)) && old(ledger).users().contains_key((u, key)) ==> (
                ledger.users()[(u, key)] == old(ledger).users()[(u, key)]),
        decreases n - k,
    {
        let asset = &inf.asset_infos[k];
        let (index, amount) = updates[k];
        let ghost prior = *ledger;
        ledger.set_global_index(asset.clone(), index);
        ledger.set_user_index(user.clone(), asset.clone(), index);
        transfers.push(Transfer { asset: asset.clone(), amount, recipient: recipient.clone() });
        proof {
            assert(keys[k as int] == inf.asset_infos@[k as int]@);
            assert forall|j: int| 0 <= j < k implies keys[j] != keys[k as int] by {
                assert(keys_of(inf.asset_infos@)[j] == keys[j]);
            }
            assert(ledger.globals() == prior.globals().insert(keys[k as int], index));
            assert(ledger.users() == prior.users().insert((user@, keys[k as int]), index));
            assert forall|key: AssetKey| unsettled(keys, k + 1, key) implies unsettled(
                keys,
                k as int,
                key,
            ) && key != keys[k as int] by {}
        }
        k = k + 1;
    }
    assert forall|key: AssetKey| !keys.contains(key) implies unsettled(keys, n as int, key) by {
        if exists|j: int| 0 <= j < n && keys[j] == key {
            let j = choose|j: int| 0 <= j < n && keys[j] == key;
            assert(keys.contains(key));
        }
    }
    Ok(transfers)
}

} // verus!
