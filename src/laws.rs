use vstd::prelude::*;
use vstd::arithmetic::div_mod::{lemma_fundamental_div_mod, lemma_mod_pos_bound};
use crate::admin::{freeze_outcome, update_admins_outcome, AdminList};
use crate::asset::AssetKey;
use crate::decimal::{atomics_limit, owed_units, ratio_atomics, unit};
use crate::error::ContractError;
use crate::info::{asset_failure, first_failure, setup_failure, InstantiateMsg};
use crate::asset::keys_of;
use crate::rewards::{reward_of, settle_step};

verus! {

/// A call that may change the admin registry: who makes it, and either a
/// freeze (`None`) or a replacement of the admins with the address checks
/// of the new ones.
pub type AdminCall = (Seq<char>, Option<(Vec<String>, Seq<Result<(), String>>)>);

/// What one admin call leaves, or why it fails.
pub open spec fn admin_call_outcome(cfg: AdminList, call: AdminCall) -> Result<
    AdminList,
    ContractError,
> {
    match call.1 {
        None => freeze_outcome(cfg, call.0),
        Some((admins, checks)) => update_admins_outcome(cfg, call.0, admins, checks),
    }
}

/// The registry after a run of admin calls; a failed call leaves it as it was.
pub open spec fn registry_after(cfg: AdminList, calls: Seq<AdminCall>) -> AdminList
    decreases calls.len(),
{
    if calls.len() == 0 {
        cfg
    } else {
        let before = registry_after(cfg, calls.drop_last());
        match admin_call_outcome(before, calls.last()) {
            Ok(next) => next,
            Err(_) => before,
        }
    }
}

/// Freezing is final: after a successful freeze, every later freeze or
/// replacement of the admins fails as unauthorized, whoever makes it, and
/// the registry stays as the freeze left it.
pub proof fn lemma_freeze_is_final(cfg: AdminList, sender: Seq<char>, calls: Seq<AdminCall>)
    requires
        freeze_outcome(cfg, sender) is Ok,
    ensures
        ({
            let frozen = freeze_outcome(cfg, sender)->Ok_0;
            &&& !frozen.mutable
            &&& registry_after(frozen, calls) == frozen
            &&& forall|i: int|
                0 <= i < calls.len() ==> admin_call_outcome(
                    registry_after(frozen, #[trigger] calls.take(i)),
                    calls[i],
                ) == Err::<AdminList, ContractError>(ContractError::Unauthorized)
        }),
    decreases calls.len(),
{
    let frozen = freeze_outcome(cfg, sender)->Ok_0;
    if calls.len() > 0 {
        lemma_freeze_is_final(cfg, sender, calls.drop_last());
        assert forall|i: int| 0 <= i < calls.len() implies admin_call_outcome(
            registry_after(frozen, #[trigger] calls.take(i)),
            calls[i],
        ) == Err::<AdminList, ContractError>(ContractError::Unauthorized) by {
            if i < calls.len() - 1 {
                assert(calls.take(i) == calls.drop_last().take(i));
                assert(calls[i] == calls.drop_last()[i]);
            } else {
                assert(calls.take(i) == calls.drop_last());
            }
        }
    }
}

proof fn lemma_clean_assets_are_distinct(
    keys: Seq<AssetKey>,
    checks: Seq<Result<(), String>>,
    i: int,
    a: int,
    b: int,
)
    requires
        0 <= i <= b,
        0 <= a < b < keys.len(),
        keys.len() <= checks.len(),
        asset_failure(keys, checks, i) is None,
    ensures
        keys[a] != keys[b],
    decreases b - i,
{
    if i < b {
        lemma_clean_assets_are_distinct(keys, checks, i + 1, a, b);
    }
}

/// A setup that lists one asset twice is always rejected.
pub proof fn lemma_duplicate_assets_rejected(
    msg: InstantiateMsg,
    rewarder_checks: Seq<Result<(), String>>,
    asset_checks: Seq<Result<(), String>>,
    admin_checks: Seq<Result<(), String>>,
    a: int,
    b: int,
)
    requires
        asset_checks.len() == msg.info.asset_infos@.len(),
        0 <= a < b < msg.info.asset_infos@.len(),
        msg.info.asset_infos@[a]@ == msg.info.asset_infos@[b]@,
    ensures
        setup_failure(msg, rewarder_checks, asset_checks, admin_checks) is Some,
{
    let keys = keys_of(msg.info.asset_infos@);
    if first_failure(rewarder_checks) is None && asset_failure(keys, asset_checks, 0) is None {
        lemma_clean_assets_are_distinct(keys, asset_checks, 0, a, b);
    }
}

/// Where the balance shrank, the settlement finds no reward: the global
/// index stays as it was, and the user's snapshot moves to that same value.
pub proof fn lemma_shrunk_balance_keeps_index(
    global: nat,
    snapshot: nat,
    previous: u128,
    current: u128,
    user_share: nat,
    total_share: nat,
)
    requires
        current < previous,
        settle_step(Some(global), snapshot, reward_of(previous, current), user_share, total_share) is Ok,
    ensures
        reward_of(previous, current) == 0,
        settle_step(Some(global), snapshot, reward_of(previous, current), user_share, total_share)->Ok_0.0
            == global,
{
    assert(ratio_atomics(0, total_share) == 0) by (nonlinear_arith)
        requires
            total_share > 0,
    ;
}

/// A sole depositor (user share equal to total share) whose snapshot is up
/// to date is paid the whole reward, less what floor rounding drops:
/// at most the reward, and short of it by less than one unit plus
/// `share` atomics. Settling again with no new reward pays nothing.
pub proof fn lemma_sole_depositor_paid_in_full(global: nat, reward: nat, share: nat)
    requires
        settle_step(Some(global), global, reward, share, share) is Ok,
    ensures
        ({
            let (next, owed) = settle_step(Some(global), global, reward, share, share)->Ok_0;
            &&& owed <= reward
            &&& reward * unit() < (owed + 1) * unit() + share
            &&& settle_step(Some(next), next, 0, share, share) == Ok::<(nat, nat), ContractError>(
                (next, 0),
            )
        }),
{
    let x = reward * unit();
    let q = ratio_atomics(reward, share);
    let (next, owed) = settle_step(Some(global), global, reward, share, share)->Ok_0;
    assert(share > 0);
    assert(next == global + q);
    assert((next - global) as nat == q);
    assert(owed == owed_units(q, share));
    lemma_fundamental_div_mod(x as int, share as int);
    lemma_mod_pos_bound(x as int, share as int);
    assert(q == x / share);
    assert(share * q <= x < share * q + share);
    let y = share * q;
    lemma_fundamental_div_mod(y as int, unit() as int);
    lemma_mod_pos_bound(y as int, unit() as int);
    assert(owed == y / unit());
    assert(owed * unit() <= y < owed * unit() + unit()) by (nonlinear_arith)
        requires
            y == unit() * (y / unit()) + y % unit(),
            0 <= y % unit() < unit(),
            owed == y / unit(),
    ;
    assert(owed <= reward) by (nonlinear_arith)
        requires
            owed * unit() <= y,
            y <= x,
            x == reward * unit(),
            unit() > 0,
    ;
    assert(reward * unit() < (owed + 1) * unit() + share) by (nonlinear_arith)
        requires
            y < owed * unit() + unit(),
            x < y + share,
            x == reward * unit(),
    ;
    assert(ratio_atomics(0, share) == 0) by (nonlinear_arith)
        requires
            share > 0,
    ;
    assert(owed_units(0, share) == 0) by (nonlinear_arith);
    assert(next < atomics_limit());
}

/// The sum of a run of rewards.
pub open spec fn total_reward(rewards: Seq<nat>) -> nat
    decreases rewards.len(),
{
    if rewards.len() == 0 {
        0
    } else {
        total_reward(rewards.drop_last()) + rewards.last()
    }
}

/// One user, up to date at the start, settling once after each reward of a
/// run, with fixed shares and nobody else settling: the final global index
/// and the sum paid to the user, or the first error.
pub open spec fn settle_run(global: nat, rewards: Seq<nat>, user_share: nat, total_share: nat) -> Result<
    (nat, nat),
    ContractError,
>
    decreases rewards.len(),
{
    if rewards.len() == 0 {
        Ok((global, 0))
    } else {
        match settle_run(global, rewards.drop_last(), user_share, total_share) {
            Err(e) => Err(e),
            Ok((index, paid)) => match settle_step(
                Some(index),
                index,
                rewards.last(),
                user_share,
                total_share,
            ) {
                Err(e) => Err(e),
                Ok((next, owed)) => Ok((next, paid + owed)),
            },
        }
    }
}

proof fn lemma_floor_bounds(y: nat, d: nat)
    requires
        d > 0,
    ensures
        (y / d) * d <= y,
        y + 1 <= (y / d + 1) * d,
{
    lemma_fundamental_div_mod(y as int, d as int);
    lemma_mod_pos_bound(y as int, d as int);
    assert((y / d) * d <= y && y + 1 <= (y / d + 1) * d) by (nonlinear_arith)
        requires
            y == d * (y / d) + y % d,
            0 <= y % d < d,
    ;
}

proof fn lemma_run_bounds(global: nat, rewards: Seq<nat>, user_share: nat, total_share: nat)
    requires
        settle_run(global, rewards, user_share, total_share) is Ok,
    ensures
        ({
            let (index, paid) = settle_run(global, rewards, user_share, total_share)->Ok_0;
            let gain = index - global;
            let m = rewards.len();
            let r = total_reward(rewards);
            &&& index >= global
            &&& gain * total_share <= r * unit()
            &&& r * unit() + m <= (gain + m) * total_share
            &&& paid * unit() <= user_share * gain
            &&& user_share * gain + m <= (paid + m) * unit()
        }),
    decreases rewards.len(),
{
    if rewards.len() > 0 {
        let front = rewards.drop_last();
        lemma_run_bounds(global, front, user_share, total_share);
        let (index, paid) = settle_run(global, front, user_share, total_share)->Ok_0;
        let x = rewards.last();
        let (next, owed) = settle_step(Some(index), index, x, user_share, total_share)->Ok_0;
        let t = total_share;
        let u = user_share;
        let a = ratio_atomics(x, t);
        assert(t > 0);
        assert(next == index + a);
        assert(owed == owed_units(a, u));
        lemma_floor_bounds(x * unit(), t);
        lemma_floor_bounds(u * a, unit());
        let gain = (index - global) as nat;
        let r = total_reward(front);
        let m = front.len();
        assert(a * t <= x * unit());
        assert(x * unit() + 1 <= (a + 1) * t);
        assert(owed * unit() <= u * a);
        assert(u * a + 1 <= (owed + 1) * unit());
        assert((gain + a) * t <= (r + x) * unit()) by (nonlinear_arith)
            requires
                gain * t <= r * unit(),
                a * t <= x * unit(),
        ;
        assert((r + x) * unit() + m + 1 <= (gain + a + m + 1) * t) by (nonlinear_arith)
            requires
                r * unit() + m <= (gain + m) * t,
                x * unit() + 1 <= (a + 1) * t,
        ;
        assert((paid + owed) * unit() <= u * (gain + a)) by (nonlinear_arith)
            requires
                paid * unit() <= u * gain,
                owed * unit() <= u * a,
        ;
        assert(u * (gain + a) + m + 1 <= (paid + owed + m + 1) * unit()) by (nonlinear_arith)
            requires
                u * gain + m <= (paid + m) * unit(),
                u * a + 1 <= (owed + 1) * unit(),
        ;
        assert((next - global) as nat == gain + a);
        assert(settle_run(global, rewards, user_share, total_share) == Ok::<(nat, nat), ContractError>(
            (next, paid + owed),
        ));
        assert(total_reward(rewards) == r + x);
        assert(rewards.len() == m + 1);
        let g2 = (next - global) as nat;
        assert(g2 * t <= (r + x) * unit());
        assert((r + x) * unit() + (m + 1) <= (g2 + (m + 1)) * t);
        assert((paid + owed) * unit() <= u * g2);
        assert(u * g2 + (m + 1) <= (paid + owed + (m + 1)) * unit());
    } else {
        assert(total_reward(rewards) == 0);
        assert(settle_run(global, rewards, user_share, total_share) == Ok::<(nat, nat), ContractError>(
            (global, 0),
        ));
        assert(0 * total_share == 0 && 0 * unit() == 0 && user_share * 0 == 0) by (nonlinear_arith);
    }
}

/// Settling a run of `n` rewards one by one pays the user what a single
/// settlement over their sum would pay, less at most `n` units lost to floor
/// rounding, and never more. Holds for user shares with
/// `user_share * n <= 10^18`.
pub proof fn lemma_split_settlements_match_single(
    global: nat,
    rewards: Seq<nat>,
    user_share: nat,
    total_share: nat,
)
    requires
        settle_run(global, rewards, user_share, total_share) is Ok,
        settle_step(Some(global), global, total_reward(rewards), user_share, total_share) is Ok,
        user_share * rewards.len() <= unit(),
    ensures
        ({
            let paid = settle_run(global, rewards, user_share, total_share)->Ok_0.1;
            let single = settle_step(
                Some(global),
                global,
                total_reward(rewards),
                user_share,
                total_share,
            )->Ok_0.1;
            paid <= single <= paid + rewards.len()
        }),
{
    lemma_run_bounds(global, rewards, user_share, total_share);
    let (index, paid) = settle_run(global, rewards, user_share, total_share)->Ok_0;
    let n = rewards.len();
    let r = total_reward(rewards);
    let t = total_share;
    let u = user_share;
    let gain = (index - global) as nat;
    let (next, single) = settle_step(Some(global), global, r, u, t)->Ok_0;
    let big = ratio_atomics(r, t);
    assert(t > 0);
    assert(next == global + big);
    assert(single == owed_units(big, u));
    lemma_floor_bounds(r * unit(), t);
    lemma_floor_bounds(u * big, unit());
    // The single index gain is the largest one within the sum.
    assert(gain <= big) by (nonlinear_arith)
        requires
            gain * t <= r * unit(),
            r * unit() + 1 <= (big + 1) * t,
            t > 0,
    ;
    assert(paid * unit() <= u * big) by (nonlinear_arith)
        requires
            paid * unit() <= u * gain,
            gain <= big,
    ;
    assert(paid <= single) by (nonlinear_arith)
        requires
            paid * unit() <= u * big,
            u * big + 1 <= (single + 1) * unit(),
            unit() > 0,
    ;
    if n > 0 {
        assert(big + 1 <= gain + n) by (nonlinear_arith)
            requires
                big * t <= r * unit(),
                r * unit() + n <= (gain + n) * t,
                n > 0,
                t > 0,
        ;
        assert(single * unit() <= u * gain + u * (n - 1)) by (nonlinear_arith)
            requires
                single * unit() <= u * big,
                big <= gain + n - 1,
        ;
        assert(single <= paid + n) by (nonlinear_arith)
            requires
                single * unit() <= u * gain + u * (n - 1),
                u * gain + n <= (paid + n) * unit(),
                u * n <= unit(),
                n > 0,
                unit() > 0,
        ;
    } else {
        assert(r == 0);
        assert(big == 0) by (nonlinear_arith)
            requires
                big * t <= r * unit(),
                r == 0,
                t > 0,
        ;
        assert(single == 0) by (nonlinear_arith)
            requires
                single * unit() <= u * big,
                big == 0,
                unit() > 0,
        ;
    }
}

} // verus!
