use asset_holder_rewards::asset::{Asset, AssetInfo};
use asset_holder_rewards::decimal::Decimal;
use asset_holder_rewards::error::ContractError;
use asset_holder_rewards::info::Info;
use asset_holder_rewards::ledger::Ledger;
use asset_holder_rewards::rewards::{handle_rewards, Transfer};

const UNIT: u128 = 1_000_000_000_000_000_000;

fn dec(v: u128) -> Decimal {
    let mut bytes = [0u8; 32];
    bytes[16..].copy_from_slice(&v.to_be_bytes());
    Decimal { bytes }
}

fn val(d: Decimal) -> u128 {
    assert!(d.bytes[..16].iter().all(|b| *b == 0));
    let mut low = [0u8; 16];
    low.copy_from_slice(&d.bytes[16..]);
    u128::from_be_bytes(low)
}

fn native(denom: &str) -> AssetInfo {
    AssetInfo::NativeToken { denom: denom.to_string() }
}

fn info(assets: Vec<AssetInfo>) -> Option<Info> {
    Some(Info { rewarders: vec![], asset_infos: assets })
}

fn bal(asset: &AssetInfo, amount: u128) -> Asset {
    Asset { info: asset.clone(), amount }
}

fn ledger_with(assets: &[(AssetInfo, u128)]) -> Ledger {
    let mut l = Ledger::new();
    for (a, v) in assets {
        l.set_global_index(a.clone(), dec(*v));
    }
    l
}

#[test]
fn sole_depositor_is_paid_reward_then_nothing() {
    let uusd = native("uusd");
    let user = "alice".to_string();
    let mut l = ledger_with(&[(uusd.clone(), 0)]);
    let inf = info(vec![uusd.clone()]);
    let r = handle_rewards(&mut l, &inf, &vec![bal(&uusd, 100)], &vec![600], 1000, 1000, &user, None)
        .unwrap();
    assert_eq!(r, vec![Transfer { asset: uusd.clone(), amount: 500, recipient: user.clone() }]);
    assert_eq!(val(l.global_index(&uusd).unwrap()), 500 * UNIT / 1000);
    assert_eq!(val(l.user_index(&user, &uusd)), 500 * UNIT / 1000);

    let r = handle_rewards(&mut l, &inf, &vec![bal(&uusd, 600)], &vec![600], 1000, 1000, &user, None)
        .unwrap();
    assert_eq!(r[0].amount, 0);
    assert_eq!(val(l.global_index(&uusd).unwrap()), 500 * UNIT / 1000);
}

#[test]
fn shrunk_balance_keeps_global_index() {
    let uusd = native("uusd");
    let user = "alice".to_string();
    let mut l = ledger_with(&[(uusd.clone(), 7 * UNIT / 10)]);
    l.set_user_index(user.clone(), uusd.clone(), dec(2 * UNIT / 10));
    let r = handle_rewards(&mut l, &info(vec![uusd.clone()]), &vec![bal(&uusd, 600)], &vec![500], 10, 100, &user, None)
        .unwrap();
    assert_eq!(r[0].amount, 5);
    assert_eq!(val(l.global_index(&uusd).unwrap()), 7 * UNIT / 10);
    assert_eq!(val(l.user_index(&user, &uusd)), 7 * UNIT / 10);
}

#[test]
fn no_configuration_is_a_no_op() {
    let uusd = native("uusd");
    let mut l = ledger_with(&[(uusd.clone(), 5)]);
    let r = handle_rewards(&mut l, &None, &vec![bal(&uusd, 0)], &vec![100], 1, 1, &"u".to_string(), None);
    assert_eq!(r, Ok(vec![]));
    assert_eq!(val(l.global_index(&uusd).unwrap()), 5);
    assert_eq!(val(l.user_index(&"u".to_string(), &uusd)), 0);
}

#[test]
fn uninitialized_asset_fails_without_changes() {
    let uusd = native("uusd");
    let uluna = native("uluna");
    let user = "alice".to_string();
    let mut l = ledger_with(&[(uusd.clone(), 0)]);
    let r = handle_rewards(
        &mut l,
        &info(vec![uusd.clone(), uluna.clone()]),
        &vec![bal(&uusd, 0), bal(&uluna, 0)],
        &vec![100, 100],
        1,
        1,
        &user,
        None,
    );
    assert_eq!(r, Err(ContractError::GlobalIndexNotFound));
    assert_eq!(val(l.global_index(&uusd).unwrap()), 0);
    assert_eq!(l.global_index(&uluna), None);
    assert_eq!(val(l.user_index(&user, &uusd)), 0);
}

#[test]
fn zero_total_share_is_an_error() {
    let uusd = native("uusd");
    let mut l = ledger_with(&[(uusd.clone(), 0)]);
    let r = handle_rewards(&mut l, &info(vec![uusd.clone()]), &vec![bal(&uusd, 0)], &vec![0], 0, 0, &"u".to_string(), None);
    assert_eq!(r, Err(ContractError::DivideByZero));
}

#[test]
fn payout_too_large_is_an_overflow() {
    let uusd = native("uusd");
    let mut l = Ledger::new();
    let mut big = [0u8; 32];
    big[0] = 1;
    l.set_global_index(uusd.clone(), Decimal { bytes: big });
    let r = handle_rewards(&mut l, &info(vec![uusd.clone()]), &vec![bal(&uusd, 0)], &vec![0], u128::MAX, 1, &"u".to_string(), None);
    assert_eq!(r, Err(ContractError::Overflow));
}

#[test]
fn index_sum_past_limit_is_an_overflow() {
    let uusd = native("uusd");
    let mut l = Ledger::new();
    l.set_global_index(uusd.clone(), Decimal { bytes: [0xff; 32] });
    let r = handle_rewards(&mut l, &info(vec![uusd.clone()]), &vec![bal(&uusd, 0)], &vec![1], 0, 1, &"u".to_string(), None);
    assert_eq!(r, Err(ContractError::Overflow));
    assert_eq!(l.global_index(&uusd).unwrap().bytes, [0xff; 32]);
}

#[test]
fn snapshot_ahead_of_index_is_an_overflow() {
    let uusd = native("uusd");
    let user = "alice".to_string();
    let mut l = ledger_with(&[(uusd.clone(), 10)]);
    l.set_user_index(user.clone(), uusd.clone(), dec(20));
    let r = handle_rewards(&mut l, &info(vec![uusd.clone()]), &vec![bal(&uusd, 0)], &vec![0], 1, 1, &user, None);
    assert_eq!(r, Err(ContractError::Overflow));
    assert_eq!(val(l.user_index(&user, &uusd)), 20);
}

#[test]
fn shares_split_reward_pro_rata_and_receiver_is_used() {
    let uusd = native("uusd");
    let alice = "alice".to_string();
    let bob = "bob".to_string();
    let mut l = ledger_with(&[(uusd.clone(), 0)]);
    let inf = info(vec![uusd.clone()]);
    let r = handle_rewards(&mut l, &inf, &vec![bal(&uusd, 0)], &vec![300], 100, 300, &alice, Some("vault".to_string()))
        .unwrap();
    assert_eq!(r, vec![Transfer { asset: uusd.clone(), amount: 100, recipient: "vault".to_string() }]);
    assert_eq!(val(l.global_index(&uusd).unwrap()), UNIT);
    let r = handle_rewards(&mut l, &inf, &vec![bal(&uusd, 200)], &vec![200], 200, 300, &bob, None).unwrap();
    assert_eq!(r, vec![Transfer { asset: uusd.clone(), amount: 200, recipient: bob.clone() }]);
    assert_eq!(val(l.user_index(&bob, &uusd)), UNIT);
    assert_eq!(val(l.user_index(&alice, &uusd)), UNIT);
}

#[test]
fn floor_rounding_of_index_and_payout() {
    let uusd = native("uusd");
    let mut l = ledger_with(&[(uusd.clone(), 0)]);
    let r = handle_rewards(&mut l, &info(vec![uusd.clone()]), &vec![bal(&uusd, 0)], &vec![1], 1, 3, &"u".to_string(), None)
        .unwrap();
    assert_eq!(val(l.global_index(&uusd).unwrap()), 333_333_333_333_333_333);
    assert_eq!(r[0].amount, 0);
    let r = handle_rewards(&mut l, &info(vec![uusd.clone()]), &vec![bal(&uusd, 0)], &vec![2], 3, 3, &"v".to_string(), None)
        .unwrap();
    assert_eq!(val(l.global_index(&uusd).unwrap()), 999_999_999_999_999_999);
    assert_eq!(r[0].amount, 2);
}

#[test]
fn settles_only_assets_both_lists_reach() {
    let uusd = native("uusd");
    let uluna = native("uluna");
    let user = "u".to_string();
    let mut l = ledger_with(&[(uusd.clone(), 0), (uluna.clone(), 0)]);
    let r = handle_rewards(
        &mut l,
        &info(vec![uusd.clone(), uluna.clone()]),
        &vec![bal(&uusd, 10)],
        &vec![20, 50],
        1,
        1,
        &user,
        None,
    )
    .unwrap();
    assert_eq!(r.len(), 1);
    assert_eq!(r[0].amount, 10);
    assert_eq!(val(l.global_index(&uluna).unwrap()), 0);
    assert_eq!(val(l.user_index(&user, &uluna)), 0);
}

#[test]
fn several_assets_settle_independently() {
    let uusd = native("uusd");
    let token = AssetInfo::Token { contract_addr: "token".to_string() };
    let user = "u".to_string();
    let mut l = ledger_with(&[(uusd.clone(), 0), (token.clone(), UNIT)]);
    let r = handle_rewards(
        &mut l,
        &info(vec![uusd.clone(), token.clone()]),
        &vec![bal(&uusd, 0), bal(&token, 40)],
        &vec![50, 30],
        5,
        10,
        &user,
        None,
    )
    .unwrap();
    assert_eq!(r[0], Transfer { asset: uusd.clone(), amount: 25, recipient: user.clone() });
    assert_eq!(r[1], Transfer { asset: token.clone(), amount: 5, recipient: user.clone() });
    assert_eq!(val(l.global_index(&uusd).unwrap()), 5 * UNIT);
    assert_eq!(val(l.global_index(&token).unwrap()), UNIT);
}

#[test]
fn split_settlements_stay_within_rounding_of_single() {
    let uusd = native("uusd");
    let user = "u".to_string();
    let inf = info(vec![uusd.clone()]);

    let mut split = ledger_with(&[(uusd.clone(), 0)]);
    let mut balance = 0u128;
    let mut paid = 0u128;
    for reward in [3u128, 5, 4] {
        let r = handle_rewards(&mut split, &inf, &vec![bal(&uusd, balance)], &vec![balance + reward], 2, 7, &user, None)
            .unwrap();
        paid += r[0].amount;
        balance += reward;
    }

    let mut once = ledger_with(&[(uusd.clone(), 0)]);
    let r = handle_rewards(&mut once, &inf, &vec![bal(&uusd, 0)], &vec![12], 2, 7, &user, None).unwrap();
    assert_eq!(paid, 2);
    assert_eq!(r[0].amount, 3);
    assert!(paid <= r[0].amount && r[0].amount <= paid + 3);
}

#[test]
fn ledger_store_get_put_and_default() {
    let uusd = native("uusd");
    let token = AssetInfo::Token { contract_addr: "uusd".to_string() };
    let user = "u".to_string();
    let mut l = Ledger::new();
    assert_eq!(l.global_index(&uusd), None);
    assert_eq!(val(l.user_index(&user, &uusd)), 0);
    l.set_global_index(uusd.clone(), dec(3));
    l.set_global_index(uusd.clone(), dec(9));
    assert_eq!(val(l.global_index(&uusd).unwrap()), 9);
    assert_eq!(l.global_index(&token), None);
    l.set_user_index(user.clone(), uusd.clone(), dec(4));
    assert_eq!(val(l.user_index(&user, &uusd)), 4);
    assert_eq!(val(l.user_index(&"w".to_string(), &uusd)), 0);
    assert_eq!(val(l.user_index(&user, &token)), 0);
}
