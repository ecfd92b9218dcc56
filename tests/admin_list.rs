use asset_holder_rewards::admin::{
    execute_execute, execute_freeze, execute_update_admins, query_admin_list, query_can_execute,
    AdminList, AdminListResponse,
};
use asset_holder_rewards::error::ContractError;

fn names(v: &[&str]) -> Vec<String> {
    v.iter().map(|s| s.to_string()).collect()
}

fn all_valid(n: usize) -> Vec<Result<(), String>> {
    vec![Ok(()); n]
}

#[test]
fn is_admin() {
    let admins = names(&["bob", "paul", "john"]);
    let config = AdminList { admins: admins.clone(), mutable: false };

    assert!(config.is_admin(&admins[0]));
    assert!(config.is_admin(&admins[2]));
    assert!(!config.is_admin("other"));
}

#[test]
fn can_modify() {
    let alice = "alice".to_string();
    let bob = "bob".to_string();

    // admin can modify mutable contract
    let config = AdminList { admins: vec![bob.clone()], mutable: true };
    assert!(!config.can_modify(&alice));
    assert!(config.can_modify(&bob));

    // no one can modify an immutable contract
    let config = AdminList { admins: vec![alice.clone()], mutable: false };
    assert!(!config.can_modify(&alice));
    assert!(!config.can_modify(&bob));
}

#[test]
fn update_then_freeze_scenario() {
    let mut cfg = AdminList { admins: names(&["alice"]), mutable: true };
    assert_eq!(execute_update_admins(&mut cfg, "alice", names(&["bob"]), &all_valid(1)), Ok(()));
    assert_eq!(cfg.admins, names(&["bob"]));
    assert!(cfg.mutable);
    assert_eq!(execute_freeze(&mut cfg, "alice"), Err(ContractError::Unauthorized));
    assert!(cfg.mutable);
    assert_eq!(execute_freeze(&mut cfg, "bob"), Ok(()));
    assert!(!cfg.mutable);
    assert_eq!(cfg.admins, names(&["bob"]));
}

#[test]
fn frozen_registry_rejects_every_change() {
    let mut cfg = AdminList { admins: names(&["alice", "bob"]), mutable: true };
    assert_eq!(execute_freeze(&mut cfg, "alice"), Ok(()));
    let frozen = cfg.clone();
    for who in ["alice", "bob", "carol"] {
        assert_eq!(execute_freeze(&mut cfg, who), Err(ContractError::Unauthorized));
        assert_eq!(
            execute_update_admins(&mut cfg, who, names(&["dave"]), &all_valid(1)),
            Err(ContractError::Unauthorized)
        );
        assert_eq!(cfg, frozen);
    }
}

#[test]
fn update_admins_checks_gate_before_addresses() {
    let mut cfg = AdminList { admins: names(&["alice"]), mutable: true };
    let bad = vec![Ok(()), Err("invalid address".to_string())];
    assert_eq!(
        execute_update_admins(&mut cfg, "mallory", names(&["x", "Y"]), &bad),
        Err(ContractError::Unauthorized)
    );
    assert_eq!(
        execute_update_admins(&mut cfg, "alice", names(&["x", "Y"]), &bad),
        Err(ContractError::InvalidAddress("invalid address".to_string()))
    );
    assert_eq!(cfg.admins, names(&["alice"]));
}

#[test]
fn update_admins_replaces_wholesale() {
    let mut cfg = AdminList { admins: names(&["alice", "bob"]), mutable: true };
    assert_eq!(execute_update_admins(&mut cfg, "bob", names(&["carol"]), &all_valid(1)), Ok(()));
    assert_eq!(cfg.admins, names(&["carol"]));
    assert!(!cfg.is_admin("alice"));
    assert!(!cfg.is_admin("bob"));
}

#[test]
fn can_execute_follows_admin_set_only() {
    let cfg = AdminList { admins: names(&["alice", "bob"]), mutable: false };
    assert!(query_can_execute(&cfg, "alice", &"any message"));
    assert!(query_can_execute(&cfg, "bob", &42u32));
    assert!(!query_can_execute(&cfg, "carol", &"any message"));
    assert!(!query_can_execute(&cfg, "Alice", &()));
}

#[test]
fn relay_is_admin_only_even_when_frozen() {
    let cfg = AdminList { admins: names(&["alice"]), mutable: false };
    let msgs = vec![1u8, 2, 3];
    assert_eq!(execute_execute(&cfg, "alice", msgs.clone()), Ok(msgs.clone()));
    assert_eq!(execute_execute(&cfg, "bob", msgs), Err(ContractError::Unauthorized));
}

#[test]
fn admin_list_query_reports_registry() {
    let cfg = AdminList { admins: names(&["b", "a"]), mutable: true };
    let resp = query_admin_list(&cfg);
    assert_eq!(resp, AdminListResponse { admins: names(&["b", "a"]), mutable: true });
}

#[test]
fn canonical_sorts_and_dedups() {
    let resp1 = AdminListResponse { admins: names(&["admin1", "admin2"]), mutable: true };
    let resp2 = AdminListResponse { admins: names(&["admin2", "admin1", "admin2"]), mutable: true };
    assert_eq!(resp1.clone().canonical(), resp2.canonical());
    assert_eq!(resp1.canonical().admins, names(&["admin1", "admin2"]));
}

#[test]
fn canonical_of_empty_and_unsorted() {
    let empty = AdminListResponse { admins: vec![], mutable: false };
    assert_eq!(empty.canonical(), AdminListResponse { admins: vec![], mutable: false });
    let resp = AdminListResponse { admins: names(&["c", "a", "b", "a", "c", "ab"]), mutable: false };
    assert_eq!(resp.canonical().admins, names(&["a", "ab", "b", "c"]));
}
