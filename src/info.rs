use vstd::prelude::*;
use crate::admin::AdminList;
use crate::asset::{keys_of, keys_unique, AssetInfo};
use crate::error::ContractError;

verus! {

/// How rewards are released by an external source.
#[derive(Clone, Copy, Debug, PartialEq, Eq)]
pub enum Handler {
    /// An Anchor bLuna reward contract: it pays out on `claim_rewards`.
    AnchorBluna,
}

/// An external source of rewards and the way to claim from it.
#[derive(Clone, Debug, PartialEq, Eq)]
pub struct Rewarder {
    pub address: String,
    pub handler: Handler,
}

/// The tracked assets and the rewarders that feed them.
#[derive(Clone, Debug, PartialEq, Eq)]
pub struct Info {
    pub rewarders: Vec<Rewarder>,
    pub asset_infos: Vec<AssetInfo>,
}

impl Info {
    /// No tracked asset is listed twice.
    pub open spec fn wf(&self) -> bool {
        keys_unique(keys_of(self.asset_infos@))
    }
}

/// What a setup is made from.
#[derive(Clone, Debug, PartialEq, Eq)]
pub struct InstantiateMsg {
    pub admins: Vec<String>,
    pub mutable: bool,
    pub info: Info,
}

/// A message that makes an external source release its pending rewards to
/// this actor's own balance.
#[derive(Clone, Debug, PartialEq, Eq)]
pub enum ClaimRewardsMsg {
    /// `claim_rewards` on an Anchor bLuna reward contract, with no funds attached.
    AnchorClaimRewards { contract_addr: String, recipient: Option<String> },
}

/// The claim message that a rewarder's handler calls for.
pub open spec fn claim_message_for(r: Rewarder) -> ClaimRewardsMsg {
    match r.handler {
        Handler::AnchorBluna => ClaimRewardsMsg::AnchorClaimRewards {
            contract_addr: r.address,
            recipient: None,
        },
    }
}

/// One claim message per rewarder, in the order of the rewarders.
pub fn build_claim_rewards_messages(info: &Info) -> (r: Vec<ClaimRewardsMsg>)
    ensures
        r@.len() == info.rewarders@.len(),
        forall|i: int| 0 <= i < r@.len() ==> r@[i] == claim_message_for(info.rewarders@[i]),
{
    let mut result: Vec<ClaimRewardsMsg> = Vec::new();
    let mut i: usize = 0;
    while i < info.rewarders.len()
        invariant
            i <= info.rewarders@.len(),
            result@.len() == i,
            forall|j: int| 0 <= j < i ==> result@[j] == claim_message_for(info.rewarders@[j]),
        decreases info.rewarders@.len() - i,
    {
        let rewarder = &info.rewarders[i];
        let msg = match rewarder.handler {
            Handler::AnchorBluna => ClaimRewardsMsg::AnchorClaimRewards {
                contract_addr: rewarder.address.clone(),
                recipient: None,
            },
        };
        result.push(msg);
        i = i + 1;
    }
    result
}

/// The message of the first failed check, if any.
pub open spec fn first_failure(checks: Seq<Result<(), String>>) -> Option<String>
    decreases checks.len(),
{
    if checks.len() == 0 {
        None
    } else if checks[0] is Err {
        Some(checks[0]->Err_0)
    } else {
        first_failure(checks.drop_first())
    }
}

/// The first fault among the tracked assets from position `i` on: a failed
/// address check, or an asset already listed before it.
pub open spec fn asset_failure(
    keys: Seq<(bool, Seq<char>)>,
    checks: Seq<Result<(), String>>,
    i: int,
) -> Option<ContractError>
    decreases keys.len() - i,
{
    if i < 0 || i >= keys.len() || i >= checks.len() {
        None
    } else if checks[i] is Err {
        Some(ContractError::InvalidAddress(checks[i]->Err_0))
    } else if exists|j: int| 0 <= j < i && keys[j] == keys[i] {
        Some(ContractError::DuplicateAssetInfos)
    } else {
        asset_failure(keys, checks, i + 1)
    }
}

/// The outcome of a setup: the first fault in the order rewarders, tracked
/// assets, admins, or none.
pub open spec fn setup_failure(
    msg: InstantiateMsg,
    rewarder_checks: Seq<Result<(), String>>,
    asset_checks: Seq<Result<(), String>>,
    admin_checks: Seq<Result<(), String>>,
) -> Option<ContractError> {
    if first_failure(rewarder_checks) is Some {
        Some(ContractError::InvalidAddress(first_failure(rewarder_checks)->Some_0))
    } else if asset_failure(keys_of(msg.info.asset_infos@), asset_checks, 0) is Some {
        asset_failure(keys_of(msg.info.asset_infos@), asset_checks, 0)
    } else if first_failure(admin_checks) is Some {
        Some(ContractError::InvalidAddress(first_failure(admin_checks)->Some_0))
    } else {
        None
    }
}

pub(crate) fn first_failed_check(checks: &Vec<Result<(), String>>) -> (r: Option<String>)
    ensures
        r == first_failure(checks@),
{
    let mut i: usize = 0;
    assert(checks@.subrange(0, checks@.len() as int) =~= checks@);
    while i < checks.len()
        invariant
            i <= checks@.len(),
            first_failure(checks@) == first_failure(checks@.subrange(i as int, checks@.len() as int)),
        decreases checks@.len() - i,
    {
        let ghost rest = checks@.subrange(i as int, checks@.len() as int);
        match &checks[i] {
            Err(e) => {
                return Some(e.clone());
            },
            Ok(()) => {
                assert(rest.drop_first() =~= checks@.subrange(i + 1, checks@.len() as int));
            },
        }
        i = i + 1;
    }
    assert(checks@.subrange(i as int, checks@.len() as int).len() == 0);
    None
}

proof fn lemma_asset_failure_tail(
    keys: Seq<(bool, Seq<char>)>,
    checks: Seq<Result<(), String>>,
    i: int,
)
    requires
        0 <= i,
        keys.len() <= checks.len(),
        forall|j: int| i <= j < keys.len() ==> checks[j] is Ok,
        forall|a: int, b: int| 0 <= a < b < keys.len() && i <= b ==> keys[a] != keys[b],
    ensures
        asset_failure(keys, checks, i) is None,
    decreases keys.len() - i,
{
    if i < keys.len() {
        lemma_asset_failure_tail(keys, checks, i + 1);
    }
}

fn first_asset_failure(infos: &Vec<AssetInfo>, checks: &Vec<Result<(), String>>) -> (r: Option<
    ContractError,
>)
    requires
        checks@.len() == infos@.len(),
    ensures
        r == asset_failure(keys_of(infos@), checks@, 0),
        r is None <==> keys_unique(keys_of(infos@)) && forall|j: int|
            0 <= j < checks@.len() ==> checks@[j] is Ok,
{
    let ghost keys = keys_of(infos@);
    let mut i: usize = 0;
    while i < infos.len()
        invariant
            i <= infos@.len(),
            checks@.len() == infos@.len(),
            keys == keys_of(infos@),
            asset_failure(keys, checks@, 0) == asset_failure(keys, checks@, i as int),
            forall|j: int| 0 <= j < i ==> checks@[j] is Ok,
            forall|a: int, b: int| 0 <= a < b < i ==> keys[a] != keys[b],
        decreases infos@.len() - i,
    {
        if let Err(e) = &checks[i] {
            return Some(ContractError::InvalidAddress(e.clone()));
        }
        assert(keys_of(infos@)[i as int] == infos@[i as int]@);
        let mut j: usize = 0;
        while j < i
            invariant
                j <= i < infos@.len(),
                checks@.len() == infos@.len(),
                checks@[i as int] is Ok,
                keys == keys_of(infos@),
                keys[i as int] == infos@[i as int]@,
                asset_failure(keys, checks@, 0) == asset_failure(keys, checks@, i as int),
                forall|b: int| 0 <= b < j ==> keys[b] != keys[i as int],
            decreases i - j,
        {
            assert(keys[j as int] == infos@[j as int]@);
            if infos[j].same_as(&infos[i]) {
                assert(keys[j as int] == keys[i as int]);
                assert(!keys_unique(keys));
                assert(asset_failure(keys, checks@, i as int) == Some(ContractError::DuplicateAssetInfos));
                return Some(ContractError::DuplicateAssetInfos);
            }
            j = j + 1;
        }
        i = i + 1;
    }
    proof {
        lemma_asset_failure_tail(keys, checks@, i as int);
    }
    None
}

/// Sets the actor up: the admin registry and the tracked-asset configuration.
///
/// Each `*_checks` vector holds, position by position, the outcome of the
/// chain's address validation of the rewarders' addresses, of the tracked
/// assets, and of the admins. The first fault in that order is reported,
/// where a tracked asset is checked before it is compared with those listed
/// before it.
pub fn instantiate(
    msg: InstantiateMsg,
    rewarder_checks: &Vec<Result<(), String>>,
    asset_checks: &Vec<Result<(), String>>,
    admin_checks: &Vec<Result<(), String>>,
) -> (r: Result<(AdminList, Info), ContractError>)
    requires
        rewarder_checks@.len() == msg.info.rewarders@.len(),
        asset_checks@.len() == msg.info.asset_infos@.len(),
        admin_checks@.len() == msg.admins@.len(),
    ensures
        r is Ok <==> setup_failure(msg, rewarder_checks@, asset_checks@, admin_checks@) is None,
        r matches Err(e) ==> setup_failure(msg, rewarder_checks@, asset_checks@, admin_checks@)
            == Some(e),
        r matches Ok((cfg, info)) ==> {
            &&& cfg.admins@ == msg.admins@
            &&& cfg.mutable == msg.mutable
            &&& info == msg.info
            &&& info.wf()
        },
{
    if let Some(e) = first_failed_check(rewarder_checks) {
        return Err(ContractError::InvalidAddress(e));
    }
    if let Some(e) = first_asset_failure(&msg.info.asset_infos, asset_checks) {
        return Err(e);
    }
    if let Some(e) = first_failed_check(admin_checks) {
        return Err(ContractError::InvalidAddress(e));
    }
    let cfg = AdminList { admins: msg.admins, mutable: msg.mutable };
    Ok((cfg, msg.info))
}

} // verus!
