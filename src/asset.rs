use vstd::prelude::*;

verus! {

/// An asset identifier: a fungible-token contract or a native-currency denom.
#[derive(Debug, PartialEq, Eq)]
pub enum AssetInfo {
    Token { contract_addr: String },
    NativeToken { denom: String },
}

/// An amount of one asset.
#[derive(Clone, Debug, PartialEq, Eq)]
pub struct Asset {
    pub info: AssetInfo,
    pub amount: u128,
}

/// The key of an asset: whether it is native, and its denom or contract address.
/// Native and token identifiers never collide, even on the same text.
pub type AssetKey = (bool, Seq<char>);

impl View for AssetInfo {
    type V = AssetKey;

    open spec fn view(&self) -> AssetKey {
        match self {
            AssetInfo::Token { contract_addr } => (false, contract_addr@),
            AssetInfo::NativeToken { denom } => (true, denom@),
        }
    }
}

impl Clone for AssetInfo {
    fn clone(&self) -> (r: Self)
        ensures
            r@ == self@,
    {
        match self {
            AssetInfo::Token { contract_addr } => AssetInfo::Token {
                contract_addr: contract_addr.clone(),
            },
            AssetInfo::NativeToken { denom } => AssetInfo::NativeToken { denom: denom.clone() },
        }
    }
}

impl AssetInfo {
    /// Whether two identifiers name the same asset.
    pub fn same_as(&self, other: &AssetInfo) -> (r: bool)
        ensures
            r == (self@ == other@),
    {
        match (self, other) {
            (AssetInfo::Token { contract_addr: a }, AssetInfo::Token { contract_addr: b }) => a.eq(b),
            (AssetInfo::NativeToken { denom: a }, AssetInfo::NativeToken { denom: b }) => a.eq(b),
            _ => false,
        }
    }
}

/// Whether a sequence of asset keys holds no key twice.
pub open spec fn keys_unique(keys: Seq<AssetKey>) -> bool {
    forall|i: int, j: int| 0 <= i < j < keys.len() ==> keys[i] != keys[j]
}

/// The keys of a list of asset identifiers.
pub open spec fn keys_of(infos: Seq<AssetInfo>) -> Seq<AssetKey> {
    infos.map_values(|a: AssetInfo| a@)
}

} // verus!
