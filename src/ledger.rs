use vstd::prelude::*;
use crate::asset::{AssetInfo, AssetKey};
use crate::decimal::{decimal_zero, Decimal};

verus! {

/// The key of a user snapshot: the user's address and the asset.
pub type UserKey = (Seq<char>, AssetKey);

struct GlobalEntry {
    asset: AssetInfo,
    index: Decimal,
}

struct UserEntry {
    user: String,
    asset: AssetInfo,
    index: Decimal,
}

/// The key-value store of reward indexes: the global index of each asset,
/// and the snapshot of it that each user took at their last settlement.
pub struct Ledger {
    global: Vec<GlobalEntry>,
    user: Vec<UserEntry>,
    global_model: Ghost<Map<AssetKey, Decimal>>,
    user_model: Ghost<Map<UserKey, Decimal>>,
}

impl Ledger {
    /// The global index of each asset that has one.
    pub closed spec fn globals(&self) -> Map<AssetKey, Decimal> {
        self.global_model@
    }

    /// The snapshot of each (user, asset) pair that has one.
    pub closed spec fn users(&self) -> Map<UserKey, Decimal> {
        self.user_model@
    }

    /// The snapshot that a settlement of `user` on `asset` starts from: zero when absent.
    pub open spec fn user_value(&self, user: Seq<char>, asset: AssetKey) -> nat {
        if self.users().contains_key((user, asset)) {
            self.users()[(user, asset)].value()
        } else {
            0
        }
    }

    /// Each key is stored once, and the entries spell out the two maps.
    pub closed spec fn wf(&self) -> bool {
        &&& forall|i: int, j: int|
            0 <= i < j < self.global@.len() ==> self.global@[i].asset@ != self.global@[j].asset@
        &&& forall|i: int|
            0 <= i < self.global@.len() ==> {
                &&& self.global_model@.contains_key(#[trigger] self.global@[i].asset@)
                &&& self.global_model@[self.global@[i].asset@] == self.global@[i].index
            }
        &&& forall|k: AssetKey| #[trigger]
            self.global_model@.contains_key(k) ==> exists|i: int|
                0 <= i < self.global@.len() && self.global@[i].asset@ == k
        &&& forall|i: int, j: int|
            0 <= i < j < self.user@.len() ==> (self.user@[i].user@, self.user@[i].asset@) != (
            self.user@[j].user@,
            self.user@[j].asset@,
        )
        &&& forall|i: int|
            0 <= i < self.user@.len() ==> {
                &&& self.user_model@.contains_key(
                    (#[trigger] self.user@[i].user@, self.user@[i].asset@),
                )
                &&& self.user_model@[(self.user@[i].user@, self.user@[i].asset@)]
                    == self.user@[i].index
            }
        &&& forall|k: UserKey| #[trigger]
            self.user_model@.contains_key(k) ==> exists|i: int|
                0 <= i < self.user@.len() && (self.user@[i].user@, self.user@[i].asset@) == k
    }

    /// An empty store.
    pub fn new() -> (r: Ledger)
        ensures
            r.wf(),
            r.globals() == Map::<AssetKey, Decimal>::empty(),
            r.users() == Map::<UserKey, Decimal>::empty(),
    {
        Ledger {
            global: Vec::new(),
            user: Vec::new(),
            global_model: Ghost(Map::empty()),
            user_model: Ghost(Map::empty()),
        }
    }

    fn find_global(&self, asset: &AssetInfo) -> (r: Option<usize>)
        requires
            self.wf(),
        ensures
            r matches Some(i) ==> i < self.global@.len() && self.global@[i as int].asset@
                == asset@,
            r is None ==> !self.globals().contains_key(asset@),
    {
        let mut i: usize = 0;
        while i < self.global.len()
            invariant
                self.wf(),
                i <= self.global@.len(),
                forall|j: int| 0 <= j < i ==> self.global@[j].asset@ != asset@,
            decreases self.global@.len() - i,
        {
            if self.global[i].asset.same_as(asset) {
                return Some(i);
            }
            i = i + 1;
        }
        None
    }

    fn find_user(&self, user: &String, asset: &AssetInfo) -> (r: Option<usize>)
        requires
            self.wf(),
        ensures
            r matches Some(i) ==> i < self.user@.len() && self.user@[i as int].user@ == user@
                && self.user@[i as int].asset@ == asset@,
            r is None ==> !self.users().contains_key((user@, asset@)),
    {
        let mut i: usize = 0;
        while i < self.user.len()
            invariant
                self.wf(),
                i <= self.user@.len(),
                forall|j: int|
                    0 <= j < i ==> (self.user@[j].user@, self.user@[j].asset@) != (user@, asset@),
            decreases self.user@.len() - i,
        {
            if self.user[i].user.eq(user) && self.user[i].asset.same_as(asset) {
                return Some(i);
            }
            i = i + 1;
        }
        None
    }

    /// The global index of `asset`, if it was ever initialized.
    pub fn global_index(&self, asset: &AssetInfo) -> (r: Option<Decimal>)
        requires
            self.wf(),
        ensures
            r == (if self.globals().contains_key(asset@) {
                Some(self.globals()[asset@])
            } else {
                None
            }),
    {
        match self.find_global(asset) {
            Some(i) => Some(self.global[i].index),
            None => None,
        }
    }

    /// The snapshot of `user` for `asset`, or zero where none was taken.
    pub fn user_index(&self, user: &String, asset: &AssetInfo) -> (r: Decimal)
        requires
            self.wf(),
        ensures
            self.users().contains_key((user@, asset@)) ==> r == self.users()[(user@, asset@)],
            r.value() == self.user_value(user@, asset@),
    {
        match self.find_user(user, asset) {
            Some(i) => self.user[i].index,
            None => decimal_zero(),
        }
    }

    /// Stores `index` as the global index of `asset`.
    pub fn set_global_index(&mut self, asset: AssetInfo, index: Decimal)
        requires
            old(self).wf(),
        ensures
            final(self).wf(),
            final(self).globals() == old(self).globals().insert(asset@, index),
            final(self).users() == old(self).users(),
    {
        let ghost key = asset@;
        let ghost pos: int;
        match self.find_global(&asset) {
            Some(i) => {
                self.global.set(i, GlobalEntry { asset, index });
                proof {
                    pos = i as int;
                }
            },
            None => {
                self.global.push(GlobalEntry { asset, index });
                proof {
                    pos = self.global@.len() - 1;
                }
            },
        }
        assert(self.global@[pos].asset@ == key);
        self.global_model = Ghost(self.global_model@.insert(key, index));
        assert forall|k: AssetKey| #[trigger]
            self.global_model@.contains_key(k) implies exists|i: int|
                0 <= i < self.global@.len() && self.global@[i].asset@ == k by {
            if k != key {
                let j = choose|j: int|
                    0 <= j < old(self).global@.len() && old(self).global@[j].asset@ == k;
                assert(self.global@[j].asset@ == k);
            } else {
                assert(self.global@[pos].asset@ == k);
            }
        }
    }

    /// Stores `index` as the snapshot of `user` for `asset`.
    pub fn set_user_index(&mut self, user: String, asset: AssetInfo, index: Decimal)
        requires
            old(self).wf(),
        ensures
            final(self).wf(),
            final(self).users() == old(self).users().insert((user@, asset@), index),
            final(self).globals() == old(self).globals(),
    {
        let ghost key = (user@, asset@);
        let ghost pos: int;
        match self.find_user(&user, &asset) {
            Some(i) => {
                self.user.set(i, UserEntry { user, asset, index });
                proof {
                    pos = i as int;
                }
            },
            None => {
                self.user.push(UserEntry { user, asset, index });
                proof {
                    pos = self.user@.len() - 1;
                }
            },
        }
        assert((self.user@[pos].user@, self.user@[pos].asset@) == key);
        self.user_model = Ghost(self.user_model@.insert(key, index));
        assert forall|k: UserKey| #[trigger]
            self.user_model@.contains_key(k) implies exists|i: int|
                0 <= i < self.user@.len() && (self.user@[i].user@, self.user@[i].asset@) == k by {
            if k != key {
                let j = choose|j: int|
                    0 <= j < old(self).user@.len() && (
                    old(self).user@[j].user@,
                    old(self).user@[j].asset@,
                ) == k;
                assert((self.user@[j].user@, self.user@[j].asset@) == k);
            } else {
                assert((self.user@[pos].user@, self.user@[pos].asset@) == k);
            }
        }
    }
}

} // verus!
