use vstd::prelude::*;
use crate::error::ContractError;
use crate::info::first_failure;

verus! {

/// The admin registry: who may act, and whether that may still change.
#[derive(Clone, Debug, PartialEq, Eq, Default)]
pub struct AdminList {
    pub admins: Vec<String>,
    pub mutable: bool,
}

/// The registry as a query reports it.
#[derive(Clone, Debug, PartialEq, Eq)]
pub struct AdminListResponse {
    pub admins: Vec<String>,
    pub mutable: bool,
}

/// Whether `addr` is one of `admins`.
pub open spec fn listed(admins: Seq<String>, addr: Seq<char>) -> bool {
    exists|i: int| 0 <= i < admins.len() && #[trigger] admins[i]@ == addr
}

/// Whether `addr` may change the registry: it is an admin and the registry is not frozen.
pub open spec fn may_modify(cfg: AdminList, addr: Seq<char>) -> bool {
    cfg.mutable && listed(cfg.admins@, addr)
}

/// What a freeze by `sender` leaves, or why it fails.
pub open spec fn freeze_outcome(cfg: AdminList, sender: Seq<char>) -> Result<AdminList, ContractError> {
    if may_modify(cfg, sender) {
        Ok(AdminList { admins: cfg.admins, mutable: false })
    } else {
        Err(ContractError::Unauthorized)
    }
}

/// What replacing the admins with `admins` by `sender` leaves, or why it
/// fails; `checks` are the address validations of the new admins.
pub open spec fn update_admins_outcome(
    cfg: AdminList,
    sender: Seq<char>,
    admins: Vec<String>,
    checks: Seq<Result<(), String>>,
) -> Result<AdminList, ContractError> {
    if !may_modify(cfg, sender) {
        Err(ContractError::Unauthorized)
    } else if first_failure(checks) is Some {
        Err(ContractError::InvalidAddress(first_failure(checks)->Some_0))
    } else {
        Ok(AdminList { admins, mutable: cfg.mutable })
    }
}

/// Whether a sequence of texts is in ascending order, one before the next
/// by `text_le`.
pub open spec fn ascending(s: Seq<String>) -> bool {
    forall|i: int, j: int| 0 <= i < j < s.len() ==> text_le(s[i]@, s[j]@)
}

/// The order of `str`: lexicographic, character by character by code point,
/// a prefix before what extends it.
pub open spec fn text_le(a: Seq<char>, b: Seq<char>) -> bool
    decreases a.len(),
{
    if a.len() == 0 {
        true
    } else if b.len() == 0 {
        false
    } else if a[0] != b[0] {
        (a[0] as u32) < (b[0] as u32)
    } else {
        text_le(a.drop_first(), b.drop_first())
    }
}

/// Relies on `slice::sort` of `String`s: it permutes the texts into
/// ascending order, which for `str` is the order of their UTF-8 bytes and
/// so the order of their characters' code points.
#[verifier::external_body]
fn sort_texts(v: &mut Vec<String>)
    ensures
        final(v)@.to_multiset() == old(v)@.to_multiset(),
        ascending(final(v)@),
{
    v.sort();
}

impl AdminList {
    /// Whether `addr` is a registered admin.
    pub fn is_admin(&self, addr: &str) -> (r: bool)
        ensures
            r == listed(self.admins@, addr@),
    {
        let target = addr.to_owned();
        let mut i: usize = 0;
        while i < self.admins.len()
            invariant
                i <= self.admins@.len(),
                target@ == addr@,
                forall|j: int| 0 <= j < i ==> self.admins@[j]@ != addr@,
            decreases self.admins@.len() - i,
        {
            if self.admins[i].eq(&target) {
                assert(self.admins@[i as int]@ == addr@);
                return true;
            }
            i = i + 1;
        }
        false
    }

    /// Whether `addr` is a registered admin and the registry is mutable.
    pub fn can_modify(&self, addr: &str) -> (r: bool)
        ensures
            r == may_modify(*self, addr@),
    {
        self.mutable && self.is_admin(addr)
    }
}

impl AdminListResponse {
    /// The canonical form: admins sorted with repeats removed, so that two
    /// responses listing the same admins compare equal.
    pub fn canonical(self) -> (r: Self)
        ensures
            r.mutable == self.mutable,
            ascending(r.admins@),
            forall|i: int, j: int|
                0 <= i < j < r.admins@.len() ==> r.admins@[i]@ != r.admins@[j]@,
            forall|a: Seq<char>| listed(r.admins@, a) <==> listed(self.admins@, a),
    {
        let AdminListResponse { admins, mutable } = self;
        let ghost given = admins@;
        let mut sorted = admins;
        sort_texts(&mut sorted);
        proof {
            broadcast use vstd::seq_lib::group_to_multiset_ensures;

            assert forall|a: Seq<char>| listed(sorted@, a) <==> listed(given, a) by {
                if listed(sorted@, a) {
                    let i = choose|i: int| 0 <= i < sorted@.len() && #[trigger] sorted@[i]@ == a;
                    assert(sorted@.to_multiset().count(sorted@[i]) > 0);
                    assert(given.contains(sorted@[i]));
                    let k = choose|k: int| 0 <= k < given.len() && given[k] == sorted@[i];
                    assert(given[k]@ == a);
                }
                if listed(given, a) {
                    let i = choose|i: int| 0 <= i < given.len() && #[trigger] given[i]@ == a;
                    assert(given.to_multiset().count(given[i]) > 0);
                    assert(sorted@.contains(given[i]));
                    let k = choose|k: int| 0 <= k < sorted@.len() && sorted@[k] == given[i];
                    assert(sorted@[k]@ == a);
                }
            }
        }
        let mut result: Vec<String> = Vec::new();
        let mut i: usize = 0;
        while i < sorted.len()
            invariant
                i <= sorted@.len(),
                ascending(sorted@),
                ascending(result@),
                forall|a: int, b: int|
                    0 <= a < b < result@.len() ==> result@[a]@ != result@[b]@,
                forall|a: int, j: int|
                    0 <= a < result@.len() && i <= j < sorted@.len() ==> text_le(
                        result@[a]@,
                        sorted@[j]@,
                    ),
                forall|t: Seq<char>|
                    listed(result@, t) <==> exists|j: int| 0 <= j < i && #[trigger] sorted@[j]@ == t,
            decreases sorted@.len() - i,
        {
            let mut seen = false;
            let mut j: usize = 0;
            while j < result.len()
                invariant
                    j <= result@.len(),
                    i < sorted@.len(),
                    !seen ==> forall|b: int| 0 <= b < j ==> result@[b]@ != sorted@[i as int]@,
                    seen ==> listed(result@, sorted@[i as int]@),
                decreases result@.len() - j,
            {
                if result[j].eq(&sorted[i]) {
                    seen = true;
                }
                j = j + 1;
            }
            let ghost prev = result@;
            if !seen {
                result.push(sorted[i].clone());
            }
            proof {
                assert forall|t: Seq<char>|
                    listed(result@, t) <==> exists|j: int|
                        0 <= j < i + 1 && #[trigger] sorted@[j]@ == t by {
                    if exists|j: int| 0 <= j < i + 1 && #[trigger] sorted@[j]@ == t {
                        let j = choose|j: int| 0 <= j < i + 1 && #[trigger] sorted@[j]@ == t;
                        if j == i {
                            if !seen {
                                assert(result@[result@.len() - 1]@ == t);
                            } else {
                                assert(listed(prev, t));
                                let b = choose|b: int| 0 <= b < prev.len() && #[trigger] prev[b]@ == t;
                                assert(result@[b]@ == t);
                            }
                        } else {
                            assert(listed(prev, t));
                            let b = choose|b: int| 0 <= b < prev.len() && #[trigger] prev[b]@ == t;
                            assert(result@[b]@ == t);
                        }
                    }
                    if listed(result@, t) {
                        let b = choose|b: int| 0 <= b < result@.len() && #[trigger] result@[b]@ == t;
                        if b < prev.len() {
                            assert(prev[b]@ == t);
                            assert(listed(prev, t));
                        } else {
                            assert(sorted@[i as int]@ == t);
                        }
                    }
                }
            }
            i = i + 1;
        }
        AdminListResponse { admins: result, mutable }
    }
}

/// Makes the registry immutable for good; only an admin of a mutable
/// registry may.
pub fn execute_freeze(cfg: &mut AdminList, sender: &str) -> (r: Result<(), ContractError>)
    ensures
        match freeze_outcome(*old(cfg), sender@) {
            Ok(next) => r is Ok && *final(cfg) == next,
            Err(e) => r == Err::<(), ContractError>(e) && *final(cfg) == *old(cfg),
        },
{
    if !cfg.can_modify(sender) {
        Err(ContractError::Unauthorized)
    } else {
        cfg.mutable = false;
        Ok(())
    }
}

/// Replaces the admin set wholesale; only an admin of a mutable registry
/// may. `admin_checks` are the address validations of the new admins,
/// position by position.
pub fn execute_update_admins(
    cfg: &mut AdminList,
    sender: &str,
    admins: Vec<String>,
    admin_checks: &Vec<Result<(), String>>,
) -> (r: Result<(), ContractError>)
    ensures
        match update_admins_outcome(*old(cfg), sender@, admins, admin_checks@) {
            Ok(next) => r is Ok && *final(cfg) == next,
            Err(e) => r == Err::<(), ContractError>(e) && *final(cfg) == *old(cfg),
        },
{
    if !cfg.can_modify(sender) {
        return Err(ContractError::Unauthorized);
    }
    if let Some(e) = crate::info::first_failed_check(admin_checks) {
        return Err(ContractError::InvalidAddress(e));
    }
    cfg.admins = admins;
    Ok(())
}

/// Relays `msgs` unchanged as if sent by this actor; only an admin may,
/// frozen registry or not.
pub fn execute_execute<T>(cfg: &AdminList, sender: &str, msgs: Vec<T>) -> (r: Result<
    Vec<T>,
    ContractError,
>)
    ensures
        listed(cfg.admins@, sender@) ==> (r matches Ok(out) && out@ == msgs@),
        !listed(cfg.admins@, sender@) ==> r == Err::<Vec<T>, ContractError>(
            ContractError::Unauthorized,
        ),
{
    if !cfg.is_admin(sender) {
        Err(ContractError::Unauthorized)
    } else {
        Ok(msgs)
    }
}

/// Whether `sender` may relay messages; the probed message plays no part.
pub fn query_can_execute<T>(cfg: &AdminList, sender: &str, msg: &T) -> (r: bool)
    ensures
        r == listed(cfg.admins@, sender@),
{
    cfg.is_admin(sender)
}

/// The registry as reported to a query.
pub fn query_admin_list(cfg: &AdminList) -> (r: AdminListResponse)
    ensures
        r.admins@ == cfg.admins@,
        r.mutable == cfg.mutable,
{
    let mut admins: Vec<String> = Vec::new();
    let mut i: usize = 0;
    while i < cfg.admins.len()
        invariant
            i <= cfg.admins@.len(),
            admins@ == cfg.admins@.take(i as int),
        decreases cfg.admins@.len() - i,
    {
        admins.push(cfg.admins[i].clone());
        assert(cfg.admins@.take(i + 1) == cfg.admins@.take(i as int).push(cfg.admins@[i as int]));
        i = i + 1;
    }
    assert(cfg.admins@.take(i as int) == cfg.admins@);
    AdminListResponse { admins, mutable: cfg.mutable }
}

} // verus!
