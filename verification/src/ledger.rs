//! The account store the host runtime would hold, made explicit: an arena of
//! user (wallet) accounts and of bank accounts, each keyed by a 32-byte key.
//! A bank account's derived address is a deterministic function of its
//! owner's key, so the arena keys bank accounts by that owner key directly.
//!
//! The three instruction handlers, `create`, `deposit` and `withdraw`, are
//! methods of [`Ledger`]: each one either performs its whole effect and
//! returns `Ok`, or returns the error it failed with and leaves the ledger
//! exactly as it was, mirroring the host's transaction atomicity.

use vstd::prelude::*;

use crate::account::Bank;
use crate::account::BankError;
use crate::account::KEY_LEN;
use crate::account::NAME_LEN;
use crate::account::Pubkey;
use crate::account::bytes_eq;
use crate::account::copy_bytes;
use crate::account::fit_name;
use crate::account::padded_name;
use crate::laws::deposit_fits;
use crate::laws::deposit_step;

verus! {

/// The mathematical image of one bank account: its persisted data plus the
/// lamports the account itself holds. The account sits at the address derived
/// from `owner`, so `owner` doubles as its key in the ledger.
pub ghost struct BankModel {
    pub name: Seq<u8>,
    pub balance: u64,
    pub owner: Seq<u8>,
    pub lamports: u64,
}

/// The mathematical image of one user (wallet) account.
pub ghost struct UserModel {
    pub key: Seq<u8>,
    pub lamports: u64,
}

/// One bank account as stored: the persisted `Bank` data and the lamports
/// held by the account itself (rent deposit plus everything transferred in).
struct BankEntry {
    bank: Bank,
    lamports: u64,
}

/// One user account as stored: a wallet key and the lamports it holds.
struct UserEntry {
    key: Pubkey,
    lamports: u64,
}

impl BankEntry {
    spec fn model(&self) -> BankModel {
        BankModel {
            name: self.bank.name@,
            balance: self.bank.balance,
            owner: self.bank.owner@,
            lamports: self.lamports,
        }
    }
}

impl UserEntry {
    spec fn model(&self) -> UserModel {
        UserModel { key: self.key@, lamports: self.lamports }
    }
}

/// The first bank account in `banks` whose owner key is `key`, if any.
pub open spec fn bank_of(banks: Seq<BankModel>, key: Seq<u8>) -> Option<BankModel>
    decreases banks.len(),
{
    if banks.len() == 0 {
        None
    } else if banks[0].owner == key {
        Some(banks[0])
    } else {
        bank_of(banks.drop_first(), key)
    }
}

/// The first user account in `users` whose key is `key`, if any.
pub open spec fn user_of(users: Seq<UserModel>, key: Seq<u8>) -> Option<UserModel>
    decreases users.len(),
{
    if users.len() == 0 {
        None
    } else if users[0].key == key {
        Some(users[0])
    } else {
        user_of(users.drop_first(), key)
    }
}

/// The lamports a wallet holds; a wallet never funded holds none.
pub open spec fn lamports_of(users: Seq<UserModel>, key: Seq<u8>) -> u64 {
    match user_of(users, key) {
        Some(u) => u.lamports,
        None => 0u64,
    }
}

/// The lamports held by all bank accounts together.
pub open spec fn bank_total(banks: Seq<BankModel>) -> int
    decreases banks.len(),
{
    if banks.len() == 0 {
        0
    } else {
        banks[0].lamports + bank_total(banks.drop_first())
    }
}

/// The lamports held by all user accounts together.
pub open spec fn user_total(users: Seq<UserModel>) -> int
    decreases users.len(),
{
    if users.len() == 0 {
        0
    } else {
        users[0].lamports + user_total(users.drop_first())
    }
}

/// No two bank accounts share an owner key: one bank per derived address.
pub open spec fn banks_distinct(banks: Seq<BankModel>) -> bool {
    forall|i: int, j: int|
        0 <= i < banks.len() && 0 <= j < banks.len() && i != j ==> banks[i].owner != banks[j].owner
}

/// No two user accounts share a key.
pub open spec fn users_distinct(users: Seq<UserModel>) -> bool {
    forall|i: int, j: int|
        0 <= i < users.len() && 0 <= j < users.len() && i != j ==> users[i].key != users[j].key
}

// ---------------------------------------------------------------------------
// Lemmas connecting the recursive lookups and totals to indexed reasoning.
// ---------------------------------------------------------------------------

/// A key held by no entry is not found.
proof fn lemma_bank_of_absent(banks: Seq<BankModel>, key: Seq<u8>)
    requires
        forall|i: int| 0 <= i < banks.len() ==> banks[i].owner != key,
    ensures
        bank_of(banks, key) is None,
    decreases banks.len(),
{
    if banks.len() > 0 {
        lemma_bank_of_absent(banks.drop_first(), key);
    }
}

/// The lookup returns the entry at the first index holding the key.
proof fn lemma_bank_of_found(banks: Seq<BankModel>, key: Seq<u8>, i: int)
    requires
        0 <= i < banks.len(),
        banks[i].owner == key,
        forall|j: int| 0 <= j < i ==> banks[j].owner != key,
    ensures
        bank_of(banks, key) == Some(banks[i]),
    decreases banks.len(),
{
    if i > 0 {
        lemma_bank_of_found(banks.drop_first(), key, i - 1);
    }
}

/// Replacing the entry at one index, keeping its owner key, changes the
/// lookup at that key alone.
proof fn lemma_bank_of_update(banks: Seq<BankModel>, i: int, e: BankModel, key: Seq<u8>)
    requires
        banks_distinct(banks),
        0 <= i < banks.len(),
        e.owner == banks[i].owner,
    ensures
        bank_of(banks.update(i, e), key) == (if key == e.owner {
            Some(e)
        } else {
            bank_of(banks, key)
        }),
    decreases banks.len(),
{
    let updated = banks.update(i, e);
    if i == 0 {
        if key == e.owner {
            assert(updated[0] == e);
        } else {
            assert(updated.drop_first() =~= banks.drop_first());
        }
    } else {
        assert(updated.drop_first() =~= banks.drop_first().update(i - 1, e));
        lemma_bank_of_update(banks.drop_first(), i - 1, e, key);
        if key == e.owner {
            assert(banks[0].owner != e.owner);
        }
    }
}

/// Appending a bank account with a fresh owner key adds exactly that lookup.
proof fn lemma_bank_of_push(banks: Seq<BankModel>, e: BankModel, key: Seq<u8>)
    requires
        forall|i: int| 0 <= i < banks.len() ==> banks[i].owner != e.owner,
    ensures
        bank_of(banks.push(e), key) == (if key == e.owner {
            Some(e)
        } else {
            bank_of(banks, key)
        }),
    decreases banks.len(),
{
    if banks.len() == 0 {
        assert(banks.push(e)[0] == e);
        if key != e.owner {
            assert(bank_of(banks.push(e), key) is None);
        }
    } else {
        assert(banks.push(e).drop_first() =~= banks.drop_first().push(e));
        lemma_bank_of_push(banks.drop_first(), e, key);
    }
}

/// A key that is not found is held by no entry.
proof fn lemma_bank_of_none_index(banks: Seq<BankModel>, key: Seq<u8>)
    requires
        bank_of(banks, key) is None,
    ensures
        forall|i: int| 0 <= i < banks.len() ==> banks[i].owner != key,
    decreases banks.len(),
{
    if banks.len() > 0 {
        lemma_bank_of_none_index(banks.drop_first(), key);
        assert(forall|i: int|
            1 <= i < banks.len() ==> banks[i] == banks.drop_first()[i - 1]);
    }
}

/// A key held by no user entry is not found.
proof fn lemma_user_of_absent(users: Seq<UserModel>, key: Seq<u8>)
    requires
        forall|i: int| 0 <= i < users.len() ==> users[i].key != key,
    ensures
        user_of(users, key) is None,
    decreases users.len(),
{
    if users.len() > 0 {
        lemma_user_of_absent(users.drop_first(), key);
    }
}

/// The lookup returns the user entry at the first index holding the key.
proof fn lemma_user_of_found(users: Seq<UserModel>, key: Seq<u8>, i: int)
    requires
        0 <= i < users.len(),
        users[i].key == key,
        forall|j: int| 0 <= j < i ==> users[j].key != key,
    ensures
        user_of(users, key) == Some(users[i]),
    decreases users.len(),
{
    if i > 0 {
        lemma_user_of_found(users.drop_first(), key, i - 1);
    }
}

/// A key that is not found is held by no user entry.
proof fn lemma_user_of_none_index(users: Seq<UserModel>, key: Seq<u8>)
    requires
        user_of(users, key) is None,
    ensures
        forall|i: int| 0 <= i < users.len() ==> users[i].key != key,
    decreases users.len(),
{
    if users.len() > 0 {
        lemma_user_of_none_index(users.drop_first(), key);
        assert(forall|i: int|
            1 <= i < users.len() ==> users[i] == users.drop_first()[i - 1]);
    }
}

/// Replacing the user entry at one index, keeping its key, changes the
/// lookup at that key alone.
proof fn lemma_user_of_update(users: Seq<UserModel>, i: int, e: UserModel, key: Seq<u8>)
    requires
        users_distinct(users),
        0 <= i < users.len(),
        e.key == users[i].key,
    ensures
        user_of(users.update(i, e), key) == (if key == e.key {
            Some(e)
        } else {
            user_of(users, key)
        }),
    decreases users.len(),
{
    let updated = users.update(i, e);
    if i == 0 {
        if key == e.key {
            assert(updated[0] == e);
        } else {
            assert(updated.drop_first() =~= users.drop_first());
        }
    } else {
        assert(updated.drop_first() =~= users.drop_first().update(i - 1, e));
        lemma_user_of_update(users.drop_first(), i - 1, e, key);
        if key == e.key {
            assert(users[0].key != e.key);
        }
    }
}

/// Appending a user account with a fresh key adds exactly that lookup.
proof fn lemma_user_of_push(users: Seq<UserModel>, e: UserModel, key: Seq<u8>)
    requires
        forall|i: int| 0 <= i < users.len() ==> users[i].key != e.key,
    ensures
        user_of(users.push(e), key) == (if key == e.key {
            Some(e)
        } else {
            user_of(users, key)
        }),
    decreases users.len(),
{
    if users.len() == 0 {
        assert(users.push(e)[0] == e);
        if key != e.key {
            assert(user_of(users.push(e), key) is None);
        }
    } else {
        assert(users.push(e).drop_first() =~= users.drop_first().push(e));
        lemma_user_of_push(users.drop_first(), e, key);
    }
}

/// Each bank account holds at most the total held by all of them.
proof fn lemma_bank_total_bound(banks: Seq<BankModel>, i: int)
    requires
        0 <= i < banks.len(),
    ensures
        banks[i].lamports <= bank_total(banks),
        bank_total(banks) >= 0,
    decreases banks.len(),
{
    lemma_bank_total_nonneg(banks);
    if i == 0 {
        lemma_bank_total_nonneg(banks.drop_first());
    } else {
        lemma_bank_total_bound(banks.drop_first(), i - 1);
    }
}

/// The total over bank accounts is never negative.
proof fn lemma_bank_total_nonneg(banks: Seq<BankModel>)
    ensures
        bank_total(banks) >= 0,
    decreases banks.len(),
{
    if banks.len() > 0 {
        lemma_bank_total_nonneg(banks.drop_first());
    }
}

/// Each user account holds at most the total held by all of them.
proof fn lemma_user_total_bound(users: Seq<UserModel>, i: int)
    requires
        0 <= i < users.len(),
    ensures
        users[i].lamports <= user_total(users),
        user_total(users) >= 0,
    decreases users.len(),
{
    lemma_user_total_nonneg(users);
    if i == 0 {
        lemma_user_total_nonneg(users.drop_first());
    } else {
        lemma_user_total_bound(users.drop_first(), i - 1);
    }
}

/// The total over user accounts is never negative.
proof fn lemma_user_total_nonneg(users: Seq<UserModel>)
    ensures
        user_total(users) >= 0,
    decreases users.len(),
{
    if users.len() > 0 {
        lemma_user_total_nonneg(users.drop_first());
    }
}

/// Replacing the bank entry at one index shifts the total by the difference.
proof fn lemma_bank_total_update(banks: Seq<BankModel>, i: int, e: BankModel)
    requires
        0 <= i < banks.len(),
    ensures
        bank_total(banks.update(i, e)) == bank_total(banks) - banks[i].lamports + e.lamports,
    decreases banks.len(),
{
    let updated = banks.update(i, e);
    if i == 0 {
        assert(updated.drop_first() =~= banks.drop_first());
    } else {
        assert(updated.drop_first() =~= banks.drop_first().update(i - 1, e));
        lemma_bank_total_update(banks.drop_first(), i - 1, e);
    }
}

/// Appending a bank entry adds its lamports to the total.
proof fn lemma_bank_total_push(banks: Seq<BankModel>, e: BankModel)
    ensures
        bank_total(banks.push(e)) == bank_total(banks) + e.lamports,
    decreases banks.len(),
{
    if banks.len() == 0 {
        assert(banks.push(e)[0] == e);
        assert(banks.push(e).drop_first() =~= Seq::<BankModel>::empty());
        assert(bank_total(Seq::<BankModel>::empty()) == 0);
        assert(bank_total(banks.push(e)) == e.lamports + bank_total(banks.push(e).drop_first()));
    } else {
        assert(banks.push(e).drop_first() =~= banks.drop_first().push(e));
        lemma_bank_total_push(banks.drop_first(), e);
    }
}

/// Replacing the user entry at one index shifts the total by the difference.
proof fn lemma_user_total_update(users: Seq<UserModel>, i: int, e: UserModel)
    requires
        0 <= i < users.len(),
    ensures
        user_total(users.update(i, e)) == user_total(users) - users[i].lamports + e.lamports,
    decreases users.len(),
{
    let updated = users.update(i, e);
    if i == 0 {
        assert(updated.drop_first() =~= users.drop_first());
    } else {
        assert(updated.drop_first() =~= users.drop_first().update(i - 1, e));
        lemma_user_total_update(users.drop_first(), i - 1, e);
    }
}

/// Appending a user entry adds its lamports to the total.
proof fn lemma_user_total_push(users: Seq<UserModel>, e: UserModel)
    ensures
        user_total(users.push(e)) == user_total(users) + e.lamports,
    decreases users.len(),
{
    if users.len() == 0 {
        assert(users.push(e)[0] == e);
        assert(users.push(e).drop_first() =~= Seq::<UserModel>::empty());
        assert(user_total(Seq::<UserModel>::empty()) == 0);
        assert(user_total(users.push(e)) == e.lamports + user_total(users.push(e).drop_first()));
    } else {
        assert(users.push(e).drop_first() =~= users.drop_first().push(e));
        lemma_user_total_push(users.drop_first(), e);
    }
}

/// The accounts `create` touches: the signing user, who pays the rent
/// deposit and becomes the owner. The new bank account itself sits at the
/// address derived from the user's key; the system program that carries the
/// funding transfer belongs to the host.
pub struct Create {
    pub user: Pubkey,
}

impl Create {
    /// The account list is well formed when its keys are.
    pub open spec fn wf(&self) -> bool {
        self.user.wf()
    }
}

/// The accounts `deposit` touches: the bank account, named by the owner key
/// its address derives from, and the signing user whose lamports fund the
/// deposit. The system program that carries the transfer belongs to the
/// host. The user need not be the bank's owner.
pub struct Deposit {
    pub bank: Pubkey,
    pub user: Pubkey,
}

impl Deposit {
    /// The account list is well formed when its keys are.
    pub open spec fn wf(&self) -> bool {
        self.bank.wf() && self.user.wf()
    }
}

/// The accounts `withdraw` touches: the bank account, named by the owner
/// key its address derives from, and the signing user asking to be paid,
/// who must be the bank's recorded owner.
pub struct Withdraw {
    pub bank: Pubkey,
    pub user: Pubkey,
}

impl Withdraw {
    /// The account list is well formed when its keys are.
    pub open spec fn wf(&self) -> bool {
        self.bank.wf() && self.user.wf()
    }
}

/// The whole account store: every user (wallet) account and every bank
/// account the program has created. Bank accounts are keyed by their owner's
/// key, the seed of their derived address.
pub struct Ledger {
    users: Vec<UserEntry>,
    banks: Vec<BankEntry>,
}

impl Ledger {
    /// The bank accounts as mathematical records.
    pub closed spec fn banks(&self) -> Seq<BankModel> {
        self.banks@.map_values(|e: BankEntry| e.model())
    }

    /// The user accounts as mathematical records.
    pub closed spec fn users(&self) -> Seq<UserModel> {
        self.users@.map_values(|e: UserEntry| e.model())
    }

    /// The lamports held by every account of the ledger together.
    pub open spec fn total_lamports(&self) -> int {
        user_total(self.users()) + bank_total(self.banks())
    }

    /// The ledger's invariant: keys are 32 bytes, names fill their 32-byte
    /// buffer, each key names at most one account of either sort, and the
    /// lamports in circulation fit in 64 bits, so that moving them between
    /// accounts can never overflow.
    pub open spec fn wf(&self) -> bool {
        &&& banks_distinct(self.banks())
        &&& users_distinct(self.users())
        &&& forall|i: int|
            0 <= i < self.banks().len() ==> (#[trigger] self.banks()[i]).owner.len() == KEY_LEN
                && self.banks()[i].name.len() == NAME_LEN
        &&& forall|i: int|
            0 <= i < self.users().len() ==> (#[trigger] self.users()[i]).key.len() == KEY_LEN
        &&& self.total_lamports() <= u64::MAX
    }

    /// An empty ledger: no accounts, no lamports.
    pub fn new() -> (r: Ledger)
        ensures
            r.wf(),
            r.banks() == Seq::<BankModel>::empty(),
            r.users() == Seq::<UserModel>::empty(),
    {
        let r = Ledger { users: Vec::new(), banks: Vec::new() };
        proof {
            assert(r.banks() =~= Seq::<BankModel>::empty());
            assert(r.users() =~= Seq::<UserModel>::empty());
        }
        r
    }

    /// The index of the bank account at the address derived from `key`.
    fn find_bank_index(&self, key: &Pubkey) -> (r: Option<usize>)
        ensures
            match r {
                Some(i) => i < self.banks().len() && self.banks()[i as int].owner == key@
                    && bank_of(self.banks(), key@) == Some(self.banks()[i as int]),
                None => bank_of(self.banks(), key@) is None,
            },
    {
        let mut i: usize = 0;
        while i < self.banks.len()
            invariant
                i <= self.banks@.len(),
                forall|j: int| 0 <= j < i ==> (#[trigger] self.banks()[j]).owner != key@,
            decreases self.banks@.len() - i,
        {
            if bytes_eq(&self.banks[i].bank.owner.bytes, &key.bytes) {
                proof {
                    lemma_bank_of_found(self.banks(), key@, i as int);
                }
                return Some(i);
            }
            i = i + 1;
        }
        proof {
            lemma_bank_of_absent(self.banks(), key@);
        }
        None
    }

    /// The index of the user account with `key`.
    fn find_user_index(&self, key: &Pubkey) -> (r: Option<usize>)
        ensures
            match r {
                Some(i) => i < self.users().len() && self.users()[i as int].key == key@
                    && user_of(self.users(), key@) == Some(self.users()[i as int]),
                None => user_of(self.users(), key@) is None,
            },
    {
        let mut i: usize = 0;
        while i < self.users.len()
            invariant
                i <= self.users@.len(),
                forall|j: int| 0 <= j < i ==> (#[trigger] self.users()[j]).key != key@,
            decreases self.users@.len() - i,
        {
            if bytes_eq(&self.users[i].key.bytes, &key.bytes) {
                proof {
                    lemma_user_of_found(self.users(), key@, i as int);
                }
                return Some(i);
            }
            i = i + 1;
        }
        proof {
            lemma_user_of_absent(self.users(), key@);
        }
        None
    }

    /// Fund a wallet from outside the ledger, the way a faucet or an
    /// exchange funds a wallet before it ever touches this program. This is
    /// the one way lamports enter the ledger; the bound keeps the total in
    /// circulation within 64 bits.
    pub fn airdrop(&mut self, key: &Pubkey, amount: u64)
        requires
            old(self).wf(),
            key.wf(),
            old(self).total_lamports() + amount <= u64::MAX,
        ensures
            final(self).wf(),
            lamports_of(final(self).users(), key@) == lamports_of(old(self).users(), key@)
                + amount,
            forall|k: Seq<u8>|
                k != key@ ==> lamports_of(final(self).users(), k) == lamports_of(
                    old(self).users(),
                    k,
                ),
            final(self).banks() == old(self).banks(),
            final(self).total_lamports() == old(self).total_lamports() + amount,
    {
        let ghost u0 = self.users();
        match self.find_user_index(key) {
            Some(i) => {
                proof {
                    lemma_user_total_bound(u0, i as int);
                    lemma_bank_total_nonneg(self.banks());
                }
                let mut entry = self.users.remove(i);
                entry.lamports = entry.lamports + amount;
                let ghost e = entry.model();
                self.users.insert(i, entry);
                proof {
                    assert(self.users@ =~= old(self).users@.update(i as int, entry));
                    assert(self.users() =~= u0.update(i as int, e));
                    lemma_user_total_update(u0, i as int, e);
                    assert forall|k: Seq<u8>| true implies user_of(
                        self.users(),
                        k,
                    ) == (if k == key@ {
                        Some(e)
                    } else {
                        user_of(u0, k)
                    }) by {
                        lemma_user_of_update(u0, i as int, e, k);
                    }
                }
            },
            None => {
                let entry = UserEntry { key: key.duplicate(), lamports: amount };
                let ghost e = entry.model();
                self.users.push(entry);
                proof {
                    assert(self.users@ =~= old(self).users@.push(entry));
                    assert(self.users() =~= u0.push(e));
                    lemma_user_total_push(u0, e);
                    lemma_user_of_none_index(u0, key@);
                    assert forall|k: Seq<u8>| true implies user_of(
                        self.users(),
                        k,
                    ) == (if k == key@ {
                        Some(e)
                    } else {
                        user_of(u0, k)
                    }) by {
                        lemma_user_of_push(u0, e, k);
                    }
                }
            },
        }
    }

    /// The `create` instruction: initialize the bank account at the address
    /// derived from the signing user's key. The name is truncated to 32
    /// bytes or zero-padded up to them, never rejected; the recorded balance
    /// starts at zero; the owner is the creator. The new account is funded
    /// with `rent_minimum` lamports by the creator, and creation fails if an
    /// account already sits at the derived address, leaving it unchanged.
    pub fn create(&mut self, accounts: &Create, name: &Vec<u8>, rent_minimum: u64) -> (r: Result<
        (),
        BankError,
    >)
        requires
            old(self).wf(),
            accounts.wf(),
        ensures
            final(self).wf(),
            r == Ok::<(), BankError>(()) <==> (bank_of(old(self).banks(), accounts.user@) is None
                && lamports_of(old(self).users(), accounts.user@) >= rent_minimum),
            r == Err::<(), BankError>(BankError::AlreadyInitialized) <==> bank_of(
                old(self).banks(),
                accounts.user@,
            ) is Some,
            r == Err::<(), BankError>(BankError::TransferFailed) <==> (bank_of(
                old(self).banks(),
                accounts.user@,
            ) is None && lamports_of(old(self).users(), accounts.user@) < rent_minimum),
            r is Err ==> final(self).banks() == old(self).banks() && final(self).users() == old(
                self,
            ).users(),
            r is Ok ==> bank_of(final(self).banks(), accounts.user@) == Some(
                BankModel {
                    name: padded_name(name@),
                    balance: 0u64,
                    owner: accounts.user@,
                    lamports: rent_minimum,
                },
            ),
            r is Ok ==> forall|k: Seq<u8>|
                k != accounts.user@ ==> bank_of(final(self).banks(), k) == bank_of(old(self).banks(), k),
            r is Ok ==> lamports_of(final(self).users(), accounts.user@) == lamports_of(
                old(self).users(),
                accounts.user@,
            ) - rent_minimum,
            r is Ok ==> forall|k: Seq<u8>|
                k != accounts.user@ ==> lamports_of(final(self).users(), k) == lamports_of(
                    old(self).users(),
                    k,
                ),
            final(self).total_lamports() == old(self).total_lamports(),
    {
        let user = &accounts.user;
        let ghost b0 = self.banks();
        let ghost u0 = self.users();
        if let Some(_) = self.find_bank_index(user) {
            return Err(BankError::AlreadyInitialized);
        }
        // Debit the creator: the host funds the new account's rent deposit
        // with a transfer from the payer.
        if rent_minimum > 0 {
            let i = match self.find_user_index(user) {
                None => {
                    return Err(BankError::TransferFailed);
                },
                Some(i) => i,
            };
            let have = self.users[i].lamports;
            if have < rent_minimum {
                return Err(BankError::TransferFailed);
            }
            let mut entry = self.users.remove(i);
            entry.lamports = have - rent_minimum;
            let ghost e = entry.model();
            self.users.insert(i, entry);
            proof {
                assert(self.users@ =~= old(self).users@.update(i as int, entry));
                assert(self.users() =~= u0.update(i as int, e));
                lemma_user_total_update(u0, i as int, e);
                assert forall|k: Seq<u8>| true implies user_of(self.users(), k) == (if k == user@ {
                    Some(e)
                } else {
                    user_of(u0, k)
                }) by {
                    lemma_user_of_update(u0, i as int, e, k);
                }
            }
        }
        let bank = Bank { name: fit_name(name), balance: 0, owner: user.duplicate() };
        let entry = BankEntry { bank, lamports: rent_minimum };
        let ghost be = entry.model();
        let ghost banks_before = self.banks@;
        self.banks.push(entry);
        proof {
            assert(self.banks@ =~= banks_before.push(entry));
            assert(self.banks() =~= b0.push(be));
            lemma_bank_total_push(b0, be);
            lemma_bank_of_none_index(b0, user@);
            assert forall|k: Seq<u8>| true implies bank_of(self.banks(), k) == (if k == user@ {
                Some(be)
            } else {
                bank_of(b0, k)
            }) by {
                lemma_bank_of_push(b0, be, k);
            }
        }
        Ok(())
    }

    /// The `deposit` instruction: transfer `amount` lamports from the
    /// signing depositor to the named bank account, then raise the bank's
    /// recorded balance by the same amount. Any signer may deposit into any
    /// bank account; the transfer fails only when the depositor holds fewer
    /// lamports than `amount`.
    pub fn deposit(&mut self, accounts: &Deposit, amount: u64) -> (r: Result<
        (),
        BankError,
    >)
        requires
            old(self).wf(),
            accounts.wf(),
        ensures
            final(self).wf(),
            r == Ok::<(), BankError>(()) <==> (bank_of(old(self).banks(), accounts.bank@) is Some
                && lamports_of(old(self).users(), accounts.user@) >= amount && bank_of(
                old(self).banks(),
                accounts.bank@,
            )->Some_0.balance + amount <= u64::MAX),
            r == Err::<(), BankError>(BankError::AccountNotFound) <==> bank_of(
                old(self).banks(),
                accounts.bank@,
            ) is None,
            r == Err::<(), BankError>(BankError::TransferFailed) <==> (bank_of(
                old(self).banks(),
                accounts.bank@,
            ) is Some && lamports_of(old(self).users(), accounts.user@) < amount),
            r == Err::<(), BankError>(BankError::BalanceOverflow) <==> (bank_of(
                old(self).banks(),
                accounts.bank@,
            ) is Some && lamports_of(old(self).users(), accounts.user@) >= amount && bank_of(
                old(self).banks(),
                accounts.bank@,
            )->Some_0.balance + amount > u64::MAX),
            r is Err ==> final(self).banks() == old(self).banks() && final(self).users() == old(
                self,
            ).users(),
            r is Ok ==> bank_of(final(self).banks(), accounts.bank@) == Some(
                deposit_step(bank_of(old(self).banks(), accounts.bank@)->Some_0, amount),
            ),
            r is Ok ==> deposit_fits(bank_of(old(self).banks(), accounts.bank@)->Some_0, amount),
            r is Ok ==> forall|k: Seq<u8>|
                k != accounts.bank@ ==> bank_of(final(self).banks(), k) == bank_of(
                    old(self).banks(),
                    k,
                ),
            r is Ok ==> lamports_of(final(self).users(), accounts.user@) == lamports_of(
                old(self).users(),
                accounts.user@,
            ) - amount,
            r is Ok ==> forall|k: Seq<u8>|
                k != accounts.user@ ==> lamports_of(final(self).users(), k) == lamports_of(
                    old(self).users(),
                    k,
                ),
            final(self).total_lamports() == old(self).total_lamports(),
    {
        let bank_owner = &accounts.bank;
        let depositor = &accounts.user;
        let ghost b0 = self.banks();
        let ghost u0 = self.users();
        let bi = match self.find_bank_index(bank_owner) {
            None => {
                return Err(BankError::AccountNotFound);
            },
            Some(i) => i,
        };
        if amount == 0 {
            // A zero transfer always succeeds and changes nothing; the
            // recorded balance rises by zero.
            proof {
                assert(self.banks() =~= b0.update(bi as int, b0[bi as int]));
                assert forall|k: Seq<u8>| true implies bank_of(self.banks(), k) == (if k
                    == bank_owner@ {
                    Some(b0[bi as int])
                } else {
                    bank_of(b0, k)
                }) by {
                    lemma_bank_of_update(b0, bi as int, b0[bi as int], k);
                }
            }
            return Ok(());
        }
        let ui = match self.find_user_index(depositor) {
            None => {
                return Err(BankError::TransferFailed);
            },
            Some(i) => i,
        };
        let have = self.users[ui].lamports;
        if have < amount {
            return Err(BankError::TransferFailed);
        }
        let balance = self.banks[bi].bank.balance;
        if balance > u64::MAX - amount {
            return Err(BankError::BalanceOverflow);
        }
        proof {
            lemma_user_total_bound(u0, ui as int);
            lemma_bank_total_bound(b0, bi as int);
        }
        // Debit the depositor's wallet.
        let mut uentry = self.users.remove(ui);
        uentry.lamports = have - amount;
        let ghost ue = uentry.model();
        self.users.insert(ui, uentry);
        proof {
            assert(self.users@ =~= old(self).users@.update(ui as int, uentry));
            assert(self.users() =~= u0.update(ui as int, ue));
            lemma_user_total_update(u0, ui as int, ue);
            assert forall|k: Seq<u8>| true implies user_of(self.users(), k) == (if k == depositor@ {
                Some(ue)
            } else {
                user_of(u0, k)
            }) by {
                lemma_user_of_update(u0, ui as int, ue, k);
            }
        }
        // Credit the bank account and raise its recorded balance.
        let ghost banks_mid = self.banks@;
        let mut bentry = self.banks.remove(bi);
        bentry.lamports = bentry.lamports + amount;
        bentry.bank.balance = balance + amount;
        let ghost be = bentry.model();
        self.banks.insert(bi, bentry);
        proof {
            assert(self.banks@ =~= banks_mid.update(bi as int, bentry));
            assert(self.banks() =~= b0.update(bi as int, be));
            lemma_bank_total_update(b0, bi as int, be);
            assert forall|k: Seq<u8>| true implies bank_of(self.banks(), k) == (if k
                == bank_owner@ {
                Some(be)
            } else {
                bank_of(b0, k)
            }) by {
                lemma_bank_of_update(b0, bi as int, be, k);
            }
        }
        Ok(())
    }

    /// The `withdraw` instruction: move `amount` lamports out of the named
    /// bank account and into the signing caller's wallet, by direct debit of
    /// the account's lamports. Only the recorded owner may withdraw, and
    /// only what the account holds above
    /// the rent-exempt minimum for its data size, which the host computes
    /// and hands in as `rent_minimum`. The recorded balance is deliberately
    /// left untouched: the program never decrements it, so after any
    /// withdrawal it overstates the deposits still present.
    pub fn withdraw(&mut self, accounts: &Withdraw, rent_minimum: u64, amount: u64) -> (r: Result<
        (),
        BankError,
    >)
        requires
            old(self).wf(),
            accounts.wf(),
        ensures
            final(self).wf(),
            r == Err::<(), BankError>(BankError::AccountNotFound) <==> bank_of(
                old(self).banks(),
                accounts.bank@,
            ) is None,
            r == Err::<(), BankError>(BankError::IllegalOwner) <==> (bank_of(
                old(self).banks(),
                accounts.bank@,
            ) is Some && accounts.user@ != bank_of(old(self).banks(), accounts.bank@)->Some_0.owner),
            r == Err::<(), BankError>(BankError::InsufficientFunds) <==> (bank_of(
                old(self).banks(),
                accounts.bank@,
            ) is Some && accounts.user@ == bank_of(old(self).banks(), accounts.bank@)->Some_0.owner
                && bank_of(old(self).banks(), accounts.bank@)->Some_0.lamports - rent_minimum
                < amount),
            r == Ok::<(), BankError>(()) <==> (bank_of(old(self).banks(), accounts.bank@) is Some
                && accounts.user@ == bank_of(old(self).banks(), accounts.bank@)->Some_0.owner && bank_of(
                old(self).banks(),
                accounts.bank@,
            )->Some_0.lamports - rent_minimum >= amount),
            r is Err ==> final(self).banks() == old(self).banks() && final(self).users() == old(
                self,
            ).users(),
            r is Ok ==> bank_of(final(self).banks(), accounts.bank@) == Some(
                BankModel {
                    name: bank_of(old(self).banks(), accounts.bank@)->Some_0.name,
                    balance: bank_of(old(self).banks(), accounts.bank@)->Some_0.balance,
                    owner: bank_of(old(self).banks(), accounts.bank@)->Some_0.owner,
                    lamports: (bank_of(old(self).banks(), accounts.bank@)->Some_0.lamports
                        - amount) as u64,
                },
            ),
            r is Ok ==> forall|k: Seq<u8>|
                k != accounts.bank@ ==> bank_of(final(self).banks(), k) == bank_of(
                    old(self).banks(),
                    k,
                ),
            r is Ok ==> lamports_of(final(self).users(), accounts.user@) == lamports_of(
                old(self).users(),
                accounts.user@,
            ) + amount,
            r is Ok ==> forall|k: Seq<u8>|
                k != accounts.user@ ==> lamports_of(final(self).users(), k) == lamports_of(
                    old(self).users(),
                    k,
                ),
            final(self).total_lamports() == old(self).total_lamports(),
    {
        let bank_owner = &accounts.bank;
        let caller = &accounts.user;
        let ghost b0 = self.banks();
        let ghost u0 = self.users();
        let bi = match self.find_bank_index(bank_owner) {
            None => {
                return Err(BankError::AccountNotFound);
            },
            Some(i) => i,
        };
        // Only the recorded owner may withdraw.
        if !caller.matches(&self.banks[bi].bank.owner) {
            return Err(BankError::IllegalOwner);
        }
        // The account must keep its rent-exempt minimum.
        let held = self.banks[bi].lamports;
        if held < rent_minimum || held - rent_minimum < amount {
            return Err(BankError::InsufficientFunds);
        }
        proof {
            lemma_bank_total_bound(b0, bi as int);
            lemma_user_total_nonneg(u0);
        }
        // Debit the bank account directly; its recorded balance stays as it
        // was.
        let mut bentry = self.banks.remove(bi);
        bentry.lamports = held - amount;
        let ghost be = bentry.model();
        self.banks.insert(bi, bentry);
        proof {
            assert(self.banks@ =~= old(self).banks@.update(bi as int, bentry));
            assert(self.banks() =~= b0.update(bi as int, be));
            lemma_bank_total_update(b0, bi as int, be);
            assert forall|k: Seq<u8>| true implies bank_of(self.banks(), k) == (if k
                == bank_owner@ {
                Some(be)
            } else {
                bank_of(b0, k)
            }) by {
                lemma_bank_of_update(b0, bi as int, be, k);
            }
        }
        // Credit the caller's wallet.
        let ghost users_mid = self.users@;
        match self.find_user_index(caller) {
            Some(ui) => {
                proof {
                    lemma_user_total_bound(u0, ui as int);
                }
                let mut uentry = self.users.remove(ui);
                uentry.lamports = uentry.lamports + amount;
                let ghost ue = uentry.model();
                self.users.insert(ui, uentry);
                proof {
                    assert(self.users@ =~= users_mid.update(ui as int, uentry));
                    assert(self.users() =~= u0.update(ui as int, ue));
                    lemma_user_total_update(u0, ui as int, ue);
                    assert forall|k: Seq<u8>| true implies user_of(
                        self.users(),
                        k,
                    ) == (if k == caller@ {
                        Some(ue)
                    } else {
                        user_of(u0, k)
                    }) by {
                        lemma_user_of_update(u0, ui as int, ue, k);
                    }
                }
            },
            None => {
                let uentry = UserEntry { key: caller.duplicate(), lamports: amount };
                let ghost ue = uentry.model();
                self.users.push(uentry);
                proof {
                    assert(self.users@ =~= users_mid.push(uentry));
                    assert(self.users() =~= u0.push(ue));
                    lemma_user_total_push(u0, ue);
                    lemma_user_of_none_index(u0, caller@);
                    assert forall|k: Seq<u8>| true implies user_of(
                        self.users(),
                        k,
                    ) == (if k == caller@ {
                        Some(ue)
                    } else {
                        user_of(u0, k)
                    }) by {
                        lemma_user_of_push(u0, ue, k);
                    }
                }
            },
        }
        Ok(())
    }

    /// Whether a bank account sits at the address derived from `owner`.
    pub fn has_bank(&self, owner: &Pubkey) -> (r: bool)
        ensures
            r == (bank_of(self.banks(), owner@) is Some),
    {
        self.find_bank_index(owner).is_some()
    }

    /// The recorded balance of the bank account derived from `owner`: the
    /// lamports deposited through the program, untouched by withdrawals.
    pub fn bank_balance(&self, owner: &Pubkey) -> (r: Option<u64>)
        ensures
            match bank_of(self.banks(), owner@) {
                Some(b) => r == Some(b.balance),
                None => r is None,
            },
    {
        match self.find_bank_index(owner) {
            Some(i) => Some(self.banks[i].bank.balance),
            None => None,
        }
    }

    /// The lamports the bank account derived from `owner` actually holds.
    pub fn bank_lamports(&self, owner: &Pubkey) -> (r: Option<u64>)
        ensures
            match bank_of(self.banks(), owner@) {
                Some(b) => r == Some(b.lamports),
                None => r is None,
            },
    {
        match self.find_bank_index(owner) {
            Some(i) => Some(self.banks[i].lamports),
            None => None,
        }
    }

    /// The 32-byte name stored in the bank account derived from `owner`.
    pub fn bank_name(&self, owner: &Pubkey) -> (r: Option<Vec<u8>>)
        ensures
            match bank_of(self.banks(), owner@) {
                Some(b) => r is Some && r->Some_0@ == b.name,
                None => r is None,
            },
    {
        match self.find_bank_index(owner) {
            Some(i) => Some(copy_bytes(&self.banks[i].bank.name)),
            None => None,
        }
    }

    /// The recorded owner of the bank account derived from `owner`.
    pub fn bank_owner(&self, owner: &Pubkey) -> (r: Option<Pubkey>)
        ensures
            match bank_of(self.banks(), owner@) {
                Some(b) => r is Some && r->Some_0@ == b.owner,
                None => r is None,
            },
    {
        match self.find_bank_index(owner) {
            Some(i) => Some(self.banks[i].bank.owner.duplicate()),
            None => None,
        }
    }

    /// The lamports the wallet with `key` holds; zero for a wallet the
    /// ledger has never seen.
    pub fn user_lamports(&self, key: &Pubkey) -> (r: u64)
        ensures
            r == lamports_of(self.users(), key@),
    {
        match self.find_user_index(key) {
            Some(i) => self.users[i].lamports,
            None => 0,
        }
    }
}

} // verus!
