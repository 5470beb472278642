//! The data that one bank account persists: a fixed 32-byte name, a deposit
//! counter, and the owner's public key; together with the error kinds an
//! instruction can fail with.

use vstd::prelude::*;

verus! {

/// Every account address and owner key is this many bytes long.
pub const KEY_LEN: usize = 32;

/// The name stored in a bank account occupies exactly this many bytes.
pub const NAME_LEN: usize = 32;

/// A public key: exactly 32 bytes identifying a wallet. A bank account's
/// address is derived deterministically from its owner's key, so keys also
/// serve as the addresses of bank accounts in the ledger.
pub struct Pubkey {
    pub bytes: Vec<u8>,
}

impl View for Pubkey {
    type V = Seq<u8>;

    open spec fn view(&self) -> Seq<u8> {
        self.bytes@
    }
}

impl Pubkey {
    /// A key is well formed when it has exactly 32 bytes.
    pub open spec fn wf(&self) -> bool {
        self@.len() == KEY_LEN
    }

    /// Wrap raw bytes as a key; only 32-byte inputs are accepted.
    pub fn new(bytes: Vec<u8>) -> (r: Pubkey)
        requires
            bytes@.len() == KEY_LEN,
        ensures
            r.wf(),
            r@ == bytes@,
    {
        Pubkey { bytes }
    }

    /// An owned copy of this key.
    pub fn duplicate(&self) -> (r: Pubkey)
        ensures
            r@ == self@,
            r.wf() <==> self.wf(),
    {
        Pubkey { bytes: copy_bytes(&self.bytes) }
    }

    /// Whether two keys hold the same bytes.
    pub fn matches(&self, other: &Pubkey) -> (r: bool)
        ensures
            r == (self@ == other@),
    {
        bytes_eq(&self.bytes, &other.bytes)
    }
}

/// An owned copy of a byte vector.
pub fn copy_bytes(a: &Vec<u8>) -> (r: Vec<u8>)
    ensures
        r@ == a@,
{
    let mut out: Vec<u8> = Vec::new();
    let mut i: usize = 0;
    while i < a.len()
        invariant
            i <= a@.len(),
            out@ == a@.subrange(0, i as int),
        decreases a@.len() - i,
    {
        out.push(a[i]);
        i = i + 1;
    }
    proof {
        assert(out@ =~= a@);
    }
    out
}

/// Whether two byte vectors hold the same bytes.
pub fn bytes_eq(a: &Vec<u8>, b: &Vec<u8>) -> (r: bool)
    ensures
        r == (a@ == b@),
{
    if a.len() != b.len() {
        return false;
    }
    let mut i: usize = 0;
    while i < a.len()
        invariant
            i <= a@.len(),
            a@.len() == b@.len(),
            forall|j: int| 0 <= j < i ==> a@[j] == b@[j],
        decreases a@.len() - i,
    {
        if a[i] != b[i] {
            return false;
        }
        i = i + 1;
    }
    proof {
        assert(a@ =~= b@);
    }
    true
}

/// The persisted contents of one bank account: the name handed to `create`,
/// fitted into a 32-byte buffer; the running total of lamports deposited
/// through the program; and the key of the user who created the account.
pub struct Bank {
    pub name: Vec<u8>,
    pub balance: u64,
    pub owner: Pubkey,
}

impl Bank {
    /// Bank data is well formed when the name buffer has exactly 32 bytes
    /// and the owner key is well formed.
    pub open spec fn wf(&self) -> bool {
        &&& self.name@.len() == NAME_LEN
        &&& self.owner.wf()
    }
}

/// The name bytes as they are persisted: the input truncated to 32 bytes if
/// longer, and padded with trailing zero bytes if shorter.
pub open spec fn padded_name(name: Seq<u8>) -> Seq<u8> {
    if name.len() >= NAME_LEN {
        name.subrange(0, NAME_LEN as int)
    } else {
        name + Seq::new((NAME_LEN - name.len()) as nat, |i: int| 0u8)
    }
}

/// Fit arbitrary name bytes into the fixed 32-byte buffer, truncating or
/// zero-padding as needed; over-long names are cut silently, never rejected.
pub fn fit_name(name: &Vec<u8>) -> (r: Vec<u8>)
    ensures
        r@ == padded_name(name@),
        r@.len() == NAME_LEN,
{
    let mut out: Vec<u8> = Vec::new();
    let mut i: usize = 0;
    while i < NAME_LEN
        invariant
            i <= NAME_LEN,
            out@.len() == i,
            forall|j: int|
                0 <= j < i ==> out@[j] == (if j < name@.len() {
                    name@[j]
                } else {
                    0u8
                }),
        decreases NAME_LEN - i,
    {
        if i < name.len() {
            out.push(name[i]);
        } else {
            out.push(0u8);
        }
        i = i + 1;
    }
    proof {
        assert(out@ =~= padded_name(name@));
    }
    out
}

/// Everything an instruction can fail with. Each failure aborts the whole
/// instruction: the ledger is left exactly as it was.
#[derive(Debug, PartialEq, Eq, Structural, Clone, Copy)]
pub enum BankError {
    /// `create` found an account already initialized at the derived address.
    AlreadyInitialized,
    /// `deposit` or `withdraw` named a derived address with no bank account.
    AccountNotFound,
    /// The funding transfer failed: the paying signer holds too few lamports.
    TransferFailed,
    /// `withdraw` was signed by a key other than the bank's recorded owner.
    IllegalOwner,
    /// `withdraw` asked for more than the lamports above the rent minimum.
    InsufficientFunds,
    /// The recorded deposit counter would exceed its 64-bit range; the host
    /// aborts the transaction rather than wrap the counter.
    BalanceOverflow,
}

} // verus!
