//! The laws the instruction handlers obey beyond any one call: how a run of
//! successful deposits accumulates, and what shape the stored name takes.

use vstd::prelude::*;

use crate::account::NAME_LEN;
use crate::account::padded_name;
use crate::ledger::BankModel;

verus! {

/// Whether one deposit of `amount` into `b` stays within 64 bits, both in
/// the recorded balance and in the account's lamports; exactly the condition
/// under which `Ledger::deposit` returns `Ok` for a funded depositor.
pub open spec fn deposit_fits(b: BankModel, amount: u64) -> bool {
    &&& b.balance + amount <= u64::MAX
    &&& b.lamports + amount <= u64::MAX
}

/// What one successful deposit of `amount` does to a bank account: the
/// recorded balance and the held lamports both rise by `amount`; the name
/// and the owner stay. `Ledger::deposit` ensures precisely this record on
/// success.
pub open spec fn deposit_step(b: BankModel, amount: u64) -> BankModel {
    BankModel {
        name: b.name,
        balance: (b.balance + amount) as u64,
        owner: b.owner,
        lamports: (b.lamports + amount) as u64,
    }
}

/// Whether a whole run of deposits stays within 64 bits at every step.
pub open spec fn deposits_fit(b: BankModel, amounts: Seq<u64>) -> bool
    decreases amounts.len(),
{
    amounts.len() == 0 || (deposit_fits(b, amounts[0]) && deposits_fit(
        deposit_step(b, amounts[0]),
        amounts.drop_first(),
    ))
}

/// The bank account after a run of successful deposits, first to last.
pub open spec fn apply_deposits(b: BankModel, amounts: Seq<u64>) -> BankModel
    decreases amounts.len(),
{
    if amounts.len() == 0 {
        b
    } else {
        apply_deposits(deposit_step(b, amounts[0]), amounts.drop_first())
    }
}

/// The sum of a run of deposit amounts, as an unbounded integer.
pub open spec fn sum_amounts(amounts: Seq<u64>) -> int
    decreases amounts.len(),
{
    if amounts.len() == 0 {
        0
    } else {
        amounts[0] + sum_amounts(amounts.drop_first())
    }
}

/// After any run of successful deposits, the recorded balance has risen by
/// exactly the sum of the amounts, the account's lamports have risen by that
/// same sum, and the name and owner stand as they were.
pub proof fn lemma_deposits_accumulate(b: BankModel, amounts: Seq<u64>)
    requires
        deposits_fit(b, amounts),
    ensures
        apply_deposits(b, amounts).balance == b.balance + sum_amounts(amounts),
        apply_deposits(b, amounts).lamports == b.lamports + sum_amounts(amounts),
        apply_deposits(b, amounts).name == b.name,
        apply_deposits(b, amounts).owner == b.owner,
    decreases amounts.len(),
{
    if amounts.len() > 0 {
        lemma_deposits_accumulate(deposit_step(b, amounts[0]), amounts.drop_first());
    }
}

/// A name of at most 32 bytes is stored as itself, zero-padded to 32 bytes:
/// the buffer begins with the name and every byte after it is zero.
pub proof fn lemma_short_name_padded(name: Seq<u8>)
    requires
        name.len() <= NAME_LEN,
    ensures
        padded_name(name).len() == NAME_LEN,
        padded_name(name).subrange(0, name.len() as int) == name,
        forall|i: int| name.len() <= i < NAME_LEN ==> padded_name(name)[i] == 0u8,
{
    assert(padded_name(name).subrange(0, name.len() as int) =~= name);
}

/// A name longer than 32 bytes is truncated to its first 32 bytes, without
/// an error being raised.
pub proof fn lemma_long_name_truncated(name: Seq<u8>)
    requires
        name.len() > NAME_LEN,
    ensures
        padded_name(name) == name.subrange(0, NAME_LEN as int),
{
}

} // verus!
