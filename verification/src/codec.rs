//! The persisted layout of a bank account's data, as the space reserved at
//! creation is filled: an 8-byte discriminator tag naming the account type,
//! the 32-byte name, the recorded balance as 8 little-endian bytes, and the
//! 32-byte owner key — 80 bytes in all.

use vstd::prelude::*;

use crate::account::Bank;
use crate::account::NAME_LEN;
use crate::account::Pubkey;
use crate::account::copy_bytes;

verus! {

/// The discriminator tag prefixed to the account data is this many bytes.
pub const TAG_LEN: usize = 8;

/// The whole account data: tag, name, balance and owner key.
pub const BANK_SPACE: usize = 80;

/// A 64-bit value as its 8 little-endian bytes.
pub open spec fn u64_le_bytes(v: u64) -> Seq<u8> {
    Seq::new(8nat, |i: int| ((v >> ((8 * i) as u64)) & 0xff) as u8)
}

/// The 64-bit value read from 8 little-endian bytes.
pub open spec fn u64_of_le(s: Seq<u8>) -> u64
    recommends
        s.len() == 8,
{
    (s[0] as u64) | ((s[1] as u64) << 8u64) | ((s[2] as u64) << 16u64) | ((s[3] as u64)
        << 24u64) | ((s[4] as u64) << 32u64) | ((s[5] as u64) << 40u64) | ((s[6] as u64)
        << 48u64) | ((s[7] as u64) << 56u64)
}

/// Reading back the little-endian bytes of a value yields the value.
pub proof fn lemma_u64_le_round_trip(v: u64)
    ensures
        u64_of_le(u64_le_bytes(v)) == v,
{
    let s = u64_le_bytes(v);
    assert(((((v >> 0u64) & 0xff) as u8) as u64) | (((((v >> 8u64) & 0xff) as u8) as u64)
        << 8u64) | (((((v >> 16u64) & 0xff) as u8) as u64) << 16u64) | (((((v >> 24u64)
        & 0xff) as u8) as u64) << 24u64) | (((((v >> 32u64) & 0xff) as u8) as u64) << 32u64) | ((((
    (v >> 40u64) & 0xff) as u8) as u64) << 40u64) | (((((v >> 48u64) & 0xff) as u8) as u64)
        << 48u64) | (((((v >> 56u64) & 0xff) as u8) as u64) << 56u64) == v) by (bit_vector);
    assert(s[0] == ((v >> 0u64) & 0xff) as u8);
    assert(s[1] == ((v >> 8u64) & 0xff) as u8);
    assert(s[2] == ((v >> 16u64) & 0xff) as u8);
    assert(s[3] == ((v >> 24u64) & 0xff) as u8);
    assert(s[4] == ((v >> 32u64) & 0xff) as u8);
    assert(s[5] == ((v >> 40u64) & 0xff) as u8);
    assert(s[6] == ((v >> 48u64) & 0xff) as u8);
    assert(s[7] == ((v >> 56u64) & 0xff) as u8);
}

/// A 64-bit value written as its 8 little-endian bytes.
pub fn encode_u64(v: u64) -> (r: Vec<u8>)
    ensures
        r@ == u64_le_bytes(v),
        r@.len() == 8,
{
    let mut out: Vec<u8> = Vec::new();
    out.push((v & 0xff) as u8);
    out.push(((v >> 8u64) & 0xff) as u8);
    out.push(((v >> 16u64) & 0xff) as u8);
    out.push(((v >> 24u64) & 0xff) as u8);
    out.push(((v >> 32u64) & 0xff) as u8);
    out.push(((v >> 40u64) & 0xff) as u8);
    out.push(((v >> 48u64) & 0xff) as u8);
    out.push(((v >> 56u64) & 0xff) as u8);
    proof {
        assert(v >> 0u64 == v) by (bit_vector);
        assert(out@ =~= u64_le_bytes(v));
    }
    out
}

/// The 64-bit value read from 8 little-endian bytes.
pub fn decode_u64(b: &Vec<u8>) -> (r: u64)
    requires
        b@.len() == 8,
    ensures
        r == u64_of_le(b@),
{
    (b[0] as u64) | ((b[1] as u64) << 8u64) | ((b[2] as u64) << 16u64) | ((b[3] as u64)
        << 24u64) | ((b[4] as u64) << 32u64) | ((b[5] as u64) << 40u64) | ((b[6] as u64)
        << 48u64) | ((b[7] as u64) << 56u64)
}

/// The 80 bytes persisted for a bank account, in layout order.
pub open spec fn bank_bytes(tag: Seq<u8>, name: Seq<u8>, balance: u64, owner: Seq<u8>) -> Seq<
    u8,
> {
    tag + name + u64_le_bytes(balance) + owner
}

/// Write a bank account's data in its persisted layout behind the given
/// discriminator tag.
pub fn encode_bank(tag: &Vec<u8>, bank: &Bank) -> (r: Vec<u8>)
    requires
        tag@.len() == TAG_LEN,
        bank.wf(),
    ensures
        r@ == bank_bytes(tag@, bank.name@, bank.balance, bank.owner@),
        r@.len() == BANK_SPACE,
{
    let mut out = copy_bytes(tag);
    let mut name = copy_bytes(&bank.name);
    out.append(&mut name);
    let mut balance = encode_u64(bank.balance);
    out.append(&mut balance);
    let mut owner = copy_bytes(&bank.owner.bytes);
    out.append(&mut owner);
    proof {
        assert(out@ =~= bank_bytes(tag@, bank.name@, bank.balance, bank.owner@));
    }
    out
}

/// Read a bank account back from its persisted data. Exactly the 80-byte
/// buffers that begin with the given discriminator tag decode; anything
/// else is rejected as data of some other account type.
pub fn decode_bank(tag: &Vec<u8>, data: &Vec<u8>) -> (r: Option<Bank>)
    requires
        tag@.len() == TAG_LEN,
    ensures
        r is Some <==> (data@.len() == BANK_SPACE && data@.subrange(0, TAG_LEN as int) == tag@),
        r is Some ==> r->Some_0.wf(),
        r is Some ==> r->Some_0.name@ == data@.subrange(8, 40),
        r is Some ==> r->Some_0.balance == u64_of_le(data@.subrange(40, 48)),
        r is Some ==> r->Some_0.owner@ == data@.subrange(48, 80),
{
    if data.len() != BANK_SPACE {
        return None;
    }
    let mut i: usize = 0;
    while i < TAG_LEN
        invariant
            i <= TAG_LEN,
            data@.len() == BANK_SPACE,
            tag@.len() == TAG_LEN,
            forall|j: int| 0 <= j < i ==> data@[j] == tag@[j],
        decreases TAG_LEN - i,
    {
        if data[i] != tag[i] {
            proof {
                assert(data@.subrange(0, TAG_LEN as int)[i as int] != tag@[i as int]);
            }
            return None;
        }
        i = i + 1;
    }
    proof {
        assert(data@.subrange(0, TAG_LEN as int) =~= tag@);
    }
    let name = copy_range(data, 8, NAME_LEN);
    let balance_bytes = copy_range(data, 40, 8);
    let owner_bytes = copy_range(data, 48, 32);
    let balance = decode_u64(&balance_bytes);
    Some(Bank { name, balance, owner: Pubkey::new(owner_bytes) })
}

/// An owned copy of `count` bytes of `data`, starting at `start`.
fn copy_range(data: &Vec<u8>, start: usize, count: usize) -> (r: Vec<u8>)
    requires
        start + count <= data@.len(),
    ensures
        r@ == data@.subrange(start as int, start + count),
{
    let dlen: usize = data.len();
    let mut out: Vec<u8> = Vec::new();
    let mut i: usize = 0;
    while i < count
        invariant
            i <= count,
            start + count <= dlen,
            dlen == data@.len(),
            out@ == data@.subrange(start as int, start + i),
        decreases count - i,
    {
        out.push(data[start + i]);
        proof {
            assert(out@ =~= data@.subrange(start as int, start + i + 1));
        }
        i = i + 1;
    }
    out
}

/// Round trip: the 80 bytes written for a bank account decode back to the
/// same tag, name, balance and owner.
pub proof fn lemma_bank_bytes_round_trip(tag: Seq<u8>, name: Seq<u8>, balance: u64, owner: Seq<u8>)
    requires
        tag.len() == TAG_LEN,
        name.len() == NAME_LEN,
        owner.len() == 32,
    ensures
        bank_bytes(tag, name, balance, owner).len() == BANK_SPACE,
        bank_bytes(tag, name, balance, owner).subrange(0, TAG_LEN as int) == tag,
        bank_bytes(tag, name, balance, owner).subrange(8, 40) == name,
        u64_of_le(bank_bytes(tag, name, balance, owner).subrange(40, 48)) == balance,
        bank_bytes(tag, name, balance, owner).subrange(48, 80) == owner,
{
    let whole = bank_bytes(tag, name, balance, owner);
    assert(whole.subrange(0, TAG_LEN as int) =~= tag);
    assert(whole.subrange(8, 40) =~= name);
    assert(whole.subrange(40, 48) =~= u64_le_bytes(balance));
    assert(whole.subrange(48, 80) =~= owner);
    lemma_u64_le_round_trip(balance);
}

} // verus!
