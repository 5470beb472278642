use solana_pda::account::Bank;
use solana_pda::account::Pubkey;
use solana_pda::codec::decode_bank;
use solana_pda::codec::decode_u64;
use solana_pda::codec::encode_bank;
use solana_pda::codec::encode_u64;

fn tag() -> Vec<u8> {
    vec![7u8, 6, 5, 4, 3, 2, 1, 0]
}

fn sample_bank() -> Bank {
    let mut name = b"Alice".to_vec();
    name.resize(32, 0u8);
    Bank {
        name,
        balance: 1_000_000,
        owner: Pubkey::new(vec![9u8; 32]),
    }
}

#[test]
fn u64_little_endian_bytes_are_exact() {
    assert_eq!(
        encode_u64(0x0102_0304_0506_0708),
        vec![0x08, 0x07, 0x06, 0x05, 0x04, 0x03, 0x02, 0x01]
    );
    assert_eq!(encode_u64(0), vec![0u8; 8]);
    assert_eq!(encode_u64(u64::MAX), vec![0xffu8; 8]);
}

#[test]
fn u64_round_trips_through_bytes() {
    for v in [0u64, 1, 255, 256, 1_000_000, u64::MAX - 1, u64::MAX] {
        assert_eq!(decode_u64(&encode_u64(v)), v);
    }
}

#[test]
fn bank_data_is_80_bytes_in_layout_order() {
    let bank = sample_bank();
    let data = encode_bank(&tag(), &bank);
    assert_eq!(data.len(), 80);
    assert_eq!(&data[..8], &tag()[..]);
    assert_eq!(&data[8..40], &bank.name[..]);
    assert_eq!(&data[40..48], &encode_u64(bank.balance)[..]);
    assert_eq!(&data[48..80], &bank.owner.bytes[..]);
}

#[test]
fn bank_data_round_trips() {
    let bank = sample_bank();
    let data = encode_bank(&tag(), &bank);
    let back = decode_bank(&tag(), &data).unwrap();
    assert_eq!(back.name, bank.name);
    assert_eq!(back.balance, bank.balance);
    assert_eq!(back.owner.bytes, bank.owner.bytes);
}

#[test]
fn decode_rejects_wrong_length() {
    let bank = sample_bank();
    let mut data = encode_bank(&tag(), &bank);
    data.push(0);
    assert!(decode_bank(&tag(), &data).is_none());
    assert!(decode_bank(&tag(), &Vec::new()).is_none());
}

#[test]
fn decode_rejects_wrong_tag() {
    let bank = sample_bank();
    let data = encode_bank(&tag(), &bank);
    let other = vec![0u8; 8];
    assert!(decode_bank(&other, &data).is_none());
}
