use alloy_primitives::{keccak256, Address, U256};
use alloy_sol_types::sol_data;
use alloy_sol_types::SolType;
use beth::deposit_vault::{credit_call_data, deposits_calldata, DEPOSIT_VAULT_ADDRESS};
use beth::enforcer::Deposit;

type Arguments = (sol_data::Array<sol_data::Address>, sol_data::Array<sol_data::Uint<256>>);

#[test]
fn deposits_calldata_is_none_when_empty() {
    assert!(deposits_calldata(&[]).is_none());
}

#[test]
fn deposits_calldata_round_trips_via_sol_decode() {
    let deposits = vec![
        Deposit { address: [1; 20], value_sats: 100 },
        Deposit { address: [2; 20], value_sats: 200 },
    ];
    let calldata = deposits_calldata(&deposits).expect("non-empty");
    let selector = keccak256("systemCreditDeposits(address[],uint256[])");
    assert_eq!(calldata[..4], selector[..4]);
    let (recipients, amounts) =
        Arguments::abi_decode_sequence(&calldata[4..]).expect("valid ABI");
    assert_eq!(recipients, vec![Address::repeat_byte(1), Address::repeat_byte(2)]);
    assert_eq!(amounts, vec![U256::from(100u64), U256::from(200u64)]);
}

#[test]
fn credit_call_is_laid_out_word_by_word() {
    let deposits = [Deposit { address: [0xEE; 20], value_sats: 0x0102 }];
    let calldata = credit_call_data([9, 8, 7, 6], &deposits);
    let mut expected = vec![9, 8, 7, 6];
    for last in [64u8, 128, 1] {
        expected.extend_from_slice(&[0; 31]);
        expected.push(last);
    }
    expected.extend_from_slice(&[0; 12]);
    expected.extend_from_slice(&[0xEE; 20]);
    expected.extend_from_slice(&[0; 31]);
    expected.push(1);
    expected.extend_from_slice(&[0; 30]);
    expected.extend_from_slice(&[1, 2]);
    assert_eq!(calldata, expected);
}

#[test]
fn credit_calls_for_different_deposits_differ() {
    let one = [Deposit { address: [1; 20], value_sats: 5 }];
    let other_amount = [Deposit { address: [1; 20], value_sats: 6 }];
    let other_address = [Deposit { address: [2; 20], value_sats: 5 }];
    let twice = [one[0], one[0]];
    let call = deposits_calldata(&one);
    assert_eq!(call, deposits_calldata(&one));
    assert_ne!(call, deposits_calldata(&other_amount));
    assert_ne!(call, deposits_calldata(&other_address));
    assert_ne!(call, deposits_calldata(&twice));
}

#[test]
fn vault_has_its_predeploy_address() {
    let expected: Address = "0x000000000000000000000000000000000000d300".parse().unwrap();
    assert_eq!(Address::from(DEPOSIT_VAULT_ADDRESS), expected);
}
