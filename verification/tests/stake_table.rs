use ethers::abi::{encode, AbiDecode, AbiEncode, Token};
use ethers::types::{H160, U256 as OutsideU256};
use ethers::utils::{id, keccak256};
use sequencer::abi::{AbiError, Address, U256};
use sequencer::shared_types::{EdOnBN254Point, G1Point, G2Point, Node};
use sequencer::stake_table::{ContractCall, StakeTable};
use sequencer::stake_table_calls::{
    CurrentEpochCall, DepositCall, ExitEscrowPeriodCall, FirstAvailableExitEpochCall, FirstAvailableRegistrationEpochCall, HashBlsKeyCall, LightClientCall, LookupNodeCall, LookupStakeCall, MaxChurnRateCall, NextExitEpochCall, NextRegistrationEpochCall, NodesCall, NumPendingExitsCall, NumPendingRegistrationsCall, RegisterCall, RequestExitCall, TokenAddressCall, TotalKeysCall, TotalNativeStakeCall, TotalRestakedStakeCall, TotalStakeCall, TotalVotingStakeCall, WithdrawFundsCall, StakeTableCalls,
};
use sequencer::stake_table_errors::{
    same_selector, BLSSigVerificationFailed, ExitRequestInProgress, InvalidNextRegistrationEpoch, NodeAlreadyRegistered, PrematureDeposit, PrematureExit, PrematureWithdrawal, RestakingNotImplemented, Unauthenticated, StakeTableErrors,
};
use sequencer::stake_table_events::{
    DepositFilter, ExitFilter, RawLog, RegisteredFilter, StakeTableEvents,
};
use sequencer::stake_table_returns::{
    CurrentEpochReturn, DepositReturn, HashBlsKeyReturn, LightClientReturn, LookupNodeReturn,
    NodesReturn, TotalKeysReturn, TotalStakeReturn,
};

fn u256(n: u8) -> U256 {
    let mut bytes = [0u8; 32];
    for (i, b) in bytes.iter_mut().enumerate() {
        *b = n.wrapping_mul(31).wrapping_add(i as u8);
    }
    U256(bytes)
}

fn uint(value: &U256) -> Token {
    Token::Uint(OutsideU256::from_big_endian(&value.0))
}

fn g2(n: u8) -> G2Point {
    G2Point { x_0: u256(n), x_1: u256(n + 1), y_0: u256(n + 2), y_1: u256(n + 3) }
}

fn g2_token(p: &G2Point) -> Token {
    Token::Tuple(vec![uint(&p.x_0), uint(&p.x_1), uint(&p.y_0), uint(&p.y_1)])
}

fn node() -> Node {
    Node {
        account: Address([0x11; 20]),
        stake_type: 1,
        balance: 1_000_000,
        register_epoch: 12,
        exit_epoch: 0,
        schnorr_vk: EdOnBN254Point { x: u256(40), y: u256(41) },
    }
}

fn node_token(n: &Node) -> Token {
    Token::Tuple(vec![
        Token::Address(H160(n.account.0)),
        Token::Uint(n.stake_type.into()),
        Token::Uint(n.balance.into()),
        Token::Uint(n.register_epoch.into()),
        Token::Uint(n.exit_epoch.into()),
        Token::Tuple(vec![uint(&n.schnorr_vk.x), uint(&n.schnorr_vk.y)]),
    ])
}

fn with_selector(selector: [u8; 4], tokens: &[Token]) -> Vec<u8> {
    let mut data = selector.to_vec();
    data.extend_from_slice(&encode(tokens));
    data
}

fn table() -> StakeTable {
    StakeTable::new(Address([0x5a; 20]))
}

#[test]
fn call_selectors_are_the_digests_of_the_signatures() {
    assert_eq!(HashBlsKeyCall::selector(), id(HashBlsKeyCall::abi_signature()));
    assert_eq!(HashBlsKeyCall::abi_signature(), "_hashBlsKey((uint256,uint256,uint256,uint256))");
    assert_eq!(HashBlsKeyCall::function_name(), "_hashBlsKey");
    assert_eq!(CurrentEpochCall::selector(), id(CurrentEpochCall::abi_signature()));
    assert_eq!(CurrentEpochCall::abi_signature(), "currentEpoch()");
    assert_eq!(CurrentEpochCall::function_name(), "currentEpoch");
    assert_eq!(DepositCall::selector(), id(DepositCall::abi_signature()));
    assert_eq!(DepositCall::abi_signature(), "deposit((uint256,uint256,uint256,uint256),uint64)");
    assert_eq!(DepositCall::function_name(), "deposit");
    assert_eq!(ExitEscrowPeriodCall::selector(), id(ExitEscrowPeriodCall::abi_signature()));
    assert_eq!(ExitEscrowPeriodCall::abi_signature(), "exitEscrowPeriod((address,uint8,uint64,uint64,uint64,(uint256,uint256)))");
    assert_eq!(ExitEscrowPeriodCall::function_name(), "exitEscrowPeriod");
    assert_eq!(FirstAvailableExitEpochCall::selector(), id(FirstAvailableExitEpochCall::abi_signature()));
    assert_eq!(FirstAvailableExitEpochCall::abi_signature(), "firstAvailableExitEpoch()");
    assert_eq!(FirstAvailableExitEpochCall::function_name(), "firstAvailableExitEpoch");
    assert_eq!(FirstAvailableRegistrationEpochCall::selector(), id(FirstAvailableRegistrationEpochCall::abi_signature()));
    assert_eq!(FirstAvailableRegistrationEpochCall::abi_signature(), "firstAvailableRegistrationEpoch()");
    assert_eq!(FirstAvailableRegistrationEpochCall::function_name(), "firstAvailableRegistrationEpoch");
    assert_eq!(LightClientCall::selector(), id(LightClientCall::abi_signature()));
    assert_eq!(LightClientCall::abi_signature(), "lightClient()");
    assert_eq!(LightClientCall::function_name(), "lightClient");
    assert_eq!(LookupNodeCall::selector(), id(LookupNodeCall::abi_signature()));
    assert_eq!(LookupNodeCall::abi_signature(), "lookupNode((uint256,uint256,uint256,uint256))");
    assert_eq!(LookupNodeCall::function_name(), "lookupNode");
    assert_eq!(LookupStakeCall::selector(), id(LookupStakeCall::abi_signature()));
    assert_eq!(LookupStakeCall::abi_signature(), "lookupStake((uint256,uint256,uint256,uint256))");
    assert_eq!(LookupStakeCall::function_name(), "lookupStake");
    assert_eq!(MaxChurnRateCall::selector(), id(MaxChurnRateCall::abi_signature()));
    assert_eq!(MaxChurnRateCall::abi_signature(), "maxChurnRate()");
    assert_eq!(MaxChurnRateCall::function_name(), "maxChurnRate");
    assert_eq!(NextExitEpochCall::selector(), id(NextExitEpochCall::abi_signature()));
    assert_eq!(NextExitEpochCall::abi_signature(), "nextExitEpoch()");
    assert_eq!(NextExitEpochCall::function_name(), "nextExitEpoch");
    assert_eq!(NextRegistrationEpochCall::selector(), id(NextRegistrationEpochCall::abi_signature()));
    assert_eq!(NextRegistrationEpochCall::abi_signature(), "nextRegistrationEpoch()");
    assert_eq!(NextRegistrationEpochCall::function_name(), "nextRegistrationEpoch");
    assert_eq!(NodesCall::selector(), id(NodesCall::abi_signature()));
    assert_eq!(NodesCall::abi_signature(), "nodes(bytes32)");
    assert_eq!(NodesCall::function_name(), "nodes");
    assert_eq!(NumPendingExitsCall::selector(), id(NumPendingExitsCall::abi_signature()));
    assert_eq!(NumPendingExitsCall::abi_signature(), "numPendingExits()");
    assert_eq!(NumPendingExitsCall::function_name(), "numPendingExits");
    assert_eq!(NumPendingRegistrationsCall::selector(), id(NumPendingRegistrationsCall::abi_signature()));
    assert_eq!(NumPendingRegistrationsCall::abi_signature(), "numPendingRegistrations()");
    assert_eq!(NumPendingRegistrationsCall::function_name(), "numPendingRegistrations");
    assert_eq!(RegisterCall::selector(), id(RegisterCall::abi_signature()));
    assert_eq!(RegisterCall::abi_signature(), "register((uint256,uint256,uint256,uint256),(uint256,uint256),uint64,uint8,(uint256,uint256),uint64)");
    assert_eq!(RegisterCall::function_name(), "register");
    assert_eq!(RequestExitCall::selector(), id(RequestExitCall::abi_signature()));
    assert_eq!(RequestExitCall::abi_signature(), "requestExit((uint256,uint256,uint256,uint256))");
    assert_eq!(RequestExitCall::function_name(), "requestExit");
    assert_eq!(TokenAddressCall::selector(), id(TokenAddressCall::abi_signature()));
    assert_eq!(TokenAddressCall::abi_signature(), "tokenAddress()");
    assert_eq!(TokenAddressCall::function_name(), "tokenAddress");
    assert_eq!(TotalKeysCall::selector(), id(TotalKeysCall::abi_signature()));
    assert_eq!(TotalKeysCall::abi_signature(), "totalKeys()");
    assert_eq!(TotalKeysCall::function_name(), "totalKeys");
    assert_eq!(TotalNativeStakeCall::selector(), id(TotalNativeStakeCall::abi_signature()));
    assert_eq!(TotalNativeStakeCall::abi_signature(), "totalNativeStake()");
    assert_eq!(TotalNativeStakeCall::function_name(), "totalNativeStake");
    assert_eq!(TotalRestakedStakeCall::selector(), id(TotalRestakedStakeCall::abi_signature()));
    assert_eq!(TotalRestakedStakeCall::abi_signature(), "totalRestakedStake()");
    assert_eq!(TotalRestakedStakeCall::function_name(), "totalRestakedStake");
    assert_eq!(TotalStakeCall::selector(), id(TotalStakeCall::abi_signature()));
    assert_eq!(TotalStakeCall::abi_signature(), "totalStake()");
    assert_eq!(TotalStakeCall::function_name(), "totalStake");
    assert_eq!(TotalVotingStakeCall::selector(), id(TotalVotingStakeCall::abi_signature()));
    assert_eq!(TotalVotingStakeCall::abi_signature(), "totalVotingStake()");
    assert_eq!(TotalVotingStakeCall::function_name(), "totalVotingStake");
    assert_eq!(WithdrawFundsCall::selector(), id(WithdrawFundsCall::abi_signature()));
    assert_eq!(WithdrawFundsCall::abi_signature(), "withdrawFunds((uint256,uint256,uint256,uint256))");
    assert_eq!(WithdrawFundsCall::function_name(), "withdrawFunds");
}

#[test]
fn call_selectors_are_the_known_ones() {
    assert_eq!(HashBlsKeyCall::selector(), [155, 48, 165, 230]);
    assert_eq!(CurrentEpochCall::selector(), [118, 103, 24, 8]);
    assert_eq!(DepositCall::selector(), [119, 31, 111, 68]);
    assert_eq!(ExitEscrowPeriodCall::selector(), [200, 76, 127, 161]);
    assert_eq!(FirstAvailableExitEpochCall::selector(), [16, 158, 59, 227]);
    assert_eq!(FirstAvailableRegistrationEpochCall::selector(), [44, 112, 18, 105]);
    assert_eq!(LightClientCall::selector(), [181, 112, 14, 104]);
    assert_eq!(LookupNodeCall::selector(), [42, 221, 161, 193]);
    assert_eq!(LookupStakeCall::selector(), [221, 46, 211, 236]);
    assert_eq!(MaxChurnRateCall::selector(), [33, 191, 213, 21]);
    assert_eq!(NextExitEpochCall::selector(), [59, 9, 194, 103]);
    assert_eq!(NextRegistrationEpochCall::selector(), [44, 83, 5, 132]);
    assert_eq!(NodesCall::selector(), [216, 110, 105, 125]);
    assert_eq!(NumPendingExitsCall::selector(), [214, 123, 108, 165]);
    assert_eq!(NumPendingRegistrationsCall::selector(), [22, 254, 254, 215]);
    assert_eq!(RegisterCall::selector(), [199, 44, 199, 23]);
    assert_eq!(RequestExitCall::selector(), [74, 167, 194, 127]);
    assert_eq!(TokenAddressCall::selector(), [157, 118, 234, 88]);
    assert_eq!(TotalKeysCall::selector(), [72, 139, 218, 188]);
    assert_eq!(TotalNativeStakeCall::selector(), [84, 76, 45, 118]);
    assert_eq!(TotalRestakedStakeCall::selector(), [110, 142, 78, 106]);
    assert_eq!(TotalStakeCall::selector(), [139, 14, 159, 63]);
    assert_eq!(TotalVotingStakeCall::selector(), [67, 23, 208, 11]);
    assert_eq!(WithdrawFundsCall::selector(), [12, 36, 175, 24]);
}

#[test]
fn error_selectors_are_the_digests_of_the_signatures() {
    assert_eq!(BLSSigVerificationFailed::selector(), id(BLSSigVerificationFailed::abi_signature()));
    assert_eq!(BLSSigVerificationFailed::abi_signature(), "BLSSigVerificationFailed()");
    assert_eq!(BLSSigVerificationFailed::error_name(), "BLSSigVerificationFailed");
    assert_eq!(ExitRequestInProgress::selector(), id(ExitRequestInProgress::abi_signature()));
    assert_eq!(ExitRequestInProgress::abi_signature(), "ExitRequestInProgress()");
    assert_eq!(ExitRequestInProgress::error_name(), "ExitRequestInProgress");
    assert_eq!(InvalidNextRegistrationEpoch::selector(), id(InvalidNextRegistrationEpoch::abi_signature()));
    assert_eq!(InvalidNextRegistrationEpoch::abi_signature(), "InvalidNextRegistrationEpoch(uint64,uint64)");
    assert_eq!(InvalidNextRegistrationEpoch::error_name(), "InvalidNextRegistrationEpoch");
    assert_eq!(NodeAlreadyRegistered::selector(), id(NodeAlreadyRegistered::abi_signature()));
    assert_eq!(NodeAlreadyRegistered::abi_signature(), "NodeAlreadyRegistered()");
    assert_eq!(NodeAlreadyRegistered::error_name(), "NodeAlreadyRegistered");
    assert_eq!(PrematureDeposit::selector(), id(PrematureDeposit::abi_signature()));
    assert_eq!(PrematureDeposit::abi_signature(), "PrematureDeposit()");
    assert_eq!(PrematureDeposit::error_name(), "PrematureDeposit");
    assert_eq!(PrematureExit::selector(), id(PrematureExit::abi_signature()));
    assert_eq!(PrematureExit::abi_signature(), "PrematureExit()");
    assert_eq!(PrematureExit::error_name(), "PrematureExit");
    assert_eq!(PrematureWithdrawal::selector(), id(PrematureWithdrawal::abi_signature()));
    assert_eq!(PrematureWithdrawal::abi_signature(), "PrematureWithdrawal()");
    assert_eq!(PrematureWithdrawal::error_name(), "PrematureWithdrawal");
    assert_eq!(RestakingNotImplemented::selector(), id(RestakingNotImplemented::abi_signature()));
    assert_eq!(RestakingNotImplemented::abi_signature(), "RestakingNotImplemented()");
    assert_eq!(RestakingNotImplemented::error_name(), "RestakingNotImplemented");
    assert_eq!(Unauthenticated::selector(), id(Unauthenticated::abi_signature()));
    assert_eq!(Unauthenticated::abi_signature(), "Unauthenticated()");
    assert_eq!(Unauthenticated::error_name(), "Unauthenticated");
}

#[test]
fn call_without_input_is_its_selector() {
    assert_eq!(CurrentEpochCall.encode(), vec![0x76, 0x67, 0x18, 0x08]);
    assert_eq!(CurrentEpochCall::decode(&[0x76, 0x67, 0x18, 0x08]), Ok(CurrentEpochCall));
    assert_eq!(CurrentEpochCall::decode(&[0x76, 0x67, 0x18, 0x08, 1, 2, 3]), Ok(CurrentEpochCall));
    assert_eq!(CurrentEpochCall::decode(&[0x76, 0x67, 0x18]), Err(AbiError::WrongSelector));
    assert_eq!(CurrentEpochCall::decode(&[0x76, 0x67, 0x18, 0x09]), Err(AbiError::WrongSelector));
    assert_eq!(CurrentEpochCall::decode(&[]), Err(AbiError::WrongSelector));
}

#[test]
fn deposit_call_data_agrees_with_the_abi_encoder() {
    let call = DepositCall { bls_vk: g2(1), amount: 0x0102030405060708 };
    let expected = with_selector(
        [0x77, 0x1f, 0x6f, 0x44],
        &[g2_token(&call.bls_vk), Token::Uint(call.amount.into())],
    );
    let data = call.encode();
    assert_eq!(data, expected);
    assert_eq!(data.len(), 4 + 5 * 32);
    assert_eq!(&data[4..36], &call.bls_vk.x_0.0);
    assert_eq!(&data[4 + 4 * 32 + 24..], &[1, 2, 3, 4, 5, 6, 7, 8]);
    assert_eq!(DepositCall::decode(&data), Ok(call));
}

#[test]
fn register_call_data_agrees_with_the_abi_encoder() {
    let call = RegisterCall {
        bls_vk: g2(1),
        schnorr_vk: EdOnBN254Point { x: u256(9), y: u256(10) },
        amount: 77,
        stake_type: 1,
        bls_sig: G1Point { x: u256(20), y: u256(21) },
        valid_until_epoch: u64::MAX,
    };
    let expected = with_selector(
        id("register((uint256,uint256,uint256,uint256),(uint256,uint256),uint64,uint8,(uint256,uint256),uint64)"),
        &[
            g2_token(&call.bls_vk),
            Token::Tuple(vec![uint(&call.schnorr_vk.x), uint(&call.schnorr_vk.y)]),
            Token::Uint(call.amount.into()),
            Token::Uint(call.stake_type.into()),
            Token::Tuple(vec![uint(&call.bls_sig.x), uint(&call.bls_sig.y)]),
            Token::Uint(call.valid_until_epoch.into()),
        ],
    );
    assert_eq!(call.encode(), expected);
    assert_eq!(call.encode().len(), 4 + 11 * 32);
    assert_eq!(RegisterCall::decode(&expected), Ok(call));
    assert_eq!(RegisterCall::decode(&expected[..expected.len() - 1]), Err(AbiError::InvalidData));
}

#[test]
fn node_input_agrees_with_the_abi_encoder() {
    let call = ExitEscrowPeriodCall { node: node() };
    let expected = with_selector(ExitEscrowPeriodCall::selector(), &[node_token(&call.node)]);
    assert_eq!(call.encode(), expected);
    assert_eq!(expected.len(), 4 + 7 * 32);
    assert_eq!(ExitEscrowPeriodCall::decode(&expected), Ok(call));
}

#[test]
fn bytes32_input_agrees_with_the_abi_encoder() {
    let call = NodesCall { key_hash: [0xabu8; 32] };
    let expected = with_selector(NodesCall::selector(), &[Token::FixedBytes(vec![0xab; 32])]);
    assert_eq!(call.encode(), expected);
    assert_eq!(NodesCall::decode(&expected), Ok(call));
    assert_eq!(call.encode(), AbiEncode::encode([0xabu8; 32]).iter().fold(
        NodesCall::selector().to_vec(),
        |mut acc, b| {
            acc.push(*b);
            acc
        },
    ));
}

#[test]
fn decoding_a_call_ignores_what_follows_the_input() {
    let call = DepositCall { bls_vk: g2(3), amount: 5 };
    let mut data = call.encode();
    data.extend_from_slice(&[1, 2, 3]);
    assert_eq!(DepositCall::decode(&data), Ok(call));
}

#[test]
fn decoding_a_call_fails_on_short_or_foreign_data() {
    let data = DepositCall { bls_vk: g2(3), amount: 5 }.encode();
    assert_eq!(DepositCall::decode(&data[..data.len() - 1]), Err(AbiError::InvalidData));
    assert_eq!(DepositCall::decode(&data[..4]), Err(AbiError::InvalidData));
    assert_eq!(DepositCall::decode(&data[..3]), Err(AbiError::WrongSelector));
    assert_eq!(LookupStakeCall::decode(&data), Err(AbiError::WrongSelector));
}

#[test]
fn decoding_an_amount_keeps_its_low_eight_bytes() {
    let mut data = DepositCall { bls_vk: g2(3), amount: 0x0a0b }.encode();
    let amount_word = 4 + 4 * 32;
    data[amount_word] = 0xff;
    data[amount_word + 23] = 0x01;
    assert_eq!(DepositCall::decode(&data).unwrap().amount, 0x0a0b);
}

fn every_call() -> Vec<StakeTableCalls> {
    vec![
        StakeTableCalls::HashBlsKey(HashBlsKeyCall { bls_vk: g2(1) }),
        StakeTableCalls::CurrentEpoch(CurrentEpochCall),
        StakeTableCalls::Deposit(DepositCall { bls_vk: g2(2), amount: 3 }),
        StakeTableCalls::ExitEscrowPeriod(ExitEscrowPeriodCall { node: node() }),
        StakeTableCalls::FirstAvailableExitEpoch(FirstAvailableExitEpochCall),
        StakeTableCalls::FirstAvailableRegistrationEpoch(FirstAvailableRegistrationEpochCall),
        StakeTableCalls::LightClient(LightClientCall),
        StakeTableCalls::LookupNode(LookupNodeCall { bls_vk: g2(4) }),
        StakeTableCalls::LookupStake(LookupStakeCall { bls_vk: g2(5) }),
        StakeTableCalls::MaxChurnRate(MaxChurnRateCall),
        StakeTableCalls::NextExitEpoch(NextExitEpochCall),
        StakeTableCalls::NextRegistrationEpoch(NextRegistrationEpochCall),
        StakeTableCalls::Nodes(NodesCall { key_hash: [7u8; 32] }),
        StakeTableCalls::NumPendingExits(NumPendingExitsCall),
        StakeTableCalls::NumPendingRegistrations(NumPendingRegistrationsCall),
        StakeTableCalls::Register(RegisterCall { bls_vk: g2(6), schnorr_vk: EdOnBN254Point { x: u256(7), y: u256(8) }, amount: 9, stake_type: 0, bls_sig: G1Point { x: u256(10), y: u256(11) }, valid_until_epoch: 12 }),
        StakeTableCalls::RequestExit(RequestExitCall { bls_vk: g2(13) }),
        StakeTableCalls::TokenAddress(TokenAddressCall),
        StakeTableCalls::TotalKeys(TotalKeysCall),
        StakeTableCalls::TotalNativeStake(TotalNativeStakeCall),
        StakeTableCalls::TotalRestakedStake(TotalRestakedStakeCall),
        StakeTableCalls::TotalStake(TotalStakeCall),
        StakeTableCalls::TotalVotingStake(TotalVotingStakeCall),
        StakeTableCalls::WithdrawFunds(WithdrawFundsCall { bls_vk: g2(14) }),
    ]
}

#[test]
fn every_call_is_read_back_from_its_call_data() {
    let calls = every_call();
    assert_eq!(calls.len(), 24);
    for call in calls {
        let data = call.encode();
        assert_eq!(StakeTableCalls::decode(&data), Ok(call), "{:?}", call);
    }
}

#[test]
fn unknown_call_data_is_invalid() {
    assert_eq!(StakeTableCalls::decode(&[]), Err(AbiError::InvalidData));
    assert_eq!(StakeTableCalls::decode(&[1, 2, 3]), Err(AbiError::InvalidData));
    assert_eq!(StakeTableCalls::decode(&[0xde, 0xad, 0xbe, 0xef]), Err(AbiError::InvalidData));
    let data = DepositCall { bls_vk: g2(2), amount: 3 }.encode();
    assert_eq!(StakeTableCalls::decode(&data[..data.len() - 1]), Err(AbiError::InvalidData));
    assert_eq!(
        StakeTableCalls::decode(&[0x76, 0x67, 0x18, 0x08]),
        Ok(StakeTableCalls::CurrentEpoch(CurrentEpochCall))
    );
}

#[test]
fn call_selectors_are_pairwise_different() {
    let calls = every_call();
    for (i, a) in calls.iter().enumerate() {
        for (j, b) in calls.iter().enumerate() {
            if i != j {
                assert_ne!(&a.encode()[..4], &b.encode()[..4]);
            }
        }
    }
}

#[test]
fn outputs_are_read_from_return_data() {
    let data = encode(&[Token::Uint(42u64.into())]);
    assert_eq!(CurrentEpochReturn::decode(&data), Ok(CurrentEpochReturn(42)));
    assert_eq!(CurrentEpochReturn(42).encode(), data);
    assert_eq!(CurrentEpochReturn::decode(&data[..31]), Err(AbiError::InvalidData));
    assert_eq!(CurrentEpochReturn::decode(&[]), Err(AbiError::InvalidData));
    assert_eq!(u64::decode(&data).unwrap(), 42);

    let data = encode(&[Token::Uint(1u64.into()), Token::Uint(2u64.into())]);
    assert_eq!(DepositReturn::decode(&data), Ok(DepositReturn(1, 2)));
    assert_eq!(DepositReturn::decode(&data[..63]), Err(AbiError::InvalidData));

    let data = encode(&[Token::Address(H160([9; 20]))]);
    assert_eq!(LightClientReturn::decode(&data), Ok(LightClientReturn(Address([9; 20]))));

    let data = encode(&[Token::Uint(0xfedcba98u32.into())]);
    assert_eq!(TotalKeysReturn::decode(&data), Ok(TotalKeysReturn(0xfedcba98)));

    let data = encode(&[uint(&u256(1)), uint(&u256(2))]);
    assert_eq!(TotalStakeReturn::decode(&data), Ok(TotalStakeReturn(u256(1), u256(2))));
    assert_eq!(TotalStakeReturn(u256(1), u256(2)).encode(), data);
}

#[test]
fn node_outputs_are_read_from_return_data() {
    let n = node();
    let data = encode(&[node_token(&n)]);
    assert_eq!(data.len(), 7 * 32);
    assert_eq!(LookupNodeReturn::decode(&data), Ok(LookupNodeReturn(n)));
    assert_eq!(LookupNodeReturn(n).encode(), data);
    let expected = NodesReturn {
        account: n.account,
        stake_type: n.stake_type,
        balance: n.balance,
        register_epoch: n.register_epoch,
        exit_epoch: n.exit_epoch,
        schnorr_vk: n.schnorr_vk,
    };
    assert_eq!(NodesReturn::decode(&data), Ok(expected));
    assert_eq!(NodesReturn::decode(&data[..data.len() - 1]), Err(AbiError::InvalidData));
}

#[test]
fn custom_errors_are_read_from_revert_data() {
    assert_eq!(Unauthenticated.encode(), vec![0xc8, 0x75, 0x9c, 0x17]);
    assert_eq!(
        StakeTableErrors::decode(&[0xc8, 0x75, 0x9c, 0x17]),
        Ok(StakeTableErrors::Unauthenticated(Unauthenticated))
    );
    assert_eq!(
        StakeTableErrors::decode(&PrematureExit.encode()),
        Ok(StakeTableErrors::PrematureExit(PrematureExit))
    );
    let err = InvalidNextRegistrationEpoch(5, 9);
    let data = err.encode();
    assert_eq!(
        data,
        with_selector(
            [0x43, 0xbf, 0x17, 0x86],
            &[Token::Uint(5u64.into()), Token::Uint(9u64.into())]
        )
    );
    assert_eq!(InvalidNextRegistrationEpoch::decode(&data), Ok(err));
    assert_eq!(
        StakeTableErrors::decode(&data),
        Ok(StakeTableErrors::InvalidNextRegistrationEpoch(err))
    );
    assert_eq!(InvalidNextRegistrationEpoch::decode(&data[..67]), Err(AbiError::InvalidData));
    assert_eq!(StakeTableErrors::decode(&data[..67]), Err(AbiError::InvalidData));
    assert_eq!(StakeTableErrors::decode(&[]), Err(AbiError::InvalidData));
    assert_eq!(StakeTableErrors::decode(&[1, 2, 3, 4]), Err(AbiError::InvalidData));
}

#[test]
fn every_custom_error_is_read_back() {
    let errors = vec![
        StakeTableErrors::BLSSigVerificationFailed(BLSSigVerificationFailed),
        StakeTableErrors::ExitRequestInProgress(ExitRequestInProgress),
        StakeTableErrors::InvalidNextRegistrationEpoch(InvalidNextRegistrationEpoch(1, 2)),
        StakeTableErrors::NodeAlreadyRegistered(NodeAlreadyRegistered),
        StakeTableErrors::PrematureDeposit(PrematureDeposit),
        StakeTableErrors::PrematureExit(PrematureExit),
        StakeTableErrors::PrematureWithdrawal(PrematureWithdrawal),
        StakeTableErrors::RestakingNotImplemented(RestakingNotImplemented),
        StakeTableErrors::Unauthenticated(Unauthenticated),
    ];
    for err in errors {
        let data = err.encode();
        assert_eq!(StakeTableErrors::decode(&data), Ok(err));
    }
}

#[test]
fn revert_text_is_read_from_its_encoding() {
    let data = AbiEncode::encode("stake too low".to_string());
    assert_eq!(
        StakeTableErrors::decode(&data),
        Ok(StakeTableErrors::RevertString("stake too low".to_string()))
    );
    let err = StakeTableErrors::RevertString("stake too low".to_string());
    assert_eq!(err.encode(), data);
    assert_ne!(err.encode(), b"stake too low".to_vec());
    assert_eq!(
        StakeTableErrors::decode(&AbiEncode::encode(String::new())),
        Ok(StakeTableErrors::RevertString(String::new()))
    );
}

#[test]
fn given_revert_text_wins_over_custom_errors() {
    let data = Unauthenticated.encode();
    assert_eq!(
        StakeTableErrors::decode_with(&data, Some("text".to_string())),
        Ok(StakeTableErrors::RevertString("text".to_string()))
    );
    assert_eq!(
        StakeTableErrors::decode_with(&data, None),
        Ok(StakeTableErrors::Unauthenticated(Unauthenticated))
    );
    assert_eq!(StakeTableErrors::decode_with(&[9, 9], None), Err(AbiError::InvalidData));
}

#[test]
fn valid_selectors_are_those_of_the_errors_and_of_the_plain_revert() {
    assert!(StakeTableErrors::valid_selector([0x08, 0xc3, 0x79, 0xa0]));
    assert_eq!(id("Error(string)"), [0x08, 0xc3, 0x79, 0xa0]);

    assert!(StakeTableErrors::valid_selector(BLSSigVerificationFailed::selector()));
    assert!(StakeTableErrors::valid_selector(ExitRequestInProgress::selector()));
    assert!(StakeTableErrors::valid_selector(InvalidNextRegistrationEpoch::selector()));
    assert!(StakeTableErrors::valid_selector(NodeAlreadyRegistered::selector()));
    assert!(StakeTableErrors::valid_selector(PrematureDeposit::selector()));
    assert!(StakeTableErrors::valid_selector(PrematureExit::selector()));
    assert!(StakeTableErrors::valid_selector(PrematureWithdrawal::selector()));
    assert!(StakeTableErrors::valid_selector(RestakingNotImplemented::selector()));
    assert!(StakeTableErrors::valid_selector(Unauthenticated::selector()));
    assert!(!StakeTableErrors::valid_selector([0, 0, 0, 0]));
    assert!(!StakeTableErrors::valid_selector([0x08, 0xc3, 0x79, 0xa1]));
    assert!(!StakeTableErrors::valid_selector(DepositCall::selector()));
    assert!(same_selector(&[1, 2, 3, 4], &[1, 2, 3, 4]));
    assert!(!same_selector(&[1, 2, 3, 4], &[1, 2, 3, 5]));
}

#[test]
fn event_topics_are_the_digests_of_the_signatures() {
    assert_eq!(DepositFilter::abi_signature(), "Deposit(bytes32,uint256)");
    assert_eq!(ExitFilter::abi_signature(), "Exit(bytes32,uint64)");
    assert_eq!(RegisteredFilter::abi_signature(), "Registered(bytes32,uint64,uint8,uint256)");
    assert_eq!(DepositFilter::name(), "Deposit");
    assert_eq!(ExitFilter::name(), "Exit");
    assert_eq!(RegisteredFilter::name(), "Registered");
    assert_eq!(DepositFilter::signature(), keccak256("Deposit(bytes32,uint256)"));
    assert_eq!(ExitFilter::signature(), keccak256("Exit(bytes32,uint64)"));
    assert_eq!(
        RegisteredFilter::signature(),
        keccak256("Registered(bytes32,uint64,uint8,uint256)")
    );
    assert_ne!(&DepositFilter::signature()[..24], b"Deposit(bytes32,uint256)");
}

#[test]
fn events_are_read_from_logs() {
    let event = RegisteredFilter {
        bls_v_khash: [4u8; 32],
        register_epoch: 17,
        stake_type: 1,
        amount_deposited: u256(3),
    };
    let data = encode(&[
        Token::FixedBytes(vec![4; 32]),
        Token::Uint(17u64.into()),
        Token::Uint(1u8.into()),
        uint(&u256(3)),
    ]);
    let log = RawLog { topics: vec![RegisteredFilter::signature()], data: data.clone() };
    assert_eq!(RegisteredFilter::decode_log(&log), Ok(event));
    assert_eq!(StakeTableEvents::decode_log(&log), Ok(StakeTableEvents::RegisteredFilter(event)));
    assert_eq!(DepositFilter::decode_log(&log), Err(AbiError::InvalidData));
    assert_eq!(ExitFilter::decode_log(&log), Err(AbiError::InvalidData));

    let deposit = RawLog { topics: vec![DepositFilter::signature()], data: data.clone() };
    assert_eq!(
        StakeTableEvents::decode_log(&deposit),
        Ok(StakeTableEvents::DepositFilter(DepositFilter {
            bls_v_khash: [4u8; 32],
            amount: U256(sequencer::abi::encode_u64(17)),
        }))
    );
    let exit = RawLog { topics: vec![ExitFilter::signature()], data };
    assert_eq!(
        StakeTableEvents::decode_log(&exit),
        Ok(StakeTableEvents::ExitFilter(ExitFilter { bls_v_khash: [4u8; 32], exit_epoch: 17 }))
    );
}

#[test]
fn logs_of_other_shapes_are_invalid() {
    let data = encode(&[Token::FixedBytes(vec![4; 32]), Token::Uint(17u64.into())]);
    let topic = ExitFilter::signature();
    let good = RawLog { topics: vec![topic], data: data.clone() };
    assert!(ExitFilter::decode_log(&good).is_ok());
    let none = RawLog { topics: vec![], data: data.clone() };
    assert_eq!(ExitFilter::decode_log(&none), Err(AbiError::InvalidData));
    assert_eq!(StakeTableEvents::decode_log(&none), Err(AbiError::InvalidData));
    let two = RawLog { topics: vec![topic, [0u8; 32]], data: data.clone() };
    assert_eq!(ExitFilter::decode_log(&two), Err(AbiError::InvalidData));
    let short = RawLog { topics: vec![topic], data: data[..63].to_vec() };
    assert_eq!(ExitFilter::decode_log(&short), Err(AbiError::InvalidData));
    let foreign = RawLog { topics: vec![[1u8; 32]], data };
    assert_eq!(StakeTableEvents::decode_log(&foreign), Err(AbiError::InvalidData));
}

#[test]
fn calls_go_to_the_address_of_the_contract() {
    let table = table();
    assert_eq!(table.address(), Address([0x5a; 20]));
    assert_eq!(
        table.current_epoch(),
        ContractCall { to: Address([0x5a; 20]), data: vec![118, 103, 24, 8] }
    );
    let call = table.deposit(g2(1), 9);
    assert_eq!(call.to, Address([0x5a; 20]));
    assert_eq!(call.data, DepositCall { bls_vk: g2(1), amount: 9 }.encode());
    assert_eq!(&call.data[..4], &[119, 31, 111, 68]);
}

#[test]
fn each_method_prepares_the_call_of_its_function() {
    let t = table();
    let vk = g2(1);
    let schnorr = EdOnBN254Point { x: u256(7), y: u256(8) };
    let sig = G1Point { x: u256(10), y: u256(11) };
    let prepared = vec![
        t.hash_bls_key(vk),
        t.current_epoch(),
        t.deposit(vk, 3),
        t.exit_escrow_period(node()),
        t.first_available_exit_epoch(),
        t.first_available_registration_epoch(),
        t.light_client(),
        t.lookup_node(vk),
        t.lookup_stake(vk),
        t.max_churn_rate(),
        t.next_exit_epoch(),
        t.next_registration_epoch(),
        t.nodes([7u8; 32]),
        t.num_pending_exits(),
        t.num_pending_registrations(),
        t.register(vk, schnorr, 9, 0, sig, 12),
        t.request_exit(vk),
        t.token_address(),
        t.total_keys(),
        t.total_native_stake(),
        t.total_restaked_stake(),
        t.total_stake(),
        t.total_voting_stake(),
        t.withdraw_funds(vk),
    ];
    let selectors: [[u8; 4]; 24] = [
        [155, 48, 165, 230],
        [118, 103, 24, 8],
        [119, 31, 111, 68],
        [200, 76, 127, 161],
        [16, 158, 59, 227],
        [44, 112, 18, 105],
        [181, 112, 14, 104],
        [42, 221, 161, 193],
        [221, 46, 211, 236],
        [33, 191, 213, 21],
        [59, 9, 194, 103],
        [44, 83, 5, 132],
        [216, 110, 105, 125],
        [214, 123, 108, 165],
        [22, 254, 254, 215],
        [199, 44, 199, 23],
        [74, 167, 194, 127],
        [157, 118, 234, 88],
        [72, 139, 218, 188],
        [84, 76, 45, 118],
        [110, 142, 78, 106],
        [139, 14, 159, 63],
        [67, 23, 208, 11],
        [12, 36, 175, 24],
    ];
    for (call, selector) in prepared.iter().zip(selectors.iter()) {
        assert_eq!(call.to, t.address());
        assert_eq!(&call.data[..4], selector);
        assert!(StakeTableCalls::decode(&call.data).is_ok());
    }
    assert_eq!(
        StakeTableCalls::decode(&prepared[15].data),
        Ok(StakeTableCalls::Register(RegisterCall {
            bls_vk: vk,
            schnorr_vk: schnorr,
            amount: 9,
            stake_type: 0,
            bls_sig: sig,
            valid_until_epoch: 12,
        }))
    );
}

#[test]
fn deployment_data_is_code_then_constructor_arguments() {
    let code = vec![0x60, 0x80, 0x60, 0x40];
    let data = StakeTable::deploy(&code, Address([1; 20]), Address([2; 20]), 20);
    let mut expected = code.clone();
    expected.extend_from_slice(&encode(&[
        Token::Address(H160([1; 20])),
        Token::Address(H160([2; 20])),
        Token::Uint(20u64.into()),
    ]));
    assert_eq!(data, expected);
    assert_eq!(data.len(), 4 + 96);
    assert_eq!(StakeTable::deploy(&[], Address([1; 20]), Address([2; 20]), 20).len(), 96);
}

#[test]
fn filters_ask_for_the_logs_of_the_contract() {
    let t = table();
    assert_eq!(t.deposit_filter().address, t.address());
    assert_eq!(t.deposit_filter().topic0, Some(keccak256("Deposit(bytes32,uint256)")));
    assert_eq!(t.exit_filter().topic0, Some(keccak256("Exit(bytes32,uint64)")));
    assert_eq!(
        t.registered_filter().topic0,
        Some(keccak256("Registered(bytes32,uint64,uint8,uint256)"))
    );
    assert_eq!(t.events().address, t.address());
    assert_eq!(t.events().topic0, None);
}

#[test]
fn key_hash_output_is_one_bytes32_word() {
    let data = encode(&[Token::FixedBytes(vec![0x5c; 32])]);
    assert_eq!(HashBlsKeyReturn::decode(&data), Ok(HashBlsKeyReturn([0x5c; 32])));
    assert_eq!(HashBlsKeyReturn([0x5c; 32]).encode(), data);
    assert_eq!(HashBlsKeyReturn::decode(&data[..31]), Err(AbiError::InvalidData));
    assert_eq!(<[u8; 32]>::decode(&data).unwrap(), [0x5c; 32]);
    let call = table().hash_bls_key(g2(1));
    assert_eq!(call.data.len(), 4 + 4 * 32);
    assert_eq!(&call.data[..4], &[0x9b, 0x30, 0xa5, 0xe6]);
}

#[test]
fn values_convert_into_the_sums() {
    assert_eq!(
        StakeTableCalls::from(CurrentEpochCall),
        StakeTableCalls::CurrentEpoch(CurrentEpochCall)
    );
    let call = DepositCall { bls_vk: g2(1), amount: 2 };
    assert_eq!(StakeTableCalls::from(call), StakeTableCalls::Deposit(call));
    let wrapped: StakeTableCalls = NodesCall { key_hash: [1; 32] }.into();
    assert_eq!(wrapped, StakeTableCalls::Nodes(NodesCall { key_hash: [1; 32] }));
    assert_eq!(
        StakeTableErrors::from(InvalidNextRegistrationEpoch(1, 2)),
        StakeTableErrors::InvalidNextRegistrationEpoch(InvalidNextRegistrationEpoch(1, 2))
    );
    assert_eq!(
        StakeTableErrors::from("reason".to_string()),
        StakeTableErrors::RevertString("reason".to_string())
    );
    let event = ExitFilter { bls_v_khash: [2; 32], exit_epoch: 3 };
    assert_eq!(StakeTableEvents::from(event), StakeTableEvents::ExitFilter(event));
}

#[test]
fn decoding_a_text_reads_it_on_this_machine() {
    let data = AbiEncode::encode("late".to_string());
    assert_eq!(sequencer::abi::decode_string(&data), Some("late".to_string()));
    assert_eq!(sequencer::abi::decode_string(&[1, 2, 3]), None);
    assert_eq!(sequencer::abi::decode_string(&[]), None);
    assert!(sequencer::abi::MAX_WORDS == 1 << 27);
    assert!(sequencer::abi::MAX_TEXT_LEN < 1 << 30);
}
