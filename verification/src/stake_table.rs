//! The stake table contract as seen from a client: what to send to the
//! contract to call each of its functions, and how to ask for its events.
//!
//! A call is prepared here as plain values, the address to send to and the
//! call data. Sending it, and waiting for what comes back, is left to the
//! caller.

use vstd::prelude::*;
use crate::abi::{
    abi_encode_words, address_word, concat_words, encode_address, encode_u64, push_word, u64_word,
    Address,
};
use crate::bytes::copy_bytes;
use crate::shared_types::{EdOnBN254Point, G1Point, G2Point, Node};
use crate::stake_table_calls::{
    CurrentEpochCall, DepositCall, ExitEscrowPeriodCall, FirstAvailableExitEpochCall,
    FirstAvailableRegistrationEpochCall, HashBlsKeyCall, LightClientCall,
    LookupNodeCall, LookupStakeCall, MaxChurnRateCall, NextExitEpochCall,
    NextRegistrationEpochCall, NodesCall, NumPendingExitsCall,
    NumPendingRegistrationsCall, RegisterCall, RequestExitCall, TokenAddressCall,
    TotalKeysCall, TotalNativeStakeCall, TotalRestakedStakeCall, TotalStakeCall,
    TotalVotingStakeCall, WithdrawFundsCall,
};
use crate::stake_table_events::{DepositFilter, ExitFilter, RegisteredFilter};

verus! {

/// A call of a contract function, ready to be sent.
#[derive(Debug, PartialEq, Eq, Hash)]
pub struct ContractCall {
    /// The contract to call.
    pub to: Address,
    /// The call data: selector and input.
    pub data: Vec<u8>,
}

/// A request for the logs of a contract.
#[derive(Clone, Copy, Debug, PartialEq, Eq, Hash)]
pub struct EventFilter {
    /// The contract whose logs are asked for.
    pub address: Address,
    /// The first topic that a log must have, if only one event is asked
    /// for.
    pub topic0: Option<[u8; 32]>,
}

/// The stake table contract at one address.
#[derive(Clone, Copy, Debug, PartialEq, Eq, Hash)]
pub struct StakeTable {
    address: Address,
}

impl StakeTable {
    /// The address of the contract.
    pub closed spec fn spec_address(&self) -> Address {
        self.address
    }

    /// The contract at `address`.
    pub fn new(address: Address) -> (table: StakeTable)
        ensures
            table.spec_address() == address,
    {
        StakeTable { address }
    }

    /// The address of the contract.
    pub fn address(&self) -> (address: Address)
        ensures
            address == self.spec_address(),
    {
        self.address
    }

    /// The data of the transaction that deploys the contract: the creation
    /// code `bytecode`, then the words of the three constructor arguments.
    pub fn deploy(
        bytecode: &[u8],
        token_address: Address,
        light_client_address: Address,
        churn_rate: u64,
    ) -> (data: Vec<u8>)
        ensures
            data@ == bytecode@ + address_word(token_address@) + address_word(
                light_client_address@,
            ) + u64_word(churn_rate),
    {
        let mut words: Vec<[u8; 32]> = Vec::new();
        assert(concat_words(words@) =~= Seq::<u8>::empty());
        push_word(&mut words, encode_address(&token_address));
        push_word(&mut words, encode_address(&light_client_address));
        push_word(&mut words, encode_u64(churn_rate));
        let mut arguments = abi_encode_words(&words);
        let mut data = copy_bytes(bytecode);
        data.append(&mut arguments);
        assert(data@ =~= bytecode@ + address_word(token_address@) + address_word(
            light_client_address@,
        ) + u64_word(churn_rate));
        data
    }

    /// A call of the contract function `_hashBlsKey`.
    pub fn hash_bls_key(&self, bls_vk: G2Point) -> (call: ContractCall)
        ensures
            call.to == self.spec_address(),
            call.data@ == (HashBlsKeyCall { bls_vk }).call_data(),
    {
        let input = HashBlsKeyCall { bls_vk };
        ContractCall { to: self.address, data: input.encode() }
    }

    /// A call of the contract function `currentEpoch`.
    pub fn current_epoch(&self) -> (call: ContractCall)
        ensures
            call.to == self.spec_address(),
            call.data@ == CurrentEpochCall.call_data(),
    {
        ContractCall { to: self.address, data: CurrentEpochCall.encode() }
    }

    /// A call of the contract function `deposit`.
    pub fn deposit(&self, bls_vk: G2Point, amount: u64) -> (call: ContractCall)
        ensures
            call.to == self.spec_address(),
            call.data@ == (DepositCall { bls_vk, amount }).call_data(),
    {
        let input = DepositCall { bls_vk, amount };
        ContractCall { to: self.address, data: input.encode() }
    }

    /// A call of the contract function `exitEscrowPeriod`.
    pub fn exit_escrow_period(&self, node: Node) -> (call: ContractCall)
        ensures
            call.to == self.spec_address(),
            call.data@ == (ExitEscrowPeriodCall { node }).call_data(),
    {
        let input = ExitEscrowPeriodCall { node };
        ContractCall { to: self.address, data: input.encode() }
    }

    /// A call of the contract function `firstAvailableExitEpoch`.
    pub fn first_available_exit_epoch(&self) -> (call: ContractCall)
        ensures
            call.to == self.spec_address(),
            call.data@ == FirstAvailableExitEpochCall.call_data(),
    {
        ContractCall { to: self.address, data: FirstAvailableExitEpochCall.encode() }
    }

    /// A call of the contract function `firstAvailableRegistrationEpoch`.
    pub fn first_available_registration_epoch(&self) -> (call: ContractCall)
        ensures
            call.to == self.spec_address(),
            call.data@ == FirstAvailableRegistrationEpochCall.call_data(),
    {
        ContractCall { to: self.address, data: FirstAvailableRegistrationEpochCall.encode() }
    }

    /// A call of the contract function `lightClient`.
    pub fn light_client(&self) -> (call: ContractCall)
        ensures
            call.to == self.spec_address(),
            call.data@ == LightClientCall.call_data(),
    {
        ContractCall { to: self.address, data: LightClientCall.encode() }
    }

    /// A call of the contract function `lookupNode`.
    pub fn lookup_node(&self, bls_vk: G2Point) -> (call: ContractCall)
        ensures
            call.to == self.spec_address(),
            call.data@ == (LookupNodeCall { bls_vk }).call_data(),
    {
        let input = LookupNodeCall { bls_vk };
        ContractCall { to: self.address, data: input.encode() }
    }

    /// A call of the contract function `lookupStake`.
    pub fn lookup_stake(&self, bls_vk: G2Point) -> (call: ContractCall)
        ensures
            call.to == self.spec_address(),
            call.data@ == (LookupStakeCall { bls_vk }).call_data(),
    {
        let input = LookupStakeCall { bls_vk };
        ContractCall { to: self.address, data: input.encode() }
    }

    /// A call of the contract function `maxChurnRate`.
    pub fn max_churn_rate(&self) -> (call: ContractCall)
        ensures
            call.to == self.spec_address(),
            call.data@ == MaxChurnRateCall.call_data(),
    {
        ContractCall { to: self.address, data: MaxChurnRateCall.encode() }
    }

    /// A call of the contract function `nextExitEpoch`.
    pub fn next_exit_epoch(&self) -> (call: ContractCall)
        ensures
            call.to == self.spec_address(),
            call.data@ == NextExitEpochCall.call_data(),
    {
        ContractCall { to: self.address, data: NextExitEpochCall.encode() }
    }

    /// A call of the contract function `nextRegistrationEpoch`.
    pub fn next_registration_epoch(&self) -> (call: ContractCall)
        ensures
            call.to == self.spec_address(),
            call.data@ == NextRegistrationEpochCall.call_data(),
    {
        ContractCall { to: self.address, data: NextRegistrationEpochCall.encode() }
    }

    /// A call of the contract function `nodes`.
    pub fn nodes(&self, key_hash: [u8; 32]) -> (call: ContractCall)
        ensures
            call.to == self.spec_address(),
            call.data@ == (NodesCall { key_hash }).call_data(),
    {
        let input = NodesCall { key_hash };
        ContractCall { to: self.address, data: input.encode() }
    }

    /// A call of the contract function `numPendingExits`.
    pub fn num_pending_exits(&self) -> (call: ContractCall)
        ensures
            call.to == self.spec_address(),
            call.data@ == NumPendingExitsCall.call_data(),
    {
        ContractCall { to: self.address, data: NumPendingExitsCall.encode() }
    }

    /// A call of the contract function `numPendingRegistrations`.
    pub fn num_pending_registrations(&self) -> (call: ContractCall)
        ensures
            call.to == self.spec_address(),
            call.data@ == NumPendingRegistrationsCall.call_data(),
    {
        ContractCall { to: self.address, data: NumPendingRegistrationsCall.encode() }
    }

    /// A call of the contract function `register`.
    pub fn register(
        &self,
        bls_vk: G2Point,
        schnorr_vk: EdOnBN254Point,
        amount: u64,
        stake_type: u8,
        bls_sig: G1Point,
        valid_until_epoch: u64,
    ) -> (call: ContractCall)
        ensures
            call.to == self.spec_address(),
            call.data@ == (RegisterCall { bls_vk, schnorr_vk, amount, stake_type, bls_sig, valid_until_epoch }).call_data(),
    {
        let input = RegisterCall { bls_vk, schnorr_vk, amount, stake_type, bls_sig, valid_until_epoch };
        ContractCall { to: self.address, data: input.encode() }
    }

    /// A call of the contract function `requestExit`.
    pub fn request_exit(&self, bls_vk: G2Point) -> (call: ContractCall)
        ensures
            call.to == self.spec_address(),
            call.data@ == (RequestExitCall { bls_vk }).call_data(),
    {
        let input = RequestExitCall { bls_vk };
        ContractCall { to: self.address, data: input.encode() }
    }

    /// A call of the contract function `tokenAddress`.
    pub fn token_address(&self) -> (call: ContractCall)
        ensures
            call.to == self.spec_address(),
            call.data@ == TokenAddressCall.call_data(),
    {
        ContractCall { to: self.address, data: TokenAddressCall.encode() }
    }

    /// A call of the contract function `totalKeys`.
    pub fn total_keys(&self) -> (call: ContractCall)
        ensures
            call.to == self.spec_address(),
            call.data@ == TotalKeysCall.call_data(),
    {
        ContractCall { to: self.address, data: TotalKeysCall.encode() }
    }

    /// A call of the contract function `totalNativeStake`.
    pub fn total_native_stake(&self) -> (call: ContractCall)
        ensures
            call.to == self.spec_address(),
            call.data@ == TotalNativeStakeCall.call_data(),
    {
        ContractCall { to: self.address, data: TotalNativeStakeCall.encode() }
    }

    /// A call of the contract function `totalRestakedStake`.
    pub fn total_restaked_stake(&self) -> (call: ContractCall)
        ensures
            call.to == self.spec_address(),
            call.data@ == TotalRestakedStakeCall.call_data(),
    {
        ContractCall { to: self.address, data: TotalRestakedStakeCall.encode() }
    }

    /// A call of the contract function `totalStake`.
    pub fn total_stake(&self) -> (call: ContractCall)
        ensures
            call.to == self.spec_address(),
            call.data@ == TotalStakeCall.call_data(),
    {
        ContractCall { to: self.address, data: TotalStakeCall.encode() }
    }

    /// A call of the contract function `totalVotingStake`.
    pub fn total_voting_stake(&self) -> (call: ContractCall)
        ensures
            call.to == self.spec_address(),
            call.data@ == TotalVotingStakeCall.call_data(),
    {
        ContractCall { to: self.address, data: TotalVotingStakeCall.encode() }
    }

    /// A call of the contract function `withdrawFunds`.
    pub fn withdraw_funds(&self, bls_vk: G2Point) -> (call: ContractCall)
        ensures
            call.to == self.spec_address(),
            call.data@ == (WithdrawFundsCall { bls_vk }).call_data(),
    {
        let input = WithdrawFundsCall { bls_vk };
        ContractCall { to: self.address, data: input.encode() }
    }

    /// A request for the logs of the event `Deposit` of the contract.
    pub fn deposit_filter(&self) -> (filter: EventFilter)
        ensures
            filter.address == self.spec_address(),
            filter.topic0 matches Some(topic) && topic@ == DepositFilter::topic(),
    {
        EventFilter { address: self.address, topic0: Some(DepositFilter::signature()) }
    }

    /// A request for the logs of the event `Exit` of the contract.
    pub fn exit_filter(&self) -> (filter: EventFilter)
        ensures
            filter.address == self.spec_address(),
            filter.topic0 matches Some(topic) && topic@ == ExitFilter::topic(),
    {
        EventFilter { address: self.address, topic0: Some(ExitFilter::signature()) }
    }

    /// A request for the logs of the event `Registered` of the contract.
    pub fn registered_filter(&self) -> (filter: EventFilter)
        ensures
            filter.address == self.spec_address(),
            filter.topic0 matches Some(topic) && topic@ == RegisteredFilter::topic(),
    {
        EventFilter { address: self.address, topic0: Some(RegisteredFilter::signature()) }
    }

    /// A request for the logs of every event of the contract.
    pub fn events(&self) -> (filter: EventFilter)
        ensures
            filter.address == self.spec_address(),
            filter.topic0.is_none(),
    {
        EventFilter { address: self.address, topic0: None }
    }
}

} // verus!
