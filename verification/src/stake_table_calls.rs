//! The functions of the stake table contract: one type for the input of
//! each, with its selector and its call data, and the sum of them all.

use vstd::prelude::*;
use crate::abi::{
    arguments, concat_words, decode_call, decode_u64, decode_u8, encode_call, encode_u64,
    encode_u8, has_selector, lemma_u64_word_round_trip, push_word, selector_value, u64_word,
    u8_word, word_at, word_u64, word_u8, words_of, AbiError,
};
use crate::shared_types::{EdOnBN254Point, G1Point, G2Point, Node};

verus! {

/// Input of the contract function `_hashBlsKey`.
#[derive(Clone, Copy, Debug, Default, PartialEq, Eq, Hash)]
pub struct HashBlsKeyCall {
    /// BLS verification key of the node.
    pub bls_vk: G2Point,
}

impl HashBlsKeyCall {
    /// The words of the value, one after the other.
    pub open spec fn abi_encoding(&self) -> Seq<u8> {
        self.bls_vk.abi_encoding()
    }

    /// Whether the value is the one read from the words of `data` that start
    /// at word `at`.
    pub open spec fn decoded_from(&self, data: Seq<u8>, at: int) -> bool {
        &&& self.bls_vk.decoded_from(data, at)
    }

    /// Adds the words of the value to `words`.
    pub fn push_words(&self, words: &mut Vec<[u8; 32]>)
        ensures
            final(words)@.len() == old(words)@.len() + 4,
            concat_words(final(words)@) == concat_words(old(words)@) + self.abi_encoding(),
    {
        self.bls_vk.push_words(words);
        assert(concat_words(words@) =~= concat_words(old(words)@) + self.abi_encoding());
    }

    /// Reads the value from the 4 words that start at `words[at]`.
    pub fn read_words(words: &Vec<[u8; 32]>, at: usize) -> (value: HashBlsKeyCall)
        requires
            at + 4 <= words@.len(),
        ensures
            forall|data: Seq<u8>|
                #[trigger] words_of(words@, data) ==> value.decoded_from(data, at as int),
    {
        let available = words.len();
        assert(at + 4 <= available);
        let value = HashBlsKeyCall {
            bls_vk: G2Point::read_words(words, at),
        };
        assert forall|data: Seq<u8>| #[trigger] words_of(words@, data) implies value.decoded_from(
            data,
            at as int,
        ) by {
            assert(words@[at as int]@ == word_at(data, at as int));
            assert(words@[at as int + 1]@ == word_at(data, at as int + 1));
            assert(words@[at as int + 2]@ == word_at(data, at as int + 2));
            assert(words@[at as int + 3]@ == word_at(data, at as int + 3));
        }
        value
    }

    /// The value takes 4 words.
    pub proof fn lemma_encoding_len(&self)
        ensures
            self.abi_encoding().len() == 128,
    {
        self.bls_vk.lemma_encoding_len();
    }

    /// The value is read back from its own words, wherever they stand in
    /// `data`.
    pub proof fn lemma_read_back(&self, data: Seq<u8>, at: int)
        requires
            0 <= at,
            32 * at + 128 <= data.len(),
            data.subrange(32 * at, 32 * at + 128) == self.abi_encoding(),
        ensures
            self.decoded_from(data, at),
    {
        let enc = self.abi_encoding();
        self.bls_vk.lemma_encoding_len();
        assert(data.subrange(32 * at, 32 * at + 128) =~= enc.subrange(0, 128));
        assert(enc.subrange(0, 128) =~= self.bls_vk.abi_encoding());
        self.bls_vk.lemma_read_back(data, at);
    }

    /// At most one value is read from given words.
    pub proof fn lemma_decoding_unique(a: HashBlsKeyCall, b: HashBlsKeyCall, data: Seq<u8>, at: int)
        requires
            a.decoded_from(data, at),
            b.decoded_from(data, at),
        ensures
            a == b,
    {
        G2Point::lemma_decoding_unique(a.bls_vk, b.bls_vk, data, at);
    }

    /// The first four bytes of the Keccak-256 digest of the signature.
    pub open spec fn selector_bytes() -> Seq<u8> {
        seq![0x9bu8, 0x30u8, 0xa5u8, 0xe6u8]
    }

    /// The selector of the function.
    pub fn selector() -> (selector: [u8; 4])
        ensures
            selector@ == Self::selector_bytes(),
    {
        let selector: [u8; 4] = [0x9b, 0x30, 0xa5, 0xe6];
        assert(selector@ =~= Self::selector_bytes());
        selector
    }

    /// The name of the function in the contract.
    pub fn function_name() -> (name: &'static str)
        ensures
            name@ == "_hashBlsKey"@,
    {
        "_hashBlsKey"
    }

    /// The signature of the function: its name and the types of its inputs.
    pub fn abi_signature() -> (signature: &'static str)
        ensures
            signature@ == "_hashBlsKey((uint256,uint256,uint256,uint256))"@,
    {
        "_hashBlsKey((uint256,uint256,uint256,uint256))"
    }

    /// The call data of the call: the selector, then the words of the input.
    pub open spec fn call_data(&self) -> Seq<u8> {
        Self::selector_bytes() + self.abi_encoding()
    }

    /// Whether `data` starts with the selector and holds the words of an
    /// input behind it.
    pub open spec fn accepts(data: Seq<u8>) -> bool {
        has_selector(data, Self::selector_bytes()) && 128 <= data.len() - 4
    }

    /// The call data of the call.
    pub fn encode(&self) -> (out: Vec<u8>)
        ensures
            out@ == self.call_data(),
    {
        let mut words: Vec<[u8; 32]> = Vec::new();
        self.push_words(&mut words);
        assert(concat_words(Seq::<[u8; 32]>::empty()) =~= Seq::<u8>::empty());
        assert(concat_words(words@) =~= self.abi_encoding());
        encode_call(&Self::selector(), &words)
    }

    /// Reads a call back from call data. Fails with `WrongSelector` if
    /// `data` does not start with the selector of the function, else with
    /// `InvalidData` if `data` is too short for the input. Bytes behind the
    /// input are ignored.
    pub fn decode(data: &[u8]) -> (out: Result<HashBlsKeyCall, AbiError>)
        ensures
            match out {
                Ok(call) => Self::accepts(data@) && call.decoded_from(arguments(data@), 0),
                Err(e) => !Self::accepts(data@) && e == (if has_selector(
                    data@,
                    Self::selector_bytes(),
                ) {
                    AbiError::InvalidData
                } else {
                    AbiError::WrongSelector
                }),
            },
    {
        match decode_call(&Self::selector(), 4, data) {
            Ok(words) => Ok(HashBlsKeyCall::read_words(&words, 0)),
            Err(e) => Err(e),
        }
    }

    /// The selector read as one number.
    pub proof fn lemma_selector_value()
        ensures
            selector_value(Self::selector_bytes()) == 0x9b30a5e6,
    {
    }

    /// The call data of a call holds the call: it starts with the selector
    /// and the input is read back from the words behind it.
    pub proof fn lemma_call_data_holds_call(&self)
        ensures
            Self::accepts(self.call_data()),
            self.decoded_from(arguments(self.call_data()), 0),
    {
        let data = self.call_data();
        self.lemma_encoding_len();
        assert(data.subrange(0, 4) =~= Self::selector_bytes());
        assert(arguments(data) =~= self.abi_encoding());
        assert(arguments(data).subrange(0, 128) =~= self.abi_encoding());
        self.lemma_read_back(arguments(data), 0);
    }

    /// Decoding undoes encoding: whatever `decode` returns on the call data
    /// of a call is that call.
    pub proof fn lemma_round_trip(&self, decoded: Result<HashBlsKeyCall, AbiError>)
        requires
            match decoded {
                Ok(call) => call.decoded_from(arguments(self.call_data()), 0),
                Err(e) => !Self::accepts(self.call_data()),
            },
        ensures
            decoded == Ok::<HashBlsKeyCall, AbiError>(*self),
    {
        self.lemma_call_data_holds_call();
        match decoded {
            Ok(call) => {
                Self::lemma_decoding_unique(call, *self, arguments(self.call_data()), 0);
            },
            Err(e) => {},
        }
    }
}

/// Input of the contract function `currentEpoch`.
#[derive(Clone, Copy, Debug, Default, PartialEq, Eq, Hash)]
pub struct CurrentEpochCall;

impl CurrentEpochCall {
    /// The words of the value, one after the other.
    pub open spec fn abi_encoding(&self) -> Seq<u8> {
        Seq::empty()
    }

    /// Whether the value is the one read from the words of `data` that start
    /// at word `at`.
    pub open spec fn decoded_from(&self, data: Seq<u8>, at: int) -> bool {
        true
    }

    /// Adds the words of the value to `words`.
    pub fn push_words(&self, words: &mut Vec<[u8; 32]>)
        ensures
            final(words)@.len() == old(words)@.len() + 0,
            concat_words(final(words)@) == concat_words(old(words)@) + self.abi_encoding(),
    {
        assert(concat_words(words@) =~= concat_words(old(words)@) + self.abi_encoding());
    }

    /// Reads the value from the 0 words that start at `words[at]`.
    pub fn read_words(words: &Vec<[u8; 32]>, at: usize) -> (value: CurrentEpochCall)
        requires
            at + 0 <= words@.len(),
        ensures
            forall|data: Seq<u8>|
                #[trigger] words_of(words@, data) ==> value.decoded_from(data, at as int),
    {
        CurrentEpochCall
    }

    /// The value takes 0 words.
    pub proof fn lemma_encoding_len(&self)
        ensures
            self.abi_encoding().len() == 0,
    {
    }

    /// The value is read back from its own words, wherever they stand in
    /// `data`.
    pub proof fn lemma_read_back(&self, data: Seq<u8>, at: int)
        requires
            0 <= at,
            32 * at + 0 <= data.len(),
            data.subrange(32 * at, 32 * at + 0) == self.abi_encoding(),
        ensures
            self.decoded_from(data, at),
    {
    }

    /// At most one value is read from given words.
    pub proof fn lemma_decoding_unique(a: CurrentEpochCall, b: CurrentEpochCall, data: Seq<u8>, at: int)
        requires
            a.decoded_from(data, at),
            b.decoded_from(data, at),
        ensures
            a == b,
    {
    }

    /// The first four bytes of the Keccak-256 digest of the signature.
    pub open spec fn selector_bytes() -> Seq<u8> {
        seq![0x76u8, 0x67u8, 0x18u8, 0x08u8]
    }

    /// The selector of the function.
    pub fn selector() -> (selector: [u8; 4])
        ensures
            selector@ == Self::selector_bytes(),
    {
        let selector: [u8; 4] = [0x76, 0x67, 0x18, 0x08];
        assert(selector@ =~= Self::selector_bytes());
        selector
    }

    /// The name of the function in the contract.
    pub fn function_name() -> (name: &'static str)
        ensures
            name@ == "currentEpoch"@,
    {
        "currentEpoch"
    }

    /// The signature of the function: its name and the types of its inputs.
    pub fn abi_signature() -> (signature: &'static str)
        ensures
            signature@ == "currentEpoch()"@,
    {
        "currentEpoch()"
    }

    /// The call data of the call: the selector, then the words of the input.
    pub open spec fn call_data(&self) -> Seq<u8> {
        Self::selector_bytes() + self.abi_encoding()
    }

    /// Whether `data` starts with the selector and holds the words of an
    /// input behind it.
    pub open spec fn accepts(data: Seq<u8>) -> bool {
        has_selector(data, Self::selector_bytes()) && 0 <= data.len() - 4
    }

    /// The call data of the call.
    pub fn encode(&self) -> (out: Vec<u8>)
        ensures
            out@ == self.call_data(),
    {
        let mut words: Vec<[u8; 32]> = Vec::new();
        self.push_words(&mut words);
        assert(concat_words(Seq::<[u8; 32]>::empty()) =~= Seq::<u8>::empty());
        assert(concat_words(words@) =~= self.abi_encoding());
        encode_call(&Self::selector(), &words)
    }

    /// Reads a call back from call data. Fails with `WrongSelector` if
    /// `data` does not start with the selector of the function, else with
    /// `InvalidData` if `data` is too short for the input. Bytes behind the
    /// input are ignored.
    pub fn decode(data: &[u8]) -> (out: Result<CurrentEpochCall, AbiError>)
        ensures
            match out {
                Ok(call) => Self::accepts(data@) && call.decoded_from(arguments(data@), 0),
                Err(e) => !Self::accepts(data@) && e == (if has_selector(
                    data@,
                    Self::selector_bytes(),
                ) {
                    AbiError::InvalidData
                } else {
                    AbiError::WrongSelector
                }),
            },
    {
        match decode_call(&Self::selector(), 0, data) {
            Ok(words) => Ok(CurrentEpochCall::read_words(&words, 0)),
            Err(e) => Err(e),
        }
    }

    /// The selector read as one number.
    pub proof fn lemma_selector_value()
        ensures
            selector_value(Self::selector_bytes()) == 0x76671808,
    {
    }

    /// The call data of a call holds the call: it starts with the selector
    /// and the input is read back from the words behind it.
    pub proof fn lemma_call_data_holds_call(&self)
        ensures
            Self::accepts(self.call_data()),
            self.decoded_from(arguments(self.call_data()), 0),
    {
        let data = self.call_data();
        self.lemma_encoding_len();
        assert(data.subrange(0, 4) =~= Self::selector_bytes());
        assert(arguments(data) =~= self.abi_encoding());
        assert(arguments(data).subrange(0, 0) =~= self.abi_encoding());
        self.lemma_read_back(arguments(data), 0);
    }

    /// Decoding undoes encoding: whatever `decode` returns on the call data
    /// of a call is that call.
    pub proof fn lemma_round_trip(&self, decoded: Result<CurrentEpochCall, AbiError>)
        requires
            match decoded {
                Ok(call) => call.decoded_from(arguments(self.call_data()), 0),
                Err(e) => !Self::accepts(self.call_data()),
            },
        ensures
            decoded == Ok::<CurrentEpochCall, AbiError>(*self),
    {
        self.lemma_call_data_holds_call();
        match decoded {
            Ok(call) => {
                Self::lemma_decoding_unique(call, *self, arguments(self.call_data()), 0);
            },
            Err(e) => {},
        }
    }
}

/// Input of the contract function `deposit`.
#[derive(Clone, Copy, Debug, Default, PartialEq, Eq, Hash)]
pub struct DepositCall {
    /// BLS verification key of the node.
    pub bls_vk: G2Point,
    /// Amount of stake.
    pub amount: u64,
}

impl DepositCall {
    /// The words of the value, one after the other.
    pub open spec fn abi_encoding(&self) -> Seq<u8> {
        self.bls_vk.abi_encoding() + u64_word(self.amount)
    }

    /// Whether the value is the one read from the words of `data` that start
    /// at word `at`.
    pub open spec fn decoded_from(&self, data: Seq<u8>, at: int) -> bool {
        &&& self.bls_vk.decoded_from(data, at)
        &&& self.amount == word_u64(word_at(data, at + 4))
    }

    /// Adds the words of the value to `words`.
    pub fn push_words(&self, words: &mut Vec<[u8; 32]>)
        ensures
            final(words)@.len() == old(words)@.len() + 5,
            concat_words(final(words)@) == concat_words(old(words)@) + self.abi_encoding(),
    {
        self.bls_vk.push_words(words);
        push_word(words, encode_u64(self.amount));
        assert(concat_words(words@) =~= concat_words(old(words)@) + self.abi_encoding());
    }

    /// Reads the value from the 5 words that start at `words[at]`.
    pub fn read_words(words: &Vec<[u8; 32]>, at: usize) -> (value: DepositCall)
        requires
            at + 5 <= words@.len(),
        ensures
            forall|data: Seq<u8>|
                #[trigger] words_of(words@, data) ==> value.decoded_from(data, at as int),
    {
        let available = words.len();
        assert(at + 5 <= available);
        let value = DepositCall {
            bls_vk: G2Point::read_words(words, at),
            amount: decode_u64(&words[at + 4]),
        };
        assert forall|data: Seq<u8>| #[trigger] words_of(words@, data) implies value.decoded_from(
            data,
            at as int,
        ) by {
            assert(words@[at as int]@ == word_at(data, at as int));
            assert(words@[at as int + 1]@ == word_at(data, at as int + 1));
            assert(words@[at as int + 2]@ == word_at(data, at as int + 2));
            assert(words@[at as int + 3]@ == word_at(data, at as int + 3));
            assert(words@[at as int + 4]@ == word_at(data, at as int + 4));
        }
        value
    }

    /// The value takes 5 words.
    pub proof fn lemma_encoding_len(&self)
        ensures
            self.abi_encoding().len() == 160,
    {
        self.bls_vk.lemma_encoding_len();
        lemma_u64_word_round_trip(self.amount);
    }

    /// The value is read back from its own words, wherever they stand in
    /// `data`.
    pub proof fn lemma_read_back(&self, data: Seq<u8>, at: int)
        requires
            0 <= at,
            32 * at + 160 <= data.len(),
            data.subrange(32 * at, 32 * at + 160) == self.abi_encoding(),
        ensures
            self.decoded_from(data, at),
    {
        let enc = self.abi_encoding();
        self.bls_vk.lemma_encoding_len();
        lemma_u64_word_round_trip(self.amount);
        assert(data.subrange(32 * at, 32 * at + 128) =~= enc.subrange(0, 128));
        assert(enc.subrange(0, 128) =~= self.bls_vk.abi_encoding());
        self.bls_vk.lemma_read_back(data, at);
        assert(word_at(data, at + 4) =~= enc.subrange(128, 160));
        assert(enc.subrange(128, 160) =~= u64_word(self.amount));
    }

    /// At most one value is read from given words.
    pub proof fn lemma_decoding_unique(a: DepositCall, b: DepositCall, data: Seq<u8>, at: int)
        requires
            a.decoded_from(data, at),
            b.decoded_from(data, at),
        ensures
            a == b,
    {
        G2Point::lemma_decoding_unique(a.bls_vk, b.bls_vk, data, at);
    }

    /// The first four bytes of the Keccak-256 digest of the signature.
    pub open spec fn selector_bytes() -> Seq<u8> {
        seq![0x77u8, 0x1fu8, 0x6fu8, 0x44u8]
    }

    /// The selector of the function.
    pub fn selector() -> (selector: [u8; 4])
        ensures
            selector@ == Self::selector_bytes(),
    {
        let selector: [u8; 4] = [0x77, 0x1f, 0x6f, 0x44];
        assert(selector@ =~= Self::selector_bytes());
        selector
    }

    /// The name of the function in the contract.
    pub fn function_name() -> (name: &'static str)
        ensures
            name@ == "deposit"@,
    {
        "deposit"
    }

    /// The signature of the function: its name and the types of its inputs.
    pub fn abi_signature() -> (signature: &'static str)
        ensures
            signature@ == "deposit((uint256,uint256,uint256,uint256),uint64)"@,
    {
        "deposit((uint256,uint256,uint256,uint256),uint64)"
    }

    /// The call data of the call: the selector, then the words of the input.
    pub open spec fn call_data(&self) -> Seq<u8> {
        Self::selector_bytes() + self.abi_encoding()
    }

    /// Whether `data` starts with the selector and holds the words of an
    /// input behind it.
    pub open spec fn accepts(data: Seq<u8>) -> bool {
        has_selector(data, Self::selector_bytes()) && 160 <= data.len() - 4
    }

    /// The call data of the call.
    pub fn encode(&self) -> (out: Vec<u8>)
        ensures
            out@ == self.call_data(),
    {
        let mut words: Vec<[u8; 32]> = Vec::new();
        self.push_words(&mut words);
        assert(concat_words(Seq::<[u8; 32]>::empty()) =~= Seq::<u8>::empty());
        assert(concat_words(words@) =~= self.abi_encoding());
        encode_call(&Self::selector(), &words)
    }

    /// Reads a call back from call data. Fails with `WrongSelector` if
    /// `data` does not start with the selector of the function, else with
    /// `InvalidData` if `data` is too short for the input. Bytes behind the
    /// input are ignored.
    pub fn decode(data: &[u8]) -> (out: Result<DepositCall, AbiError>)
        ensures
            match out {
                Ok(call) => Self::accepts(data@) && call.decoded_from(arguments(data@), 0),
                Err(e) => !Self::accepts(data@) && e == (if has_selector(
                    data@,
                    Self::selector_bytes(),
                ) {
                    AbiError::InvalidData
                } else {
                    AbiError::WrongSelector
                }),
            },
    {
        match decode_call(&Self::selector(), 5, data) {
            Ok(words) => Ok(DepositCall::read_words(&words, 0)),
            Err(e) => Err(e),
        }
    }

    /// The selector read as one number.
    pub proof fn lemma_selector_value()
        ensures
            selector_value(Self::selector_bytes()) == 0x771f6f44,
    {
    }

    /// The call data of a call holds the call: it starts with the selector
    /// and the input is read back from the words behind it.
    pub proof fn lemma_call_data_holds_call(&self)
        ensures
            Self::accepts(self.call_data()),
            self.decoded_from(arguments(self.call_data()), 0),
    {
        let data = self.call_data();
        self.lemma_encoding_len();
        assert(data.subrange(0, 4) =~= Self::selector_bytes());
        assert(arguments(data) =~= self.abi_encoding());
        assert(arguments(data).subrange(0, 160) =~= self.abi_encoding());
        self.lemma_read_back(arguments(data), 0);
    }

    /// Decoding undoes encoding: whatever `decode` returns on the call data
    /// of a call is that call.
    pub proof fn lemma_round_trip(&self, decoded: Result<DepositCall, AbiError>)
        requires
            match decoded {
                Ok(call) => call.decoded_from(arguments(self.call_data()), 0),
                Err(e) => !Self::accepts(self.call_data()),
            },
        ensures
            decoded == Ok::<DepositCall, AbiError>(*self),
    {
        self.lemma_call_data_holds_call();
        match decoded {
            Ok(call) => {
                Self::lemma_decoding_unique(call, *self, arguments(self.call_data()), 0);
            },
            Err(e) => {},
        }
    }
}

/// Input of the contract function `exitEscrowPeriod`.
#[derive(Clone, Copy, Debug, Default, PartialEq, Eq, Hash)]
pub struct ExitEscrowPeriodCall {
    /// Record of the node.
    pub node: Node,
}

impl ExitEscrowPeriodCall {
    /// The words of the value, one after the other.
    pub open spec fn abi_encoding(&self) -> Seq<u8> {
        self.node.abi_encoding()
    }

    /// Whether the value is the one read from the words of `data` that start
    /// at word `at`.
    pub open spec fn decoded_from(&self, data: Seq<u8>, at: int) -> bool {
        &&& self.node.decoded_from(data, at)
    }

    /// Adds the words of the value to `words`.
    pub fn push_words(&self, words: &mut Vec<[u8; 32]>)
        ensures
            final(words)@.len() == old(words)@.len() + 7,
            concat_words(final(words)@) == concat_words(old(words)@) + self.abi_encoding(),
    {
        self.node.push_words(words);
        assert(concat_words(words@) =~= concat_words(old(words)@) + self.abi_encoding());
    }

    /// Reads the value from the 7 words that start at `words[at]`.
    pub fn read_words(words: &Vec<[u8; 32]>, at: usize) -> (value: ExitEscrowPeriodCall)
        requires
            at + 7 <= words@.len(),
        ensures
            forall|data: Seq<u8>|
                #[trigger] words_of(words@, data) ==> value.decoded_from(data, at as int),
    {
        let available = words.len();
        assert(at + 7 <= available);
        let value = ExitEscrowPeriodCall {
            node: Node::read_words(words, at),
        };
        assert forall|data: Seq<u8>| #[trigger] words_of(words@, data) implies value.decoded_from(
            data,
            at as int,
        ) by {
            assert(words@[at as int]@ == word_at(data, at as int));
            assert(words@[at as int + 1]@ == word_at(data, at as int + 1));
            assert(words@[at as int + 2]@ == word_at(data, at as int + 2));
            assert(words@[at as int + 3]@ == word_at(data, at as int + 3));
            assert(words@[at as int + 4]@ == word_at(data, at as int + 4));
            assert(words@[at as int + 5]@ == word_at(data, at as int + 5));
            assert(words@[at as int + 6]@ == word_at(data, at as int + 6));
        }
        value
    }

    /// The value takes 7 words.
    pub proof fn lemma_encoding_len(&self)
        ensures
            self.abi_encoding().len() == 224,
    {
        self.node.lemma_encoding_len();
    }

    /// The value is read back from its own words, wherever they stand in
    /// `data`.
    pub proof fn lemma_read_back(&self, data: Seq<u8>, at: int)
        requires
            0 <= at,
            32 * at + 224 <= data.len(),
            data.subrange(32 * at, 32 * at + 224) == self.abi_encoding(),
        ensures
            self.decoded_from(data, at),
    {
        let enc = self.abi_encoding();
        self.node.lemma_encoding_len();
        assert(data.subrange(32 * at, 32 * at + 224) =~= enc.subrange(0, 224));
        assert(enc.subrange(0, 224) =~= self.node.abi_encoding());
        self.node.lemma_read_back(data, at);
    }

    /// At most one value is read from given words.
    pub proof fn lemma_decoding_unique(a: ExitEscrowPeriodCall, b: ExitEscrowPeriodCall, data: Seq<u8>, at: int)
        requires
            a.decoded_from(data, at),
            b.decoded_from(data, at),
        ensures
            a == b,
    {
        Node::lemma_decoding_unique(a.node, b.node, data, at);
    }

    /// The first four bytes of the Keccak-256 digest of the signature.
    pub open spec fn selector_bytes() -> Seq<u8> {
        seq![0xc8u8, 0x4cu8, 0x7fu8, 0xa1u8]
    }

    /// The selector of the function.
    pub fn selector() -> (selector: [u8; 4])
        ensures
            selector@ == Self::selector_bytes(),
    {
        let selector: [u8; 4] = [0xc8, 0x4c, 0x7f, 0xa1];
        assert(selector@ =~= Self::selector_bytes());
        selector
    }

    /// The name of the function in the contract.
    pub fn function_name() -> (name: &'static str)
        ensures
            name@ == "exitEscrowPeriod"@,
    {
        "exitEscrowPeriod"
    }

    /// The signature of the function: its name and the types of its inputs.
    pub fn abi_signature() -> (signature: &'static str)
        ensures
            signature@ == "exitEscrowPeriod((address,uint8,uint64,uint64,uint64,(uint256,uint256)))"@,
    {
        "exitEscrowPeriod((address,uint8,uint64,uint64,uint64,(uint256,uint256)))"
    }

    /// The call data of the call: the selector, then the words of the input.
    pub open spec fn call_data(&self) -> Seq<u8> {
        Self::selector_bytes() + self.abi_encoding()
    }

    /// Whether `data` starts with the selector and holds the words of an
    /// input behind it.
    pub open spec fn accepts(data: Seq<u8>) -> bool {
        has_selector(data, Self::selector_bytes()) && 224 <= data.len() - 4
    }

    /// The call data of the call.
    pub fn encode(&self) -> (out: Vec<u8>)
        ensures
            out@ == self.call_data(),
    {
        let mut words: Vec<[u8; 32]> = Vec::new();
        self.push_words(&mut words);
        assert(concat_words(Seq::<[u8; 32]>::empty()) =~= Seq::<u8>::empty());
        assert(concat_words(words@) =~= self.abi_encoding());
        encode_call(&Self::selector(), &words)
    }

    /// Reads a call back from call data. Fails with `WrongSelector` if
    /// `data` does not start with the selector of the function, else with
    /// `InvalidData` if `data` is too short for the input. Bytes behind the
    /// input are ignored.
    pub fn decode(data: &[u8]) -> (out: Result<ExitEscrowPeriodCall, AbiError>)
        ensures
            match out {
                Ok(call) => Self::accepts(data@) && call.decoded_from(arguments(data@), 0),
                Err(e) => !Self::accepts(data@) && e == (if has_selector(
                    data@,
                    Self::selector_bytes(),
                ) {
                    AbiError::InvalidData
                } else {
                    AbiError::WrongSelector
                }),
            },
    {
        match decode_call(&Self::selector(), 7, data) {
            Ok(words) => Ok(ExitEscrowPeriodCall::read_words(&words, 0)),
            Err(e) => Err(e),
        }
    }

    /// The selector read as one number.
    pub proof fn lemma_selector_value()
        ensures
            selector_value(Self::selector_bytes()) == 0xc84c7fa1,
    {
    }

    /// The call data of a call holds the call: it starts with the selector
    /// and the input is read back from the words behind it.
    pub proof fn lemma_call_data_holds_call(&self)
        ensures
            Self::accepts(self.call_data()),
            self.decoded_from(arguments(self.call_data()), 0),
    {
        let data = self.call_data();
        self.lemma_encoding_len();
        assert(data.subrange(0, 4) =~= Self::selector_bytes());
        assert(arguments(data) =~= self.abi_encoding());
        assert(arguments(data).subrange(0, 224) =~= self.abi_encoding());
        self.lemma_read_back(arguments(data), 0);
    }

    /// Decoding undoes encoding: whatever `decode` returns on the call data
    /// of a call is that call.
    pub proof fn lemma_round_trip(&self, decoded: Result<ExitEscrowPeriodCall, AbiError>)
        requires
            match decoded {
                Ok(call) => call.decoded_from(arguments(self.call_data()), 0),
                Err(e) => !Self::accepts(self.call_data()),
            },
        ensures
            decoded == Ok::<ExitEscrowPeriodCall, AbiError>(*self),
    {
        self.lemma_call_data_holds_call();
        match decoded {
            Ok(call) => {
                Self::lemma_decoding_unique(call, *self, arguments(self.call_data()), 0);
            },
            Err(e) => {},
        }
    }
}

/// Input of the contract function `firstAvailableExitEpoch`.
#[derive(Clone, Copy, Debug, Default, PartialEq, Eq, Hash)]
pub struct FirstAvailableExitEpochCall;

impl FirstAvailableExitEpochCall {
    /// The words of the value, one after the other.
    pub open spec fn abi_encoding(&self) -> Seq<u8> {
        Seq::empty()
    }

    /// Whether the value is the one read from the words of `data` that start
    /// at word `at`.
    pub open spec fn decoded_from(&self, data: Seq<u8>, at: int) -> bool {
        true
    }

    /// Adds the words of the value to `words`.
    pub fn push_words(&self, words: &mut Vec<[u8; 32]>)
        ensures
            final(words)@.len() == old(words)@.len() + 0,
            concat_words(final(words)@) == concat_words(old(words)@) + self.abi_encoding(),
    {
        assert(concat_words(words@) =~= concat_words(old(words)@) + self.abi_encoding());
    }

    /// Reads the value from the 0 words that start at `words[at]`.
    pub fn read_words(words: &Vec<[u8; 32]>, at: usize) -> (value: FirstAvailableExitEpochCall)
        requires
            at + 0 <= words@.len(),
        ensures
            forall|data: Seq<u8>|
                #[trigger] words_of(words@, data) ==> value.decoded_from(data, at as int),
    {
        FirstAvailableExitEpochCall
    }

    /// The value takes 0 words.
    pub proof fn lemma_encoding_len(&self)
        ensures
            self.abi_encoding().len() == 0,
    {
    }

    /// The value is read back from its own words, wherever they stand in
    /// `data`.
    pub proof fn lemma_read_back(&self, data: Seq<u8>, at: int)
        requires
            0 <= at,
            32 * at + 0 <= data.len(),
            data.subrange(32 * at, 32 * at + 0) == self.abi_encoding(),
        ensures
            self.decoded_from(data, at),
    {
    }

    /// At most one value is read from given words.
    pub proof fn lemma_decoding_unique(a: FirstAvailableExitEpochCall, b: FirstAvailableExitEpochCall, data: Seq<u8>, at: int)
        requires
            a.decoded_from(data, at),
            b.decoded_from(data, at),
        ensures
            a == b,
    {
    }

    /// The first four bytes of the Keccak-256 digest of the signature.
    pub open spec fn selector_bytes() -> Seq<u8> {
        seq![0x10u8, 0x9eu8, 0x3bu8, 0xe3u8]
    }

    /// The selector of the function.
    pub fn selector() -> (selector: [u8; 4])
        ensures
            selector@ == Self::selector_bytes(),
    {
        let selector: [u8; 4] = [0x10, 0x9e, 0x3b, 0xe3];
        assert(selector@ =~= Self::selector_bytes());
        selector
    }

    /// The name of the function in the contract.
    pub fn function_name() -> (name: &'static str)
        ensures
            name@ == "firstAvailableExitEpoch"@,
    {
        "firstAvailableExitEpoch"
    }

    /// The signature of the function: its name and the types of its inputs.
    pub fn abi_signature() -> (signature: &'static str)
        ensures
            signature@ == "firstAvailableExitEpoch()"@,
    {
        "firstAvailableExitEpoch()"
    }

    /// The call data of the call: the selector, then the words of the input.
    pub open spec fn call_data(&self) -> Seq<u8> {
        Self::selector_bytes() + self.abi_encoding()
    }

    /// Whether `data` starts with the selector and holds the words of an
    /// input behind it.
    pub open spec fn accepts(data: Seq<u8>) -> bool {
        has_selector(data, Self::selector_bytes()) && 0 <= data.len() - 4
    }

    /// The call data of the call.
    pub fn encode(&self) -> (out: Vec<u8>)
        ensures
            out@ == self.call_data(),
    {
        let mut words: Vec<[u8; 32]> = Vec::new();
        self.push_words(&mut words);
        assert(concat_words(Seq::<[u8; 32]>::empty()) =~= Seq::<u8>::empty());
        assert(concat_words(words@) =~= self.abi_encoding());
        encode_call(&Self::selector(), &words)
    }

    /// Reads a call back from call data. Fails with `WrongSelector` if
    /// `data` does not start with the selector of the function, else with
    /// `InvalidData` if `data` is too short for the input. Bytes behind the
    /// input are ignored.
    pub fn decode(data: &[u8]) -> (out: Result<FirstAvailableExitEpochCall, AbiError>)
        ensures
            match out {
                Ok(call) => Self::accepts(data@) && call.decoded_from(arguments(data@), 0),
                Err(e) => !Self::accepts(data@) && e == (if has_selector(
                    data@,
                    Self::selector_bytes(),
                ) {
                    AbiError::InvalidData
                } else {
                    AbiError::WrongSelector
                }),
            },
    {
        match decode_call(&Self::selector(), 0, data) {
            Ok(words) => Ok(FirstAvailableExitEpochCall::read_words(&words, 0)),
            Err(e) => Err(e),
        }
    }

    /// The selector read as one number.
    pub proof fn lemma_selector_value()
        ensures
            selector_value(Self::selector_bytes()) == 0x109e3be3,
    {
    }

    /// The call data of a call holds the call: it starts with the selector
    /// and the input is read back from the words behind it.
    pub proof fn lemma_call_data_holds_call(&self)
        ensures
            Self::accepts(self.call_data()),
            self.decoded_from(arguments(self.call_data()), 0),
    {
        let data = self.call_data();
        self.lemma_encoding_len();
        assert(data.subrange(0, 4) =~= Self::selector_bytes());
        assert(arguments(data) =~= self.abi_encoding());
        assert(arguments(data).subrange(0, 0) =~= self.abi_encoding());
        self.lemma_read_back(arguments(data), 0);
    }

    /// Decoding undoes encoding: whatever `decode` returns on the call data
    /// of a call is that call.
    pub proof fn lemma_round_trip(&self, decoded: Result<FirstAvailableExitEpochCall, AbiError>)
        requires
            match decoded {
                Ok(call) => call.decoded_from(arguments(self.call_data()), 0),
                Err(e) => !Self::accepts(self.call_data()),
            },
        ensures
            decoded == Ok::<FirstAvailableExitEpochCall, AbiError>(*self),
    {
        self.lemma_call_data_holds_call();
        match decoded {
            Ok(call) => {
                Self::lemma_decoding_unique(call, *self, arguments(self.call_data()), 0);
            },
            Err(e) => {},
        }
    }
}

/// Input of the contract function `firstAvailableRegistrationEpoch`.
#[derive(Clone, Copy, Debug, Default, PartialEq, Eq, Hash)]
pub struct FirstAvailableRegistrationEpochCall;

impl FirstAvailableRegistrationEpochCall {
    /// The words of the value, one after the other.
    pub open spec fn abi_encoding(&self) -> Seq<u8> {
        Seq::empty()
    }

    /// Whether the value is the one read from the words of `data` that start
    /// at word `at`.
    pub open spec fn decoded_from(&self, data: Seq<u8>, at: int) -> bool {
        true
    }

    /// Adds the words of the value to `words`.
    pub fn push_words(&self, words: &mut Vec<[u8; 32]>)
        ensures
            final(words)@.len() == old(words)@.len() + 0,
            concat_words(final(words)@) == concat_words(old(words)@) + self.abi_encoding(),
    {
        assert(concat_words(words@) =~= concat_words(old(words)@) + self.abi_encoding());
    }

    /// Reads the value from the 0 words that start at `words[at]`.
    pub fn read_words(words: &Vec<[u8; 32]>, at: usize) -> (value: FirstAvailableRegistrationEpochCall)
        requires
            at + 0 <= words@.len(),
        ensures
            forall|data: Seq<u8>|
                #[trigger] words_of(words@, data) ==> value.decoded_from(data, at as int),
    {
        FirstAvailableRegistrationEpochCall
    }

    /// The value takes 0 words.
    pub proof fn lemma_encoding_len(&self)
        ensures
            self.abi_encoding().len() == 0,
    {
    }

    /// The value is read back from its own words, wherever they stand in
    /// `data`.
    pub proof fn lemma_read_back(&self, data: Seq<u8>, at: int)
        requires
            0 <= at,
            32 * at + 0 <= data.len(),
            data.subrange(32 * at, 32 * at + 0) == self.abi_encoding(),
        ensures
            self.decoded_from(data, at),
    {
    }

    /// At most one value is read from given words.
    pub proof fn lemma_decoding_unique(a: FirstAvailableRegistrationEpochCall, b: FirstAvailableRegistrationEpochCall, data: Seq<u8>, at: int)
        requires
            a.decoded_from(data, at),
            b.decoded_from(data, at),
        ensures
            a == b,
    {
    }

    /// The first four bytes of the Keccak-256 digest of the signature.
    pub open spec fn selector_bytes() -> Seq<u8> {
        seq![0x2cu8, 0x70u8, 0x12u8, 0x69u8]
    }

    /// The selector of the function.
    pub fn selector() -> (selector: [u8; 4])
        ensures
            selector@ == Self::selector_bytes(),
    {
        let selector: [u8; 4] = [0x2c, 0x70, 0x12, 0x69];
        assert(selector@ =~= Self::selector_bytes());
        selector
    }

    /// The name of the function in the contract.
    pub fn function_name() -> (name: &'static str)
        ensures
            name@ == "firstAvailableRegistrationEpoch"@,
    {
        "firstAvailableRegistrationEpoch"
    }

    /// The signature of the function: its name and the types of its inputs.
    pub fn abi_signature() -> (signature: &'static str)
        ensures
            signature@ == "firstAvailableRegistrationEpoch()"@,
    {
        "firstAvailableRegistrationEpoch()"
    }

    /// The call data of the call: the selector, then the words of the input.
    pub open spec fn call_data(&self) -> Seq<u8> {
        Self::selector_bytes() + self.abi_encoding()
    }

    /// Whether `data` starts with the selector and holds the words of an
    /// input behind it.
    pub open spec fn accepts(data: Seq<u8>) -> bool {
        has_selector(data, Self::selector_bytes()) && 0 <= data.len() - 4
    }

    /// The call data of the call.
    pub fn encode(&self) -> (out: Vec<u8>)
        ensures
            out@ == self.call_data(),
    {
        let mut words: Vec<[u8; 32]> = Vec::new();
        self.push_words(&mut words);
        assert(concat_words(Seq::<[u8; 32]>::empty()) =~= Seq::<u8>::empty());
        assert(concat_words(words@) =~= self.abi_encoding());
        encode_call(&Self::selector(), &words)
    }

    /// Reads a call back from call data. Fails with `WrongSelector` if
    /// `data` does not start with the selector of the function, else with
    /// `InvalidData` if `data` is too short for the input. Bytes behind the
    /// input are ignored.
    pub fn decode(data: &[u8]) -> (out: Result<FirstAvailableRegistrationEpochCall, AbiError>)
        ensures
            match out {
                Ok(call) => Self::accepts(data@) && call.decoded_from(arguments(data@), 0),
                Err(e) => !Self::accepts(data@) && e == (if has_selector(
                    data@,
                    Self::selector_bytes(),
                ) {
                    AbiError::InvalidData
                } else {
                    AbiError::WrongSelector
                }),
            },
    {
        match decode_call(&Self::selector(), 0, data) {
            Ok(words) => Ok(FirstAvailableRegistrationEpochCall::read_words(&words, 0)),
            Err(e) => Err(e),
        }
    }

    /// The selector read as one number.
    pub proof fn lemma_selector_value()
        ensures
            selector_value(Self::selector_bytes()) == 0x2c701269,
    {
    }

    /// The call data of a call holds the call: it starts with the selector
    /// and the input is read back from the words behind it.
    pub proof fn lemma_call_data_holds_call(&self)
        ensures
            Self::accepts(self.call_data()),
            self.decoded_from(arguments(self.call_data()), 0),
    {
        let data = self.call_data();
        self.lemma_encoding_len();
        assert(data.subrange(0, 4) =~= Self::selector_bytes());
        assert(arguments(data) =~= self.abi_encoding());
        assert(arguments(data).subrange(0, 0) =~= self.abi_encoding());
        self.lemma_read_back(arguments(data), 0);
    }

    /// Decoding undoes encoding: whatever `decode` returns on the call data
    /// of a call is that call.
    pub proof fn lemma_round_trip(&self, decoded: Result<FirstAvailableRegistrationEpochCall, AbiError>)
        requires
            match decoded {
                Ok(call) => call.decoded_from(arguments(self.call_data()), 0),
                Err(e) => !Self::accepts(self.call_data()),
            },
        ensures
            decoded == Ok::<FirstAvailableRegistrationEpochCall, AbiError>(*self),
    {
        self.lemma_call_data_holds_call();
        match decoded {
            Ok(call) => {
                Self::lemma_decoding_unique(call, *self, arguments(self.call_data()), 0);
            },
            Err(e) => {},
        }
    }
}

/// Input of the contract function `lightClient`.
#[derive(Clone, Copy, Debug, Default, PartialEq, Eq, Hash)]
pub struct LightClientCall;

impl LightClientCall {
    /// The words of the value, one after the other.
    pub open spec fn abi_encoding(&self) -> Seq<u8> {
        Seq::empty()
    }

    /// Whether the value is the one read from the words of `data` that start
    /// at word `at`.
    pub open spec fn decoded_from(&self, data: Seq<u8>, at: int) -> bool {
        true
    }

    /// Adds the words of the value to `words`.
    pub fn push_words(&self, words: &mut Vec<[u8; 32]>)
        ensures
            final(words)@.len() == old(words)@.len() + 0,
            concat_words(final(words)@) == concat_words(old(words)@) + self.abi_encoding(),
    {
        assert(concat_words(words@) =~= concat_words(old(words)@) + self.abi_encoding());
    }

    /// Reads the value from the 0 words that start at `words[at]`.
    pub fn read_words(words: &Vec<[u8; 32]>, at: usize) -> (value: LightClientCall)
        requires
            at + 0 <= words@.len(),
        ensures
            forall|data: Seq<u8>|
                #[trigger] words_of(words@, data) ==> value.decoded_from(data, at as int),
    {
        LightClientCall
    }

    /// The value takes 0 words.
    pub proof fn lemma_encoding_len(&self)
        ensures
            self.abi_encoding().len() == 0,
    {
    }

    /// The value is read back from its own words, wherever they stand in
    /// `data`.
    pub proof fn lemma_read_back(&self, data: Seq<u8>, at: int)
        requires
            0 <= at,
            32 * at + 0 <= data.len(),
            data.subrange(32 * at, 32 * at + 0) == self.abi_encoding(),
        ensures
            self.decoded_from(data, at),
    {
    }

    /// At most one value is read from given words.
    pub proof fn lemma_decoding_unique(a: LightClientCall, b: LightClientCall, data: Seq<u8>, at: int)
        requires
            a.decoded_from(data, at),
            b.decoded_from(data, at),
        ensures
            a == b,
    {
    }

    /// The first four bytes of the Keccak-256 digest of the signature.
    pub open spec fn selector_bytes() -> Seq<u8> {
        seq![0xb5u8, 0x70u8, 0x0eu8, 0x68u8]
    }

    /// The selector of the function.
    pub fn selector() -> (selector: [u8; 4])
        ensures
            selector@ == Self::selector_bytes(),
    {
        let selector: [u8; 4] = [0xb5, 0x70, 0x0e, 0x68];
        assert(selector@ =~= Self::selector_bytes());
        selector
    }

    /// The name of the function in the contract.
    pub fn function_name() -> (name: &'static str)
        ensures
            name@ == "lightClient"@,
    {
        "lightClient"
    }

    /// The signature of the function: its name and the types of its inputs.
    pub fn abi_signature() -> (signature: &'static str)
        ensures
            signature@ == "lightClient()"@,
    {
        "lightClient()"
    }

    /// The call data of the call: the selector, then the words of the input.
    pub open spec fn call_data(&self) -> Seq<u8> {
        Self::selector_bytes() + self.abi_encoding()
    }

    /// Whether `data` starts with the selector and holds the words of an
    /// input behind it.
    pub open spec fn accepts(data: Seq<u8>) -> bool {
        has_selector(data, Self::selector_bytes()) && 0 <= data.len() - 4
    }

    /// The call data of the call.
    pub fn encode(&self) -> (out: Vec<u8>)
        ensures
            out@ == self.call_data(),
    {
        let mut words: Vec<[u8; 32]> = Vec::new();
        self.push_words(&mut words);
        assert(concat_words(Seq::<[u8; 32]>::empty()) =~= Seq::<u8>::empty());
        assert(concat_words(words@) =~= self.abi_encoding());
        encode_call(&Self::selector(), &words)
    }

    /// Reads a call back from call data. Fails with `WrongSelector` if
    /// `data` does not start with the selector of the function, else with
    /// `InvalidData` if `data` is too short for the input. Bytes behind the
    /// input are ignored.
    pub fn decode(data: &[u8]) -> (out: Result<LightClientCall, AbiError>)
        ensures
            match out {
                Ok(call) => Self::accepts(data@) && call.decoded_from(arguments(data@), 0),
                Err(e) => !Self::accepts(data@) && e == (if has_selector(
                    data@,
                    Self::selector_bytes(),
                ) {
                    AbiError::InvalidData
                } else {
                    AbiError::WrongSelector
                }),
            },
    {
        match decode_call(&Self::selector(), 0, data) {
            Ok(words) => Ok(LightClientCall::read_words(&words, 0)),
            Err(e) => Err(e),
        }
    }

    /// The selector read as one number.
    pub proof fn lemma_selector_value()
        ensures
            selector_value(Self::selector_bytes()) == 0xb5700e68,
    {
    }

    /// The call data of a call holds the call: it starts with the selector
    /// and the input is read back from the words behind it.
    pub proof fn lemma_call_data_holds_call(&self)
        ensures
            Self::accepts(self.call_data()),
            self.decoded_from(arguments(self.call_data()), 0),
    {
        let data = self.call_data();
        self.lemma_encoding_len();
        assert(data.subrange(0, 4) =~= Self::selector_bytes());
        assert(arguments(data) =~= self.abi_encoding());
        assert(arguments(data).subrange(0, 0) =~= self.abi_encoding());
        self.lemma_read_back(arguments(data), 0);
    }

    /// Decoding undoes encoding: whatever `decode` returns on the call data
    /// of a call is that call.
    pub proof fn lemma_round_trip(&self, decoded: Result<LightClientCall, AbiError>)
        requires
            match decoded {
                Ok(call) => call.decoded_from(arguments(self.call_data()), 0),
                Err(e) => !Self::accepts(self.call_data()),
            },
        ensures
            decoded == Ok::<LightClientCall, AbiError>(*self),
    {
        self.lemma_call_data_holds_call();
        match decoded {
            Ok(call) => {
                Self::lemma_decoding_unique(call, *self, arguments(self.call_data()), 0);
            },
            Err(e) => {},
        }
    }
}

/// Input of the contract function `lookupNode`.
#[derive(Clone, Copy, Debug, Default, PartialEq, Eq, Hash)]
pub struct LookupNodeCall {
    /// BLS verification key of the node.
    pub bls_vk: G2Point,
}

impl LookupNodeCall {
    /// The words of the value, one after the other.
    pub open spec fn abi_encoding(&self) -> Seq<u8> {
        self.bls_vk.abi_encoding()
    }

    /// Whether the value is the one read from the words of `data` that start
    /// at word `at`.
    pub open spec fn decoded_from(&self, data: Seq<u8>, at: int) -> bool {
        &&& self.bls_vk.decoded_from(data, at)
    }

    /// Adds the words of the value to `words`.
    pub fn push_words(&self, words: &mut Vec<[u8; 32]>)
        ensures
            final(words)@.len() == old(words)@.len() + 4,
            concat_words(final(words)@) == concat_words(old(words)@) + self.abi_encoding(),
    {
        self.bls_vk.push_words(words);
        assert(concat_words(words@) =~= concat_words(old(words)@) + self.abi_encoding());
    }

    /// Reads the value from the 4 words that start at `words[at]`.
    pub fn read_words(words: &Vec<[u8; 32]>, at: usize) -> (value: LookupNodeCall)
        requires
            at + 4 <= words@.len(),
        ensures
            forall|data: Seq<u8>|
                #[trigger] words_of(words@, data) ==> value.decoded_from(data, at as int),
    {
        let available = words.len();
        assert(at + 4 <= available);
        let value = LookupNodeCall {
            bls_vk: G2Point::read_words(words, at),
        };
        assert forall|data: Seq<u8>| #[trigger] words_of(words@, data) implies value.decoded_from(
            data,
            at as int,
        ) by {
            assert(words@[at as int]@ == word_at(data, at as int));
            assert(words@[at as int + 1]@ == word_at(data, at as int + 1));
            assert(words@[at as int + 2]@ == word_at(data, at as int + 2));
            assert(words@[at as int + 3]@ == word_at(data, at as int + 3));
        }
        value
    }

    /// The value takes 4 words.
    pub proof fn lemma_encoding_len(&self)
        ensures
            self.abi_encoding().len() == 128,
    {
        self.bls_vk.lemma_encoding_len();
    }

    /// The value is read back from its own words, wherever they stand in
    /// `data`.
    pub proof fn lemma_read_back(&self, data: Seq<u8>, at: int)
        requires
            0 <= at,
            32 * at + 128 <= data.len(),
            data.subrange(32 * at, 32 * at + 128) == self.abi_encoding(),
        ensures
            self.decoded_from(data, at),
    {
        let enc = self.abi_encoding();
        self.bls_vk.lemma_encoding_len();
        assert(data.subrange(32 * at, 32 * at + 128) =~= enc.subrange(0, 128));
        assert(enc.subrange(0, 128) =~= self.bls_vk.abi_encoding());
        self.bls_vk.lemma_read_back(data, at);
    }

    /// At most one value is read from given words.
    pub proof fn lemma_decoding_unique(a: LookupNodeCall, b: LookupNodeCall, data: Seq<u8>, at: int)
        requires
            a.decoded_from(data, at),
            b.decoded_from(data, at),
        ensures
            a == b,
    {
        G2Point::lemma_decoding_unique(a.bls_vk, b.bls_vk, data, at);
    }

    /// The first four bytes of the Keccak-256 digest of the signature.
    pub open spec fn selector_bytes() -> Seq<u8> {
        seq![0x2au8, 0xddu8, 0xa1u8, 0xc1u8]
    }

    /// The selector of the function.
    pub fn selector() -> (selector: [u8; 4])
        ensures
            selector@ == Self::selector_bytes(),
    {
        let selector: [u8; 4] = [0x2a, 0xdd, 0xa1, 0xc1];
        assert(selector@ =~= Self::selector_bytes());
        selector
    }

    /// The name of the function in the contract.
    pub fn function_name() -> (name: &'static str)
        ensures
            name@ == "lookupNode"@,
    {
        "lookupNode"
    }

    /// The signature of the function: its name and the types of its inputs.
    pub fn abi_signature() -> (signature: &'static str)
        ensures
            signature@ == "lookupNode((uint256,uint256,uint256,uint256))"@,
    {
        "lookupNode((uint256,uint256,uint256,uint256))"
    }

    /// The call data of the call: the selector, then the words of the input.
    pub open spec fn call_data(&self) -> Seq<u8> {
        Self::selector_bytes() + self.abi_encoding()
    }

    /// Whether `data` starts with the selector and holds the words of an
    /// input behind it.
    pub open spec fn accepts(data: Seq<u8>) -> bool {
        has_selector(data, Self::selector_bytes()) && 128 <= data.len() - 4
    }

    /// The call data of the call.
    pub fn encode(&self) -> (out: Vec<u8>)
        ensures
            out@ == self.call_data(),
    {
        let mut words: Vec<[u8; 32]> = Vec::new();
        self.push_words(&mut words);
        assert(concat_words(Seq::<[u8; 32]>::empty()) =~= Seq::<u8>::empty());
        assert(concat_words(words@) =~= self.abi_encoding());
        encode_call(&Self::selector(), &words)
    }

    /// Reads a call back from call data. Fails with `WrongSelector` if
    /// `data` does not start with the selector of the function, else with
    /// `InvalidData` if `data` is too short for the input. Bytes behind the
    /// input are ignored.
    pub fn decode(data: &[u8]) -> (out: Result<LookupNodeCall, AbiError>)
        ensures
            match out {
                Ok(call) => Self::accepts(data@) && call.decoded_from(arguments(data@), 0),
                Err(e) => !Self::accepts(data@) && e == (if has_selector(
                    data@,
                    Self::selector_bytes(),
                ) {
                    AbiError::InvalidData
                } else {
                    AbiError::WrongSelector
                }),
            },
    {
        match decode_call(&Self::selector(), 4, data) {
            Ok(words) => Ok(LookupNodeCall::read_words(&words, 0)),
            Err(e) => Err(e),
        }
    }

    /// The selector read as one number.
    pub proof fn lemma_selector_value()
        ensures
            selector_value(Self::selector_bytes()) == 0x2adda1c1,
    {
    }

    /// The call data of a call holds the call: it starts with the selector
    /// and the input is read back from the words behind it.
    pub proof fn lemma_call_data_holds_call(&self)
        ensures
            Self::accepts(self.call_data()),
            self.decoded_from(arguments(self.call_data()), 0),
    {
        let data = self.call_data();
        self.lemma_encoding_len();
        assert(data.subrange(0, 4) =~= Self::selector_bytes());
        assert(arguments(data) =~= self.abi_encoding());
        assert(arguments(data).subrange(0, 128) =~= self.abi_encoding());
        self.lemma_read_back(arguments(data), 0);
    }

    /// Decoding undoes encoding: whatever `decode` returns on the call data
    /// of a call is that call.
    pub proof fn lemma_round_trip(&self, decoded: Result<LookupNodeCall, AbiError>)
        requires
            match decoded {
                Ok(call) => call.decoded_from(arguments(self.call_data()), 0),
                Err(e) => !Self::accepts(self.call_data()),
            },
        ensures
            decoded == Ok::<LookupNodeCall, AbiError>(*self),
    {
        self.lemma_call_data_holds_call();
        match decoded {
            Ok(call) => {
                Self::lemma_decoding_unique(call, *self, arguments(self.call_data()), 0);
            },
            Err(e) => {},
        }
    }
}

/// Input of the contract function `lookupStake`.
#[derive(Clone, Copy, Debug, Default, PartialEq, Eq, Hash)]
pub struct LookupStakeCall {
    /// BLS verification key of the node.
    pub bls_vk: G2Point,
}

impl LookupStakeCall {
    /// The words of the value, one after the other.
    pub open spec fn abi_encoding(&self) -> Seq<u8> {
        self.bls_vk.abi_encoding()
    }

    /// Whether the value is the one read from the words of `data` that start
    /// at word `at`.
    pub open spec fn decoded_from(&self, data: Seq<u8>, at: int) -> bool {
        &&& self.bls_vk.decoded_from(data, at)
    }

    /// Adds the words of the value to `words`.
    pub fn push_words(&self, words: &mut Vec<[u8; 32]>)
        ensures
            final(words)@.len() == old(words)@.len() + 4,
            concat_words(final(words)@) == concat_words(old(words)@) + self.abi_encoding(),
    {
        self.bls_vk.push_words(words);
        assert(concat_words(words@) =~= concat_words(old(words)@) + self.abi_encoding());
    }

    /// Reads the value from the 4 words that start at `words[at]`.
    pub fn read_words(words: &Vec<[u8; 32]>, at: usize) -> (value: LookupStakeCall)
        requires
            at + 4 <= words@.len(),
        ensures
            forall|data: Seq<u8>|
                #[trigger] words_of(words@, data) ==> value.decoded_from(data, at as int),
    {
        let available = words.len();
        assert(at + 4 <= available);
        let value = LookupStakeCall {
            bls_vk: G2Point::read_words(words, at),
        };
        assert forall|data: Seq<u8>| #[trigger] words_of(words@, data) implies value.decoded_from(
            data,
            at as int,
        ) by {
            assert(words@[at as int]@ == word_at(data, at as int));
            assert(words@[at as int + 1]@ == word_at(data, at as int + 1));
            assert(words@[at as int + 2]@ == word_at(data, at as int + 2));
            assert(words@[at as int + 3]@ == word_at(data, at as int + 3));
        }
        value
    }

    /// The value takes 4 words.
    pub proof fn lemma_encoding_len(&self)
        ensures
            self.abi_encoding().len() == 128,
    {
        self.bls_vk.lemma_encoding_len();
    }

    /// The value is read back from its own words, wherever they stand in
    /// `data`.
    pub proof fn lemma_read_back(&self, data: Seq<u8>, at: int)
        requires
            0 <= at,
            32 * at + 128 <= data.len(),
            data.subrange(32 * at, 32 * at + 128) == self.abi_encoding(),
        ensures
            self.decoded_from(data, at),
    {
        let enc = self.abi_encoding();
        self.bls_vk.lemma_encoding_len();
        assert(data.subrange(32 * at, 32 * at + 128) =~= enc.subrange(0, 128));
        assert(enc.subrange(0, 128) =~= self.bls_vk.abi_encoding());
        self.bls_vk.lemma_read_back(data, at);
    }

    /// At most one value is read from given words.
    pub proof fn lemma_decoding_unique(a: LookupStakeCall, b: LookupStakeCall, data: Seq<u8>, at: int)
        requires
            a.decoded_from(data, at),
            b.decoded_from(data, at),
        ensures
            a == b,
    {
        G2Point::lemma_decoding_unique(a.bls_vk, b.bls_vk, data, at);
    }

    /// The first four bytes of the Keccak-256 digest of the signature.
    pub open spec fn selector_bytes() -> Seq<u8> {
        seq![0xddu8, 0x2eu8, 0xd3u8, 0xecu8]
    }

    /// The selector of the function.
    pub fn selector() -> (selector: [u8; 4])
        ensures
            selector@ == Self::selector_bytes(),
    {
        let selector: [u8; 4] = [0xdd, 0x2e, 0xd3, 0xec];
        assert(selector@ =~= Self::selector_bytes());
        selector
    }

    /// The name of the function in the contract.
    pub fn function_name() -> (name: &'static str)
        ensures
            name@ == "lookupStake"@,
    {
        "lookupStake"
    }

    /// The signature of the function: its name and the types of its inputs.
    pub fn abi_signature() -> (signature: &'static str)
        ensures
            signature@ == "lookupStake((uint256,uint256,uint256,uint256))"@,
    {
        "lookupStake((uint256,uint256,uint256,uint256))"
    }

    /// The call data of the call: the selector, then the words of the input.
    pub open spec fn call_data(&self) -> Seq<u8> {
        Self::selector_bytes() + self.abi_encoding()
    }

    /// Whether `data` starts with the selector and holds the words of an
    /// input behind it.
    pub open spec fn accepts(data: Seq<u8>) -> bool {
        has_selector(data, Self::selector_bytes()) && 128 <= data.len() - 4
    }

    /// The call data of the call.
    pub fn encode(&self) -> (out: Vec<u8>)
        ensures
            out@ == self.call_data(),
    {
        let mut words: Vec<[u8; 32]> = Vec::new();
        self.push_words(&mut words);
        assert(concat_words(Seq::<[u8; 32]>::empty()) =~= Seq::<u8>::empty());
        assert(concat_words(words@) =~= self.abi_encoding());
        encode_call(&Self::selector(), &words)
    }

    /// Reads a call back from call data. Fails with `WrongSelector` if
    /// `data` does not start with the selector of the function, else with
    /// `InvalidData` if `data` is too short for the input. Bytes behind the
    /// input are ignored.
    pub fn decode(data: &[u8]) -> (out: Result<LookupStakeCall, AbiError>)
        ensures
            match out {
                Ok(call) => Self::accepts(data@) && call.decoded_from(arguments(data@), 0),
                Err(e) => !Self::accepts(data@) && e == (if has_selector(
                    data@,
                    Self::selector_bytes(),
                ) {
                    AbiError::InvalidData
                } else {
                    AbiError::WrongSelector
                }),
            },
    {
        match decode_call(&Self::selector(), 4, data) {
            Ok(words) => Ok(LookupStakeCall::read_words(&words, 0)),
            Err(e) => Err(e),
        }
    }

    /// The selector read as one number.
    pub proof fn lemma_selector_value()
        ensures
            selector_value(Self::selector_bytes()) == 0xdd2ed3ec,
    {
    }

    /// The call data of a call holds the call: it starts with the selector
    /// and the input is read back from the words behind it.
    pub proof fn lemma_call_data_holds_call(&self)
        ensures
            Self::accepts(self.call_data()),
            self.decoded_from(arguments(self.call_data()), 0),
    {
        let data = self.call_data();
        self.lemma_encoding_len();
        assert(data.subrange(0, 4) =~= Self::selector_bytes());
        assert(arguments(data) =~= self.abi_encoding());
        assert(arguments(data).subrange(0, 128) =~= self.abi_encoding());
        self.lemma_read_back(arguments(data), 0);
    }

    /// Decoding undoes encoding: whatever `decode` returns on the call data
    /// of a call is that call.
    pub proof fn lemma_round_trip(&self, decoded: Result<LookupStakeCall, AbiError>)
        requires
            match decoded {
                Ok(call) => call.decoded_from(arguments(self.call_data()), 0),
                Err(e) => !Self::accepts(self.call_data()),
            },
        ensures
            decoded == Ok::<LookupStakeCall, AbiError>(*self),
    {
        self.lemma_call_data_holds_call();
        match decoded {
            Ok(call) => {
                Self::lemma_decoding_unique(call, *self, arguments(self.call_data()), 0);
            },
            Err(e) => {},
        }
    }
}

/// Input of the contract function `maxChurnRate`.
#[derive(Clone, Copy, Debug, Default, PartialEq, Eq, Hash)]
pub struct MaxChurnRateCall;

impl MaxChurnRateCall {
    /// The words of the value, one after the other.
    pub open spec fn abi_encoding(&self) -> Seq<u8> {
        Seq::empty()
    }

    /// Whether the value is the one read from the words of `data` that start
    /// at word `at`.
    pub open spec fn decoded_from(&self, data: Seq<u8>, at: int) -> bool {
        true
    }

    /// Adds the words of the value to `words`.
    pub fn push_words(&self, words: &mut Vec<[u8; 32]>)
        ensures
            final(words)@.len() == old(words)@.len() + 0,
            concat_words(final(words)@) == concat_words(old(words)@) + self.abi_encoding(),
    {
        assert(concat_words(words@) =~= concat_words(old(words)@) + self.abi_encoding());
    }

    /// Reads the value from the 0 words that start at `words[at]`.
    pub fn read_words(words: &Vec<[u8; 32]>, at: usize) -> (value: MaxChurnRateCall)
        requires
            at + 0 <= words@.len(),
        ensures
            forall|data: Seq<u8>|
                #[trigger] words_of(words@, data) ==> value.decoded_from(data, at as int),
    {
        MaxChurnRateCall
    }

    /// The value takes 0 words.
    pub proof fn lemma_encoding_len(&self)
        ensures
            self.abi_encoding().len() == 0,
    {
    }

    /// The value is read back from its own words, wherever they stand in
    /// `data`.
    pub proof fn lemma_read_back(&self, data: Seq<u8>, at: int)
        requires
            0 <= at,
            32 * at + 0 <= data.len(),
            data.subrange(32 * at, 32 * at + 0) == self.abi_encoding(),
        ensures
            self.decoded_from(data, at),
    {
    }

    /// At most one value is read from given words.
    pub proof fn lemma_decoding_unique(a: MaxChurnRateCall, b: MaxChurnRateCall, data: Seq<u8>, at: int)
        requires
            a.decoded_from(data, at),
            b.decoded_from(data, at),
        ensures
            a == b,
    {
    }

    /// The first four bytes of the Keccak-256 digest of the signature.
    pub open spec fn selector_bytes() -> Seq<u8> {
        seq![0x21u8, 0xbfu8, 0xd5u8, 0x15u8]
    }

    /// The selector of the function.
    pub fn selector() -> (selector: [u8; 4])
        ensures
            selector@ == Self::selector_bytes(),
    {
        let selector: [u8; 4] = [0x21, 0xbf, 0xd5, 0x15];
        assert(selector@ =~= Self::selector_bytes());
        selector
    }

    /// The name of the function in the contract.
    pub fn function_name() -> (name: &'static str)
        ensures
            name@ == "maxChurnRate"@,
    {
        "maxChurnRate"
    }

    /// The signature of the function: its name and the types of its inputs.
    pub fn abi_signature() -> (signature: &'static str)
        ensures
            signature@ == "maxChurnRate()"@,
    {
        "maxChurnRate()"
    }

    /// The call data of the call: the selector, then the words of the input.
    pub open spec fn call_data(&self) -> Seq<u8> {
        Self::selector_bytes() + self.abi_encoding()
    }

    /// Whether `data` starts with the selector and holds the words of an
    /// input behind it.
    pub open spec fn accepts(data: Seq<u8>) -> bool {
        has_selector(data, Self::selector_bytes()) && 0 <= data.len() - 4
    }

    /// The call data of the call.
    pub fn encode(&self) -> (out: Vec<u8>)
        ensures
            out@ == self.call_data(),
    {
        let mut words: Vec<[u8; 32]> = Vec::new();
        self.push_words(&mut words);
        assert(concat_words(Seq::<[u8; 32]>::empty()) =~= Seq::<u8>::empty());
        assert(concat_words(words@) =~= self.abi_encoding());
        encode_call(&Self::selector(), &words)
    }

    /// Reads a call back from call data. Fails with `WrongSelector` if
    /// `data` does not start with the selector of the function, else with
    /// `InvalidData` if `data` is too short for the input. Bytes behind the
    /// input are ignored.
    pub fn decode(data: &[u8]) -> (out: Result<MaxChurnRateCall, AbiError>)
        ensures
            match out {
                Ok(call) => Self::accepts(data@) && call.decoded_from(arguments(data@), 0),
                Err(e) => !Self::accepts(data@) && e == (if has_selector(
                    data@,
                    Self::selector_bytes(),
                ) {
                    AbiError::InvalidData
                } else {
                    AbiError::WrongSelector
                }),
            },
    {
        match decode_call(&Self::selector(), 0, data) {
            Ok(words) => Ok(MaxChurnRateCall::read_words(&words, 0)),
            Err(e) => Err(e),
        }
    }

    /// The selector read as one number.
    pub proof fn lemma_selector_value()
        ensures
            selector_value(Self::selector_bytes()) == 0x21bfd515,
    {
    }

    /// The call data of a call holds the call: it starts with the selector
    /// and the input is read back from the words behind it.
    pub proof fn lemma_call_data_holds_call(&self)
        ensures
            Self::accepts(self.call_data()),
            self.decoded_from(arguments(self.call_data()), 0),
    {
        let data = self.call_data();
        self.lemma_encoding_len();
        assert(data.subrange(0, 4) =~= Self::selector_bytes());
        assert(arguments(data) =~= self.abi_encoding());
        assert(arguments(data).subrange(0, 0) =~= self.abi_encoding());
        self.lemma_read_back(arguments(data), 0);
    }

    /// Decoding undoes encoding: whatever `decode` returns on the call data
    /// of a call is that call.
    pub proof fn lemma_round_trip(&self, decoded: Result<MaxChurnRateCall, AbiError>)
        requires
            match decoded {
                Ok(call) => call.decoded_from(arguments(self.call_data()), 0),
                Err(e) => !Self::accepts(self.call_data()),
            },
        ensures
            decoded == Ok::<MaxChurnRateCall, AbiError>(*self),
    {
        self.lemma_call_data_holds_call();
        match decoded {
            Ok(call) => {
                Self::lemma_decoding_unique(call, *self, arguments(self.call_data()), 0);
            },
            Err(e) => {},
        }
    }
}

/// Input of the contract function `nextExitEpoch`.
#[derive(Clone, Copy, Debug, Default, PartialEq, Eq, Hash)]
pub struct NextExitEpochCall;

impl NextExitEpochCall {
    /// The words of the value, one after the other.
    pub open spec fn abi_encoding(&self) -> Seq<u8> {
        Seq::empty()
    }

    /// Whether the value is the one read from the words of `data` that start
    /// at word `at`.
    pub open spec fn decoded_from(&self, data: Seq<u8>, at: int) -> bool {
        true
    }

    /// Adds the words of the value to `words`.
    pub fn push_words(&self, words: &mut Vec<[u8; 32]>)
        ensures
            final(words)@.len() == old(words)@.len() + 0,
            concat_words(final(words)@) == concat_words(old(words)@) + self.abi_encoding(),
    {
        assert(concat_words(words@) =~= concat_words(old(words)@) + self.abi_encoding());
    }

    /// Reads the value from the 0 words that start at `words[at]`.
    pub fn read_words(words: &Vec<[u8; 32]>, at: usize) -> (value: NextExitEpochCall)
        requires
            at + 0 <= words@.len(),
        ensures
            forall|data: Seq<u8>|
                #[trigger] words_of(words@, data) ==> value.decoded_from(data, at as int),
    {
        NextExitEpochCall
    }

    /// The value takes 0 words.
    pub proof fn lemma_encoding_len(&self)
        ensures
            self.abi_encoding().len() == 0,
    {
    }

    /// The value is read back from its own words, wherever they stand in
    /// `data`.
    pub proof fn lemma_read_back(&self, data: Seq<u8>, at: int)
        requires
            0 <= at,
            32 * at + 0 <= data.len(),
            data.subrange(32 * at, 32 * at + 0) == self.abi_encoding(),
        ensures
            self.decoded_from(data, at),
    {
    }

    /// At most one value is read from given words.
    pub proof fn lemma_decoding_unique(a: NextExitEpochCall, b: NextExitEpochCall, data: Seq<u8>, at: int)
        requires
            a.decoded_from(data, at),
            b.decoded_from(data, at),
        ensures
            a == b,
    {
    }

    /// The first four bytes of the Keccak-256 digest of the signature.
    pub open spec fn selector_bytes() -> Seq<u8> {
        seq![0x3bu8, 0x09u8, 0xc2u8, 0x67u8]
    }

    /// The selector of the function.
    pub fn selector() -> (selector: [u8; 4])
        ensures
            selector@ == Self::selector_bytes(),
    {
        let selector: [u8; 4] = [0x3b, 0x09, 0xc2, 0x67];
        assert(selector@ =~= Self::selector_bytes());
        selector
    }

    /// The name of the function in the contract.
    pub fn function_name() -> (name: &'static str)
        ensures
            name@ == "nextExitEpoch"@,
    {
        "nextExitEpoch"
    }

    /// The signature of the function: its name and the types of its inputs.
    pub fn abi_signature() -> (signature: &'static str)
        ensures
            signature@ == "nextExitEpoch()"@,
    {
        "nextExitEpoch()"
    }

    /// The call data of the call: the selector, then the words of the input.
    pub open spec fn call_data(&self) -> Seq<u8> {
        Self::selector_bytes() + self.abi_encoding()
    }

    /// Whether `data` starts with the selector and holds the words of an
    /// input behind it.
    pub open spec fn accepts(data: Seq<u8>) -> bool {
        has_selector(data, Self::selector_bytes()) && 0 <= data.len() - 4
    }

    /// The call data of the call.
    pub fn encode(&self) -> (out: Vec<u8>)
        ensures
            out@ == self.call_data(),
    {
        let mut words: Vec<[u8; 32]> = Vec::new();
        self.push_words(&mut words);
        assert(concat_words(Seq::<[u8; 32]>::empty()) =~= Seq::<u8>::empty());
        assert(concat_words(words@) =~= self.abi_encoding());
        encode_call(&Self::selector(), &words)
    }

    /// Reads a call back from call data. Fails with `WrongSelector` if
    /// `data` does not start with the selector of the function, else with
    /// `InvalidData` if `data` is too short for the input. Bytes behind the
    /// input are ignored.
    pub fn decode(data: &[u8]) -> (out: Result<NextExitEpochCall, AbiError>)
        ensures
            match out {
                Ok(call) => Self::accepts(data@) && call.decoded_from(arguments(data@), 0),
                Err(e) => !Self::accepts(data@) && e == (if has_selector(
                    data@,
                    Self::selector_bytes(),
                ) {
                    AbiError::InvalidData
                } else {
                    AbiError::WrongSelector
                }),
            },
    {
        match decode_call(&Self::selector(), 0, data) {
            Ok(words) => Ok(NextExitEpochCall::read_words(&words, 0)),
            Err(e) => Err(e),
        }
    }

    /// The selector read as one number.
    pub proof fn lemma_selector_value()
        ensures
            selector_value(Self::selector_bytes()) == 0x3b09c267,
    {
    }

    /// The call data of a call holds the call: it starts with the selector
    /// and the input is read back from the words behind it.
    pub proof fn lemma_call_data_holds_call(&self)
        ensures
            Self::accepts(self.call_data()),
            self.decoded_from(arguments(self.call_data()), 0),
    {
        let data = self.call_data();
        self.lemma_encoding_len();
        assert(data.subrange(0, 4) =~= Self::selector_bytes());
        assert(arguments(data) =~= self.abi_encoding());
        assert(arguments(data).subrange(0, 0) =~= self.abi_encoding());
        self.lemma_read_back(arguments(data), 0);
    }

    /// Decoding undoes encoding: whatever `decode` returns on the call data
    /// of a call is that call.
    pub proof fn lemma_round_trip(&self, decoded: Result<NextExitEpochCall, AbiError>)
        requires
            match decoded {
                Ok(call) => call.decoded_from(arguments(self.call_data()), 0),
                Err(e) => !Self::accepts(self.call_data()),
            },
        ensures
            decoded == Ok::<NextExitEpochCall, AbiError>(*self),
    {
        self.lemma_call_data_holds_call();
        match decoded {
            Ok(call) => {
                Self::lemma_decoding_unique(call, *self, arguments(self.call_data()), 0);
            },
            Err(e) => {},
        }
    }
}

/// Input of the contract function `nextRegistrationEpoch`.
#[derive(Clone, Copy, Debug, Default, PartialEq, Eq, Hash)]
pub struct NextRegistrationEpochCall;

impl NextRegistrationEpochCall {
    /// The words of the value, one after the other.
    pub open spec fn abi_encoding(&self) -> Seq<u8> {
        Seq::empty()
    }

    /// Whether the value is the one read from the words of `data` that start
    /// at word `at`.
    pub open spec fn decoded_from(&self, data: Seq<u8>, at: int) -> bool {
        true
    }

    /// Adds the words of the value to `words`.
    pub fn push_words(&self, words: &mut Vec<[u8; 32]>)
        ensures
            final(words)@.len() == old(words)@.len() + 0,
            concat_words(final(words)@) == concat_words(old(words)@) + self.abi_encoding(),
    {
        assert(concat_words(words@) =~= concat_words(old(words)@) + self.abi_encoding());
    }

    /// Reads the value from the 0 words that start at `words[at]`.
    pub fn read_words(words: &Vec<[u8; 32]>, at: usize) -> (value: NextRegistrationEpochCall)
        requires
            at + 0 <= words@.len(),
        ensures
            forall|data: Seq<u8>|
                #[trigger] words_of(words@, data) ==> value.decoded_from(data, at as int),
    {
        NextRegistrationEpochCall
    }

    /// The value takes 0 words.
    pub proof fn lemma_encoding_len(&self)
        ensures
            self.abi_encoding().len() == 0,
    {
    }

    /// The value is read back from its own words, wherever they stand in
    /// `data`.
    pub proof fn lemma_read_back(&self, data: Seq<u8>, at: int)
        requires
            0 <= at,
            32 * at + 0 <= data.len(),
            data.subrange(32 * at, 32 * at + 0) == self.abi_encoding(),
        ensures
            self.decoded_from(data, at),
    {
    }

    /// At most one value is read from given words.
    pub proof fn lemma_decoding_unique(a: NextRegistrationEpochCall, b: NextRegistrationEpochCall, data: Seq<u8>, at: int)
        requires
            a.decoded_from(data, at),
            b.decoded_from(data, at),
        ensures
            a == b,
    {
    }

    /// The first four bytes of the Keccak-256 digest of the signature.
    pub open spec fn selector_bytes() -> Seq<u8> {
        seq![0x2cu8, 0x53u8, 0x05u8, 0x84u8]
    }

    /// The selector of the function.
    pub fn selector() -> (selector: [u8; 4])
        ensures
            selector@ == Self::selector_bytes(),
    {
        let selector: [u8; 4] = [0x2c, 0x53, 0x05, 0x84];
        assert(selector@ =~= Self::selector_bytes());
        selector
    }

    /// The name of the function in the contract.
    pub fn function_name() -> (name: &'static str)
        ensures
            name@ == "nextRegistrationEpoch"@,
    {
        "nextRegistrationEpoch"
    }

    /// The signature of the function: its name and the types of its inputs.
    pub fn abi_signature() -> (signature: &'static str)
        ensures
            signature@ == "nextRegistrationEpoch()"@,
    {
        "nextRegistrationEpoch()"
    }

    /// The call data of the call: the selector, then the words of the input.
    pub open spec fn call_data(&self) -> Seq<u8> {
        Self::selector_bytes() + self.abi_encoding()
    }

    /// Whether `data` starts with the selector and holds the words of an
    /// input behind it.
    pub open spec fn accepts(data: Seq<u8>) -> bool {
        has_selector(data, Self::selector_bytes()) && 0 <= data.len() - 4
    }

    /// The call data of the call.
    pub fn encode(&self) -> (out: Vec<u8>)
        ensures
            out@ == self.call_data(),
    {
        let mut words: Vec<[u8; 32]> = Vec::new();
        self.push_words(&mut words);
        assert(concat_words(Seq::<[u8; 32]>::empty()) =~= Seq::<u8>::empty());
        assert(concat_words(words@) =~= self.abi_encoding());
        encode_call(&Self::selector(), &words)
    }

    /// Reads a call back from call data. Fails with `WrongSelector` if
    /// `data` does not start with the selector of the function, else with
    /// `InvalidData` if `data` is too short for the input. Bytes behind the
    /// input are ignored.
    pub fn decode(data: &[u8]) -> (out: Result<NextRegistrationEpochCall, AbiError>)
        ensures
            match out {
                Ok(call) => Self::accepts(data@) && call.decoded_from(arguments(data@), 0),
                Err(e) => !Self::accepts(data@) && e == (if has_selector(
                    data@,
                    Self::selector_bytes(),
                ) {
                    AbiError::InvalidData
                } else {
                    AbiError::WrongSelector
                }),
            },
    {
        match decode_call(&Self::selector(), 0, data) {
            Ok(words) => Ok(NextRegistrationEpochCall::read_words(&words, 0)),
            Err(e) => Err(e),
        }
    }

    /// The selector read as one number.
    pub proof fn lemma_selector_value()
        ensures
            selector_value(Self::selector_bytes()) == 0x2c530584,
    {
    }

    /// The call data of a call holds the call: it starts with the selector
    /// and the input is read back from the words behind it.
    pub proof fn lemma_call_data_holds_call(&self)
        ensures
            Self::accepts(self.call_data()),
            self.decoded_from(arguments(self.call_data()), 0),
    {
        let data = self.call_data();
        self.lemma_encoding_len();
        assert(data.subrange(0, 4) =~= Self::selector_bytes());
        assert(arguments(data) =~= self.abi_encoding());
        assert(arguments(data).subrange(0, 0) =~= self.abi_encoding());
        self.lemma_read_back(arguments(data), 0);
    }

    /// Decoding undoes encoding: whatever `decode` returns on the call data
    /// of a call is that call.
    pub proof fn lemma_round_trip(&self, decoded: Result<NextRegistrationEpochCall, AbiError>)
        requires
            match decoded {
                Ok(call) => call.decoded_from(arguments(self.call_data()), 0),
                Err(e) => !Self::accepts(self.call_data()),
            },
        ensures
            decoded == Ok::<NextRegistrationEpochCall, AbiError>(*self),
    {
        self.lemma_call_data_holds_call();
        match decoded {
            Ok(call) => {
                Self::lemma_decoding_unique(call, *self, arguments(self.call_data()), 0);
            },
            Err(e) => {},
        }
    }
}

/// Input of the contract function `nodes`.
#[derive(Clone, Copy, Debug, Default, PartialEq, Eq, Hash)]
pub struct NodesCall {
    /// Hash of the BLS verification key of the node.
    pub key_hash: [u8; 32],
}

impl NodesCall {
    /// The words of the value, one after the other.
    pub open spec fn abi_encoding(&self) -> Seq<u8> {
        self.key_hash@
    }

    /// Whether the value is the one read from the words of `data` that start
    /// at word `at`.
    pub open spec fn decoded_from(&self, data: Seq<u8>, at: int) -> bool {
        &&& self.key_hash@ == word_at(data, at)
    }

    /// Adds the words of the value to `words`.
    pub fn push_words(&self, words: &mut Vec<[u8; 32]>)
        ensures
            final(words)@.len() == old(words)@.len() + 1,
            concat_words(final(words)@) == concat_words(old(words)@) + self.abi_encoding(),
    {
        push_word(words, self.key_hash);
        assert(concat_words(words@) =~= concat_words(old(words)@) + self.abi_encoding());
    }

    /// Reads the value from the word `words[at]`.
    pub fn read_words(words: &Vec<[u8; 32]>, at: usize) -> (value: NodesCall)
        requires
            at + 1 <= words@.len(),
        ensures
            forall|data: Seq<u8>|
                #[trigger] words_of(words@, data) ==> value.decoded_from(data, at as int),
    {
        let available = words.len();
        assert(at + 1 <= available);
        let value = NodesCall {
            key_hash: words[at],
        };
        assert forall|data: Seq<u8>| #[trigger] words_of(words@, data) implies value.decoded_from(
            data,
            at as int,
        ) by {
            assert(words@[at as int]@ == word_at(data, at as int));
        }
        value
    }

    /// The value takes one word.
    pub proof fn lemma_encoding_len(&self)
        ensures
            self.abi_encoding().len() == 32,
    {
    }

    /// The value is read back from its own words, wherever they stand in
    /// `data`.
    pub proof fn lemma_read_back(&self, data: Seq<u8>, at: int)
        requires
            0 <= at,
            32 * at + 32 <= data.len(),
            data.subrange(32 * at, 32 * at + 32) == self.abi_encoding(),
        ensures
            self.decoded_from(data, at),
    {
        let enc = self.abi_encoding();
        assert(word_at(data, at) =~= enc.subrange(0, 32));
        assert(enc.subrange(0, 32) =~= self.key_hash@);
    }

    /// At most one value is read from given words.
    pub proof fn lemma_decoding_unique(a: NodesCall, b: NodesCall, data: Seq<u8>, at: int)
        requires
            a.decoded_from(data, at),
            b.decoded_from(data, at),
        ensures
            a == b,
    {
        assert(a.key_hash =~= b.key_hash);
    }

    /// The first four bytes of the Keccak-256 digest of the signature.
    pub open spec fn selector_bytes() -> Seq<u8> {
        seq![0xd8u8, 0x6eu8, 0x69u8, 0x7du8]
    }

    /// The selector of the function.
    pub fn selector() -> (selector: [u8; 4])
        ensures
            selector@ == Self::selector_bytes(),
    {
        let selector: [u8; 4] = [0xd8, 0x6e, 0x69, 0x7d];
        assert(selector@ =~= Self::selector_bytes());
        selector
    }

    /// The name of the function in the contract.
    pub fn function_name() -> (name: &'static str)
        ensures
            name@ == "nodes"@,
    {
        "nodes"
    }

    /// The signature of the function: its name and the types of its inputs.
    pub fn abi_signature() -> (signature: &'static str)
        ensures
            signature@ == "nodes(bytes32)"@,
    {
        "nodes(bytes32)"
    }

    /// The call data of the call: the selector, then the words of the input.
    pub open spec fn call_data(&self) -> Seq<u8> {
        Self::selector_bytes() + self.abi_encoding()
    }

    /// Whether `data` starts with the selector and holds the words of an
    /// input behind it.
    pub open spec fn accepts(data: Seq<u8>) -> bool {
        has_selector(data, Self::selector_bytes()) && 32 <= data.len() - 4
    }

    /// The call data of the call.
    pub fn encode(&self) -> (out: Vec<u8>)
        ensures
            out@ == self.call_data(),
    {
        let mut words: Vec<[u8; 32]> = Vec::new();
        self.push_words(&mut words);
        assert(concat_words(Seq::<[u8; 32]>::empty()) =~= Seq::<u8>::empty());
        assert(concat_words(words@) =~= self.abi_encoding());
        encode_call(&Self::selector(), &words)
    }

    /// Reads a call back from call data. Fails with `WrongSelector` if
    /// `data` does not start with the selector of the function, else with
    /// `InvalidData` if `data` is too short for the input. Bytes behind the
    /// input are ignored.
    pub fn decode(data: &[u8]) -> (out: Result<NodesCall, AbiError>)
        ensures
            match out {
                Ok(call) => Self::accepts(data@) && call.decoded_from(arguments(data@), 0),
                Err(e) => !Self::accepts(data@) && e == (if has_selector(
                    data@,
                    Self::selector_bytes(),
                ) {
                    AbiError::InvalidData
                } else {
                    AbiError::WrongSelector
                }),
            },
    {
        match decode_call(&Self::selector(), 1, data) {
            Ok(words) => Ok(NodesCall::read_words(&words, 0)),
            Err(e) => Err(e),
        }
    }

    /// The selector read as one number.
    pub proof fn lemma_selector_value()
        ensures
            selector_value(Self::selector_bytes()) == 0xd86e697d,
    {
    }

    /// The call data of a call holds the call: it starts with the selector
    /// and the input is read back from the words behind it.
    pub proof fn lemma_call_data_holds_call(&self)
        ensures
            Self::accepts(self.call_data()),
            self.decoded_from(arguments(self.call_data()), 0),
    {
        let data = self.call_data();
        self.lemma_encoding_len();
        assert(data.subrange(0, 4) =~= Self::selector_bytes());
        assert(arguments(data) =~= self.abi_encoding());
        assert(arguments(data).subrange(0, 32) =~= self.abi_encoding());
        self.lemma_read_back(arguments(data), 0);
    }

    /// Decoding undoes encoding: whatever `decode` returns on the call data
    /// of a call is that call.
    pub proof fn lemma_round_trip(&self, decoded: Result<NodesCall, AbiError>)
        requires
            match decoded {
                Ok(call) => call.decoded_from(arguments(self.call_data()), 0),
                Err(e) => !Self::accepts(self.call_data()),
            },
        ensures
            decoded == Ok::<NodesCall, AbiError>(*self),
    {
        self.lemma_call_data_holds_call();
        match decoded {
            Ok(call) => {
                Self::lemma_decoding_unique(call, *self, arguments(self.call_data()), 0);
            },
            Err(e) => {},
        }
    }
}

/// Input of the contract function `numPendingExits`.
#[derive(Clone, Copy, Debug, Default, PartialEq, Eq, Hash)]
pub struct NumPendingExitsCall;

impl NumPendingExitsCall {
    /// The words of the value, one after the other.
    pub open spec fn abi_encoding(&self) -> Seq<u8> {
        Seq::empty()
    }

    /// Whether the value is the one read from the words of `data` that start
    /// at word `at`.
    pub open spec fn decoded_from(&self, data: Seq<u8>, at: int) -> bool {
        true
    }

    /// Adds the words of the value to `words`.
    pub fn push_words(&self, words: &mut Vec<[u8; 32]>)
        ensures
            final(words)@.len() == old(words)@.len() + 0,
            concat_words(final(words)@) == concat_words(old(words)@) + self.abi_encoding(),
    {
        assert(concat_words(words@) =~= concat_words(old(words)@) + self.abi_encoding());
    }

    /// Reads the value from the 0 words that start at `words[at]`.
    pub fn read_words(words: &Vec<[u8; 32]>, at: usize) -> (value: NumPendingExitsCall)
        requires
            at + 0 <= words@.len(),
        ensures
            forall|data: Seq<u8>|
                #[trigger] words_of(words@, data) ==> value.decoded_from(data, at as int),
    {
        NumPendingExitsCall
    }

    /// The value takes 0 words.
    pub proof fn lemma_encoding_len(&self)
        ensures
            self.abi_encoding().len() == 0,
    {
    }

    /// The value is read back from its own words, wherever they stand in
    /// `data`.
    pub proof fn lemma_read_back(&self, data: Seq<u8>, at: int)
        requires
            0 <= at,
            32 * at + 0 <= data.len(),
            data.subrange(32 * at, 32 * at + 0) == self.abi_encoding(),
        ensures
            self.decoded_from(data, at),
    {
    }

    /// At most one value is read from given words.
    pub proof fn lemma_decoding_unique(a: NumPendingExitsCall, b: NumPendingExitsCall, data: Seq<u8>, at: int)
        requires
            a.decoded_from(data, at),
            b.decoded_from(data, at),
        ensures
            a == b,
    {
    }

    /// The first four bytes of the Keccak-256 digest of the signature.
    pub open spec fn selector_bytes() -> Seq<u8> {
        seq![0xd6u8, 0x7bu8, 0x6cu8, 0xa5u8]
    }

    /// The selector of the function.
    pub fn selector() -> (selector: [u8; 4])
        ensures
            selector@ == Self::selector_bytes(),
    {
        let selector: [u8; 4] = [0xd6, 0x7b, 0x6c, 0xa5];
        assert(selector@ =~= Self::selector_bytes());
        selector
    }

    /// The name of the function in the contract.
    pub fn function_name() -> (name: &'static str)
        ensures
            name@ == "numPendingExits"@,
    {
        "numPendingExits"
    }

    /// The signature of the function: its name and the types of its inputs.
    pub fn abi_signature() -> (signature: &'static str)
        ensures
            signature@ == "numPendingExits()"@,
    {
        "numPendingExits()"
    }

    /// The call data of the call: the selector, then the words of the input.
    pub open spec fn call_data(&self) -> Seq<u8> {
        Self::selector_bytes() + self.abi_encoding()
    }

    /// Whether `data` starts with the selector and holds the words of an
    /// input behind it.
    pub open spec fn accepts(data: Seq<u8>) -> bool {
        has_selector(data, Self::selector_bytes()) && 0 <= data.len() - 4
    }

    /// The call data of the call.
    pub fn encode(&self) -> (out: Vec<u8>)
        ensures
            out@ == self.call_data(),
    {
        let mut words: Vec<[u8; 32]> = Vec::new();
        self.push_words(&mut words);
        assert(concat_words(Seq::<[u8; 32]>::empty()) =~= Seq::<u8>::empty());
        assert(concat_words(words@) =~= self.abi_encoding());
        encode_call(&Self::selector(), &words)
    }

    /// Reads a call back from call data. Fails with `WrongSelector` if
    /// `data` does not start with the selector of the function, else with
    /// `InvalidData` if `data` is too short for the input. Bytes behind the
    /// input are ignored.
    pub fn decode(data: &[u8]) -> (out: Result<NumPendingExitsCall, AbiError>)
        ensures
            match out {
                Ok(call) => Self::accepts(data@) && call.decoded_from(arguments(data@), 0),
                Err(e) => !Self::accepts(data@) && e == (if has_selector(
                    data@,
                    Self::selector_bytes(),
                ) {
                    AbiError::InvalidData
                } else {
                    AbiError::WrongSelector
                }),
            },
    {
        match decode_call(&Self::selector(), 0, data) {
            Ok(words) => Ok(NumPendingExitsCall::read_words(&words, 0)),
            Err(e) => Err(e),
        }
    }

    /// The selector read as one number.
    pub proof fn lemma_selector_value()
        ensures
            selector_value(Self::selector_bytes()) == 0xd67b6ca5,
    {
    }

    /// The call data of a call holds the call: it starts with the selector
    /// and the input is read back from the words behind it.
    pub proof fn lemma_call_data_holds_call(&self)
        ensures
            Self::accepts(self.call_data()),
            self.decoded_from(arguments(self.call_data()), 0),
    {
        let data = self.call_data();
        self.lemma_encoding_len();
        assert(data.subrange(0, 4) =~= Self::selector_bytes());
        assert(arguments(data) =~= self.abi_encoding());
        assert(arguments(data).subrange(0, 0) =~= self.abi_encoding());
        self.lemma_read_back(arguments(data), 0);
    }

    /// Decoding undoes encoding: whatever `decode` returns on the call data
    /// of a call is that call.
    pub proof fn lemma_round_trip(&self, decoded: Result<NumPendingExitsCall, AbiError>)
        requires
            match decoded {
                Ok(call) => call.decoded_from(arguments(self.call_data()), 0),
                Err(e) => !Self::accepts(self.call_data()),
            },
        ensures
            decoded == Ok::<NumPendingExitsCall, AbiError>(*self),
    {
        self.lemma_call_data_holds_call();
        match decoded {
            Ok(call) => {
                Self::lemma_decoding_unique(call, *self, arguments(self.call_data()), 0);
            },
            Err(e) => {},
        }
    }
}

/// Input of the contract function `numPendingRegistrations`.
#[derive(Clone, Copy, Debug, Default, PartialEq, Eq, Hash)]
pub struct NumPendingRegistrationsCall;

impl NumPendingRegistrationsCall {
    /// The words of the value, one after the other.
    pub open spec fn abi_encoding(&self) -> Seq<u8> {
        Seq::empty()
    }

    /// Whether the value is the one read from the words of `data` that start
    /// at word `at`.
    pub open spec fn decoded_from(&self, data: Seq<u8>, at: int) -> bool {
        true
    }

    /// Adds the words of the value to `words`.
    pub fn push_words(&self, words: &mut Vec<[u8; 32]>)
        ensures
            final(words)@.len() == old(words)@.len() + 0,
            concat_words(final(words)@) == concat_words(old(words)@) + self.abi_encoding(),
    {
        assert(concat_words(words@) =~= concat_words(old(words)@) + self.abi_encoding());
    }

    /// Reads the value from the 0 words that start at `words[at]`.
    pub fn read_words(words: &Vec<[u8; 32]>, at: usize) -> (value: NumPendingRegistrationsCall)
        requires
            at + 0 <= words@.len(),
        ensures
            forall|data: Seq<u8>|
                #[trigger] words_of(words@, data) ==> value.decoded_from(data, at as int),
    {
        NumPendingRegistrationsCall
    }

    /// The value takes 0 words.
    pub proof fn lemma_encoding_len(&self)
        ensures
            self.abi_encoding().len() == 0,
    {
    }

    /// The value is read back from its own words, wherever they stand in
    /// `data`.
    pub proof fn lemma_read_back(&self, data: Seq<u8>, at: int)
        requires
            0 <= at,
            32 * at + 0 <= data.len(),
            data.subrange(32 * at, 32 * at + 0) == self.abi_encoding(),
        ensures
            self.decoded_from(data, at),
    {
    }

    /// At most one value is read from given words.
    pub proof fn lemma_decoding_unique(a: NumPendingRegistrationsCall, b: NumPendingRegistrationsCall, data: Seq<u8>, at: int)
        requires
            a.decoded_from(data, at),
            b.decoded_from(data, at),
        ensures
            a == b,
    {
    }

    /// The first four bytes of the Keccak-256 digest of the signature.
    pub open spec fn selector_bytes() -> Seq<u8> {
        seq![0x16u8, 0xfeu8, 0xfeu8, 0xd7u8]
    }

    /// The selector of the function.
    pub fn selector() -> (selector: [u8; 4])
        ensures
            selector@ == Self::selector_bytes(),
    {
        let selector: [u8; 4] = [0x16, 0xfe, 0xfe, 0xd7];
        assert(selector@ =~= Self::selector_bytes());
        selector
    }

    /// The name of the function in the contract.
    pub fn function_name() -> (name: &'static str)
        ensures
            name@ == "numPendingRegistrations"@,
    {
        "numPendingRegistrations"
    }

    /// The signature of the function: its name and the types of its inputs.
    pub fn abi_signature() -> (signature: &'static str)
        ensures
            signature@ == "numPendingRegistrations()"@,
    {
        "numPendingRegistrations()"
    }

    /// The call data of the call: the selector, then the words of the input.
    pub open spec fn call_data(&self) -> Seq<u8> {
        Self::selector_bytes() + self.abi_encoding()
    }

    /// Whether `data` starts with the selector and holds the words of an
    /// input behind it.
    pub open spec fn accepts(data: Seq<u8>) -> bool {
        has_selector(data, Self::selector_bytes()) && 0 <= data.len() - 4
    }

    /// The call data of the call.
    pub fn encode(&self) -> (out: Vec<u8>)
        ensures
            out@ == self.call_data(),
    {
        let mut words: Vec<[u8; 32]> = Vec::new();
        self.push_words(&mut words);
        assert(concat_words(Seq::<[u8; 32]>::empty()) =~= Seq::<u8>::empty());
        assert(concat_words(words@) =~= self.abi_encoding());
        encode_call(&Self::selector(), &words)
    }

    /// Reads a call back from call data. Fails with `WrongSelector` if
    /// `data` does not start with the selector of the function, else with
    /// `InvalidData` if `data` is too short for the input. Bytes behind the
    /// input are ignored.
    pub fn decode(data: &[u8]) -> (out: Result<NumPendingRegistrationsCall, AbiError>)
        ensures
            match out {
                Ok(call) => Self::accepts(data@) && call.decoded_from(arguments(data@), 0),
                Err(e) => !Self::accepts(data@) && e == (if has_selector(
                    data@,
                    Self::selector_bytes(),
                ) {
                    AbiError::InvalidData
                } else {
                    AbiError::WrongSelector
                }),
            },
    {
        match decode_call(&Self::selector(), 0, data) {
            Ok(words) => Ok(NumPendingRegistrationsCall::read_words(&words, 0)),
            Err(e) => Err(e),
        }
    }

    /// The selector read as one number.
    pub proof fn lemma_selector_value()
        ensures
            selector_value(Self::selector_bytes()) == 0x16fefed7,
    {
    }

    /// The call data of a call holds the call: it starts with the selector
    /// and the input is read back from the words behind it.
    pub proof fn lemma_call_data_holds_call(&self)
        ensures
            Self::accepts(self.call_data()),
            self.decoded_from(arguments(self.call_data()), 0),
    {
        let data = self.call_data();
        self.lemma_encoding_len();
        assert(data.subrange(0, 4) =~= Self::selector_bytes());
        assert(arguments(data) =~= self.abi_encoding());
        assert(arguments(data).subrange(0, 0) =~= self.abi_encoding());
        self.lemma_read_back(arguments(data), 0);
    }

    /// Decoding undoes encoding: whatever `decode` returns on the call data
    /// of a call is that call.
    pub proof fn lemma_round_trip(&self, decoded: Result<NumPendingRegistrationsCall, AbiError>)
        requires
            match decoded {
                Ok(call) => call.decoded_from(arguments(self.call_data()), 0),
                Err(e) => !Self::accepts(self.call_data()),
            },
        ensures
            decoded == Ok::<NumPendingRegistrationsCall, AbiError>(*self),
    {
        self.lemma_call_data_holds_call();
        match decoded {
            Ok(call) => {
                Self::lemma_decoding_unique(call, *self, arguments(self.call_data()), 0);
            },
            Err(e) => {},
        }
    }
}

/// Input of the contract function `register`.
#[derive(Clone, Copy, Debug, Default, PartialEq, Eq, Hash)]
pub struct RegisterCall {
    /// BLS verification key of the node.
    pub bls_vk: G2Point,
    /// Key that verifies the state signatures of the node.
    pub schnorr_vk: EdOnBN254Point,
    /// Amount of stake.
    pub amount: u64,
    /// Kind of stake: native or restaked.
    pub stake_type: u8,
    /// BLS signature of the node over the address of the caller.
    pub bls_sig: G1Point,
    /// Last epoch in which the registration may take effect.
    pub valid_until_epoch: u64,
}

impl RegisterCall {
    /// The words of the value, one after the other.
    pub open spec fn abi_encoding(&self) -> Seq<u8> {
        self.bls_vk.abi_encoding() + self.schnorr_vk.abi_encoding() + u64_word(self.amount) + u8_word(self.stake_type) + self.bls_sig.abi_encoding() + u64_word(self.valid_until_epoch)
    }

    /// Whether the value is the one read from the words of `data` that start
    /// at word `at`.
    pub open spec fn decoded_from(&self, data: Seq<u8>, at: int) -> bool {
        &&& self.bls_vk.decoded_from(data, at)
        &&& self.schnorr_vk.decoded_from(data, at + 4)
        &&& self.amount == word_u64(word_at(data, at + 6))
        &&& self.stake_type == word_u8(word_at(data, at + 7))
        &&& self.bls_sig.decoded_from(data, at + 8)
        &&& self.valid_until_epoch == word_u64(word_at(data, at + 10))
    }

    /// Adds the words of the value to `words`.
    pub fn push_words(&self, words: &mut Vec<[u8; 32]>)
        ensures
            final(words)@.len() == old(words)@.len() + 11,
            concat_words(final(words)@) == concat_words(old(words)@) + self.abi_encoding(),
    {
        self.bls_vk.push_words(words);
        self.schnorr_vk.push_words(words);
        push_word(words, encode_u64(self.amount));
        push_word(words, encode_u8(self.stake_type));
        self.bls_sig.push_words(words);
        push_word(words, encode_u64(self.valid_until_epoch));
        assert(concat_words(words@) =~= concat_words(old(words)@) + self.abi_encoding());
    }

    /// Reads the value from the 11 words that start at `words[at]`.
    pub fn read_words(words: &Vec<[u8; 32]>, at: usize) -> (value: RegisterCall)
        requires
            at + 11 <= words@.len(),
        ensures
            forall|data: Seq<u8>|
                #[trigger] words_of(words@, data) ==> value.decoded_from(data, at as int),
    {
        let available = words.len();
        assert(at + 11 <= available);
        let value = RegisterCall {
            bls_vk: G2Point::read_words(words, at),
            schnorr_vk: EdOnBN254Point::read_words(words, at + 4),
            amount: decode_u64(&words[at + 6]),
            stake_type: decode_u8(&words[at + 7]),
            bls_sig: G1Point::read_words(words, at + 8),
            valid_until_epoch: decode_u64(&words[at + 10]),
        };
        assert forall|data: Seq<u8>| #[trigger] words_of(words@, data) implies value.decoded_from(
            data,
            at as int,
        ) by {
            assert(words@[at as int]@ == word_at(data, at as int));
            assert(words@[at as int + 1]@ == word_at(data, at as int + 1));
            assert(words@[at as int + 2]@ == word_at(data, at as int + 2));
            assert(words@[at as int + 3]@ == word_at(data, at as int + 3));
            assert(words@[at as int + 4]@ == word_at(data, at as int + 4));
            assert(words@[at as int + 5]@ == word_at(data, at as int + 5));
            assert(words@[at as int + 6]@ == word_at(data, at as int + 6));
            assert(words@[at as int + 7]@ == word_at(data, at as int + 7));
            assert(words@[at as int + 8]@ == word_at(data, at as int + 8));
            assert(words@[at as int + 9]@ == word_at(data, at as int + 9));
            assert(words@[at as int + 10]@ == word_at(data, at as int + 10));
        }
        value
    }

    /// The value takes 11 words.
    pub proof fn lemma_encoding_len(&self)
        ensures
            self.abi_encoding().len() == 352,
    {
        self.bls_vk.lemma_encoding_len();
        self.schnorr_vk.lemma_encoding_len();
        lemma_u64_word_round_trip(self.amount);
        self.bls_sig.lemma_encoding_len();
        lemma_u64_word_round_trip(self.valid_until_epoch);
    }

    /// The value is read back from its own words, wherever they stand in
    /// `data`.
    pub proof fn lemma_read_back(&self, data: Seq<u8>, at: int)
        requires
            0 <= at,
            32 * at + 352 <= data.len(),
            data.subrange(32 * at, 32 * at + 352) == self.abi_encoding(),
        ensures
            self.decoded_from(data, at),
    {
        let enc = self.abi_encoding();
        self.bls_vk.lemma_encoding_len();
        self.schnorr_vk.lemma_encoding_len();
        lemma_u64_word_round_trip(self.amount);
        self.bls_sig.lemma_encoding_len();
        lemma_u64_word_round_trip(self.valid_until_epoch);
        assert(data.subrange(32 * at, 32 * at + 128) =~= enc.subrange(0, 128));
        assert(enc.subrange(0, 128) =~= self.bls_vk.abi_encoding());
        self.bls_vk.lemma_read_back(data, at);
        assert(data.subrange(32 * (at + 4), 32 * (at + 4) + 64) =~= enc.subrange(128, 192));
        assert(enc.subrange(128, 192) =~= self.schnorr_vk.abi_encoding());
        self.schnorr_vk.lemma_read_back(data, at + 4);
        assert(word_at(data, at + 6) =~= enc.subrange(192, 224));
        assert(enc.subrange(192, 224) =~= u64_word(self.amount));
        assert(word_at(data, at + 7) =~= enc.subrange(224, 256));
        assert(enc.subrange(224, 256) =~= u8_word(self.stake_type));
        assert(data.subrange(32 * (at + 8), 32 * (at + 8) + 64) =~= enc.subrange(256, 320));
        assert(enc.subrange(256, 320) =~= self.bls_sig.abi_encoding());
        self.bls_sig.lemma_read_back(data, at + 8);
        assert(word_at(data, at + 10) =~= enc.subrange(320, 352));
        assert(enc.subrange(320, 352) =~= u64_word(self.valid_until_epoch));
    }

    /// At most one value is read from given words.
    pub proof fn lemma_decoding_unique(a: RegisterCall, b: RegisterCall, data: Seq<u8>, at: int)
        requires
            a.decoded_from(data, at),
            b.decoded_from(data, at),
        ensures
            a == b,
    {
        G2Point::lemma_decoding_unique(a.bls_vk, b.bls_vk, data, at);
        EdOnBN254Point::lemma_decoding_unique(a.schnorr_vk, b.schnorr_vk, data, at + 4);
        G1Point::lemma_decoding_unique(a.bls_sig, b.bls_sig, data, at + 8);
    }

    /// The first four bytes of the Keccak-256 digest of the signature.
    pub open spec fn selector_bytes() -> Seq<u8> {
        seq![0xc7u8, 0x2cu8, 0xc7u8, 0x17u8]
    }

    /// The selector of the function.
    pub fn selector() -> (selector: [u8; 4])
        ensures
            selector@ == Self::selector_bytes(),
    {
        let selector: [u8; 4] = [0xc7, 0x2c, 0xc7, 0x17];
        assert(selector@ =~= Self::selector_bytes());
        selector
    }

    /// The name of the function in the contract.
    pub fn function_name() -> (name: &'static str)
        ensures
            name@ == "register"@,
    {
        "register"
    }

    /// The signature of the function: its name and the types of its inputs.
    pub fn abi_signature() -> (signature: &'static str)
        ensures
            signature@ == "register((uint256,uint256,uint256,uint256),(uint256,uint256),uint64,uint8,(uint256,uint256),uint64)"@,
    {
        "register((uint256,uint256,uint256,uint256),(uint256,uint256),uint64,uint8,(uint256,uint256),uint64)"
    }

    /// The call data of the call: the selector, then the words of the input.
    pub open spec fn call_data(&self) -> Seq<u8> {
        Self::selector_bytes() + self.abi_encoding()
    }

    /// Whether `data` starts with the selector and holds the words of an
    /// input behind it.
    pub open spec fn accepts(data: Seq<u8>) -> bool {
        has_selector(data, Self::selector_bytes()) && 352 <= data.len() - 4
    }

    /// The call data of the call.
    pub fn encode(&self) -> (out: Vec<u8>)
        ensures
            out@ == self.call_data(),
    {
        let mut words: Vec<[u8; 32]> = Vec::new();
        self.push_words(&mut words);
        assert(concat_words(Seq::<[u8; 32]>::empty()) =~= Seq::<u8>::empty());
        assert(concat_words(words@) =~= self.abi_encoding());
        encode_call(&Self::selector(), &words)
    }

    /// Reads a call back from call data. Fails with `WrongSelector` if
    /// `data` does not start with the selector of the function, else with
    /// `InvalidData` if `data` is too short for the input. Bytes behind the
    /// input are ignored.
    pub fn decode(data: &[u8]) -> (out: Result<RegisterCall, AbiError>)
        ensures
            match out {
                Ok(call) => Self::accepts(data@) && call.decoded_from(arguments(data@), 0),
                Err(e) => !Self::accepts(data@) && e == (if has_selector(
                    data@,
                    Self::selector_bytes(),
                ) {
                    AbiError::InvalidData
                } else {
                    AbiError::WrongSelector
                }),
            },
    {
        match decode_call(&Self::selector(), 11, data) {
            Ok(words) => Ok(RegisterCall::read_words(&words, 0)),
            Err(e) => Err(e),
        }
    }

    /// The selector read as one number.
    pub proof fn lemma_selector_value()
        ensures
            selector_value(Self::selector_bytes()) == 0xc72cc717,
    {
    }

    /// The call data of a call holds the call: it starts with the selector
    /// and the input is read back from the words behind it.
    pub proof fn lemma_call_data_holds_call(&self)
        ensures
            Self::accepts(self.call_data()),
            self.decoded_from(arguments(self.call_data()), 0),
    {
        let data = self.call_data();
        self.lemma_encoding_len();
        assert(data.subrange(0, 4) =~= Self::selector_bytes());
        assert(arguments(data) =~= self.abi_encoding());
        assert(arguments(data).subrange(0, 352) =~= self.abi_encoding());
        self.lemma_read_back(arguments(data), 0);
    }

    /// Decoding undoes encoding: whatever `decode` returns on the call data
    /// of a call is that call.
    pub proof fn lemma_round_trip(&self, decoded: Result<RegisterCall, AbiError>)
        requires
            match decoded {
                Ok(call) => call.decoded_from(arguments(self.call_data()), 0),
                Err(e) => !Self::accepts(self.call_data()),
            },
        ensures
            decoded == Ok::<RegisterCall, AbiError>(*self),
    {
        self.lemma_call_data_holds_call();
        match decoded {
            Ok(call) => {
                Self::lemma_decoding_unique(call, *self, arguments(self.call_data()), 0);
            },
            Err(e) => {},
        }
    }
}

/// Input of the contract function `requestExit`.
#[derive(Clone, Copy, Debug, Default, PartialEq, Eq, Hash)]
pub struct RequestExitCall {
    /// BLS verification key of the node.
    pub bls_vk: G2Point,
}

impl RequestExitCall {
    /// The words of the value, one after the other.
    pub open spec fn abi_encoding(&self) -> Seq<u8> {
        self.bls_vk.abi_encoding()
    }

    /// Whether the value is the one read from the words of `data` that start
    /// at word `at`.
    pub open spec fn decoded_from(&self, data: Seq<u8>, at: int) -> bool {
        &&& self.bls_vk.decoded_from(data, at)
    }

    /// Adds the words of the value to `words`.
    pub fn push_words(&self, words: &mut Vec<[u8; 32]>)
        ensures
            final(words)@.len() == old(words)@.len() + 4,
            concat_words(final(words)@) == concat_words(old(words)@) + self.abi_encoding(),
    {
        self.bls_vk.push_words(words);
        assert(concat_words(words@) =~= concat_words(old(words)@) + self.abi_encoding());
    }

    /// Reads the value from the 4 words that start at `words[at]`.
    pub fn read_words(words: &Vec<[u8; 32]>, at: usize) -> (value: RequestExitCall)
        requires
            at + 4 <= words@.len(),
        ensures
            forall|data: Seq<u8>|
                #[trigger] words_of(words@, data) ==> value.decoded_from(data, at as int),
    {
        let available = words.len();
        assert(at + 4 <= available);
        let value = RequestExitCall {
            bls_vk: G2Point::read_words(words, at),
        };
        assert forall|data: Seq<u8>| #[trigger] words_of(words@, data) implies value.decoded_from(
            data,
            at as int,
        ) by {
            assert(words@[at as int]@ == word_at(data, at as int));
            assert(words@[at as int + 1]@ == word_at(data, at as int + 1));
            assert(words@[at as int + 2]@ == word_at(data, at as int + 2));
            assert(words@[at as int + 3]@ == word_at(data, at as int + 3));
        }
        value
    }

    /// The value takes 4 words.
    pub proof fn lemma_encoding_len(&self)
        ensures
            self.abi_encoding().len() == 128,
    {
        self.bls_vk.lemma_encoding_len();
    }

    /// The value is read back from its own words, wherever they stand in
    /// `data`.
    pub proof fn lemma_read_back(&self, data: Seq<u8>, at: int)
        requires
            0 <= at,
            32 * at + 128 <= data.len(),
            data.subrange(32 * at, 32 * at + 128) == self.abi_encoding(),
        ensures
            self.decoded_from(data, at),
    {
        let enc = self.abi_encoding();
        self.bls_vk.lemma_encoding_len();
        assert(data.subrange(32 * at, 32 * at + 128) =~= enc.subrange(0, 128));
        assert(enc.subrange(0, 128) =~= self.bls_vk.abi_encoding());
        self.bls_vk.lemma_read_back(data, at);
    }

    /// At most one value is read from given words.
    pub proof fn lemma_decoding_unique(a: RequestExitCall, b: RequestExitCall, data: Seq<u8>, at: int)
        requires
            a.decoded_from(data, at),
            b.decoded_from(data, at),
        ensures
            a == b,
    {
        G2Point::lemma_decoding_unique(a.bls_vk, b.bls_vk, data, at);
    }

    /// The first four bytes of the Keccak-256 digest of the signature.
    pub open spec fn selector_bytes() -> Seq<u8> {
        seq![0x4au8, 0xa7u8, 0xc2u8, 0x7fu8]
    }

    /// The selector of the function.
    pub fn selector() -> (selector: [u8; 4])
        ensures
            selector@ == Self::selector_bytes(),
    {
        let selector: [u8; 4] = [0x4a, 0xa7, 0xc2, 0x7f];
        assert(selector@ =~= Self::selector_bytes());
        selector
    }

    /// The name of the function in the contract.
    pub fn function_name() -> (name: &'static str)
        ensures
            name@ == "requestExit"@,
    {
        "requestExit"
    }

    /// The signature of the function: its name and the types of its inputs.
    pub fn abi_signature() -> (signature: &'static str)
        ensures
            signature@ == "requestExit((uint256,uint256,uint256,uint256))"@,
    {
        "requestExit((uint256,uint256,uint256,uint256))"
    }

    /// The call data of the call: the selector, then the words of the input.
    pub open spec fn call_data(&self) -> Seq<u8> {
        Self::selector_bytes() + self.abi_encoding()
    }

    /// Whether `data` starts with the selector and holds the words of an
    /// input behind it.
    pub open spec fn accepts(data: Seq<u8>) -> bool {
        has_selector(data, Self::selector_bytes()) && 128 <= data.len() - 4
    }

    /// The call data of the call.
    pub fn encode(&self) -> (out: Vec<u8>)
        ensures
            out@ == self.call_data(),
    {
        let mut words: Vec<[u8; 32]> = Vec::new();
        self.push_words(&mut words);
        assert(concat_words(Seq::<[u8; 32]>::empty()) =~= Seq::<u8>::empty());
        assert(concat_words(words@) =~= self.abi_encoding());
        encode_call(&Self::selector(), &words)
    }

    /// Reads a call back from call data. Fails with `WrongSelector` if
    /// `data` does not start with the selector of the function, else with
    /// `InvalidData` if `data` is too short for the input. Bytes behind the
    /// input are ignored.
    pub fn decode(data: &[u8]) -> (out: Result<RequestExitCall, AbiError>)
        ensures
            match out {
                Ok(call) => Self::accepts(data@) && call.decoded_from(arguments(data@), 0),
                Err(e) => !Self::accepts(data@) && e == (if has_selector(
                    data@,
                    Self::selector_bytes(),
                ) {
                    AbiError::InvalidData
                } else {
                    AbiError::WrongSelector
                }),
            },
    {
        match decode_call(&Self::selector(), 4, data) {
            Ok(words) => Ok(RequestExitCall::read_words(&words, 0)),
            Err(e) => Err(e),
        }
    }

    /// The selector read as one number.
    pub proof fn lemma_selector_value()
        ensures
            selector_value(Self::selector_bytes()) == 0x4aa7c27f,
    {
    }

    /// The call data of a call holds the call: it starts with the selector
    /// and the input is read back from the words behind it.
    pub proof fn lemma_call_data_holds_call(&self)
        ensures
            Self::accepts(self.call_data()),
            self.decoded_from(arguments(self.call_data()), 0),
    {
        let data = self.call_data();
        self.lemma_encoding_len();
        assert(data.subrange(0, 4) =~= Self::selector_bytes());
        assert(arguments(data) =~= self.abi_encoding());
        assert(arguments(data).subrange(0, 128) =~= self.abi_encoding());
        self.lemma_read_back(arguments(data), 0);
    }

    /// Decoding undoes encoding: whatever `decode` returns on the call data
    /// of a call is that call.
    pub proof fn lemma_round_trip(&self, decoded: Result<RequestExitCall, AbiError>)
        requires
            match decoded {
                Ok(call) => call.decoded_from(arguments(self.call_data()), 0),
                Err(e) => !Self::accepts(self.call_data()),
            },
        ensures
            decoded == Ok::<RequestExitCall, AbiError>(*self),
    {
        self.lemma_call_data_holds_call();
        match decoded {
            Ok(call) => {
                Self::lemma_decoding_unique(call, *self, arguments(self.call_data()), 0);
            },
            Err(e) => {},
        }
    }
}

/// Input of the contract function `tokenAddress`.
#[derive(Clone, Copy, Debug, Default, PartialEq, Eq, Hash)]
pub struct TokenAddressCall;

impl TokenAddressCall {
    /// The words of the value, one after the other.
    pub open spec fn abi_encoding(&self) -> Seq<u8> {
        Seq::empty()
    }

    /// Whether the value is the one read from the words of `data` that start
    /// at word `at`.
    pub open spec fn decoded_from(&self, data: Seq<u8>, at: int) -> bool {
        true
    }

    /// Adds the words of the value to `words`.
    pub fn push_words(&self, words: &mut Vec<[u8; 32]>)
        ensures
            final(words)@.len() == old(words)@.len() + 0,
            concat_words(final(words)@) == concat_words(old(words)@) + self.abi_encoding(),
    {
        assert(concat_words(words@) =~= concat_words(old(words)@) + self.abi_encoding());
    }

    /// Reads the value from the 0 words that start at `words[at]`.
    pub fn read_words(words: &Vec<[u8; 32]>, at: usize) -> (value: TokenAddressCall)
        requires
            at + 0 <= words@.len(),
        ensures
            forall|data: Seq<u8>|
                #[trigger] words_of(words@, data) ==> value.decoded_from(data, at as int),
    {
        TokenAddressCall
    }

    /// The value takes 0 words.
    pub proof fn lemma_encoding_len(&self)
        ensures
            self.abi_encoding().len() == 0,
    {
    }

    /// The value is read back from its own words, wherever they stand in
    /// `data`.
    pub proof fn lemma_read_back(&self, data: Seq<u8>, at: int)
        requires
            0 <= at,
            32 * at + 0 <= data.len(),
            data.subrange(32 * at, 32 * at + 0) == self.abi_encoding(),
        ensures
            self.decoded_from(data, at),
    {
    }

    /// At most one value is read from given words.
    pub proof fn lemma_decoding_unique(a: TokenAddressCall, b: TokenAddressCall, data: Seq<u8>, at: int)
        requires
            a.decoded_from(data, at),
            b.decoded_from(data, at),
        ensures
            a == b,
    {
    }

    /// The first four bytes of the Keccak-256 digest of the signature.
    pub open spec fn selector_bytes() -> Seq<u8> {
        seq![0x9du8, 0x76u8, 0xeau8, 0x58u8]
    }

    /// The selector of the function.
    pub fn selector() -> (selector: [u8; 4])
        ensures
            selector@ == Self::selector_bytes(),
    {
        let selector: [u8; 4] = [0x9d, 0x76, 0xea, 0x58];
        assert(selector@ =~= Self::selector_bytes());
        selector
    }

    /// The name of the function in the contract.
    pub fn function_name() -> (name: &'static str)
        ensures
            name@ == "tokenAddress"@,
    {
        "tokenAddress"
    }

    /// The signature of the function: its name and the types of its inputs.
    pub fn abi_signature() -> (signature: &'static str)
        ensures
            signature@ == "tokenAddress()"@,
    {
        "tokenAddress()"
    }

    /// The call data of the call: the selector, then the words of the input.
    pub open spec fn call_data(&self) -> Seq<u8> {
        Self::selector_bytes() + self.abi_encoding()
    }

    /// Whether `data` starts with the selector and holds the words of an
    /// input behind it.
    pub open spec fn accepts(data: Seq<u8>) -> bool {
        has_selector(data, Self::selector_bytes()) && 0 <= data.len() - 4
    }

    /// The call data of the call.
    pub fn encode(&self) -> (out: Vec<u8>)
        ensures
            out@ == self.call_data(),
    {
        let mut words: Vec<[u8; 32]> = Vec::new();
        self.push_words(&mut words);
        assert(concat_words(Seq::<[u8; 32]>::empty()) =~= Seq::<u8>::empty());
        assert(concat_words(words@) =~= self.abi_encoding());
        encode_call(&Self::selector(), &words)
    }

    /// Reads a call back from call data. Fails with `WrongSelector` if
    /// `data` does not start with the selector of the function, else with
    /// `InvalidData` if `data` is too short for the input. Bytes behind the
    /// input are ignored.
    pub fn decode(data: &[u8]) -> (out: Result<TokenAddressCall, AbiError>)
        ensures
            match out {
                Ok(call) => Self::accepts(data@) && call.decoded_from(arguments(data@), 0),
                Err(e) => !Self::accepts(data@) && e == (if has_selector(
                    data@,
                    Self::selector_bytes(),
                ) {
                    AbiError::InvalidData
                } else {
                    AbiError::WrongSelector
                }),
            },
    {
        match decode_call(&Self::selector(), 0, data) {
            Ok(words) => Ok(TokenAddressCall::read_words(&words, 0)),
            Err(e) => Err(e),
        }
    }

    /// The selector read as one number.
    pub proof fn lemma_selector_value()
        ensures
            selector_value(Self::selector_bytes()) == 0x9d76ea58,
    {
    }

    /// The call data of a call holds the call: it starts with the selector
    /// and the input is read back from the words behind it.
    pub proof fn lemma_call_data_holds_call(&self)
        ensures
            Self::accepts(self.call_data()),
            self.decoded_from(arguments(self.call_data()), 0),
    {
        let data = self.call_data();
        self.lemma_encoding_len();
        assert(data.subrange(0, 4) =~= Self::selector_bytes());
        assert(arguments(data) =~= self.abi_encoding());
        assert(arguments(data).subrange(0, 0) =~= self.abi_encoding());
        self.lemma_read_back(arguments(data), 0);
    }

    /// Decoding undoes encoding: whatever `decode` returns on the call data
    /// of a call is that call.
    pub proof fn lemma_round_trip(&self, decoded: Result<TokenAddressCall, AbiError>)
        requires
            match decoded {
                Ok(call) => call.decoded_from(arguments(self.call_data()), 0),
                Err(e) => !Self::accepts(self.call_data()),
            },
        ensures
            decoded == Ok::<TokenAddressCall, AbiError>(*self),
    {
        self.lemma_call_data_holds_call();
        match decoded {
            Ok(call) => {
                Self::lemma_decoding_unique(call, *self, arguments(self.call_data()), 0);
            },
            Err(e) => {},
        }
    }
}

/// Input of the contract function `totalKeys`.
#[derive(Clone, Copy, Debug, Default, PartialEq, Eq, Hash)]
pub struct TotalKeysCall;

impl TotalKeysCall {
    /// The words of the value, one after the other.
    pub open spec fn abi_encoding(&self) -> Seq<u8> {
        Seq::empty()
    }

    /// Whether the value is the one read from the words of `data` that start
    /// at word `at`.
    pub open spec fn decoded_from(&self, data: Seq<u8>, at: int) -> bool {
        true
    }

    /// Adds the words of the value to `words`.
    pub fn push_words(&self, words: &mut Vec<[u8; 32]>)
        ensures
            final(words)@.len() == old(words)@.len() + 0,
            concat_words(final(words)@) == concat_words(old(words)@) + self.abi_encoding(),
    {
        assert(concat_words(words@) =~= concat_words(old(words)@) + self.abi_encoding());
    }

    /// Reads the value from the 0 words that start at `words[at]`.
    pub fn read_words(words: &Vec<[u8; 32]>, at: usize) -> (value: TotalKeysCall)
        requires
            at + 0 <= words@.len(),
        ensures
            forall|data: Seq<u8>|
                #[trigger] words_of(words@, data) ==> value.decoded_from(data, at as int),
    {
        TotalKeysCall
    }

    /// The value takes 0 words.
    pub proof fn lemma_encoding_len(&self)
        ensures
            self.abi_encoding().len() == 0,
    {
    }

    /// The value is read back from its own words, wherever they stand in
    /// `data`.
    pub proof fn lemma_read_back(&self, data: Seq<u8>, at: int)
        requires
            0 <= at,
            32 * at + 0 <= data.len(),
            data.subrange(32 * at, 32 * at + 0) == self.abi_encoding(),
        ensures
            self.decoded_from(data, at),
    {
    }

    /// At most one value is read from given words.
    pub proof fn lemma_decoding_unique(a: TotalKeysCall, b: TotalKeysCall, data: Seq<u8>, at: int)
        requires
            a.decoded_from(data, at),
            b.decoded_from(data, at),
        ensures
            a == b,
    {
    }

    /// The first four bytes of the Keccak-256 digest of the signature.
    pub open spec fn selector_bytes() -> Seq<u8> {
        seq![0x48u8, 0x8bu8, 0xdau8, 0xbcu8]
    }

    /// The selector of the function.
    pub fn selector() -> (selector: [u8; 4])
        ensures
            selector@ == Self::selector_bytes(),
    {
        let selector: [u8; 4] = [0x48, 0x8b, 0xda, 0xbc];
        assert(selector@ =~= Self::selector_bytes());
        selector
    }

    /// The name of the function in the contract.
    pub fn function_name() -> (name: &'static str)
        ensures
            name@ == "totalKeys"@,
    {
        "totalKeys"
    }

    /// The signature of the function: its name and the types of its inputs.
    pub fn abi_signature() -> (signature: &'static str)
        ensures
            signature@ == "totalKeys()"@,
    {
        "totalKeys()"
    }

    /// The call data of the call: the selector, then the words of the input.
    pub open spec fn call_data(&self) -> Seq<u8> {
        Self::selector_bytes() + self.abi_encoding()
    }

    /// Whether `data` starts with the selector and holds the words of an
    /// input behind it.
    pub open spec fn accepts(data: Seq<u8>) -> bool {
        has_selector(data, Self::selector_bytes()) && 0 <= data.len() - 4
    }

    /// The call data of the call.
    pub fn encode(&self) -> (out: Vec<u8>)
        ensures
            out@ == self.call_data(),
    {
        let mut words: Vec<[u8; 32]> = Vec::new();
        self.push_words(&mut words);
        assert(concat_words(Seq::<[u8; 32]>::empty()) =~= Seq::<u8>::empty());
        assert(concat_words(words@) =~= self.abi_encoding());
        encode_call(&Self::selector(), &words)
    }

    /// Reads a call back from call data. Fails with `WrongSelector` if
    /// `data` does not start with the selector of the function, else with
    /// `InvalidData` if `data` is too short for the input. Bytes behind the
    /// input are ignored.
    pub fn decode(data: &[u8]) -> (out: Result<TotalKeysCall, AbiError>)
        ensures
            match out {
                Ok(call) => Self::accepts(data@) && call.decoded_from(arguments(data@), 0),
                Err(e) => !Self::accepts(data@) && e == (if has_selector(
                    data@,
                    Self::selector_bytes(),
                ) {
                    AbiError::InvalidData
                } else {
                    AbiError::WrongSelector
                }),
            },
    {
        match decode_call(&Self::selector(), 0, data) {
            Ok(words) => Ok(TotalKeysCall::read_words(&words, 0)),
            Err(e) => Err(e),
        }
    }

    /// The selector read as one number.
    pub proof fn lemma_selector_value()
        ensures
            selector_value(Self::selector_bytes()) == 0x488bdabc,
    {
    }

    /// The call data of a call holds the call: it starts with the selector
    /// and the input is read back from the words behind it.
    pub proof fn lemma_call_data_holds_call(&self)
        ensures
            Self::accepts(self.call_data()),
            self.decoded_from(arguments(self.call_data()), 0),
    {
        let data = self.call_data();
        self.lemma_encoding_len();
        assert(data.subrange(0, 4) =~= Self::selector_bytes());
        assert(arguments(data) =~= self.abi_encoding());
        assert(arguments(data).subrange(0, 0) =~= self.abi_encoding());
        self.lemma_read_back(arguments(data), 0);
    }

    /// Decoding undoes encoding: whatever `decode` returns on the call data
    /// of a call is that call.
    pub proof fn lemma_round_trip(&self, decoded: Result<TotalKeysCall, AbiError>)
        requires
            match decoded {
                Ok(call) => call.decoded_from(arguments(self.call_data()), 0),
                Err(e) => !Self::accepts(self.call_data()),
            },
        ensures
            decoded == Ok::<TotalKeysCall, AbiError>(*self),
    {
        self.lemma_call_data_holds_call();
        match decoded {
            Ok(call) => {
                Self::lemma_decoding_unique(call, *self, arguments(self.call_data()), 0);
            },
            Err(e) => {},
        }
    }
}

/// Input of the contract function `totalNativeStake`.
#[derive(Clone, Copy, Debug, Default, PartialEq, Eq, Hash)]
pub struct TotalNativeStakeCall;

impl TotalNativeStakeCall {
    /// The words of the value, one after the other.
    pub open spec fn abi_encoding(&self) -> Seq<u8> {
        Seq::empty()
    }

    /// Whether the value is the one read from the words of `data` that start
    /// at word `at`.
    pub open spec fn decoded_from(&self, data: Seq<u8>, at: int) -> bool {
        true
    }

    /// Adds the words of the value to `words`.
    pub fn push_words(&self, words: &mut Vec<[u8; 32]>)
        ensures
            final(words)@.len() == old(words)@.len() + 0,
            concat_words(final(words)@) == concat_words(old(words)@) + self.abi_encoding(),
    {
        assert(concat_words(words@) =~= concat_words(old(words)@) + self.abi_encoding());
    }

    /// Reads the value from the 0 words that start at `words[at]`.
    pub fn read_words(words: &Vec<[u8; 32]>, at: usize) -> (value: TotalNativeStakeCall)
        requires
            at + 0 <= words@.len(),
        ensures
            forall|data: Seq<u8>|
                #[trigger] words_of(words@, data) ==> value.decoded_from(data, at as int),
    {
        TotalNativeStakeCall
    }

    /// The value takes 0 words.
    pub proof fn lemma_encoding_len(&self)
        ensures
            self.abi_encoding().len() == 0,
    {
    }

    /// The value is read back from its own words, wherever they stand in
    /// `data`.
    pub proof fn lemma_read_back(&self, data: Seq<u8>, at: int)
        requires
            0 <= at,
            32 * at + 0 <= data.len(),
            data.subrange(32 * at, 32 * at + 0) == self.abi_encoding(),
        ensures
            self.decoded_from(data, at),
    {
    }

    /// At most one value is read from given words.
    pub proof fn lemma_decoding_unique(a: TotalNativeStakeCall, b: TotalNativeStakeCall, data: Seq<u8>, at: int)
        requires
            a.decoded_from(data, at),
            b.decoded_from(data, at),
        ensures
            a == b,
    {
    }

    /// The first four bytes of the Keccak-256 digest of the signature.
    pub open spec fn selector_bytes() -> Seq<u8> {
        seq![0x54u8, 0x4cu8, 0x2du8, 0x76u8]
    }

    /// The selector of the function.
    pub fn selector() -> (selector: [u8; 4])
        ensures
            selector@ == Self::selector_bytes(),
    {
        let selector: [u8; 4] = [0x54, 0x4c, 0x2d, 0x76];
        assert(selector@ =~= Self::selector_bytes());
        selector
    }

    /// The name of the function in the contract.
    pub fn function_name() -> (name: &'static str)
        ensures
            name@ == "totalNativeStake"@,
    {
        "totalNativeStake"
    }

    /// The signature of the function: its name and the types of its inputs.
    pub fn abi_signature() -> (signature: &'static str)
        ensures
            signature@ == "totalNativeStake()"@,
    {
        "totalNativeStake()"
    }

    /// The call data of the call: the selector, then the words of the input.
    pub open spec fn call_data(&self) -> Seq<u8> {
        Self::selector_bytes() + self.abi_encoding()
    }

    /// Whether `data` starts with the selector and holds the words of an
    /// input behind it.
    pub open spec fn accepts(data: Seq<u8>) -> bool {
        has_selector(data, Self::selector_bytes()) && 0 <= data.len() - 4
    }

    /// The call data of the call.
    pub fn encode(&self) -> (out: Vec<u8>)
        ensures
            out@ == self.call_data(),
    {
        let mut words: Vec<[u8; 32]> = Vec::new();
        self.push_words(&mut words);
        assert(concat_words(Seq::<[u8; 32]>::empty()) =~= Seq::<u8>::empty());
        assert(concat_words(words@) =~= self.abi_encoding());
        encode_call(&Self::selector(), &words)
    }

    /// Reads a call back from call data. Fails with `WrongSelector` if
    /// `data` does not start with the selector of the function, else with
    /// `InvalidData` if `data` is too short for the input. Bytes behind the
    /// input are ignored.
    pub fn decode(data: &[u8]) -> (out: Result<TotalNativeStakeCall, AbiError>)
        ensures
            match out {
                Ok(call) => Self::accepts(data@) && call.decoded_from(arguments(data@), 0),
                Err(e) => !Self::accepts(data@) && e == (if has_selector(
                    data@,
                    Self::selector_bytes(),
                ) {
                    AbiError::InvalidData
                } else {
                    AbiError::WrongSelector
                }),
            },
    {
        match decode_call(&Self::selector(), 0, data) {
            Ok(words) => Ok(TotalNativeStakeCall::read_words(&words, 0)),
            Err(e) => Err(e),
        }
    }

    /// The selector read as one number.
    pub proof fn lemma_selector_value()
        ensures
            selector_value(Self::selector_bytes()) == 0x544c2d76,
    {
    }

    /// The call data of a call holds the call: it starts with the selector
    /// and the input is read back from the words behind it.
    pub proof fn lemma_call_data_holds_call(&self)
        ensures
            Self::accepts(self.call_data()),
            self.decoded_from(arguments(self.call_data()), 0),
    {
        let data = self.call_data();
        self.lemma_encoding_len();
        assert(data.subrange(0, 4) =~= Self::selector_bytes());
        assert(arguments(data) =~= self.abi_encoding());
        assert(arguments(data).subrange(0, 0) =~= self.abi_encoding());
        self.lemma_read_back(arguments(data), 0);
    }

    /// Decoding undoes encoding: whatever `decode` returns on the call data
    /// of a call is that call.
    pub proof fn lemma_round_trip(&self, decoded: Result<TotalNativeStakeCall, AbiError>)
        requires
            match decoded {
                Ok(call) => call.decoded_from(arguments(self.call_data()), 0),
                Err(e) => !Self::accepts(self.call_data()),
            },
        ensures
            decoded == Ok::<TotalNativeStakeCall, AbiError>(*self),
    {
        self.lemma_call_data_holds_call();
        match decoded {
            Ok(call) => {
                Self::lemma_decoding_unique(call, *self, arguments(self.call_data()), 0);
            },
            Err(e) => {},
        }
    }
}

/// Input of the contract function `totalRestakedStake`.
#[derive(Clone, Copy, Debug, Default, PartialEq, Eq, Hash)]
pub struct TotalRestakedStakeCall;

impl TotalRestakedStakeCall {
    /// The words of the value, one after the other.
    pub open spec fn abi_encoding(&self) -> Seq<u8> {
        Seq::empty()
    }

    /// Whether the value is the one read from the words of `data` that start
    /// at word `at`.
    pub open spec fn decoded_from(&self, data: Seq<u8>, at: int) -> bool {
        true
    }

    /// Adds the words of the value to `words`.
    pub fn push_words(&self, words: &mut Vec<[u8; 32]>)
        ensures
            final(words)@.len() == old(words)@.len() + 0,
            concat_words(final(words)@) == concat_words(old(words)@) + self.abi_encoding(),
    {
        assert(concat_words(words@) =~= concat_words(old(words)@) + self.abi_encoding());
    }

    /// Reads the value from the 0 words that start at `words[at]`.
    pub fn read_words(words: &Vec<[u8; 32]>, at: usize) -> (value: TotalRestakedStakeCall)
        requires
            at + 0 <= words@.len(),
        ensures
            forall|data: Seq<u8>|
                #[trigger] words_of(words@, data) ==> value.decoded_from(data, at as int),
    {
        TotalRestakedStakeCall
    }

    /// The value takes 0 words.
    pub proof fn lemma_encoding_len(&self)
        ensures
            self.abi_encoding().len() == 0,
    {
    }

    /// The value is read back from its own words, wherever they stand in
    /// `data`.
    pub proof fn lemma_read_back(&self, data: Seq<u8>, at: int)
        requires
            0 <= at,
            32 * at + 0 <= data.len(),
            data.subrange(32 * at, 32 * at + 0) == self.abi_encoding(),
        ensures
            self.decoded_from(data, at),
    {
    }

    /// At most one value is read from given words.
    pub proof fn lemma_decoding_unique(a: TotalRestakedStakeCall, b: TotalRestakedStakeCall, data: Seq<u8>, at: int)
        requires
            a.decoded_from(data, at),
            b.decoded_from(data, at),
        ensures
            a == b,
    {
    }

    /// The first four bytes of the Keccak-256 digest of the signature.
    pub open spec fn selector_bytes() -> Seq<u8> {
        seq![0x6eu8, 0x8eu8, 0x4eu8, 0x6au8]
    }

    /// The selector of the function.
    pub fn selector() -> (selector: [u8; 4])
        ensures
            selector@ == Self::selector_bytes(),
    {
        let selector: [u8; 4] = [0x6e, 0x8e, 0x4e, 0x6a];
        assert(selector@ =~= Self::selector_bytes());
        selector
    }

    /// The name of the function in the contract.
    pub fn function_name() -> (name: &'static str)
        ensures
            name@ == "totalRestakedStake"@,
    {
        "totalRestakedStake"
    }

    /// The signature of the function: its name and the types of its inputs.
    pub fn abi_signature() -> (signature: &'static str)
        ensures
            signature@ == "totalRestakedStake()"@,
    {
        "totalRestakedStake()"
    }

    /// The call data of the call: the selector, then the words of the input.
    pub open spec fn call_data(&self) -> Seq<u8> {
        Self::selector_bytes() + self.abi_encoding()
    }

    /// Whether `data` starts with the selector and holds the words of an
    /// input behind it.
    pub open spec fn accepts(data: Seq<u8>) -> bool {
        has_selector(data, Self::selector_bytes()) && 0 <= data.len() - 4
    }

    /// The call data of the call.
    pub fn encode(&self) -> (out: Vec<u8>)
        ensures
            out@ == self.call_data(),
    {
        let mut words: Vec<[u8; 32]> = Vec::new();
        self.push_words(&mut words);
        assert(concat_words(Seq::<[u8; 32]>::empty()) =~= Seq::<u8>::empty());
        assert(concat_words(words@) =~= self.abi_encoding());
        encode_call(&Self::selector(), &words)
    }

    /// Reads a call back from call data. Fails with `WrongSelector` if
    /// `data` does not start with the selector of the function, else with
    /// `InvalidData` if `data` is too short for the input. Bytes behind the
    /// input are ignored.
    pub fn decode(data: &[u8]) -> (out: Result<TotalRestakedStakeCall, AbiError>)
        ensures
            match out {
                Ok(call) => Self::accepts(data@) && call.decoded_from(arguments(data@), 0),
                Err(e) => !Self::accepts(data@) && e == (if has_selector(
                    data@,
                    Self::selector_bytes(),
                ) {
                    AbiError::InvalidData
                } else {
                    AbiError::WrongSelector
                }),
            },
    {
        match decode_call(&Self::selector(), 0, data) {
            Ok(words) => Ok(TotalRestakedStakeCall::read_words(&words, 0)),
            Err(e) => Err(e),
        }
    }

    /// The selector read as one number.
    pub proof fn lemma_selector_value()
        ensures
            selector_value(Self::selector_bytes()) == 0x6e8e4e6a,
    {
    }

    /// The call data of a call holds the call: it starts with the selector
    /// and the input is read back from the words behind it.
    pub proof fn lemma_call_data_holds_call(&self)
        ensures
            Self::accepts(self.call_data()),
            self.decoded_from(arguments(self.call_data()), 0),
    {
        let data = self.call_data();
        self.lemma_encoding_len();
        assert(data.subrange(0, 4) =~= Self::selector_bytes());
        assert(arguments(data) =~= self.abi_encoding());
        assert(arguments(data).subrange(0, 0) =~= self.abi_encoding());
        self.lemma_read_back(arguments(data), 0);
    }

    /// Decoding undoes encoding: whatever `decode` returns on the call data
    /// of a call is that call.
    pub proof fn lemma_round_trip(&self, decoded: Result<TotalRestakedStakeCall, AbiError>)
        requires
            match decoded {
                Ok(call) => call.decoded_from(arguments(self.call_data()), 0),
                Err(e) => !Self::accepts(self.call_data()),
            },
        ensures
            decoded == Ok::<TotalRestakedStakeCall, AbiError>(*self),
    {
        self.lemma_call_data_holds_call();
        match decoded {
            Ok(call) => {
                Self::lemma_decoding_unique(call, *self, arguments(self.call_data()), 0);
            },
            Err(e) => {},
        }
    }
}

/// Input of the contract function `totalStake`.
#[derive(Clone, Copy, Debug, Default, PartialEq, Eq, Hash)]
pub struct TotalStakeCall;

impl TotalStakeCall {
    /// The words of the value, one after the other.
    pub open spec fn abi_encoding(&self) -> Seq<u8> {
        Seq::empty()
    }

    /// Whether the value is the one read from the words of `data` that start
    /// at word `at`.
    pub open spec fn decoded_from(&self, data: Seq<u8>, at: int) -> bool {
        true
    }

    /// Adds the words of the value to `words`.
    pub fn push_words(&self, words: &mut Vec<[u8; 32]>)
        ensures
            final(words)@.len() == old(words)@.len() + 0,
            concat_words(final(words)@) == concat_words(old(words)@) + self.abi_encoding(),
    {
        assert(concat_words(words@) =~= concat_words(old(words)@) + self.abi_encoding());
    }

    /// Reads the value from the 0 words that start at `words[at]`.
    pub fn read_words(words: &Vec<[u8; 32]>, at: usize) -> (value: TotalStakeCall)
        requires
            at + 0 <= words@.len(),
        ensures
            forall|data: Seq<u8>|
                #[trigger] words_of(words@, data) ==> value.decoded_from(data, at as int),
    {
        TotalStakeCall
    }

    /// The value takes 0 words.
    pub proof fn lemma_encoding_len(&self)
        ensures
            self.abi_encoding().len() == 0,
    {
    }

    /// The value is read back from its own words, wherever they stand in
    /// `data`.
    pub proof fn lemma_read_back(&self, data: Seq<u8>, at: int)
        requires
            0 <= at,
            32 * at + 0 <= data.len(),
            data.subrange(32 * at, 32 * at + 0) == self.abi_encoding(),
        ensures
            self.decoded_from(data, at),
    {
    }

    /// At most one value is read from given words.
    pub proof fn lemma_decoding_unique(a: TotalStakeCall, b: TotalStakeCall, data: Seq<u8>, at: int)
        requires
            a.decoded_from(data, at),
            b.decoded_from(data, at),
        ensures
            a == b,
    {
    }

    /// The first four bytes of the Keccak-256 digest of the signature.
    pub open spec fn selector_bytes() -> Seq<u8> {
        seq![0x8bu8, 0x0eu8, 0x9fu8, 0x3fu8]
    }

    /// The selector of the function.
    pub fn selector() -> (selector: [u8; 4])
        ensures
            selector@ == Self::selector_bytes(),
    {
        let selector: [u8; 4] = [0x8b, 0x0e, 0x9f, 0x3f];
        assert(selector@ =~= Self::selector_bytes());
        selector
    }

    /// The name of the function in the contract.
    pub fn function_name() -> (name: &'static str)
        ensures
            name@ == "totalStake"@,
    {
        "totalStake"
    }

    /// The signature of the function: its name and the types of its inputs.
    pub fn abi_signature() -> (signature: &'static str)
        ensures
            signature@ == "totalStake()"@,
    {
        "totalStake()"
    }

    /// The call data of the call: the selector, then the words of the input.
    pub open spec fn call_data(&self) -> Seq<u8> {
        Self::selector_bytes() + self.abi_encoding()
    }

    /// Whether `data` starts with the selector and holds the words of an
    /// input behind it.
    pub open spec fn accepts(data: Seq<u8>) -> bool {
        has_selector(data, Self::selector_bytes()) && 0 <= data.len() - 4
    }

    /// The call data of the call.
    pub fn encode(&self) -> (out: Vec<u8>)
        ensures
            out@ == self.call_data(),
    {
        let mut words: Vec<[u8; 32]> = Vec::new();
        self.push_words(&mut words);
        assert(concat_words(Seq::<[u8; 32]>::empty()) =~= Seq::<u8>::empty());
        assert(concat_words(words@) =~= self.abi_encoding());
        encode_call(&Self::selector(), &words)
    }

    /// Reads a call back from call data. Fails with `WrongSelector` if
    /// `data` does not start with the selector of the function, else with
    /// `InvalidData` if `data` is too short for the input. Bytes behind the
    /// input are ignored.
    pub fn decode(data: &[u8]) -> (out: Result<TotalStakeCall, AbiError>)
        ensures
            match out {
                Ok(call) => Self::accepts(data@) && call.decoded_from(arguments(data@), 0),
                Err(e) => !Self::accepts(data@) && e == (if has_selector(
                    data@,
                    Self::selector_bytes(),
                ) {
                    AbiError::InvalidData
                } else {
                    AbiError::WrongSelector
                }),
            },
    {
        match decode_call(&Self::selector(), 0, data) {
            Ok(words) => Ok(TotalStakeCall::read_words(&words, 0)),
            Err(e) => Err(e),
        }
    }

    /// The selector read as one number.
    pub proof fn lemma_selector_value()
        ensures
            selector_value(Self::selector_bytes()) == 0x8b0e9f3f,
    {
    }

    /// The call data of a call holds the call: it starts with the selector
    /// and the input is read back from the words behind it.
    pub proof fn lemma_call_data_holds_call(&self)
        ensures
            Self::accepts(self.call_data()),
            self.decoded_from(arguments(self.call_data()), 0),
    {
        let data = self.call_data();
        self.lemma_encoding_len();
        assert(data.subrange(0, 4) =~= Self::selector_bytes());
        assert(arguments(data) =~= self.abi_encoding());
        assert(arguments(data).subrange(0, 0) =~= self.abi_encoding());
        self.lemma_read_back(arguments(data), 0);
    }

    /// Decoding undoes encoding: whatever `decode` returns on the call data
    /// of a call is that call.
    pub proof fn lemma_round_trip(&self, decoded: Result<TotalStakeCall, AbiError>)
        requires
            match decoded {
                Ok(call) => call.decoded_from(arguments(self.call_data()), 0),
                Err(e) => !Self::accepts(self.call_data()),
            },
        ensures
            decoded == Ok::<TotalStakeCall, AbiError>(*self),
    {
        self.lemma_call_data_holds_call();
        match decoded {
            Ok(call) => {
                Self::lemma_decoding_unique(call, *self, arguments(self.call_data()), 0);
            },
            Err(e) => {},
        }
    }
}

/// Input of the contract function `totalVotingStake`.
#[derive(Clone, Copy, Debug, Default, PartialEq, Eq, Hash)]
pub struct TotalVotingStakeCall;

impl TotalVotingStakeCall {
    /// The words of the value, one after the other.
    pub open spec fn abi_encoding(&self) -> Seq<u8> {
        Seq::empty()
    }

    /// Whether the value is the one read from the words of `data` that start
    /// at word `at`.
    pub open spec fn decoded_from(&self, data: Seq<u8>, at: int) -> bool {
        true
    }

    /// Adds the words of the value to `words`.
    pub fn push_words(&self, words: &mut Vec<[u8; 32]>)
        ensures
            final(words)@.len() == old(words)@.len() + 0,
            concat_words(final(words)@) == concat_words(old(words)@) + self.abi_encoding(),
    {
        assert(concat_words(words@) =~= concat_words(old(words)@) + self.abi_encoding());
    }

    /// Reads the value from the 0 words that start at `words[at]`.
    pub fn read_words(words: &Vec<[u8; 32]>, at: usize) -> (value: TotalVotingStakeCall)
        requires
            at + 0 <= words@.len(),
        ensures
            forall|data: Seq<u8>|
                #[trigger] words_of(words@, data) ==> value.decoded_from(data, at as int),
    {
        TotalVotingStakeCall
    }

    /// The value takes 0 words.
    pub proof fn lemma_encoding_len(&self)
        ensures
            self.abi_encoding().len() == 0,
    {
    }

    /// The value is read back from its own words, wherever they stand in
    /// `data`.
    pub proof fn lemma_read_back(&self, data: Seq<u8>, at: int)
        requires
            0 <= at,
            32 * at + 0 <= data.len(),
            data.subrange(32 * at, 32 * at + 0) == self.abi_encoding(),
        ensures
            self.decoded_from(data, at),
    {
    }

    /// At most one value is read from given words.
    pub proof fn lemma_decoding_unique(a: TotalVotingStakeCall, b: TotalVotingStakeCall, data: Seq<u8>, at: int)
        requires
            a.decoded_from(data, at),
            b.decoded_from(data, at),
        ensures
            a == b,
    {
    }

    /// The first four bytes of the Keccak-256 digest of the signature.
    pub open spec fn selector_bytes() -> Seq<u8> {
        seq![0x43u8, 0x17u8, 0xd0u8, 0x0bu8]
    }

    /// The selector of the function.
    pub fn selector() -> (selector: [u8; 4])
        ensures
            selector@ == Self::selector_bytes(),
    {
        let selector: [u8; 4] = [0x43, 0x17, 0xd0, 0x0b];
        assert(selector@ =~= Self::selector_bytes());
        selector
    }

    /// The name of the function in the contract.
    pub fn function_name() -> (name: &'static str)
        ensures
            name@ == "totalVotingStake"@,
    {
        "totalVotingStake"
    }

    /// The signature of the function: its name and the types of its inputs.
    pub fn abi_signature() -> (signature: &'static str)
        ensures
            signature@ == "totalVotingStake()"@,
    {
        "totalVotingStake()"
    }

    /// The call data of the call: the selector, then the words of the input.
    pub open spec fn call_data(&self) -> Seq<u8> {
        Self::selector_bytes() + self.abi_encoding()
    }

    /// Whether `data` starts with the selector and holds the words of an
    /// input behind it.
    pub open spec fn accepts(data: Seq<u8>) -> bool {
        has_selector(data, Self::selector_bytes()) && 0 <= data.len() - 4
    }

    /// The call data of the call.
    pub fn encode(&self) -> (out: Vec<u8>)
        ensures
            out@ == self.call_data(),
    {
        let mut words: Vec<[u8; 32]> = Vec::new();
        self.push_words(&mut words);
        assert(concat_words(Seq::<[u8; 32]>::empty()) =~= Seq::<u8>::empty());
        assert(concat_words(words@) =~= self.abi_encoding());
        encode_call(&Self::selector(), &words)
    }

    /// Reads a call back from call data. Fails with `WrongSelector` if
    /// `data` does not start with the selector of the function, else with
    /// `InvalidData` if `data` is too short for the input. Bytes behind the
    /// input are ignored.
    pub fn decode(data: &[u8]) -> (out: Result<TotalVotingStakeCall, AbiError>)
        ensures
            match out {
                Ok(call) => Self::accepts(data@) && call.decoded_from(arguments(data@), 0),
                Err(e) => !Self::accepts(data@) && e == (if has_selector(
                    data@,
                    Self::selector_bytes(),
                ) {
                    AbiError::InvalidData
                } else {
                    AbiError::WrongSelector
                }),
            },
    {
        match decode_call(&Self::selector(), 0, data) {
            Ok(words) => Ok(TotalVotingStakeCall::read_words(&words, 0)),
            Err(e) => Err(e),
        }
    }

    /// The selector read as one number.
    pub proof fn lemma_selector_value()
        ensures
            selector_value(Self::selector_bytes()) == 0x4317d00b,
    {
    }

    /// The call data of a call holds the call: it starts with the selector
    /// and the input is read back from the words behind it.
    pub proof fn lemma_call_data_holds_call(&self)
        ensures
            Self::accepts(self.call_data()),
            self.decoded_from(arguments(self.call_data()), 0),
    {
        let data = self.call_data();
        self.lemma_encoding_len();
        assert(data.subrange(0, 4) =~= Self::selector_bytes());
        assert(arguments(data) =~= self.abi_encoding());
        assert(arguments(data).subrange(0, 0) =~= self.abi_encoding());
        self.lemma_read_back(arguments(data), 0);
    }

    /// Decoding undoes encoding: whatever `decode` returns on the call data
    /// of a call is that call.
    pub proof fn lemma_round_trip(&self, decoded: Result<TotalVotingStakeCall, AbiError>)
        requires
            match decoded {
                Ok(call) => call.decoded_from(arguments(self.call_data()), 0),
                Err(e) => !Self::accepts(self.call_data()),
            },
        ensures
            decoded == Ok::<TotalVotingStakeCall, AbiError>(*self),
    {
        self.lemma_call_data_holds_call();
        match decoded {
            Ok(call) => {
                Self::lemma_decoding_unique(call, *self, arguments(self.call_data()), 0);
            },
            Err(e) => {},
        }
    }
}

/// Input of the contract function `withdrawFunds`.
#[derive(Clone, Copy, Debug, Default, PartialEq, Eq, Hash)]
pub struct WithdrawFundsCall {
    /// BLS verification key of the node.
    pub bls_vk: G2Point,
}

impl WithdrawFundsCall {
    /// The words of the value, one after the other.
    pub open spec fn abi_encoding(&self) -> Seq<u8> {
        self.bls_vk.abi_encoding()
    }

    /// Whether the value is the one read from the words of `data` that start
    /// at word `at`.
    pub open spec fn decoded_from(&self, data: Seq<u8>, at: int) -> bool {
        &&& self.bls_vk.decoded_from(data, at)
    }

    /// Adds the words of the value to `words`.
    pub fn push_words(&self, words: &mut Vec<[u8; 32]>)
        ensures
            final(words)@.len() == old(words)@.len() + 4,
            concat_words(final(words)@) == concat_words(old(words)@) + self.abi_encoding(),
    {
        self.bls_vk.push_words(words);
        assert(concat_words(words@) =~= concat_words(old(words)@) + self.abi_encoding());
    }

    /// Reads the value from the 4 words that start at `words[at]`.
    pub fn read_words(words: &Vec<[u8; 32]>, at: usize) -> (value: WithdrawFundsCall)
        requires
            at + 4 <= words@.len(),
        ensures
            forall|data: Seq<u8>|
                #[trigger] words_of(words@, data) ==> value.decoded_from(data, at as int),
    {
        let available = words.len();
        assert(at + 4 <= available);
        let value = WithdrawFundsCall {
            bls_vk: G2Point::read_words(words, at),
        };
        assert forall|data: Seq<u8>| #[trigger] words_of(words@, data) implies value.decoded_from(
            data,
            at as int,
        ) by {
            assert(words@[at as int]@ == word_at(data, at as int));
            assert(words@[at as int + 1]@ == word_at(data, at as int + 1));
            assert(words@[at as int + 2]@ == word_at(data, at as int + 2));
            assert(words@[at as int + 3]@ == word_at(data, at as int + 3));
        }
        value
    }

    /// The value takes 4 words.
    pub proof fn lemma_encoding_len(&self)
        ensures
            self.abi_encoding().len() == 128,
    {
        self.bls_vk.lemma_encoding_len();
    }

    /// The value is read back from its own words, wherever they stand in
    /// `data`.
    pub proof fn lemma_read_back(&self, data: Seq<u8>, at: int)
        requires
            0 <= at,
            32 * at + 128 <= data.len(),
            data.subrange(32 * at, 32 * at + 128) == self.abi_encoding(),
        ensures
            self.decoded_from(data, at),
    {
        let enc = self.abi_encoding();
        self.bls_vk.lemma_encoding_len();
        assert(data.subrange(32 * at, 32 * at + 128) =~= enc.subrange(0, 128));
        assert(enc.subrange(0, 128) =~= self.bls_vk.abi_encoding());
        self.bls_vk.lemma_read_back(data, at);
    }

    /// At most one value is read from given words.
    pub proof fn lemma_decoding_unique(a: WithdrawFundsCall, b: WithdrawFundsCall, data: Seq<u8>, at: int)
        requires
            a.decoded_from(data, at),
            b.decoded_from(data, at),
        ensures
            a == b,
    {
        G2Point::lemma_decoding_unique(a.bls_vk, b.bls_vk, data, at);
    }

    /// The first four bytes of the Keccak-256 digest of the signature.
    pub open spec fn selector_bytes() -> Seq<u8> {
        seq![0x0cu8, 0x24u8, 0xafu8, 0x18u8]
    }

    /// The selector of the function.
    pub fn selector() -> (selector: [u8; 4])
        ensures
            selector@ == Self::selector_bytes(),
    {
        let selector: [u8; 4] = [0x0c, 0x24, 0xaf, 0x18];
        assert(selector@ =~= Self::selector_bytes());
        selector
    }

    /// The name of the function in the contract.
    pub fn function_name() -> (name: &'static str)
        ensures
            name@ == "withdrawFunds"@,
    {
        "withdrawFunds"
    }

    /// The signature of the function: its name and the types of its inputs.
    pub fn abi_signature() -> (signature: &'static str)
        ensures
            signature@ == "withdrawFunds((uint256,uint256,uint256,uint256))"@,
    {
        "withdrawFunds((uint256,uint256,uint256,uint256))"
    }

    /// The call data of the call: the selector, then the words of the input.
    pub open spec fn call_data(&self) -> Seq<u8> {
        Self::selector_bytes() + self.abi_encoding()
    }

    /// Whether `data` starts with the selector and holds the words of an
    /// input behind it.
    pub open spec fn accepts(data: Seq<u8>) -> bool {
        has_selector(data, Self::selector_bytes()) && 128 <= data.len() - 4
    }

    /// The call data of the call.
    pub fn encode(&self) -> (out: Vec<u8>)
        ensures
            out@ == self.call_data(),
    {
        let mut words: Vec<[u8; 32]> = Vec::new();
        self.push_words(&mut words);
        assert(concat_words(Seq::<[u8; 32]>::empty()) =~= Seq::<u8>::empty());
        assert(concat_words(words@) =~= self.abi_encoding());
        encode_call(&Self::selector(), &words)
    }

    /// Reads a call back from call data. Fails with `WrongSelector` if
    /// `data` does not start with the selector of the function, else with
    /// `InvalidData` if `data` is too short for the input. Bytes behind the
    /// input are ignored.
    pub fn decode(data: &[u8]) -> (out: Result<WithdrawFundsCall, AbiError>)
        ensures
            match out {
                Ok(call) => Self::accepts(data@) && call.decoded_from(arguments(data@), 0),
                Err(e) => !Self::accepts(data@) && e == (if has_selector(
                    data@,
                    Self::selector_bytes(),
                ) {
                    AbiError::InvalidData
                } else {
                    AbiError::WrongSelector
                }),
            },
    {
        match decode_call(&Self::selector(), 4, data) {
            Ok(words) => Ok(WithdrawFundsCall::read_words(&words, 0)),
            Err(e) => Err(e),
        }
    }

    /// The selector read as one number.
    pub proof fn lemma_selector_value()
        ensures
            selector_value(Self::selector_bytes()) == 0x0c24af18,
    {
    }

    /// The call data of a call holds the call: it starts with the selector
    /// and the input is read back from the words behind it.
    pub proof fn lemma_call_data_holds_call(&self)
        ensures
            Self::accepts(self.call_data()),
            self.decoded_from(arguments(self.call_data()), 0),
    {
        let data = self.call_data();
        self.lemma_encoding_len();
        assert(data.subrange(0, 4) =~= Self::selector_bytes());
        assert(arguments(data) =~= self.abi_encoding());
        assert(arguments(data).subrange(0, 128) =~= self.abi_encoding());
        self.lemma_read_back(arguments(data), 0);
    }

    /// Decoding undoes encoding: whatever `decode` returns on the call data
    /// of a call is that call.
    pub proof fn lemma_round_trip(&self, decoded: Result<WithdrawFundsCall, AbiError>)
        requires
            match decoded {
                Ok(call) => call.decoded_from(arguments(self.call_data()), 0),
                Err(e) => !Self::accepts(self.call_data()),
            },
        ensures
            decoded == Ok::<WithdrawFundsCall, AbiError>(*self),
    {
        self.lemma_call_data_holds_call();
        match decoded {
            Ok(call) => {
                Self::lemma_decoding_unique(call, *self, arguments(self.call_data()), 0);
            },
            Err(e) => {},
        }
    }
}

/// A call of any function of the contract.
#[derive(Clone, Copy, Debug, PartialEq, Eq, Hash)]
pub enum StakeTableCalls {
    /// A call of `_hashBlsKey`.
    HashBlsKey(HashBlsKeyCall),
    /// A call of `currentEpoch`.
    CurrentEpoch(CurrentEpochCall),
    /// A call of `deposit`.
    Deposit(DepositCall),
    /// A call of `exitEscrowPeriod`.
    ExitEscrowPeriod(ExitEscrowPeriodCall),
    /// A call of `firstAvailableExitEpoch`.
    FirstAvailableExitEpoch(FirstAvailableExitEpochCall),
    /// A call of `firstAvailableRegistrationEpoch`.
    FirstAvailableRegistrationEpoch(FirstAvailableRegistrationEpochCall),
    /// A call of `lightClient`.
    LightClient(LightClientCall),
    /// A call of `lookupNode`.
    LookupNode(LookupNodeCall),
    /// A call of `lookupStake`.
    LookupStake(LookupStakeCall),
    /// A call of `maxChurnRate`.
    MaxChurnRate(MaxChurnRateCall),
    /// A call of `nextExitEpoch`.
    NextExitEpoch(NextExitEpochCall),
    /// A call of `nextRegistrationEpoch`.
    NextRegistrationEpoch(NextRegistrationEpochCall),
    /// A call of `nodes`.
    Nodes(NodesCall),
    /// A call of `numPendingExits`.
    NumPendingExits(NumPendingExitsCall),
    /// A call of `numPendingRegistrations`.
    NumPendingRegistrations(NumPendingRegistrationsCall),
    /// A call of `register`.
    Register(RegisterCall),
    /// A call of `requestExit`.
    RequestExit(RequestExitCall),
    /// A call of `tokenAddress`.
    TokenAddress(TokenAddressCall),
    /// A call of `totalKeys`.
    TotalKeys(TotalKeysCall),
    /// A call of `totalNativeStake`.
    TotalNativeStake(TotalNativeStakeCall),
    /// A call of `totalRestakedStake`.
    TotalRestakedStake(TotalRestakedStakeCall),
    /// A call of `totalStake`.
    TotalStake(TotalStakeCall),
    /// A call of `totalVotingStake`.
    TotalVotingStake(TotalVotingStakeCall),
    /// A call of `withdrawFunds`.
    WithdrawFunds(WithdrawFundsCall),
}

impl StakeTableCalls {
    /// The call data of the call.
    pub open spec fn call_data(&self) -> Seq<u8> {
        match *self {
            StakeTableCalls::HashBlsKey(call) => call.call_data(),
            StakeTableCalls::CurrentEpoch(call) => call.call_data(),
            StakeTableCalls::Deposit(call) => call.call_data(),
            StakeTableCalls::ExitEscrowPeriod(call) => call.call_data(),
            StakeTableCalls::FirstAvailableExitEpoch(call) => call.call_data(),
            StakeTableCalls::FirstAvailableRegistrationEpoch(call) => call.call_data(),
            StakeTableCalls::LightClient(call) => call.call_data(),
            StakeTableCalls::LookupNode(call) => call.call_data(),
            StakeTableCalls::LookupStake(call) => call.call_data(),
            StakeTableCalls::MaxChurnRate(call) => call.call_data(),
            StakeTableCalls::NextExitEpoch(call) => call.call_data(),
            StakeTableCalls::NextRegistrationEpoch(call) => call.call_data(),
            StakeTableCalls::Nodes(call) => call.call_data(),
            StakeTableCalls::NumPendingExits(call) => call.call_data(),
            StakeTableCalls::NumPendingRegistrations(call) => call.call_data(),
            StakeTableCalls::Register(call) => call.call_data(),
            StakeTableCalls::RequestExit(call) => call.call_data(),
            StakeTableCalls::TokenAddress(call) => call.call_data(),
            StakeTableCalls::TotalKeys(call) => call.call_data(),
            StakeTableCalls::TotalNativeStake(call) => call.call_data(),
            StakeTableCalls::TotalRestakedStake(call) => call.call_data(),
            StakeTableCalls::TotalStake(call) => call.call_data(),
            StakeTableCalls::TotalVotingStake(call) => call.call_data(),
            StakeTableCalls::WithdrawFunds(call) => call.call_data(),
        }
    }

    /// Whether the call is one that `data` holds: `data` starts with the
    /// selector of its function and the input is read from the words behind
    /// it.
    pub open spec fn decoded_from(&self, data: Seq<u8>) -> bool {
        match *self {
            StakeTableCalls::HashBlsKey(call) => HashBlsKeyCall::accepts(data) && call.decoded_from(
                arguments(data),
                0,
            ),
            StakeTableCalls::CurrentEpoch(call) => CurrentEpochCall::accepts(data) && call.decoded_from(
                arguments(data),
                0,
            ),
            StakeTableCalls::Deposit(call) => DepositCall::accepts(data) && call.decoded_from(
                arguments(data),
                0,
            ),
            StakeTableCalls::ExitEscrowPeriod(call) => ExitEscrowPeriodCall::accepts(data) && call.decoded_from(
                arguments(data),
                0,
            ),
            StakeTableCalls::FirstAvailableExitEpoch(call) => FirstAvailableExitEpochCall::accepts(data) && call.decoded_from(
                arguments(data),
                0,
            ),
            StakeTableCalls::FirstAvailableRegistrationEpoch(call) => FirstAvailableRegistrationEpochCall::accepts(data) && call.decoded_from(
                arguments(data),
                0,
            ),
            StakeTableCalls::LightClient(call) => LightClientCall::accepts(data) && call.decoded_from(
                arguments(data),
                0,
            ),
            StakeTableCalls::LookupNode(call) => LookupNodeCall::accepts(data) && call.decoded_from(
                arguments(data),
                0,
            ),
            StakeTableCalls::LookupStake(call) => LookupStakeCall::accepts(data) && call.decoded_from(
                arguments(data),
                0,
            ),
            StakeTableCalls::MaxChurnRate(call) => MaxChurnRateCall::accepts(data) && call.decoded_from(
                arguments(data),
                0,
            ),
            StakeTableCalls::NextExitEpoch(call) => NextExitEpochCall::accepts(data) && call.decoded_from(
                arguments(data),
                0,
            ),
            StakeTableCalls::NextRegistrationEpoch(call) => NextRegistrationEpochCall::accepts(data) && call.decoded_from(
                arguments(data),
                0,
            ),
            StakeTableCalls::Nodes(call) => NodesCall::accepts(data) && call.decoded_from(
                arguments(data),
                0,
            ),
            StakeTableCalls::NumPendingExits(call) => NumPendingExitsCall::accepts(data) && call.decoded_from(
                arguments(data),
                0,
            ),
            StakeTableCalls::NumPendingRegistrations(call) => NumPendingRegistrationsCall::accepts(data) && call.decoded_from(
                arguments(data),
                0,
            ),
            StakeTableCalls::Register(call) => RegisterCall::accepts(data) && call.decoded_from(
                arguments(data),
                0,
            ),
            StakeTableCalls::RequestExit(call) => RequestExitCall::accepts(data) && call.decoded_from(
                arguments(data),
                0,
            ),
            StakeTableCalls::TokenAddress(call) => TokenAddressCall::accepts(data) && call.decoded_from(
                arguments(data),
                0,
            ),
            StakeTableCalls::TotalKeys(call) => TotalKeysCall::accepts(data) && call.decoded_from(
                arguments(data),
                0,
            ),
            StakeTableCalls::TotalNativeStake(call) => TotalNativeStakeCall::accepts(data) && call.decoded_from(
                arguments(data),
                0,
            ),
            StakeTableCalls::TotalRestakedStake(call) => TotalRestakedStakeCall::accepts(data) && call.decoded_from(
                arguments(data),
                0,
            ),
            StakeTableCalls::TotalStake(call) => TotalStakeCall::accepts(data) && call.decoded_from(
                arguments(data),
                0,
            ),
            StakeTableCalls::TotalVotingStake(call) => TotalVotingStakeCall::accepts(data) && call.decoded_from(
                arguments(data),
                0,
            ),
            StakeTableCalls::WithdrawFunds(call) => WithdrawFundsCall::accepts(data) && call.decoded_from(
                arguments(data),
                0,
            ),
        }
    }

    /// The number of functions of the contract that accept `data`.
    pub open spec fn accepting(data: Seq<u8>) -> int {
        (if HashBlsKeyCall::accepts(data) {
            1int
        } else {
            0int
        })
        + (if CurrentEpochCall::accepts(data) {
            1int
        } else {
            0int
        })
        + (if DepositCall::accepts(data) {
            1int
        } else {
            0int
        })
        + (if ExitEscrowPeriodCall::accepts(data) {
            1int
        } else {
            0int
        })
        + (if FirstAvailableExitEpochCall::accepts(data) {
            1int
        } else {
            0int
        })
        + (if FirstAvailableRegistrationEpochCall::accepts(data) {
            1int
        } else {
            0int
        })
        + (if LightClientCall::accepts(data) {
            1int
        } else {
            0int
        })
        + (if LookupNodeCall::accepts(data) {
            1int
        } else {
            0int
        })
        + (if LookupStakeCall::accepts(data) {
            1int
        } else {
            0int
        })
        + (if MaxChurnRateCall::accepts(data) {
            1int
        } else {
            0int
        })
        + (if NextExitEpochCall::accepts(data) {
            1int
        } else {
            0int
        })
        + (if NextRegistrationEpochCall::accepts(data) {
            1int
        } else {
            0int
        })
        + (if NodesCall::accepts(data) {
            1int
        } else {
            0int
        })
        + (if NumPendingExitsCall::accepts(data) {
            1int
        } else {
            0int
        })
        + (if NumPendingRegistrationsCall::accepts(data) {
            1int
        } else {
            0int
        })
        + (if RegisterCall::accepts(data) {
            1int
        } else {
            0int
        })
        + (if RequestExitCall::accepts(data) {
            1int
        } else {
            0int
        })
        + (if TokenAddressCall::accepts(data) {
            1int
        } else {
            0int
        })
        + (if TotalKeysCall::accepts(data) {
            1int
        } else {
            0int
        })
        + (if TotalNativeStakeCall::accepts(data) {
            1int
        } else {
            0int
        })
        + (if TotalRestakedStakeCall::accepts(data) {
            1int
        } else {
            0int
        })
        + (if TotalStakeCall::accepts(data) {
            1int
        } else {
            0int
        })
        + (if TotalVotingStakeCall::accepts(data) {
            1int
        } else {
            0int
        })
        + (if WithdrawFundsCall::accepts(data) {
            1int
        } else {
            0int
        })
    }

    /// Whether `data` holds a call of some function of the contract.
    pub open spec fn known(data: Seq<u8>) -> bool {
        ||| HashBlsKeyCall::accepts(data)
        ||| CurrentEpochCall::accepts(data)
        ||| DepositCall::accepts(data)
        ||| ExitEscrowPeriodCall::accepts(data)
        ||| FirstAvailableExitEpochCall::accepts(data)
        ||| FirstAvailableRegistrationEpochCall::accepts(data)
        ||| LightClientCall::accepts(data)
        ||| LookupNodeCall::accepts(data)
        ||| LookupStakeCall::accepts(data)
        ||| MaxChurnRateCall::accepts(data)
        ||| NextExitEpochCall::accepts(data)
        ||| NextRegistrationEpochCall::accepts(data)
        ||| NodesCall::accepts(data)
        ||| NumPendingExitsCall::accepts(data)
        ||| NumPendingRegistrationsCall::accepts(data)
        ||| RegisterCall::accepts(data)
        ||| RequestExitCall::accepts(data)
        ||| TokenAddressCall::accepts(data)
        ||| TotalKeysCall::accepts(data)
        ||| TotalNativeStakeCall::accepts(data)
        ||| TotalRestakedStakeCall::accepts(data)
        ||| TotalStakeCall::accepts(data)
        ||| TotalVotingStakeCall::accepts(data)
        ||| WithdrawFundsCall::accepts(data)
    }

    /// The call data of the call.
    pub fn encode(&self) -> (out: Vec<u8>)
        ensures
            out@ == self.call_data(),
    {
        match self {
            StakeTableCalls::HashBlsKey(call) => call.encode(),
            StakeTableCalls::CurrentEpoch(call) => call.encode(),
            StakeTableCalls::Deposit(call) => call.encode(),
            StakeTableCalls::ExitEscrowPeriod(call) => call.encode(),
            StakeTableCalls::FirstAvailableExitEpoch(call) => call.encode(),
            StakeTableCalls::FirstAvailableRegistrationEpoch(call) => call.encode(),
            StakeTableCalls::LightClient(call) => call.encode(),
            StakeTableCalls::LookupNode(call) => call.encode(),
            StakeTableCalls::LookupStake(call) => call.encode(),
            StakeTableCalls::MaxChurnRate(call) => call.encode(),
            StakeTableCalls::NextExitEpoch(call) => call.encode(),
            StakeTableCalls::NextRegistrationEpoch(call) => call.encode(),
            StakeTableCalls::Nodes(call) => call.encode(),
            StakeTableCalls::NumPendingExits(call) => call.encode(),
            StakeTableCalls::NumPendingRegistrations(call) => call.encode(),
            StakeTableCalls::Register(call) => call.encode(),
            StakeTableCalls::RequestExit(call) => call.encode(),
            StakeTableCalls::TokenAddress(call) => call.encode(),
            StakeTableCalls::TotalKeys(call) => call.encode(),
            StakeTableCalls::TotalNativeStake(call) => call.encode(),
            StakeTableCalls::TotalRestakedStake(call) => call.encode(),
            StakeTableCalls::TotalStake(call) => call.encode(),
            StakeTableCalls::TotalVotingStake(call) => call.encode(),
            StakeTableCalls::WithdrawFunds(call) => call.encode(),
        }
    }

    /// Reads a call of any function back from call data: the functions are
    /// tried in turn and the first that accepts `data` gives the call. Fails
    /// with `InvalidData` exactly when no function accepts `data`.
    pub fn decode(data: &[u8]) -> (out: Result<StakeTableCalls, AbiError>)
        ensures
            match out {
                Ok(call) => call.decoded_from(data@),
                Err(e) => e == AbiError::InvalidData && !Self::known(data@),
            },
    {
        if let Ok(call) = HashBlsKeyCall::decode(data) {
            return Ok(StakeTableCalls::HashBlsKey(call));
        }
        if let Ok(call) = CurrentEpochCall::decode(data) {
            return Ok(StakeTableCalls::CurrentEpoch(call));
        }
        if let Ok(call) = DepositCall::decode(data) {
            return Ok(StakeTableCalls::Deposit(call));
        }
        if let Ok(call) = ExitEscrowPeriodCall::decode(data) {
            return Ok(StakeTableCalls::ExitEscrowPeriod(call));
        }
        if let Ok(call) = FirstAvailableExitEpochCall::decode(data) {
            return Ok(StakeTableCalls::FirstAvailableExitEpoch(call));
        }
        if let Ok(call) = FirstAvailableRegistrationEpochCall::decode(data) {
            return Ok(StakeTableCalls::FirstAvailableRegistrationEpoch(call));
        }
        if let Ok(call) = LightClientCall::decode(data) {
            return Ok(StakeTableCalls::LightClient(call));
        }
        if let Ok(call) = LookupNodeCall::decode(data) {
            return Ok(StakeTableCalls::LookupNode(call));
        }
        if let Ok(call) = LookupStakeCall::decode(data) {
            return Ok(StakeTableCalls::LookupStake(call));
        }
        if let Ok(call) = MaxChurnRateCall::decode(data) {
            return Ok(StakeTableCalls::MaxChurnRate(call));
        }
        if let Ok(call) = NextExitEpochCall::decode(data) {
            return Ok(StakeTableCalls::NextExitEpoch(call));
        }
        if let Ok(call) = NextRegistrationEpochCall::decode(data) {
            return Ok(StakeTableCalls::NextRegistrationEpoch(call));
        }
        if let Ok(call) = NodesCall::decode(data) {
            return Ok(StakeTableCalls::Nodes(call));
        }
        if let Ok(call) = NumPendingExitsCall::decode(data) {
            return Ok(StakeTableCalls::NumPendingExits(call));
        }
        if let Ok(call) = NumPendingRegistrationsCall::decode(data) {
            return Ok(StakeTableCalls::NumPendingRegistrations(call));
        }
        if let Ok(call) = RegisterCall::decode(data) {
            return Ok(StakeTableCalls::Register(call));
        }
        if let Ok(call) = RequestExitCall::decode(data) {
            return Ok(StakeTableCalls::RequestExit(call));
        }
        if let Ok(call) = TokenAddressCall::decode(data) {
            return Ok(StakeTableCalls::TokenAddress(call));
        }
        if let Ok(call) = TotalKeysCall::decode(data) {
            return Ok(StakeTableCalls::TotalKeys(call));
        }
        if let Ok(call) = TotalNativeStakeCall::decode(data) {
            return Ok(StakeTableCalls::TotalNativeStake(call));
        }
        if let Ok(call) = TotalRestakedStakeCall::decode(data) {
            return Ok(StakeTableCalls::TotalRestakedStake(call));
        }
        if let Ok(call) = TotalStakeCall::decode(data) {
            return Ok(StakeTableCalls::TotalStake(call));
        }
        if let Ok(call) = TotalVotingStakeCall::decode(data) {
            return Ok(StakeTableCalls::TotalVotingStake(call));
        }
        if let Ok(call) = WithdrawFundsCall::decode(data) {
            return Ok(StakeTableCalls::WithdrawFunds(call));
        }
        Err(AbiError::InvalidData)
    }

    /// No two functions of the contract have the same selector: call data
    /// that some function accepts is accepted by that function alone.
    pub proof fn lemma_selectors_differ()
        ensures
            forall|data: Seq<u8>|
                #![trigger Self::known(data)]
                Self::known(data) ==> Self::accepting(data) == 1,
    {
        HashBlsKeyCall::lemma_selector_value();
        CurrentEpochCall::lemma_selector_value();
        DepositCall::lemma_selector_value();
        ExitEscrowPeriodCall::lemma_selector_value();
        FirstAvailableExitEpochCall::lemma_selector_value();
        FirstAvailableRegistrationEpochCall::lemma_selector_value();
        LightClientCall::lemma_selector_value();
        LookupNodeCall::lemma_selector_value();
        LookupStakeCall::lemma_selector_value();
        MaxChurnRateCall::lemma_selector_value();
        NextExitEpochCall::lemma_selector_value();
        NextRegistrationEpochCall::lemma_selector_value();
        NodesCall::lemma_selector_value();
        NumPendingExitsCall::lemma_selector_value();
        NumPendingRegistrationsCall::lemma_selector_value();
        RegisterCall::lemma_selector_value();
        RequestExitCall::lemma_selector_value();
        TokenAddressCall::lemma_selector_value();
        TotalKeysCall::lemma_selector_value();
        TotalNativeStakeCall::lemma_selector_value();
        TotalRestakedStakeCall::lemma_selector_value();
        TotalStakeCall::lemma_selector_value();
        TotalVotingStakeCall::lemma_selector_value();
        WithdrawFundsCall::lemma_selector_value();
    }

    /// Decoding undoes encoding: whatever `decode` returns on the call data
    /// of a call is that call.
    pub proof fn lemma_round_trip(&self, decoded: Result<StakeTableCalls, AbiError>)
        requires
            match decoded {
                Ok(call) => call.decoded_from(self.call_data()),
                Err(e) => !Self::known(self.call_data()),
            },
        ensures
            decoded == Ok::<StakeTableCalls, AbiError>(*self),
    {
        let data = self.call_data();
        HashBlsKeyCall::lemma_selector_value();
        CurrentEpochCall::lemma_selector_value();
        DepositCall::lemma_selector_value();
        ExitEscrowPeriodCall::lemma_selector_value();
        FirstAvailableExitEpochCall::lemma_selector_value();
        FirstAvailableRegistrationEpochCall::lemma_selector_value();
        LightClientCall::lemma_selector_value();
        LookupNodeCall::lemma_selector_value();
        LookupStakeCall::lemma_selector_value();
        MaxChurnRateCall::lemma_selector_value();
        NextExitEpochCall::lemma_selector_value();
        NextRegistrationEpochCall::lemma_selector_value();
        NodesCall::lemma_selector_value();
        NumPendingExitsCall::lemma_selector_value();
        NumPendingRegistrationsCall::lemma_selector_value();
        RegisterCall::lemma_selector_value();
        RequestExitCall::lemma_selector_value();
        TokenAddressCall::lemma_selector_value();
        TotalKeysCall::lemma_selector_value();
        TotalNativeStakeCall::lemma_selector_value();
        TotalRestakedStakeCall::lemma_selector_value();
        TotalStakeCall::lemma_selector_value();
        TotalVotingStakeCall::lemma_selector_value();
        WithdrawFundsCall::lemma_selector_value();
        match *self {
            StakeTableCalls::HashBlsKey(call) => {
                call.lemma_call_data_holds_call();
                if let Ok(StakeTableCalls::HashBlsKey(other)) = decoded {
                    HashBlsKeyCall::lemma_decoding_unique(other, call, arguments(data), 0);
                }
            },
            StakeTableCalls::CurrentEpoch(call) => {
                call.lemma_call_data_holds_call();
                if let Ok(StakeTableCalls::CurrentEpoch(other)) = decoded {
                    CurrentEpochCall::lemma_decoding_unique(other, call, arguments(data), 0);
                }
            },
            StakeTableCalls::Deposit(call) => {
                call.lemma_call_data_holds_call();
                if let Ok(StakeTableCalls::Deposit(other)) = decoded {
                    DepositCall::lemma_decoding_unique(other, call, arguments(data), 0);
                }
            },
            StakeTableCalls::ExitEscrowPeriod(call) => {
                call.lemma_call_data_holds_call();
                if let Ok(StakeTableCalls::ExitEscrowPeriod(other)) = decoded {
                    ExitEscrowPeriodCall::lemma_decoding_unique(other, call, arguments(data), 0);
                }
            },
            StakeTableCalls::FirstAvailableExitEpoch(call) => {
                call.lemma_call_data_holds_call();
                if let Ok(StakeTableCalls::FirstAvailableExitEpoch(other)) = decoded {
                    FirstAvailableExitEpochCall::lemma_decoding_unique(other, call, arguments(data), 0);
                }
            },
            StakeTableCalls::FirstAvailableRegistrationEpoch(call) => {
                call.lemma_call_data_holds_call();
                if let Ok(StakeTableCalls::FirstAvailableRegistrationEpoch(other)) = decoded {
                    FirstAvailableRegistrationEpochCall::lemma_decoding_unique(other, call, arguments(data), 0);
                }
            },
            StakeTableCalls::LightClient(call) => {
                call.lemma_call_data_holds_call();
                if let Ok(StakeTableCalls::LightClient(other)) = decoded {
                    LightClientCall::lemma_decoding_unique(other, call, arguments(data), 0);
                }
            },
            StakeTableCalls::LookupNode(call) => {
                call.lemma_call_data_holds_call();
                if let Ok(StakeTableCalls::LookupNode(other)) = decoded {
                    LookupNodeCall::lemma_decoding_unique(other, call, arguments(data), 0);
                }
            },
            StakeTableCalls::LookupStake(call) => {
                call.lemma_call_data_holds_call();
                if let Ok(StakeTableCalls::LookupStake(other)) = decoded {
                    LookupStakeCall::lemma_decoding_unique(other, call, arguments(data), 0);
                }
            },
            StakeTableCalls::MaxChurnRate(call) => {
                call.lemma_call_data_holds_call();
                if let Ok(StakeTableCalls::MaxChurnRate(other)) = decoded {
                    MaxChurnRateCall::lemma_decoding_unique(other, call, arguments(data), 0);
                }
            },
            StakeTableCalls::NextExitEpoch(call) => {
                call.lemma_call_data_holds_call();
                if let Ok(StakeTableCalls::NextExitEpoch(other)) = decoded {
                    NextExitEpochCall::lemma_decoding_unique(other, call, arguments(data), 0);
                }
            },
            StakeTableCalls::NextRegistrationEpoch(call) => {
                call.lemma_call_data_holds_call();
                if let Ok(StakeTableCalls::NextRegistrationEpoch(other)) = decoded {
                    NextRegistrationEpochCall::lemma_decoding_unique(other, call, arguments(data), 0);
                }
            },
            StakeTableCalls::Nodes(call) => {
                call.lemma_call_data_holds_call();
                if let Ok(StakeTableCalls::Nodes(other)) = decoded {
                    NodesCall::lemma_decoding_unique(other, call, arguments(data), 0);
                }
            },
            StakeTableCalls::NumPendingExits(call) => {
                call.lemma_call_data_holds_call();
                if let Ok(StakeTableCalls::NumPendingExits(other)) = decoded {
                    NumPendingExitsCall::lemma_decoding_unique(other, call, arguments(data), 0);
                }
            },
            StakeTableCalls::NumPendingRegistrations(call) => {
                call.lemma_call_data_holds_call();
                if let Ok(StakeTableCalls::NumPendingRegistrations(other)) = decoded {
                    NumPendingRegistrationsCall::lemma_decoding_unique(other, call, arguments(data), 0);
                }
            },
            StakeTableCalls::Register(call) => {
                call.lemma_call_data_holds_call();
                if let Ok(StakeTableCalls::Register(other)) = decoded {
                    RegisterCall::lemma_decoding_unique(other, call, arguments(data), 0);
                }
            },
            StakeTableCalls::RequestExit(call) => {
                call.lemma_call_data_holds_call();
                if let Ok(StakeTableCalls::RequestExit(other)) = decoded {
                    RequestExitCall::lemma_decoding_unique(other, call, arguments(data), 0);
                }
            },
            StakeTableCalls::TokenAddress(call) => {
                call.lemma_call_data_holds_call();
                if let Ok(StakeTableCalls::TokenAddress(other)) = decoded {
                    TokenAddressCall::lemma_decoding_unique(other, call, arguments(data), 0);
                }
            },
            StakeTableCalls::TotalKeys(call) => {
                call.lemma_call_data_holds_call();
                if let Ok(StakeTableCalls::TotalKeys(other)) = decoded {
                    TotalKeysCall::lemma_decoding_unique(other, call, arguments(data), 0);
                }
            },
            StakeTableCalls::TotalNativeStake(call) => {
                call.lemma_call_data_holds_call();
                if let Ok(StakeTableCalls::TotalNativeStake(other)) = decoded {
                    TotalNativeStakeCall::lemma_decoding_unique(other, call, arguments(data), 0);
                }
            },
            StakeTableCalls::TotalRestakedStake(call) => {
                call.lemma_call_data_holds_call();
                if let Ok(StakeTableCalls::TotalRestakedStake(other)) = decoded {
                    TotalRestakedStakeCall::lemma_decoding_unique(other, call, arguments(data), 0);
                }
            },
            StakeTableCalls::TotalStake(call) => {
                call.lemma_call_data_holds_call();
                if let Ok(StakeTableCalls::TotalStake(other)) = decoded {
                    TotalStakeCall::lemma_decoding_unique(other, call, arguments(data), 0);
                }
            },
            StakeTableCalls::TotalVotingStake(call) => {
                call.lemma_call_data_holds_call();
                if let Ok(StakeTableCalls::TotalVotingStake(other)) = decoded {
                    TotalVotingStakeCall::lemma_decoding_unique(other, call, arguments(data), 0);
                }
            },
            StakeTableCalls::WithdrawFunds(call) => {
                call.lemma_call_data_holds_call();
                if let Ok(StakeTableCalls::WithdrawFunds(other)) = decoded {
                    WithdrawFundsCall::lemma_decoding_unique(other, call, arguments(data), 0);
                }
            },
        }
    }
}

impl From<HashBlsKeyCall> for StakeTableCalls {
    fn from(value: HashBlsKeyCall) -> (wrapped: StakeTableCalls) {
        StakeTableCalls::HashBlsKey(value)
    }
}

impl vstd::std_specs::convert::FromSpecImpl<HashBlsKeyCall> for StakeTableCalls {
    open spec fn obeys_from_spec() -> bool {
        true
    }

    open spec fn from_spec(value: HashBlsKeyCall) -> StakeTableCalls {
        StakeTableCalls::HashBlsKey(value)
    }
}

impl From<CurrentEpochCall> for StakeTableCalls {
    fn from(value: CurrentEpochCall) -> (wrapped: StakeTableCalls) {
        StakeTableCalls::CurrentEpoch(value)
    }
}

impl vstd::std_specs::convert::FromSpecImpl<CurrentEpochCall> for StakeTableCalls {
    open spec fn obeys_from_spec() -> bool {
        true
    }

    open spec fn from_spec(value: CurrentEpochCall) -> StakeTableCalls {
        StakeTableCalls::CurrentEpoch(value)
    }
}

impl From<DepositCall> for StakeTableCalls {
    fn from(value: DepositCall) -> (wrapped: StakeTableCalls) {
        StakeTableCalls::Deposit(value)
    }
}

impl vstd::std_specs::convert::FromSpecImpl<DepositCall> for StakeTableCalls {
    open spec fn obeys_from_spec() -> bool {
        true
    }

    open spec fn from_spec(value: DepositCall) -> StakeTableCalls {
        StakeTableCalls::Deposit(value)
    }
}

impl From<ExitEscrowPeriodCall> for StakeTableCalls {
    fn from(value: ExitEscrowPeriodCall) -> (wrapped: StakeTableCalls) {
        StakeTableCalls::ExitEscrowPeriod(value)
    }
}

impl vstd::std_specs::convert::FromSpecImpl<ExitEscrowPeriodCall> for StakeTableCalls {
    open spec fn obeys_from_spec() -> bool {
        true
    }

    open spec fn from_spec(value: ExitEscrowPeriodCall) -> StakeTableCalls {
        StakeTableCalls::ExitEscrowPeriod(value)
    }
}

impl From<FirstAvailableExitEpochCall> for StakeTableCalls {
    fn from(value: FirstAvailableExitEpochCall) -> (wrapped: StakeTableCalls) {
        StakeTableCalls::FirstAvailableExitEpoch(value)
    }
}

impl vstd::std_specs::convert::FromSpecImpl<FirstAvailableExitEpochCall> for StakeTableCalls {
    open spec fn obeys_from_spec() -> bool {
        true
    }

    open spec fn from_spec(value: FirstAvailableExitEpochCall) -> StakeTableCalls {
        StakeTableCalls::FirstAvailableExitEpoch(value)
    }
}

impl From<FirstAvailableRegistrationEpochCall> for StakeTableCalls {
    fn from(value: FirstAvailableRegistrationEpochCall) -> (wrapped: StakeTableCalls) {
        StakeTableCalls::FirstAvailableRegistrationEpoch(value)
    }
}

impl vstd::std_specs::convert::FromSpecImpl<FirstAvailableRegistrationEpochCall> for StakeTableCalls {
    open spec fn obeys_from_spec() -> bool {
        true
    }

    open spec fn from_spec(value: FirstAvailableRegistrationEpochCall) -> StakeTableCalls {
        StakeTableCalls::FirstAvailableRegistrationEpoch(value)
    }
}

impl From<LightClientCall> for StakeTableCalls {
    fn from(value: LightClientCall) -> (wrapped: StakeTableCalls) {
        StakeTableCalls::LightClient(value)
    }
}

impl vstd::std_specs::convert::FromSpecImpl<LightClientCall> for StakeTableCalls {
    open spec fn obeys_from_spec() -> bool {
        true
    }

    open spec fn from_spec(value: LightClientCall) -> StakeTableCalls {
        StakeTableCalls::LightClient(value)
    }
}

impl From<LookupNodeCall> for StakeTableCalls {
    fn from(value: LookupNodeCall) -> (wrapped: StakeTableCalls) {
        StakeTableCalls::LookupNode(value)
    }
}

impl vstd::std_specs::convert::FromSpecImpl<LookupNodeCall> for StakeTableCalls {
    open spec fn obeys_from_spec() -> bool {
        true
    }

    open spec fn from_spec(value: LookupNodeCall) -> StakeTableCalls {
        StakeTableCalls::LookupNode(value)
    }
}

impl From<LookupStakeCall> for StakeTableCalls {
    fn from(value: LookupStakeCall) -> (wrapped: StakeTableCalls) {
        StakeTableCalls::LookupStake(value)
    }
}

impl vstd::std_specs::convert::FromSpecImpl<LookupStakeCall> for StakeTableCalls {
    open spec fn obeys_from_spec() -> bool {
        true
    }

    open spec fn from_spec(value: LookupStakeCall) -> StakeTableCalls {
        StakeTableCalls::LookupStake(value)
    }
}

impl From<MaxChurnRateCall> for StakeTableCalls {
    fn from(value: MaxChurnRateCall) -> (wrapped: StakeTableCalls) {
        StakeTableCalls::MaxChurnRate(value)
    }
}

impl vstd::std_specs::convert::FromSpecImpl<MaxChurnRateCall> for StakeTableCalls {
    open spec fn obeys_from_spec() -> bool {
        true
    }

    open spec fn from_spec(value: MaxChurnRateCall) -> StakeTableCalls {
        StakeTableCalls::MaxChurnRate(value)
    }
}

impl From<NextExitEpochCall> for StakeTableCalls {
    fn from(value: NextExitEpochCall) -> (wrapped: StakeTableCalls) {
        StakeTableCalls::NextExitEpoch(value)
    }
}

impl vstd::std_specs::convert::FromSpecImpl<NextExitEpochCall> for StakeTableCalls {
    open spec fn obeys_from_spec() -> bool {
        true
    }

    open spec fn from_spec(value: NextExitEpochCall) -> StakeTableCalls {
        StakeTableCalls::NextExitEpoch(value)
    }
}

impl From<NextRegistrationEpochCall> for StakeTableCalls {
    fn from(value: NextRegistrationEpochCall) -> (wrapped: StakeTableCalls) {
        StakeTableCalls::NextRegistrationEpoch(value)
    }
}

impl vstd::std_specs::convert::FromSpecImpl<NextRegistrationEpochCall> for StakeTableCalls {
    open spec fn obeys_from_spec() -> bool {
        true
    }

    open spec fn from_spec(value: NextRegistrationEpochCall) -> StakeTableCalls {
        StakeTableCalls::NextRegistrationEpoch(value)
    }
}

impl From<NodesCall> for StakeTableCalls {
    fn from(value: NodesCall) -> (wrapped: StakeTableCalls) {
        StakeTableCalls::Nodes(value)
    }
}

impl vstd::std_specs::convert::FromSpecImpl<NodesCall> for StakeTableCalls {
    open spec fn obeys_from_spec() -> bool {
        true
    }

    open spec fn from_spec(value: NodesCall) -> StakeTableCalls {
        StakeTableCalls::Nodes(value)
    }
}

impl From<NumPendingExitsCall> for StakeTableCalls {
    fn from(value: NumPendingExitsCall) -> (wrapped: StakeTableCalls) {
        StakeTableCalls::NumPendingExits(value)
    }
}

impl vstd::std_specs::convert::FromSpecImpl<NumPendingExitsCall> for StakeTableCalls {
    open spec fn obeys_from_spec() -> bool {
        true
    }

    open spec fn from_spec(value: NumPendingExitsCall) -> StakeTableCalls {
        StakeTableCalls::NumPendingExits(value)
    }
}

impl From<NumPendingRegistrationsCall> for StakeTableCalls {
    fn from(value: NumPendingRegistrationsCall) -> (wrapped: StakeTableCalls) {
        StakeTableCalls::NumPendingRegistrations(value)
    }
}

impl vstd::std_specs::convert::FromSpecImpl<NumPendingRegistrationsCall> for StakeTableCalls {
    open spec fn obeys_from_spec() -> bool {
        true
    }

    open spec fn from_spec(value: NumPendingRegistrationsCall) -> StakeTableCalls {
        StakeTableCalls::NumPendingRegistrations(value)
    }
}

impl From<RegisterCall> for StakeTableCalls {
    fn from(value: RegisterCall) -> (wrapped: StakeTableCalls) {
        StakeTableCalls::Register(value)
    }
}

impl vstd::std_specs::convert::FromSpecImpl<RegisterCall> for StakeTableCalls {
    open spec fn obeys_from_spec() -> bool {
        true
    }

    open spec fn from_spec(value: RegisterCall) -> StakeTableCalls {
        StakeTableCalls::Register(value)
    }
}

impl From<RequestExitCall> for StakeTableCalls {
    fn from(value: RequestExitCall) -> (wrapped: StakeTableCalls) {
        StakeTableCalls::RequestExit(value)
    }
}

impl vstd::std_specs::convert::FromSpecImpl<RequestExitCall> for StakeTableCalls {
    open spec fn obeys_from_spec() -> bool {
        true
    }

    open spec fn from_spec(value: RequestExitCall) -> StakeTableCalls {
        StakeTableCalls::RequestExit(value)
    }
}

impl From<TokenAddressCall> for StakeTableCalls {
    fn from(value: TokenAddressCall) -> (wrapped: StakeTableCalls) {
        StakeTableCalls::TokenAddress(value)
    }
}

impl vstd::std_specs::convert::FromSpecImpl<TokenAddressCall> for StakeTableCalls {
    open spec fn obeys_from_spec() -> bool {
        true
    }

    open spec fn from_spec(value: TokenAddressCall) -> StakeTableCalls {
        StakeTableCalls::TokenAddress(value)
    }
}

impl From<TotalKeysCall> for StakeTableCalls {
    fn from(value: TotalKeysCall) -> (wrapped: StakeTableCalls) {
        StakeTableCalls::TotalKeys(value)
    }
}

impl vstd::std_specs::convert::FromSpecImpl<TotalKeysCall> for StakeTableCalls {
    open spec fn obeys_from_spec() -> bool {
        true
    }

    open spec fn from_spec(value: TotalKeysCall) -> StakeTableCalls {
        StakeTableCalls::TotalKeys(value)
    }
}

impl From<TotalNativeStakeCall> for StakeTableCalls {
    fn from(value: TotalNativeStakeCall) -> (wrapped: StakeTableCalls) {
        StakeTableCalls::TotalNativeStake(value)
    }
}

impl vstd::std_specs::convert::FromSpecImpl<TotalNativeStakeCall> for StakeTableCalls {
    open spec fn obeys_from_spec() -> bool {
        true
    }

    open spec fn from_spec(value: TotalNativeStakeCall) -> StakeTableCalls {
        StakeTableCalls::TotalNativeStake(value)
    }
}

impl From<TotalRestakedStakeCall> for StakeTableCalls {
    fn from(value: TotalRestakedStakeCall) -> (wrapped: StakeTableCalls) {
        StakeTableCalls::TotalRestakedStake(value)
    }
}

impl vstd::std_specs::convert::FromSpecImpl<TotalRestakedStakeCall> for StakeTableCalls {
    open spec fn obeys_from_spec() -> bool {
        true
    }

    open spec fn from_spec(value: TotalRestakedStakeCall) -> StakeTableCalls {
        StakeTableCalls::TotalRestakedStake(value)
    }
}

impl From<TotalStakeCall> for StakeTableCalls {
    fn from(value: TotalStakeCall) -> (wrapped: StakeTableCalls) {
        StakeTableCalls::TotalStake(value)
    }
}

impl vstd::std_specs::convert::FromSpecImpl<TotalStakeCall> for StakeTableCalls {
    open spec fn obeys_from_spec() -> bool {
        true
    }

    open spec fn from_spec(value: TotalStakeCall) -> StakeTableCalls {
        StakeTableCalls::TotalStake(value)
    }
}

impl From<TotalVotingStakeCall> for StakeTableCalls {
    fn from(value: TotalVotingStakeCall) -> (wrapped: StakeTableCalls) {
        StakeTableCalls::TotalVotingStake(value)
    }
}

impl vstd::std_specs::convert::FromSpecImpl<TotalVotingStakeCall> for StakeTableCalls {
    open spec fn obeys_from_spec() -> bool {
        true
    }

    open spec fn from_spec(value: TotalVotingStakeCall) -> StakeTableCalls {
        StakeTableCalls::TotalVotingStake(value)
    }
}

impl From<WithdrawFundsCall> for StakeTableCalls {
    fn from(value: WithdrawFundsCall) -> (wrapped: StakeTableCalls) {
        StakeTableCalls::WithdrawFunds(value)
    }
}

impl vstd::std_specs::convert::FromSpecImpl<WithdrawFundsCall> for StakeTableCalls {
    open spec fn obeys_from_spec() -> bool {
        true
    }

    open spec fn from_spec(value: WithdrawFundsCall) -> StakeTableCalls {
        StakeTableCalls::WithdrawFunds(value)
    }
}

} // verus!
