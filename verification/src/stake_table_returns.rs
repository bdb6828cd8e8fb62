//! What the functions of the stake table contract return: one type for the
//! output of each function that returns anything.

use vstd::prelude::*;
use crate::abi::{
    abi_encode_words, address_word, concat_words, decode_address, decode_u32, decode_u64,
    decode_u8, decode_words, encode_address, encode_u32, encode_u64, encode_u8,
    lemma_u32_word_round_trip, lemma_u64_word_round_trip, push_word, u32_word, u64_word,
    u8_word, word_address, word_at, word_u32, word_u64, word_u8, words_of, AbiError, Address,
    U256,
};
use crate::shared_types::{EdOnBN254Point, Node};

verus! {

/// Output of the contract function `_hashBlsKey`.
#[derive(Clone, Copy, Debug, Default, PartialEq, Eq, Hash)]
pub struct HashBlsKeyReturn(pub [u8; 32]);

impl HashBlsKeyReturn {
    /// The words of the value, one after the other.
    pub open spec fn abi_encoding(&self) -> Seq<u8> {
        self.0@
    }

    /// Whether the value is the one read from the words of `data` that start
    /// at word `at`.
    pub open spec fn decoded_from(&self, data: Seq<u8>, at: int) -> bool {
        &&& self.0@ == word_at(data, at)
    }

    /// Adds the words of the value to `words`.
    pub fn push_words(&self, words: &mut Vec<[u8; 32]>)
        ensures
            final(words)@.len() == old(words)@.len() + 1,
            concat_words(final(words)@) == concat_words(old(words)@) + self.abi_encoding(),
    {
        push_word(words, self.0);
        assert(concat_words(words@) =~= concat_words(old(words)@) + self.abi_encoding());
    }

    /// Reads the value from the word `words[at]`.
    pub fn read_words(words: &Vec<[u8; 32]>, at: usize) -> (value: HashBlsKeyReturn)
        requires
            at + 1 <= words@.len(),
        ensures
            forall|data: Seq<u8>|
                #[trigger] words_of(words@, data) ==> value.decoded_from(data, at as int),
    {
        let available = words.len();
        assert(at + 1 <= available);
        let value = HashBlsKeyReturn(words[at]);
        assert forall|data: Seq<u8>| #[trigger] words_of(words@, data) implies value.decoded_from(
            data,
            at as int,
        ) by {
            assert(words@[at as int]@ == word_at(data, at as int));
        }
        value
    }

    /// The value takes one word.
    pub proof fn lemma_encoding_len(&self)
        ensures
            self.abi_encoding().len() == 32,
    {
    }

    /// The value is read back from its own words, wherever they stand in
    /// `data`.
    pub proof fn lemma_read_back(&self, data: Seq<u8>, at: int)
        requires
            0 <= at,
            32 * at + 32 <= data.len(),
            data.subrange(32 * at, 32 * at + 32) == self.abi_encoding(),
        ensures
            self.decoded_from(data, at),
    {
        let enc = self.abi_encoding();
        assert(word_at(data, at) =~= enc.subrange(0, 32));
        assert(enc.subrange(0, 32) =~= self.0@);
    }

    /// At most one value is read from given words.
    pub proof fn lemma_decoding_unique(a: HashBlsKeyReturn, b: HashBlsKeyReturn, data: Seq<u8>, at: int)
        requires
            a.decoded_from(data, at),
            b.decoded_from(data, at),
        ensures
            a == b,
    {
        assert(a.0 =~= b.0);
    }

    /// Whether `data` holds the words of an output.
    pub open spec fn accepts(data: Seq<u8>) -> bool {
        32 <= data.len()
    }

    /// The return data of the output.
    pub fn encode(&self) -> (out: Vec<u8>)
        ensures
            out@ == self.abi_encoding(),
    {
        let mut words: Vec<[u8; 32]> = Vec::new();
        self.push_words(&mut words);
        assert(concat_words(Seq::<[u8; 32]>::empty()) =~= Seq::<u8>::empty());
        assert(concat_words(words@) =~= self.abi_encoding());
        abi_encode_words(&words)
    }

    /// Reads an output back from return data. Fails with `InvalidData`
    /// exactly when `data` is too short for it. Bytes behind the output are
    /// ignored.
    pub fn decode(data: &[u8]) -> (out: Result<HashBlsKeyReturn, AbiError>)
        ensures
            match out {
                Ok(value) => Self::accepts(data@) && value.decoded_from(data@, 0),
                Err(e) => !Self::accepts(data@) && e == AbiError::InvalidData,
            },
    {
        match decode_words(1, data) {
            Ok(words) => Ok(HashBlsKeyReturn::read_words(&words, 0)),
            Err(e) => Err(e),
        }
    }

    /// Decoding undoes encoding: whatever `decode` returns on the return
    /// data of an output is that output.
    pub proof fn lemma_round_trip(&self, decoded: Result<HashBlsKeyReturn, AbiError>)
        requires
            match decoded {
                Ok(value) => value.decoded_from(self.abi_encoding(), 0),
                Err(e) => !Self::accepts(self.abi_encoding()),
            },
        ensures
            decoded == Ok::<HashBlsKeyReturn, AbiError>(*self),
    {
        let data = self.abi_encoding();
        self.lemma_encoding_len();
        assert(data.subrange(0, 32) =~= data);
        self.lemma_read_back(data, 0);
        match decoded {
            Ok(value) => {
                Self::lemma_decoding_unique(value, *self, data, 0);
            },
            Err(e) => {},
        }
    }
}

/// Output of the contract function `currentEpoch`.
#[derive(Clone, Copy, Debug, Default, PartialEq, Eq, Hash)]
pub struct CurrentEpochReturn(pub u64);

impl CurrentEpochReturn {
    /// The words of the value, one after the other.
    pub open spec fn abi_encoding(&self) -> Seq<u8> {
        u64_word(self.0)
    }

    /// Whether the value is the one read from the words of `data` that start
    /// at word `at`.
    pub open spec fn decoded_from(&self, data: Seq<u8>, at: int) -> bool {
        &&& self.0 == word_u64(word_at(data, at))
    }

    /// Adds the words of the value to `words`.
    pub fn push_words(&self, words: &mut Vec<[u8; 32]>)
        ensures
            final(words)@.len() == old(words)@.len() + 1,
            concat_words(final(words)@) == concat_words(old(words)@) + self.abi_encoding(),
    {
        push_word(words, encode_u64(self.0));
        assert(concat_words(words@) =~= concat_words(old(words)@) + self.abi_encoding());
    }

    /// Reads the value from the word `words[at]`.
    pub fn read_words(words: &Vec<[u8; 32]>, at: usize) -> (value: CurrentEpochReturn)
        requires
            at + 1 <= words@.len(),
        ensures
            forall|data: Seq<u8>|
                #[trigger] words_of(words@, data) ==> value.decoded_from(data, at as int),
    {
        let available = words.len();
        assert(at + 1 <= available);
        let value = CurrentEpochReturn(decode_u64(&words[at]));
        assert forall|data: Seq<u8>| #[trigger] words_of(words@, data) implies value.decoded_from(
            data,
            at as int,
        ) by {
            assert(words@[at as int]@ == word_at(data, at as int));
        }
        value
    }

    /// The value takes one word.
    pub proof fn lemma_encoding_len(&self)
        ensures
            self.abi_encoding().len() == 32,
    {
        lemma_u64_word_round_trip(self.0);
    }

    /// The value is read back from its own words, wherever they stand in
    /// `data`.
    pub proof fn lemma_read_back(&self, data: Seq<u8>, at: int)
        requires
            0 <= at,
            32 * at + 32 <= data.len(),
            data.subrange(32 * at, 32 * at + 32) == self.abi_encoding(),
        ensures
            self.decoded_from(data, at),
    {
        let enc = self.abi_encoding();
        lemma_u64_word_round_trip(self.0);
        assert(word_at(data, at) =~= enc.subrange(0, 32));
        assert(enc.subrange(0, 32) =~= u64_word(self.0));
    }

    /// At most one value is read from given words.
    pub proof fn lemma_decoding_unique(a: CurrentEpochReturn, b: CurrentEpochReturn, data: Seq<u8>, at: int)
        requires
            a.decoded_from(data, at),
            b.decoded_from(data, at),
        ensures
            a == b,
    {
    }

    /// Whether `data` holds the words of an output.
    pub open spec fn accepts(data: Seq<u8>) -> bool {
        32 <= data.len()
    }

    /// The return data of the output.
    pub fn encode(&self) -> (out: Vec<u8>)
        ensures
            out@ == self.abi_encoding(),
    {
        let mut words: Vec<[u8; 32]> = Vec::new();
        self.push_words(&mut words);
        assert(concat_words(Seq::<[u8; 32]>::empty()) =~= Seq::<u8>::empty());
        assert(concat_words(words@) =~= self.abi_encoding());
        abi_encode_words(&words)
    }

    /// Reads an output back from return data. Fails with `InvalidData`
    /// exactly when `data` is too short for it. Bytes behind the output are
    /// ignored.
    pub fn decode(data: &[u8]) -> (out: Result<CurrentEpochReturn, AbiError>)
        ensures
            match out {
                Ok(value) => Self::accepts(data@) && value.decoded_from(data@, 0),
                Err(e) => !Self::accepts(data@) && e == AbiError::InvalidData,
            },
    {
        match decode_words(1, data) {
            Ok(words) => Ok(CurrentEpochReturn::read_words(&words, 0)),
            Err(e) => Err(e),
        }
    }

    /// Decoding undoes encoding: whatever `decode` returns on the return
    /// data of an output is that output.
    pub proof fn lemma_round_trip(&self, decoded: Result<CurrentEpochReturn, AbiError>)
        requires
            match decoded {
                Ok(value) => value.decoded_from(self.abi_encoding(), 0),
                Err(e) => !Self::accepts(self.abi_encoding()),
            },
        ensures
            decoded == Ok::<CurrentEpochReturn, AbiError>(*self),
    {
        let data = self.abi_encoding();
        self.lemma_encoding_len();
        assert(data.subrange(0, 32) =~= data);
        self.lemma_read_back(data, 0);
        match decoded {
            Ok(value) => {
                Self::lemma_decoding_unique(value, *self, data, 0);
            },
            Err(e) => {},
        }
    }
}

/// Output of the contract function `deposit`.
#[derive(Clone, Copy, Debug, Default, PartialEq, Eq, Hash)]
pub struct DepositReturn(pub u64, pub u64);

impl DepositReturn {
    /// The words of the value, one after the other.
    pub open spec fn abi_encoding(&self) -> Seq<u8> {
        u64_word(self.0) + u64_word(self.1)
    }

    /// Whether the value is the one read from the words of `data` that start
    /// at word `at`.
    pub open spec fn decoded_from(&self, data: Seq<u8>, at: int) -> bool {
        &&& self.0 == word_u64(word_at(data, at))
        &&& self.1 == word_u64(word_at(data, at + 1))
    }

    /// Adds the words of the value to `words`.
    pub fn push_words(&self, words: &mut Vec<[u8; 32]>)
        ensures
            final(words)@.len() == old(words)@.len() + 2,
            concat_words(final(words)@) == concat_words(old(words)@) + self.abi_encoding(),
    {
        push_word(words, encode_u64(self.0));
        push_word(words, encode_u64(self.1));
        assert(concat_words(words@) =~= concat_words(old(words)@) + self.abi_encoding());
    }

    /// Reads the value from the 2 words that start at `words[at]`.
    pub fn read_words(words: &Vec<[u8; 32]>, at: usize) -> (value: DepositReturn)
        requires
            at + 2 <= words@.len(),
        ensures
            forall|data: Seq<u8>|
                #[trigger] words_of(words@, data) ==> value.decoded_from(data, at as int),
    {
        let available = words.len();
        assert(at + 2 <= available);
        let value = DepositReturn(decode_u64(&words[at]), decode_u64(&words[at + 1]));
        assert forall|data: Seq<u8>| #[trigger] words_of(words@, data) implies value.decoded_from(
            data,
            at as int,
        ) by {
            assert(words@[at as int]@ == word_at(data, at as int));
            assert(words@[at as int + 1]@ == word_at(data, at as int + 1));
        }
        value
    }

    /// The value takes 2 words.
    pub proof fn lemma_encoding_len(&self)
        ensures
            self.abi_encoding().len() == 64,
    {
        lemma_u64_word_round_trip(self.0);
        lemma_u64_word_round_trip(self.1);
    }

    /// The value is read back from its own words, wherever they stand in
    /// `data`.
    pub proof fn lemma_read_back(&self, data: Seq<u8>, at: int)
        requires
            0 <= at,
            32 * at + 64 <= data.len(),
            data.subrange(32 * at, 32 * at + 64) == self.abi_encoding(),
        ensures
            self.decoded_from(data, at),
    {
        let enc = self.abi_encoding();
        lemma_u64_word_round_trip(self.0);
        lemma_u64_word_round_trip(self.1);
        assert(word_at(data, at) =~= enc.subrange(0, 32));
        assert(enc.subrange(0, 32) =~= u64_word(self.0));
        assert(word_at(data, at + 1) =~= enc.subrange(32, 64));
        assert(enc.subrange(32, 64) =~= u64_word(self.1));
    }

    /// At most one value is read from given words.
    pub proof fn lemma_decoding_unique(a: DepositReturn, b: DepositReturn, data: Seq<u8>, at: int)
        requires
            a.decoded_from(data, at),
            b.decoded_from(data, at),
        ensures
            a == b,
    {
    }

    /// Whether `data` holds the words of an output.
    pub open spec fn accepts(data: Seq<u8>) -> bool {
        64 <= data.len()
    }

    /// The return data of the output.
    pub fn encode(&self) -> (out: Vec<u8>)
        ensures
            out@ == self.abi_encoding(),
    {
        let mut words: Vec<[u8; 32]> = Vec::new();
        self.push_words(&mut words);
        assert(concat_words(Seq::<[u8; 32]>::empty()) =~= Seq::<u8>::empty());
        assert(concat_words(words@) =~= self.abi_encoding());
        abi_encode_words(&words)
    }

    /// Reads an output back from return data. Fails with `InvalidData`
    /// exactly when `data` is too short for it. Bytes behind the output are
    /// ignored.
    pub fn decode(data: &[u8]) -> (out: Result<DepositReturn, AbiError>)
        ensures
            match out {
                Ok(value) => Self::accepts(data@) && value.decoded_from(data@, 0),
                Err(e) => !Self::accepts(data@) && e == AbiError::InvalidData,
            },
    {
        match decode_words(2, data) {
            Ok(words) => Ok(DepositReturn::read_words(&words, 0)),
            Err(e) => Err(e),
        }
    }

    /// Decoding undoes encoding: whatever `decode` returns on the return
    /// data of an output is that output.
    pub proof fn lemma_round_trip(&self, decoded: Result<DepositReturn, AbiError>)
        requires
            match decoded {
                Ok(value) => value.decoded_from(self.abi_encoding(), 0),
                Err(e) => !Self::accepts(self.abi_encoding()),
            },
        ensures
            decoded == Ok::<DepositReturn, AbiError>(*self),
    {
        let data = self.abi_encoding();
        self.lemma_encoding_len();
        assert(data.subrange(0, 64) =~= data);
        self.lemma_read_back(data, 0);
        match decoded {
            Ok(value) => {
                Self::lemma_decoding_unique(value, *self, data, 0);
            },
            Err(e) => {},
        }
    }
}

/// Output of the contract function `exitEscrowPeriod`.
#[derive(Clone, Copy, Debug, Default, PartialEq, Eq, Hash)]
pub struct ExitEscrowPeriodReturn(pub u64);

impl ExitEscrowPeriodReturn {
    /// The words of the value, one after the other.
    pub open spec fn abi_encoding(&self) -> Seq<u8> {
        u64_word(self.0)
    }

    /// Whether the value is the one read from the words of `data` that start
    /// at word `at`.
    pub open spec fn decoded_from(&self, data: Seq<u8>, at: int) -> bool {
        &&& self.0 == word_u64(word_at(data, at))
    }

    /// Adds the words of the value to `words`.
    pub fn push_words(&self, words: &mut Vec<[u8; 32]>)
        ensures
            final(words)@.len() == old(words)@.len() + 1,
            concat_words(final(words)@) == concat_words(old(words)@) + self.abi_encoding(),
    {
        push_word(words, encode_u64(self.0));
        assert(concat_words(words@) =~= concat_words(old(words)@) + self.abi_encoding());
    }

    /// Reads the value from the word `words[at]`.
    pub fn read_words(words: &Vec<[u8; 32]>, at: usize) -> (value: ExitEscrowPeriodReturn)
        requires
            at + 1 <= words@.len(),
        ensures
            forall|data: Seq<u8>|
                #[trigger] words_of(words@, data) ==> value.decoded_from(data, at as int),
    {
        let available = words.len();
        assert(at + 1 <= available);
        let value = ExitEscrowPeriodReturn(decode_u64(&words[at]));
        assert forall|data: Seq<u8>| #[trigger] words_of(words@, data) implies value.decoded_from(
            data,
            at as int,
        ) by {
            assert(words@[at as int]@ == word_at(data, at as int));
        }
        value
    }

    /// The value takes one word.
    pub proof fn lemma_encoding_len(&self)
        ensures
            self.abi_encoding().len() == 32,
    {
        lemma_u64_word_round_trip(self.0);
    }

    /// The value is read back from its own words, wherever they stand in
    /// `data`.
    pub proof fn lemma_read_back(&self, data: Seq<u8>, at: int)
        requires
            0 <= at,
            32 * at + 32 <= data.len(),
            data.subrange(32 * at, 32 * at + 32) == self.abi_encoding(),
        ensures
            self.decoded_from(data, at),
    {
        let enc = self.abi_encoding();
        lemma_u64_word_round_trip(self.0);
        assert(word_at(data, at) =~= enc.subrange(0, 32));
        assert(enc.subrange(0, 32) =~= u64_word(self.0));
    }

    /// At most one value is read from given words.
    pub proof fn lemma_decoding_unique(a: ExitEscrowPeriodReturn, b: ExitEscrowPeriodReturn, data: Seq<u8>, at: int)
        requires
            a.decoded_from(data, at),
            b.decoded_from(data, at),
        ensures
            a == b,
    {
    }

    /// Whether `data` holds the words of an output.
    pub open spec fn accepts(data: Seq<u8>) -> bool {
        32 <= data.len()
    }

    /// The return data of the output.
    pub fn encode(&self) -> (out: Vec<u8>)
        ensures
            out@ == self.abi_encoding(),
    {
        let mut words: Vec<[u8; 32]> = Vec::new();
        self.push_words(&mut words);
        assert(concat_words(Seq::<[u8; 32]>::empty()) =~= Seq::<u8>::empty());
        assert(concat_words(words@) =~= self.abi_encoding());
        abi_encode_words(&words)
    }

    /// Reads an output back from return data. Fails with `InvalidData`
    /// exactly when `data` is too short for it. Bytes behind the output are
    /// ignored.
    pub fn decode(data: &[u8]) -> (out: Result<ExitEscrowPeriodReturn, AbiError>)
        ensures
            match out {
                Ok(value) => Self::accepts(data@) && value.decoded_from(data@, 0),
                Err(e) => !Self::accepts(data@) && e == AbiError::InvalidData,
            },
    {
        match decode_words(1, data) {
            Ok(words) => Ok(ExitEscrowPeriodReturn::read_words(&words, 0)),
            Err(e) => Err(e),
        }
    }

    /// Decoding undoes encoding: whatever `decode` returns on the return
    /// data of an output is that output.
    pub proof fn lemma_round_trip(&self, decoded: Result<ExitEscrowPeriodReturn, AbiError>)
        requires
            match decoded {
                Ok(value) => value.decoded_from(self.abi_encoding(), 0),
                Err(e) => !Self::accepts(self.abi_encoding()),
            },
        ensures
            decoded == Ok::<ExitEscrowPeriodReturn, AbiError>(*self),
    {
        let data = self.abi_encoding();
        self.lemma_encoding_len();
        assert(data.subrange(0, 32) =~= data);
        self.lemma_read_back(data, 0);
        match decoded {
            Ok(value) => {
                Self::lemma_decoding_unique(value, *self, data, 0);
            },
            Err(e) => {},
        }
    }
}

/// Output of the contract function `firstAvailableExitEpoch`.
#[derive(Clone, Copy, Debug, Default, PartialEq, Eq, Hash)]
pub struct FirstAvailableExitEpochReturn(pub u64);

impl FirstAvailableExitEpochReturn {
    /// The words of the value, one after the other.
    pub open spec fn abi_encoding(&self) -> Seq<u8> {
        u64_word(self.0)
    }

    /// Whether the value is the one read from the words of `data` that start
    /// at word `at`.
    pub open spec fn decoded_from(&self, data: Seq<u8>, at: int) -> bool {
        &&& self.0 == word_u64(word_at(data, at))
    }

    /// Adds the words of the value to `words`.
    pub fn push_words(&self, words: &mut Vec<[u8; 32]>)
        ensures
            final(words)@.len() == old(words)@.len() + 1,
            concat_words(final(words)@) == concat_words(old(words)@) + self.abi_encoding(),
    {
        push_word(words, encode_u64(self.0));
        assert(concat_words(words@) =~= concat_words(old(words)@) + self.abi_encoding());
    }

    /// Reads the value from the word `words[at]`.
    pub fn read_words(words: &Vec<[u8; 32]>, at: usize) -> (value: FirstAvailableExitEpochReturn)
        requires
            at + 1 <= words@.len(),
        ensures
            forall|data: Seq<u8>|
                #[trigger] words_of(words@, data) ==> value.decoded_from(data, at as int),
    {
        let available = words.len();
        assert(at + 1 <= available);
        let value = FirstAvailableExitEpochReturn(decode_u64(&words[at]));
        assert forall|data: Seq<u8>| #[trigger] words_of(words@, data) implies value.decoded_from(
            data,
            at as int,
        ) by {
            assert(words@[at as int]@ == word_at(data, at as int));
        }
        value
    }

    /// The value takes one word.
    pub proof fn lemma_encoding_len(&self)
        ensures
            self.abi_encoding().len() == 32,
    {
        lemma_u64_word_round_trip(self.0);
    }

    /// The value is read back from its own words, wherever they stand in
    /// `data`.
    pub proof fn lemma_read_back(&self, data: Seq<u8>, at: int)
        requires
            0 <= at,
            32 * at + 32 <= data.len(),
            data.subrange(32 * at, 32 * at + 32) == self.abi_encoding(),
        ensures
            self.decoded_from(data, at),
    {
        let enc = self.abi_encoding();
        lemma_u64_word_round_trip(self.0);
        assert(word_at(data, at) =~= enc.subrange(0, 32));
        assert(enc.subrange(0, 32) =~= u64_word(self.0));
    }

    /// At most one value is read from given words.
    pub proof fn lemma_decoding_unique(a: FirstAvailableExitEpochReturn, b: FirstAvailableExitEpochReturn, data: Seq<u8>, at: int)
        requires
            a.decoded_from(data, at),
            b.decoded_from(data, at),
        ensures
            a == b,
    {
    }

    /// Whether `data` holds the words of an output.
    pub open spec fn accepts(data: Seq<u8>) -> bool {
        32 <= data.len()
    }

    /// The return data of the output.
    pub fn encode(&self) -> (out: Vec<u8>)
        ensures
            out@ == self.abi_encoding(),
    {
        let mut words: Vec<[u8; 32]> = Vec::new();
        self.push_words(&mut words);
        assert(concat_words(Seq::<[u8; 32]>::empty()) =~= Seq::<u8>::empty());
        assert(concat_words(words@) =~= self.abi_encoding());
        abi_encode_words(&words)
    }

    /// Reads an output back from return data. Fails with `InvalidData`
    /// exactly when `data` is too short for it. Bytes behind the output are
    /// ignored.
    pub fn decode(data: &[u8]) -> (out: Result<FirstAvailableExitEpochReturn, AbiError>)
        ensures
            match out {
                Ok(value) => Self::accepts(data@) && value.decoded_from(data@, 0),
                Err(e) => !Self::accepts(data@) && e == AbiError::InvalidData,
            },
    {
        match decode_words(1, data) {
            Ok(words) => Ok(FirstAvailableExitEpochReturn::read_words(&words, 0)),
            Err(e) => Err(e),
        }
    }

    /// Decoding undoes encoding: whatever `decode` returns on the return
    /// data of an output is that output.
    pub proof fn lemma_round_trip(&self, decoded: Result<FirstAvailableExitEpochReturn, AbiError>)
        requires
            match decoded {
                Ok(value) => value.decoded_from(self.abi_encoding(), 0),
                Err(e) => !Self::accepts(self.abi_encoding()),
            },
        ensures
            decoded == Ok::<FirstAvailableExitEpochReturn, AbiError>(*self),
    {
        let data = self.abi_encoding();
        self.lemma_encoding_len();
        assert(data.subrange(0, 32) =~= data);
        self.lemma_read_back(data, 0);
        match decoded {
            Ok(value) => {
                Self::lemma_decoding_unique(value, *self, data, 0);
            },
            Err(e) => {},
        }
    }
}

/// Output of the contract function `firstAvailableRegistrationEpoch`.
#[derive(Clone, Copy, Debug, Default, PartialEq, Eq, Hash)]
pub struct FirstAvailableRegistrationEpochReturn(pub u64);

impl FirstAvailableRegistrationEpochReturn {
    /// The words of the value, one after the other.
    pub open spec fn abi_encoding(&self) -> Seq<u8> {
        u64_word(self.0)
    }

    /// Whether the value is the one read from the words of `data` that start
    /// at word `at`.
    pub open spec fn decoded_from(&self, data: Seq<u8>, at: int) -> bool {
        &&& self.0 == word_u64(word_at(data, at))
    }

    /// Adds the words of the value to `words`.
    pub fn push_words(&self, words: &mut Vec<[u8; 32]>)
        ensures
            final(words)@.len() == old(words)@.len() + 1,
            concat_words(final(words)@) == concat_words(old(words)@) + self.abi_encoding(),
    {
        push_word(words, encode_u64(self.0));
        assert(concat_words(words@) =~= concat_words(old(words)@) + self.abi_encoding());
    }

    /// Reads the value from the word `words[at]`.
    pub fn read_words(words: &Vec<[u8; 32]>, at: usize) -> (value: FirstAvailableRegistrationEpochReturn)
        requires
            at + 1 <= words@.len(),
        ensures
            forall|data: Seq<u8>|
                #[trigger] words_of(words@, data) ==> value.decoded_from(data, at as int),
    {
        let available = words.len();
        assert(at + 1 <= available);
        let value = FirstAvailableRegistrationEpochReturn(decode_u64(&words[at]));
        assert forall|data: Seq<u8>| #[trigger] words_of(words@, data) implies value.decoded_from(
            data,
            at as int,
        ) by {
            assert(words@[at as int]@ == word_at(data, at as int));
        }
        value
    }

    /// The value takes one word.
    pub proof fn lemma_encoding_len(&self)
        ensures
            self.abi_encoding().len() == 32,
    {
        lemma_u64_word_round_trip(self.0);
    }

    /// The value is read back from its own words, wherever they stand in
    /// `data`.
    pub proof fn lemma_read_back(&self, data: Seq<u8>, at: int)
        requires
            0 <= at,
            32 * at + 32 <= data.len(),
            data.subrange(32 * at, 32 * at + 32) == self.abi_encoding(),
        ensures
            self.decoded_from(data, at),
    {
        let enc = self.abi_encoding();
        lemma_u64_word_round_trip(self.0);
        assert(word_at(data, at) =~= enc.subrange(0, 32));
        assert(enc.subrange(0, 32) =~= u64_word(self.0));
    }

    /// At most one value is read from given words.
    pub proof fn lemma_decoding_unique(a: FirstAvailableRegistrationEpochReturn, b: FirstAvailableRegistrationEpochReturn, data: Seq<u8>, at: int)
        requires
            a.decoded_from(data, at),
            b.decoded_from(data, at),
        ensures
            a == b,
    {
    }

    /// Whether `data` holds the words of an output.
    pub open spec fn accepts(data: Seq<u8>) -> bool {
        32 <= data.len()
    }

    /// The return data of the output.
    pub fn encode(&self) -> (out: Vec<u8>)
        ensures
            out@ == self.abi_encoding(),
    {
        let mut words: Vec<[u8; 32]> = Vec::new();
        self.push_words(&mut words);
        assert(concat_words(Seq::<[u8; 32]>::empty()) =~= Seq::<u8>::empty());
        assert(concat_words(words@) =~= self.abi_encoding());
        abi_encode_words(&words)
    }

    /// Reads an output back from return data. Fails with `InvalidData`
    /// exactly when `data` is too short for it. Bytes behind the output are
    /// ignored.
    pub fn decode(data: &[u8]) -> (out: Result<FirstAvailableRegistrationEpochReturn, AbiError>)
        ensures
            match out {
                Ok(value) => Self::accepts(data@) && value.decoded_from(data@, 0),
                Err(e) => !Self::accepts(data@) && e == AbiError::InvalidData,
            },
    {
        match decode_words(1, data) {
            Ok(words) => Ok(FirstAvailableRegistrationEpochReturn::read_words(&words, 0)),
            Err(e) => Err(e),
        }
    }

    /// Decoding undoes encoding: whatever `decode` returns on the return
    /// data of an output is that output.
    pub proof fn lemma_round_trip(&self, decoded: Result<FirstAvailableRegistrationEpochReturn, AbiError>)
        requires
            match decoded {
                Ok(value) => value.decoded_from(self.abi_encoding(), 0),
                Err(e) => !Self::accepts(self.abi_encoding()),
            },
        ensures
            decoded == Ok::<FirstAvailableRegistrationEpochReturn, AbiError>(*self),
    {
        let data = self.abi_encoding();
        self.lemma_encoding_len();
        assert(data.subrange(0, 32) =~= data);
        self.lemma_read_back(data, 0);
        match decoded {
            Ok(value) => {
                Self::lemma_decoding_unique(value, *self, data, 0);
            },
            Err(e) => {},
        }
    }
}

/// Output of the contract function `lightClient`.
#[derive(Clone, Copy, Debug, Default, PartialEq, Eq, Hash)]
pub struct LightClientReturn(pub Address);

impl LightClientReturn {
    /// The words of the value, one after the other.
    pub open spec fn abi_encoding(&self) -> Seq<u8> {
        address_word(self.0@)
    }

    /// Whether the value is the one read from the words of `data` that start
    /// at word `at`.
    pub open spec fn decoded_from(&self, data: Seq<u8>, at: int) -> bool {
        &&& self.0@ == word_address(word_at(data, at))
    }

    /// Adds the words of the value to `words`.
    pub fn push_words(&self, words: &mut Vec<[u8; 32]>)
        ensures
            final(words)@.len() == old(words)@.len() + 1,
            concat_words(final(words)@) == concat_words(old(words)@) + self.abi_encoding(),
    {
        push_word(words, encode_address(&self.0));
        assert(concat_words(words@) =~= concat_words(old(words)@) + self.abi_encoding());
    }

    /// Reads the value from the word `words[at]`.
    pub fn read_words(words: &Vec<[u8; 32]>, at: usize) -> (value: LightClientReturn)
        requires
            at + 1 <= words@.len(),
        ensures
            forall|data: Seq<u8>|
                #[trigger] words_of(words@, data) ==> value.decoded_from(data, at as int),
    {
        let available = words.len();
        assert(at + 1 <= available);
        let value = LightClientReturn(decode_address(&words[at]));
        assert forall|data: Seq<u8>| #[trigger] words_of(words@, data) implies value.decoded_from(
            data,
            at as int,
        ) by {
            assert(words@[at as int]@ == word_at(data, at as int));
        }
        value
    }

    /// The value takes one word.
    pub proof fn lemma_encoding_len(&self)
        ensures
            self.abi_encoding().len() == 32,
    {
    }

    /// The value is read back from its own words, wherever they stand in
    /// `data`.
    pub proof fn lemma_read_back(&self, data: Seq<u8>, at: int)
        requires
            0 <= at,
            32 * at + 32 <= data.len(),
            data.subrange(32 * at, 32 * at + 32) == self.abi_encoding(),
        ensures
            self.decoded_from(data, at),
    {
        let enc = self.abi_encoding();
        assert(word_at(data, at) =~= enc.subrange(0, 32));
        assert(enc.subrange(0, 32) =~= address_word(self.0@));
        assert(word_address(address_word(self.0@)) =~= self.0@);
    }

    /// At most one value is read from given words.
    pub proof fn lemma_decoding_unique(a: LightClientReturn, b: LightClientReturn, data: Seq<u8>, at: int)
        requires
            a.decoded_from(data, at),
            b.decoded_from(data, at),
        ensures
            a == b,
    {
        assert(a.0.0 =~= b.0.0);
    }

    /// Whether `data` holds the words of an output.
    pub open spec fn accepts(data: Seq<u8>) -> bool {
        32 <= data.len()
    }

    /// The return data of the output.
    pub fn encode(&self) -> (out: Vec<u8>)
        ensures
            out@ == self.abi_encoding(),
    {
        let mut words: Vec<[u8; 32]> = Vec::new();
        self.push_words(&mut words);
        assert(concat_words(Seq::<[u8; 32]>::empty()) =~= Seq::<u8>::empty());
        assert(concat_words(words@) =~= self.abi_encoding());
        abi_encode_words(&words)
    }

    /// Reads an output back from return data. Fails with `InvalidData`
    /// exactly when `data` is too short for it. Bytes behind the output are
    /// ignored.
    pub fn decode(data: &[u8]) -> (out: Result<LightClientReturn, AbiError>)
        ensures
            match out {
                Ok(value) => Self::accepts(data@) && value.decoded_from(data@, 0),
                Err(e) => !Self::accepts(data@) && e == AbiError::InvalidData,
            },
    {
        match decode_words(1, data) {
            Ok(words) => Ok(LightClientReturn::read_words(&words, 0)),
            Err(e) => Err(e),
        }
    }

    /// Decoding undoes encoding: whatever `decode` returns on the return
    /// data of an output is that output.
    pub proof fn lemma_round_trip(&self, decoded: Result<LightClientReturn, AbiError>)
        requires
            match decoded {
                Ok(value) => value.decoded_from(self.abi_encoding(), 0),
                Err(e) => !Self::accepts(self.abi_encoding()),
            },
        ensures
            decoded == Ok::<LightClientReturn, AbiError>(*self),
    {
        let data = self.abi_encoding();
        self.lemma_encoding_len();
        assert(data.subrange(0, 32) =~= data);
        self.lemma_read_back(data, 0);
        match decoded {
            Ok(value) => {
                Self::lemma_decoding_unique(value, *self, data, 0);
            },
            Err(e) => {},
        }
    }
}

/// Output of the contract function `lookupNode`.
#[derive(Clone, Copy, Debug, Default, PartialEq, Eq, Hash)]
pub struct LookupNodeReturn(pub Node);

impl LookupNodeReturn {
    /// The words of the value, one after the other.
    pub open spec fn abi_encoding(&self) -> Seq<u8> {
        self.0.abi_encoding()
    }

    /// Whether the value is the one read from the words of `data` that start
    /// at word `at`.
    pub open spec fn decoded_from(&self, data: Seq<u8>, at: int) -> bool {
        &&& self.0.decoded_from(data, at)
    }

    /// Adds the words of the value to `words`.
    pub fn push_words(&self, words: &mut Vec<[u8; 32]>)
        ensures
            final(words)@.len() == old(words)@.len() + 7,
            concat_words(final(words)@) == concat_words(old(words)@) + self.abi_encoding(),
    {
        self.0.push_words(words);
        assert(concat_words(words@) =~= concat_words(old(words)@) + self.abi_encoding());
    }

    /// Reads the value from the 7 words that start at `words[at]`.
    pub fn read_words(words: &Vec<[u8; 32]>, at: usize) -> (value: LookupNodeReturn)
        requires
            at + 7 <= words@.len(),
        ensures
            forall|data: Seq<u8>|
                #[trigger] words_of(words@, data) ==> value.decoded_from(data, at as int),
    {
        let available = words.len();
        assert(at + 7 <= available);
        let value = LookupNodeReturn(Node::read_words(words, at));
        assert forall|data: Seq<u8>| #[trigger] words_of(words@, data) implies value.decoded_from(
            data,
            at as int,
        ) by {
            assert(words@[at as int]@ == word_at(data, at as int));
            assert(words@[at as int + 1]@ == word_at(data, at as int + 1));
            assert(words@[at as int + 2]@ == word_at(data, at as int + 2));
            assert(words@[at as int + 3]@ == word_at(data, at as int + 3));
            assert(words@[at as int + 4]@ == word_at(data, at as int + 4));
            assert(words@[at as int + 5]@ == word_at(data, at as int + 5));
            assert(words@[at as int + 6]@ == word_at(data, at as int + 6));
        }
        value
    }

    /// The value takes 7 words.
    pub proof fn lemma_encoding_len(&self)
        ensures
            self.abi_encoding().len() == 224,
    {
        self.0.lemma_encoding_len();
    }

    /// The value is read back from its own words, wherever they stand in
    /// `data`.
    pub proof fn lemma_read_back(&self, data: Seq<u8>, at: int)
        requires
            0 <= at,
            32 * at + 224 <= data.len(),
            data.subrange(32 * at, 32 * at + 224) == self.abi_encoding(),
        ensures
            self.decoded_from(data, at),
    {
        let enc = self.abi_encoding();
        self.0.lemma_encoding_len();
        assert(data.subrange(32 * at, 32 * at + 224) =~= enc.subrange(0, 224));
        assert(enc.subrange(0, 224) =~= self.0.abi_encoding());
        self.0.lemma_read_back(data, at);
    }

    /// At most one value is read from given words.
    pub proof fn lemma_decoding_unique(a: LookupNodeReturn, b: LookupNodeReturn, data: Seq<u8>, at: int)
        requires
            a.decoded_from(data, at),
            b.decoded_from(data, at),
        ensures
            a == b,
    {
        Node::lemma_decoding_unique(a.0, b.0, data, at);
    }

    /// Whether `data` holds the words of an output.
    pub open spec fn accepts(data: Seq<u8>) -> bool {
        224 <= data.len()
    }

    /// The return data of the output.
    pub fn encode(&self) -> (out: Vec<u8>)
        ensures
            out@ == self.abi_encoding(),
    {
        let mut words: Vec<[u8; 32]> = Vec::new();
        self.push_words(&mut words);
        assert(concat_words(Seq::<[u8; 32]>::empty()) =~= Seq::<u8>::empty());
        assert(concat_words(words@) =~= self.abi_encoding());
        abi_encode_words(&words)
    }

    /// Reads an output back from return data. Fails with `InvalidData`
    /// exactly when `data` is too short for it. Bytes behind the output are
    /// ignored.
    pub fn decode(data: &[u8]) -> (out: Result<LookupNodeReturn, AbiError>)
        ensures
            match out {
                Ok(value) => Self::accepts(data@) && value.decoded_from(data@, 0),
                Err(e) => !Self::accepts(data@) && e == AbiError::InvalidData,
            },
    {
        match decode_words(7, data) {
            Ok(words) => Ok(LookupNodeReturn::read_words(&words, 0)),
            Err(e) => Err(e),
        }
    }

    /// Decoding undoes encoding: whatever `decode` returns on the return
    /// data of an output is that output.
    pub proof fn lemma_round_trip(&self, decoded: Result<LookupNodeReturn, AbiError>)
        requires
            match decoded {
                Ok(value) => value.decoded_from(self.abi_encoding(), 0),
                Err(e) => !Self::accepts(self.abi_encoding()),
            },
        ensures
            decoded == Ok::<LookupNodeReturn, AbiError>(*self),
    {
        let data = self.abi_encoding();
        self.lemma_encoding_len();
        assert(data.subrange(0, 224) =~= data);
        self.lemma_read_back(data, 0);
        match decoded {
            Ok(value) => {
                Self::lemma_decoding_unique(value, *self, data, 0);
            },
            Err(e) => {},
        }
    }
}

/// Output of the contract function `lookupStake`.
#[derive(Clone, Copy, Debug, Default, PartialEq, Eq, Hash)]
pub struct LookupStakeReturn(pub u64);

impl LookupStakeReturn {
    /// The words of the value, one after the other.
    pub open spec fn abi_encoding(&self) -> Seq<u8> {
        u64_word(self.0)
    }

    /// Whether the value is the one read from the words of `data` that start
    /// at word `at`.
    pub open spec fn decoded_from(&self, data: Seq<u8>, at: int) -> bool {
        &&& self.0 == word_u64(word_at(data, at))
    }

    /// Adds the words of the value to `words`.
    pub fn push_words(&self, words: &mut Vec<[u8; 32]>)
        ensures
            final(words)@.len() == old(words)@.len() + 1,
            concat_words(final(words)@) == concat_words(old(words)@) + self.abi_encoding(),
    {
        push_word(words, encode_u64(self.0));
        assert(concat_words(words@) =~= concat_words(old(words)@) + self.abi_encoding());
    }

    /// Reads the value from the word `words[at]`.
    pub fn read_words(words: &Vec<[u8; 32]>, at: usize) -> (value: LookupStakeReturn)
        requires
            at + 1 <= words@.len(),
        ensures
            forall|data: Seq<u8>|
                #[trigger] words_of(words@, data) ==> value.decoded_from(data, at as int),
    {
        let available = words.len();
        assert(at + 1 <= available);
        let value = LookupStakeReturn(decode_u64(&words[at]));
        assert forall|data: Seq<u8>| #[trigger] words_of(words@, data) implies value.decoded_from(
            data,
            at as int,
        ) by {
            assert(words@[at as int]@ == word_at(data, at as int));
        }
        value
    }

    /// The value takes one word.
    pub proof fn lemma_encoding_len(&self)
        ensures
            self.abi_encoding().len() == 32,
    {
        lemma_u64_word_round_trip(self.0);
    }

    /// The value is read back from its own words, wherever they stand in
    /// `data`.
    pub proof fn lemma_read_back(&self, data: Seq<u8>, at: int)
        requires
            0 <= at,
            32 * at + 32 <= data.len(),
            data.subrange(32 * at, 32 * at + 32) == self.abi_encoding(),
        ensures
            self.decoded_from(data, at),
    {
        let enc = self.abi_encoding();
        lemma_u64_word_round_trip(self.0);
        assert(word_at(data, at) =~= enc.subrange(0, 32));
        assert(enc.subrange(0, 32) =~= u64_word(self.0));
    }

    /// At most one value is read from given words.
    pub proof fn lemma_decoding_unique(a: LookupStakeReturn, b: LookupStakeReturn, data: Seq<u8>, at: int)
        requires
            a.decoded_from(data, at),
            b.decoded_from(data, at),
        ensures
            a == b,
    {
    }

    /// Whether `data` holds the words of an output.
    pub open spec fn accepts(data: Seq<u8>) -> bool {
        32 <= data.len()
    }

    /// The return data of the output.
    pub fn encode(&self) -> (out: Vec<u8>)
        ensures
            out@ == self.abi_encoding(),
    {
        let mut words: Vec<[u8; 32]> = Vec::new();
        self.push_words(&mut words);
        assert(concat_words(Seq::<[u8; 32]>::empty()) =~= Seq::<u8>::empty());
        assert(concat_words(words@) =~= self.abi_encoding());
        abi_encode_words(&words)
    }

    /// Reads an output back from return data. Fails with `InvalidData`
    /// exactly when `data` is too short for it. Bytes behind the output are
    /// ignored.
    pub fn decode(data: &[u8]) -> (out: Result<LookupStakeReturn, AbiError>)
        ensures
            match out {
                Ok(value) => Self::accepts(data@) && value.decoded_from(data@, 0),
                Err(e) => !Self::accepts(data@) && e == AbiError::InvalidData,
            },
    {
        match decode_words(1, data) {
            Ok(words) => Ok(LookupStakeReturn::read_words(&words, 0)),
            Err(e) => Err(e),
        }
    }

    /// Decoding undoes encoding: whatever `decode` returns on the return
    /// data of an output is that output.
    pub proof fn lemma_round_trip(&self, decoded: Result<LookupStakeReturn, AbiError>)
        requires
            match decoded {
                Ok(value) => value.decoded_from(self.abi_encoding(), 0),
                Err(e) => !Self::accepts(self.abi_encoding()),
            },
        ensures
            decoded == Ok::<LookupStakeReturn, AbiError>(*self),
    {
        let data = self.abi_encoding();
        self.lemma_encoding_len();
        assert(data.subrange(0, 32) =~= data);
        self.lemma_read_back(data, 0);
        match decoded {
            Ok(value) => {
                Self::lemma_decoding_unique(value, *self, data, 0);
            },
            Err(e) => {},
        }
    }
}

/// Output of the contract function `maxChurnRate`.
#[derive(Clone, Copy, Debug, Default, PartialEq, Eq, Hash)]
pub struct MaxChurnRateReturn(pub u64);

impl MaxChurnRateReturn {
    /// The words of the value, one after the other.
    pub open spec fn abi_encoding(&self) -> Seq<u8> {
        u64_word(self.0)
    }

    /// Whether the value is the one read from the words of `data` that start
    /// at word `at`.
    pub open spec fn decoded_from(&self, data: Seq<u8>, at: int) -> bool {
        &&& self.0 == word_u64(word_at(data, at))
    }

    /// Adds the words of the value to `words`.
    pub fn push_words(&self, words: &mut Vec<[u8; 32]>)
        ensures
            final(words)@.len() == old(words)@.len() + 1,
            concat_words(final(words)@) == concat_words(old(words)@) + self.abi_encoding(),
    {
        push_word(words, encode_u64(self.0));
        assert(concat_words(words@) =~= concat_words(old(words)@) + self.abi_encoding());
    }

    /// Reads the value from the word `words[at]`.
    pub fn read_words(words: &Vec<[u8; 32]>, at: usize) -> (value: MaxChurnRateReturn)
        requires
            at + 1 <= words@.len(),
        ensures
            forall|data: Seq<u8>|
                #[trigger] words_of(words@, data) ==> value.decoded_from(data, at as int),
    {
        let available = words.len();
        assert(at + 1 <= available);
        let value = MaxChurnRateReturn(decode_u64(&words[at]));
        assert forall|data: Seq<u8>| #[trigger] words_of(words@, data) implies value.decoded_from(
            data,
            at as int,
        ) by {
            assert(words@[at as int]@ == word_at(data, at as int));
        }
        value
    }

    /// The value takes one word.
    pub proof fn lemma_encoding_len(&self)
        ensures
            self.abi_encoding().len() == 32,
    {
        lemma_u64_word_round_trip(self.0);
    }

    /// The value is read back from its own words, wherever they stand in
    /// `data`.
    pub proof fn lemma_read_back(&self, data: Seq<u8>, at: int)
        requires
            0 <= at,
            32 * at + 32 <= data.len(),
            data.subrange(32 * at, 32 * at + 32) == self.abi_encoding(),
        ensures
            self.decoded_from(data, at),
    {
        let enc = self.abi_encoding();
        lemma_u64_word_round_trip(self.0);
        assert(word_at(data, at) =~= enc.subrange(0, 32));
        assert(enc.subrange(0, 32) =~= u64_word(self.0));
    }

    /// At most one value is read from given words.
    pub proof fn lemma_decoding_unique(a: MaxChurnRateReturn, b: MaxChurnRateReturn, data: Seq<u8>, at: int)
        requires
            a.decoded_from(data, at),
            b.decoded_from(data, at),
        ensures
            a == b,
    {
    }

    /// Whether `data` holds the words of an output.
    pub open spec fn accepts(data: Seq<u8>) -> bool {
        32 <= data.len()
    }

    /// The return data of the output.
    pub fn encode(&self) -> (out: Vec<u8>)
        ensures
            out@ == self.abi_encoding(),
    {
        let mut words: Vec<[u8; 32]> = Vec::new();
        self.push_words(&mut words);
        assert(concat_words(Seq::<[u8; 32]>::empty()) =~= Seq::<u8>::empty());
        assert(concat_words(words@) =~= self.abi_encoding());
        abi_encode_words(&words)
    }

    /// Reads an output back from return data. Fails with `InvalidData`
    /// exactly when `data` is too short for it. Bytes behind the output are
    /// ignored.
    pub fn decode(data: &[u8]) -> (out: Result<MaxChurnRateReturn, AbiError>)
        ensures
            match out {
                Ok(value) => Self::accepts(data@) && value.decoded_from(data@, 0),
                Err(e) => !Self::accepts(data@) && e == AbiError::InvalidData,
            },
    {
        match decode_words(1, data) {
            Ok(words) => Ok(MaxChurnRateReturn::read_words(&words, 0)),
            Err(e) => Err(e),
        }
    }

    /// Decoding undoes encoding: whatever `decode` returns on the return
    /// data of an output is that output.
    pub proof fn lemma_round_trip(&self, decoded: Result<MaxChurnRateReturn, AbiError>)
        requires
            match decoded {
                Ok(value) => value.decoded_from(self.abi_encoding(), 0),
                Err(e) => !Self::accepts(self.abi_encoding()),
            },
        ensures
            decoded == Ok::<MaxChurnRateReturn, AbiError>(*self),
    {
        let data = self.abi_encoding();
        self.lemma_encoding_len();
        assert(data.subrange(0, 32) =~= data);
        self.lemma_read_back(data, 0);
        match decoded {
            Ok(value) => {
                Self::lemma_decoding_unique(value, *self, data, 0);
            },
            Err(e) => {},
        }
    }
}

/// Output of the contract function `nextExitEpoch`.
#[derive(Clone, Copy, Debug, Default, PartialEq, Eq, Hash)]
pub struct NextExitEpochReturn(pub u64, pub u64);

impl NextExitEpochReturn {
    /// The words of the value, one after the other.
    pub open spec fn abi_encoding(&self) -> Seq<u8> {
        u64_word(self.0) + u64_word(self.1)
    }

    /// Whether the value is the one read from the words of `data` that start
    /// at word `at`.
    pub open spec fn decoded_from(&self, data: Seq<u8>, at: int) -> bool {
        &&& self.0 == word_u64(word_at(data, at))
        &&& self.1 == word_u64(word_at(data, at + 1))
    }

    /// Adds the words of the value to `words`.
    pub fn push_words(&self, words: &mut Vec<[u8; 32]>)
        ensures
            final(words)@.len() == old(words)@.len() + 2,
            concat_words(final(words)@) == concat_words(old(words)@) + self.abi_encoding(),
    {
        push_word(words, encode_u64(self.0));
        push_word(words, encode_u64(self.1));
        assert(concat_words(words@) =~= concat_words(old(words)@) + self.abi_encoding());
    }

    /// Reads the value from the 2 words that start at `words[at]`.
    pub fn read_words(words: &Vec<[u8; 32]>, at: usize) -> (value: NextExitEpochReturn)
        requires
            at + 2 <= words@.len(),
        ensures
            forall|data: Seq<u8>|
                #[trigger] words_of(words@, data) ==> value.decoded_from(data, at as int),
    {
        let available = words.len();
        assert(at + 2 <= available);
        let value = NextExitEpochReturn(decode_u64(&words[at]), decode_u64(&words[at + 1]));
        assert forall|data: Seq<u8>| #[trigger] words_of(words@, data) implies value.decoded_from(
            data,
            at as int,
        ) by {
            assert(words@[at as int]@ == word_at(data, at as int));
            assert(words@[at as int + 1]@ == word_at(data, at as int + 1));
        }
        value
    }

    /// The value takes 2 words.
    pub proof fn lemma_encoding_len(&self)
        ensures
            self.abi_encoding().len() == 64,
    {
        lemma_u64_word_round_trip(self.0);
        lemma_u64_word_round_trip(self.1);
    }

    /// The value is read back from its own words, wherever they stand in
    /// `data`.
    pub proof fn lemma_read_back(&self, data: Seq<u8>, at: int)
        requires
            0 <= at,
            32 * at + 64 <= data.len(),
            data.subrange(32 * at, 32 * at + 64) == self.abi_encoding(),
        ensures
            self.decoded_from(data, at),
    {
        let enc = self.abi_encoding();
        lemma_u64_word_round_trip(self.0);
        lemma_u64_word_round_trip(self.1);
        assert(word_at(data, at) =~= enc.subrange(0, 32));
        assert(enc.subrange(0, 32) =~= u64_word(self.0));
        assert(word_at(data, at + 1) =~= enc.subrange(32, 64));
        assert(enc.subrange(32, 64) =~= u64_word(self.1));
    }

    /// At most one value is read from given words.
    pub proof fn lemma_decoding_unique(a: NextExitEpochReturn, b: NextExitEpochReturn, data: Seq<u8>, at: int)
        requires
            a.decoded_from(data, at),
            b.decoded_from(data, at),
        ensures
            a == b,
    {
    }

    /// Whether `data` holds the words of an output.
    pub open spec fn accepts(data: Seq<u8>) -> bool {
        64 <= data.len()
    }

    /// The return data of the output.
    pub fn encode(&self) -> (out: Vec<u8>)
        ensures
            out@ == self.abi_encoding(),
    {
        let mut words: Vec<[u8; 32]> = Vec::new();
        self.push_words(&mut words);
        assert(concat_words(Seq::<[u8; 32]>::empty()) =~= Seq::<u8>::empty());
        assert(concat_words(words@) =~= self.abi_encoding());
        abi_encode_words(&words)
    }

    /// Reads an output back from return data. Fails with `InvalidData`
    /// exactly when `data` is too short for it. Bytes behind the output are
    /// ignored.
    pub fn decode(data: &[u8]) -> (out: Result<NextExitEpochReturn, AbiError>)
        ensures
            match out {
                Ok(value) => Self::accepts(data@) && value.decoded_from(data@, 0),
                Err(e) => !Self::accepts(data@) && e == AbiError::InvalidData,
            },
    {
        match decode_words(2, data) {
            Ok(words) => Ok(NextExitEpochReturn::read_words(&words, 0)),
            Err(e) => Err(e),
        }
    }

    /// Decoding undoes encoding: whatever `decode` returns on the return
    /// data of an output is that output.
    pub proof fn lemma_round_trip(&self, decoded: Result<NextExitEpochReturn, AbiError>)
        requires
            match decoded {
                Ok(value) => value.decoded_from(self.abi_encoding(), 0),
                Err(e) => !Self::accepts(self.abi_encoding()),
            },
        ensures
            decoded == Ok::<NextExitEpochReturn, AbiError>(*self),
    {
        let data = self.abi_encoding();
        self.lemma_encoding_len();
        assert(data.subrange(0, 64) =~= data);
        self.lemma_read_back(data, 0);
        match decoded {
            Ok(value) => {
                Self::lemma_decoding_unique(value, *self, data, 0);
            },
            Err(e) => {},
        }
    }
}

/// Output of the contract function `nextRegistrationEpoch`.
#[derive(Clone, Copy, Debug, Default, PartialEq, Eq, Hash)]
pub struct NextRegistrationEpochReturn(pub u64, pub u64);

impl NextRegistrationEpochReturn {
    /// The words of the value, one after the other.
    pub open spec fn abi_encoding(&self) -> Seq<u8> {
        u64_word(self.0) + u64_word(self.1)
    }

    /// Whether the value is the one read from the words of `data` that start
    /// at word `at`.
    pub open spec fn decoded_from(&self, data: Seq<u8>, at: int) -> bool {
        &&& self.0 == word_u64(word_at(data, at))
        &&& self.1 == word_u64(word_at(data, at + 1))
    }

    /// Adds the words of the value to `words`.
    pub fn push_words(&self, words: &mut Vec<[u8; 32]>)
        ensures
            final(words)@.len() == old(words)@.len() + 2,
            concat_words(final(words)@) == concat_words(old(words)@) + self.abi_encoding(),
    {
        push_word(words, encode_u64(self.0));
        push_word(words, encode_u64(self.1));
        assert(concat_words(words@) =~= concat_words(old(words)@) + self.abi_encoding());
    }

    /// Reads the value from the 2 words that start at `words[at]`.
    pub fn read_words(words: &Vec<[u8; 32]>, at: usize) -> (value: NextRegistrationEpochReturn)
        requires
            at + 2 <= words@.len(),
        ensures
            forall|data: Seq<u8>|
                #[trigger] words_of(words@, data) ==> value.decoded_from(data, at as int),
    {
        let available = words.len();
        assert(at + 2 <= available);
        let value = NextRegistrationEpochReturn(decode_u64(&words[at]), decode_u64(&words[at + 1]));
        assert forall|data: Seq<u8>| #[trigger] words_of(words@, data) implies value.decoded_from(
            data,
            at as int,
        ) by {
            assert(words@[at as int]@ == word_at(data, at as int));
            assert(words@[at as int + 1]@ == word_at(data, at as int + 1));
        }
        value
    }

    /// The value takes 2 words.
    pub proof fn lemma_encoding_len(&self)
        ensures
            self.abi_encoding().len() == 64,
    {
        lemma_u64_word_round_trip(self.0);
        lemma_u64_word_round_trip(self.1);
    }

    /// The value is read back from its own words, wherever they stand in
    /// `data`.
    pub proof fn lemma_read_back(&self, data: Seq<u8>, at: int)
        requires
            0 <= at,
            32 * at + 64 <= data.len(),
            data.subrange(32 * at, 32 * at + 64) == self.abi_encoding(),
        ensures
            self.decoded_from(data, at),
    {
        let enc = self.abi_encoding();
        lemma_u64_word_round_trip(self.0);
        lemma_u64_word_round_trip(self.1);
        assert(word_at(data, at) =~= enc.subrange(0, 32));
        assert(enc.subrange(0, 32) =~= u64_word(self.0));
        assert(word_at(data, at + 1) =~= enc.subrange(32, 64));
        assert(enc.subrange(32, 64) =~= u64_word(self.1));
    }

    /// At most one value is read from given words.
    pub proof fn lemma_decoding_unique(a: NextRegistrationEpochReturn, b: NextRegistrationEpochReturn, data: Seq<u8>, at: int)
        requires
            a.decoded_from(data, at),
            b.decoded_from(data, at),
        ensures
            a == b,
    {
    }

    /// Whether `data` holds the words of an output.
    pub open spec fn accepts(data: Seq<u8>) -> bool {
        64 <= data.len()
    }

    /// The return data of the output.
    pub fn encode(&self) -> (out: Vec<u8>)
        ensures
            out@ == self.abi_encoding(),
    {
        let mut words: Vec<[u8; 32]> = Vec::new();
        self.push_words(&mut words);
        assert(concat_words(Seq::<[u8; 32]>::empty()) =~= Seq::<u8>::empty());
        assert(concat_words(words@) =~= self.abi_encoding());
        abi_encode_words(&words)
    }

    /// Reads an output back from return data. Fails with `InvalidData`
    /// exactly when `data` is too short for it. Bytes behind the output are
    /// ignored.
    pub fn decode(data: &[u8]) -> (out: Result<NextRegistrationEpochReturn, AbiError>)
        ensures
            match out {
                Ok(value) => Self::accepts(data@) && value.decoded_from(data@, 0),
                Err(e) => !Self::accepts(data@) && e == AbiError::InvalidData,
            },
    {
        match decode_words(2, data) {
            Ok(words) => Ok(NextRegistrationEpochReturn::read_words(&words, 0)),
            Err(e) => Err(e),
        }
    }

    /// Decoding undoes encoding: whatever `decode` returns on the return
    /// data of an output is that output.
    pub proof fn lemma_round_trip(&self, decoded: Result<NextRegistrationEpochReturn, AbiError>)
        requires
            match decoded {
                Ok(value) => value.decoded_from(self.abi_encoding(), 0),
                Err(e) => !Self::accepts(self.abi_encoding()),
            },
        ensures
            decoded == Ok::<NextRegistrationEpochReturn, AbiError>(*self),
    {
        let data = self.abi_encoding();
        self.lemma_encoding_len();
        assert(data.subrange(0, 64) =~= data);
        self.lemma_read_back(data, 0);
        match decoded {
            Ok(value) => {
                Self::lemma_decoding_unique(value, *self, data, 0);
            },
            Err(e) => {},
        }
    }
}

/// Output of the contract function `nodes`.
#[derive(Clone, Copy, Debug, Default, PartialEq, Eq, Hash)]
pub struct NodesReturn {
    /// Account that registered the node.
    pub account: Address,
    /// Kind of stake: native or restaked.
    pub stake_type: u8,
    /// Amount staked.
    pub balance: u64,
    /// Epoch in which the registration takes effect.
    pub register_epoch: u64,
    /// Epoch in which the exit takes effect, zero while none is requested.
    pub exit_epoch: u64,
    /// Key that verifies the state signatures of the node.
    pub schnorr_vk: EdOnBN254Point,
}

impl NodesReturn {
    /// The words of the value, one after the other.
    pub open spec fn abi_encoding(&self) -> Seq<u8> {
        address_word(self.account@) + u8_word(self.stake_type) + u64_word(self.balance) + u64_word(self.register_epoch) + u64_word(self.exit_epoch) + self.schnorr_vk.abi_encoding()
    }

    /// Whether the value is the one read from the words of `data` that start
    /// at word `at`.
    pub open spec fn decoded_from(&self, data: Seq<u8>, at: int) -> bool {
        &&& self.account@ == word_address(word_at(data, at))
        &&& self.stake_type == word_u8(word_at(data, at + 1))
        &&& self.balance == word_u64(word_at(data, at + 2))
        &&& self.register_epoch == word_u64(word_at(data, at + 3))
        &&& self.exit_epoch == word_u64(word_at(data, at + 4))
        &&& self.schnorr_vk.decoded_from(data, at + 5)
    }

    /// Adds the words of the value to `words`.
    pub fn push_words(&self, words: &mut Vec<[u8; 32]>)
        ensures
            final(words)@.len() == old(words)@.len() + 7,
            concat_words(final(words)@) == concat_words(old(words)@) + self.abi_encoding(),
    {
        push_word(words, encode_address(&self.account));
        push_word(words, encode_u8(self.stake_type));
        push_word(words, encode_u64(self.balance));
        push_word(words, encode_u64(self.register_epoch));
        push_word(words, encode_u64(self.exit_epoch));
        self.schnorr_vk.push_words(words);
        assert(concat_words(words@) =~= concat_words(old(words)@) + self.abi_encoding());
    }

    /// Reads the value from the 7 words that start at `words[at]`.
    pub fn read_words(words: &Vec<[u8; 32]>, at: usize) -> (value: NodesReturn)
        requires
            at + 7 <= words@.len(),
        ensures
            forall|data: Seq<u8>|
                #[trigger] words_of(words@, data) ==> value.decoded_from(data, at as int),
    {
        let available = words.len();
        assert(at + 7 <= available);
        let value = NodesReturn {
            account: decode_address(&words[at]),
            stake_type: decode_u8(&words[at + 1]),
            balance: decode_u64(&words[at + 2]),
            register_epoch: decode_u64(&words[at + 3]),
            exit_epoch: decode_u64(&words[at + 4]),
            schnorr_vk: EdOnBN254Point::read_words(words, at + 5),
        };
        assert forall|data: Seq<u8>| #[trigger] words_of(words@, data) implies value.decoded_from(
            data,
            at as int,
        ) by {
            assert(words@[at as int]@ == word_at(data, at as int));
            assert(words@[at as int + 1]@ == word_at(data, at as int + 1));
            assert(words@[at as int + 2]@ == word_at(data, at as int + 2));
            assert(words@[at as int + 3]@ == word_at(data, at as int + 3));
            assert(words@[at as int + 4]@ == word_at(data, at as int + 4));
            assert(words@[at as int + 5]@ == word_at(data, at as int + 5));
            assert(words@[at as int + 6]@ == word_at(data, at as int + 6));
        }
        value
    }

    /// The value takes 7 words.
    pub proof fn lemma_encoding_len(&self)
        ensures
            self.abi_encoding().len() == 224,
    {
        lemma_u64_word_round_trip(self.balance);
        lemma_u64_word_round_trip(self.register_epoch);
        lemma_u64_word_round_trip(self.exit_epoch);
        self.schnorr_vk.lemma_encoding_len();
    }

    /// The value is read back from its own words, wherever they stand in
    /// `data`.
    pub proof fn lemma_read_back(&self, data: Seq<u8>, at: int)
        requires
            0 <= at,
            32 * at + 224 <= data.len(),
            data.subrange(32 * at, 32 * at + 224) == self.abi_encoding(),
        ensures
            self.decoded_from(data, at),
    {
        let enc = self.abi_encoding();
        lemma_u64_word_round_trip(self.balance);
        lemma_u64_word_round_trip(self.register_epoch);
        lemma_u64_word_round_trip(self.exit_epoch);
        self.schnorr_vk.lemma_encoding_len();
        assert(word_at(data, at) =~= enc.subrange(0, 32));
        assert(enc.subrange(0, 32) =~= address_word(self.account@));
        assert(word_address(address_word(self.account@)) =~= self.account@);
        assert(word_at(data, at + 1) =~= enc.subrange(32, 64));
        assert(enc.subrange(32, 64) =~= u8_word(self.stake_type));
        assert(word_at(data, at + 2) =~= enc.subrange(64, 96));
        assert(enc.subrange(64, 96) =~= u64_word(self.balance));
        assert(word_at(data, at + 3) =~= enc.subrange(96, 128));
        assert(enc.subrange(96, 128) =~= u64_word(self.register_epoch));
        assert(word_at(data, at + 4) =~= enc.subrange(128, 160));
        assert(enc.subrange(128, 160) =~= u64_word(self.exit_epoch));
        assert(data.subrange(32 * (at + 5), 32 * (at + 5) + 64) =~= enc.subrange(160, 224));
        assert(enc.subrange(160, 224) =~= self.schnorr_vk.abi_encoding());
        self.schnorr_vk.lemma_read_back(data, at + 5);
    }

    /// At most one value is read from given words.
    pub proof fn lemma_decoding_unique(a: NodesReturn, b: NodesReturn, data: Seq<u8>, at: int)
        requires
            a.decoded_from(data, at),
            b.decoded_from(data, at),
        ensures
            a == b,
    {
        assert(a.account.0 =~= b.account.0);
        EdOnBN254Point::lemma_decoding_unique(a.schnorr_vk, b.schnorr_vk, data, at + 5);
    }

    /// Whether `data` holds the words of an output.
    pub open spec fn accepts(data: Seq<u8>) -> bool {
        224 <= data.len()
    }

    /// The return data of the output.
    pub fn encode(&self) -> (out: Vec<u8>)
        ensures
            out@ == self.abi_encoding(),
    {
        let mut words: Vec<[u8; 32]> = Vec::new();
        self.push_words(&mut words);
        assert(concat_words(Seq::<[u8; 32]>::empty()) =~= Seq::<u8>::empty());
        assert(concat_words(words@) =~= self.abi_encoding());
        abi_encode_words(&words)
    }

    /// Reads an output back from return data. Fails with `InvalidData`
    /// exactly when `data` is too short for it. Bytes behind the output are
    /// ignored.
    pub fn decode(data: &[u8]) -> (out: Result<NodesReturn, AbiError>)
        ensures
            match out {
                Ok(value) => Self::accepts(data@) && value.decoded_from(data@, 0),
                Err(e) => !Self::accepts(data@) && e == AbiError::InvalidData,
            },
    {
        match decode_words(7, data) {
            Ok(words) => Ok(NodesReturn::read_words(&words, 0)),
            Err(e) => Err(e),
        }
    }

    /// Decoding undoes encoding: whatever `decode` returns on the return
    /// data of an output is that output.
    pub proof fn lemma_round_trip(&self, decoded: Result<NodesReturn, AbiError>)
        requires
            match decoded {
                Ok(value) => value.decoded_from(self.abi_encoding(), 0),
                Err(e) => !Self::accepts(self.abi_encoding()),
            },
        ensures
            decoded == Ok::<NodesReturn, AbiError>(*self),
    {
        let data = self.abi_encoding();
        self.lemma_encoding_len();
        assert(data.subrange(0, 224) =~= data);
        self.lemma_read_back(data, 0);
        match decoded {
            Ok(value) => {
                Self::lemma_decoding_unique(value, *self, data, 0);
            },
            Err(e) => {},
        }
    }
}

/// Output of the contract function `numPendingExits`.
#[derive(Clone, Copy, Debug, Default, PartialEq, Eq, Hash)]
pub struct NumPendingExitsReturn(pub u64);

impl NumPendingExitsReturn {
    /// The words of the value, one after the other.
    pub open spec fn abi_encoding(&self) -> Seq<u8> {
        u64_word(self.0)
    }

    /// Whether the value is the one read from the words of `data` that start
    /// at word `at`.
    pub open spec fn decoded_from(&self, data: Seq<u8>, at: int) -> bool {
        &&& self.0 == word_u64(word_at(data, at))
    }

    /// Adds the words of the value to `words`.
    pub fn push_words(&self, words: &mut Vec<[u8; 32]>)
        ensures
            final(words)@.len() == old(words)@.len() + 1,
            concat_words(final(words)@) == concat_words(old(words)@) + self.abi_encoding(),
    {
        push_word(words, encode_u64(self.0));
        assert(concat_words(words@) =~= concat_words(old(words)@) + self.abi_encoding());
    }

    /// Reads the value from the word `words[at]`.
    pub fn read_words(words: &Vec<[u8; 32]>, at: usize) -> (value: NumPendingExitsReturn)
        requires
            at + 1 <= words@.len(),
        ensures
            forall|data: Seq<u8>|
                #[trigger] words_of(words@, data) ==> value.decoded_from(data, at as int),
    {
        let available = words.len();
        assert(at + 1 <= available);
        let value = NumPendingExitsReturn(decode_u64(&words[at]));
        assert forall|data: Seq<u8>| #[trigger] words_of(words@, data) implies value.decoded_from(
            data,
            at as int,
        ) by {
            assert(words@[at as int]@ == word_at(data, at as int));
        }
        value
    }

    /// The value takes one word.
    pub proof fn lemma_encoding_len(&self)
        ensures
            self.abi_encoding().len() == 32,
    {
        lemma_u64_word_round_trip(self.0);
    }

    /// The value is read back from its own words, wherever they stand in
    /// `data`.
    pub proof fn lemma_read_back(&self, data: Seq<u8>, at: int)
        requires
            0 <= at,
            32 * at + 32 <= data.len(),
            data.subrange(32 * at, 32 * at + 32) == self.abi_encoding(),
        ensures
            self.decoded_from(data, at),
    {
        let enc = self.abi_encoding();
        lemma_u64_word_round_trip(self.0);
        assert(word_at(data, at) =~= enc.subrange(0, 32));
        assert(enc.subrange(0, 32) =~= u64_word(self.0));
    }

    /// At most one value is read from given words.
    pub proof fn lemma_decoding_unique(a: NumPendingExitsReturn, b: NumPendingExitsReturn, data: Seq<u8>, at: int)
        requires
            a.decoded_from(data, at),
            b.decoded_from(data, at),
        ensures
            a == b,
    {
    }

    /// Whether `data` holds the words of an output.
    pub open spec fn accepts(data: Seq<u8>) -> bool {
        32 <= data.len()
    }

    /// The return data of the output.
    pub fn encode(&self) -> (out: Vec<u8>)
        ensures
            out@ == self.abi_encoding(),
    {
        let mut words: Vec<[u8; 32]> = Vec::new();
        self.push_words(&mut words);
        assert(concat_words(Seq::<[u8; 32]>::empty()) =~= Seq::<u8>::empty());
        assert(concat_words(words@) =~= self.abi_encoding());
        abi_encode_words(&words)
    }

    /// Reads an output back from return data. Fails with `InvalidData`
    /// exactly when `data` is too short for it. Bytes behind the output are
    /// ignored.
    pub fn decode(data: &[u8]) -> (out: Result<NumPendingExitsReturn, AbiError>)
        ensures
            match out {
                Ok(value) => Self::accepts(data@) && value.decoded_from(data@, 0),
                Err(e) => !Self::accepts(data@) && e == AbiError::InvalidData,
            },
    {
        match decode_words(1, data) {
            Ok(words) => Ok(NumPendingExitsReturn::read_words(&words, 0)),
            Err(e) => Err(e),
        }
    }

    /// Decoding undoes encoding: whatever `decode` returns on the return
    /// data of an output is that output.
    pub proof fn lemma_round_trip(&self, decoded: Result<NumPendingExitsReturn, AbiError>)
        requires
            match decoded {
                Ok(value) => value.decoded_from(self.abi_encoding(), 0),
                Err(e) => !Self::accepts(self.abi_encoding()),
            },
        ensures
            decoded == Ok::<NumPendingExitsReturn, AbiError>(*self),
    {
        let data = self.abi_encoding();
        self.lemma_encoding_len();
        assert(data.subrange(0, 32) =~= data);
        self.lemma_read_back(data, 0);
        match decoded {
            Ok(value) => {
                Self::lemma_decoding_unique(value, *self, data, 0);
            },
            Err(e) => {},
        }
    }
}

/// Output of the contract function `numPendingRegistrations`.
#[derive(Clone, Copy, Debug, Default, PartialEq, Eq, Hash)]
pub struct NumPendingRegistrationsReturn(pub u64);

impl NumPendingRegistrationsReturn {
    /// The words of the value, one after the other.
    pub open spec fn abi_encoding(&self) -> Seq<u8> {
        u64_word(self.0)
    }

    /// Whether the value is the one read from the words of `data` that start
    /// at word `at`.
    pub open spec fn decoded_from(&self, data: Seq<u8>, at: int) -> bool {
        &&& self.0 == word_u64(word_at(data, at))
    }

    /// Adds the words of the value to `words`.
    pub fn push_words(&self, words: &mut Vec<[u8; 32]>)
        ensures
            final(words)@.len() == old(words)@.len() + 1,
            concat_words(final(words)@) == concat_words(old(words)@) + self.abi_encoding(),
    {
        push_word(words, encode_u64(self.0));
        assert(concat_words(words@) =~= concat_words(old(words)@) + self.abi_encoding());
    }

    /// Reads the value from the word `words[at]`.
    pub fn read_words(words: &Vec<[u8; 32]>, at: usize) -> (value: NumPendingRegistrationsReturn)
        requires
            at + 1 <= words@.len(),
        ensures
            forall|data: Seq<u8>|
                #[trigger] words_of(words@, data) ==> value.decoded_from(data, at as int),
    {
        let available = words.len();
        assert(at + 1 <= available);
        let value = NumPendingRegistrationsReturn(decode_u64(&words[at]));
        assert forall|data: Seq<u8>| #[trigger] words_of(words@, data) implies value.decoded_from(
            data,
            at as int,
        ) by {
            assert(words@[at as int]@ == word_at(data, at as int));
        }
        value
    }

    /// The value takes one word.
    pub proof fn lemma_encoding_len(&self)
        ensures
            self.abi_encoding().len() == 32,
    {
        lemma_u64_word_round_trip(self.0);
    }

    /// The value is read back from its own words, wherever they stand in
    /// `data`.
    pub proof fn lemma_read_back(&self, data: Seq<u8>, at: int)
        requires
            0 <= at,
            32 * at + 32 <= data.len(),
            data.subrange(32 * at, 32 * at + 32) == self.abi_encoding(),
        ensures
            self.decoded_from(data, at),
    {
        let enc = self.abi_encoding();
        lemma_u64_word_round_trip(self.0);
        assert(word_at(data, at) =~= enc.subrange(0, 32));
        assert(enc.subrange(0, 32) =~= u64_word(self.0));
    }

    /// At most one value is read from given words.
    pub proof fn lemma_decoding_unique(a: NumPendingRegistrationsReturn, b: NumPendingRegistrationsReturn, data: Seq<u8>, at: int)
        requires
            a.decoded_from(data, at),
            b.decoded_from(data, at),
        ensures
            a == b,
    {
    }

    /// Whether `data` holds the words of an output.
    pub open spec fn accepts(data: Seq<u8>) -> bool {
        32 <= data.len()
    }

    /// The return data of the output.
    pub fn encode(&self) -> (out: Vec<u8>)
        ensures
            out@ == self.abi_encoding(),
    {
        let mut words: Vec<[u8; 32]> = Vec::new();
        self.push_words(&mut words);
        assert(concat_words(Seq::<[u8; 32]>::empty()) =~= Seq::<u8>::empty());
        assert(concat_words(words@) =~= self.abi_encoding());
        abi_encode_words(&words)
    }

    /// Reads an output back from return data. Fails with `InvalidData`
    /// exactly when `data` is too short for it. Bytes behind the output are
    /// ignored.
    pub fn decode(data: &[u8]) -> (out: Result<NumPendingRegistrationsReturn, AbiError>)
        ensures
            match out {
                Ok(value) => Self::accepts(data@) && value.decoded_from(data@, 0),
                Err(e) => !Self::accepts(data@) && e == AbiError::InvalidData,
            },
    {
        match decode_words(1, data) {
            Ok(words) => Ok(NumPendingRegistrationsReturn::read_words(&words, 0)),
            Err(e) => Err(e),
        }
    }

    /// Decoding undoes encoding: whatever `decode` returns on the return
    /// data of an output is that output.
    pub proof fn lemma_round_trip(&self, decoded: Result<NumPendingRegistrationsReturn, AbiError>)
        requires
            match decoded {
                Ok(value) => value.decoded_from(self.abi_encoding(), 0),
                Err(e) => !Self::accepts(self.abi_encoding()),
            },
        ensures
            decoded == Ok::<NumPendingRegistrationsReturn, AbiError>(*self),
    {
        let data = self.abi_encoding();
        self.lemma_encoding_len();
        assert(data.subrange(0, 32) =~= data);
        self.lemma_read_back(data, 0);
        match decoded {
            Ok(value) => {
                Self::lemma_decoding_unique(value, *self, data, 0);
            },
            Err(e) => {},
        }
    }
}

/// Output of the contract function `tokenAddress`.
#[derive(Clone, Copy, Debug, Default, PartialEq, Eq, Hash)]
pub struct TokenAddressReturn(pub Address);

impl TokenAddressReturn {
    /// The words of the value, one after the other.
    pub open spec fn abi_encoding(&self) -> Seq<u8> {
        address_word(self.0@)
    }

    /// Whether the value is the one read from the words of `data` that start
    /// at word `at`.
    pub open spec fn decoded_from(&self, data: Seq<u8>, at: int) -> bool {
        &&& self.0@ == word_address(word_at(data, at))
    }

    /// Adds the words of the value to `words`.
    pub fn push_words(&self, words: &mut Vec<[u8; 32]>)
        ensures
            final(words)@.len() == old(words)@.len() + 1,
            concat_words(final(words)@) == concat_words(old(words)@) + self.abi_encoding(),
    {
        push_word(words, encode_address(&self.0));
        assert(concat_words(words@) =~= concat_words(old(words)@) + self.abi_encoding());
    }

    /// Reads the value from the word `words[at]`.
    pub fn read_words(words: &Vec<[u8; 32]>, at: usize) -> (value: TokenAddressReturn)
        requires
            at + 1 <= words@.len(),
        ensures
            forall|data: Seq<u8>|
                #[trigger] words_of(words@, data) ==> value.decoded_from(data, at as int),
    {
        let available = words.len();
        assert(at + 1 <= available);
        let value = TokenAddressReturn(decode_address(&words[at]));
        assert forall|data: Seq<u8>| #[trigger] words_of(words@, data) implies value.decoded_from(
            data,
            at as int,
        ) by {
            assert(words@[at as int]@ == word_at(data, at as int));
        }
        value
    }

    /// The value takes one word.
    pub proof fn lemma_encoding_len(&self)
        ensures
            self.abi_encoding().len() == 32,
    {
    }

    /// The value is read back from its own words, wherever they stand in
    /// `data`.
    pub proof fn lemma_read_back(&self, data: Seq<u8>, at: int)
        requires
            0 <= at,
            32 * at + 32 <= data.len(),
            data.subrange(32 * at, 32 * at + 32) == self.abi_encoding(),
        ensures
            self.decoded_from(data, at),
    {
        let enc = self.abi_encoding();
        assert(word_at(data, at) =~= enc.subrange(0, 32));
        assert(enc.subrange(0, 32) =~= address_word(self.0@));
        assert(word_address(address_word(self.0@)) =~= self.0@);
    }

    /// At most one value is read from given words.
    pub proof fn lemma_decoding_unique(a: TokenAddressReturn, b: TokenAddressReturn, data: Seq<u8>, at: int)
        requires
            a.decoded_from(data, at),
            b.decoded_from(data, at),
        ensures
            a == b,
    {
        assert(a.0.0 =~= b.0.0);
    }

    /// Whether `data` holds the words of an output.
    pub open spec fn accepts(data: Seq<u8>) -> bool {
        32 <= data.len()
    }

    /// The return data of the output.
    pub fn encode(&self) -> (out: Vec<u8>)
        ensures
            out@ == self.abi_encoding(),
    {
        let mut words: Vec<[u8; 32]> = Vec::new();
        self.push_words(&mut words);
        assert(concat_words(Seq::<[u8; 32]>::empty()) =~= Seq::<u8>::empty());
        assert(concat_words(words@) =~= self.abi_encoding());
        abi_encode_words(&words)
    }

    /// Reads an output back from return data. Fails with `InvalidData`
    /// exactly when `data` is too short for it. Bytes behind the output are
    /// ignored.
    pub fn decode(data: &[u8]) -> (out: Result<TokenAddressReturn, AbiError>)
        ensures
            match out {
                Ok(value) => Self::accepts(data@) && value.decoded_from(data@, 0),
                Err(e) => !Self::accepts(data@) && e == AbiError::InvalidData,
            },
    {
        match decode_words(1, data) {
            Ok(words) => Ok(TokenAddressReturn::read_words(&words, 0)),
            Err(e) => Err(e),
        }
    }

    /// Decoding undoes encoding: whatever `decode` returns on the return
    /// data of an output is that output.
    pub proof fn lemma_round_trip(&self, decoded: Result<TokenAddressReturn, AbiError>)
        requires
            match decoded {
                Ok(value) => value.decoded_from(self.abi_encoding(), 0),
                Err(e) => !Self::accepts(self.abi_encoding()),
            },
        ensures
            decoded == Ok::<TokenAddressReturn, AbiError>(*self),
    {
        let data = self.abi_encoding();
        self.lemma_encoding_len();
        assert(data.subrange(0, 32) =~= data);
        self.lemma_read_back(data, 0);
        match decoded {
            Ok(value) => {
                Self::lemma_decoding_unique(value, *self, data, 0);
            },
            Err(e) => {},
        }
    }
}

/// Output of the contract function `totalKeys`.
#[derive(Clone, Copy, Debug, Default, PartialEq, Eq, Hash)]
pub struct TotalKeysReturn(pub u32);

impl TotalKeysReturn {
    /// The words of the value, one after the other.
    pub open spec fn abi_encoding(&self) -> Seq<u8> {
        u32_word(self.0)
    }

    /// Whether the value is the one read from the words of `data` that start
    /// at word `at`.
    pub open spec fn decoded_from(&self, data: Seq<u8>, at: int) -> bool {
        &&& self.0 == word_u32(word_at(data, at))
    }

    /// Adds the words of the value to `words`.
    pub fn push_words(&self, words: &mut Vec<[u8; 32]>)
        ensures
            final(words)@.len() == old(words)@.len() + 1,
            concat_words(final(words)@) == concat_words(old(words)@) + self.abi_encoding(),
    {
        push_word(words, encode_u32(self.0));
        assert(concat_words(words@) =~= concat_words(old(words)@) + self.abi_encoding());
    }

    /// Reads the value from the word `words[at]`.
    pub fn read_words(words: &Vec<[u8; 32]>, at: usize) -> (value: TotalKeysReturn)
        requires
            at + 1 <= words@.len(),
        ensures
            forall|data: Seq<u8>|
                #[trigger] words_of(words@, data) ==> value.decoded_from(data, at as int),
    {
        let available = words.len();
        assert(at + 1 <= available);
        let value = TotalKeysReturn(decode_u32(&words[at]));
        assert forall|data: Seq<u8>| #[trigger] words_of(words@, data) implies value.decoded_from(
            data,
            at as int,
        ) by {
            assert(words@[at as int]@ == word_at(data, at as int));
        }
        value
    }

    /// The value takes one word.
    pub proof fn lemma_encoding_len(&self)
        ensures
            self.abi_encoding().len() == 32,
    {
        lemma_u32_word_round_trip(self.0);
    }

    /// The value is read back from its own words, wherever they stand in
    /// `data`.
    pub proof fn lemma_read_back(&self, data: Seq<u8>, at: int)
        requires
            0 <= at,
            32 * at + 32 <= data.len(),
            data.subrange(32 * at, 32 * at + 32) == self.abi_encoding(),
        ensures
            self.decoded_from(data, at),
    {
        let enc = self.abi_encoding();
        lemma_u32_word_round_trip(self.0);
        assert(word_at(data, at) =~= enc.subrange(0, 32));
        assert(enc.subrange(0, 32) =~= u32_word(self.0));
    }

    /// At most one value is read from given words.
    pub proof fn lemma_decoding_unique(a: TotalKeysReturn, b: TotalKeysReturn, data: Seq<u8>, at: int)
        requires
            a.decoded_from(data, at),
            b.decoded_from(data, at),
        ensures
            a == b,
    {
    }

    /// Whether `data` holds the words of an output.
    pub open spec fn accepts(data: Seq<u8>) -> bool {
        32 <= data.len()
    }

    /// The return data of the output.
    pub fn encode(&self) -> (out: Vec<u8>)
        ensures
            out@ == self.abi_encoding(),
    {
        let mut words: Vec<[u8; 32]> = Vec::new();
        self.push_words(&mut words);
        assert(concat_words(Seq::<[u8; 32]>::empty()) =~= Seq::<u8>::empty());
        assert(concat_words(words@) =~= self.abi_encoding());
        abi_encode_words(&words)
    }

    /// Reads an output back from return data. Fails with `InvalidData`
    /// exactly when `data` is too short for it. Bytes behind the output are
    /// ignored.
    pub fn decode(data: &[u8]) -> (out: Result<TotalKeysReturn, AbiError>)
        ensures
            match out {
                Ok(value) => Self::accepts(data@) && value.decoded_from(data@, 0),
                Err(e) => !Self::accepts(data@) && e == AbiError::InvalidData,
            },
    {
        match decode_words(1, data) {
            Ok(words) => Ok(TotalKeysReturn::read_words(&words, 0)),
            Err(e) => Err(e),
        }
    }

    /// Decoding undoes encoding: whatever `decode` returns on the return
    /// data of an output is that output.
    pub proof fn lemma_round_trip(&self, decoded: Result<TotalKeysReturn, AbiError>)
        requires
            match decoded {
                Ok(value) => value.decoded_from(self.abi_encoding(), 0),
                Err(e) => !Self::accepts(self.abi_encoding()),
            },
        ensures
            decoded == Ok::<TotalKeysReturn, AbiError>(*self),
    {
        let data = self.abi_encoding();
        self.lemma_encoding_len();
        assert(data.subrange(0, 32) =~= data);
        self.lemma_read_back(data, 0);
        match decoded {
            Ok(value) => {
                Self::lemma_decoding_unique(value, *self, data, 0);
            },
            Err(e) => {},
        }
    }
}

/// Output of the contract function `totalNativeStake`.
#[derive(Clone, Copy, Debug, Default, PartialEq, Eq, Hash)]
pub struct TotalNativeStakeReturn(pub U256);

impl TotalNativeStakeReturn {
    /// The words of the value, one after the other.
    pub open spec fn abi_encoding(&self) -> Seq<u8> {
        self.0@
    }

    /// Whether the value is the one read from the words of `data` that start
    /// at word `at`.
    pub open spec fn decoded_from(&self, data: Seq<u8>, at: int) -> bool {
        &&& self.0@ == word_at(data, at)
    }

    /// Adds the words of the value to `words`.
    pub fn push_words(&self, words: &mut Vec<[u8; 32]>)
        ensures
            final(words)@.len() == old(words)@.len() + 1,
            concat_words(final(words)@) == concat_words(old(words)@) + self.abi_encoding(),
    {
        push_word(words, self.0.0);
        assert(concat_words(words@) =~= concat_words(old(words)@) + self.abi_encoding());
    }

    /// Reads the value from the word `words[at]`.
    pub fn read_words(words: &Vec<[u8; 32]>, at: usize) -> (value: TotalNativeStakeReturn)
        requires
            at + 1 <= words@.len(),
        ensures
            forall|data: Seq<u8>|
                #[trigger] words_of(words@, data) ==> value.decoded_from(data, at as int),
    {
        let available = words.len();
        assert(at + 1 <= available);
        let value = TotalNativeStakeReturn(U256(words[at]));
        assert forall|data: Seq<u8>| #[trigger] words_of(words@, data) implies value.decoded_from(
            data,
            at as int,
        ) by {
            assert(words@[at as int]@ == word_at(data, at as int));
        }
        value
    }

    /// The value takes one word.
    pub proof fn lemma_encoding_len(&self)
        ensures
            self.abi_encoding().len() == 32,
    {
    }

    /// The value is read back from its own words, wherever they stand in
    /// `data`.
    pub proof fn lemma_read_back(&self, data: Seq<u8>, at: int)
        requires
            0 <= at,
            32 * at + 32 <= data.len(),
            data.subrange(32 * at, 32 * at + 32) == self.abi_encoding(),
        ensures
            self.decoded_from(data, at),
    {
        let enc = self.abi_encoding();
        assert(word_at(data, at) =~= enc.subrange(0, 32));
        assert(enc.subrange(0, 32) =~= self.0@);
    }

    /// At most one value is read from given words.
    pub proof fn lemma_decoding_unique(a: TotalNativeStakeReturn, b: TotalNativeStakeReturn, data: Seq<u8>, at: int)
        requires
            a.decoded_from(data, at),
            b.decoded_from(data, at),
        ensures
            a == b,
    {
        assert(a.0.0 =~= b.0.0);
    }

    /// Whether `data` holds the words of an output.
    pub open spec fn accepts(data: Seq<u8>) -> bool {
        32 <= data.len()
    }

    /// The return data of the output.
    pub fn encode(&self) -> (out: Vec<u8>)
        ensures
            out@ == self.abi_encoding(),
    {
        let mut words: Vec<[u8; 32]> = Vec::new();
        self.push_words(&mut words);
        assert(concat_words(Seq::<[u8; 32]>::empty()) =~= Seq::<u8>::empty());
        assert(concat_words(words@) =~= self.abi_encoding());
        abi_encode_words(&words)
    }

    /// Reads an output back from return data. Fails with `InvalidData`
    /// exactly when `data` is too short for it. Bytes behind the output are
    /// ignored.
    pub fn decode(data: &[u8]) -> (out: Result<TotalNativeStakeReturn, AbiError>)
        ensures
            match out {
                Ok(value) => Self::accepts(data@) && value.decoded_from(data@, 0),
                Err(e) => !Self::accepts(data@) && e == AbiError::InvalidData,
            },
    {
        match decode_words(1, data) {
            Ok(words) => Ok(TotalNativeStakeReturn::read_words(&words, 0)),
            Err(e) => Err(e),
        }
    }

    /// Decoding undoes encoding: whatever `decode` returns on the return
    /// data of an output is that output.
    pub proof fn lemma_round_trip(&self, decoded: Result<TotalNativeStakeReturn, AbiError>)
        requires
            match decoded {
                Ok(value) => value.decoded_from(self.abi_encoding(), 0),
                Err(e) => !Self::accepts(self.abi_encoding()),
            },
        ensures
            decoded == Ok::<TotalNativeStakeReturn, AbiError>(*self),
    {
        let data = self.abi_encoding();
        self.lemma_encoding_len();
        assert(data.subrange(0, 32) =~= data);
        self.lemma_read_back(data, 0);
        match decoded {
            Ok(value) => {
                Self::lemma_decoding_unique(value, *self, data, 0);
            },
            Err(e) => {},
        }
    }
}

/// Output of the contract function `totalRestakedStake`.
#[derive(Clone, Copy, Debug, Default, PartialEq, Eq, Hash)]
pub struct TotalRestakedStakeReturn(pub U256);

impl TotalRestakedStakeReturn {
    /// The words of the value, one after the other.
    pub open spec fn abi_encoding(&self) -> Seq<u8> {
        self.0@
    }

    /// Whether the value is the one read from the words of `data` that start
    /// at word `at`.
    pub open spec fn decoded_from(&self, data: Seq<u8>, at: int) -> bool {
        &&& self.0@ == word_at(data, at)
    }

    /// Adds the words of the value to `words`.
    pub fn push_words(&self, words: &mut Vec<[u8; 32]>)
        ensures
            final(words)@.len() == old(words)@.len() + 1,
            concat_words(final(words)@) == concat_words(old(words)@) + self.abi_encoding(),
    {
        push_word(words, self.0.0);
        assert(concat_words(words@) =~= concat_words(old(words)@) + self.abi_encoding());
    }

    /// Reads the value from the word `words[at]`.
    pub fn read_words(words: &Vec<[u8; 32]>, at: usize) -> (value: TotalRestakedStakeReturn)
        requires
            at + 1 <= words@.len(),
        ensures
            forall|data: Seq<u8>|
                #[trigger] words_of(words@, data) ==> value.decoded_from(data, at as int),
    {
        let available = words.len();
        assert(at + 1 <= available);
        let value = TotalRestakedStakeReturn(U256(words[at]));
        assert forall|data: Seq<u8>| #[trigger] words_of(words@, data) implies value.decoded_from(
            data,
            at as int,
        ) by {
            assert(words@[at as int]@ == word_at(data, at as int));
        }
        value
    }

    /// The value takes one word.
    pub proof fn lemma_encoding_len(&self)
        ensures
            self.abi_encoding().len() == 32,
    {
    }

    /// The value is read back from its own words, wherever they stand in
    /// `data`.
    pub proof fn lemma_read_back(&self, data: Seq<u8>, at: int)
        requires
            0 <= at,
            32 * at + 32 <= data.len(),
            data.subrange(32 * at, 32 * at + 32) == self.abi_encoding(),
        ensures
            self.decoded_from(data, at),
    {
        let enc = self.abi_encoding();
        assert(word_at(data, at) =~= enc.subrange(0, 32));
        assert(enc.subrange(0, 32) =~= self.0@);
    }

    /// At most one value is read from given words.
    pub proof fn lemma_decoding_unique(a: TotalRestakedStakeReturn, b: TotalRestakedStakeReturn, data: Seq<u8>, at: int)
        requires
            a.decoded_from(data, at),
            b.decoded_from(data, at),
        ensures
            a == b,
    {
        assert(a.0.0 =~= b.0.0);
    }

    /// Whether `data` holds the words of an output.
    pub open spec fn accepts(data: Seq<u8>) -> bool {
        32 <= data.len()
    }

    /// The return data of the output.
    pub fn encode(&self) -> (out: Vec<u8>)
        ensures
            out@ == self.abi_encoding(),
    {
        let mut words: Vec<[u8; 32]> = Vec::new();
        self.push_words(&mut words);
        assert(concat_words(Seq::<[u8; 32]>::empty()) =~= Seq::<u8>::empty());
        assert(concat_words(words@) =~= self.abi_encoding());
        abi_encode_words(&words)
    }

    /// Reads an output back from return data. Fails with `InvalidData`
    /// exactly when `data` is too short for it. Bytes behind the output are
    /// ignored.
    pub fn decode(data: &[u8]) -> (out: Result<TotalRestakedStakeReturn, AbiError>)
        ensures
            match out {
                Ok(value) => Self::accepts(data@) && value.decoded_from(data@, 0),
                Err(e) => !Self::accepts(data@) && e == AbiError::InvalidData,
            },
    {
        match decode_words(1, data) {
            Ok(words) => Ok(TotalRestakedStakeReturn::read_words(&words, 0)),
            Err(e) => Err(e),
        }
    }

    /// Decoding undoes encoding: whatever `decode` returns on the return
    /// data of an output is that output.
    pub proof fn lemma_round_trip(&self, decoded: Result<TotalRestakedStakeReturn, AbiError>)
        requires
            match decoded {
                Ok(value) => value.decoded_from(self.abi_encoding(), 0),
                Err(e) => !Self::accepts(self.abi_encoding()),
            },
        ensures
            decoded == Ok::<TotalRestakedStakeReturn, AbiError>(*self),
    {
        let data = self.abi_encoding();
        self.lemma_encoding_len();
        assert(data.subrange(0, 32) =~= data);
        self.lemma_read_back(data, 0);
        match decoded {
            Ok(value) => {
                Self::lemma_decoding_unique(value, *self, data, 0);
            },
            Err(e) => {},
        }
    }
}

/// Output of the contract function `totalStake`.
#[derive(Clone, Copy, Debug, Default, PartialEq, Eq, Hash)]
pub struct TotalStakeReturn(pub U256, pub U256);

impl TotalStakeReturn {
    /// The words of the value, one after the other.
    pub open spec fn abi_encoding(&self) -> Seq<u8> {
        self.0@ + self.1@
    }

    /// Whether the value is the one read from the words of `data` that start
    /// at word `at`.
    pub open spec fn decoded_from(&self, data: Seq<u8>, at: int) -> bool {
        &&& self.0@ == word_at(data, at)
        &&& self.1@ == word_at(data, at + 1)
    }

    /// Adds the words of the value to `words`.
    pub fn push_words(&self, words: &mut Vec<[u8; 32]>)
        ensures
            final(words)@.len() == old(words)@.len() + 2,
            concat_words(final(words)@) == concat_words(old(words)@) + self.abi_encoding(),
    {
        push_word(words, self.0.0);
        push_word(words, self.1.0);
        assert(concat_words(words@) =~= concat_words(old(words)@) + self.abi_encoding());
    }

    /// Reads the value from the 2 words that start at `words[at]`.
    pub fn read_words(words: &Vec<[u8; 32]>, at: usize) -> (value: TotalStakeReturn)
        requires
            at + 2 <= words@.len(),
        ensures
            forall|data: Seq<u8>|
                #[trigger] words_of(words@, data) ==> value.decoded_from(data, at as int),
    {
        let available = words.len();
        assert(at + 2 <= available);
        let value = TotalStakeReturn(U256(words[at]), U256(words[at + 1]));
        assert forall|data: Seq<u8>| #[trigger] words_of(words@, data) implies value.decoded_from(
            data,
            at as int,
        ) by {
            assert(words@[at as int]@ == word_at(data, at as int));
            assert(words@[at as int + 1]@ == word_at(data, at as int + 1));
        }
        value
    }

    /// The value takes 2 words.
    pub proof fn lemma_encoding_len(&self)
        ensures
            self.abi_encoding().len() == 64,
    {
    }

    /// The value is read back from its own words, wherever they stand in
    /// `data`.
    pub proof fn lemma_read_back(&self, data: Seq<u8>, at: int)
        requires
            0 <= at,
            32 * at + 64 <= data.len(),
            data.subrange(32 * at, 32 * at + 64) == self.abi_encoding(),
        ensures
            self.decoded_from(data, at),
    {
        let enc = self.abi_encoding();
        assert(word_at(data, at) =~= enc.subrange(0, 32));
        assert(enc.subrange(0, 32) =~= self.0@);
        assert(word_at(data, at + 1) =~= enc.subrange(32, 64));
        assert(enc.subrange(32, 64) =~= self.1@);
    }

    /// At most one value is read from given words.
    pub proof fn lemma_decoding_unique(a: TotalStakeReturn, b: TotalStakeReturn, data: Seq<u8>, at: int)
        requires
            a.decoded_from(data, at),
            b.decoded_from(data, at),
        ensures
            a == b,
    {
        assert(a.0.0 =~= b.0.0);
        assert(a.1.0 =~= b.1.0);
    }

    /// Whether `data` holds the words of an output.
    pub open spec fn accepts(data: Seq<u8>) -> bool {
        64 <= data.len()
    }

    /// The return data of the output.
    pub fn encode(&self) -> (out: Vec<u8>)
        ensures
            out@ == self.abi_encoding(),
    {
        let mut words: Vec<[u8; 32]> = Vec::new();
        self.push_words(&mut words);
        assert(concat_words(Seq::<[u8; 32]>::empty()) =~= Seq::<u8>::empty());
        assert(concat_words(words@) =~= self.abi_encoding());
        abi_encode_words(&words)
    }

    /// Reads an output back from return data. Fails with `InvalidData`
    /// exactly when `data` is too short for it. Bytes behind the output are
    /// ignored.
    pub fn decode(data: &[u8]) -> (out: Result<TotalStakeReturn, AbiError>)
        ensures
            match out {
                Ok(value) => Self::accepts(data@) && value.decoded_from(data@, 0),
                Err(e) => !Self::accepts(data@) && e == AbiError::InvalidData,
            },
    {
        match decode_words(2, data) {
            Ok(words) => Ok(TotalStakeReturn::read_words(&words, 0)),
            Err(e) => Err(e),
        }
    }

    /// Decoding undoes encoding: whatever `decode` returns on the return
    /// data of an output is that output.
    pub proof fn lemma_round_trip(&self, decoded: Result<TotalStakeReturn, AbiError>)
        requires
            match decoded {
                Ok(value) => value.decoded_from(self.abi_encoding(), 0),
                Err(e) => !Self::accepts(self.abi_encoding()),
            },
        ensures
            decoded == Ok::<TotalStakeReturn, AbiError>(*self),
    {
        let data = self.abi_encoding();
        self.lemma_encoding_len();
        assert(data.subrange(0, 64) =~= data);
        self.lemma_read_back(data, 0);
        match decoded {
            Ok(value) => {
                Self::lemma_decoding_unique(value, *self, data, 0);
            },
            Err(e) => {},
        }
    }
}

/// Output of the contract function `totalVotingStake`.
#[derive(Clone, Copy, Debug, Default, PartialEq, Eq, Hash)]
pub struct TotalVotingStakeReturn(pub U256);

impl TotalVotingStakeReturn {
    /// The words of the value, one after the other.
    pub open spec fn abi_encoding(&self) -> Seq<u8> {
        self.0@
    }

    /// Whether the value is the one read from the words of `data` that start
    /// at word `at`.
    pub open spec fn decoded_from(&self, data: Seq<u8>, at: int) -> bool {
        &&& self.0@ == word_at(data, at)
    }

    /// Adds the words of the value to `words`.
    pub fn push_words(&self, words: &mut Vec<[u8; 32]>)
        ensures
            final(words)@.len() == old(words)@.len() + 1,
            concat_words(final(words)@) == concat_words(old(words)@) + self.abi_encoding(),
    {
        push_word(words, self.0.0);
        assert(concat_words(words@) =~= concat_words(old(words)@) + self.abi_encoding());
    }

    /// Reads the value from the word `words[at]`.
    pub fn read_words(words: &Vec<[u8; 32]>, at: usize) -> (value: TotalVotingStakeReturn)
        requires
            at + 1 <= words@.len(),
        ensures
            forall|data: Seq<u8>|
                #[trigger] words_of(words@, data) ==> value.decoded_from(data, at as int),
    {
        let available = words.len();
        assert(at + 1 <= available);
        let value = TotalVotingStakeReturn(U256(words[at]));
        assert forall|data: Seq<u8>| #[trigger] words_of(words@, data) implies value.decoded_from(
            data,
            at as int,
        ) by {
            assert(words@[at as int]@ == word_at(data, at as int));
        }
        value
    }

    /// The value takes one word.
    pub proof fn lemma_encoding_len(&self)
        ensures
            self.abi_encoding().len() == 32,
    {
    }

    /// The value is read back from its own words, wherever they stand in
    /// `data`.
    pub proof fn lemma_read_back(&self, data: Seq<u8>, at: int)
        requires
            0 <= at,
            32 * at + 32 <= data.len(),
            data.subrange(32 * at, 32 * at + 32) == self.abi_encoding(),
        ensures
            self.decoded_from(data, at),
    {
        let enc = self.abi_encoding();
        assert(word_at(data, at) =~= enc.subrange(0, 32));
        assert(enc.subrange(0, 32) =~= self.0@);
    }

    /// At most one value is read from given words.
    pub proof fn lemma_decoding_unique(a: TotalVotingStakeReturn, b: TotalVotingStakeReturn, data: Seq<u8>, at: int)
        requires
            a.decoded_from(data, at),
            b.decoded_from(data, at),
        ensures
            a == b,
    {
        assert(a.0.0 =~= b.0.0);
    }

    /// Whether `data` holds the words of an output.
    pub open spec fn accepts(data: Seq<u8>) -> bool {
        32 <= data.len()
    }

    /// The return data of the output.
    pub fn encode(&self) -> (out: Vec<u8>)
        ensures
            out@ == self.abi_encoding(),
    {
        let mut words: Vec<[u8; 32]> = Vec::new();
        self.push_words(&mut words);
        assert(concat_words(Seq::<[u8; 32]>::empty()) =~= Seq::<u8>::empty());
        assert(concat_words(words@) =~= self.abi_encoding());
        abi_encode_words(&words)
    }

    /// Reads an output back from return data. Fails with `InvalidData`
    /// exactly when `data` is too short for it. Bytes behind the output are
    /// ignored.
    pub fn decode(data: &[u8]) -> (out: Result<TotalVotingStakeReturn, AbiError>)
        ensures
            match out {
                Ok(value) => Self::accepts(data@) && value.decoded_from(data@, 0),
                Err(e) => !Self::accepts(data@) && e == AbiError::InvalidData,
            },
    {
        match decode_words(1, data) {
            Ok(words) => Ok(TotalVotingStakeReturn::read_words(&words, 0)),
            Err(e) => Err(e),
        }
    }

    /// Decoding undoes encoding: whatever `decode` returns on the return
    /// data of an output is that output.
    pub proof fn lemma_round_trip(&self, decoded: Result<TotalVotingStakeReturn, AbiError>)
        requires
            match decoded {
                Ok(value) => value.decoded_from(self.abi_encoding(), 0),
                Err(e) => !Self::accepts(self.abi_encoding()),
            },
        ensures
            decoded == Ok::<TotalVotingStakeReturn, AbiError>(*self),
    {
        let data = self.abi_encoding();
        self.lemma_encoding_len();
        assert(data.subrange(0, 32) =~= data);
        self.lemma_read_back(data, 0);
        match decoded {
            Ok(value) => {
                Self::lemma_decoding_unique(value, *self, data, 0);
            },
            Err(e) => {},
        }
    }
}

/// Output of the contract function `withdrawFunds`.
#[derive(Clone, Copy, Debug, Default, PartialEq, Eq, Hash)]
pub struct WithdrawFundsReturn(pub u64);

impl WithdrawFundsReturn {
    /// The words of the value, one after the other.
    pub open spec fn abi_encoding(&self) -> Seq<u8> {
        u64_word(self.0)
    }

    /// Whether the value is the one read from the words of `data` that start
    /// at word `at`.
    pub open spec fn decoded_from(&self, data: Seq<u8>, at: int) -> bool {
        &&& self.0 == word_u64(word_at(data, at))
    }

    /// Adds the words of the value to `words`.
    pub fn push_words(&self, words: &mut Vec<[u8; 32]>)
        ensures
            final(words)@.len() == old(words)@.len() + 1,
            concat_words(final(words)@) == concat_words(old(words)@) + self.abi_encoding(),
    {
        push_word(words, encode_u64(self.0));
        assert(concat_words(words@) =~= concat_words(old(words)@) + self.abi_encoding());
    }

    /// Reads the value from the word `words[at]`.
    pub fn read_words(words: &Vec<[u8; 32]>, at: usize) -> (value: WithdrawFundsReturn)
        requires
            at + 1 <= words@.len(),
        ensures
            forall|data: Seq<u8>|
                #[trigger] words_of(words@, data) ==> value.decoded_from(data, at as int),
    {
        let available = words.len();
        assert(at + 1 <= available);
        let value = WithdrawFundsReturn(decode_u64(&words[at]));
        assert forall|data: Seq<u8>| #[trigger] words_of(words@, data) implies value.decoded_from(
            data,
            at as int,
        ) by {
            assert(words@[at as int]@ == word_at(data, at as int));
        }
        value
    }

    /// The value takes one word.
    pub proof fn lemma_encoding_len(&self)
        ensures
            self.abi_encoding().len() == 32,
    {
        lemma_u64_word_round_trip(self.0);
    }

    /// The value is read back from its own words, wherever they stand in
    /// `data`.
    pub proof fn lemma_read_back(&self, data: Seq<u8>, at: int)
        requires
            0 <= at,
            32 * at + 32 <= data.len(),
            data.subrange(32 * at, 32 * at + 32) == self.abi_encoding(),
        ensures
            self.decoded_from(data, at),
    {
        let enc = self.abi_encoding();
        lemma_u64_word_round_trip(self.0);
        assert(word_at(data, at) =~= enc.subrange(0, 32));
        assert(enc.subrange(0, 32) =~= u64_word(self.0));
    }

    /// At most one value is read from given words.
    pub proof fn lemma_decoding_unique(a: WithdrawFundsReturn, b: WithdrawFundsReturn, data: Seq<u8>, at: int)
        requires
            a.decoded_from(data, at),
            b.decoded_from(data, at),
        ensures
            a == b,
    {
    }

    /// Whether `data` holds the words of an output.
    pub open spec fn accepts(data: Seq<u8>) -> bool {
        32 <= data.len()
    }

    /// The return data of the output.
    pub fn encode(&self) -> (out: Vec<u8>)
        ensures
            out@ == self.abi_encoding(),
    {
        let mut words: Vec<[u8; 32]> = Vec::new();
        self.push_words(&mut words);
        assert(concat_words(Seq::<[u8; 32]>::empty()) =~= Seq::<u8>::empty());
        assert(concat_words(words@) =~= self.abi_encoding());
        abi_encode_words(&words)
    }

    /// Reads an output back from return data. Fails with `InvalidData`
    /// exactly when `data` is too short for it. Bytes behind the output are
    /// ignored.
    pub fn decode(data: &[u8]) -> (out: Result<WithdrawFundsReturn, AbiError>)
        ensures
            match out {
                Ok(value) => Self::accepts(data@) && value.decoded_from(data@, 0),
                Err(e) => !Self::accepts(data@) && e == AbiError::InvalidData,
            },
    {
        match decode_words(1, data) {
            Ok(words) => Ok(WithdrawFundsReturn::read_words(&words, 0)),
            Err(e) => Err(e),
        }
    }

    /// Decoding undoes encoding: whatever `decode` returns on the return
    /// data of an output is that output.
    pub proof fn lemma_round_trip(&self, decoded: Result<WithdrawFundsReturn, AbiError>)
        requires
            match decoded {
                Ok(value) => value.decoded_from(self.abi_encoding(), 0),
                Err(e) => !Self::accepts(self.abi_encoding()),
            },
        ensures
            decoded == Ok::<WithdrawFundsReturn, AbiError>(*self),
    {
        let data = self.abi_encoding();
        self.lemma_encoding_len();
        assert(data.subrange(0, 32) =~= data);
        self.lemma_read_back(data, 0);
        match decoded {
            Ok(value) => {
                Self::lemma_decoding_unique(value, *self, data, 0);
            },
            Err(e) => {},
        }
    }
}

} // verus!
