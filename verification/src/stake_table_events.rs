//! The events that the stake table contract logs, and the sum of them.
//!
//! None of the events has an indexed field here: a log of an event carries
//! the signature of the event as its only topic and every field in its
//! data.

use vstd::prelude::*;
use crate::abi::{
    concat_words, decode_u64, decode_u8, decode_words, encode_u64, encode_u8,
    lemma_u64_word_round_trip, push_word, u64_word, u8_word, word_at, word_u64, word_u8,
    words_of, AbiError, U256,
};
use crate::bytes::{bytes_eq, copy_bytes};
use crate::hash::{keccak256, keccak256_of};

verus! {

/// A log as a contract emits it: its topics and its data.
#[derive(Debug, Default, PartialEq, Eq, Hash)]
pub struct RawLog {
    /// The topics, the signature of the event first.
    pub topics: Vec<[u8; 32]>,
    /// The data.
    pub data: Vec<u8>,
}

impl Clone for RawLog {
    fn clone(&self) -> (copy: RawLog)
        ensures
            copy.topics@ == self.topics@,
            copy.data@ == self.data@,
    {
        let mut topics: Vec<[u8; 32]> = Vec::new();
        let mut i: usize = 0;
        while i < self.topics.len()
            invariant
                i <= self.topics@.len(),
                topics@ == self.topics@.subrange(0, i as int),
            decreases self.topics@.len() - i,
        {
            topics.push(self.topics[i]);
            assert(topics@ =~= self.topics@.subrange(0, i as int + 1));
            i += 1;
        }
        assert(topics@ =~= self.topics@);
        RawLog { topics, data: copy_bytes(self.data.as_slice()) }
    }
}

/// The event `Deposit`: stake was added to a node.
#[derive(Clone, Copy, Debug, Default, PartialEq, Eq, Hash)]
pub struct DepositFilter {
    /// Hash of the BLS key of the node.
    pub bls_v_khash: [u8; 32],
    /// Amount added.
    pub amount: U256,
}

impl DepositFilter {
    /// The words of the value, one after the other.
    pub open spec fn abi_encoding(&self) -> Seq<u8> {
        self.bls_v_khash@ + self.amount@
    }

    /// Whether the value is the one read from the words of `data` that start
    /// at word `at`.
    pub open spec fn decoded_from(&self, data: Seq<u8>, at: int) -> bool {
        &&& self.bls_v_khash@ == word_at(data, at)
        &&& self.amount@ == word_at(data, at + 1)
    }

    /// Adds the words of the value to `words`.
    pub fn push_words(&self, words: &mut Vec<[u8; 32]>)
        ensures
            final(words)@.len() == old(words)@.len() + 2,
            concat_words(final(words)@) == concat_words(old(words)@) + self.abi_encoding(),
    {
        push_word(words, self.bls_v_khash);
        push_word(words, self.amount.0);
        assert(concat_words(words@) =~= concat_words(old(words)@) + self.abi_encoding());
    }

    /// Reads the value from the 2 words that start at `words[at]`.
    pub fn read_words(words: &Vec<[u8; 32]>, at: usize) -> (value: DepositFilter)
        requires
            at + 2 <= words@.len(),
        ensures
            forall|data: Seq<u8>|
                #[trigger] words_of(words@, data) ==> value.decoded_from(data, at as int),
    {
        let available = words.len();
        assert(at + 2 <= available);
        let value = DepositFilter {
            bls_v_khash: words[at],
            amount: U256(words[at + 1]),
        };
        assert forall|data: Seq<u8>| #[trigger] words_of(words@, data) implies value.decoded_from(
            data,
            at as int,
        ) by {
            assert(words@[at as int]@ == word_at(data, at as int));
            assert(words@[at as int + 1]@ == word_at(data, at as int + 1));
        }
        value
    }

    /// The value takes 2 words.
    pub proof fn lemma_encoding_len(&self)
        ensures
            self.abi_encoding().len() == 64,
    {
    }

    /// The value is read back from its own words, wherever they stand in
    /// `data`.
    pub proof fn lemma_read_back(&self, data: Seq<u8>, at: int)
        requires
            0 <= at,
            32 * at + 64 <= data.len(),
            data.subrange(32 * at, 32 * at + 64) == self.abi_encoding(),
        ensures
            self.decoded_from(data, at),
    {
        let enc = self.abi_encoding();
        assert(word_at(data, at) =~= enc.subrange(0, 32));
        assert(enc.subrange(0, 32) =~= self.bls_v_khash@);
        assert(word_at(data, at + 1) =~= enc.subrange(32, 64));
        assert(enc.subrange(32, 64) =~= self.amount@);
    }

    /// At most one value is read from given words.
    pub proof fn lemma_decoding_unique(a: DepositFilter, b: DepositFilter, data: Seq<u8>, at: int)
        requires
            a.decoded_from(data, at),
            b.decoded_from(data, at),
        ensures
            a == b,
    {
        assert(a.bls_v_khash =~= b.bls_v_khash);
        assert(a.amount.0 =~= b.amount.0);
    }

    /// The signature of the event in ASCII: its name and the types of its
    /// fields.
    pub open spec fn signature_text() -> Seq<u8> {
        seq![0x44u8, 0x65u8, 0x70u8, 0x6fu8, 0x73u8, 0x69u8, 0x74u8, 0x28u8, 0x62u8, 0x79u8,
            0x74u8, 0x65u8, 0x73u8, 0x33u8, 0x32u8, 0x2cu8, 0x75u8, 0x69u8, 0x6eu8, 0x74u8, 0x32u8,
            0x35u8, 0x36u8, 0x29u8]
    }

    /// The topic that marks a log of the event: the Keccak-256 digest of its
    /// signature.
    pub open spec fn topic() -> Seq<u8> {
        keccak256_of(Self::signature_text())
    }

    /// The name of the event in the contract.
    pub fn name() -> (name: &'static str)
        ensures
            name@ == "Deposit"@,
    {
        "Deposit"
    }

    /// The signature of the event.
    pub fn abi_signature() -> (signature: &'static str)
        ensures
            signature@ == "Deposit(bytes32,uint256)"@,
    {
        "Deposit(bytes32,uint256)"
    }

    /// The topic that marks a log of the event.
    pub fn signature() -> (topic: [u8; 32])
        ensures
            topic@ == Self::topic(),
    {
        let text: [u8; 24] = [
            0x44, 0x65, 0x70, 0x6f, 0x73, 0x69, 0x74, 0x28, 0x62, 0x79, 0x74, 0x65, 0x73, 0x33,
            0x32, 0x2c, 0x75, 0x69, 0x6e, 0x74, 0x32, 0x35, 0x36, 0x29
        ];
        assert(text@ =~= Self::signature_text());
        let bytes = copy_bytes(text.as_slice());
        keccak256(&bytes)
    }

    /// Whether a log with these topics and this data is a log of the event:
    /// its only topic is that of the event and its data holds the words of
    /// the fields.
    pub open spec fn accepts(topics: Seq<[u8; 32]>, data: Seq<u8>) -> bool {
        topics.len() == 1 && topics[0]@ == Self::topic() && 64 <= data.len()
    }

    /// Reads the event from `log`. Fails with `InvalidData` exactly when
    /// `log` is no log of the event.
    pub fn decode_log(log: &RawLog) -> (out: Result<DepositFilter, AbiError>)
        ensures
            match out {
                Ok(event) => Self::accepts(log.topics@, log.data@) && event.decoded_from(
                    log.data@,
                    0,
                ),
                Err(e) => e == AbiError::InvalidData && !Self::accepts(log.topics@, log.data@),
            },
    {
        if log.topics.len() != 1 {
            return Err(AbiError::InvalidData);
        }
        let topic = Self::signature();
        if !bytes_eq(log.topics[0].as_slice(), topic.as_slice()) {
            return Err(AbiError::InvalidData);
        }
        match decode_words(2, log.data.as_slice()) {
            Ok(words) => Ok(DepositFilter::read_words(&words, 0)),
            Err(e) => Err(e),
        }
    }

    /// Decoding undoes encoding: whatever `decode_log` returns on the log of
    /// an event, which has the topic of the event as its only topic and the
    /// words of the event as its data, is that event.
    pub proof fn lemma_round_trip(
        &self,
        topic: [u8; 32],
        decoded: Result<DepositFilter, AbiError>,
    )
        requires
            topic@ == Self::topic(),
            match decoded {
                Ok(event) => event.decoded_from(self.abi_encoding(), 0),
                Err(e) => !Self::accepts(seq![topic], self.abi_encoding()),
            },
        ensures
            decoded == Ok::<DepositFilter, AbiError>(*self),
    {
        let data = self.abi_encoding();
        self.lemma_encoding_len();
        assert(data.subrange(0, 64) =~= data);
        self.lemma_read_back(data, 0);
        match decoded {
            Ok(event) => {
                Self::lemma_decoding_unique(event, *self, data, 0);
            },
            Err(e) => {},
        }
    }
}

/// The event `Exit`: a node asked to leave the stake table.
#[derive(Clone, Copy, Debug, Default, PartialEq, Eq, Hash)]
pub struct ExitFilter {
    /// Hash of the BLS key of the node.
    pub bls_v_khash: [u8; 32],
    /// Epoch in which the exit takes effect.
    pub exit_epoch: u64,
}

impl ExitFilter {
    /// The words of the value, one after the other.
    pub open spec fn abi_encoding(&self) -> Seq<u8> {
        self.bls_v_khash@ + u64_word(self.exit_epoch)
    }

    /// Whether the value is the one read from the words of `data` that start
    /// at word `at`.
    pub open spec fn decoded_from(&self, data: Seq<u8>, at: int) -> bool {
        &&& self.bls_v_khash@ == word_at(data, at)
        &&& self.exit_epoch == word_u64(word_at(data, at + 1))
    }

    /// Adds the words of the value to `words`.
    pub fn push_words(&self, words: &mut Vec<[u8; 32]>)
        ensures
            final(words)@.len() == old(words)@.len() + 2,
            concat_words(final(words)@) == concat_words(old(words)@) + self.abi_encoding(),
    {
        push_word(words, self.bls_v_khash);
        push_word(words, encode_u64(self.exit_epoch));
        assert(concat_words(words@) =~= concat_words(old(words)@) + self.abi_encoding());
    }

    /// Reads the value from the 2 words that start at `words[at]`.
    pub fn read_words(words: &Vec<[u8; 32]>, at: usize) -> (value: ExitFilter)
        requires
            at + 2 <= words@.len(),
        ensures
            forall|data: Seq<u8>|
                #[trigger] words_of(words@, data) ==> value.decoded_from(data, at as int),
    {
        let available = words.len();
        assert(at + 2 <= available);
        let value = ExitFilter {
            bls_v_khash: words[at],
            exit_epoch: decode_u64(&words[at + 1]),
        };
        assert forall|data: Seq<u8>| #[trigger] words_of(words@, data) implies value.decoded_from(
            data,
            at as int,
        ) by {
            assert(words@[at as int]@ == word_at(data, at as int));
            assert(words@[at as int + 1]@ == word_at(data, at as int + 1));
        }
        value
    }

    /// The value takes 2 words.
    pub proof fn lemma_encoding_len(&self)
        ensures
            self.abi_encoding().len() == 64,
    {
        lemma_u64_word_round_trip(self.exit_epoch);
    }

    /// The value is read back from its own words, wherever they stand in
    /// `data`.
    pub proof fn lemma_read_back(&self, data: Seq<u8>, at: int)
        requires
            0 <= at,
            32 * at + 64 <= data.len(),
            data.subrange(32 * at, 32 * at + 64) == self.abi_encoding(),
        ensures
            self.decoded_from(data, at),
    {
        let enc = self.abi_encoding();
        lemma_u64_word_round_trip(self.exit_epoch);
        assert(word_at(data, at) =~= enc.subrange(0, 32));
        assert(enc.subrange(0, 32) =~= self.bls_v_khash@);
        assert(word_at(data, at + 1) =~= enc.subrange(32, 64));
        assert(enc.subrange(32, 64) =~= u64_word(self.exit_epoch));
    }

    /// At most one value is read from given words.
    pub proof fn lemma_decoding_unique(a: ExitFilter, b: ExitFilter, data: Seq<u8>, at: int)
        requires
            a.decoded_from(data, at),
            b.decoded_from(data, at),
        ensures
            a == b,
    {
        assert(a.bls_v_khash =~= b.bls_v_khash);
    }

    /// The signature of the event in ASCII: its name and the types of its
    /// fields.
    pub open spec fn signature_text() -> Seq<u8> {
        seq![0x45u8, 0x78u8, 0x69u8, 0x74u8, 0x28u8, 0x62u8, 0x79u8, 0x74u8, 0x65u8, 0x73u8,
            0x33u8, 0x32u8, 0x2cu8, 0x75u8, 0x69u8, 0x6eu8, 0x74u8, 0x36u8, 0x34u8, 0x29u8]
    }

    /// The topic that marks a log of the event: the Keccak-256 digest of its
    /// signature.
    pub open spec fn topic() -> Seq<u8> {
        keccak256_of(Self::signature_text())
    }

    /// The name of the event in the contract.
    pub fn name() -> (name: &'static str)
        ensures
            name@ == "Exit"@,
    {
        "Exit"
    }

    /// The signature of the event.
    pub fn abi_signature() -> (signature: &'static str)
        ensures
            signature@ == "Exit(bytes32,uint64)"@,
    {
        "Exit(bytes32,uint64)"
    }

    /// The topic that marks a log of the event.
    pub fn signature() -> (topic: [u8; 32])
        ensures
            topic@ == Self::topic(),
    {
        let text: [u8; 20] = [
            0x45, 0x78, 0x69, 0x74, 0x28, 0x62, 0x79, 0x74, 0x65, 0x73, 0x33, 0x32, 0x2c, 0x75,
            0x69, 0x6e, 0x74, 0x36, 0x34, 0x29
        ];
        assert(text@ =~= Self::signature_text());
        let bytes = copy_bytes(text.as_slice());
        keccak256(&bytes)
    }

    /// Whether a log with these topics and this data is a log of the event:
    /// its only topic is that of the event and its data holds the words of
    /// the fields.
    pub open spec fn accepts(topics: Seq<[u8; 32]>, data: Seq<u8>) -> bool {
        topics.len() == 1 && topics[0]@ == Self::topic() && 64 <= data.len()
    }

    /// Reads the event from `log`. Fails with `InvalidData` exactly when
    /// `log` is no log of the event.
    pub fn decode_log(log: &RawLog) -> (out: Result<ExitFilter, AbiError>)
        ensures
            match out {
                Ok(event) => Self::accepts(log.topics@, log.data@) && event.decoded_from(
                    log.data@,
                    0,
                ),
                Err(e) => e == AbiError::InvalidData && !Self::accepts(log.topics@, log.data@),
            },
    {
        if log.topics.len() != 1 {
            return Err(AbiError::InvalidData);
        }
        let topic = Self::signature();
        if !bytes_eq(log.topics[0].as_slice(), topic.as_slice()) {
            return Err(AbiError::InvalidData);
        }
        match decode_words(2, log.data.as_slice()) {
            Ok(words) => Ok(ExitFilter::read_words(&words, 0)),
            Err(e) => Err(e),
        }
    }

    /// Decoding undoes encoding: whatever `decode_log` returns on the log of
    /// an event, which has the topic of the event as its only topic and the
    /// words of the event as its data, is that event.
    pub proof fn lemma_round_trip(
        &self,
        topic: [u8; 32],
        decoded: Result<ExitFilter, AbiError>,
    )
        requires
            topic@ == Self::topic(),
            match decoded {
                Ok(event) => event.decoded_from(self.abi_encoding(), 0),
                Err(e) => !Self::accepts(seq![topic], self.abi_encoding()),
            },
        ensures
            decoded == Ok::<ExitFilter, AbiError>(*self),
    {
        let data = self.abi_encoding();
        self.lemma_encoding_len();
        assert(data.subrange(0, 64) =~= data);
        self.lemma_read_back(data, 0);
        match decoded {
            Ok(event) => {
                Self::lemma_decoding_unique(event, *self, data, 0);
            },
            Err(e) => {},
        }
    }
}

/// The event `Registered`: a node was entered in the stake table.
#[derive(Clone, Copy, Debug, Default, PartialEq, Eq, Hash)]
pub struct RegisteredFilter {
    /// Hash of the BLS key of the node.
    pub bls_v_khash: [u8; 32],
    /// Epoch in which the registration takes effect.
    pub register_epoch: u64,
    /// Kind of stake.
    pub stake_type: u8,
    /// Amount staked at registration.
    pub amount_deposited: U256,
}

impl RegisteredFilter {
    /// The words of the value, one after the other.
    pub open spec fn abi_encoding(&self) -> Seq<u8> {
        self.bls_v_khash@ + u64_word(self.register_epoch) + u8_word(self.stake_type) + self.amount_deposited@
    }

    /// Whether the value is the one read from the words of `data` that start
    /// at word `at`.
    pub open spec fn decoded_from(&self, data: Seq<u8>, at: int) -> bool {
        &&& self.bls_v_khash@ == word_at(data, at)
        &&& self.register_epoch == word_u64(word_at(data, at + 1))
        &&& self.stake_type == word_u8(word_at(data, at + 2))
        &&& self.amount_deposited@ == word_at(data, at + 3)
    }

    /// Adds the words of the value to `words`.
    pub fn push_words(&self, words: &mut Vec<[u8; 32]>)
        ensures
            final(words)@.len() == old(words)@.len() + 4,
            concat_words(final(words)@) == concat_words(old(words)@) + self.abi_encoding(),
    {
        push_word(words, self.bls_v_khash);
        push_word(words, encode_u64(self.register_epoch));
        push_word(words, encode_u8(self.stake_type));
        push_word(words, self.amount_deposited.0);
        assert(concat_words(words@) =~= concat_words(old(words)@) + self.abi_encoding());
    }

    /// Reads the value from the 4 words that start at `words[at]`.
    pub fn read_words(words: &Vec<[u8; 32]>, at: usize) -> (value: RegisteredFilter)
        requires
            at + 4 <= words@.len(),
        ensures
            forall|data: Seq<u8>|
                #[trigger] words_of(words@, data) ==> value.decoded_from(data, at as int),
    {
        let available = words.len();
        assert(at + 4 <= available);
        let value = RegisteredFilter {
            bls_v_khash: words[at],
            register_epoch: decode_u64(&words[at + 1]),
            stake_type: decode_u8(&words[at + 2]),
            amount_deposited: U256(words[at + 3]),
        };
        assert forall|data: Seq<u8>| #[trigger] words_of(words@, data) implies value.decoded_from(
            data,
            at as int,
        ) by {
            assert(words@[at as int]@ == word_at(data, at as int));
            assert(words@[at as int + 1]@ == word_at(data, at as int + 1));
            assert(words@[at as int + 2]@ == word_at(data, at as int + 2));
            assert(words@[at as int + 3]@ == word_at(data, at as int + 3));
        }
        value
    }

    /// The value takes 4 words.
    pub proof fn lemma_encoding_len(&self)
        ensures
            self.abi_encoding().len() == 128,
    {
        lemma_u64_word_round_trip(self.register_epoch);
    }

    /// The value is read back from its own words, wherever they stand in
    /// `data`.
    pub proof fn lemma_read_back(&self, data: Seq<u8>, at: int)
        requires
            0 <= at,
            32 * at + 128 <= data.len(),
            data.subrange(32 * at, 32 * at + 128) == self.abi_encoding(),
        ensures
            self.decoded_from(data, at),
    {
        let enc = self.abi_encoding();
        lemma_u64_word_round_trip(self.register_epoch);
        assert(word_at(data, at) =~= enc.subrange(0, 32));
        assert(enc.subrange(0, 32) =~= self.bls_v_khash@);
        assert(word_at(data, at + 1) =~= enc.subrange(32, 64));
        assert(enc.subrange(32, 64) =~= u64_word(self.register_epoch));
        assert(word_at(data, at + 2) =~= enc.subrange(64, 96));
        assert(enc.subrange(64, 96) =~= u8_word(self.stake_type));
        assert(word_at(data, at + 3) =~= enc.subrange(96, 128));
        assert(enc.subrange(96, 128) =~= self.amount_deposited@);
    }

    /// At most one value is read from given words.
    pub proof fn lemma_decoding_unique(a: RegisteredFilter, b: RegisteredFilter, data: Seq<u8>, at: int)
        requires
            a.decoded_from(data, at),
            b.decoded_from(data, at),
        ensures
            a == b,
    {
        assert(a.bls_v_khash =~= b.bls_v_khash);
        assert(a.amount_deposited.0 =~= b.amount_deposited.0);
    }

    /// The signature of the event in ASCII: its name and the types of its
    /// fields.
    pub open spec fn signature_text() -> Seq<u8> {
        seq![0x52u8, 0x65u8, 0x67u8, 0x69u8, 0x73u8, 0x74u8, 0x65u8, 0x72u8, 0x65u8, 0x64u8,
            0x28u8, 0x62u8, 0x79u8, 0x74u8, 0x65u8, 0x73u8, 0x33u8, 0x32u8, 0x2cu8, 0x75u8, 0x69u8,
            0x6eu8, 0x74u8, 0x36u8, 0x34u8, 0x2cu8, 0x75u8, 0x69u8, 0x6eu8, 0x74u8, 0x38u8, 0x2cu8,
            0x75u8, 0x69u8, 0x6eu8, 0x74u8, 0x32u8, 0x35u8, 0x36u8, 0x29u8]
    }

    /// The topic that marks a log of the event: the Keccak-256 digest of its
    /// signature.
    pub open spec fn topic() -> Seq<u8> {
        keccak256_of(Self::signature_text())
    }

    /// The name of the event in the contract.
    pub fn name() -> (name: &'static str)
        ensures
            name@ == "Registered"@,
    {
        "Registered"
    }

    /// The signature of the event.
    pub fn abi_signature() -> (signature: &'static str)
        ensures
            signature@ == "Registered(bytes32,uint64,uint8,uint256)"@,
    {
        "Registered(bytes32,uint64,uint8,uint256)"
    }

    /// The topic that marks a log of the event.
    pub fn signature() -> (topic: [u8; 32])
        ensures
            topic@ == Self::topic(),
    {
        let text: [u8; 40] = [
            0x52, 0x65, 0x67, 0x69, 0x73, 0x74, 0x65, 0x72, 0x65, 0x64, 0x28, 0x62, 0x79, 0x74,
            0x65, 0x73, 0x33, 0x32, 0x2c, 0x75, 0x69, 0x6e, 0x74, 0x36, 0x34, 0x2c, 0x75, 0x69,
            0x6e, 0x74, 0x38, 0x2c, 0x75, 0x69, 0x6e, 0x74, 0x32, 0x35, 0x36, 0x29
        ];
        assert(text@ =~= Self::signature_text());
        let bytes = copy_bytes(text.as_slice());
        keccak256(&bytes)
    }

    /// Whether a log with these topics and this data is a log of the event:
    /// its only topic is that of the event and its data holds the words of
    /// the fields.
    pub open spec fn accepts(topics: Seq<[u8; 32]>, data: Seq<u8>) -> bool {
        topics.len() == 1 && topics[0]@ == Self::topic() && 128 <= data.len()
    }

    /// Reads the event from `log`. Fails with `InvalidData` exactly when
    /// `log` is no log of the event.
    pub fn decode_log(log: &RawLog) -> (out: Result<RegisteredFilter, AbiError>)
        ensures
            match out {
                Ok(event) => Self::accepts(log.topics@, log.data@) && event.decoded_from(
                    log.data@,
                    0,
                ),
                Err(e) => e == AbiError::InvalidData && !Self::accepts(log.topics@, log.data@),
            },
    {
        if log.topics.len() != 1 {
            return Err(AbiError::InvalidData);
        }
        let topic = Self::signature();
        if !bytes_eq(log.topics[0].as_slice(), topic.as_slice()) {
            return Err(AbiError::InvalidData);
        }
        match decode_words(4, log.data.as_slice()) {
            Ok(words) => Ok(RegisteredFilter::read_words(&words, 0)),
            Err(e) => Err(e),
        }
    }

    /// Decoding undoes encoding: whatever `decode_log` returns on the log of
    /// an event, which has the topic of the event as its only topic and the
    /// words of the event as its data, is that event.
    pub proof fn lemma_round_trip(
        &self,
        topic: [u8; 32],
        decoded: Result<RegisteredFilter, AbiError>,
    )
        requires
            topic@ == Self::topic(),
            match decoded {
                Ok(event) => event.decoded_from(self.abi_encoding(), 0),
                Err(e) => !Self::accepts(seq![topic], self.abi_encoding()),
            },
        ensures
            decoded == Ok::<RegisteredFilter, AbiError>(*self),
    {
        let data = self.abi_encoding();
        self.lemma_encoding_len();
        assert(data.subrange(0, 128) =~= data);
        self.lemma_read_back(data, 0);
        match decoded {
            Ok(event) => {
                Self::lemma_decoding_unique(event, *self, data, 0);
            },
            Err(e) => {},
        }
    }
}

/// Any event of the contract.
#[derive(Clone, Copy, Debug, PartialEq, Eq, Hash)]
pub enum StakeTableEvents {
    /// A log of `Deposit`.
    DepositFilter(DepositFilter),
    /// A log of `Exit`.
    ExitFilter(ExitFilter),
    /// A log of `Registered`.
    RegisteredFilter(RegisteredFilter),
}

impl StakeTableEvents {
    /// Whether the event is the one read from a log with these topics and
    /// this data: the events are tried in turn, and the first of which it is
    /// a log gives the event.
    pub open spec fn decoded_from(&self, topics: Seq<[u8; 32]>, data: Seq<u8>) -> bool {
        match *self {
            StakeTableEvents::DepositFilter(event) => {
                &&& DepositFilter::accepts(topics, data)
                &&& event.decoded_from(data, 0)
            },
            StakeTableEvents::ExitFilter(event) => {
                &&& !DepositFilter::accepts(topics, data)
                &&& ExitFilter::accepts(topics, data)
                &&& event.decoded_from(data, 0)
            },
            StakeTableEvents::RegisteredFilter(event) => {
                &&& !DepositFilter::accepts(topics, data)
                &&& !ExitFilter::accepts(topics, data)
                &&& RegisteredFilter::accepts(topics, data)
                &&& event.decoded_from(data, 0)
            },
        }
    }

    /// Whether a log with these topics and this data is a log of some event
    /// of the contract.
    pub open spec fn known(topics: Seq<[u8; 32]>, data: Seq<u8>) -> bool {
        ||| DepositFilter::accepts(topics, data)
        ||| ExitFilter::accepts(topics, data)
        ||| RegisteredFilter::accepts(topics, data)
    }

    /// Reads an event of the contract from `log`. Fails with `InvalidData`
    /// exactly when `log` is a log of none of them.
    pub fn decode_log(log: &RawLog) -> (out: Result<StakeTableEvents, AbiError>)
        ensures
            match out {
                Ok(event) => event.decoded_from(log.topics@, log.data@),
                Err(e) => e == AbiError::InvalidData && !Self::known(log.topics@, log.data@),
            },
    {
        if let Ok(event) = DepositFilter::decode_log(log) {
            return Ok(StakeTableEvents::DepositFilter(event));
        }
        if let Ok(event) = ExitFilter::decode_log(log) {
            return Ok(StakeTableEvents::ExitFilter(event));
        }
        if let Ok(event) = RegisteredFilter::decode_log(log) {
            return Ok(StakeTableEvents::RegisteredFilter(event));
        }
        Err(AbiError::InvalidData)
    }
}

impl From<DepositFilter> for StakeTableEvents {
    fn from(value: DepositFilter) -> (wrapped: StakeTableEvents) {
        StakeTableEvents::DepositFilter(value)
    }
}

impl vstd::std_specs::convert::FromSpecImpl<DepositFilter> for StakeTableEvents {
    open spec fn obeys_from_spec() -> bool {
        true
    }

    open spec fn from_spec(value: DepositFilter) -> StakeTableEvents {
        StakeTableEvents::DepositFilter(value)
    }
}

impl From<ExitFilter> for StakeTableEvents {
    fn from(value: ExitFilter) -> (wrapped: StakeTableEvents) {
        StakeTableEvents::ExitFilter(value)
    }
}

impl vstd::std_specs::convert::FromSpecImpl<ExitFilter> for StakeTableEvents {
    open spec fn obeys_from_spec() -> bool {
        true
    }

    open spec fn from_spec(value: ExitFilter) -> StakeTableEvents {
        StakeTableEvents::ExitFilter(value)
    }
}

impl From<RegisteredFilter> for StakeTableEvents {
    fn from(value: RegisteredFilter) -> (wrapped: StakeTableEvents) {
        StakeTableEvents::RegisteredFilter(value)
    }
}

impl vstd::std_specs::convert::FromSpecImpl<RegisteredFilter> for StakeTableEvents {
    open spec fn obeys_from_spec() -> bool {
        true
    }

    open spec fn from_spec(value: RegisteredFilter) -> StakeTableEvents {
        StakeTableEvents::RegisteredFilter(value)
    }
}

} // verus!
