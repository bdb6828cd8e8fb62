//! The custom errors with which the stake table contract reverts, and the
//! sum of them with the plain revert text.

use vstd::prelude::*;
use crate::abi::{
    decode_string, readable_text, abi_encode_string, abi_string_encoding, arguments,
    concat_words, decode_call, decode_u64, encode_call, encode_u64, has_selector,
    lemma_u64_word_round_trip, push_word, selector_value, u64_word, word_at, word_u64, words_of,
    AbiError, MAX_TEXT_LEN,
};

verus! {

/// The BLS signature over the registration did not verify.
#[derive(Clone, Copy, Debug, Default, PartialEq, Eq, Hash)]
pub struct BLSSigVerificationFailed;

impl BLSSigVerificationFailed {
    /// The words of the value, one after the other.
    pub open spec fn abi_encoding(&self) -> Seq<u8> {
        Seq::empty()
    }

    /// Whether the value is the one read from the words of `data` that start
    /// at word `at`.
    pub open spec fn decoded_from(&self, data: Seq<u8>, at: int) -> bool {
        true
    }

    /// Adds the words of the value to `words`.
    pub fn push_words(&self, words: &mut Vec<[u8; 32]>)
        ensures
            final(words)@.len() == old(words)@.len() + 0,
            concat_words(final(words)@) == concat_words(old(words)@) + self.abi_encoding(),
    {
        assert(concat_words(words@) =~= concat_words(old(words)@) + self.abi_encoding());
    }

    /// Reads the value from the 0 words that start at `words[at]`.
    pub fn read_words(words: &Vec<[u8; 32]>, at: usize) -> (value: BLSSigVerificationFailed)
        requires
            at + 0 <= words@.len(),
        ensures
            forall|data: Seq<u8>|
                #[trigger] words_of(words@, data) ==> value.decoded_from(data, at as int),
    {
        BLSSigVerificationFailed
    }

    /// The value takes 0 words.
    pub proof fn lemma_encoding_len(&self)
        ensures
            self.abi_encoding().len() == 0,
    {
    }

    /// The value is read back from its own words, wherever they stand in
    /// `data`.
    pub proof fn lemma_read_back(&self, data: Seq<u8>, at: int)
        requires
            0 <= at,
            32 * at + 0 <= data.len(),
            data.subrange(32 * at, 32 * at + 0) == self.abi_encoding(),
        ensures
            self.decoded_from(data, at),
    {
    }

    /// At most one value is read from given words.
    pub proof fn lemma_decoding_unique(a: BLSSigVerificationFailed, b: BLSSigVerificationFailed, data: Seq<u8>, at: int)
        requires
            a.decoded_from(data, at),
            b.decoded_from(data, at),
        ensures
            a == b,
    {
    }

    /// The first four bytes of the Keccak-256 digest of the signature.
    pub open spec fn selector_bytes() -> Seq<u8> {
        seq![0x0cu8, 0xedu8, 0x3eu8, 0x50u8]
    }

    /// The selector of the error.
    pub fn selector() -> (selector: [u8; 4])
        ensures
            selector@ == Self::selector_bytes(),
    {
        let selector: [u8; 4] = [0x0c, 0xed, 0x3e, 0x50];
        assert(selector@ =~= Self::selector_bytes());
        selector
    }

    /// The name of the error in the contract.
    pub fn error_name() -> (name: &'static str)
        ensures
            name@ == "BLSSigVerificationFailed"@,
    {
        "BLSSigVerificationFailed"
    }

    /// The signature of the error: its name and the types of its fields.
    pub fn abi_signature() -> (signature: &'static str)
        ensures
            signature@ == "BLSSigVerificationFailed()"@,
    {
        "BLSSigVerificationFailed()"
    }

    /// The revert data of the error: the selector, then the words of its
    /// fields.
    pub open spec fn revert_data(&self) -> Seq<u8> {
        Self::selector_bytes() + self.abi_encoding()
    }

    /// Whether `data` starts with the selector and holds the words of the
    /// fields behind it.
    pub open spec fn accepts(data: Seq<u8>) -> bool {
        has_selector(data, Self::selector_bytes()) && 0 <= data.len() - 4
    }

    /// The revert data of the error.
    pub fn encode(&self) -> (out: Vec<u8>)
        ensures
            out@ == self.revert_data(),
    {
        let mut words: Vec<[u8; 32]> = Vec::new();
        self.push_words(&mut words);
        assert(concat_words(Seq::<[u8; 32]>::empty()) =~= Seq::<u8>::empty());
        assert(concat_words(words@) =~= self.abi_encoding());
        encode_call(&Self::selector(), &words)
    }

    /// Reads the error back from revert data. Fails with `WrongSelector` if
    /// `data` does not start with the selector of the error, else with
    /// `InvalidData` if `data` is too short for its fields.
    pub fn decode(data: &[u8]) -> (out: Result<BLSSigVerificationFailed, AbiError>)
        ensures
            match out {
                Ok(err) => Self::accepts(data@) && err.decoded_from(arguments(data@), 0),
                Err(e) => !Self::accepts(data@) && e == (if has_selector(
                    data@,
                    Self::selector_bytes(),
                ) {
                    AbiError::InvalidData
                } else {
                    AbiError::WrongSelector
                }),
            },
    {
        match decode_call(&Self::selector(), 0, data) {
            Ok(words) => Ok(BLSSigVerificationFailed::read_words(&words, 0)),
            Err(e) => Err(e),
        }
    }

    /// The selector read as one number.
    pub proof fn lemma_selector_value()
        ensures
            selector_value(Self::selector_bytes()) == 0x0ced3e50,
    {
    }

    /// The revert data of an error holds the error: it starts with the
    /// selector and the fields are read back from the words behind it.
    pub proof fn lemma_revert_data_holds_error(&self)
        ensures
            Self::accepts(self.revert_data()),
            self.decoded_from(arguments(self.revert_data()), 0),
    {
        let data = self.revert_data();
        self.lemma_encoding_len();
        assert(data.subrange(0, 4) =~= Self::selector_bytes());
        assert(arguments(data) =~= self.abi_encoding());
        assert(arguments(data).subrange(0, 0) =~= self.abi_encoding());
        self.lemma_read_back(arguments(data), 0);
    }

    /// Decoding undoes encoding: whatever `decode` returns on the revert
    /// data of an error is that error.
    pub proof fn lemma_round_trip(&self, decoded: Result<BLSSigVerificationFailed, AbiError>)
        requires
            match decoded {
                Ok(err) => err.decoded_from(arguments(self.revert_data()), 0),
                Err(e) => !Self::accepts(self.revert_data()),
            },
        ensures
            decoded == Ok::<BLSSigVerificationFailed, AbiError>(*self),
    {
        self.lemma_revert_data_holds_error();
        match decoded {
            Ok(err) => {
                Self::lemma_decoding_unique(err, *self, arguments(self.revert_data()), 0);
            },
            Err(e) => {},
        }
    }
}

/// The node has already asked to exit.
#[derive(Clone, Copy, Debug, Default, PartialEq, Eq, Hash)]
pub struct ExitRequestInProgress;

impl ExitRequestInProgress {
    /// The words of the value, one after the other.
    pub open spec fn abi_encoding(&self) -> Seq<u8> {
        Seq::empty()
    }

    /// Whether the value is the one read from the words of `data` that start
    /// at word `at`.
    pub open spec fn decoded_from(&self, data: Seq<u8>, at: int) -> bool {
        true
    }

    /// Adds the words of the value to `words`.
    pub fn push_words(&self, words: &mut Vec<[u8; 32]>)
        ensures
            final(words)@.len() == old(words)@.len() + 0,
            concat_words(final(words)@) == concat_words(old(words)@) + self.abi_encoding(),
    {
        assert(concat_words(words@) =~= concat_words(old(words)@) + self.abi_encoding());
    }

    /// Reads the value from the 0 words that start at `words[at]`.
    pub fn read_words(words: &Vec<[u8; 32]>, at: usize) -> (value: ExitRequestInProgress)
        requires
            at + 0 <= words@.len(),
        ensures
            forall|data: Seq<u8>|
                #[trigger] words_of(words@, data) ==> value.decoded_from(data, at as int),
    {
        ExitRequestInProgress
    }

    /// The value takes 0 words.
    pub proof fn lemma_encoding_len(&self)
        ensures
            self.abi_encoding().len() == 0,
    {
    }

    /// The value is read back from its own words, wherever they stand in
    /// `data`.
    pub proof fn lemma_read_back(&self, data: Seq<u8>, at: int)
        requires
            0 <= at,
            32 * at + 0 <= data.len(),
            data.subrange(32 * at, 32 * at + 0) == self.abi_encoding(),
        ensures
            self.decoded_from(data, at),
    {
    }

    /// At most one value is read from given words.
    pub proof fn lemma_decoding_unique(a: ExitRequestInProgress, b: ExitRequestInProgress, data: Seq<u8>, at: int)
        requires
            a.decoded_from(data, at),
            b.decoded_from(data, at),
        ensures
            a == b,
    {
    }

    /// The first four bytes of the Keccak-256 digest of the signature.
    pub open spec fn selector_bytes() -> Seq<u8> {
        seq![0x37u8, 0xa8u8, 0x3eu8, 0xd5u8]
    }

    /// The selector of the error.
    pub fn selector() -> (selector: [u8; 4])
        ensures
            selector@ == Self::selector_bytes(),
    {
        let selector: [u8; 4] = [0x37, 0xa8, 0x3e, 0xd5];
        assert(selector@ =~= Self::selector_bytes());
        selector
    }

    /// The name of the error in the contract.
    pub fn error_name() -> (name: &'static str)
        ensures
            name@ == "ExitRequestInProgress"@,
    {
        "ExitRequestInProgress"
    }

    /// The signature of the error: its name and the types of its fields.
    pub fn abi_signature() -> (signature: &'static str)
        ensures
            signature@ == "ExitRequestInProgress()"@,
    {
        "ExitRequestInProgress()"
    }

    /// The revert data of the error: the selector, then the words of its
    /// fields.
    pub open spec fn revert_data(&self) -> Seq<u8> {
        Self::selector_bytes() + self.abi_encoding()
    }

    /// Whether `data` starts with the selector and holds the words of the
    /// fields behind it.
    pub open spec fn accepts(data: Seq<u8>) -> bool {
        has_selector(data, Self::selector_bytes()) && 0 <= data.len() - 4
    }

    /// The revert data of the error.
    pub fn encode(&self) -> (out: Vec<u8>)
        ensures
            out@ == self.revert_data(),
    {
        let mut words: Vec<[u8; 32]> = Vec::new();
        self.push_words(&mut words);
        assert(concat_words(Seq::<[u8; 32]>::empty()) =~= Seq::<u8>::empty());
        assert(concat_words(words@) =~= self.abi_encoding());
        encode_call(&Self::selector(), &words)
    }

    /// Reads the error back from revert data. Fails with `WrongSelector` if
    /// `data` does not start with the selector of the error, else with
    /// `InvalidData` if `data` is too short for its fields.
    pub fn decode(data: &[u8]) -> (out: Result<ExitRequestInProgress, AbiError>)
        ensures
            match out {
                Ok(err) => Self::accepts(data@) && err.decoded_from(arguments(data@), 0),
                Err(e) => !Self::accepts(data@) && e == (if has_selector(
                    data@,
                    Self::selector_bytes(),
                ) {
                    AbiError::InvalidData
                } else {
                    AbiError::WrongSelector
                }),
            },
    {
        match decode_call(&Self::selector(), 0, data) {
            Ok(words) => Ok(ExitRequestInProgress::read_words(&words, 0)),
            Err(e) => Err(e),
        }
    }

    /// The selector read as one number.
    pub proof fn lemma_selector_value()
        ensures
            selector_value(Self::selector_bytes()) == 0x37a83ed5,
    {
    }

    /// The revert data of an error holds the error: it starts with the
    /// selector and the fields are read back from the words behind it.
    pub proof fn lemma_revert_data_holds_error(&self)
        ensures
            Self::accepts(self.revert_data()),
            self.decoded_from(arguments(self.revert_data()), 0),
    {
        let data = self.revert_data();
        self.lemma_encoding_len();
        assert(data.subrange(0, 4) =~= Self::selector_bytes());
        assert(arguments(data) =~= self.abi_encoding());
        assert(arguments(data).subrange(0, 0) =~= self.abi_encoding());
        self.lemma_read_back(arguments(data), 0);
    }

    /// Decoding undoes encoding: whatever `decode` returns on the revert
    /// data of an error is that error.
    pub proof fn lemma_round_trip(&self, decoded: Result<ExitRequestInProgress, AbiError>)
        requires
            match decoded {
                Ok(err) => err.decoded_from(arguments(self.revert_data()), 0),
                Err(e) => !Self::accepts(self.revert_data()),
            },
        ensures
            decoded == Ok::<ExitRequestInProgress, AbiError>(*self),
    {
        self.lemma_revert_data_holds_error();
        match decoded {
            Ok(err) => {
                Self::lemma_decoding_unique(err, *self, arguments(self.revert_data()), 0);
            },
            Err(e) => {},
        }
    }
}

/// The registration would take effect in an epoch later than the one the
/// caller accepts: the epoch it would take effect in, then the last epoch
/// accepted.
#[derive(Clone, Copy, Debug, Default, PartialEq, Eq, Hash)]
pub struct InvalidNextRegistrationEpoch(pub u64, pub u64);

impl InvalidNextRegistrationEpoch {
    /// The words of the value, one after the other.
    pub open spec fn abi_encoding(&self) -> Seq<u8> {
        u64_word(self.0) + u64_word(self.1)
    }

    /// Whether the value is the one read from the words of `data` that start
    /// at word `at`.
    pub open spec fn decoded_from(&self, data: Seq<u8>, at: int) -> bool {
        &&& self.0 == word_u64(word_at(data, at))
        &&& self.1 == word_u64(word_at(data, at + 1))
    }

    /// Adds the words of the value to `words`.
    pub fn push_words(&self, words: &mut Vec<[u8; 32]>)
        ensures
            final(words)@.len() == old(words)@.len() + 2,
            concat_words(final(words)@) == concat_words(old(words)@) + self.abi_encoding(),
    {
        push_word(words, encode_u64(self.0));
        push_word(words, encode_u64(self.1));
        assert(concat_words(words@) =~= concat_words(old(words)@) + self.abi_encoding());
    }

    /// Reads the value from the 2 words that start at `words[at]`.
    pub fn read_words(words: &Vec<[u8; 32]>, at: usize) -> (value: InvalidNextRegistrationEpoch)
        requires
            at + 2 <= words@.len(),
        ensures
            forall|data: Seq<u8>|
                #[trigger] words_of(words@, data) ==> value.decoded_from(data, at as int),
    {
        let available = words.len();
        assert(at + 2 <= available);
        let value = InvalidNextRegistrationEpoch(decode_u64(&words[at]), decode_u64(&words[at + 1]));
        assert forall|data: Seq<u8>| #[trigger] words_of(words@, data) implies value.decoded_from(
            data,
            at as int,
        ) by {
            assert(words@[at as int]@ == word_at(data, at as int));
            assert(words@[at as int + 1]@ == word_at(data, at as int + 1));
        }
        value
    }

    /// The value takes 2 words.
    pub proof fn lemma_encoding_len(&self)
        ensures
            self.abi_encoding().len() == 64,
    {
        lemma_u64_word_round_trip(self.0);
        lemma_u64_word_round_trip(self.1);
    }

    /// The value is read back from its own words, wherever they stand in
    /// `data`.
    pub proof fn lemma_read_back(&self, data: Seq<u8>, at: int)
        requires
            0 <= at,
            32 * at + 64 <= data.len(),
            data.subrange(32 * at, 32 * at + 64) == self.abi_encoding(),
        ensures
            self.decoded_from(data, at),
    {
        let enc = self.abi_encoding();
        lemma_u64_word_round_trip(self.0);
        lemma_u64_word_round_trip(self.1);
        assert(word_at(data, at) =~= enc.subrange(0, 32));
        assert(enc.subrange(0, 32) =~= u64_word(self.0));
        assert(word_at(data, at + 1) =~= enc.subrange(32, 64));
        assert(enc.subrange(32, 64) =~= u64_word(self.1));
    }

    /// At most one value is read from given words.
    pub proof fn lemma_decoding_unique(a: InvalidNextRegistrationEpoch, b: InvalidNextRegistrationEpoch, data: Seq<u8>, at: int)
        requires
            a.decoded_from(data, at),
            b.decoded_from(data, at),
        ensures
            a == b,
    {
    }

    /// The first four bytes of the Keccak-256 digest of the signature.
    pub open spec fn selector_bytes() -> Seq<u8> {
        seq![0x43u8, 0xbfu8, 0x17u8, 0x86u8]
    }

    /// The selector of the error.
    pub fn selector() -> (selector: [u8; 4])
        ensures
            selector@ == Self::selector_bytes(),
    {
        let selector: [u8; 4] = [0x43, 0xbf, 0x17, 0x86];
        assert(selector@ =~= Self::selector_bytes());
        selector
    }

    /// The name of the error in the contract.
    pub fn error_name() -> (name: &'static str)
        ensures
            name@ == "InvalidNextRegistrationEpoch"@,
    {
        "InvalidNextRegistrationEpoch"
    }

    /// The signature of the error: its name and the types of its fields.
    pub fn abi_signature() -> (signature: &'static str)
        ensures
            signature@ == "InvalidNextRegistrationEpoch(uint64,uint64)"@,
    {
        "InvalidNextRegistrationEpoch(uint64,uint64)"
    }

    /// The revert data of the error: the selector, then the words of its
    /// fields.
    pub open spec fn revert_data(&self) -> Seq<u8> {
        Self::selector_bytes() + self.abi_encoding()
    }

    /// Whether `data` starts with the selector and holds the words of the
    /// fields behind it.
    pub open spec fn accepts(data: Seq<u8>) -> bool {
        has_selector(data, Self::selector_bytes()) && 64 <= data.len() - 4
    }

    /// The revert data of the error.
    pub fn encode(&self) -> (out: Vec<u8>)
        ensures
            out@ == self.revert_data(),
    {
        let mut words: Vec<[u8; 32]> = Vec::new();
        self.push_words(&mut words);
        assert(concat_words(Seq::<[u8; 32]>::empty()) =~= Seq::<u8>::empty());
        assert(concat_words(words@) =~= self.abi_encoding());
        encode_call(&Self::selector(), &words)
    }

    /// Reads the error back from revert data. Fails with `WrongSelector` if
    /// `data` does not start with the selector of the error, else with
    /// `InvalidData` if `data` is too short for its fields.
    pub fn decode(data: &[u8]) -> (out: Result<InvalidNextRegistrationEpoch, AbiError>)
        ensures
            match out {
                Ok(err) => Self::accepts(data@) && err.decoded_from(arguments(data@), 0),
                Err(e) => !Self::accepts(data@) && e == (if has_selector(
                    data@,
                    Self::selector_bytes(),
                ) {
                    AbiError::InvalidData
                } else {
                    AbiError::WrongSelector
                }),
            },
    {
        match decode_call(&Self::selector(), 2, data) {
            Ok(words) => Ok(InvalidNextRegistrationEpoch::read_words(&words, 0)),
            Err(e) => Err(e),
        }
    }

    /// The selector read as one number.
    pub proof fn lemma_selector_value()
        ensures
            selector_value(Self::selector_bytes()) == 0x43bf1786,
    {
    }

    /// The revert data of an error holds the error: it starts with the
    /// selector and the fields are read back from the words behind it.
    pub proof fn lemma_revert_data_holds_error(&self)
        ensures
            Self::accepts(self.revert_data()),
            self.decoded_from(arguments(self.revert_data()), 0),
    {
        let data = self.revert_data();
        self.lemma_encoding_len();
        assert(data.subrange(0, 4) =~= Self::selector_bytes());
        assert(arguments(data) =~= self.abi_encoding());
        assert(arguments(data).subrange(0, 64) =~= self.abi_encoding());
        self.lemma_read_back(arguments(data), 0);
    }

    /// Decoding undoes encoding: whatever `decode` returns on the revert
    /// data of an error is that error.
    pub proof fn lemma_round_trip(&self, decoded: Result<InvalidNextRegistrationEpoch, AbiError>)
        requires
            match decoded {
                Ok(err) => err.decoded_from(arguments(self.revert_data()), 0),
                Err(e) => !Self::accepts(self.revert_data()),
            },
        ensures
            decoded == Ok::<InvalidNextRegistrationEpoch, AbiError>(*self),
    {
        self.lemma_revert_data_holds_error();
        match decoded {
            Ok(err) => {
                Self::lemma_decoding_unique(err, *self, arguments(self.revert_data()), 0);
            },
            Err(e) => {},
        }
    }
}

/// A node is already registered under the key.
#[derive(Clone, Copy, Debug, Default, PartialEq, Eq, Hash)]
pub struct NodeAlreadyRegistered;

impl NodeAlreadyRegistered {
    /// The words of the value, one after the other.
    pub open spec fn abi_encoding(&self) -> Seq<u8> {
        Seq::empty()
    }

    /// Whether the value is the one read from the words of `data` that start
    /// at word `at`.
    pub open spec fn decoded_from(&self, data: Seq<u8>, at: int) -> bool {
        true
    }

    /// Adds the words of the value to `words`.
    pub fn push_words(&self, words: &mut Vec<[u8; 32]>)
        ensures
            final(words)@.len() == old(words)@.len() + 0,
            concat_words(final(words)@) == concat_words(old(words)@) + self.abi_encoding(),
    {
        assert(concat_words(words@) =~= concat_words(old(words)@) + self.abi_encoding());
    }

    /// Reads the value from the 0 words that start at `words[at]`.
    pub fn read_words(words: &Vec<[u8; 32]>, at: usize) -> (value: NodeAlreadyRegistered)
        requires
            at + 0 <= words@.len(),
        ensures
            forall|data: Seq<u8>|
                #[trigger] words_of(words@, data) ==> value.decoded_from(data, at as int),
    {
        NodeAlreadyRegistered
    }

    /// The value takes 0 words.
    pub proof fn lemma_encoding_len(&self)
        ensures
            self.abi_encoding().len() == 0,
    {
    }

    /// The value is read back from its own words, wherever they stand in
    /// `data`.
    pub proof fn lemma_read_back(&self, data: Seq<u8>, at: int)
        requires
            0 <= at,
            32 * at + 0 <= data.len(),
            data.subrange(32 * at, 32 * at + 0) == self.abi_encoding(),
        ensures
            self.decoded_from(data, at),
    {
    }

    /// At most one value is read from given words.
    pub proof fn lemma_decoding_unique(a: NodeAlreadyRegistered, b: NodeAlreadyRegistered, data: Seq<u8>, at: int)
        requires
            a.decoded_from(data, at),
            b.decoded_from(data, at),
        ensures
            a == b,
    {
    }

    /// The first four bytes of the Keccak-256 digest of the signature.
    pub open spec fn selector_bytes() -> Seq<u8> {
        seq![0x1du8, 0x61u8, 0xa6u8, 0x26u8]
    }

    /// The selector of the error.
    pub fn selector() -> (selector: [u8; 4])
        ensures
            selector@ == Self::selector_bytes(),
    {
        let selector: [u8; 4] = [0x1d, 0x61, 0xa6, 0x26];
        assert(selector@ =~= Self::selector_bytes());
        selector
    }

    /// The name of the error in the contract.
    pub fn error_name() -> (name: &'static str)
        ensures
            name@ == "NodeAlreadyRegistered"@,
    {
        "NodeAlreadyRegistered"
    }

    /// The signature of the error: its name and the types of its fields.
    pub fn abi_signature() -> (signature: &'static str)
        ensures
            signature@ == "NodeAlreadyRegistered()"@,
    {
        "NodeAlreadyRegistered()"
    }

    /// The revert data of the error: the selector, then the words of its
    /// fields.
    pub open spec fn revert_data(&self) -> Seq<u8> {
        Self::selector_bytes() + self.abi_encoding()
    }

    /// Whether `data` starts with the selector and holds the words of the
    /// fields behind it.
    pub open spec fn accepts(data: Seq<u8>) -> bool {
        has_selector(data, Self::selector_bytes()) && 0 <= data.len() - 4
    }

    /// The revert data of the error.
    pub fn encode(&self) -> (out: Vec<u8>)
        ensures
            out@ == self.revert_data(),
    {
        let mut words: Vec<[u8; 32]> = Vec::new();
        self.push_words(&mut words);
        assert(concat_words(Seq::<[u8; 32]>::empty()) =~= Seq::<u8>::empty());
        assert(concat_words(words@) =~= self.abi_encoding());
        encode_call(&Self::selector(), &words)
    }

    /// Reads the error back from revert data. Fails with `WrongSelector` if
    /// `data` does not start with the selector of the error, else with
    /// `InvalidData` if `data` is too short for its fields.
    pub fn decode(data: &[u8]) -> (out: Result<NodeAlreadyRegistered, AbiError>)
        ensures
            match out {
                Ok(err) => Self::accepts(data@) && err.decoded_from(arguments(data@), 0),
                Err(e) => !Self::accepts(data@) && e == (if has_selector(
                    data@,
                    Self::selector_bytes(),
                ) {
                    AbiError::InvalidData
                } else {
                    AbiError::WrongSelector
                }),
            },
    {
        match decode_call(&Self::selector(), 0, data) {
            Ok(words) => Ok(NodeAlreadyRegistered::read_words(&words, 0)),
            Err(e) => Err(e),
        }
    }

    /// The selector read as one number.
    pub proof fn lemma_selector_value()
        ensures
            selector_value(Self::selector_bytes()) == 0x1d61a626,
    {
    }

    /// The revert data of an error holds the error: it starts with the
    /// selector and the fields are read back from the words behind it.
    pub proof fn lemma_revert_data_holds_error(&self)
        ensures
            Self::accepts(self.revert_data()),
            self.decoded_from(arguments(self.revert_data()), 0),
    {
        let data = self.revert_data();
        self.lemma_encoding_len();
        assert(data.subrange(0, 4) =~= Self::selector_bytes());
        assert(arguments(data) =~= self.abi_encoding());
        assert(arguments(data).subrange(0, 0) =~= self.abi_encoding());
        self.lemma_read_back(arguments(data), 0);
    }

    /// Decoding undoes encoding: whatever `decode` returns on the revert
    /// data of an error is that error.
    pub proof fn lemma_round_trip(&self, decoded: Result<NodeAlreadyRegistered, AbiError>)
        requires
            match decoded {
                Ok(err) => err.decoded_from(arguments(self.revert_data()), 0),
                Err(e) => !Self::accepts(self.revert_data()),
            },
        ensures
            decoded == Ok::<NodeAlreadyRegistered, AbiError>(*self),
    {
        self.lemma_revert_data_holds_error();
        match decoded {
            Ok(err) => {
                Self::lemma_decoding_unique(err, *self, arguments(self.revert_data()), 0);
            },
            Err(e) => {},
        }
    }
}

/// The deposit came before the registration took effect.
#[derive(Clone, Copy, Debug, Default, PartialEq, Eq, Hash)]
pub struct PrematureDeposit;

impl PrematureDeposit {
    /// The words of the value, one after the other.
    pub open spec fn abi_encoding(&self) -> Seq<u8> {
        Seq::empty()
    }

    /// Whether the value is the one read from the words of `data` that start
    /// at word `at`.
    pub open spec fn decoded_from(&self, data: Seq<u8>, at: int) -> bool {
        true
    }

    /// Adds the words of the value to `words`.
    pub fn push_words(&self, words: &mut Vec<[u8; 32]>)
        ensures
            final(words)@.len() == old(words)@.len() + 0,
            concat_words(final(words)@) == concat_words(old(words)@) + self.abi_encoding(),
    {
        assert(concat_words(words@) =~= concat_words(old(words)@) + self.abi_encoding());
    }

    /// Reads the value from the 0 words that start at `words[at]`.
    pub fn read_words(words: &Vec<[u8; 32]>, at: usize) -> (value: PrematureDeposit)
        requires
            at + 0 <= words@.len(),
        ensures
            forall|data: Seq<u8>|
                #[trigger] words_of(words@, data) ==> value.decoded_from(data, at as int),
    {
        PrematureDeposit
    }

    /// The value takes 0 words.
    pub proof fn lemma_encoding_len(&self)
        ensures
            self.abi_encoding().len() == 0,
    {
    }

    /// The value is read back from its own words, wherever they stand in
    /// `data`.
    pub proof fn lemma_read_back(&self, data: Seq<u8>, at: int)
        requires
            0 <= at,
            32 * at + 0 <= data.len(),
            data.subrange(32 * at, 32 * at + 0) == self.abi_encoding(),
        ensures
            self.decoded_from(data, at),
    {
    }

    /// At most one value is read from given words.
    pub proof fn lemma_decoding_unique(a: PrematureDeposit, b: PrematureDeposit, data: Seq<u8>, at: int)
        requires
            a.decoded_from(data, at),
            b.decoded_from(data, at),
        ensures
            a == b,
    {
    }

    /// The first four bytes of the Keccak-256 digest of the signature.
    pub open spec fn selector_bytes() -> Seq<u8> {
        seq![0x53u8, 0x16u8, 0xcbu8, 0xe6u8]
    }

    /// The selector of the error.
    pub fn selector() -> (selector: [u8; 4])
        ensures
            selector@ == Self::selector_bytes(),
    {
        let selector: [u8; 4] = [0x53, 0x16, 0xcb, 0xe6];
        assert(selector@ =~= Self::selector_bytes());
        selector
    }

    /// The name of the error in the contract.
    pub fn error_name() -> (name: &'static str)
        ensures
            name@ == "PrematureDeposit"@,
    {
        "PrematureDeposit"
    }

    /// The signature of the error: its name and the types of its fields.
    pub fn abi_signature() -> (signature: &'static str)
        ensures
            signature@ == "PrematureDeposit()"@,
    {
        "PrematureDeposit()"
    }

    /// The revert data of the error: the selector, then the words of its
    /// fields.
    pub open spec fn revert_data(&self) -> Seq<u8> {
        Self::selector_bytes() + self.abi_encoding()
    }

    /// Whether `data` starts with the selector and holds the words of the
    /// fields behind it.
    pub open spec fn accepts(data: Seq<u8>) -> bool {
        has_selector(data, Self::selector_bytes()) && 0 <= data.len() - 4
    }

    /// The revert data of the error.
    pub fn encode(&self) -> (out: Vec<u8>)
        ensures
            out@ == self.revert_data(),
    {
        let mut words: Vec<[u8; 32]> = Vec::new();
        self.push_words(&mut words);
        assert(concat_words(Seq::<[u8; 32]>::empty()) =~= Seq::<u8>::empty());
        assert(concat_words(words@) =~= self.abi_encoding());
        encode_call(&Self::selector(), &words)
    }

    /// Reads the error back from revert data. Fails with `WrongSelector` if
    /// `data` does not start with the selector of the error, else with
    /// `InvalidData` if `data` is too short for its fields.
    pub fn decode(data: &[u8]) -> (out: Result<PrematureDeposit, AbiError>)
        ensures
            match out {
                Ok(err) => Self::accepts(data@) && err.decoded_from(arguments(data@), 0),
                Err(e) => !Self::accepts(data@) && e == (if has_selector(
                    data@,
                    Self::selector_bytes(),
                ) {
                    AbiError::InvalidData
                } else {
                    AbiError::WrongSelector
                }),
            },
    {
        match decode_call(&Self::selector(), 0, data) {
            Ok(words) => Ok(PrematureDeposit::read_words(&words, 0)),
            Err(e) => Err(e),
        }
    }

    /// The selector read as one number.
    pub proof fn lemma_selector_value()
        ensures
            selector_value(Self::selector_bytes()) == 0x5316cbe6,
    {
    }

    /// The revert data of an error holds the error: it starts with the
    /// selector and the fields are read back from the words behind it.
    pub proof fn lemma_revert_data_holds_error(&self)
        ensures
            Self::accepts(self.revert_data()),
            self.decoded_from(arguments(self.revert_data()), 0),
    {
        let data = self.revert_data();
        self.lemma_encoding_len();
        assert(data.subrange(0, 4) =~= Self::selector_bytes());
        assert(arguments(data) =~= self.abi_encoding());
        assert(arguments(data).subrange(0, 0) =~= self.abi_encoding());
        self.lemma_read_back(arguments(data), 0);
    }

    /// Decoding undoes encoding: whatever `decode` returns on the revert
    /// data of an error is that error.
    pub proof fn lemma_round_trip(&self, decoded: Result<PrematureDeposit, AbiError>)
        requires
            match decoded {
                Ok(err) => err.decoded_from(arguments(self.revert_data()), 0),
                Err(e) => !Self::accepts(self.revert_data()),
            },
        ensures
            decoded == Ok::<PrematureDeposit, AbiError>(*self),
    {
        self.lemma_revert_data_holds_error();
        match decoded {
            Ok(err) => {
                Self::lemma_decoding_unique(err, *self, arguments(self.revert_data()), 0);
            },
            Err(e) => {},
        }
    }
}

/// The exit was requested before the registration took effect.
#[derive(Clone, Copy, Debug, Default, PartialEq, Eq, Hash)]
pub struct PrematureExit;

impl PrematureExit {
    /// The words of the value, one after the other.
    pub open spec fn abi_encoding(&self) -> Seq<u8> {
        Seq::empty()
    }

    /// Whether the value is the one read from the words of `data` that start
    /// at word `at`.
    pub open spec fn decoded_from(&self, data: Seq<u8>, at: int) -> bool {
        true
    }

    /// Adds the words of the value to `words`.
    pub fn push_words(&self, words: &mut Vec<[u8; 32]>)
        ensures
            final(words)@.len() == old(words)@.len() + 0,
            concat_words(final(words)@) == concat_words(old(words)@) + self.abi_encoding(),
    {
        assert(concat_words(words@) =~= concat_words(old(words)@) + self.abi_encoding());
    }

    /// Reads the value from the 0 words that start at `words[at]`.
    pub fn read_words(words: &Vec<[u8; 32]>, at: usize) -> (value: PrematureExit)
        requires
            at + 0 <= words@.len(),
        ensures
            forall|data: Seq<u8>|
                #[trigger] words_of(words@, data) ==> value.decoded_from(data, at as int),
    {
        PrematureExit
    }

    /// The value takes 0 words.
    pub proof fn lemma_encoding_len(&self)
        ensures
            self.abi_encoding().len() == 0,
    {
    }

    /// The value is read back from its own words, wherever they stand in
    /// `data`.
    pub proof fn lemma_read_back(&self, data: Seq<u8>, at: int)
        requires
            0 <= at,
            32 * at + 0 <= data.len(),
            data.subrange(32 * at, 32 * at + 0) == self.abi_encoding(),
        ensures
            self.decoded_from(data, at),
    {
    }

    /// At most one value is read from given words.
    pub proof fn lemma_decoding_unique(a: PrematureExit, b: PrematureExit, data: Seq<u8>, at: int)
        requires
            a.decoded_from(data, at),
            b.decoded_from(data, at),
        ensures
            a == b,
    {
    }

    /// The first four bytes of the Keccak-256 digest of the signature.
    pub open spec fn selector_bytes() -> Seq<u8> {
        seq![0x78u8, 0x7au8, 0xebu8, 0x53u8]
    }

    /// The selector of the error.
    pub fn selector() -> (selector: [u8; 4])
        ensures
            selector@ == Self::selector_bytes(),
    {
        let selector: [u8; 4] = [0x78, 0x7a, 0xeb, 0x53];
        assert(selector@ =~= Self::selector_bytes());
        selector
    }

    /// The name of the error in the contract.
    pub fn error_name() -> (name: &'static str)
        ensures
            name@ == "PrematureExit"@,
    {
        "PrematureExit"
    }

    /// The signature of the error: its name and the types of its fields.
    pub fn abi_signature() -> (signature: &'static str)
        ensures
            signature@ == "PrematureExit()"@,
    {
        "PrematureExit()"
    }

    /// The revert data of the error: the selector, then the words of its
    /// fields.
    pub open spec fn revert_data(&self) -> Seq<u8> {
        Self::selector_bytes() + self.abi_encoding()
    }

    /// Whether `data` starts with the selector and holds the words of the
    /// fields behind it.
    pub open spec fn accepts(data: Seq<u8>) -> bool {
        has_selector(data, Self::selector_bytes()) && 0 <= data.len() - 4
    }

    /// The revert data of the error.
    pub fn encode(&self) -> (out: Vec<u8>)
        ensures
            out@ == self.revert_data(),
    {
        let mut words: Vec<[u8; 32]> = Vec::new();
        self.push_words(&mut words);
        assert(concat_words(Seq::<[u8; 32]>::empty()) =~= Seq::<u8>::empty());
        assert(concat_words(words@) =~= self.abi_encoding());
        encode_call(&Self::selector(), &words)
    }

    /// Reads the error back from revert data. Fails with `WrongSelector` if
    /// `data` does not start with the selector of the error, else with
    /// `InvalidData` if `data` is too short for its fields.
    pub fn decode(data: &[u8]) -> (out: Result<PrematureExit, AbiError>)
        ensures
            match out {
                Ok(err) => Self::accepts(data@) && err.decoded_from(arguments(data@), 0),
                Err(e) => !Self::accepts(data@) && e == (if has_selector(
                    data@,
                    Self::selector_bytes(),
                ) {
                    AbiError::InvalidData
                } else {
                    AbiError::WrongSelector
                }),
            },
    {
        match decode_call(&Self::selector(), 0, data) {
            Ok(words) => Ok(PrematureExit::read_words(&words, 0)),
            Err(e) => Err(e),
        }
    }

    /// The selector read as one number.
    pub proof fn lemma_selector_value()
        ensures
            selector_value(Self::selector_bytes()) == 0x787aeb53,
    {
    }

    /// The revert data of an error holds the error: it starts with the
    /// selector and the fields are read back from the words behind it.
    pub proof fn lemma_revert_data_holds_error(&self)
        ensures
            Self::accepts(self.revert_data()),
            self.decoded_from(arguments(self.revert_data()), 0),
    {
        let data = self.revert_data();
        self.lemma_encoding_len();
        assert(data.subrange(0, 4) =~= Self::selector_bytes());
        assert(arguments(data) =~= self.abi_encoding());
        assert(arguments(data).subrange(0, 0) =~= self.abi_encoding());
        self.lemma_read_back(arguments(data), 0);
    }

    /// Decoding undoes encoding: whatever `decode` returns on the revert
    /// data of an error is that error.
    pub proof fn lemma_round_trip(&self, decoded: Result<PrematureExit, AbiError>)
        requires
            match decoded {
                Ok(err) => err.decoded_from(arguments(self.revert_data()), 0),
                Err(e) => !Self::accepts(self.revert_data()),
            },
        ensures
            decoded == Ok::<PrematureExit, AbiError>(*self),
    {
        self.lemma_revert_data_holds_error();
        match decoded {
            Ok(err) => {
                Self::lemma_decoding_unique(err, *self, arguments(self.revert_data()), 0);
            },
            Err(e) => {},
        }
    }
}

/// The funds were asked for before the escrow period ended.
#[derive(Clone, Copy, Debug, Default, PartialEq, Eq, Hash)]
pub struct PrematureWithdrawal;

impl PrematureWithdrawal {
    /// The words of the value, one after the other.
    pub open spec fn abi_encoding(&self) -> Seq<u8> {
        Seq::empty()
    }

    /// Whether the value is the one read from the words of `data` that start
    /// at word `at`.
    pub open spec fn decoded_from(&self, data: Seq<u8>, at: int) -> bool {
        true
    }

    /// Adds the words of the value to `words`.
    pub fn push_words(&self, words: &mut Vec<[u8; 32]>)
        ensures
            final(words)@.len() == old(words)@.len() + 0,
            concat_words(final(words)@) == concat_words(old(words)@) + self.abi_encoding(),
    {
        assert(concat_words(words@) =~= concat_words(old(words)@) + self.abi_encoding());
    }

    /// Reads the value from the 0 words that start at `words[at]`.
    pub fn read_words(words: &Vec<[u8; 32]>, at: usize) -> (value: PrematureWithdrawal)
        requires
            at + 0 <= words@.len(),
        ensures
            forall|data: Seq<u8>|
                #[trigger] words_of(words@, data) ==> value.decoded_from(data, at as int),
    {
        PrematureWithdrawal
    }

    /// The value takes 0 words.
    pub proof fn lemma_encoding_len(&self)
        ensures
            self.abi_encoding().len() == 0,
    {
    }

    /// The value is read back from its own words, wherever they stand in
    /// `data`.
    pub proof fn lemma_read_back(&self, data: Seq<u8>, at: int)
        requires
            0 <= at,
            32 * at + 0 <= data.len(),
            data.subrange(32 * at, 32 * at + 0) == self.abi_encoding(),
        ensures
            self.decoded_from(data, at),
    {
    }

    /// At most one value is read from given words.
    pub proof fn lemma_decoding_unique(a: PrematureWithdrawal, b: PrematureWithdrawal, data: Seq<u8>, at: int)
        requires
            a.decoded_from(data, at),
            b.decoded_from(data, at),
        ensures
            a == b,
    {
    }

    /// The first four bytes of the Keccak-256 digest of the signature.
    pub open spec fn selector_bytes() -> Seq<u8> {
        seq![0x5au8, 0x77u8, 0x43u8, 0x57u8]
    }

    /// The selector of the error.
    pub fn selector() -> (selector: [u8; 4])
        ensures
            selector@ == Self::selector_bytes(),
    {
        let selector: [u8; 4] = [0x5a, 0x77, 0x43, 0x57];
        assert(selector@ =~= Self::selector_bytes());
        selector
    }

    /// The name of the error in the contract.
    pub fn error_name() -> (name: &'static str)
        ensures
            name@ == "PrematureWithdrawal"@,
    {
        "PrematureWithdrawal"
    }

    /// The signature of the error: its name and the types of its fields.
    pub fn abi_signature() -> (signature: &'static str)
        ensures
            signature@ == "PrematureWithdrawal()"@,
    {
        "PrematureWithdrawal()"
    }

    /// The revert data of the error: the selector, then the words of its
    /// fields.
    pub open spec fn revert_data(&self) -> Seq<u8> {
        Self::selector_bytes() + self.abi_encoding()
    }

    /// Whether `data` starts with the selector and holds the words of the
    /// fields behind it.
    pub open spec fn accepts(data: Seq<u8>) -> bool {
        has_selector(data, Self::selector_bytes()) && 0 <= data.len() - 4
    }

    /// The revert data of the error.
    pub fn encode(&self) -> (out: Vec<u8>)
        ensures
            out@ == self.revert_data(),
    {
        let mut words: Vec<[u8; 32]> = Vec::new();
        self.push_words(&mut words);
        assert(concat_words(Seq::<[u8; 32]>::empty()) =~= Seq::<u8>::empty());
        assert(concat_words(words@) =~= self.abi_encoding());
        encode_call(&Self::selector(), &words)
    }

    /// Reads the error back from revert data. Fails with `WrongSelector` if
    /// `data` does not start with the selector of the error, else with
    /// `InvalidData` if `data` is too short for its fields.
    pub fn decode(data: &[u8]) -> (out: Result<PrematureWithdrawal, AbiError>)
        ensures
            match out {
                Ok(err) => Self::accepts(data@) && err.decoded_from(arguments(data@), 0),
                Err(e) => !Self::accepts(data@) && e == (if has_selector(
                    data@,
                    Self::selector_bytes(),
                ) {
                    AbiError::InvalidData
                } else {
                    AbiError::WrongSelector
                }),
            },
    {
        match decode_call(&Self::selector(), 0, data) {
            Ok(words) => Ok(PrematureWithdrawal::read_words(&words, 0)),
            Err(e) => Err(e),
        }
    }

    /// The selector read as one number.
    pub proof fn lemma_selector_value()
        ensures
            selector_value(Self::selector_bytes()) == 0x5a774357,
    {
    }

    /// The revert data of an error holds the error: it starts with the
    /// selector and the fields are read back from the words behind it.
    pub proof fn lemma_revert_data_holds_error(&self)
        ensures
            Self::accepts(self.revert_data()),
            self.decoded_from(arguments(self.revert_data()), 0),
    {
        let data = self.revert_data();
        self.lemma_encoding_len();
        assert(data.subrange(0, 4) =~= Self::selector_bytes());
        assert(arguments(data) =~= self.abi_encoding());
        assert(arguments(data).subrange(0, 0) =~= self.abi_encoding());
        self.lemma_read_back(arguments(data), 0);
    }

    /// Decoding undoes encoding: whatever `decode` returns on the revert
    /// data of an error is that error.
    pub proof fn lemma_round_trip(&self, decoded: Result<PrematureWithdrawal, AbiError>)
        requires
            match decoded {
                Ok(err) => err.decoded_from(arguments(self.revert_data()), 0),
                Err(e) => !Self::accepts(self.revert_data()),
            },
        ensures
            decoded == Ok::<PrematureWithdrawal, AbiError>(*self),
    {
        self.lemma_revert_data_holds_error();
        match decoded {
            Ok(err) => {
                Self::lemma_decoding_unique(err, *self, arguments(self.revert_data()), 0);
            },
            Err(e) => {},
        }
    }
}

/// Restaked stake is not supported yet.
#[derive(Clone, Copy, Debug, Default, PartialEq, Eq, Hash)]
pub struct RestakingNotImplemented;

impl RestakingNotImplemented {
    /// The words of the value, one after the other.
    pub open spec fn abi_encoding(&self) -> Seq<u8> {
        Seq::empty()
    }

    /// Whether the value is the one read from the words of `data` that start
    /// at word `at`.
    pub open spec fn decoded_from(&self, data: Seq<u8>, at: int) -> bool {
        true
    }

    /// Adds the words of the value to `words`.
    pub fn push_words(&self, words: &mut Vec<[u8; 32]>)
        ensures
            final(words)@.len() == old(words)@.len() + 0,
            concat_words(final(words)@) == concat_words(old(words)@) + self.abi_encoding(),
    {
        assert(concat_words(words@) =~= concat_words(old(words)@) + self.abi_encoding());
    }

    /// Reads the value from the 0 words that start at `words[at]`.
    pub fn read_words(words: &Vec<[u8; 32]>, at: usize) -> (value: RestakingNotImplemented)
        requires
            at + 0 <= words@.len(),
        ensures
            forall|data: Seq<u8>|
                #[trigger] words_of(words@, data) ==> value.decoded_from(data, at as int),
    {
        RestakingNotImplemented
    }

    /// The value takes 0 words.
    pub proof fn lemma_encoding_len(&self)
        ensures
            self.abi_encoding().len() == 0,
    {
    }

    /// The value is read back from its own words, wherever they stand in
    /// `data`.
    pub proof fn lemma_read_back(&self, data: Seq<u8>, at: int)
        requires
            0 <= at,
            32 * at + 0 <= data.len(),
            data.subrange(32 * at, 32 * at + 0) == self.abi_encoding(),
        ensures
            self.decoded_from(data, at),
    {
    }

    /// At most one value is read from given words.
    pub proof fn lemma_decoding_unique(a: RestakingNotImplemented, b: RestakingNotImplemented, data: Seq<u8>, at: int)
        requires
            a.decoded_from(data, at),
            b.decoded_from(data, at),
        ensures
            a == b,
    {
    }

    /// The first four bytes of the Keccak-256 digest of the signature.
    pub open spec fn selector_bytes() -> Seq<u8> {
        seq![0x00u8, 0x8eu8, 0xbfu8, 0xd8u8]
    }

    /// The selector of the error.
    pub fn selector() -> (selector: [u8; 4])
        ensures
            selector@ == Self::selector_bytes(),
    {
        let selector: [u8; 4] = [0x00, 0x8e, 0xbf, 0xd8];
        assert(selector@ =~= Self::selector_bytes());
        selector
    }

    /// The name of the error in the contract.
    pub fn error_name() -> (name: &'static str)
        ensures
            name@ == "RestakingNotImplemented"@,
    {
        "RestakingNotImplemented"
    }

    /// The signature of the error: its name and the types of its fields.
    pub fn abi_signature() -> (signature: &'static str)
        ensures
            signature@ == "RestakingNotImplemented()"@,
    {
        "RestakingNotImplemented()"
    }

    /// The revert data of the error: the selector, then the words of its
    /// fields.
    pub open spec fn revert_data(&self) -> Seq<u8> {
        Self::selector_bytes() + self.abi_encoding()
    }

    /// Whether `data` starts with the selector and holds the words of the
    /// fields behind it.
    pub open spec fn accepts(data: Seq<u8>) -> bool {
        has_selector(data, Self::selector_bytes()) && 0 <= data.len() - 4
    }

    /// The revert data of the error.
    pub fn encode(&self) -> (out: Vec<u8>)
        ensures
            out@ == self.revert_data(),
    {
        let mut words: Vec<[u8; 32]> = Vec::new();
        self.push_words(&mut words);
        assert(concat_words(Seq::<[u8; 32]>::empty()) =~= Seq::<u8>::empty());
        assert(concat_words(words@) =~= self.abi_encoding());
        encode_call(&Self::selector(), &words)
    }

    /// Reads the error back from revert data. Fails with `WrongSelector` if
    /// `data` does not start with the selector of the error, else with
    /// `InvalidData` if `data` is too short for its fields.
    pub fn decode(data: &[u8]) -> (out: Result<RestakingNotImplemented, AbiError>)
        ensures
            match out {
                Ok(err) => Self::accepts(data@) && err.decoded_from(arguments(data@), 0),
                Err(e) => !Self::accepts(data@) && e == (if has_selector(
                    data@,
                    Self::selector_bytes(),
                ) {
                    AbiError::InvalidData
                } else {
                    AbiError::WrongSelector
                }),
            },
    {
        match decode_call(&Self::selector(), 0, data) {
            Ok(words) => Ok(RestakingNotImplemented::read_words(&words, 0)),
            Err(e) => Err(e),
        }
    }

    /// The selector read as one number.
    pub proof fn lemma_selector_value()
        ensures
            selector_value(Self::selector_bytes()) == 0x008ebfd8,
    {
    }

    /// The revert data of an error holds the error: it starts with the
    /// selector and the fields are read back from the words behind it.
    pub proof fn lemma_revert_data_holds_error(&self)
        ensures
            Self::accepts(self.revert_data()),
            self.decoded_from(arguments(self.revert_data()), 0),
    {
        let data = self.revert_data();
        self.lemma_encoding_len();
        assert(data.subrange(0, 4) =~= Self::selector_bytes());
        assert(arguments(data) =~= self.abi_encoding());
        assert(arguments(data).subrange(0, 0) =~= self.abi_encoding());
        self.lemma_read_back(arguments(data), 0);
    }

    /// Decoding undoes encoding: whatever `decode` returns on the revert
    /// data of an error is that error.
    pub proof fn lemma_round_trip(&self, decoded: Result<RestakingNotImplemented, AbiError>)
        requires
            match decoded {
                Ok(err) => err.decoded_from(arguments(self.revert_data()), 0),
                Err(e) => !Self::accepts(self.revert_data()),
            },
        ensures
            decoded == Ok::<RestakingNotImplemented, AbiError>(*self),
    {
        self.lemma_revert_data_holds_error();
        match decoded {
            Ok(err) => {
                Self::lemma_decoding_unique(err, *self, arguments(self.revert_data()), 0);
            },
            Err(e) => {},
        }
    }
}

/// The caller is not the account that registered the node.
#[derive(Clone, Copy, Debug, Default, PartialEq, Eq, Hash)]
pub struct Unauthenticated;

impl Unauthenticated {
    /// The words of the value, one after the other.
    pub open spec fn abi_encoding(&self) -> Seq<u8> {
        Seq::empty()
    }

    /// Whether the value is the one read from the words of `data` that start
    /// at word `at`.
    pub open spec fn decoded_from(&self, data: Seq<u8>, at: int) -> bool {
        true
    }

    /// Adds the words of the value to `words`.
    pub fn push_words(&self, words: &mut Vec<[u8; 32]>)
        ensures
            final(words)@.len() == old(words)@.len() + 0,
            concat_words(final(words)@) == concat_words(old(words)@) + self.abi_encoding(),
    {
        assert(concat_words(words@) =~= concat_words(old(words)@) + self.abi_encoding());
    }

    /// Reads the value from the 0 words that start at `words[at]`.
    pub fn read_words(words: &Vec<[u8; 32]>, at: usize) -> (value: Unauthenticated)
        requires
            at + 0 <= words@.len(),
        ensures
            forall|data: Seq<u8>|
                #[trigger] words_of(words@, data) ==> value.decoded_from(data, at as int),
    {
        Unauthenticated
    }

    /// The value takes 0 words.
    pub proof fn lemma_encoding_len(&self)
        ensures
            self.abi_encoding().len() == 0,
    {
    }

    /// The value is read back from its own words, wherever they stand in
    /// `data`.
    pub proof fn lemma_read_back(&self, data: Seq<u8>, at: int)
        requires
            0 <= at,
            32 * at + 0 <= data.len(),
            data.subrange(32 * at, 32 * at + 0) == self.abi_encoding(),
        ensures
            self.decoded_from(data, at),
    {
    }

    /// At most one value is read from given words.
    pub proof fn lemma_decoding_unique(a: Unauthenticated, b: Unauthenticated, data: Seq<u8>, at: int)
        requires
            a.decoded_from(data, at),
            b.decoded_from(data, at),
        ensures
            a == b,
    {
    }

    /// The first four bytes of the Keccak-256 digest of the signature.
    pub open spec fn selector_bytes() -> Seq<u8> {
        seq![0xc8u8, 0x75u8, 0x9cu8, 0x17u8]
    }

    /// The selector of the error.
    pub fn selector() -> (selector: [u8; 4])
        ensures
            selector@ == Self::selector_bytes(),
    {
        let selector: [u8; 4] = [0xc8, 0x75, 0x9c, 0x17];
        assert(selector@ =~= Self::selector_bytes());
        selector
    }

    /// The name of the error in the contract.
    pub fn error_name() -> (name: &'static str)
        ensures
            name@ == "Unauthenticated"@,
    {
        "Unauthenticated"
    }

    /// The signature of the error: its name and the types of its fields.
    pub fn abi_signature() -> (signature: &'static str)
        ensures
            signature@ == "Unauthenticated()"@,
    {
        "Unauthenticated()"
    }

    /// The revert data of the error: the selector, then the words of its
    /// fields.
    pub open spec fn revert_data(&self) -> Seq<u8> {
        Self::selector_bytes() + self.abi_encoding()
    }

    /// Whether `data` starts with the selector and holds the words of the
    /// fields behind it.
    pub open spec fn accepts(data: Seq<u8>) -> bool {
        has_selector(data, Self::selector_bytes()) && 0 <= data.len() - 4
    }

    /// The revert data of the error.
    pub fn encode(&self) -> (out: Vec<u8>)
        ensures
            out@ == self.revert_data(),
    {
        let mut words: Vec<[u8; 32]> = Vec::new();
        self.push_words(&mut words);
        assert(concat_words(Seq::<[u8; 32]>::empty()) =~= Seq::<u8>::empty());
        assert(concat_words(words@) =~= self.abi_encoding());
        encode_call(&Self::selector(), &words)
    }

    /// Reads the error back from revert data. Fails with `WrongSelector` if
    /// `data` does not start with the selector of the error, else with
    /// `InvalidData` if `data` is too short for its fields.
    pub fn decode(data: &[u8]) -> (out: Result<Unauthenticated, AbiError>)
        ensures
            match out {
                Ok(err) => Self::accepts(data@) && err.decoded_from(arguments(data@), 0),
                Err(e) => !Self::accepts(data@) && e == (if has_selector(
                    data@,
                    Self::selector_bytes(),
                ) {
                    AbiError::InvalidData
                } else {
                    AbiError::WrongSelector
                }),
            },
    {
        match decode_call(&Self::selector(), 0, data) {
            Ok(words) => Ok(Unauthenticated::read_words(&words, 0)),
            Err(e) => Err(e),
        }
    }

    /// The selector read as one number.
    pub proof fn lemma_selector_value()
        ensures
            selector_value(Self::selector_bytes()) == 0xc8759c17,
    {
    }

    /// The revert data of an error holds the error: it starts with the
    /// selector and the fields are read back from the words behind it.
    pub proof fn lemma_revert_data_holds_error(&self)
        ensures
            Self::accepts(self.revert_data()),
            self.decoded_from(arguments(self.revert_data()), 0),
    {
        let data = self.revert_data();
        self.lemma_encoding_len();
        assert(data.subrange(0, 4) =~= Self::selector_bytes());
        assert(arguments(data) =~= self.abi_encoding());
        assert(arguments(data).subrange(0, 0) =~= self.abi_encoding());
        self.lemma_read_back(arguments(data), 0);
    }

    /// Decoding undoes encoding: whatever `decode` returns on the revert
    /// data of an error is that error.
    pub proof fn lemma_round_trip(&self, decoded: Result<Unauthenticated, AbiError>)
        requires
            match decoded {
                Ok(err) => err.decoded_from(arguments(self.revert_data()), 0),
                Err(e) => !Self::accepts(self.revert_data()),
            },
        ensures
            decoded == Ok::<Unauthenticated, AbiError>(*self),
    {
        self.lemma_revert_data_holds_error();
        match decoded {
            Ok(err) => {
                Self::lemma_decoding_unique(err, *self, arguments(self.revert_data()), 0);
            },
            Err(e) => {},
        }
    }
}

/// The selector of `Error(string)`, under which a contract reverts with a
/// plain text.
pub open spec fn revert_string_selector() -> Seq<u8> {
    seq![0x08u8, 0xc3u8, 0x79u8, 0xa0u8]
}

/// Any error with which the contract reverts.
#[derive(Debug, PartialEq, Eq, Hash)]
pub enum StakeTableErrors {
    /// The custom error `BLSSigVerificationFailed`.
    BLSSigVerificationFailed(BLSSigVerificationFailed),
    /// The custom error `ExitRequestInProgress`.
    ExitRequestInProgress(ExitRequestInProgress),
    /// The custom error `InvalidNextRegistrationEpoch`.
    InvalidNextRegistrationEpoch(InvalidNextRegistrationEpoch),
    /// The custom error `NodeAlreadyRegistered`.
    NodeAlreadyRegistered(NodeAlreadyRegistered),
    /// The custom error `PrematureDeposit`.
    PrematureDeposit(PrematureDeposit),
    /// The custom error `PrematureExit`.
    PrematureExit(PrematureExit),
    /// The custom error `PrematureWithdrawal`.
    PrematureWithdrawal(PrematureWithdrawal),
    /// The custom error `RestakingNotImplemented`.
    RestakingNotImplemented(RestakingNotImplemented),
    /// The custom error `Unauthenticated`.
    Unauthenticated(Unauthenticated),
    /// A revert with a plain text.
    RevertString(String),
}

impl StakeTableErrors {
    /// The bytes that stand for the error: the revert data of a custom
    /// error, or the ABI encoding of the text of a plain revert.
    pub open spec fn encoding(&self) -> Seq<u8> {
        match *self {
            StakeTableErrors::BLSSigVerificationFailed(err) => err.revert_data(),
            StakeTableErrors::ExitRequestInProgress(err) => err.revert_data(),
            StakeTableErrors::InvalidNextRegistrationEpoch(err) => err.revert_data(),
            StakeTableErrors::NodeAlreadyRegistered(err) => err.revert_data(),
            StakeTableErrors::PrematureDeposit(err) => err.revert_data(),
            StakeTableErrors::PrematureExit(err) => err.revert_data(),
            StakeTableErrors::PrematureWithdrawal(err) => err.revert_data(),
            StakeTableErrors::RestakingNotImplemented(err) => err.revert_data(),
            StakeTableErrors::Unauthenticated(err) => err.revert_data(),
            StakeTableErrors::RevertString(text) => abi_string_encoding(text@),
        }
    }

    /// Whether the error is a custom error that `data` holds: `data` starts
    /// with its selector and its fields are read from the words behind it.
    pub open spec fn decoded_from(&self, data: Seq<u8>) -> bool {
        match *self {
            StakeTableErrors::BLSSigVerificationFailed(err) => BLSSigVerificationFailed::accepts(data) && err.decoded_from(
                arguments(data),
                0,
            ),
            StakeTableErrors::ExitRequestInProgress(err) => ExitRequestInProgress::accepts(data) && err.decoded_from(
                arguments(data),
                0,
            ),
            StakeTableErrors::InvalidNextRegistrationEpoch(err) => InvalidNextRegistrationEpoch::accepts(data) && err.decoded_from(
                arguments(data),
                0,
            ),
            StakeTableErrors::NodeAlreadyRegistered(err) => NodeAlreadyRegistered::accepts(data) && err.decoded_from(
                arguments(data),
                0,
            ),
            StakeTableErrors::PrematureDeposit(err) => PrematureDeposit::accepts(data) && err.decoded_from(
                arguments(data),
                0,
            ),
            StakeTableErrors::PrematureExit(err) => PrematureExit::accepts(data) && err.decoded_from(
                arguments(data),
                0,
            ),
            StakeTableErrors::PrematureWithdrawal(err) => PrematureWithdrawal::accepts(data) && err.decoded_from(
                arguments(data),
                0,
            ),
            StakeTableErrors::RestakingNotImplemented(err) => RestakingNotImplemented::accepts(data) && err.decoded_from(
                arguments(data),
                0,
            ),
            StakeTableErrors::Unauthenticated(err) => Unauthenticated::accepts(data) && err.decoded_from(
                arguments(data),
                0,
            ),
            StakeTableErrors::RevertString(_) => false,
        }
    }

    /// Whether `data` holds some custom error of the contract.
    pub open spec fn known(data: Seq<u8>) -> bool {
        ||| BLSSigVerificationFailed::accepts(data)
        ||| ExitRequestInProgress::accepts(data)
        ||| InvalidNextRegistrationEpoch::accepts(data)
        ||| NodeAlreadyRegistered::accepts(data)
        ||| PrematureDeposit::accepts(data)
        ||| PrematureExit::accepts(data)
        ||| PrematureWithdrawal::accepts(data)
        ||| RestakingNotImplemented::accepts(data)
        ||| Unauthenticated::accepts(data)
    }

    /// Whether `selector` is that of a plain revert or of a custom error of
    /// the contract.
    pub open spec fn is_valid_selector(selector: Seq<u8>) -> bool {
        ||| selector == revert_string_selector()
        ||| selector == BLSSigVerificationFailed::selector_bytes()
        ||| selector == ExitRequestInProgress::selector_bytes()
        ||| selector == InvalidNextRegistrationEpoch::selector_bytes()
        ||| selector == NodeAlreadyRegistered::selector_bytes()
        ||| selector == PrematureDeposit::selector_bytes()
        ||| selector == PrematureExit::selector_bytes()
        ||| selector == PrematureWithdrawal::selector_bytes()
        ||| selector == RestakingNotImplemented::selector_bytes()
        ||| selector == Unauthenticated::selector_bytes()
    }

    /// Whether the error can be encoded: the text of a plain revert is
    /// shorter than the encoder's limit. Every custom error can.
    pub open spec fn encodable(&self) -> bool {
        match *self {
            StakeTableErrors::RevertString(text) => text@.len() < MAX_TEXT_LEN,
            _ => true,
        }
    }

    /// The bytes that stand for the error.
    pub fn encode(&self) -> (out: Vec<u8>)
        requires
            self.encodable(),
        ensures
            out@ == self.encoding(),
    {
        match self {
            StakeTableErrors::BLSSigVerificationFailed(err) => err.encode(),
            StakeTableErrors::ExitRequestInProgress(err) => err.encode(),
            StakeTableErrors::InvalidNextRegistrationEpoch(err) => err.encode(),
            StakeTableErrors::NodeAlreadyRegistered(err) => err.encode(),
            StakeTableErrors::PrematureDeposit(err) => err.encode(),
            StakeTableErrors::PrematureExit(err) => err.encode(),
            StakeTableErrors::PrematureWithdrawal(err) => err.encode(),
            StakeTableErrors::RestakingNotImplemented(err) => err.encode(),
            StakeTableErrors::Unauthenticated(err) => err.encode(),
            StakeTableErrors::RevertString(text) => abi_encode_string(text),
        }
    }

    /// Reads an error back from `data`. Where `data` is read as the ABI
    /// encoding of a text, the error is a plain revert with that text; else
    /// the custom errors are tried in turn. Fails with `InvalidData` exactly
    /// when `data` is neither.
    pub fn decode(data: &[u8]) -> (out: Result<StakeTableErrors, AbiError>)
        ensures
            match out {
                Ok(err) => match readable_text(data@) {
                    Some(text) => err matches StakeTableErrors::RevertString(t) && t@ == text,
                    None => err.decoded_from(data@),
                },
                Err(e) => {
                    &&& readable_text(data@).is_none()
                    &&& e == AbiError::InvalidData
                    &&& !Self::known(data@)
                },
            },
    {
        Self::decode_with(data, decode_string(data))
    }

    /// Reads an error back from `data`, given the text `revert` that `data`
    /// encodes, if it encodes one.
    pub fn decode_with(data: &[u8], revert: Option<String>) -> (out: Result<
        StakeTableErrors,
        AbiError,
    >)
        ensures
            match out {
                Ok(err) => match revert {
                    Some(text) => err matches StakeTableErrors::RevertString(t) && t@ == text@,
                    None => err.decoded_from(data@),
                },
                Err(e) => revert.is_none() && e == AbiError::InvalidData && !Self::known(data@),
            },
    {
        if let Some(text) = revert {
            return Ok(StakeTableErrors::RevertString(text));
        }
        if let Ok(err) = BLSSigVerificationFailed::decode(data) {
            return Ok(StakeTableErrors::BLSSigVerificationFailed(err));
        }
        if let Ok(err) = ExitRequestInProgress::decode(data) {
            return Ok(StakeTableErrors::ExitRequestInProgress(err));
        }
        if let Ok(err) = InvalidNextRegistrationEpoch::decode(data) {
            return Ok(StakeTableErrors::InvalidNextRegistrationEpoch(err));
        }
        if let Ok(err) = NodeAlreadyRegistered::decode(data) {
            return Ok(StakeTableErrors::NodeAlreadyRegistered(err));
        }
        if let Ok(err) = PrematureDeposit::decode(data) {
            return Ok(StakeTableErrors::PrematureDeposit(err));
        }
        if let Ok(err) = PrematureExit::decode(data) {
            return Ok(StakeTableErrors::PrematureExit(err));
        }
        if let Ok(err) = PrematureWithdrawal::decode(data) {
            return Ok(StakeTableErrors::PrematureWithdrawal(err));
        }
        if let Ok(err) = RestakingNotImplemented::decode(data) {
            return Ok(StakeTableErrors::RestakingNotImplemented(err));
        }
        if let Ok(err) = Unauthenticated::decode(data) {
            return Ok(StakeTableErrors::Unauthenticated(err));
        }
        Err(AbiError::InvalidData)
    }

    /// Whether `selector` is that of a plain revert or of a custom error of
    /// the contract.
    pub fn valid_selector(selector: [u8; 4]) -> (valid: bool)
        ensures
            valid == Self::is_valid_selector(selector@),
    {
        let revert: [u8; 4] = [0x08, 0xc3, 0x79, 0xa0];
        assert(revert@ =~= revert_string_selector());
        same_selector(&selector, &revert)
            || same_selector(&selector, &BLSSigVerificationFailed::selector())
            || same_selector(&selector, &ExitRequestInProgress::selector())
            || same_selector(&selector, &InvalidNextRegistrationEpoch::selector())
            || same_selector(&selector, &NodeAlreadyRegistered::selector())
            || same_selector(&selector, &PrematureDeposit::selector())
            || same_selector(&selector, &PrematureExit::selector())
            || same_selector(&selector, &PrematureWithdrawal::selector())
            || same_selector(&selector, &RestakingNotImplemented::selector())
            || same_selector(&selector, &Unauthenticated::selector())
    }

    /// Decoding undoes encoding for the custom errors: whatever `decode`
    /// returns on the revert data of a custom error is that error, as long as
    /// the revert data is not at the same time the encoding of a text.
    pub proof fn lemma_round_trip(&self, decoded: Result<StakeTableErrors, AbiError>)
        requires
            !(*self is RevertString),
            readable_text(self.encoding()).is_none(),
            match decoded {
                Ok(err) => err.decoded_from(self.encoding()),
                Err(e) => !Self::known(self.encoding()),
            },
        ensures
            decoded == Ok::<StakeTableErrors, AbiError>(*self),
    {
        let data = self.encoding();
        BLSSigVerificationFailed::lemma_selector_value();
        ExitRequestInProgress::lemma_selector_value();
        InvalidNextRegistrationEpoch::lemma_selector_value();
        NodeAlreadyRegistered::lemma_selector_value();
        PrematureDeposit::lemma_selector_value();
        PrematureExit::lemma_selector_value();
        PrematureWithdrawal::lemma_selector_value();
        RestakingNotImplemented::lemma_selector_value();
        Unauthenticated::lemma_selector_value();
        match *self {
            StakeTableErrors::BLSSigVerificationFailed(err) => {
                err.lemma_revert_data_holds_error();
                if let Ok(StakeTableErrors::BLSSigVerificationFailed(other)) = decoded {
                    BLSSigVerificationFailed::lemma_decoding_unique(other, err, arguments(data), 0);
                }
            },
            StakeTableErrors::ExitRequestInProgress(err) => {
                err.lemma_revert_data_holds_error();
                if let Ok(StakeTableErrors::ExitRequestInProgress(other)) = decoded {
                    ExitRequestInProgress::lemma_decoding_unique(other, err, arguments(data), 0);
                }
            },
            StakeTableErrors::InvalidNextRegistrationEpoch(err) => {
                err.lemma_revert_data_holds_error();
                if let Ok(StakeTableErrors::InvalidNextRegistrationEpoch(other)) = decoded {
                    InvalidNextRegistrationEpoch::lemma_decoding_unique(other, err, arguments(data), 0);
                }
            },
            StakeTableErrors::NodeAlreadyRegistered(err) => {
                err.lemma_revert_data_holds_error();
                if let Ok(StakeTableErrors::NodeAlreadyRegistered(other)) = decoded {
                    NodeAlreadyRegistered::lemma_decoding_unique(other, err, arguments(data), 0);
                }
            },
            StakeTableErrors::PrematureDeposit(err) => {
                err.lemma_revert_data_holds_error();
                if let Ok(StakeTableErrors::PrematureDeposit(other)) = decoded {
                    PrematureDeposit::lemma_decoding_unique(other, err, arguments(data), 0);
                }
            },
            StakeTableErrors::PrematureExit(err) => {
                err.lemma_revert_data_holds_error();
                if let Ok(StakeTableErrors::PrematureExit(other)) = decoded {
                    PrematureExit::lemma_decoding_unique(other, err, arguments(data), 0);
                }
            },
            StakeTableErrors::PrematureWithdrawal(err) => {
                err.lemma_revert_data_holds_error();
                if let Ok(StakeTableErrors::PrematureWithdrawal(other)) = decoded {
                    PrematureWithdrawal::lemma_decoding_unique(other, err, arguments(data), 0);
                }
            },
            StakeTableErrors::RestakingNotImplemented(err) => {
                err.lemma_revert_data_holds_error();
                if let Ok(StakeTableErrors::RestakingNotImplemented(other)) = decoded {
                    RestakingNotImplemented::lemma_decoding_unique(other, err, arguments(data), 0);
                }
            },
            StakeTableErrors::Unauthenticated(err) => {
                err.lemma_revert_data_holds_error();
                if let Ok(StakeTableErrors::Unauthenticated(other)) = decoded {
                    Unauthenticated::lemma_decoding_unique(other, err, arguments(data), 0);
                }
            },
            StakeTableErrors::RevertString(_) => {},
        }
    }
}

impl From<BLSSigVerificationFailed> for StakeTableErrors {
    fn from(value: BLSSigVerificationFailed) -> (wrapped: StakeTableErrors) {
        StakeTableErrors::BLSSigVerificationFailed(value)
    }
}

impl vstd::std_specs::convert::FromSpecImpl<BLSSigVerificationFailed> for StakeTableErrors {
    open spec fn obeys_from_spec() -> bool {
        true
    }

    open spec fn from_spec(value: BLSSigVerificationFailed) -> StakeTableErrors {
        StakeTableErrors::BLSSigVerificationFailed(value)
    }
}

impl From<ExitRequestInProgress> for StakeTableErrors {
    fn from(value: ExitRequestInProgress) -> (wrapped: StakeTableErrors) {
        StakeTableErrors::ExitRequestInProgress(value)
    }
}

impl vstd::std_specs::convert::FromSpecImpl<ExitRequestInProgress> for StakeTableErrors {
    open spec fn obeys_from_spec() -> bool {
        true
    }

    open spec fn from_spec(value: ExitRequestInProgress) -> StakeTableErrors {
        StakeTableErrors::ExitRequestInProgress(value)
    }
}

impl From<InvalidNextRegistrationEpoch> for StakeTableErrors {
    fn from(value: InvalidNextRegistrationEpoch) -> (wrapped: StakeTableErrors) {
        StakeTableErrors::InvalidNextRegistrationEpoch(value)
    }
}

impl vstd::std_specs::convert::FromSpecImpl<InvalidNextRegistrationEpoch> for StakeTableErrors {
    open spec fn obeys_from_spec() -> bool {
        true
    }

    open spec fn from_spec(value: InvalidNextRegistrationEpoch) -> StakeTableErrors {
        StakeTableErrors::InvalidNextRegistrationEpoch(value)
    }
}

impl From<NodeAlreadyRegistered> for StakeTableErrors {
    fn from(value: NodeAlreadyRegistered) -> (wrapped: StakeTableErrors) {
        StakeTableErrors::NodeAlreadyRegistered(value)
    }
}

impl vstd::std_specs::convert::FromSpecImpl<NodeAlreadyRegistered> for StakeTableErrors {
    open spec fn obeys_from_spec() -> bool {
        true
    }

    open spec fn from_spec(value: NodeAlreadyRegistered) -> StakeTableErrors {
        StakeTableErrors::NodeAlreadyRegistered(value)
    }
}

impl From<PrematureDeposit> for StakeTableErrors {
    fn from(value: PrematureDeposit) -> (wrapped: StakeTableErrors) {
        StakeTableErrors::PrematureDeposit(value)
    }
}

impl vstd::std_specs::convert::FromSpecImpl<PrematureDeposit> for StakeTableErrors {
    open spec fn obeys_from_spec() -> bool {
        true
    }

    open spec fn from_spec(value: PrematureDeposit) -> StakeTableErrors {
        StakeTableErrors::PrematureDeposit(value)
    }
}

impl From<PrematureExit> for StakeTableErrors {
    fn from(value: PrematureExit) -> (wrapped: StakeTableErrors) {
        StakeTableErrors::PrematureExit(value)
    }
}

impl vstd::std_specs::convert::FromSpecImpl<PrematureExit> for StakeTableErrors {
    open spec fn obeys_from_spec() -> bool {
        true
    }

    open spec fn from_spec(value: PrematureExit) -> StakeTableErrors {
        StakeTableErrors::PrematureExit(value)
    }
}

impl From<PrematureWithdrawal> for StakeTableErrors {
    fn from(value: PrematureWithdrawal) -> (wrapped: StakeTableErrors) {
        StakeTableErrors::PrematureWithdrawal(value)
    }
}

impl vstd::std_specs::convert::FromSpecImpl<PrematureWithdrawal> for StakeTableErrors {
    open spec fn obeys_from_spec() -> bool {
        true
    }

    open spec fn from_spec(value: PrematureWithdrawal) -> StakeTableErrors {
        StakeTableErrors::PrematureWithdrawal(value)
    }
}

impl From<RestakingNotImplemented> for StakeTableErrors {
    fn from(value: RestakingNotImplemented) -> (wrapped: StakeTableErrors) {
        StakeTableErrors::RestakingNotImplemented(value)
    }
}

impl vstd::std_specs::convert::FromSpecImpl<RestakingNotImplemented> for StakeTableErrors {
    open spec fn obeys_from_spec() -> bool {
        true
    }

    open spec fn from_spec(value: RestakingNotImplemented) -> StakeTableErrors {
        StakeTableErrors::RestakingNotImplemented(value)
    }
}

impl From<Unauthenticated> for StakeTableErrors {
    fn from(value: Unauthenticated) -> (wrapped: StakeTableErrors) {
        StakeTableErrors::Unauthenticated(value)
    }
}

impl vstd::std_specs::convert::FromSpecImpl<Unauthenticated> for StakeTableErrors {
    open spec fn obeys_from_spec() -> bool {
        true
    }

    open spec fn from_spec(value: Unauthenticated) -> StakeTableErrors {
        StakeTableErrors::Unauthenticated(value)
    }
}

impl From<String> for StakeTableErrors {
    fn from(value: String) -> (wrapped: StakeTableErrors) {
        StakeTableErrors::RevertString(value)
    }
}

impl vstd::std_specs::convert::FromSpecImpl<String> for StakeTableErrors {
    open spec fn obeys_from_spec() -> bool {
        true
    }

    open spec fn from_spec(value: String) -> StakeTableErrors {
        StakeTableErrors::RevertString(value)
    }
}

/// Whether two selectors are equal.
pub fn same_selector(a: &[u8; 4], b: &[u8; 4]) -> (same: bool)
    ensures
        same == (a@ == b@),
{
    let same = a[0] == b[0] && a[1] == b[1] && a[2] == b[2] && a[3] == b[3];
    if same {
        assert(a@ =~= b@);
    }
    same
}

} // verus!
