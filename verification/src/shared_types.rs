//! Value types that the stake table contract shares with other contracts:
//! curve points and the record of a registered node.

use vstd::prelude::*;
use crate::abi::{
    address_word, concat_words, decode_address, decode_u64, decode_u8, encode_address,
    encode_u64, encode_u8, lemma_u64_word_round_trip, push_word, u64_word, u8_word,
    word_address, word_at, word_u64, word_u8, words_of, Address, U256,
};

verus! {

/// A point of the BN254 curve group G1, by its affine coordinates.
#[derive(Clone, Copy, Debug, Default, PartialEq, Eq, Hash)]
pub struct G1Point {
    /// The x coordinate.
    pub x: U256,
    /// The y coordinate.
    pub y: U256,
}

impl G1Point {
    /// The words of the value, one after the other.
    pub open spec fn abi_encoding(&self) -> Seq<u8> {
        self.x@ + self.y@
    }

    /// Whether the value is the one read from the words of `data` that start
    /// at word `at`.
    pub open spec fn decoded_from(&self, data: Seq<u8>, at: int) -> bool {
        &&& self.x@ == word_at(data, at)
        &&& self.y@ == word_at(data, at + 1)
    }

    /// Adds the words of the value to `words`.
    pub fn push_words(&self, words: &mut Vec<[u8; 32]>)
        ensures
            final(words)@.len() == old(words)@.len() + 2,
            concat_words(final(words)@) == concat_words(old(words)@) + self.abi_encoding(),
    {
        push_word(words, self.x.0);
        push_word(words, self.y.0);
        assert(concat_words(words@) =~= concat_words(old(words)@) + self.abi_encoding());
    }

    /// Reads the value from the 2 words that start at `words[at]`.
    pub fn read_words(words: &Vec<[u8; 32]>, at: usize) -> (value: G1Point)
        requires
            at + 2 <= words@.len(),
        ensures
            forall|data: Seq<u8>|
                #[trigger] words_of(words@, data) ==> value.decoded_from(data, at as int),
    {
        let available = words.len();
        assert(at + 2 <= available);
        let value = G1Point {
            x: U256(words[at]),
            y: U256(words[at + 1]),
        };
        assert forall|data: Seq<u8>| #[trigger] words_of(words@, data) implies value.decoded_from(
            data,
            at as int,
        ) by {
            assert(words@[at as int]@ == word_at(data, at as int));
            assert(words@[at as int + 1]@ == word_at(data, at as int + 1));
        }
        value
    }

    /// The value takes 2 words.
    pub proof fn lemma_encoding_len(&self)
        ensures
            self.abi_encoding().len() == 64,
    {
    }

    /// The value is read back from its own words, wherever they stand in
    /// `data`.
    pub proof fn lemma_read_back(&self, data: Seq<u8>, at: int)
        requires
            0 <= at,
            32 * at + 64 <= data.len(),
            data.subrange(32 * at, 32 * at + 64) == self.abi_encoding(),
        ensures
            self.decoded_from(data, at),
    {
        let enc = self.abi_encoding();
        assert(word_at(data, at) =~= enc.subrange(0, 32));
        assert(enc.subrange(0, 32) =~= self.x@);
        assert(word_at(data, at + 1) =~= enc.subrange(32, 64));
        assert(enc.subrange(32, 64) =~= self.y@);
    }

    /// At most one value is read from given words.
    pub proof fn lemma_decoding_unique(a: G1Point, b: G1Point, data: Seq<u8>, at: int)
        requires
            a.decoded_from(data, at),
            b.decoded_from(data, at),
        ensures
            a == b,
    {
        assert(a.x.0 =~= b.x.0);
        assert(a.y.0 =~= b.y.0);
    }
}

/// A point of the BN254 curve group G2, by its affine coordinates over the
/// quadratic extension field.
#[derive(Clone, Copy, Debug, Default, PartialEq, Eq, Hash)]
pub struct G2Point {
    /// First component of the x coordinate.
    pub x_0: U256,
    /// Second component of the x coordinate.
    pub x_1: U256,
    /// First component of the y coordinate.
    pub y_0: U256,
    /// Second component of the y coordinate.
    pub y_1: U256,
}

impl G2Point {
    /// The words of the value, one after the other.
    pub open spec fn abi_encoding(&self) -> Seq<u8> {
        self.x_0@ + self.x_1@ + self.y_0@ + self.y_1@
    }

    /// Whether the value is the one read from the words of `data` that start
    /// at word `at`.
    pub open spec fn decoded_from(&self, data: Seq<u8>, at: int) -> bool {
        &&& self.x_0@ == word_at(data, at)
        &&& self.x_1@ == word_at(data, at + 1)
        &&& self.y_0@ == word_at(data, at + 2)
        &&& self.y_1@ == word_at(data, at + 3)
    }

    /// Adds the words of the value to `words`.
    pub fn push_words(&self, words: &mut Vec<[u8; 32]>)
        ensures
            final(words)@.len() == old(words)@.len() + 4,
            concat_words(final(words)@) == concat_words(old(words)@) + self.abi_encoding(),
    {
        push_word(words, self.x_0.0);
        push_word(words, self.x_1.0);
        push_word(words, self.y_0.0);
        push_word(words, self.y_1.0);
        assert(concat_words(words@) =~= concat_words(old(words)@) + self.abi_encoding());
    }

    /// Reads the value from the 4 words that start at `words[at]`.
    pub fn read_words(words: &Vec<[u8; 32]>, at: usize) -> (value: G2Point)
        requires
            at + 4 <= words@.len(),
        ensures
            forall|data: Seq<u8>|
                #[trigger] words_of(words@, data) ==> value.decoded_from(data, at as int),
    {
        let available = words.len();
        assert(at + 4 <= available);
        let value = G2Point {
            x_0: U256(words[at]),
            x_1: U256(words[at + 1]),
            y_0: U256(words[at + 2]),
            y_1: U256(words[at + 3]),
        };
        assert forall|data: Seq<u8>| #[trigger] words_of(words@, data) implies value.decoded_from(
            data,
            at as int,
        ) by {
            assert(words@[at as int]@ == word_at(data, at as int));
            assert(words@[at as int + 1]@ == word_at(data, at as int + 1));
            assert(words@[at as int + 2]@ == word_at(data, at as int + 2));
            assert(words@[at as int + 3]@ == word_at(data, at as int + 3));
        }
        value
    }

    /// The value takes 4 words.
    pub proof fn lemma_encoding_len(&self)
        ensures
            self.abi_encoding().len() == 128,
    {
    }

    /// The value is read back from its own words, wherever they stand in
    /// `data`.
    pub proof fn lemma_read_back(&self, data: Seq<u8>, at: int)
        requires
            0 <= at,
            32 * at + 128 <= data.len(),
            data.subrange(32 * at, 32 * at + 128) == self.abi_encoding(),
        ensures
            self.decoded_from(data, at),
    {
        let enc = self.abi_encoding();
        assert(word_at(data, at) =~= enc.subrange(0, 32));
        assert(enc.subrange(0, 32) =~= self.x_0@);
        assert(word_at(data, at + 1) =~= enc.subrange(32, 64));
        assert(enc.subrange(32, 64) =~= self.x_1@);
        assert(word_at(data, at + 2) =~= enc.subrange(64, 96));
        assert(enc.subrange(64, 96) =~= self.y_0@);
        assert(word_at(data, at + 3) =~= enc.subrange(96, 128));
        assert(enc.subrange(96, 128) =~= self.y_1@);
    }

    /// At most one value is read from given words.
    pub proof fn lemma_decoding_unique(a: G2Point, b: G2Point, data: Seq<u8>, at: int)
        requires
            a.decoded_from(data, at),
            b.decoded_from(data, at),
        ensures
            a == b,
    {
        assert(a.x_0.0 =~= b.x_0.0);
        assert(a.x_1.0 =~= b.x_1.0);
        assert(a.y_0.0 =~= b.y_0.0);
        assert(a.y_1.0 =~= b.y_1.0);
    }
}

/// A point of the twisted Edwards curve over the BN254 scalar field.
#[derive(Clone, Copy, Debug, Default, PartialEq, Eq, Hash)]
pub struct EdOnBN254Point {
    /// The x coordinate.
    pub x: U256,
    /// The y coordinate.
    pub y: U256,
}

impl EdOnBN254Point {
    /// The words of the value, one after the other.
    pub open spec fn abi_encoding(&self) -> Seq<u8> {
        self.x@ + self.y@
    }

    /// Whether the value is the one read from the words of `data` that start
    /// at word `at`.
    pub open spec fn decoded_from(&self, data: Seq<u8>, at: int) -> bool {
        &&& self.x@ == word_at(data, at)
        &&& self.y@ == word_at(data, at + 1)
    }

    /// Adds the words of the value to `words`.
    pub fn push_words(&self, words: &mut Vec<[u8; 32]>)
        ensures
            final(words)@.len() == old(words)@.len() + 2,
            concat_words(final(words)@) == concat_words(old(words)@) + self.abi_encoding(),
    {
        push_word(words, self.x.0);
        push_word(words, self.y.0);
        assert(concat_words(words@) =~= concat_words(old(words)@) + self.abi_encoding());
    }

    /// Reads the value from the 2 words that start at `words[at]`.
    pub fn read_words(words: &Vec<[u8; 32]>, at: usize) -> (value: EdOnBN254Point)
        requires
            at + 2 <= words@.len(),
        ensures
            forall|data: Seq<u8>|
                #[trigger] words_of(words@, data) ==> value.decoded_from(data, at as int),
    {
        let available = words.len();
        assert(at + 2 <= available);
        let value = EdOnBN254Point {
            x: U256(words[at]),
            y: U256(words[at + 1]),
        };
        assert forall|data: Seq<u8>| #[trigger] words_of(words@, data) implies value.decoded_from(
            data,
            at as int,
        ) by {
            assert(words@[at as int]@ == word_at(data, at as int));
            assert(words@[at as int + 1]@ == word_at(data, at as int + 1));
        }
        value
    }

    /// The value takes 2 words.
    pub proof fn lemma_encoding_len(&self)
        ensures
            self.abi_encoding().len() == 64,
    {
    }

    /// The value is read back from its own words, wherever they stand in
    /// `data`.
    pub proof fn lemma_read_back(&self, data: Seq<u8>, at: int)
        requires
            0 <= at,
            32 * at + 64 <= data.len(),
            data.subrange(32 * at, 32 * at + 64) == self.abi_encoding(),
        ensures
            self.decoded_from(data, at),
    {
        let enc = self.abi_encoding();
        assert(word_at(data, at) =~= enc.subrange(0, 32));
        assert(enc.subrange(0, 32) =~= self.x@);
        assert(word_at(data, at + 1) =~= enc.subrange(32, 64));
        assert(enc.subrange(32, 64) =~= self.y@);
    }

    /// At most one value is read from given words.
    pub proof fn lemma_decoding_unique(a: EdOnBN254Point, b: EdOnBN254Point, data: Seq<u8>, at: int)
        requires
            a.decoded_from(data, at),
            b.decoded_from(data, at),
        ensures
            a == b,
    {
        assert(a.x.0 =~= b.x.0);
        assert(a.y.0 =~= b.y.0);
    }
}

/// The record that the stake table keeps of a registered node.
#[derive(Clone, Copy, Debug, Default, PartialEq, Eq, Hash)]
pub struct Node {
    /// Account that registered the node.
    pub account: Address,
    /// Kind of stake: native or restaked.
    pub stake_type: u8,
    /// Amount staked.
    pub balance: u64,
    /// Epoch in which the registration takes effect.
    pub register_epoch: u64,
    /// Epoch in which the exit takes effect, zero while none is requested.
    pub exit_epoch: u64,
    /// Key that verifies the state signatures of the node.
    pub schnorr_vk: EdOnBN254Point,
}

impl Node {
    /// The words of the value, one after the other.
    pub open spec fn abi_encoding(&self) -> Seq<u8> {
        address_word(self.account@) + u8_word(self.stake_type) + u64_word(self.balance) + u64_word(self.register_epoch) + u64_word(self.exit_epoch) + self.schnorr_vk.abi_encoding()
    }

    /// Whether the value is the one read from the words of `data` that start
    /// at word `at`.
    pub open spec fn decoded_from(&self, data: Seq<u8>, at: int) -> bool {
        &&& self.account@ == word_address(word_at(data, at))
        &&& self.stake_type == word_u8(word_at(data, at + 1))
        &&& self.balance == word_u64(word_at(data, at + 2))
        &&& self.register_epoch == word_u64(word_at(data, at + 3))
        &&& self.exit_epoch == word_u64(word_at(data, at + 4))
        &&& self.schnorr_vk.decoded_from(data, at + 5)
    }

    /// Adds the words of the value to `words`.
    pub fn push_words(&self, words: &mut Vec<[u8; 32]>)
        ensures
            final(words)@.len() == old(words)@.len() + 7,
            concat_words(final(words)@) == concat_words(old(words)@) + self.abi_encoding(),
    {
        push_word(words, encode_address(&self.account));
        push_word(words, encode_u8(self.stake_type));
        push_word(words, encode_u64(self.balance));
        push_word(words, encode_u64(self.register_epoch));
        push_word(words, encode_u64(self.exit_epoch));
        self.schnorr_vk.push_words(words);
        assert(concat_words(words@) =~= concat_words(old(words)@) + self.abi_encoding());
    }

    /// Reads the value from the 7 words that start at `words[at]`.
    pub fn read_words(words: &Vec<[u8; 32]>, at: usize) -> (value: Node)
        requires
            at + 7 <= words@.len(),
        ensures
            forall|data: Seq<u8>|
                #[trigger] words_of(words@, data) ==> value.decoded_from(data, at as int),
    {
        let available = words.len();
        assert(at + 7 <= available);
        let value = Node {
            account: decode_address(&words[at]),
            stake_type: decode_u8(&words[at + 1]),
            balance: decode_u64(&words[at + 2]),
            register_epoch: decode_u64(&words[at + 3]),
            exit_epoch: decode_u64(&words[at + 4]),
            schnorr_vk: EdOnBN254Point::read_words(words, at + 5),
        };
        assert forall|data: Seq<u8>| #[trigger] words_of(words@, data) implies value.decoded_from(
            data,
            at as int,
        ) by {
            assert(words@[at as int]@ == word_at(data, at as int));
            assert(words@[at as int + 1]@ == word_at(data, at as int + 1));
            assert(words@[at as int + 2]@ == word_at(data, at as int + 2));
            assert(words@[at as int + 3]@ == word_at(data, at as int + 3));
            assert(words@[at as int + 4]@ == word_at(data, at as int + 4));
            assert(words@[at as int + 5]@ == word_at(data, at as int + 5));
            assert(words@[at as int + 6]@ == word_at(data, at as int + 6));
        }
        value
    }

    /// The value takes 7 words.
    pub proof fn lemma_encoding_len(&self)
        ensures
            self.abi_encoding().len() == 224,
    {
        lemma_u64_word_round_trip(self.balance);
        lemma_u64_word_round_trip(self.register_epoch);
        lemma_u64_word_round_trip(self.exit_epoch);
        self.schnorr_vk.lemma_encoding_len();
    }

    /// The value is read back from its own words, wherever they stand in
    /// `data`.
    pub proof fn lemma_read_back(&self, data: Seq<u8>, at: int)
        requires
            0 <= at,
            32 * at + 224 <= data.len(),
            data.subrange(32 * at, 32 * at + 224) == self.abi_encoding(),
        ensures
            self.decoded_from(data, at),
    {
        let enc = self.abi_encoding();
        lemma_u64_word_round_trip(self.balance);
        lemma_u64_word_round_trip(self.register_epoch);
        lemma_u64_word_round_trip(self.exit_epoch);
        self.schnorr_vk.lemma_encoding_len();
        assert(word_at(data, at) =~= enc.subrange(0, 32));
        assert(enc.subrange(0, 32) =~= address_word(self.account@));
        assert(word_address(address_word(self.account@)) =~= self.account@);
        assert(word_at(data, at + 1) =~= enc.subrange(32, 64));
        assert(enc.subrange(32, 64) =~= u8_word(self.stake_type));
        assert(word_at(data, at + 2) =~= enc.subrange(64, 96));
        assert(enc.subrange(64, 96) =~= u64_word(self.balance));
        assert(word_at(data, at + 3) =~= enc.subrange(96, 128));
        assert(enc.subrange(96, 128) =~= u64_word(self.register_epoch));
        assert(word_at(data, at + 4) =~= enc.subrange(128, 160));
        assert(enc.subrange(128, 160) =~= u64_word(self.exit_epoch));
        assert(data.subrange(32 * (at + 5), 32 * (at + 5) + 64) =~= enc.subrange(160, 224));
        assert(enc.subrange(160, 224) =~= self.schnorr_vk.abi_encoding());
        self.schnorr_vk.lemma_read_back(data, at + 5);
    }

    /// At most one value is read from given words.
    pub proof fn lemma_decoding_unique(a: Node, b: Node, data: Seq<u8>, at: int)
        requires
            a.decoded_from(data, at),
            b.decoded_from(data, at),
        ensures
            a == b,
    {
        assert(a.account.0 =~= b.account.0);
        EdOnBN254Point::lemma_decoding_unique(a.schnorr_vk, b.schnorr_vk, data, at + 5);
    }
}

} // verus!
