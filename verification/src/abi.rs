//! Contract ABI words: how the values of the stake table contract are laid
//! out in call data, return data and logs.
//!
//! Every value of the contract is static: it takes a fixed number of 32-byte
//! words, and a sequence of values is encoded as their words one after the
//! other. The encoder and the decoder of the ABI are called behind two
//! trusted functions; what a word means for each type is verified here.

use vstd::prelude::*;
use vstd::bytes::{
    lemma_auto_spec_u32_to_from_le_bytes, lemma_auto_spec_u64_to_from_le_bytes,
    spec_u32_from_le_bytes, spec_u32_to_le_bytes, spec_u64_from_le_bytes, spec_u64_to_le_bytes,
    u32_from_le_bytes, u32_to_le_bytes, u64_from_le_bytes, u64_to_le_bytes,
};

verus! {

/// Number of bytes in a word.
pub const WORD_LEN: usize = 32;

/// Number of bytes in a function or error selector.
pub const SELECTOR_LEN: usize = 4;

/// The encoder counts the bytes of what it writes in 32 bits: it takes fewer
/// words than this at once.
pub const MAX_WORDS: usize = 0x0800_0000;

/// The encoder counts the bytes of what it writes in 32 bits, and a
/// character takes up to four bytes: it takes a text of fewer characters
/// than this. With this bound the encoding of a text, its offset and length
/// words included, stays below 2 GiB, which also a machine with 32 bits
/// allocates in one piece.
pub const MAX_TEXT_LEN: usize = 0x1fff_ff00;

/// Why call data, return data or a log could not be decoded.
#[derive(Clone, Copy, Debug, PartialEq, Eq, Structural, Hash)]
pub enum AbiError {
    /// The data is shorter than a selector or starts with another selector.
    WrongSelector,
    /// The data does not hold the words of the expected values.
    InvalidData,
}

/// An account or contract address: 20 bytes.
#[derive(Clone, Copy, Debug, Default, PartialEq, Eq, Hash)]
pub struct Address(pub [u8; 20]);

impl View for Address {
    type V = Seq<u8>;

    open spec fn view(&self) -> Seq<u8> {
        self.0@
    }
}

/// An unsigned 256-bit integer, held as its 32 big-endian bytes.
#[derive(Clone, Copy, Debug, Default, PartialEq, Eq, Hash)]
pub struct U256(pub [u8; 32]);

impl View for U256 {
    type V = Seq<u8>;

    open spec fn view(&self) -> Seq<u8> {
        self.0@
    }
}

/// `n` zero bytes.
pub open spec fn zeros(n: nat) -> Seq<u8> {
    Seq::new(n, |i: int| 0u8)
}

/// The word of a `uint64`: the value in big-endian order, padded with zero
/// bytes on the left.
pub open spec fn u64_word(x: u64) -> Seq<u8> {
    zeros(24) + spec_u64_to_le_bytes(x).reverse()
}

/// The word of a `uint32`.
pub open spec fn u32_word(x: u32) -> Seq<u8> {
    zeros(28) + spec_u32_to_le_bytes(x).reverse()
}

/// The word of a `uint8`.
pub open spec fn u8_word(x: u8) -> Seq<u8> {
    zeros(31).push(x)
}

/// The word of an address: its 20 bytes, padded with zero bytes on the left.
pub open spec fn address_word(a: Seq<u8>) -> Seq<u8> {
    zeros(12) + a
}

/// The `uint64` read from a word: its low eight bytes. The upper bytes are
/// not looked at.
pub open spec fn word_u64(w: Seq<u8>) -> u64 {
    spec_u64_from_le_bytes(w.subrange(24, 32).reverse())
}

/// The `uint32` read from a word: its low four bytes.
pub open spec fn word_u32(w: Seq<u8>) -> u32 {
    spec_u32_from_le_bytes(w.subrange(28, 32).reverse())
}

/// The `uint8` read from a word: its last byte.
pub open spec fn word_u8(w: Seq<u8>) -> u8 {
    w[31]
}

/// The address read from a word: its last 20 bytes.
pub open spec fn word_address(w: Seq<u8>) -> Seq<u8> {
    w.subrange(12, 32)
}

/// The `i`-th word of `data`.
pub open spec fn word_at(data: Seq<u8>, i: int) -> Seq<u8> {
    data.subrange(32 * i, 32 * i + 32)
}

/// The bytes of `words` one after the other.
pub open spec fn concat_words(words: Seq<[u8; 32]>) -> Seq<u8>
    decreases words.len(),
{
    if words.len() == 0 {
        Seq::empty()
    } else {
        concat_words(words.drop_last()) + words.last()@
    }
}

/// `words` are the first words of `data`, in order.
pub open spec fn words_of(words: Seq<[u8; 32]>, data: Seq<u8>) -> bool {
    &&& 32 * words.len() <= data.len()
    &&& forall|i: int| 0 <= i < words.len() ==> (#[trigger] words[i])@ == word_at(data, i)
}

/// The error type of the outside ABI decoder, carried through unread.
#[verifier::external_type_specification]
#[verifier::external_body]
pub struct ExEthabiError(ethers::abi::Error);

/// Calls `ethers::abi::encode` on `words`, each handed over as a `bytes32`
/// token. Trusted: a sequence of one-word static tokens is encoded as the
/// words themselves, one after the other, with nothing before, between or
/// behind them. The encoder adds up the lengths in 32 bits, so the words
/// must take less than 4 GiB.
#[verifier::external_body]
pub(crate) fn abi_encode_words(words: &Vec<[u8; 32]>) -> (out: Vec<u8>)
    requires
        words@.len() < MAX_WORDS,
    ensures
        out@ == concat_words(words@),
{
    let tokens: Vec<ethers::abi::Token> =
        words.iter().map(|w| ethers::abi::Token::FixedBytes(w.to_vec())).collect();
    ethers::abi::encode(&tokens)
}

/// Calls `ethers::abi::decode` on `data` for `count` values of type
/// `bytes32`. Trusted: on data that holds at least `count` words the call
/// succeeds and returns the first `count` words of `data` in order; bytes
/// behind them are ignored. The caller makes sure of the length, so that no
/// more is allocated than `data` is long.
#[verifier::external_body]
pub(crate) fn abi_decode_words(count: usize, data: &[u8]) -> (out: Result<
    Vec<[u8; 32]>,
    ethers::abi::Error,
>)
    requires
        32 * count <= data@.len(),
    ensures
        out.is_ok(),
        out matches Ok(words) ==> words@.len() == count && words_of(words@, data@),
{
    let types = vec![ethers::abi::ParamType::FixedBytes(32); count];
    let tokens = ethers::abi::decode(&types, data)?;
    Ok(tokens.into_iter().map(|t| t.into_fixed_bytes().unwrap().try_into().unwrap()).collect())
}

/// The text that `data` holds as one ABI value of type `string`, if `data`
/// is the encoding of one.
pub uninterp spec fn abi_string_decoding(data: Seq<u8>) -> Option<Seq<char>>;

/// The ABI encoding of `text` as one value of type `string`.
pub uninterp spec fn abi_string_encoding(text: Seq<char>) -> Seq<u8>;

/// Whether `usize` has at least 64 bits.
pub open spec fn wide_usize() -> bool {
    usize::BITS >= 64
}

/// The text that `data` holds as one ABI value of type `string`, as far as
/// this machine reads it: where `usize` has fewer than 64 bits no text is
/// read.
pub open spec fn readable_text(data: Seq<u8>) -> Option<Seq<char>> {
    if wide_usize() {
        abi_string_decoding(data)
    } else {
        None
    }
}

/// Calls `<String as ethers::abi::AbiDecode>::decode` on `data`. Trusted:
/// whether the call succeeds, and the text it returns, depend on the bytes
/// of `data` alone. The decoder adds an offset and a length that it reads
/// from `data` in `usize`; each is below 2^32, so the sums cannot overflow
/// where `usize` has 64 bits.
#[verifier::external_body]
pub(crate) fn abi_decode_string(data: &[u8]) -> (out: Option<String>)
    requires
        wide_usize(),
    ensures
        match out {
            Some(text) => abi_string_decoding(data@) == Some(text@),
            None => abi_string_decoding(data@).is_none(),
        },
{
    <String as ethers::abi::AbiDecode>::decode(data).ok()
}

/// Calls `<String as ethers::abi::AbiEncode>::encode` on a copy of `text`.
/// Trusted: the bytes returned depend on the characters of `text` alone.
/// The encoder adds up the lengths in 32 bits, so the text, padded and with
/// its offset and length words, must take less than 4 GiB; the bound keeps
/// it below 2 GiB.
#[verifier::external_body]
pub(crate) fn abi_encode_string(text: &String) -> (out: Vec<u8>)
    requires
        text@.len() < MAX_TEXT_LEN,
    ensures
        out@ == abi_string_encoding(text@),
{
    <String as ethers::abi::AbiEncode>::encode(text.clone())
}

/// The text that `data` holds as one ABI value of type `string`, if it holds
/// one and this machine reads texts.
pub fn decode_string(data: &[u8]) -> (out: Option<String>)
    ensures
        match out {
            Some(text) => readable_text(data@) == Some(text@),
            None => readable_text(data@).is_none(),
        },
{
    if usize::BITS >= 64 {
        abi_decode_string(data)
    } else {
        None
    }
}

/// The first `count` words of `data`, or `InvalidData` if `data` is shorter.
pub fn decode_words(count: usize, data: &[u8]) -> (out: Result<Vec<[u8; 32]>, AbiError>)
    ensures
        match out {
            Ok(words) => words@.len() == count && words_of(words@, data@),
            Err(e) => e == AbiError::InvalidData && 32 * count > data@.len(),
        },
{
    if data.len() / WORD_LEN < count {
        return Err(AbiError::InvalidData);
    }
    match abi_decode_words(count, data) {
        Ok(words) => Ok(words),
        Err(_) => Err(AbiError::InvalidData),
    }
}

/// Whether `data` starts with the selector `selector`.
pub open spec fn has_selector(data: Seq<u8>, selector: Seq<u8>) -> bool {
    data.len() >= 4 && data.subrange(0, 4) == selector
}

/// The four bytes of a selector read as one number, the first byte the
/// most significant.
pub open spec fn selector_value(selector: Seq<u8>) -> int {
    selector[0] * 0x1000000 + selector[1] * 0x10000 + selector[2] * 0x100 + selector[3]
}

/// The bytes of `data` behind the selector.
pub open spec fn arguments(data: Seq<u8>) -> Seq<u8> {
    data.subrange(4, data.len() as int)
}

/// Whether `data` starts with `selector`.
pub fn starts_with_selector(data: &[u8], selector: &[u8; 4]) -> (found: bool)
    ensures
        found == has_selector(data@, selector@),
{
    if data.len() < SELECTOR_LEN {
        return false;
    }
    let found = data[0] == selector[0] && data[1] == selector[1] && data[2] == selector[2]
        && data[3] == selector[3];
    proof {
        let head = data@.subrange(0, 4);
        if found {
            assert(head =~= selector@);
        } else {
            assert(head[0] == data@[0] && head[1] == data@[1] && head[2] == data@[2] && head[3]
                == data@[3]);
        }
    }
    found
}

/// Call data: `selector`, then `words`.
pub fn encode_call(selector: &[u8; 4], words: &Vec<[u8; 32]>) -> (out: Vec<u8>)
    requires
        words@.len() < MAX_WORDS,
    ensures
        out@ == selector@ + concat_words(words@),
{
    let mut out: Vec<u8> = Vec::new();
    out.push(selector[0]);
    out.push(selector[1]);
    out.push(selector[2]);
    out.push(selector[3]);
    assert(out@ =~= selector@);
    let mut body = abi_encode_words(words);
    out.append(&mut body);
    out
}

/// The first `count` words behind the selector of `data`. Fails with
/// `WrongSelector` if `data` does not start with `selector`, else with
/// `InvalidData` if fewer than `count` words follow it.
pub fn decode_call(selector: &[u8; 4], count: usize, data: &[u8]) -> (out: Result<
    Vec<[u8; 32]>,
    AbiError,
>)
    ensures
        match out {
            Ok(words) => {
                &&& has_selector(data@, selector@)
                &&& words@.len() == count
                &&& words_of(words@, arguments(data@))
            },
            Err(e) => if has_selector(data@, selector@) {
                e == AbiError::InvalidData && 32 * count > data@.len() - 4
            } else {
                e == AbiError::WrongSelector
            },
        },
{
    if !starts_with_selector(data, selector) {
        return Err(AbiError::WrongSelector);
    }
    decode_words(count, vstd::slice::slice_subrange(data, SELECTOR_LEN, data.len()))
}

/// Adds `word` to `words`.
pub fn push_word(words: &mut Vec<[u8; 32]>, word: [u8; 32])
    ensures
        final(words)@ == old(words)@.push(word),
        concat_words(final(words)@) == concat_words(old(words)@) + word@,
{
    words.push(word);
    assert(words@.drop_last() =~= old(words)@);
}

/// The word of a `uint64`.
pub fn encode_u64(x: u64) -> (w: [u8; 32])
    ensures
        w@ == u64_word(x),
{
    let le = u64_to_le_bytes(x);
    let mut w = [0u8; 32];
    let mut i: usize = 0;
    while i < 8
        invariant
            i <= 8,
            le@ == spec_u64_to_le_bytes(x),
            le@.len() == 8,
            forall|j: int| 0 <= j < 32 - i ==> w@[j] == 0u8,
            forall|j: int| 32 - i <= j < 32 ==> w@[j] == le@[31 - j],
        decreases 8 - i,
    {
        w[31 - i] = le[i];
        i += 1;
    }
    assert(w@ =~= u64_word(x));
    w
}

/// The word of a `uint32`.
pub fn encode_u32(x: u32) -> (w: [u8; 32])
    ensures
        w@ == u32_word(x),
{
    let le = u32_to_le_bytes(x);
    let mut w = [0u8; 32];
    let mut i: usize = 0;
    while i < 4
        invariant
            i <= 4,
            le@ == spec_u32_to_le_bytes(x),
            le@.len() == 4,
            forall|j: int| 0 <= j < 32 - i ==> w@[j] == 0u8,
            forall|j: int| 32 - i <= j < 32 ==> w@[j] == le@[31 - j],
        decreases 4 - i,
    {
        w[31 - i] = le[i];
        i += 1;
    }
    assert(w@ =~= u32_word(x));
    w
}

/// The word of a `uint8`.
pub fn encode_u8(x: u8) -> (w: [u8; 32])
    ensures
        w@ == u8_word(x),
{
    let mut w = [0u8; 32];
    w[31] = x;
    assert(w@ =~= u8_word(x));
    w
}

/// The word of an address.
pub fn encode_address(a: &Address) -> (w: [u8; 32])
    ensures
        w@ == address_word(a@),
{
    let mut w = [0u8; 32];
    let mut i: usize = 0;
    while i < 20
        invariant
            i <= 20,
            forall|j: int| 0 <= j < 12 ==> w@[j] == 0u8,
            forall|j: int| 12 <= j < 12 + i ==> w@[j] == a.0@[j - 12],
        decreases 20 - i,
    {
        w[12 + i] = a.0[i];
        i += 1;
    }
    assert(w@ =~= address_word(a@));
    w
}

/// The `uint64` that a word holds in its low eight bytes.
pub fn decode_u64(w: &[u8; 32]) -> (x: u64)
    ensures
        x == word_u64(w@),
{
    let mut le: Vec<u8> = Vec::new();
    let mut i: usize = 0;
    while i < 8
        invariant
            i <= 8,
            le@.len() == i,
            forall|j: int| 0 <= j < i ==> le@[j] == w@[31 - j],
        decreases 8 - i,
    {
        le.push(w[31 - i]);
        i += 1;
    }
    assert(le@ =~= w@.subrange(24, 32).reverse());
    u64_from_le_bytes(le.as_slice())
}

/// The `uint32` that a word holds in its low four bytes.
pub fn decode_u32(w: &[u8; 32]) -> (x: u32)
    ensures
        x == word_u32(w@),
{
    let mut le: Vec<u8> = Vec::new();
    let mut i: usize = 0;
    while i < 4
        invariant
            i <= 4,
            le@.len() == i,
            forall|j: int| 0 <= j < i ==> le@[j] == w@[31 - j],
        decreases 4 - i,
    {
        le.push(w[31 - i]);
        i += 1;
    }
    assert(le@ =~= w@.subrange(28, 32).reverse());
    u32_from_le_bytes(le.as_slice())
}

/// The `uint8` that a word holds in its last byte.
pub fn decode_u8(w: &[u8; 32]) -> (x: u8)
    ensures
        x == word_u8(w@),
{
    w[31]
}

/// The address that a word holds in its last 20 bytes.
pub fn decode_address(w: &[u8; 32]) -> (a: Address)
    ensures
        a@ == word_address(w@),
{
    let mut bytes = [0u8; 20];
    let mut i: usize = 0;
    while i < 20
        invariant
            i <= 20,
            forall|j: int| 0 <= j < i ==> bytes@[j] == w@[12 + j],
        decreases 20 - i,
    {
        bytes[i] = w[12 + i];
        i += 1;
    }
    assert(bytes@ =~= word_address(w@));
    Address(bytes)
}

/// A `uint64` is read back from its own word.
pub proof fn lemma_u64_word_round_trip(x: u64)
    ensures
        u64_word(x).len() == 32,
        word_u64(u64_word(x)) == x,
{
    lemma_auto_spec_u64_to_from_le_bytes();
    let le = spec_u64_to_le_bytes(x);
    assert(u64_word(x).subrange(24, 32) =~= le.reverse());
    assert(le.reverse().reverse() =~= le);
}

/// A `uint32` is read back from its own word.
pub proof fn lemma_u32_word_round_trip(x: u32)
    ensures
        u32_word(x).len() == 32,
        word_u32(u32_word(x)) == x,
{
    lemma_auto_spec_u32_to_from_le_bytes();
    let le = spec_u32_to_le_bytes(x);
    assert(u32_word(x).subrange(28, 32) =~= le.reverse());
    assert(le.reverse().reverse() =~= le);
}

} // verus!
