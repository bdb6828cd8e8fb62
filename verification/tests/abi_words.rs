use ethers::abi::{decode, encode, ParamType, Token};
use ethers::types::{H160, U256 as OutsideU256};
use sequencer::abi::{
    decode_address, decode_call, decode_u32, decode_u64, decode_u8, decode_words, encode_address,
    encode_call, encode_u32, encode_u64, encode_u8, push_word, starts_with_selector, AbiError,
    Address, SELECTOR_LEN, WORD_LEN,
};

fn word_of_uint(value: u128) -> [u8; 32] {
    encode(&[Token::Uint(OutsideU256::from(value))]).try_into().unwrap()
}

#[test]
fn word_sizes() {
    assert_eq!(WORD_LEN, 32);
    assert_eq!(SELECTOR_LEN, 4);
}

#[test]
fn integer_words_are_big_endian_and_left_padded() {
    let mut expected = [0u8; 32];
    expected[24..].copy_from_slice(&[1, 2, 3, 4, 5, 6, 7, 8]);
    assert_eq!(encode_u64(0x0102030405060708), expected);
    let mut expected = [0u8; 32];
    expected[28..].copy_from_slice(&[0xde, 0xad, 0xbe, 0xef]);
    assert_eq!(encode_u32(0xdeadbeef), expected);
    let mut expected = [0u8; 32];
    expected[31] = 0x7f;
    assert_eq!(encode_u8(0x7f), expected);
    assert_eq!(encode_u64(0), [0u8; 32]);
}

#[test]
fn integer_words_agree_with_the_abi_encoder() {
    for value in [0u64, 1, 255, 256, 0xffff_ffff, 1 << 40, u64::MAX] {
        assert_eq!(encode_u64(value), word_of_uint(value as u128));
    }
    for value in [0u32, 1, 0x1234_5678, u32::MAX] {
        assert_eq!(encode_u32(value), word_of_uint(value as u128));
    }
    for value in [0u8, 1, 0x80, u8::MAX] {
        assert_eq!(encode_u8(value), word_of_uint(value as u128));
    }
}

#[test]
fn address_word_agrees_with_the_abi_encoder() {
    let mut bytes = [0u8; 20];
    for (i, b) in bytes.iter_mut().enumerate() {
        *b = 0xa0 + i as u8;
    }
    let word = encode_address(&Address(bytes));
    let expected: [u8; 32] = encode(&[Token::Address(H160(bytes))]).try_into().unwrap();
    assert_eq!(word, expected);
    assert_eq!(&word[..12], &[0u8; 12]);
    assert_eq!(&word[12..], &bytes);
    assert_eq!(decode_address(&word), Address(bytes));
}

#[test]
fn integers_are_read_back_from_their_words() {
    for value in [0u64, 1, 0x0102030405060708, u64::MAX] {
        assert_eq!(decode_u64(&encode_u64(value)), value);
    }
    for value in [0u32, 7, u32::MAX] {
        assert_eq!(decode_u32(&encode_u32(value)), value);
    }
    for value in [0u8, 7, u8::MAX] {
        assert_eq!(decode_u8(&encode_u8(value)), value);
    }
}

#[test]
fn reading_an_integer_looks_at_its_low_bytes_only() {
    let mut word = [0xffu8; 32];
    word[24..].copy_from_slice(&[0, 0, 0, 0, 0, 0, 1, 2]);
    assert_eq!(decode_u64(&word), 0x0102);
    assert_eq!(decode_u32(&word), 0x0102);
    assert_eq!(decode_u8(&word), 2);
    // The typed decoder of the ABI library does the same.
    let tokens = decode(&[ParamType::Uint(64)], &word).unwrap();
    let typed: u64 = ethers::abi::Detokenize::from_tokens(tokens).unwrap();
    assert_eq!(typed, 0x0102);
}

#[test]
fn reading_an_address_looks_at_its_last_twenty_bytes_only() {
    let mut word = [0xeeu8; 32];
    word[12..].copy_from_slice(&[3u8; 20]);
    assert_eq!(decode_address(&word), Address([3u8; 20]));
    let tokens = decode(&[ParamType::Address], &word).unwrap();
    assert_eq!(tokens, vec![Token::Address(H160([3u8; 20]))]);
}

#[test]
fn words_are_split_off_the_front_of_the_data() {
    let mut data = Vec::new();
    for i in 0..3u8 {
        data.extend_from_slice(&[i + 1; 32]);
    }
    data.extend_from_slice(&[9, 9, 9]);
    assert_eq!(decode_words(0, &data), Ok(vec![]));
    assert_eq!(decode_words(1, &data), Ok(vec![[1u8; 32]]));
    assert_eq!(decode_words(3, &data), Ok(vec![[1u8; 32], [2u8; 32], [3u8; 32]]));
    assert_eq!(decode_words(4, &data), Err(AbiError::InvalidData));
    assert_eq!(decode_words(1, &data[..31]), Err(AbiError::InvalidData));
    assert_eq!(decode_words(1, &[]), Err(AbiError::InvalidData));
    assert_eq!(decode_words(0, &[]), Ok(vec![]));
}

#[test]
fn call_data_is_selector_then_words() {
    let mut words = Vec::new();
    push_word(&mut words, [1u8; 32]);
    push_word(&mut words, [2u8; 32]);
    let data = encode_call(&[0xaa, 0xbb, 0xcc, 0xdd], &words);
    assert_eq!(data.len(), 68);
    assert_eq!(&data[..4], &[0xaa, 0xbb, 0xcc, 0xdd]);
    assert_eq!(&data[4..36], &[1u8; 32]);
    assert_eq!(&data[36..], &[2u8; 32]);
    assert_eq!(encode_call(&[1, 2, 3, 4], &Vec::new()), vec![1, 2, 3, 4]);
    assert_eq!(decode_call(&[0xaa, 0xbb, 0xcc, 0xdd], 2, &data), Ok(words));
    assert_eq!(decode_call(&[0xaa, 0xbb, 0xcc, 0xdd], 3, &data), Err(AbiError::InvalidData));
    assert_eq!(decode_call(&[0xaa, 0xbb, 0xcc, 0xde], 2, &data), Err(AbiError::WrongSelector));
    assert_eq!(decode_call(&[0xaa, 0xbb, 0xcc, 0xdd], 0, &data[..3]), Err(AbiError::WrongSelector));
}

#[test]
fn selector_is_compared_byte_by_byte() {
    assert!(starts_with_selector(&[1, 2, 3, 4], &[1, 2, 3, 4]));
    assert!(starts_with_selector(&[1, 2, 3, 4, 5], &[1, 2, 3, 4]));
    assert!(!starts_with_selector(&[1, 2, 3], &[1, 2, 3, 4]));
    assert!(!starts_with_selector(&[], &[0, 0, 0, 0]));
    for i in 0..4 {
        let mut data = [1u8, 2, 3, 4];
        data[i] ^= 0xff;
        assert!(!starts_with_selector(&data, &[1, 2, 3, 4]));
    }
}
