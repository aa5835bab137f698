use bacon_cipher::codecs::char_codec::{CharCodec, CharCodecV2};
use bacon_cipher::BaconCodec;
use std::iter::FromIterator;

#[test]
fn encode_chars_to_cipher_of_chars() {
    let codec = CharCodec::new('a', 'b');
    let encoded = codec.encode(&['M', 'y', ' ', 's', 'e', 'c', 'r', 'e', 't']);
    let string = String::from_iter(encoded.iter());
    assert_eq!("ababbbabbabaaabaabaaaaababaaaaaabaabaaba", string);
}

#[test]
fn encode_all_chars_to_cipher_of_chars() {
    let codec = CharCodec::new('a', 'b');
    let encoded = codec.encode(&['a', 'b', 'c', 'd', 'e', 'f', 'g', 'h', 'i', 'j', 'k', 'l', 'm', 'n', 'o', 'p', 'q', 'r', 's', 't', 'u', 'v', 'w', 'x', 'y', 'z']);
    let string = String::from_iter(encoded.iter());
    assert_eq!("aaaaaaaaabaaabaaaabbaabaaaababaabbaaabbbabaaaabaaaabaabababaababbabbaaabbababbbaabbbbbaaaabaaabbaababaabbbaabbbabaabababbabbababbb", string);
}

#[test]
fn encode_all_chars_to_cipher_of_chars_v2() {
    let codec = CharCodecV2::new('a', 'b');
    let encoded = codec.encode(&['a', 'b', 'c', 'd', 'e', 'f', 'g', 'h', 'i', 'j', 'k', 'l', 'm', 'n', 'o', 'p', 'q', 'r', 's', 't', 'u', 'v', 'w', 'x', 'y', 'z']);
    let string = String::from_iter(encoded.iter());
    assert_eq!("aaaaaaaaabaaabaaaabbaabaaaababaabbaaabbbabaaaabaabababaababbabbaaabbababbbaabbbbbaaaabaaabbaababaabbbabaabababbabbababbbbbaaabbaab", string);
}

#[test]
fn encode_all_capital_chars_to_cipher_of_chars() {
    let codec = CharCodec::new('a', 'b');
    let encoded = codec.encode(&['A', 'B', 'C', 'D', 'E', 'F', 'G', 'H', 'I', 'J', 'K', 'L', 'M', 'N', 'O', 'P', 'Q', 'R', 'S', 'T', 'U', 'V', 'W', 'X', 'Y', 'Z']);
    let string = String::from_iter(encoded.iter());
    assert_eq!("aaaaaaaaabaaabaaaabbaabaaaababaabbaaabbbabaaaabaaaabaabababaababbabbaaabbababbbaabbbbbaaaabaaabbaababaabbbaabbbabaabababbabbababbb", string);
}

#[test]
fn encode_all_capital_chars_to_cipher_of_chars_v2() {
    let codec = CharCodecV2::new('a', 'b');
    let encoded = codec.encode(&['A', 'B', 'C', 'D', 'E', 'F', 'G', 'H', 'I', 'J', 'K', 'L', 'M', 'N', 'O', 'P', 'Q', 'R', 'S', 'T', 'U', 'V', 'W', 'X', 'Y', 'Z']);
    let string = String::from_iter(encoded.iter());
    assert_eq!("aaaaaaaaabaaabaaaabbaabaaaababaabbaaabbbabaaaabaabababaababbabbaaabbababbbaabbbbbaaaabaaabbaababaabbbabaabababbabbababbbbbaaabbaab", string);
}

#[test]
fn decode_cipher_of_chars_to_chars() {
    let codec = CharCodec::new('a', 'b');
    let decoded = codec.decode(&['a', 'b', 'a', 'b', 'b', 'b', 'a', 'b', 'b', 'a', 'b', 'a', 'a', 'a', 'b', 'a', 'a', 'b', 'a', 'a', 'a', 'a', 'a', 'b', 'a', 'b', 'a', 'a', 'a', 'a', 'a', 'a', 'b', 'a', 'a', 'b', 'a', 'a', 'b', 'a']);
    let string = String::from_iter(decoded.iter());
    assert_eq!("MYSECRET", string);
}

#[test]
fn decode_cipher_of_all_chars_to_chars() {
    let codec = CharCodec::new('a', 'b');
    let decoded = codec.decode(&['a', 'a', 'a', 'a', 'a', 'a', 'a', 'a', 'a', 'b', 'a', 'a', 'a', 'b', 'a', 'a', 'a', 'a',
        'b', 'b', 'a', 'a', 'b', 'a', 'a', 'a', 'a', 'b', 'a', 'b', 'a', 'a', 'b', 'b', 'a', 'a', 'a', 'b', 'b', 'b', 'a', 'b', 'a', 'a', 'a', 'a',
        'b', 'a', 'a', 'a', 'a', 'b', 'a', 'a', 'b', 'a', 'b', 'a', 'b', 'a', 'a', 'b', 'a', 'b', 'b', 'a', 'b', 'b', 'a', 'a', 'a', 'b', 'b', 'a',
        'b', 'a', 'b', 'b', 'b', 'a', 'a', 'b', 'b', 'b', 'b', 'b', 'a', 'a', 'a', 'a', 'b', 'a', 'a', 'a', 'b', 'b', 'a', 'a', 'b', 'a', 'b', 'a',
        'a', 'b', 'b', 'b', 'a', 'a', 'b', 'b', 'b', 'a', 'b', 'a', 'a', 'b', 'a', 'b', 'a', 'b', 'b', 'a', 'b', 'b', 'a', 'b', 'a', 'b', 'b', 'b']);
    let string = String::from_iter(decoded.iter());
    assert_eq!("ABCDEFGHIIKLMNOPQRSTUUWXYZ", string);
}

#[test]
fn encode_chars_to_cipher_of_bools() {
    let codec = CharCodec::new(false, true);
    let encoded = codec.encode(&['M', 'y', ' ', 's', 'e', 'c', 'r', 'e', 't']);
    assert_eq!(vec![false, true, false, true, true, true, false, true, true, false, true, false, false, false, true, false, false, true, false, false, false, false, false, true, false, true, false, false, false, false, false, false, true, false, false, true, false, false, true, false], encoded);
}

#[test]
fn decode_cipher_of_bools_to_chars() {
    let codec = CharCodec::new(false, true);
    let decoded = codec.decode(&vec![false, true, false, true, true, true, false, true, true, false, true, false, false, false, true, false, false, true, false, false, false, false, false, true, false, true, false, false, false, false, false, false, true, false, false, true, false, false, true, false]);
    let string = String::from_iter(decoded.iter());
    assert_eq!("MYSECRET", string);
}

#[test]
fn encode_my_gives_two_groups_and_decodes_back() {
    let codec = CharCodec::new('a', 'b');
    let encoded = codec.encode(&['M', 'Y']);
    assert_eq!(vec!['a', 'b', 'a', 'b', 'b', 'b', 'a', 'b', 'b', 'a'], encoded);
    let decoded = codec.decode(&encoded);
    assert_eq!(vec!['M', 'Y'], decoded);
}

#[test]
fn round_trip_gives_capital_letters_in_both_versions() {
    let content: Vec<char> = "TheQuickBrownFoxIumpsOuerTheLazyDog".chars().collect();
    let expected: Vec<char> = "THEQUICKBROWNFOXIUMPSOUERTHELAZYDOG".chars().collect();
    let first = CharCodec::new('a', 'b');
    assert_eq!(expected, first.decode(&first.encode(&content)));
    let second = CharCodecV2::new('a', 'b');
    assert_eq!(expected, second.decode(&second.encode(&content)));
}

#[test]
fn round_trip_of_shared_letters() {
    let content = ['J', 'v', 'j', 'V'];
    let first = CharCodec::new(0u8, 1u8);
    assert_eq!(vec!['I', 'U', 'I', 'U'], first.decode(&first.encode(&content)));
    let second = CharCodecV2::new(0u8, 1u8);
    assert_eq!(vec!['J', 'V', 'J', 'V'], second.decode(&second.encode(&content)));
}

#[test]
fn alphabets_give_the_same_pattern() {
    let content: Vec<char> = "Alphabet independence, 2 ways!".chars().collect();
    let chars = CharCodec::new('x', 'y').encode(&content);
    let bools = CharCodec::new(false, true).encode(&content);
    assert_eq!(chars.len(), bools.len());
    assert_eq!(chars.len(), 24 * 5);
    for i in 0..chars.len() {
        assert_eq!(chars[i] == 'y', bools[i]);
    }
    let chars = CharCodecV2::new('x', 'y').encode(&content);
    let bools = CharCodecV2::new(false, true).encode(&content);
    assert_eq!(chars.len(), bools.len());
    for i in 0..chars.len() {
        assert_eq!(chars[i] == 'y', bools[i]);
    }
}

#[test]
fn unknown_content_is_dropped() {
    let codec = CharCodec::new('a', 'b');
    assert_eq!(Vec::<char>::new(), codec.encode(&['1', ' ', '!', '\u{e9}']));
    assert_eq!(Vec::<char>::new(), codec.encode_elem(&'_'));
    assert_eq!(vec!['a', 'a', 'a', 'a', 'b'], codec.encode_elem(&'b'));
}

#[test]
fn unknown_groups_decode_to_a_space() {
    let codec = CharCodec::new('a', 'b');
    assert_eq!(' ', codec.decode_elems(&['b', 'b', 'b', 'b', 'b']));
    assert_eq!(' ', codec.decode_elems(&['b', 'b', 'a', 'a', 'a']));
    assert_eq!(' ', codec.decode_elems(&['a', 'a', 'a', 'a', 'x']));
    assert_eq!(' ', codec.decode_elems(&['a', 'a', 'a', 'a']));
    assert_eq!(' ', codec.decode_elems(&[]));
    assert_eq!('Z', codec.decode_elems(&['b', 'a', 'b', 'b', 'b']));
    let second = CharCodecV2::new('a', 'b');
    assert_eq!('Y', second.decode_elems(&['b', 'b', 'a', 'a', 'a']));
    assert_eq!('Z', second.decode_elems(&['b', 'b', 'a', 'a', 'b']));
    assert_eq!(' ', second.decode_elems(&['b', 'b', 'a', 'b', 'a']));
}

#[test]
fn a_short_last_group_decodes_to_a_space() {
    let codec = CharCodec::new('a', 'b');
    let decoded = codec.decode(&['a', 'a', 'a', 'a', 'b', 'a', 'a']);
    assert_eq!(vec!['B', ' '], decoded);
    assert_eq!(Vec::<char>::new(), codec.decode(&[]));
}

#[test]
fn equal_substitution_values_decode_to_the_first_letter() {
    let codec = CharCodec::new('a', 'a');
    assert_eq!(vec!['A', ' '], codec.decode(&['a', 'a', 'a', 'a', 'a', 'a', 'a', 'a', 'a', 'b']));
}

#[test]
fn codec_accessors() {
    let codec = CharCodec::new('x', 'y');
    assert_eq!('x', codec.a());
    assert_eq!('y', codec.b());
    assert_eq!(5, codec.encoded_group_size());
    assert!(codec.is_a(&'x'));
    assert!(!codec.is_a(&'y'));
    assert!(codec.is_b(&'y'));
    assert!(!codec.is_b(&'z'));
    let second = CharCodecV2::new(true, false);
    assert_eq!(true, second.a());
    assert_eq!(false, second.b());
    assert_eq!(5, second.encoded_group_size());
    assert!(second.is_a(&true));
    assert!(second.is_b(&false));
}

#[test]
fn default_codecs_substitute_with_capital_a_and_b() {
    let first: CharCodec<char> = Default::default();
    assert_eq!(vec!['A', 'B', 'A', 'B', 'B'], first.encode(&['m']));
    let second: CharCodecV2<char> = Default::default();
    assert_eq!(vec!['A', 'B', 'B', 'A', 'A'], second.encode(&['m']));
}
