use bacon_cipher::chars::count_alphabetic;
use bacon_cipher::errors::BaconError;
use bacon_cipher::stega::{read_symbols, wrap_letters, ParsedInputElement, ParsedInputType};
use bacon_cipher::codecs::char_codec::CharCodec;
use bacon_cipher::text::{
    chars_of, contains_pattern, decimal, find, matches_at, push_all, push_str, remove_all,
};

fn chars(s: &str) -> Vec<char> {
    s.chars().collect()
}

#[test]
fn chars_of_a_string() {
    assert_eq!(vec!['a', '\u{e9}', ' ', '\u{4e2d}'], chars_of("a\u{e9} \u{4e2d}"));
    assert_eq!(Vec::<char>::new(), chars_of(""));
}

#[test]
fn a_piece_keeps_its_characters() {
    let piece = ParsedInputElement::of_chars(&['x', '\u{e9}', '1'], ParsedInputType::B);
    assert_eq!(vec!['x', '\u{e9}', '1'], piece.chars());
    assert_eq!(ParsedInputType::B, piece.kind());
    assert_eq!(ParsedInputElement::new("x\u{e9}1".to_string(), ParsedInputType::B), piece);
}

#[test]
fn find_gives_the_first_occurrence() {
    let text = chars("abcabcab");
    assert_eq!(Some(0), find(&text, &chars("abc"), 0));
    assert_eq!(Some(3), find(&text, &chars("abc"), 1));
    assert_eq!(Some(3), find(&text, &chars("abc"), 3));
    assert_eq!(None, find(&text, &chars("abc"), 4));
    assert_eq!(Some(6), find(&text, &chars("ab"), 4));
    assert_eq!(None, find(&text, &chars("abd"), 0));
    assert_eq!(None, find(&text, &chars("abcabcabc"), 0));
    assert_eq!(Some(2), find(&text, &[], 2));
    assert_eq!(Some(8), find(&text, &[], 8));
    assert_eq!(None, find(&text, &[], 9));
    assert_eq!(Some(0), find(&[], &[], 0));
}

#[test]
fn matches_at_a_position() {
    let text = chars("abcab");
    assert!(matches_at(&text, &chars("ca"), 2));
    assert!(!matches_at(&text, &chars("ca"), 1));
    assert!(!matches_at(&text, &chars("abc"), 3));
    assert!(matches_at(&text, &[], 5));
    assert!(!matches_at(&text, &[], 6));
}

#[test]
fn contains_a_pattern() {
    assert!(contains_pattern(&chars("**"), &chars("*")));
    assert!(!contains_pattern(&chars("*"), &chars("**")));
    assert!(contains_pattern(&chars("x"), &[]));
    assert!(contains_pattern(&[], &[]));
    assert!(!contains_pattern(&chars("abc"), &chars("ac")));
}

#[test]
fn remove_all_in_one_pass() {
    assert_eq!(chars("ab"), remove_all(&chars("a**b"), &chars("**")));
    assert_eq!(chars("a*b"), remove_all(&chars("a***b"), &chars("**")));
    assert_eq!(chars("ab"), remove_all(&chars("a****b"), &chars("**")));
    assert_eq!(chars("ab"), remove_all(&chars("aabb"), &chars("ab")));
    assert_eq!(chars("abc"), remove_all(&chars("abc"), &[]));
    assert_eq!(Vec::<char>::new(), remove_all(&chars("xyxy"), &chars("xy")));
    assert_eq!(chars("xy"), remove_all(&chars("xy"), &chars("xyz")));
}

#[test]
fn decimal_digits_of_numbers() {
    assert_eq!(chars("0"), decimal(0));
    assert_eq!(chars("7"), decimal(7));
    assert_eq!(chars("10"), decimal(10));
    assert_eq!(chars("4096"), decimal(4096));
    assert_eq!(
        chars("340282366920938463463374607431768211455"),
        decimal(u128::MAX));
}

#[test]
fn push_to_a_text() {
    let mut text = chars("ab");
    push_all(&mut text, &['c', 'd']);
    push_str(&mut text, "ef");
    push_all(&mut text, &[]);
    assert_eq!(chars("abcdef"), text);
}

#[test]
fn count_alphabetic_characters() {
    assert_eq!(0, count_alphabetic(&[]));
    assert_eq!(8, count_alphabetic(&chars("My secret 42!")));
    assert_eq!(3, count_alphabetic(&chars("\u{e9}\u{4e2d}\u{3a9} \u{1f49d}")));
}

#[test]
fn read_symbols_of_pieces() {
    let codec = CharCodec::new('a', 'b');
    let pieces = vec![
        ParsedInputElement::new("x1y".to_string(), ParsedInputType::A),
        ParsedInputElement::new("".to_string(), ParsedInputType::B),
        ParsedInputElement::new("z ".to_string(), ParsedInputType::B),
        ParsedInputElement::new("w".to_string(), ParsedInputType::Other),
    ];
    assert_eq!(vec!['a', 'a', 'b', 'b'], read_symbols(&pieces, &codec));
}

#[test]
fn wrap_letters_stops_at_a_value_that_is_neither() {
    let codec = CharCodec::new('a', 'b');
    let wrapped = wrap_letters(
        &chars("ab cd"), &['b', 'a', 'x', 'a'], &codec, &['<'], &['>'], &['{'], &['}']);
    assert_eq!(chars("{a}<b> cd"), wrapped);
}

#[test]
fn errors_show_their_message() {
    let general = BaconError::GeneralError("one".to_string());
    let codec = BaconError::CodecError("two".to_string());
    let stega = BaconError::SteganographerError("three".to_string());
    assert_eq!("one", general.to_string());
    assert_eq!("two", codec.to_string());
    assert_eq!("three", stega.to_string());
    assert_eq!("A general error occured", general.description());
    assert_eq!("An error coming from a codec occured", codec.description());
    assert_eq!("An error coming from a steganographer occured", stega.description());
}
