use bacon_cipher::codecs::char_codec::{CharCodec, CharCodecV2};
use bacon_cipher::errors::BaconError;
use bacon_cipher::stega::letter_case::LetterCaseSteganographer;
use bacon_cipher::Steganographer;
use std::iter::FromIterator;

#[test]
fn disguise_fails_because_of_public_message_length() {
    let codec = CharCodec::new('a', 'b');
    let s = LetterCaseSteganographer::new();
    let output = s.disguise(
        &['M', 'y', ' ', 's', 'e', 'c', 'r', 'e', 't'],
        &['M', 'y', ' ', 's', 'e', 'c', 'r', 'e', 't'],
        &codec);
    assert!(output.is_err())
}

#[test]
fn disguise_fails_because_of_no_alphabetic_secret() {
    let codec = CharCodec::new('a', 'b');
    let s = LetterCaseSteganographer::new();
    let public = "This is a public message that contains a secret one";
    let output = s.disguise(
        &['M', 'y', '1', 's', 'e', 'c', 'r', 'e', 't'],
        &Vec::from_iter(public.chars()),
        &codec);
    assert!(output.is_err())
}

#[test]
fn disguise_a_secret_to_a_char_array() {
    let codec = CharCodec::new('a', 'b');
    let s = LetterCaseSteganographer::new();
    let public = "This is a public message that contains a secret one";
    let output = s.disguise(
        &['M', 'y', ' ', 's', 'e', 'c', 'r', 'e', 't'],
        &Vec::from_iter(public.chars()),
        &codec);
    let string = String::from_iter(output.unwrap().iter());
    assert!(string == "tHiS IS a PUbLic mEssAge thaT cOntains A seCreT one");
}

#[test]
fn reveal_a_secret_from_a_char_array() {
    let codec = CharCodec::new('a', 'b');
    let s = LetterCaseSteganographer::new();
    let public = "tHiS IS a PUbLic mEssAge thaT cOntains A seCreT one";
    let output = s.reveal_secret(
        &Vec::from_iter(public.chars()),
        &codec);
    assert!(output.is_ok());
    let string = String::from_iter(output.unwrap().iter());
    assert!(string.starts_with("MYSECRET"));
}

#[test]
fn capacity_error_names_both_counts() {
    let codec = CharCodec::new('a', 'b');
    let s = LetterCaseSteganographer::new();
    let output = s.disguise(
        &['M', 'y', ' ', 's', 'e', 'c', 'r', 'e', 't'],
        &['M', 'y', ' ', 's', 'e', 'c', 'r', 'e', 't'],
        &codec);
    assert_eq!(
        Err(BaconError::SteganographerError(
            "The public input should have at least size 40. It was found to have 8".to_string())),
        output);
}

#[test]
fn capacity_is_enough_at_exactly_five_letters_for_each_letter() {
    let codec = CharCodec::new('a', 'b');
    let s = LetterCaseSteganographer::new();
    let output = s.disguise(&['m', 'y'], &Vec::from_iter("abc de,fghij".chars()), &codec);
    assert_eq!(Ok(Vec::from_iter("aBc DE,FgHIj".chars())), output);
    let output = s.disguise(&['m', 'y'], &Vec::from_iter("abc de,fghi9".chars()), &codec);
    assert_eq!(
        Err(BaconError::SteganographerError(
            "The public input should have at least size 10. It was found to have 9".to_string())),
        output);
}

#[test]
fn invalid_secret_is_reported_before_capacity() {
    let codec = CharCodec::new('a', 'b');
    let s = LetterCaseSteganographer::new();
    let output = s.disguise(&['a', '-', 'b'], &['x'], &codec);
    assert_eq!(
        Err(BaconError::SteganographerError(
            "The secret can contain only alphabetic characters. This is an invalid secret".to_string())),
        output);
}

#[test]
fn an_empty_secret_leaves_the_public_text() {
    let codec = CharCodec::new('a', 'b');
    let s = LetterCaseSteganographer::new();
    let public = Vec::from_iter("Any Text 42".chars());
    assert_eq!(Ok(public.clone()), s.disguise(&[], &public, &codec));
    assert_eq!(Ok(public.clone()), s.disguise(&[' ', ' '], &public, &codec));
}

#[test]
fn letter_case_round_trip() {
    let s = LetterCaseSteganographer::new();
    let public = Vec::from_iter(
        "The quick brown fox jumps over the lazy dog, AND THEN IT RUNS away 3 times!".chars());
    let secret = Vec::from_iter("Bacon Vj".chars());
    let first = CharCodec::new(1u8, 2u8);
    let disguised = s.disguise(&secret, &public, &first).unwrap();
    let revealed = String::from_iter(s.reveal_secret(&disguised, &first).unwrap().iter());
    assert!(revealed.starts_with("BACONUI"));
    let second = CharCodecV2::new(1u8, 2u8);
    let disguised = s.disguise(&secret, &public, &second).unwrap();
    let revealed = String::from_iter(s.reveal_secret(&disguised, &second).unwrap().iter());
    assert!(revealed.starts_with("BACONVJ"));
}

#[test]
fn reveal_reads_case_and_skips_other_characters() {
    let codec = CharCodec::new('a', 'b');
    let s = LetterCaseSteganographer::new();
    let output = s.reveal_secret(&Vec::from_iter("a1b-c D e  fG".chars()), &codec);
    assert_eq!(Ok(vec!['C', ' ']), output);
    assert_eq!(Ok(Vec::<char>::new()), s.reveal_secret(&Vec::from_iter("12 34".chars()), &codec));
}

#[test]
fn characters_beyond_ascii_follow_their_case_mapping() {
    let codec = CharCodec::new('a', 'b');
    let s = LetterCaseSteganographer::new();
    let output = s.disguise(&['z'], &Vec::from_iter("\u{e9}\u{c9}\u{df}\u{e9}\u{e9}".chars()), &codec);
    assert_eq!(Ok(Vec::from_iter("\u{c9}\u{e9}SS\u{c9}\u{c9}".chars())), output);
}
