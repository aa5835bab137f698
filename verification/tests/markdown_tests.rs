use bacon_cipher::codecs::char_codec::CharCodec;
use bacon_cipher::errors::BaconError;
use bacon_cipher::stega::markdown::{MarkdownSteganographer, Marker};
use bacon_cipher::stega::{ParsedInputElement, ParsedInputType};
use bacon_cipher::Steganographer;
use std::iter::FromIterator;

fn chars(s: &str) -> Vec<char> {
    s.chars().collect()
}

fn element(s: &str, tp: ParsedInputType) -> ParsedInputElement {
    ParsedInputElement::new(s.to_string(), tp)
}

#[test]
fn markers_creation() {
    let m1 = Marker::new(None, None);
    assert!(m1.start_marker() == &None);
    assert!(m1.end_marker() == &None);

    let m2 = Marker::new(Some("_"), Some("_"));
    assert!(m2.start_marker() == &Some("_".to_string()));
    assert!(m2.end_marker() == &Some("_".to_string()));

    let m3 = Marker::empty();
    assert!(m3.start_marker() == &None);
    assert!(m3.end_marker() == &None);
}

#[test]
fn markers_to_string() {
    let m = Marker::new(Some("__"), Some("__"));
    assert!(m.start_marker_string() == ("__"));
    assert!(m.end_marker_string() == ("__"));
}

#[test]
fn steganographer_creation_failure() {
    let res = MarkdownSteganographer::new(
        Marker::new(
            Some("*"),
            Some("*")),
        Marker::new(
            Some("**"),
            Some("**")));
    assert!(res.is_err());
    let res = MarkdownSteganographer::new(
        Marker::new(
            Some("*"),
            Some("!")),
        Marker::new(
            Some("@"),
            Some("**")));
    assert!(res.is_err());
    let res = MarkdownSteganographer::new(
        Marker::new(
            Some("!"),
            Some("*")),
        Marker::new(
            Some("**"),
            Some("@")));
    assert!(res.is_err());
    let res = MarkdownSteganographer::new(
        Marker::new(
            Some("**"),
            Some("**")),
        Marker::new(
            Some("*"),
            Some("*")));
    assert!(res.is_err());
    let res = MarkdownSteganographer::new(
        Marker::new(
            Some("**"),
            Some("@")),
        Marker::new(
            Some("*"),
            Some("!")));
    assert!(res.is_err());
    let res = MarkdownSteganographer::new(
        Marker::new(
            Some("@"),
            Some("**")),
        Marker::new(
            Some("!"),
            Some("*")));
    assert!(res.is_err());
    let res = MarkdownSteganographer::new(
        Marker::new(
            Some("**"),
            Some("**")),
        Marker::new(
            Some("**"),
            Some("**")));
    assert!(res.is_err());
    let res = MarkdownSteganographer::new(
        Marker::empty(),
        Marker::empty());
    assert!(res.is_err());
    let res = MarkdownSteganographer::new(
        Marker::new(
            Some("**"),
            None),
        Marker::new(
            Some("**"),
            Some("**")));
    assert!(res.is_err());
    let res = MarkdownSteganographer::new(
        Marker::new(
            None,
            Some("**")),
        Marker::new(
            Some("**"),
            Some("**")));
    assert!(res.is_err());
    let res = MarkdownSteganographer::new(
        Marker::new(
            Some("**"),
            Some("**")),
        Marker::new(
            None,
            Some("**")));
    assert!(res.is_err());
    let res = MarkdownSteganographer::new(
        Marker::new(
            Some("**"),
            Some("**")),
        Marker::new(
            Some("**"),
            None));
    assert!(res.is_err());
}

#[test]
fn disguise_a_secret_to_a_char_array_define_b_marker() {
    let codec = CharCodec::new('a', 'b');
    let s = MarkdownSteganographer::new(
        Marker::empty(),
        Marker::new(
            Some("*"),
            Some("*"))).unwrap();

    let public = "This is a public message that contains a secret one";
    let output = s.disguise(
        &['M', 'y', ' ', 's', 'e', 'c', 'r', 'e', 't'],
        &Vec::from_iter(public.chars()),
        &codec);
    let string = String::from_iter(output.unwrap().iter());
    assert!(string == "T*h*i*s* *is* a *pu*b*l*ic m*e*ss*a*ge tha*t* c*o*ntains *a* se*c*re*t* one");
}

#[test]
fn disguise_a_secret_to_a_char_array_define_a_marker() {
    let codec = CharCodec::new('a', 'b');
    let s = MarkdownSteganographer::new(
        Marker::new(
            Some("**"),
            Some("**")),
        Marker::empty()).unwrap();

    let public = "This is a public message that contains a secret one";
    let output = s.disguise(
        &['M', 'y', ' ', 's', 'e', 'c', 'r', 'e', 't'],
        &Vec::from_iter(public.chars()),
        &codec);
    let string = String::from_iter(output.unwrap().iter());
    assert!(string == "**T**h**i**s is **a** pu**b**l**ic** **m**e**ss**a**ge** **tha**t **c**o**ntains** a **se**c**re**t **o**ne");
}

#[test]
fn disguise_a_secret_to_a_char_array_define_a_b_markers() {
    let codec = CharCodec::new('a', 'b');
    let s = MarkdownSteganographer::new(
        Marker::new(
            Some("*"),
            Some("*")),
        Marker::new(
            Some("!"),
            Some("!"))).unwrap();

    let public = "This is a public message that contains a secret one";
    let output = s.disguise(
        &['M', 'y', ' ', 's', 'e', 'c', 'r', 'e', 't'],
        &Vec::from_iter(public.chars()),
        &codec);
    let string = String::from_iter(output.unwrap().iter());
    assert!(string == "*T*!h!*i*!s! !is! *a* !pu!*b*!l!*ic* *m*!e!*ss*!a!*ge* *tha*!t! *c*!o!*ntains* !a! *se*!c!*re*!t! *o*ne");
}

#[test]
fn reveal_a_secret_from_a_char_array_define_a_b_markers() {
    let codec = CharCodec::new('a', 'b');
    let s = MarkdownSteganographer::new(
        Marker::new(
            Some("*"),
            Some("*")),
        Marker::new(
            Some("!"),
            Some("!"))).unwrap();
    let public = "*T*!h!*i*!s! !is! *a* !pu!*b*!l!*ic* *m*!e!*ss*!a!*ge* *tha*!t! *c*!o!*ntains* !a! *se*!c!*re*!t! *o*ne";
    let output = s.reveal_secret(
        &Vec::from_iter(public.chars()),
        &codec);
    assert!(output.is_ok());
    let string = String::from_iter(output.unwrap().iter());
    assert!(string.starts_with("MYSECRET"));
}

#[test]
fn marker_is_empty() {
    assert!(Marker::empty().is_empty());
    assert!(!Marker::new(Some("*"), Some("*")).is_empty());
}

#[test]
fn reveal_a_secret_from_a_char_array_define_a_marker() {
    let codec = CharCodec::new('a', 'b');
    let s = MarkdownSteganographer::new(
        Marker::new(
            Some("**"),
            Some("**")),
        Marker::empty()).unwrap();
    let public = "**T**h**i**s is **a** pu**b**l**ic** **m**e**ss**a**ge** **tha**t **c**o**ntains** a **se**c**re**t **o**ne";
    let output = s.reveal_secret(
        &Vec::from_iter(public.chars()),
        &codec);
    assert!(output.is_ok());
    let string = String::from_iter(output.unwrap().iter());
    assert!(string.starts_with("MYSECRET"));
}

#[test]
fn reveal_a_secret_from_a_char_array_define_b_marker() {
    let codec = CharCodec::new('a', 'b');
    let s = MarkdownSteganographer::new(
        Marker::empty(),
        Marker::new(
            Some("*"),
            Some("*"))).unwrap();
    let public = "T*h*i*s* *is* a *pu*b*l*ic m*e*ss*a*ge tha*t* c*o*ntains *a* se*c*re*t* one";
    let output = s.reveal_secret(
        &Vec::from_iter(public.chars()),
        &codec);
    assert!(output.is_ok());
    let string = String::from_iter(output.unwrap().iter());
    assert!(string.starts_with("MYSECRET"));
}

#[test]
fn creation_errors_carry_their_messages() {
    let both_undefined = MarkdownSteganographer::new(Marker::empty(), Marker::empty());
    assert_eq!(
        Some(BaconError::SteganographerError(
            "Cannot create a marker with both A and B undefined".to_string())),
        both_undefined.err());
    let incomplete = MarkdownSteganographer::new(Marker::new(Some("**"), None), Marker::empty());
    assert_eq!(
        Some(BaconError::SteganographerError(
            "A marker should define both start and end".to_string())),
        incomplete.err());
    let incomplete = MarkdownSteganographer::new(Marker::empty(), Marker::new(None, Some("*")));
    assert_eq!(
        Some(BaconError::SteganographerError(
            "A marker should define both start and end".to_string())),
        incomplete.err());
    let overlapping = MarkdownSteganographer::new(
        Marker::new(Some("*"), Some("*")),
        Marker::new(Some("**"), Some("**")));
    match overlapping.err() {
        Some(BaconError::SteganographerError(message)) => {
            assert!(message.starts_with("Cannot create a marker with "));
            assert!(message.contains("\"**\""));
        }
        _ => panic!("an error of a steganographer is expected"),
    }
}

#[test]
fn creation_accepts_one_marker_or_two_that_do_not_overlap() {
    assert!(MarkdownSteganographer::new(Marker::new(Some("*"), Some("*")), Marker::empty()).is_ok());
    assert!(MarkdownSteganographer::new(Marker::empty(), Marker::new(Some("<"), Some(">"))).is_ok());
    assert!(MarkdownSteganographer::new(
        Marker::new(Some("*"), Some("*")),
        Marker::new(Some("!"), Some("!"))).is_ok());
    assert!(MarkdownSteganographer::new(
        Marker::new(Some("[["), Some("]]")),
        Marker::new(Some("(("), Some("))"))).is_ok());
    assert!(MarkdownSteganographer::new(
        Marker::new(Some(""), Some("*")),
        Marker::new(Some("!"), Some("!"))).is_err());
}

#[test]
fn parse_reads_marked_pieces_in_order() {
    let s = MarkdownSteganographer::new(
        Marker::new(Some("*"), Some("*")),
        Marker::new(Some("<"), Some(">"))).unwrap();
    let parsed = s.parse(&chars("ab*cd*e<f>**<gh"));
    assert_eq!(
        vec![
            element("cd", ParsedInputType::A),
            element("f", ParsedInputType::B),
            element("", ParsedInputType::A),
            element("gh", ParsedInputType::B),
        ],
        parsed);
}

#[test]
fn parse_stops_where_the_text_ends_behind_a_start_delimiter() {
    let s = MarkdownSteganographer::new(
        Marker::new(Some("*"), Some("*")),
        Marker::empty()).unwrap();
    assert_eq!(vec![element("a", ParsedInputType::A)], s.parse(&chars("*a**")));
    assert_eq!(Vec::<ParsedInputElement>::new(), s.parse(&chars("*")));
    assert_eq!(Vec::<ParsedInputElement>::new(), s.parse(&chars("")));
    assert_eq!(Vec::<ParsedInputElement>::new(), s.parse(&chars("no marker here")));
    assert_eq!(vec![element("rest", ParsedInputType::A)], s.parse(&chars("x*rest")));
}

#[test]
fn parse_with_empty_delimiters_finds_nothing() {
    let s = MarkdownSteganographer::new(
        Marker::new(Some(""), Some("")),
        Marker::empty()).unwrap();
    assert_eq!(Vec::<ParsedInputElement>::new(), s.parse(&chars("abc")));
    let s = MarkdownSteganographer::new(
        Marker::new(Some(""), Some("|")),
        Marker::empty()).unwrap();
    assert_eq!(
        vec![element("ab", ParsedInputType::A), element("c", ParsedInputType::A)],
        s.parse(&chars("ab|c")));
}

#[test]
fn find_first_occurence_of_a_start_delimiter() {
    let s = MarkdownSteganographer::new(
        Marker::new(Some("**"), Some("**")),
        Marker::empty()).unwrap();
    let text = chars("a**b**c");
    assert_eq!(Some(1), s.find_first_occurence_of(ParsedInputType::A, &text, 0));
    assert_eq!(Some(1), s.find_first_occurence_of(ParsedInputType::A, &text, 1));
    assert_eq!(Some(4), s.find_first_occurence_of(ParsedInputType::A, &text, 2));
    assert_eq!(None, s.find_first_occurence_of(ParsedInputType::A, &text, 5));
    assert_eq!(None, s.find_first_occurence_of(ParsedInputType::B, &text, 0));
    assert_eq!(None, s.find_first_occurence_of(ParsedInputType::Other, &text, 0));
}

#[test]
fn unmarked_characters_become_pieces_of_their_own() {
    let text = chars("x*a*yx*a*z");
    let parsed = vec![element("a", ParsedInputType::A), element("a", ParsedInputType::A)];
    let all = MarkdownSteganographer::replace_unmarked_characters_with(
        &text, parsed, &['*'], &['*'], ParsedInputType::B);
    assert_eq!(
        vec![
            element("x", ParsedInputType::B),
            element("a", ParsedInputType::A),
            element("y", ParsedInputType::B),
            element("x", ParsedInputType::B),
            element("a", ParsedInputType::A),
            element("z", ParsedInputType::B),
        ],
        all);
}

#[test]
fn a_piece_without_end_delimiter_covers_the_rest_of_the_text() {
    let text = chars("ab*cd");
    let parsed = vec![element("cd", ParsedInputType::A)];
    let all = MarkdownSteganographer::replace_unmarked_characters_with(
        &text, parsed, &['*'], &['*'], ParsedInputType::B);
    assert_eq!(
        vec![
            element("a", ParsedInputType::B),
            element("b", ParsedInputType::B),
            element("cd", ParsedInputType::A),
        ],
        all);
}

#[test]
fn a_piece_that_is_not_in_the_text_covers_nothing() {
    let text = chars("ab");
    let parsed = vec![element("q", ParsedInputType::A)];
    let all = MarkdownSteganographer::replace_unmarked_characters_with(
        &text, parsed, &['*'], &['*'], ParsedInputType::B);
    assert_eq!(
        vec![
            element("q", ParsedInputType::A),
            element("a", ParsedInputType::B),
            element("b", ParsedInputType::B),
        ],
        all);
    let none = MarkdownSteganographer::replace_unmarked_characters_with(
        &[], Vec::new(), &['*'], &['*'], ParsedInputType::A);
    assert_eq!(Vec::<ParsedInputElement>::new(), none);
}

#[test]
fn read_tokens_infers_the_undefined_side() {
    let only_a = MarkdownSteganographer::new(
        Marker::new(Some("["), Some("]")),
        Marker::empty()).unwrap();
    assert_eq!(
        vec![
            element("u", ParsedInputType::B),
            element("vw", ParsedInputType::A),
            element("x", ParsedInputType::B),
        ],
        only_a.read_tokens(&chars("u[vw]x")));
    let only_b = MarkdownSteganographer::new(
        Marker::empty(),
        Marker::new(Some("["), Some("]"))).unwrap();
    assert_eq!(
        vec![
            element("u", ParsedInputType::A),
            element("vw", ParsedInputType::B),
            element("x", ParsedInputType::A),
        ],
        only_b.read_tokens(&chars("u[vw]x")));
    let both = MarkdownSteganographer::new(
        Marker::new(Some("["), Some("]")),
        Marker::new(Some("("), Some(")"))).unwrap();
    assert_eq!(
        vec![element("vw", ParsedInputType::A), element("y", ParsedInputType::B)],
        both.read_tokens(&chars("u[vw]x(y)z")));
}

#[test]
fn reveal_with_a_missing_end_delimiter_reads_to_the_end() {
    let codec = CharCodec::new('a', 'b');
    let s = MarkdownSteganographer::new(
        Marker::new(Some("*"), Some("*")),
        Marker::empty()).unwrap();
    let output = s.reveal_secret(&chars("X*a*XX*a"), &codec);
    assert_eq!(Ok(vec!['Y']), output);
}

#[test]
fn marker_round_trips() {
    let codec = CharCodec::new('a', 'b');
    let public = chars("The quick brown fox jumps over the lazy dog and then it runs far, far away.");
    let secret = chars("Bacon ok");
    let both = MarkdownSteganographer::new(
        Marker::new(Some("[["), Some("]]")),
        Marker::new(Some("(("), Some("))"))).unwrap();
    let only_a = MarkdownSteganographer::new(
        Marker::new(Some("__"), Some("__")),
        Marker::empty()).unwrap();
    let only_b = MarkdownSteganographer::new(
        Marker::empty(),
        Marker::new(Some("<"), Some(">"))).unwrap();
    for s in [both, only_a, only_b] {
        let disguised = s.disguise(&secret, &public, &codec).unwrap();
        let revealed = String::from_iter(s.reveal_secret(&disguised, &codec).unwrap().iter());
        assert!(revealed.starts_with("BACONOK"));
    }
}

#[test]
fn disguise_goes_on_unmarked_when_the_secret_is_written() {
    let codec = CharCodec::new('a', 'b');
    let s = MarkdownSteganographer::new(
        Marker::new(Some("<"), Some(">")),
        Marker::new(Some("{"), Some("}"))).unwrap();
    let output = s.disguise(&['b'], &chars("a b-c d e f g"), &codec);
    assert_eq!(Ok(chars("<a> <b>-<c> <d> {e} f g")), output);
}
