use bacon_cipher::codecs::char_codec::CharCodec;
use bacon_cipher::stega::dom::{DomData, DomNode};
use bacon_cipher::stega::tags::{SimpleTagSteganographer, Tag};
use bacon_cipher::stega::{ParsedInputElement, ParsedInputType};
use bacon_cipher::Steganographer;
use std::iter::FromIterator;

fn text(s: &str) -> DomNode {
    DomNode { data: DomData::Text(s.to_string()), children: Vec::new() }
}

fn element(name: &str, children: Vec<DomNode>) -> DomNode {
    DomNode { data: DomData::Element(name.to_string()), children }
}

#[test]
fn tags_creation() {
    let tag1 = Tag::new(None, None);
    assert!(tag1.start_node() == &None);
    assert!(tag1.end_node() == &None);

    let tag2 = Tag::new(Some("<tag>"), Some("</tag>"));
    assert!(tag2.start_node() == &Some("<tag>".to_string()));
    assert!(tag2.end_node() == &Some("</tag>".to_string()));

    let tag3 = Tag::empty();
    assert!(tag3.start_node() == &None);
    assert!(tag3.end_node() == &None);
}

#[test]
fn tag_nodes_to_string() {
    let tag = Tag::new(Some("<tag>"), Some("</tag>"));
    assert!(tag.start_node_string() == ("<tag>"));
    assert!(tag.end_node_string() == ("</tag>"));
}

#[test]
fn disguise_a_secret_to_a_char_array_define_b_tag() {
    let codec = CharCodec::new('a', 'b');
    let s = SimpleTagSteganographer::new(
        Tag::empty(),
        Tag::new(
            Some("<b>"),
            Some("</b>")));

    let public = "This is a public message that contains a secret one";
    let output = s.disguise(
        &['M', 'y', ' ', 's', 'e', 'c', 'r', 'e', 't'],
        &Vec::from_iter(public.chars()),
        &codec);
    let string = String::from_iter(output.unwrap().iter());
    assert!(string == "T<b>h</b>i<b>s</b> <b>is</b> a <b>pu</b>b<b>l</b>ic m<b>e</b>ss<b>a</b>ge tha<b>t</b> c<b>o</b>ntains <b>a</b> se<b>c</b>re<b>t</b> one");
}

#[test]
fn disguise_a_secret_to_a_char_array_define_a_tag() {
    let codec = CharCodec::new('a', 'b');
    let s = SimpleTagSteganographer::new(
        Tag::new(
            Some("<b>"),
            Some("</b>")),
        Tag::empty());

    let public = "This is a public message that contains a secret one";
    let output = s.disguise(
        &['M', 'y', ' ', 's', 'e', 'c', 'r', 'e', 't'],
        &Vec::from_iter(public.chars()),
        &codec);
    let string = String::from_iter(output.unwrap().iter());
    assert!(string == "<b>T</b>h<b>i</b>s is <b>a</b> pu<b>b</b>l<b>ic</b> <b>m</b>e<b>ss</b>a<b>ge</b> <b>tha</b>t <b>c</b>o<b>ntains</b> a <b>se</b>c<b>re</b>t <b>o</b>ne");
}

#[test]
fn disguise_a_secret_to_a_char_array_define_a_b_tags() {
    let codec = CharCodec::new('a', 'b');
    let s = SimpleTagSteganographer::new(
        Tag::new(
            Some("<i>"),
            Some("</i>")),
        Tag::new(
            Some("<b>"),
            Some("</b>")));

    let public = "This is a public message that contains a secret one";
    let output = s.disguise(
        &['M', 'y', ' ', 's', 'e', 'c', 'r', 'e', 't'],
        &Vec::from_iter(public.chars()),
        &codec);
    let string = String::from_iter(output.unwrap().iter());
    assert!(string == "<i>T</i><b>h</b><i>i</i><b>s</b> <b>is</b> <i>a</i> <b>pu</b><i>b</i><b>l</b><i>ic</i> <i>m</i><b>e</b><i>ss</i><b>a</b><i>ge</i> <i>tha</i><b>t</b> <i>c</i><b>o</b><i>ntains</i> <b>a</b> <i>se</i><b>c</b><i>re</i><b>t</b> <i>o</i>ne");
}

#[test]
fn disguise_a_secret_to_a_char_array_no_output_optimization() {
    let codec = CharCodec::new('a', 'b');
    let s = SimpleTagSteganographer::new(
        Tag::empty(),
        Tag::new(
            Some("<b>"),
            Some("</b>")))
        .no_optimize_disguise_output();

    let public = "This is a public message that contains a secret one";
    let output = s.disguise(
        &['M', 'y', ' ', 's', 'e', 'c', 'r', 'e', 't'],
        &Vec::from_iter(public.chars()),
        &codec);
    let string = String::from_iter(output.unwrap().iter());
    assert!(string == "T<b>h</b>i<b>s</b> <b>i</b><b>s</b> a <b>p</b><b>u</b>b<b>l</b>ic m<b>e</b>ss<b>a</b>ge tha<b>t</b> c<b>o</b>ntains <b>a</b> se<b>c</b>re<b>t</b> one");
}

#[test]
fn disguise_a_secret_to_a_short_char_array() {
    let codec = CharCodec::new('a', 'b');
    let s = SimpleTagSteganographer::new(
        Tag::empty(),
        Tag::new(
            Some("<b>"),
            Some("</b>")));

    let public = "Short public";
    let output = s.disguise(
        &['M', 'y', ' ', 's', 'e', 'c', 'r', 'e', 't'],
        &Vec::from_iter(public.chars()),
        &codec);
    let string = String::from_iter(output.unwrap().iter());
    assert!(string == "S<b>h</b>o<b>rt</b> <b>p</b>u<b>bl</b>i<b>c</b>");
}

#[test]
fn reveal_a_secret_from_a_char_array_define_b_tag() {
    let codec = CharCodec::new('a', 'b');
    let s = SimpleTagSteganographer::new(
        Tag::empty(),
        Tag::new(
            Some("<b>"),
            Some("</b>")));
    let public = "T<b>h</b>i<b>s</b> <b>i</b><b>s</b> a <b>p</b><b>u</b>b<b>l</b>ic m<b>e</b>ss<b>a</b>ge tha<b>t</b> c<b>o</b>ntains <b>a</b> se<b>c</b>re<b>t</b> one";
    let output = s.reveal_secret(
        &Vec::from_iter(public.chars()),
        &codec);
    assert!(output.is_ok());
    let string = String::from_iter(output.unwrap().iter());
    assert!(string.starts_with("MYSECRET"));
}

#[test]
fn reveal_a_secret_from_a_char_array_define_a_tag() {
    let codec = CharCodec::new('a', 'b');
    let s = SimpleTagSteganographer::new(
        Tag::new(
            Some("<b>"),
            Some("</b>")),
        Tag::empty());
    let public = "<b>T</b>h<b>i</b>s is <b>a</b> pu<b>b</b>l<b>ic</b> <b>m</b>e<b>ss</b>a<b>ge</b> <b>tha</b>t <b>c</b>o<b>ntains</b> a <b>se</b>c<b>re</b>t <b>o</b>ne";
    let output = s.reveal_secret(
        &Vec::from_iter(public.chars()),
        &codec);
    assert!(output.is_ok());
    let string = String::from_iter(output.unwrap().iter());
    assert!(string.starts_with("MYSECRET"));
}

#[test]
fn reveal_a_secret_from_a_char_array_define_a_b_tags() {
    let codec = CharCodec::new('a', 'b');
    let s = SimpleTagSteganographer::new(
        Tag::new(
            Some("<i>"),
            Some("</i>")),
        Tag::new(
            Some("<b>"),
            Some("</b>")));
    let public = "<i>T</i><b>h</b><i>i</i><b>s</b> <b>is</b> <i>a</i> <b>pu</b><i>b</i><b>l</b><i>ic</i> <i>m</i><b>e</b><i>ss</i><b>a</b><i>ge</i> <i>tha</i><b>t</b> <i>c</i><b>o</b><i>ntains</i> <b>a</b> <i>se</i><b>c</b><i>re</i><b>t</b> <i>o</i>ne";
    let output = s.reveal_secret(
        &Vec::from_iter(public.chars()),
        &codec);
    assert!(output.is_ok());
    let string = String::from_iter(output.unwrap().iter());
    assert!(string.starts_with("MYSECRET"));
}

#[test]
fn reveal_a_secret_from_a_char_array_elements_contain_non_alphabetic_characters_too() {
    let codec = CharCodec::new('a', 'b');
    let s = SimpleTagSteganographer::new(
        Tag::empty(),
        Tag::new(
            Some("<b>"),
            Some("</b>")));
    // The public string contains <b>p111u</b>. The 111 should be ignored
    let public = "T<b>h</b>i<b>s</b> <b>is</b> a <b>p111u</b>b<b>l</b>ic m<b>e</b>ss<b>a</b>ge tha<b>t</b> c<b>o</b>ntains <b>a</b> se<b>c</b>re<b>t</b> one";
    let output = s.reveal_secret(
        &Vec::from_iter(public.chars()),
        &codec);
    assert!(output.is_ok());
    let string = String::from_iter(output.unwrap().iter());
    assert!(string.starts_with("MYSECRET"));
}

#[test]
fn parse_a_document_to_tags() {
    let document = "<grandparent><parent>childB1</parent>childA<parent>childB2</parent></grandparent>";
    let input: Vec<char> = document.chars().collect();
    let s = SimpleTagSteganographer::new(
        Tag::empty(),
        Tag::new(
            Some("<parent>"),
            Some("</parent>")));
    let parse_result = s.parse_input(&input);
    assert_eq!(parse_result.len(), 3);
    assert!(parse_result.contains(&ParsedInputElement::new("childB1".to_string(), ParsedInputType::B)));
    assert!(parse_result.contains(&ParsedInputElement::new("childB2".to_string(), ParsedInputType::B)));
    assert!(parse_result.contains(&ParsedInputElement::new("childA".to_string(), ParsedInputType::A)));
}

#[test]
fn parse_a_tree_depth_first() {
    let document = DomNode {
        data: DomData::Other,
        children: vec![
            text("outside"),
            element("html", vec![
                element("head", Vec::new()),
                element("body", vec![
                    text("one"),
                    element("b", vec![text("two"), element("i", vec![text("three")])]),
                    DomNode { data: DomData::Other, children: vec![text("hidden")] },
                    element("i", vec![text("four")]),
                    text("five"),
                ]),
            ]),
        ],
    };
    let only_b = SimpleTagSteganographer::new(Tag::empty(), Tag::new(Some("<b>"), Some("</b>")));
    assert_eq!(
        vec![
            ParsedInputElement::new("one".to_string(), ParsedInputType::A),
            ParsedInputElement::new("two".to_string(), ParsedInputType::B),
            ParsedInputElement::new("three".to_string(), ParsedInputType::A),
            ParsedInputElement::new("four".to_string(), ParsedInputType::A),
            ParsedInputElement::new("five".to_string(), ParsedInputType::A),
        ],
        only_b.parse(&document));
    let only_a = SimpleTagSteganographer::new(Tag::new(Some("<b>"), Some("</b>")), Tag::empty());
    assert_eq!(
        vec![
            ParsedInputElement::new("one".to_string(), ParsedInputType::B),
            ParsedInputElement::new("two".to_string(), ParsedInputType::A),
            ParsedInputElement::new("three".to_string(), ParsedInputType::B),
            ParsedInputElement::new("four".to_string(), ParsedInputType::B),
            ParsedInputElement::new("five".to_string(), ParsedInputType::B),
        ],
        only_a.parse(&document));
    let both = SimpleTagSteganographer::new(
        Tag::new(Some("<i>"), Some("</i>")),
        Tag::new(Some("<b>"), Some("</b>")));
    assert_eq!(
        vec![
            ParsedInputElement::new("two".to_string(), ParsedInputType::B),
            ParsedInputElement::new("three".to_string(), ParsedInputType::A),
            ParsedInputElement::new("four".to_string(), ParsedInputType::A),
        ],
        both.parse(&document));
}

#[test]
fn do_parse_appends_under_the_given_parent() {
    let s = SimpleTagSteganographer::new(Tag::empty(), Tag::new(Some("<b>"), Some("</b>")));
    let mut acc = vec![ParsedInputElement::new("kept".to_string(), ParsedInputType::Other)];
    s.do_parse(&text("t"), &mut acc, Some(ParsedInputType::B));
    s.do_parse(&text("u"), &mut acc, Some(ParsedInputType::Other));
    s.do_parse(&text("v"), &mut acc, None);
    s.do_parse(&text("w"), &mut acc, Some(ParsedInputType::A));
    assert_eq!(
        vec![
            ParsedInputElement::new("kept".to_string(), ParsedInputType::Other),
            ParsedInputElement::new("t".to_string(), ParsedInputType::B),
            ParsedInputElement::new("u".to_string(), ParsedInputType::A),
            ParsedInputElement::new("w".to_string(), ParsedInputType::A),
        ],
        acc);
}

#[test]
fn set_optimize_disguise_switches_the_fusing() {
    let codec = CharCodec::new('a', 'b');
    let mut s = SimpleTagSteganographer::new(
        Tag::new(Some("<i>"), Some("</i>")),
        Tag::new(Some("<b>"), Some("</b>")));
    let public: Vec<char> = "ab cde".chars().collect();
    let fused: Vec<char> = "<i>ab</i> <i>c</i><b>d</b><i>e</i>".chars().collect();
    let plain: Vec<char> = "<i>a</i><i>b</i> <i>c</i><b>d</b><i>e</i>".chars().collect();
    assert_eq!(Ok(fused.clone()), s.disguise(&['c'], &public, &codec));
    s.set_optimize_disguise(false);
    assert_eq!(Ok(plain), s.disguise(&['c'], &public, &codec));
    s.set_optimize_disguise(true);
    assert_eq!(Ok(fused), s.disguise(&['c'], &public, &codec));
}

#[test]
fn tag_round_trips() {
    let codec = CharCodec::new('a', 'b');
    let public: Vec<char> =
        "The quick brown fox jumps over the lazy dog and then it runs far, far away.".chars().collect();
    let secret: Vec<char> = "Bacon ok".chars().collect();
    let both = SimpleTagSteganographer::new(
        Tag::new(Some("<i>"), Some("</i>")),
        Tag::new(Some("<b>"), Some("</b>")));
    let only_a = SimpleTagSteganographer::new(Tag::new(Some("<em>"), Some("</em>")), Tag::empty());
    let only_b = SimpleTagSteganographer::new(Tag::empty(), Tag::new(Some("<u>"), Some("</u>")))
        .no_optimize_disguise_output();
    for s in [both, only_a, only_b] {
        let disguised = s.disguise(&secret, &public, &codec).unwrap();
        let revealed = String::from_iter(s.reveal_secret(&disguised, &codec).unwrap().iter());
        assert!(revealed.starts_with("BACONOK"));
    }
}
