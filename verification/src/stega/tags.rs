//! The steganographer that writes with tags: the characters of one
//! substitution value stand inside an element of HTML or XML.

use vstd::prelude::*;
use crate::errors::BaconError;
use crate::stega::dom::{html_document, parse_html, DomData, DomNode};
use crate::stega::markdown::{fuse, fused, MarkerView};
use crate::stega::{
    read_symbols,
    symbols_of,
    tokens_of,
    wrap_letters,
    wrapped,
    ParsedInputElement,
    ParsedInputType,
    Token,
};
use crate::text::{chars_of, push_all};
use crate::{decoded, encoded, BaconCodec, Steganographer};

verus! {

/// The tags that mark one substitution value: a start tag and an end tag, or
/// neither.
#[derive(Debug, Clone, PartialEq)]
pub struct Tag {
    start_node: Option<String>,
    end_node: Option<String>,
}

impl View for Tag {
    type V = MarkerView;

    closed spec fn view(&self) -> MarkerView {
        MarkerView {
            start: match self.start_node {
                Some(s) => Some(s@),
                None => None,
            },
            end: match self.end_node {
                Some(s) => Some(s@),
                None => None,
            },
        }
    }
}

impl Tag {
    /// Creates a tag from its start and its end.
    pub fn new(start_node: Option<&str>, end_node: Option<&str>) -> (tag: Tag)
        ensures
            tag@.start == match start_node {
                Some(s) => Some(s@),
                None => None,
            },
            tag@.end == match end_node {
                Some(s) => Some(s@),
                None => None,
            },
    {
        Tag {
            start_node: match start_node {
                Some(s) => Some(s.to_owned()),
                None => None,
            },
            end_node: match end_node {
                Some(s) => Some(s.to_owned()),
                None => None,
            },
        }
    }

    /// Creates the tag without start and end.
    pub fn empty() -> (tag: Tag)
        ensures
            tag@.is_empty(),
    {
        Tag { start_node: None, end_node: None }
    }

    /// The start tag.
    pub fn start_node(&self) -> (r: &Option<String>)
        ensures
            r is Some == self@.start is Some,
            r is Some ==> r->0@ == self@.start->0,
    {
        &self.start_node
    }

    /// The end tag.
    pub fn end_node(&self) -> (r: &Option<String>)
        ensures
            r is Some == self@.end is Some,
            r is Some ==> r->0@ == self@.end->0,
    {
        &self.end_node
    }

    /// The start tag as a string; the empty string where there is none.
    pub fn start_node_string(&self) -> (r: String)
        ensures
            r@ == self@.start_string(),
    {
        match &self.start_node {
            Some(s) => s.clone(),
            None => String::new(),
        }
    }

    /// The end tag as a string; the empty string where there is none.
    pub fn end_node_string(&self) -> (r: String)
        ensures
            r@ == self@.end_string(),
    {
        match &self.end_node {
            Some(s) => s.clone(),
            None => String::new(),
        }
    }
}

/// The characters of a tag; none where there is no tag.
fn tag_chars(tag: &Option<String>) -> (out: Vec<char>)
    ensures
        out@ == match tag {
            Some(s) => s@,
            None => Seq::empty(),
        },
{
    match tag {
        Some(s) => chars_of(s.as_str()),
        None => Vec::new(),
    }
}

/// The start tag of an element with the name `name`.
pub open spec fn start_tag(name: Seq<char>) -> Seq<char> {
    seq!['<'] + name + seq!['>']
}

/// What the text directly inside an element with the name `name` stands for.
pub open spec fn element_type(name: Seq<char>, a: MarkerView, b: MarkerView) -> ParsedInputType {
    if start_tag(name) == a.start_string() {
        ParsedInputType::A
    } else if start_tag(name) == b.start_string() {
        ParsedInputType::B
    } else {
        ParsedInputType::Other
    }
}

/// What the children of a node are read under: the type of the element, or
/// nothing for a node that is no element.
pub open spec fn type_below(node: DomNode, a: MarkerView, b: MarkerView) -> Option<ParsedInputType> {
    match node.data {
        DomData::Element(name) => Some(element_type(name@, a, b)),
        _ => None,
    }
}

/// The pieces that a run of text gives, read under `parent`. Inside an
/// element of `A` or `B` it stands for that value. Inside any other element it
/// stands for the value whose tag is undefined, `A` first, and gives nothing
/// where both tags are defined. Outside every element it gives nothing.
pub open spec fn text_tokens(
    contents: Seq<char>,
    parent: Option<ParsedInputType>,
    a: MarkerView,
    b: MarkerView,
) -> Seq<Token> {
    match parent {
        Some(ParsedInputType::A) => seq![Token { text: contents, tp: ParsedInputType::A }],
        Some(ParsedInputType::B) => seq![Token { text: contents, tp: ParsedInputType::B }],
        Some(ParsedInputType::Other) => if a.start is None {
            seq![Token { text: contents, tp: ParsedInputType::A }]
        } else if b.start is None {
            seq![Token { text: contents, tp: ParsedInputType::B }]
        } else {
            Seq::empty()
        },
        None => Seq::empty(),
    }
}

/// The pieces that a node gives by itself, read under `parent`.
pub open spec fn own_tokens(
    node: DomNode,
    parent: Option<ParsedInputType>,
    a: MarkerView,
    b: MarkerView,
) -> Seq<Token> {
    match node.data {
        DomData::Text(contents) => text_tokens(contents@, parent, a, b),
        _ => Seq::empty(),
    }
}

/// The pieces of a node and of all nodes below it, depth first, read under
/// `parent`.
pub open spec fn node_tokens(
    node: DomNode,
    parent: Option<ParsedInputType>,
    a: MarkerView,
    b: MarkerView,
) -> Seq<Token>
    decreases node, node.children.len() + 1,
{
    own_tokens(node, parent, a, b) + forest_tokens(node, node.children.len() as int, a, b)
}

/// The pieces of the first `count` children of a node, with all nodes below
/// them.
pub open spec fn forest_tokens(node: DomNode, count: int, a: MarkerView, b: MarkerView) -> Seq<Token>
    decreases node, count,
{
    if 0 < count <= node.children.len() {
        forest_tokens(node, count - 1, a, b) + node_tokens(
            node.children[count - 1],
            type_below(node, a, b),
            a,
            b,
        )
    } else {
        Seq::empty()
    }
}

/// Applies steganography with the tags of HTML or XML that surround
/// characters.
///
/// For instance: the characters between `<b>` and `</b>` stand for the `A`
/// substitution value, and those between `<i>` and `</i>` for the `B`
/// substitution value.
pub struct SimpleTagSteganographer {
    a_tag: Tag,
    b_tag: Tag,
    optimize_disguise: bool,
}

impl SimpleTagSteganographer {
    /// The tag of the `A` substitution value.
    pub closed spec fn a_tag(&self) -> MarkerView {
        self.a_tag@
    }

    /// The tag of the `B` substitution value.
    pub closed spec fn b_tag(&self) -> MarkerView {
        self.b_tag@
    }

    /// Whether `disguise` fuses neighbouring elements of one value.
    pub closed spec fn optimizes(&self) -> bool {
        self.optimize_disguise
    }

    /// Creates a steganographer from the tags of the two substitution values.
    /// It fuses neighbouring elements of one value.
    pub fn new(a_tag: Tag, b_tag: Tag) -> (s: SimpleTagSteganographer)
        ensures
            s.a_tag() == a_tag@,
            s.b_tag() == b_tag@,
            s.optimizes(),
    {
        SimpleTagSteganographer { a_tag, b_tag, optimize_disguise: true }
    }

    /// The same steganographer, but one that leaves every element as it is
    /// written.
    pub fn no_optimize_disguise_output(self) -> (s: Self)
        ensures
            s.a_tag() == self.a_tag(),
            s.b_tag() == self.b_tag(),
            !s.optimizes(),
    {
        let mut s = self;
        s.set_optimize_disguise(false);
        s
    }

    /// Sets whether `disguise` fuses neighbouring elements of one value.
    pub fn set_optimize_disguise(&mut self, b: bool)
        ensures
            final(self).a_tag() == old(self).a_tag(),
            final(self).b_tag() == old(self).b_tag(),
            final(self).optimizes() == b,
    {
        self.optimize_disguise = b;
    }

    /// Reads the pieces of a document: those of its root and of all nodes
    /// below it, depth first.
    pub fn parse(&self, document: &DomNode) -> (elements: Vec<ParsedInputElement>)
        ensures
            tokens_of(elements@) == node_tokens(*document, None, self.a_tag(), self.b_tag()),
    {
        let mut acc: Vec<ParsedInputElement> = Vec::new();
        proof {
            assert(tokens_of(acc@) =~= Seq::<Token>::empty());
        }
        self.do_parse(document, &mut acc, None);
        proof {
            assert(Seq::<Token>::empty() + node_tokens(*document, None, self.a_tag(), self.b_tag())
                =~= node_tokens(*document, None, self.a_tag(), self.b_tag()));
        }
        acc
    }

    /// Appends to `acc` the pieces of `node` and of all nodes below it, depth
    /// first, where `node` is read under `parent_element_type`.
    pub fn do_parse(
        &self,
        node: &DomNode,
        acc: &mut Vec<ParsedInputElement>,
        parent_element_type: Option<ParsedInputType>,
    )
        ensures
            tokens_of(final(acc)@) == tokens_of(old(acc)@) + node_tokens(
                *node,
                parent_element_type,
                self.a_tag(),
                self.b_tag(),
            ),
        decreases node,
    {
        let ghost a = self.a_tag();
        let ghost b = self.b_tag();
        let ghost start = tokens_of(acc@);
        let mut current_element_type: Option<ParsedInputType> = None;
        match &node.data {
            DomData::Text(contents) => {
                let tp = match parent_element_type {
                    Some(ParsedInputType::A) => Some(ParsedInputType::A),
                    Some(ParsedInputType::B) => Some(ParsedInputType::B),
                    Some(ParsedInputType::Other) => {
                        if self.a_tag.start_node.is_none() {
                            Some(ParsedInputType::A)
                        } else if self.b_tag.start_node.is_none() {
                            Some(ParsedInputType::B)
                        } else {
                            None
                        }
                    },
                    None => None,
                };
                match tp {
                    Some(tp) => {
                        let element = ParsedInputElement::new(contents.clone(), tp);
                        proof {
                            assert(tokens_of(acc@.push(element)) =~= tokens_of(acc@).push(element@));
                        }
                        acc.push(element);
                    },
                    None => {},
                }
            },
            DomData::Element(name) => {
                let mut tag: Vec<char> = Vec::new();
                tag.push('<');
                push_all(&mut tag, chars_of(name.as_str()).as_slice());
                tag.push('>');
                let a_start = tag_chars(&self.a_tag.start_node);
                let b_start = tag_chars(&self.b_tag.start_node);
                proof {
                    assert(tag@ =~= start_tag(name@));
                }
                if same_chars(tag.as_slice(), a_start.as_slice()) {
                    current_element_type = Some(ParsedInputType::A);
                } else if same_chars(tag.as_slice(), b_start.as_slice()) {
                    current_element_type = Some(ParsedInputType::B);
                } else {
                    current_element_type = Some(ParsedInputType::Other);
                }
            },
            DomData::Other => {},
        }
        proof {
            assert(tokens_of(acc@) =~= start + own_tokens(*node, parent_element_type, a, b));
            assert(current_element_type == type_below(*node, a, b));
            assert(tokens_of(acc@) + forest_tokens(*node, 0, a, b) =~= tokens_of(acc@));
        }
        let mut i: usize = 0;
        while i < node.children.len()
            invariant
                i <= node.children.len(),
                a == self.a_tag(),
                b == self.b_tag(),
                current_element_type == type_below(*node, a, b),
                tokens_of(acc@) == start + own_tokens(*node, parent_element_type, a, b)
                    + forest_tokens(*node, i as int, a, b),
            decreases node.children.len() - i,
        {
            let ghost before = tokens_of(acc@);
            self.do_parse(&node.children[i], acc, current_element_type);
            proof {
                assert(before + node_tokens(node.children[i as int], current_element_type, a, b)
                    =~= start + own_tokens(*node, parent_element_type, a, b) + forest_tokens(
                    *node,
                    i + 1,
                    a,
                    b,
                ));
            }
            i = i + 1;
        }
    }

    /// Parses `input` as a document and reads its pieces.
    pub fn parse_input(&self, input: &[char]) -> (elements: Vec<ParsedInputElement>)
        ensures
            tokens_of(elements@) == node_tokens(
                html_document(input@),
                None,
                self.a_tag(),
                self.b_tag(),
            ),
    {
        let document = parse_html(input);
        self.parse(&document)
    }
}

/// Tests whether two sequences hold the same characters in the same order.
pub fn same_chars(left: &[char], right: &[char]) -> (r: bool)
    ensures
        r == (left@ == right@),
{
    if left.len() != right.len() {
        return false;
    }
    let r = crate::text::matches_at(left, right, 0);
    proof {
        assert(left@.subrange(0, left.len() as int) == left@);
    }
    r
}

impl Steganographer for SimpleTagSteganographer {
    type T = char;

    /// Writes every character of the public text that takes an element of the
    /// encoded secret between the start and the end tag of that element's
    /// value. Where the steganographer optimizes, neighbouring elements of one
    /// value are fused.
    fn disguise<C: BaconCodec<CONTENT = char>>(&self, secret: &[char], public: &[char], codec: &C) -> (r:
        Result<Vec<char>, BaconError>)
        ensures
            r is Ok,
            r->Ok_0@ == {
                let written = wrapped(
                    public@,
                    encoded(codec, secret@),
                    codec.spec_a(),
                    codec.spec_b(),
                    self.a_tag().start_string(),
                    self.a_tag().end_string(),
                    self.b_tag().start_string(),
                    self.b_tag().end_string(),
                );
                if self.optimizes() {
                    fused(written, self.a_tag(), self.b_tag())
                } else {
                    written
                }
            },
    {
        let symbols = codec.encode(secret);
        let a_start = tag_chars(&self.a_tag.start_node);
        let a_end = tag_chars(&self.a_tag.end_node);
        let b_start = tag_chars(&self.b_tag.start_node);
        let b_end = tag_chars(&self.b_tag.end_node);
        let disguised = wrap_letters(
            public,
            symbols.as_slice(),
            codec,
            a_start.as_slice(),
            a_end.as_slice(),
            b_start.as_slice(),
            b_end.as_slice(),
        );
        if self.optimize_disguise {
            Ok(
                fuse(
                    disguised.as_slice(),
                    a_start.as_slice(),
                    a_end.as_slice(),
                    b_start.as_slice(),
                    b_end.as_slice(),
                ),
            )
        } else {
            Ok(disguised)
        }
    }

    /// Parses the carrier text as a document, reads its pieces, takes one
    /// substitution value for each of their alphabetic characters, and decodes
    /// what was read.
    fn reveal_secret<C: BaconCodec<CONTENT = char>>(&self, input: &[char], codec: &C) -> (r: Result<
        Vec<char>,
        BaconError,
    >)
        ensures
            r is Ok,
            r->Ok_0@ == decoded(
                codec,
                symbols_of(
                    node_tokens(html_document(input@), None, self.a_tag(), self.b_tag()),
                    codec.spec_a(),
                    codec.spec_b(),
                ),
            ),
    {
        let elements = self.parse_input(input);
        let symbols = read_symbols(&elements, codec);
        Ok(codec.decode(symbols.as_slice()))
    }
}

} // verus!
