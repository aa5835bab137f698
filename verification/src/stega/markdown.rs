//! The steganographer that writes with markers: delimiters that surround the
//! characters of one substitution value.

use vstd::prelude::*;
use vstd::slice::slice_subrange;
use crate::errors::BaconError;
use crate::stega::{
    read_symbols,
    symbols_of,
    tokens_of,
    wrap_letters,
    wrapped,
    ParsedInputElement,
    ParsedInputType,
    Token,
};
use crate::text::{
    chars_of,
    contains,
    contains_pattern,
    find,
    first_occurrence,
    matches_at,
    occurs_at,
    push_all,
    remove_all,
    without,
};
use crate::{decoded, encoded, BaconCodec, Steganographer};

verus! {

/// The delimiters that mark one substitution value: a start and an end, or
/// neither.
#[derive(Debug, Clone, PartialEq)]
pub struct Marker {
    start_marker: Option<String>,
    end_marker: Option<String>,
}

/// The delimiters of a marker, as plain values.
pub struct MarkerView {
    /// The start delimiter.
    pub start: Option<Seq<char>>,
    /// The end delimiter.
    pub end: Option<Seq<char>>,
}

impl MarkerView {
    /// The start delimiter; nothing where there is none.
    pub open spec fn start_string(self) -> Seq<char> {
        match self.start {
            Some(s) => s,
            None => Seq::empty(),
        }
    }

    /// The end delimiter; nothing where there is none.
    pub open spec fn end_string(self) -> Seq<char> {
        match self.end {
            Some(s) => s,
            None => Seq::empty(),
        }
    }

    /// Whether the marker has neither delimiter.
    pub open spec fn is_empty(self) -> bool {
        self.start is None && self.end is None
    }

    /// Whether the marker has both delimiters.
    pub open spec fn is_full(self) -> bool {
        self.start is Some && self.end is Some
    }
}

impl View for Marker {
    type V = MarkerView;

    closed spec fn view(&self) -> MarkerView {
        MarkerView {
            start: match self.start_marker {
                Some(s) => Some(s@),
                None => None,
            },
            end: match self.end_marker {
                Some(s) => Some(s@),
                None => None,
            },
        }
    }
}

impl Marker {
    /// Creates a marker from its delimiters.
    pub fn new(start_marker: Option<&str>, end_marker: Option<&str>) -> (marker: Marker)
        ensures
            marker@.start == match start_marker {
                Some(s) => Some(s@),
                None => None,
            },
            marker@.end == match end_marker {
                Some(s) => Some(s@),
                None => None,
            },
    {
        Marker {
            start_marker: match start_marker {
                Some(s) => Some(s.to_owned()),
                None => None,
            },
            end_marker: match end_marker {
                Some(s) => Some(s.to_owned()),
                None => None,
            },
        }
    }

    /// Creates the marker without delimiters.
    pub fn empty() -> (marker: Marker)
        ensures
            marker@.is_empty(),
    {
        Marker { start_marker: None, end_marker: None }
    }

    /// Tests whether the marker has neither delimiter.
    pub fn is_empty(&self) -> (r: bool)
        ensures
            r == self@.is_empty(),
    {
        self.start_marker.is_none() && self.end_marker.is_none()
    }

    /// The start delimiter.
    pub fn start_marker(&self) -> (r: &Option<String>)
        ensures
            r is Some == self@.start is Some,
            r is Some ==> r->0@ == self@.start->0,
    {
        &self.start_marker
    }

    /// The end delimiter.
    pub fn end_marker(&self) -> (r: &Option<String>)
        ensures
            r is Some == self@.end is Some,
            r is Some ==> r->0@ == self@.end->0,
    {
        &self.end_marker
    }

    /// The start delimiter as a string; the empty string where there is none.
    pub fn start_marker_string(&self) -> (r: String)
        ensures
            r@ == self@.start_string(),
    {
        match &self.start_marker {
            Some(s) => s.clone(),
            None => String::new(),
        }
    }

    /// The end delimiter as a string; the empty string where there is none.
    pub fn end_marker_string(&self) -> (r: String)
        ensures
            r@ == self@.end_string(),
    {
        match &self.end_marker {
            Some(s) => s.clone(),
            None => String::new(),
        }
    }
}

/// The characters of a delimiter; none where there is no delimiter.
fn delimiter_chars(delimiter: &Option<String>) -> (out: Vec<char>)
    ensures
        out@ == match delimiter {
            Some(s) => s@,
            None => Seq::empty(),
        },
{
    match delimiter {
        Some(s) => chars_of(s.as_str()),
        None => Vec::new(),
    }
}

/// Whether both markers have both delimiters and a delimiter of the one
/// stands somewhere in a delimiter of the other.
pub open spec fn overlapping(a: MarkerView, b: MarkerView) -> bool {
    &&& a.is_full()
    &&& b.is_full()
    &&& {
        ||| contains(a.start->0, b.start->0)
        ||| contains(a.start->0, b.end->0)
        ||| contains(a.end->0, b.start->0)
        ||| contains(a.end->0, b.end->0)
        ||| contains(b.start->0, a.start->0)
        ||| contains(b.start->0, a.end->0)
        ||| contains(b.end->0, a.start->0)
        ||| contains(b.end->0, a.end->0)
    }
}

/// Whether two markers can serve together: each has both delimiters or none,
/// at least one has them, and they do not overlap.
pub open spec fn acceptable(a: MarkerView, b: MarkerView) -> bool {
    &&& !overlapping(a, b)
    &&& !(a.is_empty() && b.is_empty())
    &&& (a.is_empty() || a.is_full())
    &&& (b.is_empty() || b.is_full())
}

/// The message of the error for two markers without delimiters.
pub open spec fn undefined_message() -> Seq<char> {
    "Cannot create a marker with both A and B undefined"@
}

/// The message of the error for a marker with one delimiter only.
pub open spec fn incomplete_message() -> Seq<char> {
    "A marker should define both start and end"@
}

/// The message of the error for two markers that overlap: a sentence that
/// shows both markers as the standard library formats them for debugging.
pub uninterp spec fn overlap_text(a: MarkerView, b: MarkerView) -> Seq<char>;

/// `format!` of the standard library: the words `Cannot create a marker with`,
/// the first marker in its `Debug` form, the word `and`, and the second marker
/// in its `Debug` form. The text depends on the delimiters of the two markers
/// alone and is named, not described.
#[verifier::external_body]
fn overlap_message(a_marker: &Marker, b_marker: &Marker) -> (message: String)
    ensures
        message@ == overlap_text(a_marker@, b_marker@),
{
    format!("Cannot create a marker with {:?} and {:?}", a_marker, b_marker)
}

/// The first position at or after `from` at which the start delimiter of a
/// marker stands in `text`.
pub open spec fn start_of(marker: MarkerView, text: Seq<char>, from: int) -> Option<int> {
    match marker.start {
        Some(s) => first_occurrence(text, s, from),
        None => None,
    }
}

/// A marked piece of a text: what it stands for, where its content begins
/// and ends, and where the text goes on behind it.
pub struct Span {
    /// What the piece stands for.
    pub tp: ParsedInputType,
    /// The position of the first character of the content.
    pub content_from: int,
    /// The position behind the last character of the content.
    pub content_to: int,
    /// The position behind the end delimiter.
    pub next: int,
}

/// The piece of marker `marker`, standing for `tp`, whose start delimiter
/// stands at position `at`. The content runs to the first end delimiter behind
/// the start delimiter, or to the end of the text where there is none. There
/// is no piece where the end delimiter is empty and the content too, nor where
/// the text ends behind the start delimiter.
pub open spec fn span_at(text: Seq<char>, marker: MarkerView, tp: ParsedInputType, at: int) -> Option<
    Span,
> {
    let begin = at + marker.start_string().len();
    let found = match marker.end {
        Some(e) => first_occurrence(text, e, begin),
        None => None,
    };
    match found {
        Some(e) => if e + marker.end_string().len() == begin {
            None
        } else {
            Some(
                Span {
                    tp,
                    content_from: begin,
                    content_to: e,
                    next: e + marker.end_string().len(),
                },
            )
        },
        None => if begin >= text.len() {
            None
        } else {
            Some(
                Span {
                    tp,
                    content_from: begin,
                    content_to: text.len() as int,
                    next: text.len() as int,
                },
            )
        },
    }
}

/// The first marked piece at or after position `from`: that of the marker
/// whose start delimiter comes first. There is none where neither start
/// delimiter is found, nor where both are found at the same position.
pub open spec fn next_span(text: Seq<char>, a: MarkerView, b: MarkerView, from: int) -> Option<Span> {
    let a_at = match start_of(a, text, from) {
        Some(i) => i,
        None => text.len() as int,
    };
    let b_at = match start_of(b, text, from) {
        Some(i) => i,
        None => text.len() as int,
    };
    if a_at < b_at {
        span_at(text, a, ParsedInputType::A, a_at)
    } else if b_at < a_at {
        span_at(text, b, ParsedInputType::B, b_at)
    } else {
        None
    }
}

/// The marked pieces of a text from position `from` on, in order: each piece
/// is looked for behind the one before it.
pub open spec fn scanned(text: Seq<char>, a: MarkerView, b: MarkerView, from: int) -> Seq<Token>
    decreases text.len() - from,
{
    match next_span(text, a, b, from) {
        Some(span) => if from < span.next && span.next <= text.len() {
            seq![Token { text: text.subrange(span.content_from, span.content_to), tp: span.tp }]
                + scanned(text, a, b, span.next)
        } else {
            Seq::empty()
        },
        None => Seq::empty(),
    }
}

/// Every character of a text as a piece of its own that stands for `tp`.
pub open spec fn singles(text: Seq<char>, tp: ParsedInputType) -> Seq<Token> {
    text.map_values(|c: char| Token { text: seq![c], tp })
}

/// Where a piece with content `content` stands in `text` at or after position
/// `from`, and where the text goes on behind it: at the first occurrence of
/// the content between its delimiters or, where there is none and the text
/// ends with the start delimiter and the content, there.
pub open spec fn located(
    text: Seq<char>,
    content: Seq<char>,
    start: Seq<char>,
    end: Seq<char>,
    from: int,
) -> Option<(int, int)> {
    match first_occurrence(text, start + content + end, from) {
        Some(at) => Some((at, at + (start + content + end).len())),
        None => {
            let at = text.len() - (start + content).len();
            if from <= at && occurs_at(text, start + content, at) {
                Some((at, text.len() as int))
            } else {
                None
            }
        },
    }
}

/// The pieces `tokens`, with every character of `text` from position `from`
/// on that none of them covers as a piece of its own that stands for `tp`,
/// in the order of the text. A piece that is not found in the text covers
/// nothing.
pub open spec fn spliced(
    text: Seq<char>,
    tokens: Seq<Token>,
    start: Seq<char>,
    end: Seq<char>,
    tp: ParsedInputType,
    from: int,
) -> Seq<Token>
    decreases tokens.len(),
{
    if tokens.len() == 0 {
        singles(text.subrange(from, text.len() as int), tp)
    } else {
        match located(text, tokens[0].text, start, end, from) {
            Some((at, next)) => singles(text.subrange(from, at), tp) + seq![tokens[0]] + spliced(
                text,
                tokens.drop_first(),
                start,
                end,
                tp,
                next,
            ),
            None => seq![tokens[0]] + spliced(text, tokens.drop_first(), start, end, tp, from),
        }
    }
}

/// The pieces that a carrier text is read as. With both markers defined they
/// are the marked pieces. With one marker undefined, every character that no
/// marked piece covers stands for the value of the undefined marker.
pub open spec fn revealed_tokens(text: Seq<char>, a: MarkerView, b: MarkerView) -> Seq<Token> {
    if b.is_empty() {
        spliced(
            text,
            scanned(text, a, b, 0),
            a.start_string(),
            a.end_string(),
            ParsedInputType::B,
            0,
        )
    } else if a.is_empty() {
        spliced(
            text,
            scanned(text, a, b, 0),
            b.start_string(),
            b.end_string(),
            ParsedInputType::A,
            0,
        )
    } else {
        scanned(text, a, b, 0)
    }
}

/// A text in which neighbouring marked characters of one value are fused:
/// first every end delimiter of `a` that its start delimiter follows is
/// removed with that start delimiter, then the same for `b`.
pub open spec fn fused(text: Seq<char>, a: MarkerView, b: MarkerView) -> Seq<char> {
    without(
        without(text, a.end_string() + a.start_string(), 0),
        b.end_string() + b.start_string(),
        0,
    )
}

/// Removes the end delimiters that their start delimiter follows, with that
/// start delimiter.
pub fn fuse(
    text: &[char],
    a_start: &[char],
    a_end: &[char],
    b_start: &[char],
    b_end: &[char],
) -> (out: Vec<char>)
    ensures
        out@ == without(without(text@, a_end@ + a_start@, 0), b_end@ + b_start@, 0),
{
    let mut a_seam: Vec<char> = Vec::new();
    push_all(&mut a_seam, a_end);
    push_all(&mut a_seam, a_start);
    let mut b_seam: Vec<char> = Vec::new();
    push_all(&mut b_seam, b_end);
    push_all(&mut b_seam, b_start);
    let once = remove_all(text, a_seam.as_slice());
    remove_all(once.as_slice(), b_seam.as_slice())
}

/// Appends every character of `text` from `from` to `to` to `out`, as a piece
/// of its own that stands for `tp`.
fn push_singles(
    out: &mut Vec<ParsedInputElement>,
    text: &[char],
    from: usize,
    to: usize,
    tp: ParsedInputType,
)
    requires
        from <= to <= text.len(),
    ensures
        tokens_of(final(out)@) == tokens_of(old(out)@) + singles(
            text@.subrange(from as int, to as int),
            tp,
        ),
{
    let mut i: usize = from;
    proof {
        assert(tokens_of(out@) + singles(text@.subrange(from as int, from as int), tp) =~= tokens_of(
            out@,
        ));
    }
    while i < to
        invariant
            from <= i <= to <= text.len(),
            tokens_of(out@) == tokens_of(old(out)@) + singles(
                text@.subrange(from as int, i as int),
                tp,
            ),
        decreases to - i,
    {
        let single = ParsedInputElement::of_chars(slice_subrange(text, i, i + 1), tp);
        proof {
            assert(text@.subrange(i as int, i + 1) =~= seq![text@[i as int]]);
            assert(text@.subrange(from as int, i + 1) =~= text@.subrange(
                from as int,
                i as int,
            ).push(text@[i as int]));
            assert(tokens_of(out@.push(single)) =~= tokens_of(out@).push(single@));
            assert(singles(text@.subrange(from as int, i + 1), tp) =~= singles(
                text@.subrange(from as int, i as int),
                tp,
            ).push(single@));
        }
        out.push(single);
        i = i + 1;
    }
}

/// Applies steganography with markers that surround characters.
///
/// For instance: the characters between `**` and `**` stand for the `A`
/// substitution value, and all other characters for the `B` substitution
/// value.
pub struct MarkdownSteganographer {
    a_marker: Marker,
    b_marker: Marker,
}

impl MarkdownSteganographer {
    /// The two markers can serve together.
    #[verifier::type_invariant]
    spec fn well_formed(self) -> bool {
        acceptable(self.a_marker@, self.b_marker@)
    }

    /// The marker of the `A` substitution value.
    pub closed spec fn a_marker(&self) -> MarkerView {
        self.a_marker@
    }

    /// The marker of the `B` substitution value.
    pub closed spec fn b_marker(&self) -> MarkerView {
        self.b_marker@
    }

    /// Creates a steganographer from the markers of the two substitution
    /// values. Fails where the markers cannot serve together.
    pub fn new(a_marker: Marker, b_marker: Marker) -> (r: Result<MarkdownSteganographer, BaconError>)
        ensures
            match r {
                Ok(s) => acceptable(a_marker@, b_marker@) && s.a_marker() == a_marker@
                    && s.b_marker() == b_marker@,
                Err(e) => {
                    &&& !acceptable(a_marker@, b_marker@)
                    &&& e is SteganographerError
                    &&& e.message() == if overlapping(a_marker@, b_marker@) {
                        overlap_text(a_marker@, b_marker@)
                    } else if a_marker@.is_empty() && b_marker@.is_empty() {
                        undefined_message()
                    } else {
                        incomplete_message()
                    }
                },
            },
    {
        let a_full = a_marker.start_marker.is_some() && a_marker.end_marker.is_some();
        let b_full = b_marker.start_marker.is_some() && b_marker.end_marker.is_some();
        if a_full && b_full {
            let a_start = delimiter_chars(&a_marker.start_marker);
            let a_end = delimiter_chars(&a_marker.end_marker);
            let b_start = delimiter_chars(&b_marker.start_marker);
            let b_end = delimiter_chars(&b_marker.end_marker);
            if contains_pattern(a_start.as_slice(), b_start.as_slice()) || contains_pattern(
                a_start.as_slice(),
                b_end.as_slice(),
            ) || contains_pattern(a_end.as_slice(), b_start.as_slice()) || contains_pattern(
                a_end.as_slice(),
                b_end.as_slice(),
            ) || contains_pattern(b_start.as_slice(), a_start.as_slice()) || contains_pattern(
                b_start.as_slice(),
                a_end.as_slice(),
            ) || contains_pattern(b_end.as_slice(), a_start.as_slice()) || contains_pattern(
                b_end.as_slice(),
                a_end.as_slice(),
            ) {
                return Err(BaconError::SteganographerError(overlap_message(&a_marker, &b_marker)));
            }
        }
        if a_marker.is_empty() && b_marker.is_empty() {
            return Err(
                BaconError::SteganographerError(
                    "Cannot create a marker with both A and B undefined".to_owned(),
                ),
            );
        }
        if !(a_full || a_marker.is_empty()) || !(b_full || b_marker.is_empty()) {
            return Err(
                BaconError::SteganographerError(
                    "A marker should define both start and end".to_owned(),
                ),
            );
        }
        Ok(MarkdownSteganographer { a_marker, b_marker })
    }

    /// Finds the first position at or after `from` at which the start
    /// delimiter of the marker of `input_type` stands in `input`.
    pub fn find_first_occurence_of(
        &self,
        input_type: ParsedInputType,
        input: &[char],
        from: usize,
    ) -> (r: Option<usize>)
        ensures
            match r {
                Some(at) => from <= at <= input.len() && match input_type {
                    ParsedInputType::A => start_of(self.a_marker(), input@, from as int) == Some(
                        at as int,
                    ),
                    ParsedInputType::B => start_of(self.b_marker(), input@, from as int) == Some(
                        at as int,
                    ),
                    ParsedInputType::Other => false,
                },
                None => match input_type {
                    ParsedInputType::A => start_of(self.a_marker(), input@, from as int) is None,
                    ParsedInputType::B => start_of(self.b_marker(), input@, from as int) is None,
                    ParsedInputType::Other => true,
                },
            },
    {
        let marker = match input_type {
            ParsedInputType::A => &self.a_marker,
            ParsedInputType::B => &self.b_marker,
            ParsedInputType::Other => {
                return None;
            },
        };
        match &marker.start_marker {
            Some(start) => {
                let pattern = chars_of(start.as_str());
                find(input, pattern.as_slice(), from)
            },
            None => None,
        }
    }

    /// Reads the marked pieces of `input`, in order.
    pub fn parse(&self, input: &[char]) -> (elements: Vec<ParsedInputElement>)
        ensures
            tokens_of(elements@) == scanned(input@, self.a_marker(), self.b_marker(), 0),
    {
        let ghost a = self.a_marker();
        let ghost b = self.b_marker();
        let mut elements: Vec<ParsedInputElement> = Vec::new();
        let mut pos: usize = 0;
        let mut done = false;
        proof {
            assert(tokens_of(elements@) + scanned(input@, a, b, 0) =~= scanned(input@, a, b, 0));
        }
        while !done
            invariant
                pos <= input.len(),
                a == self.a_marker(),
                b == self.b_marker(),
                tokens_of(elements@) + scanned(input@, a, b, pos as int) == scanned(input@, a, b, 0),
                done ==> scanned(input@, a, b, pos as int) == Seq::<Token>::empty(),
            decreases
                    input.len() - pos + if done {
                        0int
                    } else {
                        1int
                    },
        {
            let a_at = match self.find_first_occurence_of(ParsedInputType::A, input, pos) {
                Some(at) => at,
                None => input.len(),
            };
            let b_at = match self.find_first_occurence_of(ParsedInputType::B, input, pos) {
                Some(at) => at,
                None => input.len(),
            };
            if a_at == b_at {
                done = true;
            } else {
                let (tp, at, marker) = if a_at < b_at {
                    (ParsedInputType::A, a_at, &self.a_marker)
                } else {
                    (ParsedInputType::B, b_at, &self.b_marker)
                };
                let start = delimiter_chars(&marker.start_marker);
                let end = delimiter_chars(&marker.end_marker);
                let ghost view = marker@;
                proof {
                    assert(start_of(view, input@, pos as int) == Some(at as int));
                    crate::text::lemma_first_occurrence(input@, view.start->0, pos as int);
                    assert(next_span(input@, a, b, pos as int) == span_at(input@, view, tp, at as int));
                }
                let begin = at + start.len();
                let found = match &marker.end_marker {
                    Some(_) => find(input, end.as_slice(), begin),
                    None => None,
                };
                let (content_to, next) = match found {
                    Some(e) => (e, e + end.len()),
                    None => (input.len(), input.len()),
                };
                if next == begin {
                    done = true;
                } else {
                    let element = ParsedInputElement::of_chars(
                        slice_subrange(input, begin, content_to),
                        tp,
                    );
                    proof {
                        assert(tokens_of(elements@.push(element)) =~= tokens_of(elements@).push(
                            element@,
                        ));
                        assert(tokens_of(elements@).push(element@) + scanned(input@, a, b, next as int)
                            =~= tokens_of(elements@) + (seq![element@] + scanned(
                            input@,
                            a,
                            b,
                            next as int,
                        )));
                    }
                    elements.push(element);
                    pos = next;
                }
            }
        }
        proof {
            assert(tokens_of(elements@) + Seq::<Token>::empty() =~= tokens_of(elements@));
        }
        elements
    }

    /// Adds to the pieces `parsed_input_elements` of `input` every character
    /// that none of them covers, as a piece of its own that stands for
    /// `parsed_input_type`, in the order of the text. The pieces are looked for
    /// in the text one behind the other, each between the delimiters
    /// `start_marker` and `end_marker`.
    pub fn replace_unmarked_characters_with(
        input: &[char],
        parsed_input_elements: Vec<ParsedInputElement>,
        start_marker: &[char],
        end_marker: &[char],
        parsed_input_type: ParsedInputType,
    ) -> (out: Vec<ParsedInputElement>)
        ensures
            tokens_of(out@) == spliced(
                input@,
                tokens_of(parsed_input_elements@),
                start_marker@,
                end_marker@,
                parsed_input_type,
                0,
            ),
    {
        let ghost tokens = tokens_of(parsed_input_elements@);
        let ghost tp = parsed_input_type;
        let mut out: Vec<ParsedInputElement> = Vec::new();
        let mut pos: usize = 0;
        let mut k: usize = 0;
        let mut rest = parsed_input_elements;
        let count = rest.len();
        proof {
            assert(tokens.skip(0) =~= tokens);
            assert(tokens_of(out@) + spliced(input@, tokens, start_marker@, end_marker@, tp, 0)
                =~= spliced(input@, tokens, start_marker@, end_marker@, tp, 0));
        }
        while k < count
            invariant
                k <= count,
                count == tokens.len(),
                pos <= input.len(),
                tp == parsed_input_type,
                rest.len() == count - k,
                tokens_of(rest@) == tokens.skip(k as int),
                tokens_of(out@) + spliced(
                    input@,
                    tokens.skip(k as int),
                    start_marker@,
                    end_marker@,
                    tp,
                    pos as int,
                ) == spliced(input@, tokens, start_marker@, end_marker@, tp, 0),
            decreases count - k,
        {
            let ghost before_rest = rest@;
            let pie = rest.remove(0);
            let content = pie.chars();
            let ghost token = tokens[k as int];
            proof {
                assert(tokens.skip(k as int)[0] == token);
                assert(tokens_of(before_rest)[0] == pie@);
                assert(tokens.skip(k as int).drop_first() =~= tokens.skip(k + 1));
                assert(tokens_of(rest@) =~= tokens.skip(k + 1));
            }
            let mut opened: Vec<char> = Vec::new();
            push_all(&mut opened, start_marker);
            push_all(&mut opened, content.as_slice());
            let mut needle: Vec<char> = Vec::new();
            push_all(&mut needle, opened.as_slice());
            push_all(&mut needle, end_marker);
            let found = match find(input, needle.as_slice(), pos) {
                Some(at) => Some((at, at + needle.len())),
                None => {
                    if opened.len() <= input.len() && pos <= input.len() - opened.len()
                        && matches_at(input, opened.as_slice(), input.len() - opened.len()) {
                        Some((input.len() - opened.len(), input.len()))
                    } else {
                        None
                    }
                },
            };
            proof {
                assert(needle@ =~= start_marker@ + token.text + end_marker@);
                assert(opened@ =~= start_marker@ + token.text);
            }
            let ghost tail = spliced(
                input@,
                tokens.skip(k + 1),
                start_marker@,
                end_marker@,
                tp,
                match found {
                    Some((_, next)) => next as int,
                    None => pos as int,
                },
            );
            let ghost before = tokens_of(out@);
            match found {
                Some((at, next)) => {
                    push_singles(&mut out, input, pos, at, parsed_input_type);
                    proof {
                        assert(tokens_of(out@.push(pie)) =~= tokens_of(out@).push(pie@));
                        assert(tokens_of(out@).push(pie@) + tail =~= before + (singles(
                            input@.subrange(pos as int, at as int),
                            tp,
                        ) + seq![token] + tail));
                    }
                    out.push(pie);
                    pos = next;
                },
                None => {
                    proof {
                        assert(tokens_of(out@.push(pie)) =~= tokens_of(out@).push(pie@));
                        assert(tokens_of(out@).push(pie@) + tail =~= before + (seq![token] + tail));
                    }
                    out.push(pie);
                },
            }
            k = k + 1;
        }
        let ghost before = tokens_of(out@);
        push_singles(&mut out, input, pos, input.len(), parsed_input_type);
        proof {
            assert(tokens.skip(k as int) =~= Seq::<Token>::empty());
        }
        out
    }

    /// Reads the pieces that `input` is made of: the marked ones and, with
    /// one marker undefined, the characters between them, too.
    pub fn read_tokens(&self, input: &[char]) -> (elements: Vec<ParsedInputElement>)
        ensures
            tokens_of(elements@) == revealed_tokens(input@, self.a_marker(), self.b_marker()),
    {
        let parsed = self.parse(input);
        if self.b_marker.is_empty() {
            let start = delimiter_chars(&self.a_marker.start_marker);
            let end = delimiter_chars(&self.a_marker.end_marker);
            Self::replace_unmarked_characters_with(
                input,
                parsed,
                start.as_slice(),
                end.as_slice(),
                ParsedInputType::B,
            )
        } else if self.a_marker.is_empty() {
            let start = delimiter_chars(&self.b_marker.start_marker);
            let end = delimiter_chars(&self.b_marker.end_marker);
            Self::replace_unmarked_characters_with(
                input,
                parsed,
                start.as_slice(),
                end.as_slice(),
                ParsedInputType::A,
            )
        } else {
            parsed
        }
    }
}

impl Steganographer for MarkdownSteganographer {
    type T = char;

    /// Writes every character of the public text that takes an element of the
    /// encoded secret between the delimiters of that element's value, and
    /// fuses neighbouring marked characters of one value.
    fn disguise<C: BaconCodec<CONTENT = char>>(&self, secret: &[char], public: &[char], codec: &C) -> (r:
        Result<Vec<char>, BaconError>)
        ensures
            r is Ok,
            r->Ok_0@ == fused(
                wrapped(
                    public@,
                    encoded(codec, secret@),
                    codec.spec_a(),
                    codec.spec_b(),
                    self.a_marker().start_string(),
                    self.a_marker().end_string(),
                    self.b_marker().start_string(),
                    self.b_marker().end_string(),
                ),
                self.a_marker(),
                self.b_marker(),
            ),
    {
        let symbols = codec.encode(secret);
        let a_start = delimiter_chars(&self.a_marker.start_marker);
        let a_end = delimiter_chars(&self.a_marker.end_marker);
        let b_start = delimiter_chars(&self.b_marker.start_marker);
        let b_end = delimiter_chars(&self.b_marker.end_marker);
        let disguised = wrap_letters(
            public,
            symbols.as_slice(),
            codec,
            a_start.as_slice(),
            a_end.as_slice(),
            b_start.as_slice(),
            b_end.as_slice(),
        );
        Ok(
            fuse(
                disguised.as_slice(),
                a_start.as_slice(),
                a_end.as_slice(),
                b_start.as_slice(),
                b_end.as_slice(),
            ),
        )
    }

    /// Reads the pieces of the carrier text, takes one substitution value for
    /// each of their alphabetic characters, and decodes what was read.
    fn reveal_secret<C: BaconCodec<CONTENT = char>>(&self, input: &[char], codec: &C) -> (r: Result<
        Vec<char>,
        BaconError,
    >)
        ensures
            r is Ok,
            r->Ok_0@ == decoded(
                codec,
                symbols_of(
                    revealed_tokens(input@, self.a_marker(), self.b_marker()),
                    codec.spec_a(),
                    codec.spec_b(),
                ),
            ),
    {
        let elements = self.read_tokens(input);
        let symbols = read_symbols(&elements, codec);
        Ok(codec.decode(symbols.as_slice()))
    }
}

} // verus!
