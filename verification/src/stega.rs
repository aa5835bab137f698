//! Steganographers: they hide the groups of a codec in a public text and
//! read them back.
//!
//! Every steganographer walks the public text in the same way. Each
//! alphabetic character takes the next element of the encoded secret, as long
//! as that element is one of the two substitution values, and is written in
//! the form that stands for that value. Every other character is copied.

use vstd::prelude::*;
use crate::chars::alphabetic;
use crate::text::{chars_of, push_all, string_of};
use crate::BaconCodec;

pub mod letter_case;
pub mod dom;
pub mod markdown;
pub mod marker_laws;
pub mod tags;

verus! {

/// Whether character `c` takes element `k` of the encoded secret.
pub open spec fn takes_symbol<AB>(c: char, k: nat, symbols: Seq<AB>, a: AB, b: AB) -> bool {
    alphabetic(c) && k < symbols.len() && (symbols[k as int] == a || symbols[k as int] == b)
}

/// The number of elements of the encoded secret that the characters of
/// `public` take.
pub open spec fn consumed<AB>(public: Seq<char>, symbols: Seq<AB>, a: AB, b: AB) -> nat
    decreases public.len(),
{
    if public.len() == 0 {
        0
    } else {
        let before = consumed(public.drop_last(), symbols, a, b);
        if takes_symbol(public.last(), before, symbols, a, b) {
            before + 1
        } else {
            before
        }
    }
}

/// What is written for character `c` when `k` elements of the encoded secret
/// are taken already: its form for the value `a`, its form for the value `b`,
/// or the character itself where it takes no element.
pub open spec fn carried_char<AB>(
    c: char,
    k: nat,
    symbols: Seq<AB>,
    a: AB,
    b: AB,
    as_a: spec_fn(char) -> Seq<char>,
    as_b: spec_fn(char) -> Seq<char>,
) -> Seq<char> {
    if !takes_symbol(c, k, symbols, a, b) {
        seq![c]
    } else if symbols[k as int] == a {
        as_a(c)
    } else {
        as_b(c)
    }
}

/// The public text with the encoded secret written into it.
pub open spec fn carried<AB>(
    public: Seq<char>,
    symbols: Seq<AB>,
    a: AB,
    b: AB,
    as_a: spec_fn(char) -> Seq<char>,
    as_b: spec_fn(char) -> Seq<char>,
) -> Seq<char>
    decreases public.len(),
{
    if public.len() == 0 {
        Seq::empty()
    } else {
        carried(public.drop_last(), symbols, a, b, as_a, as_b) + carried_char(
            public.last(),
            consumed(public.drop_last(), symbols, a, b),
            symbols,
            a,
            b,
            as_a,
            as_b,
        )
    }
}

/// What a piece of a carrier text stands for.
#[derive(Clone, Copy, Debug, PartialEq, Eq, Structural)]
pub enum ParsedInputType {
    /// The `A` substitution value.
    A,
    /// The `B` substitution value.
    B,
    /// Neither of the two.
    Other,
}

/// A piece of a carrier text with what it stands for, as a plain value.
pub struct Token {
    /// The characters of the piece.
    pub text: Seq<char>,
    /// What the piece stands for.
    pub tp: ParsedInputType,
}

/// A piece of a carrier text, found while the text is read, with what it
/// stands for.
#[derive(Debug, PartialEq)]
pub struct ParsedInputElement {
    string: String,
    tp: ParsedInputType,
}

impl View for ParsedInputElement {
    type V = Token;

    closed spec fn view(&self) -> Token {
        Token { text: self.string@, tp: self.tp }
    }
}

impl ParsedInputElement {
    /// Creates a piece from its characters and what it stands for.
    pub fn new(string: String, tp: ParsedInputType) -> (element: ParsedInputElement)
        ensures
            element@ == (Token { text: string@, tp }),
    {
        ParsedInputElement { string, tp }
    }

    /// Creates a piece from a slice of characters and what it stands for.
    pub fn of_chars(chars: &[char], tp: ParsedInputType) -> (element: ParsedInputElement)
        ensures
            element@ == (Token { text: chars@, tp }),
    {
        ParsedInputElement { string: string_of(chars), tp }
    }

    /// The characters of the piece.
    pub fn chars(&self) -> (out: Vec<char>)
        ensures
            out@ == self@.text,
    {
        chars_of(self.string.as_str())
    }

    /// What the piece stands for.
    pub fn kind(&self) -> (tp: ParsedInputType)
        ensures
            tp == self@.tp,
    {
        self.tp
    }
}

/// The pieces of a list, as plain values.
pub open spec fn tokens_of(elements: Seq<ParsedInputElement>) -> Seq<Token> {
    elements.map_values(|e: ParsedInputElement| e@)
}

/// The substitution values that one piece carries: one for each of its
/// alphabetic characters, `a` where the piece stands for `A`, else `b`.
pub open spec fn token_symbols<AB>(token: Token, a: AB, b: AB) -> Seq<AB> {
    token.text.filter(|c: char| alphabetic(c)).map_values(
        |c: char|
            if token.tp == ParsedInputType::A {
                a
            } else {
                b
            },
    )
}

/// The substitution values that a list of pieces carries, in order.
pub open spec fn symbols_of<AB>(tokens: Seq<Token>, a: AB, b: AB) -> Seq<AB> {
    tokens.flat_map(|t: Token| token_symbols(t, a, b))
}

/// Reads the substitution values that a list of pieces carries.
pub fn read_symbols<C: BaconCodec>(elements: &Vec<ParsedInputElement>, codec: &C) -> (out: Vec<
    C::ABTYPE,
>)
    ensures
        out@ == symbols_of(tokens_of(elements@), codec.spec_a(), codec.spec_b()),
{
    let ghost a = codec.spec_a();
    let ghost b = codec.spec_b();
    let ghost tokens = tokens_of(elements@);
    let ghost per_token = |t: Token| token_symbols(t, a, b);
    let ghost letters = |c: char| alphabetic(c);
    let mut out: Vec<C::ABTYPE> = Vec::new();
    let mut i: usize = 0;
    proof {
        assert(tokens.take(0).flat_map(per_token) =~= Seq::empty());
    }
    while i < elements.len()
        invariant
            i <= elements.len(),
            a == codec.spec_a(),
            b == codec.spec_b(),
            tokens == tokens_of(elements@),
            per_token == |t: Token| token_symbols(t, a, b),
            letters == |c: char| alphabetic(c),
            out@ == tokens.take(i as int).flat_map(per_token),
        decreases elements.len() - i,
    {
        let element = &elements[i];
        let chars = element.chars();
        let is_a = match element.kind() {
            ParsedInputType::A => true,
            _ => false,
        };
        let ghost token = tokens[i as int];
        let ghost symbol = |c: char|
            if token.tp == ParsedInputType::A {
                a
            } else {
                b
            };
        let ghost before = out@;
        let mut j: usize = 0;
        proof {
            assert(token == element@);
            assert(chars@.take(0).filter(letters) =~= Seq::empty()) by {
                reveal(Seq::filter);
            }
            assert(before + Seq::<C::ABTYPE>::empty() =~= before);
        }
        while j < chars.len()
            invariant
                j <= chars.len(),
                a == codec.spec_a(),
                b == codec.spec_b(),
                letters == |c: char| alphabetic(c),
                symbol == |c: char|
                    if token.tp == ParsedInputType::A {
                        a
                    } else {
                        b
                    },
                is_a == (token.tp == ParsedInputType::A),
                out@ == before + chars@.take(j as int).filter(letters).map_values(symbol),
            decreases chars.len() - j,
        {
            let c = chars[j];
            proof {
                assert(chars@.take(j + 1) =~= chars@.take(j as int).push(c));
                chars@.take(j as int).lemma_filter_push(c, letters);
                chars@.take(j as int).filter(letters).lemma_push_map_commute(symbol, c);
            }
            if c.is_alphabetic() {
                if is_a {
                    out.push(codec.a());
                } else {
                    out.push(codec.b());
                }
                proof {
                    assert(out@ =~= before + chars@.take(j + 1).filter(letters).map_values(
                        symbol,
                    ));
                }
            }
            j = j + 1;
        }
        proof {
            assert(chars@.take(j as int) == chars@);
            assert(chars@.filter(letters).map_values(symbol) == token_symbols(token, a, b));
            tokens.lemma_flat_map_take_append(per_token, i as int);
        }
        i = i + 1;
    }
    proof {
        assert(tokens.take(i as int) == tokens);
    }
    out
}

/// What is written for a character that takes a substitution value: the
/// character between the start and the end delimiter of that value.
pub open spec fn wrapped_char(start: Seq<char>, end: Seq<char>, c: char) -> Seq<char> {
    start + seq![c] + end
}

/// The public text in which every character that takes an element of the
/// encoded secret stands between the delimiters of that element's value.
pub open spec fn wrapped<AB>(
    public: Seq<char>,
    symbols: Seq<AB>,
    a: AB,
    b: AB,
    a_start: Seq<char>,
    a_end: Seq<char>,
    b_start: Seq<char>,
    b_end: Seq<char>,
) -> Seq<char> {
    carried(
        public,
        symbols,
        a,
        b,
        |c: char| wrapped_char(a_start, a_end, c),
        |c: char| wrapped_char(b_start, b_end, c),
    )
}

/// Writes the public text with every character that takes an element of the
/// encoded secret between the delimiters of that element's value.
pub fn wrap_letters<C: BaconCodec>(
    public: &[char],
    symbols: &[C::ABTYPE],
    codec: &C,
    a_start: &[char],
    a_end: &[char],
    b_start: &[char],
    b_end: &[char],
) -> (out: Vec<char>)
    ensures
        out@ == wrapped(
            public@,
            symbols@,
            codec.spec_a(),
            codec.spec_b(),
            a_start@,
            a_end@,
            b_start@,
            b_end@,
        ),
{
    let ghost a = codec.spec_a();
    let ghost b = codec.spec_b();
    let ghost as_a = |c: char| wrapped_char(a_start@, a_end@, c);
    let ghost as_b = |c: char| wrapped_char(b_start@, b_end@, c);
    let mut out: Vec<char> = Vec::new();
    let mut i: usize = 0;
    let mut p: usize = 0;
    while p < public.len()
        invariant
            p <= public.len(),
            a == codec.spec_a(),
            b == codec.spec_b(),
            as_a == |c: char| wrapped_char(a_start@, a_end@, c),
            as_b == |c: char| wrapped_char(b_start@, b_end@, c),
            i == consumed(public@.take(p as int), symbols@, a, b),
            i <= symbols.len(),
            out@ == carried(public@.take(p as int), symbols@, a, b, as_a, as_b),
        decreases public.len() - p,
    {
        let pc = public[p];
        let ghost before = out@;
        proof {
            assert(public@.take(p + 1).drop_last() == public@.take(p as int));
        }
        if pc.is_alphabetic() && i < symbols.len() && codec.is_a(&symbols[i]) {
            push_all(&mut out, a_start);
            out.push(pc);
            push_all(&mut out, a_end);
            proof {
                assert(out@ =~= before + wrapped_char(a_start@, a_end@, pc));
            }
            i = i + 1;
        } else if pc.is_alphabetic() && i < symbols.len() && codec.is_b(&symbols[i]) {
            push_all(&mut out, b_start);
            out.push(pc);
            push_all(&mut out, b_end);
            proof {
                assert(out@ =~= before + wrapped_char(b_start@, b_end@, pc));
            }
            i = i + 1;
        } else {
            out.push(pc);
            proof {
                assert(out@ =~= before + seq![pc]);
            }
        }
        p = p + 1;
    }
    proof {
        assert(public@.take(p as int) == public@);
    }
    out
}

} // verus!
