//! The steganographer that writes with the case of letters: lowercase for
//! the `A` substitution value, uppercase for the `B` substitution value.

use vstd::prelude::*;
use crate::chars::{
    alphabetic,
    is_ascii_letter,
    alphabetic_count,
    count_alphabetic,
    lowercase_of,
    to_lowercase,
    to_uppercase,
    uppercase,
    uppercase_of,
};
use crate::errors::BaconError;
use crate::stega::{carried, carried_char, consumed, takes_symbol};
use crate::text::{decimal, decimal_digits, push_str, string_of};
use crate::codecs::char_codec::{
    all_letters,
    canonical,
    follows,
    has_shared_letter,
    law_round_trip,
    law_round_trip_v2,
    lemma_encoded_shape,
    lemma_read_back,
    letters_of,
    upper_case,
    CharCodec,
    CharCodecV2,
    Version,
};
use crate::{decoded, encoded, BaconCodec, Steganographer, Symbol};

verus! {

/// Whether a secret holds alphabetic characters and spaces only.
pub open spec fn valid_secret(secret: Seq<char>) -> bool {
    forall|i: int| 0 <= i < secret.len() ==> alphabetic(#[trigger] secret[i]) || secret[i] == ' '
}

/// The message of the error for a secret that is not valid.
pub open spec fn invalid_secret_message() -> Seq<char> {
    "The secret can contain only alphabetic characters. This is an invalid secret"@
}

/// The message of the error for a public text with too few alphabetic
/// characters: it names the number that is needed and the number found.
pub open spec fn capacity_message(needed: nat, found: nat) -> Seq<char> {
    "The public input should have at least size "@ + decimal_digits(needed)
        + ". It was found to have "@ + decimal_digits(found)
}

/// The substitution values that a text carries in the case of its letters:
/// for each alphabetic character `b` if it is uppercase, else `a`.
pub open spec fn case_symbols<AB>(input: Seq<char>, a: AB, b: AB) -> Seq<AB> {
    input.filter(|c: char| alphabetic(c)).map_values(
        |c: char|
            if uppercase(c) {
                b
            } else {
                a
            },
    )
}

/// Tests whether a secret holds alphabetic characters and spaces only.
pub fn is_valid_secret(secret: &[char]) -> (r: bool)
    ensures
        r == valid_secret(secret@),
{
    let mut i: usize = 0;
    while i < secret.len()
        invariant
            i <= secret.len(),
            forall|j: int| 0 <= j < i ==> alphabetic(#[trigger] secret@[j]) || secret@[j] == ' ',
        decreases secret.len() - i,
    {
        if !secret[i].is_alphabetic() && secret[i] != ' ' {
            return false;
        }
        i = i + 1;
    }
    true
}

/// Reads the substitution values that `input` carries in the case of its
/// letters.
pub fn read_case<C: BaconCodec<CONTENT = char>>(input: &[char], codec: &C) -> (out: Vec<C::ABTYPE>)
    ensures
        out@ == case_symbols(input@, codec.spec_a(), codec.spec_b()),
{
    let ghost letters = |c: char| alphabetic(c);
    let ghost symbol = |c: char|
        if uppercase(c) {
            codec.spec_b()
        } else {
            codec.spec_a()
        };
    let mut out: Vec<C::ABTYPE> = Vec::new();
    let mut i: usize = 0;
    proof {
        assert(input@.take(0).filter(letters) =~= Seq::empty()) by {
            reveal(Seq::filter);
        }
    }
    while i < input.len()
        invariant
            i <= input.len(),
            letters == |c: char| alphabetic(c),
            symbol == |c: char|
                if uppercase(c) {
                    codec.spec_b()
                } else {
                    codec.spec_a()
                },
            out@ == input@.take(i as int).filter(letters).map_values(symbol),
        decreases input.len() - i,
    {
        let c = input[i];
        proof {
            assert(input@.take(i + 1) =~= input@.take(i as int).push(c));
            input@.take(i as int).lemma_filter_push(c, letters);
            input@.take(i as int).filter(letters).lemma_push_map_commute(symbol, c);
        }
        if c.is_alphabetic() {
            if c.is_uppercase() {
                out.push(codec.b());
            } else {
                out.push(codec.a());
            }
        }
        i = i + 1;
    }
    proof {
        assert(input@.take(i as int) == input@);
    }
    out
}

/// Applies steganography with the case of letters.
pub struct LetterCaseSteganographer {}

impl LetterCaseSteganographer {
    /// Creates the steganographer.
    pub fn new() -> (s: LetterCaseSteganographer) {
        LetterCaseSteganographer {  }
    }
}

impl Steganographer for LetterCaseSteganographer {
    type T = char;

    /// Fails for a secret that holds anything but alphabetic characters and
    /// spaces, and for a public text with fewer alphabetic characters than
    /// the secret has, times the length of a group. Otherwise every alphabetic
    /// character of the public text that takes an element of the encoded
    /// secret is written in lowercase for `a` and in uppercase for `b`.
    fn disguise<C: BaconCodec<CONTENT = char>>(&self, secret: &[char], public: &[char], codec: &C) -> (r:
        Result<Vec<char>, BaconError>)
        ensures
            match r {
                Ok(out) => {
                    &&& valid_secret(secret@)
                    &&& alphabetic_count(public@) >= alphabetic_count(secret@)
                        * codec.spec_encoded_group_size()
                    &&& out@ == carried(
                        public@,
                        encoded(codec, secret@),
                        codec.spec_a(),
                        codec.spec_b(),
                        |c: char| lowercase_of(c),
                        |c: char| uppercase_of(c),
                    )
                },
                Err(e) => {
                    &&& e is SteganographerError
                    &&& !valid_secret(secret@) ==> e.message() == invalid_secret_message()
                    &&& valid_secret(secret@) ==> {
                        &&& alphabetic_count(public@) < alphabetic_count(secret@)
                            * codec.spec_encoded_group_size()
                        &&& e.message() == capacity_message(
                            alphabetic_count(secret@) * codec.spec_encoded_group_size(),
                            alphabetic_count(public@),
                        )
                    }
                },
            },
    {
        let available_size = count_alphabetic(public);
        let secret_size = count_alphabetic(secret);
        if !is_valid_secret(secret) {
            return Err(
                BaconError::SteganographerError(
                    "The secret can contain only alphabetic characters. This is an invalid secret".to_owned(),
                ),
            );
        }
        let group_size = codec.encoded_group_size();
        assert(secret_size * group_size <= u128::MAX) by (nonlinear_arith)
            requires
                secret_size <= u64::MAX,
                group_size <= u64::MAX,
        ;
        let needed: u128 = (secret_size as u128) * (group_size as u128);
        if (available_size as u128) < needed {
            let mut message: Vec<char> = Vec::new();
            push_str(&mut message, "The public input should have at least size ");
            let mut digits = decimal(needed);
            message.append(&mut digits);
            push_str(&mut message, ". It was found to have ");
            let mut digits = decimal(available_size as u128);
            message.append(&mut digits);
            return Err(BaconError::SteganographerError(string_of(message.as_slice())));
        }
        let symbols = codec.encode(secret);
        let ghost as_a = |c: char| lowercase_of(c);
        let ghost as_b = |c: char| uppercase_of(c);
        let ghost a = codec.spec_a();
        let ghost b = codec.spec_b();
        let mut disguised: Vec<char> = Vec::new();
        let mut i: usize = 0;
        let mut p: usize = 0;
        proof {
            assert(symbols@ == encoded(codec, secret@));
        }
        while p < public.len()
            invariant
                p <= public.len(),
                a == codec.spec_a(),
                b == codec.spec_b(),
                as_a == |c: char| lowercase_of(c),
                as_b == |c: char| uppercase_of(c),
                i == consumed(public@.take(p as int), symbols@, a, b),
                i <= symbols.len(),
                disguised@ == carried(public@.take(p as int), symbols@, a, b, as_a, as_b),
            decreases public.len() - p,
        {
            let pc = public[p];
            proof {
                assert(public@.take(p + 1).drop_last() == public@.take(p as int));
            }
            if pc.is_alphabetic() && i < symbols.len() && codec.is_a(&symbols[i]) {
                let mut lower = to_lowercase(pc);
                disguised.append(&mut lower);
                i = i + 1;
            } else if pc.is_alphabetic() && i < symbols.len() && codec.is_b(&symbols[i]) {
                let mut upper = to_uppercase(pc);
                disguised.append(&mut upper);
                i = i + 1;
            } else {
                disguised.push(pc);
                proof {
                    assert(disguised@ =~= carried(public@.take(p as int), symbols@, a, b, as_a, as_b)
                        + seq![pc]);
                }
            }
            p = p + 1;
        }
        proof {
            assert(public@.take(p as int) == public@);
        }
        Ok(disguised)
    }

    /// Reads `b` for every uppercase alphabetic character and `a` for every
    /// other alphabetic character, and decodes what was read.
    fn reveal_secret<C: BaconCodec<CONTENT = char>>(&self, input: &[char], codec: &C) -> (r: Result<
        Vec<char>,
        BaconError,
    >)
        ensures
            r is Ok,
            r->Ok_0@ == decoded(codec, case_symbols(input@, codec.spec_a(), codec.spec_b())),
    {
        let symbols = read_case(input, codec);
        Ok(codec.decode(symbols.as_slice()))
    }
}

/// Whether a character keeps its place when its case changes: its lowercase
/// form holds one alphabetic character, which is not uppercase, and its
/// uppercase form holds one alphabetic character, which is uppercase.
pub open spec fn keeps_case(c: char) -> bool {
    let lower = lowercase_of(c).filter(|x: char| alphabetic(x));
    let upper = uppercase_of(c).filter(|x: char| alphabetic(x));
    &&& lower.len() == 1
    &&& !uppercase(lower[0])
    &&& upper.len() == 1
    &&& uppercase(upper[0])
}

/// Whether every alphabetic character of a text keeps its place when its
/// case changes.
pub open spec fn cased_text(text: Seq<char>) -> bool {
    forall|i: int| 0 <= i < text.len() && alphabetic(#[trigger] text[i]) ==> keeps_case(text[i])
}

/// Whether every character of a text is a character of ASCII.
pub open spec fn ascii_text(text: Seq<char>) -> bool {
    forall|i: int| 0 <= i < text.len() ==> crate::chars::is_ascii(#[trigger] text[i])
}

/// The alphabetic characters of a text of one character.
proof fn lemma_filter_single(c: char)
    ensures
        seq![c].filter(|x: char| alphabetic(x)) == if alphabetic(c) {
            seq![c]
        } else {
            Seq::empty()
        },
{
    let letters = |x: char| alphabetic(x);
    let none = Seq::<char>::empty();
    none.lemma_filter_push(c, letters);
    assert(none.filter(letters) == none) by {
        reveal(Seq::filter);
    }
    assert(none.push(c) =~= seq![c]);
}

/// The letters of ASCII keep their place when their case changes.
pub proof fn lemma_ascii_letters_keep_case(c: char)
    requires
        is_ascii_letter(c),
    ensures
        keeps_case(c),
{
    lemma_filter_single(crate::chars::ascii_small_of(c));
    lemma_filter_single(crate::chars::ascii_capital_of(c));
}

/// Every alphabetic character of a text of ASCII keeps its place when its
/// case changes.
pub proof fn lemma_ascii_text_is_cased(text: Seq<char>)
    requires
        ascii_text(text),
    ensures
        cased_text(text),
{
    assert forall|i: int| 0 <= i < text.len() && alphabetic(#[trigger] text[i]) implies keeps_case(
        text[i],
    ) by {
        lemma_ascii_letters_keep_case(text[i]);
    }
}

/// The substitution values of a text in two parts are those of the first
/// part and then those of the second.
proof fn lemma_case_symbols_add<AB>(x: Seq<char>, y: Seq<char>, a: AB, b: AB)
    ensures
        case_symbols(x + y, a, b) == case_symbols(x, a, b) + case_symbols(y, a, b),
{
    Seq::filter_distributes_over_add(x, y, |c: char| alphabetic(c));
    assert(case_symbols(x + y, a, b) =~= case_symbols(x, a, b) + case_symbols(y, a, b));
}

/// What the case of a character's form tells: nothing for a character that
/// is not alphabetic, and for one that keeps its place `a` in its lowercase
/// form and `b` in its uppercase form.
proof fn lemma_case_symbols_of_forms<AB>(c: char, a: AB, b: AB)
    ensures
        !alphabetic(c) ==> case_symbols(seq![c], a, b) == Seq::<AB>::empty(),
        alphabetic(c) ==> case_symbols(seq![c], a, b).len() == 1,
        alphabetic(c) && keeps_case(c) ==> case_symbols(lowercase_of(c), a, b) == seq![a]
            && case_symbols(uppercase_of(c), a, b) == seq![b],
{
    lemma_filter_single(c);
    if !alphabetic(c) {
        assert(case_symbols(seq![c], a, b) =~= Seq::<AB>::empty());
    } else if keeps_case(c) {
        assert(case_symbols(lowercase_of(c), a, b) =~= seq![a]);
        assert(case_symbols(uppercase_of(c), a, b) =~= seq![b]);
    }
}

/// The walk over the public text, read back: as long as elements of the
/// encoded secret are left, what the case of the written text tells is what
/// was taken of it, and what was taken stays in front afterwards.
proof fn lemma_case_walk<AB>(public: Seq<char>, symbols: Seq<AB>, a: AB, b: AB)
    requires
        a != b,
        forall|i: int| 0 <= i < symbols.len() ==> #[trigger] symbols[i] == a || symbols[i] == b,
        cased_text(public),
    ensures
        ({
            let taken = consumed(public, symbols, a, b);
            let read = case_symbols(
                carried(
                    public,
                    symbols,
                    a,
                    b,
                    |c: char| lowercase_of(c),
                    |c: char| uppercase_of(c),
                ),
                a,
                b,
            );
            &&& taken <= symbols.len()
            &&& taken <= read.len()
            &&& read.take(taken as int) == symbols.take(taken as int)
            &&& taken < symbols.len() ==> read.len() == taken
            &&& taken == if alphabetic_count(public) <= symbols.len() {
                alphabetic_count(public)
            } else {
                symbols.len()
            }
        }),
    decreases public.len(),
{
    let as_a = |c: char| lowercase_of(c);
    let as_b = |c: char| uppercase_of(c);
    if public.len() == 0 {
        assert(case_symbols(Seq::<char>::empty(), a, b) =~= Seq::<AB>::empty()) by {
            reveal(Seq::filter);
        }
        assert(Seq::<AB>::empty().take(0) =~= symbols.take(0));
    } else {
        let front = public.drop_last();
        let c = public.last();
        assert(cased_text(front)) by {
            assert forall|i: int| 0 <= i < front.len() && alphabetic(
                #[trigger] front[i],
            ) implies keeps_case(front[i]) by {
                assert(front[i] == public[i]);
            }
        }
        lemma_case_walk(front, symbols, a, b);
        let k = consumed(front, symbols, a, b);
        let written = carried(front, symbols, a, b, as_a, as_b);
        let piece = carried_char(c, k, symbols, a, b, as_a, as_b);
        let before = case_symbols(written, a, b);
        lemma_case_symbols_add(written, piece, a, b);
        lemma_case_symbols_of_forms(c, a, b);
        let read = case_symbols(written + piece, a, b);
        if takes_symbol(c, k, symbols, a, b) {
            assert(keeps_case(c));
            assert(case_symbols(piece, a, b) == seq![symbols[k as int]]);
            assert(read =~= symbols.take(k as int).push(symbols[k as int])) by {
                assert(before =~= before.take(k as int));
            }
            assert(read.take(k as int + 1) =~= symbols.take(k as int + 1));
        } else {
            assert(piece == seq![c]);
            assert(read.take(k as int) =~= before.take(k as int));
            if alphabetic(c) {
                assert(k == symbols.len());
            } else {
                assert(read =~= before);
            }
        }
    }
}

/// What the letter-case steganographer writes carries the encoded secret in
/// front: where the two substitution values differ, the encoded secret holds
/// nothing else, the public text has an alphabetic character for each of its
/// elements, and every alphabetic character of the public text keeps its
/// place when its case changes, the values read back from the written text
/// start with the encoded secret.
pub proof fn law_letter_case_carries<C: BaconCodec<CONTENT = char>>(
    codec: &C,
    secret: Seq<char>,
    public: Seq<char>,
)
    requires
        codec.spec_a() != codec.spec_b(),
        forall|i: int|
            0 <= i < encoded(codec, secret).len() ==> #[trigger] encoded(codec, secret)[i]
                == codec.spec_a() || encoded(codec, secret)[i] == codec.spec_b(),
        alphabetic_count(public) >= encoded(codec, secret).len(),
        cased_text(public),
    ensures
        ({
            let read = case_symbols(
                carried(
                    public,
                    encoded(codec, secret),
                    codec.spec_a(),
                    codec.spec_b(),
                    |c: char| lowercase_of(c),
                    |c: char| uppercase_of(c),
                ),
                codec.spec_a(),
                codec.spec_b(),
            );
            &&& read.len() >= encoded(codec, secret).len()
            &&& read.take(encoded(codec, secret).len() as int) == encoded(codec, secret)
        }),
{
    let symbols = encoded(codec, secret);
    lemma_case_walk(public, symbols, codec.spec_a(), codec.spec_b());
    assert(symbols.take(symbols.len() as int) =~= symbols);
}

/// The round trip of the letter-case steganographer, for either version of
/// the cipher.
proof fn lemma_letter_case_round_trip<C: BaconCodec<CONTENT = char>>(
    codec: &C,
    version: Version,
    secret: Seq<char>,
    public: Seq<char>,
)
    requires
        codec.spec_a() != codec.spec_b(),
        follows(codec, version),
        alphabetic_count(public) >= alphabetic_count(secret) * 5,
        cased_text(public),
    ensures
        ({
            let read = case_symbols(
                carried(
                    public,
                    encoded(codec, secret),
                    codec.spec_a(),
                    codec.spec_b(),
                    |c: char| lowercase_of(c),
                    |c: char| uppercase_of(c),
                ),
                codec.spec_a(),
                codec.spec_b(),
            );
            let letters = letters_of(secret);
            &&& all_letters(letters)
            &&& decoded(codec, read).len() >= letters.len()
            &&& decoded(codec, read).take(letters.len() as int) == decoded(
                codec,
                encoded(codec, letters),
            )
        }),
{
    let symbols = encoded(codec, secret);
    let letters = letters_of(secret);
    lemma_encoded_shape(codec, version, secret);
    assert(symbols.len() <= alphabetic_count(public)) by (nonlinear_arith)
        requires
            symbols.len() == letters.len() * 5,
            letters.len() <= alphabetic_count(secret),
            alphabetic_count(public) >= alphabetic_count(secret) * 5,
    ;
    law_letter_case_carries(codec, secret, public);
    let read = case_symbols(
        carried(
            public,
            symbols,
            codec.spec_a(),
            codec.spec_b(),
            |c: char| lowercase_of(c),
            |c: char| uppercase_of(c),
        ),
        codec.spec_a(),
        codec.spec_b(),
    );
    lemma_read_back(codec, version, secret, read);
}

/// Round trip of the letter-case steganographer with a codec of the first
/// version: where `disguise` has room for the secret, the two substitution
/// values differ and every alphabetic character of the public text keeps its
/// place when its case changes, what `reveal_secret` reads from the disguised
/// text starts with the Latin letters of the secret, every letter as the first
/// capital letter that shares its number: in capital letters, where the secret
/// has neither `J` nor `V`.
pub proof fn law_letter_case_round_trip<T: Symbol>(
    codec: &CharCodec<T>,
    secret: Seq<char>,
    public: Seq<char>,
)
    requires
        codec.spec_a() != codec.spec_b(),
        alphabetic_count(public) >= alphabetic_count(secret) * codec.spec_encoded_group_size(),
        cased_text(public),
    ensures
        ({
            let disguised = carried(
                public,
                encoded(codec, secret),
                codec.spec_a(),
                codec.spec_b(),
                |c: char| lowercase_of(c),
                |c: char| uppercase_of(c),
            );
            let revealed = decoded(
                codec,
                case_symbols(disguised, codec.spec_a(), codec.spec_b()),
            );
            let letters = letters_of(secret);
            &&& revealed.len() >= letters.len()
            &&& revealed.take(letters.len() as int) == canonical(Version::First, letters)
            &&& !has_shared_letter(Version::First, letters) ==> revealed.take(
                letters.len() as int,
            ) == upper_case(letters)
        }),
{
    lemma_letter_case_round_trip(codec, Version::First, secret, public);
    law_round_trip(codec, letters_of(secret));
}

/// Round trip of the letter-case steganographer with a codec of the second
/// version: under the same conditions, what `reveal_secret` reads from the
/// disguised text starts with the Latin letters of the secret in capital
/// letters.
pub proof fn law_letter_case_round_trip_v2<T: Symbol>(
    codec: &CharCodecV2<T>,
    secret: Seq<char>,
    public: Seq<char>,
)
    requires
        codec.spec_a() != codec.spec_b(),
        alphabetic_count(public) >= alphabetic_count(secret) * codec.spec_encoded_group_size(),
        cased_text(public),
    ensures
        ({
            let disguised = carried(
                public,
                encoded(codec, secret),
                codec.spec_a(),
                codec.spec_b(),
                |c: char| lowercase_of(c),
                |c: char| uppercase_of(c),
            );
            let revealed = decoded(
                codec,
                case_symbols(disguised, codec.spec_a(), codec.spec_b()),
            );
            let letters = letters_of(secret);
            &&& revealed.len() >= letters.len()
            &&& revealed.take(letters.len() as int) == upper_case(letters)
        }),
{
    lemma_letter_case_round_trip(codec, Version::Second, secret, public);
    law_round_trip_v2(codec, letters_of(secret));
}

} // verus!
