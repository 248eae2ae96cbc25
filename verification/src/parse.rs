//! Reading a field selection such as `2-4,8,11-` into its descriptors.

use vstd::prelude::*;
use vstd::string::StringExecFns;
use crate::field_list::FieldList;
use crate::field_range::FieldRange;
use crate::line::{chars_of, split, split_line, views};

verus! {

/// Why a field selection could not be read.
#[derive(Debug, PartialEq, Eq)]
pub enum ParseError {
    /// A token that is not an unsigned number that fits; holds the token.
    Number(String),
    /// A range with no bound or with more than two; holds the whole part.
    Range(String),
}

/// What a `ParseError` says, with its text as characters.
pub enum ParseFailure {
    /// The token that is no number.
    Number(Seq<char>),
    /// The part that is no range.
    Range(Seq<char>),
}

impl View for ParseError {
    type V = ParseFailure;

    open spec fn view(&self) -> ParseFailure {
        match self {
            ParseError::Number(token) => ParseFailure::Number(token@),
            ParseError::Range(part) => ParseFailure::Range(part@),
        }
    }
}

impl ParseFailure {
    /// The text of the failure, for the user.
    pub open spec fn message(self) -> Seq<char> {
        match self {
            ParseFailure::Number(token) => "Failed to parse "@ + token,
            ParseFailure::Range(part) => "could not parse '"@ + part + "'"@,
        }
    }
}

impl ParseError {
    /// The text of the error, for the user: it names the token or the part
    /// that could not be read.
    pub fn message(&self) -> (text: String)
        ensures
            text@ == self@.message(),
    {
        match self {
            ParseError::Number(token) => String::from_str("Failed to parse ").concat(
                token.as_str(),
            ),
            ParseError::Range(part) => String::from_str("could not parse '").concat(
                part.as_str(),
            ).concat("'"),
        }
    }
}

/// Whether `c` is a decimal digit.
pub open spec fn is_digit(c: char) -> bool {
    '0' <= c <= '9'
}

/// The number that the digit `c` stands for; 0 for any other character.
pub open spec fn digit_value(c: char) -> nat {
    if is_digit(c) {
        (c as nat - '0' as nat) as nat
    } else {
        0
    }
}

/// The number that `digits` spell in base ten.
pub open spec fn decimal_value(digits: Seq<char>) -> nat
    decreases digits.len(),
{
    if digits.len() == 0 {
        0
    } else {
        10 * decimal_value(digits.drop_last()) + digit_value(digits.last())
    }
}

/// The number that `token` spells, if it spells one: one or more decimal
/// digits and nothing else, not even a sign, with a value that fits `u32`.
pub open spec fn number_value(token: Seq<char>) -> Option<u32> {
    if token.len() > 0 && (forall|k: int| 0 <= k < token.len() ==> is_digit(#[trigger] token[k]))
        && decimal_value(token) <= u32::MAX {
        Some(decimal_value(token) as u32)
    } else {
        None
    }
}

/// The number spelled by the first digits of a sequence is at most the
/// number spelled by all of it.
pub proof fn lemma_decimal_value_prefix(digits: Seq<char>, n: int)
    requires
        0 <= n <= digits.len(),
    ensures
        decimal_value(digits.take(n)) <= decimal_value(digits),
    decreases digits.len(),
{
    if n < digits.len() {
        assert(digits.drop_last().take(n) =~= digits.take(n));
        lemma_decimal_value_prefix(digits.drop_last(), n);
    } else {
        assert(digits.take(n) =~= digits);
    }
}

/// What reading `token` as a number gives: its value, or the failure that
/// names the token.
pub open spec fn parse_number(token: Seq<char>) -> Result<u32, ParseFailure> {
    match number_value(token) {
        Some(n) => Ok(n),
        None => Err(ParseFailure::Number(token)),
    }
}

/// Reads `number_str` as an unsigned number.
pub fn parse_int(number_str: &str) -> (number: Result<u32, ParseError>)
    ensures
        match number {
            Ok(n) => parse_number(number_str@) == Ok::<u32, ParseFailure>(n),
            Err(e) => parse_number(number_str@) == Err::<u32, ParseFailure>(e@),
        },
{
    let digits = chars_of(number_str);
    if digits.len() == 0 {
        return Err(ParseError::Number(number_str.to_owned()));
    }
    let mut value: u64 = 0;
    let mut i: usize = 0;
    assert(digits@.take(0) =~= Seq::<char>::empty());
    while i < digits.len()
        invariant
            i <= digits.len(),
            digits@ == number_str@,
            forall|k: int| 0 <= k < i ==> is_digit(#[trigger] digits@[k]),
            value == decimal_value(digits@.take(i as int)),
            value <= u32::MAX,
        decreases digits.len() - i,
    {
        let c = digits[i];
        if !(c >= '0' && c <= '9') {
            return Err(ParseError::Number(number_str.to_owned()));
        }
        let digit: u64 = (c as u32 - '0' as u32) as u64;
        proof {
            let upto = digits@.take(i + 1);
            assert(upto.drop_last() =~= digits@.take(i as int));
            assert(upto.last() == c);
            lemma_decimal_value_prefix(digits@, i + 1);
        }
        value = value * 10 + digit;
        if value > 0xffff_ffff {
            return Err(ParseError::Number(number_str.to_owned()));
        }
        i = i + 1;
    }
    assert(digits@.take(i as int) =~= digits@);
    Ok(value as u32)
}

/// The separator between the parts of a field selection.
pub open spec fn comma() -> Seq<char> {
    seq![',']
}

/// The separator between the bounds of a range.
pub open spec fn dash() -> Seq<char> {
    seq!['-']
}

/// The bounds written in a range: what stands between its dashes, with the
/// empty pieces that a leading, trailing or doubled dash leaves taken out.
pub open spec fn bounds_of(part: Seq<char>) -> Seq<Seq<char>> {
    split(part, dash()).filter(|piece: Seq<char>| piece.len() > 0)
}

/// What reading one part of a field selection gives. A part without a dash
/// is a single field. A part with a dash is a range: with two bounds a
/// closed one, with one bound an open one, and with none or more than two a
/// failure that names the part. A bound that is no number fails, the first
/// one first.
pub open spec fn parse_part(part: Seq<char>) -> Result<FieldRange, ParseFailure> {
    if part.contains('-') {
        let bounds = bounds_of(part);
        if bounds.len() == 2 {
            match parse_number(bounds[0]) {
                Err(failure) => Err(failure),
                Ok(start) => match parse_number(bounds[1]) {
                    Err(failure) => Err(failure),
                    Ok(stop) => Ok(FieldRange::Range2((start, stop))),
                },
            }
        } else if bounds.len() == 1 {
            match parse_number(bounds[0]) {
                Err(failure) => Err(failure),
                Ok(start) => Ok(FieldRange::Range1(start)),
            }
        } else {
            Err(ParseFailure::Range(part))
        }
    } else {
        match parse_number(part) {
            Err(failure) => Err(failure),
            Ok(n) => Ok(FieldRange::Value(n)),
        }
    }
}

/// What reading `parts` one after the other gives: the descriptors in the
/// order of the parts, or the failure of the first part that fails.
pub open spec fn parse_parts(parts: Seq<Seq<char>>) -> Result<Seq<FieldRange>, ParseFailure>
    decreases parts.len(),
{
    if parts.len() == 0 {
        Ok(Seq::empty())
    } else {
        match parse_parts(parts.drop_last()) {
            Err(failure) => Err(failure),
            Ok(fields) => match parse_part(parts.last()) {
                Err(failure) => Err(failure),
                Ok(field) => Ok(fields.push(field)),
            },
        }
    }
}

/// What reading a whole field selection gives: its comma-separated parts,
/// read one after the other.
pub open spec fn parse_fields(fields: Seq<char>) -> Result<Seq<FieldRange>, ParseFailure> {
    parse_parts(split(fields, comma()))
}

/// A failure among the first parts is the failure of the whole.
pub proof fn lemma_parse_parts_fails_early(parts: Seq<Seq<char>>, n: int)
    requires
        0 <= n <= parts.len(),
        parse_parts(parts.take(n)) is Err,
    ensures
        parse_parts(parts) == parse_parts(parts.take(n)),
    decreases parts.len(),
{
    if n < parts.len() {
        assert(parts.drop_last().take(n) =~= parts.take(n));
        lemma_parse_parts_fails_early(parts.drop_last(), n);
    } else {
        assert(parts.take(n) =~= parts);
    }
}

/// Keeping the non-empty pieces of a sequence extended by one piece.
pub proof fn lemma_keep_push(pieces: Seq<Seq<char>>, piece: Seq<char>)
    ensures
        pieces.push(piece).filter(|p: Seq<char>| p.len() > 0) == if piece.len() > 0 {
            pieces.filter(|p: Seq<char>| p.len() > 0).push(piece)
        } else {
            pieces.filter(|p: Seq<char>| p.len() > 0)
        },
{
    reveal(Seq::filter);
    assert(pieces.push(piece).drop_last() =~= pieces);
}

/// Tells whether `c` occurs in `text`.
fn has_char(text: &str, c: char) -> (found: bool)
    ensures
        found == text@.contains(c),
{
    let chars = chars_of(text);
    let mut i: usize = 0;
    while i < chars.len()
        invariant
            i <= chars.len(),
            chars@ == text@,
            forall|k: int| 0 <= k < i ==> text@[k] != c,
        decreases chars.len() - i,
    {
        if chars[i] == c {
            return true;
        }
        i = i + 1;
    }
    false
}

/// Reads one comma-free part of a field selection.
pub fn make_field_range(part: &str) -> (field: Result<FieldRange, ParseError>)
    ensures
        match field {
            Ok(f) => parse_part(part@) == Ok::<FieldRange, ParseFailure>(f),
            Err(e) => parse_part(part@) == Err::<FieldRange, ParseFailure>(e@),
        },
{
    if !has_char(part, '-') {
        return match parse_int(part) {
            Ok(n) => Ok(FieldRange::Value(n)),
            Err(e) => Err(e),
        };
    }
    proof {
        reveal_strlit("-");
        assert("-"@ =~= dash());
    }
    let pieces = split_line(part, "-");
    let mut subparts: Vec<&str> = Vec::new();
    let mut i: usize = 0;
    proof {
        reveal(Seq::filter);
        assert(views(pieces@).take(0) =~= Seq::<Seq<char>>::empty());
    }
    while i < pieces.len()
        invariant
            i <= pieces.len(),
            views(subparts@) == views(pieces@).take(i as int).filter(|p: Seq<char>| p.len() > 0),
        decreases pieces.len() - i,
    {
        let ghost kept = views(subparts@);
        if !pieces[i].is_empty() {
            subparts.push(pieces[i]);
        }
        proof {
            let piece = pieces@[i as int]@;
            assert(views(pieces@).take(i + 1) =~= views(pieces@).take(i as int).push(piece));
            lemma_keep_push(views(pieces@).take(i as int), piece);
            assert(views(subparts@) =~= if piece.len() > 0 {
                kept.push(piece)
            } else {
                kept
            });
        }
        i = i + 1;
    }
    assert(views(pieces@).take(i as int) =~= views(pieces@));
    assert(views(subparts@) == bounds_of(part@));
    if subparts.len() == 2 {
        let start = match parse_int(subparts[0]) {
            Ok(n) => n,
            Err(e) => { return Err(e); },
        };
        let stop = match parse_int(subparts[1]) {
            Ok(n) => n,
            Err(e) => { return Err(e); },
        };
        Ok(FieldRange::Range2((start, stop)))
    } else if subparts.len() == 1 {
        match parse_int(subparts[0]) {
            Ok(start) => Ok(FieldRange::Range1(start)),
            Err(e) => Err(e),
        }
    } else {
        Err(ParseError::Range(part.to_owned()))
    }
}

/// Reads a field selection: comma-separated parts, each a field number
/// (`8`), an open range (`11-`) or a closed range (`2-4`).
pub fn make_field_list(fields_str: &str) -> (list: Result<FieldList, ParseError>)
    ensures
        match list {
            Ok(l) => parse_fields(fields_str@) == Ok::<Seq<FieldRange>, ParseFailure>(l@),
            Err(e) => parse_fields(fields_str@) == Err::<Seq<FieldRange>, ParseFailure>(e@),
        },
{
    let mut fields: Vec<FieldRange> = Vec::new();
    proof {
        reveal_strlit(",");
        assert(","@ =~= comma());
    }
    let fields_parts = split_line(fields_str, ",");
    let mut i: usize = 0;
    assert(views(fields_parts@).take(0) =~= Seq::<Seq<char>>::empty());
    while i < fields_parts.len()
        invariant
            i <= fields_parts.len(),
            views(fields_parts@) == split(fields_str@, comma()),
            parse_parts(views(fields_parts@).take(i as int)) == Ok::<Seq<FieldRange>, ParseFailure>(
                fields@,
            ),
        decreases fields_parts.len() - i,
    {
        let field = make_field_range(fields_parts[i]);
        proof {
            let upto = views(fields_parts@).take(i + 1);
            assert(upto.drop_last() =~= views(fields_parts@).take(i as int));
            assert(upto.last() == fields_parts@[i as int]@);
        }
        match field {
            Ok(f) => {
                fields.push(f);
            },
            Err(e) => {
                proof {
                    lemma_parse_parts_fails_early(views(fields_parts@), i + 1);
                }
                return Err(e);
            },
        }
        i = i + 1;
    }
    assert(views(fields_parts@).take(i as int) =~= views(fields_parts@));
    Ok(FieldList { fields })
}

} // verus!
