//! What holds of splitting, reading and resolving taken together.

use vstd::prelude::*;
use crate::field_list::{lemma_resolve_concat, resolve};
use crate::field_range::{span, FieldRange};
use crate::line::{
    find_from, join, lemma_find_from_first, lemma_find_from_none, lemma_find_from_some, occurs_at,
    split, split_from,
};
use crate::parse::{
    bounds_of, comma, dash, decimal_value, is_digit, lemma_keep_push, number_value, parse_fields,
    parse_part, parse_parts, ParseFailure,
};

verus! {

/// A one-character pattern stands exactly where that character stands.
pub proof fn lemma_occurs_at_char(text: Seq<char>, c: char, at: int)
    ensures
        occurs_at(text, seq![c], at) <==> (0 <= at < text.len() && text[at] == c),
{
    if 0 <= at < text.len() {
        if text[at] == c {
            assert(text.subrange(at, at + 1) =~= seq![c]);
        } else {
            assert(text.subrange(at, at + 1)[0] == text[at]);
        }
    }
}

/// A text in which the delimiter never stands from `from` on is, from there
/// on, one single piece.
pub proof fn lemma_split_from_unbroken(text: Seq<char>, delimiter: Seq<char>, from: int)
    requires
        delimiter.len() > 0,
        0 <= from <= text.len(),
        forall|at: int| from <= at ==> !occurs_at(text, delimiter, at),
    ensures
        split_from(text, delimiter, from) == seq![text.subrange(from, text.len() as int)],
{
    if find_from(text, delimiter, from) is Some {
        lemma_find_from_some(text, delimiter, from);
    }
}

/// The piece before the first occurrence of the delimiter is the first
/// piece, and the pieces after the occurrence follow it.
pub proof fn lemma_split_from_first(text: Seq<char>, delimiter: Seq<char>, from: int, at: int)
    requires
        delimiter.len() > 0,
        0 <= from <= at,
        occurs_at(text, delimiter, at),
        forall|k: int| from <= k < at ==> !occurs_at(text, delimiter, k),
    ensures
        split_from(text, delimiter, from) == seq![text.subrange(from, at)] + split_from(
            text,
            delimiter,
            at + delimiter.len(),
        ),
{
    lemma_find_from_first(text, delimiter, from, at);
}

/// Searching in the second of two texts written one after the other finds
/// what searching in the second alone finds, further right by the length of
/// the first.
pub proof fn lemma_find_from_shift(
    head: Seq<char>,
    tail: Seq<char>,
    pattern: Seq<char>,
    from: int,
)
    requires
        0 <= from,
    ensures
        find_from(head + tail, pattern, head.len() + from) == match find_from(tail, pattern, from) {
            Some(at) => Some(head.len() + at),
            None => None,
        },
    decreases tail.len() - from + 1,
{
    let whole = head + tail;
    if from + pattern.len() <= tail.len() {
        assert(whole.subrange(head.len() + from, head.len() + from + pattern.len())
            =~= tail.subrange(from, from + pattern.len()));
        if !occurs_at(tail, pattern, from) {
            lemma_find_from_shift(head, tail, pattern, from + 1);
        }
    }
}

/// Splitting the second of two texts written one after the other gives the
/// pieces of the second alone.
pub proof fn lemma_split_from_shift(
    head: Seq<char>,
    tail: Seq<char>,
    delimiter: Seq<char>,
    from: int,
)
    requires
        delimiter.len() > 0,
        0 <= from <= tail.len(),
    ensures
        split_from(head + tail, delimiter, head.len() + from) == split_from(tail, delimiter, from),
    decreases tail.len() - from,
{
    let whole = head + tail;
    lemma_find_from_shift(head, tail, delimiter, from);
    match find_from(tail, delimiter, from) {
        None => {
            assert(whole.subrange(head.len() + from, whole.len() as int) =~= tail.subrange(
                from,
                tail.len() as int,
            ));
        },
        Some(at) => {
            lemma_find_from_some(tail, delimiter, from);
            assert(whole.subrange(head.len() + from, head.len() + at) =~= tail.subrange(from, at));
            lemma_split_from_shift(head, tail, delimiter, at + delimiter.len());
        },
    }
}

/// Two texts written with a one-character delimiter between them split into
/// the pieces of the first followed by the pieces of the second, from any
/// position of the first on.
pub proof fn lemma_split_from_concat_char(first: Seq<char>, second: Seq<char>, c: char, from: int)
    requires
        0 <= from <= first.len(),
    ensures
        split_from(first + seq![c] + second, seq![c], from) == split_from(first, seq![c], from)
            + split_from(second, seq![c], 0),
    decreases first.len() - from,
{
    let delimiter = seq![c];
    let whole = first + delimiter + second;
    assert forall|k: int| 0 <= k < first.len() implies (occurs_at(whole, delimiter, k)
        <==> occurs_at(first, delimiter, k)) by {
        lemma_occurs_at_char(whole, c, k);
        lemma_occurs_at_char(first, c, k);
    }
    match find_from(first, delimiter, from) {
        Some(at) => {
            lemma_find_from_some(first, delimiter, from);
            lemma_split_from_first(whole, delimiter, from, at);
            assert(whole.subrange(from, at) =~= first.subrange(from, at));
            lemma_split_from_concat_char(first, second, c, at + 1);
        },
        None => {
            lemma_find_from_none(first, delimiter, from);
            lemma_occurs_at_char(whole, c, first.len() as int);
            lemma_split_from_first(whole, delimiter, from, first.len() as int);
            assert(whole.subrange(from, first.len() as int) =~= first.subrange(
                from,
                first.len() as int,
            ));
            lemma_split_from_shift(first + delimiter, second, delimiter, 0);
        },
    }
}

/// Reading parts written one after the other gives the descriptors of the
/// first parts followed by those of the last parts.
pub proof fn lemma_parse_parts_concat(first: Seq<Seq<char>>, second: Seq<Seq<char>>)
    requires
        parse_parts(first) is Ok,
        parse_parts(second) is Ok,
    ensures
        parse_parts(first + second) == Ok::<Seq<FieldRange>, ParseFailure>(
            parse_parts(first)->Ok_0 + parse_parts(second)->Ok_0,
        ),
    decreases second.len(),
{
    if second.len() == 0 {
        assert(first + second =~= first);
        assert(parse_parts(first)->Ok_0 + parse_parts(second)->Ok_0 =~= parse_parts(first)->Ok_0);
    } else {
        assert((first + second).drop_last() =~= first + second.drop_last());
        assert((first + second).last() == second.last());
        lemma_parse_parts_concat(first, second.drop_last());
        let init = parse_parts(second.drop_last())->Ok_0;
        let field = parse_part(second.last())->Ok_0;
        assert((parse_parts(first)->Ok_0 + init).push(field) =~= parse_parts(first)->Ok_0
            + init.push(field));
    }
}

/// Reading keeps the order in which a selection is written: two selections
/// joined by a comma read as the descriptors of the first followed by the
/// descriptors of the second.
pub proof fn lemma_parse_fields_concat(first: Seq<char>, second: Seq<char>)
    requires
        parse_fields(first) is Ok,
        parse_fields(second) is Ok,
    ensures
        parse_fields(first + comma() + second) == Ok::<Seq<FieldRange>, ParseFailure>(
            parse_fields(first)->Ok_0 + parse_fields(second)->Ok_0,
        ),
{
    lemma_split_from_concat_char(first, second, ',', 0);
    lemma_parse_parts_concat(split(first, comma()), split(second, comma()));
}

/// Reading and resolving keep the order in which a selection is written, and
/// give the same fields each time: on a line of `max` fields, two selections
/// joined by a comma select the fields of the first followed by the fields
/// of the second.
pub proof fn lemma_selection_order_is_kept(first: Seq<char>, second: Seq<char>, max: u32)
    requires
        parse_fields(first) is Ok,
        parse_fields(second) is Ok,
    ensures
        parse_fields(first + comma() + second) is Ok,
        resolve(parse_fields(first + comma() + second)->Ok_0, max) == resolve(
            parse_fields(first)->Ok_0,
            max,
        ) + resolve(parse_fields(second)->Ok_0, max),
{
    lemma_parse_fields_concat(first, second);
    lemma_resolve_concat(parse_fields(first)->Ok_0, parse_fields(second)->Ok_0, max);
}

/// Reading and resolving depend on the selection and the field count alone:
/// whatever two runs on the same selection and the same line length give,
/// they give the same fields in the same order.
pub proof fn lemma_resolution_is_deterministic(
    selection: Seq<char>,
    max: u32,
    once: Seq<u32>,
    again: Seq<u32>,
)
    requires
        parse_fields(selection) is Ok,
        once == resolve(parse_fields(selection)->Ok_0, max),
        again == resolve(parse_fields(selection)->Ok_0, max),
    ensures
        once == again,
{
}

/// A selection of one descriptor selects what that descriptor selects.
pub proof fn lemma_resolve_single(field: FieldRange, max: u32)
    ensures
        resolve(seq![field], max) == field.selected(max),
{
    let each = |r: FieldRange| r.selected(max);
    assert(seq![field].map_values(each) =~= seq![each(field)]);
    seq![each(field)].lemma_flatten_singleton();
}

/// A selection without a comma is a single part.
pub proof fn lemma_parse_fields_single(selection: Seq<char>)
    requires
        !selection.contains(','),
    ensures
        parse_fields(selection) == match parse_part(selection) {
            Ok(field) => Ok::<Seq<FieldRange>, ParseFailure>(seq![field]),
            Err(failure) => Err::<Seq<FieldRange>, ParseFailure>(failure),
        },
{
    assert forall|at: int| 0 <= at implies !occurs_at(selection, comma(), at) by {
        lemma_occurs_at_char(selection, ',', at);
    }
    lemma_split_from_unbroken(selection, comma(), 0);
    assert(selection.subrange(0, selection.len() as int) =~= selection);
    let parts = seq![selection];
    assert(parts.drop_last() =~= Seq::<Seq<char>>::empty());
    assert(parse_parts(parts.drop_last()) == Ok::<Seq<FieldRange>, ParseFailure>(Seq::empty()));
    if parse_part(selection) is Ok {
        assert(Seq::<FieldRange>::empty().push(parse_part(selection)->Ok_0) =~= seq![
            parse_part(selection)->Ok_0,
        ]);
    }
}

/// A token that spells a number holds neither a comma nor a dash.
pub proof fn lemma_number_has_no_separator(token: Seq<char>)
    requires
        number_value(token) is Some,
    ensures
        token.len() > 0,
        !token.contains(','),
        !token.contains('-'),
{
    assert forall|k: int| 0 <= k < token.len() implies token[k] != ',' && token[k] != '-' by {
        assert(is_digit(token[k]));
    }
}

/// Field 0 is no field: the selection `0` reads as the single field 0, and
/// selects nothing on a line of any length.
pub proof fn lemma_zero_selects_nothing(max: u32)
    ensures
        parse_fields("0"@) == Ok::<Seq<FieldRange>, ParseFailure>(seq![FieldRange::Value(0)]),
        resolve(seq![FieldRange::Value(0)], max) == Seq::<u32>::empty(),
{
    reveal_strlit("0");
    let zero = "0"@;
    assert(zero =~= seq!['0']);
    assert(!zero.contains(','));
    assert(!zero.contains('-'));
    lemma_parse_fields_single(zero);
    assert(zero.drop_last() =~= Seq::<char>::empty());
    assert(decimal_value(zero.drop_last()) == 0);
    assert(decimal_value(zero) == 0);
    assert(number_value(zero) == Some(0u32));
    lemma_resolve_single(FieldRange::Value(0), max);
}

/// A text without a dash, followed by a dash, splits at dashes into that
/// text and an empty piece.
pub proof fn lemma_split_trailing_dash(token: Seq<char>)
    requires
        !token.contains('-'),
    ensures
        split(token + dash(), dash()) == seq![token, Seq::<char>::empty()],
{
    let part = token + dash();
    let end = token.len() as int;
    assert forall|k: int| 0 <= k < end implies !occurs_at(part, dash(), k) by {
        lemma_occurs_at_char(part, '-', k);
        assert(part[k] == token[k]);
    }
    assert(occurs_at(part, dash(), end)) by {
        lemma_occurs_at_char(part, '-', end);
    }
    lemma_split_from_first(part, dash(), 0, end);
    assert forall|k: int| end + 1 <= k implies !occurs_at(part, dash(), k) by {
        lemma_occurs_at_char(part, '-', k);
    }
    lemma_split_from_unbroken(part, dash(), end + 1);
    assert(part.subrange(0, end) =~= token);
    assert(part.subrange(end + 1, part.len() as int) =~= Seq::<char>::empty());
    assert(seq![token] + seq![Seq::<char>::empty()] =~= seq![token, Seq::<char>::empty()]);
}

/// The one bound of a non-empty text without a dash, followed by a dash, is
/// that text.
pub proof fn lemma_bounds_of_trailing_dash(token: Seq<char>)
    requires
        token.len() > 0,
        !token.contains('-'),
    ensures
        bounds_of(token + dash()) == seq![token],
{
    let none = Seq::<Seq<char>>::empty();
    lemma_split_trailing_dash(token);
    assert(none.filter(|p: Seq<char>| p.len() > 0) =~= none) by {
        reveal(Seq::filter);
    }
    lemma_keep_push(none, token);
    assert(none.push(token) =~= seq![token]);
    lemma_keep_push(seq![token], Seq::<char>::empty());
    assert(seq![token].push(Seq::<char>::empty()) =~= seq![token, Seq::<char>::empty()]);
}

/// A number followed by a dash reads as the open range that starts at that
/// number.
pub proof fn lemma_parse_open_range(token: Seq<char>)
    requires
        number_value(token) is Some,
    ensures
        parse_fields(token + dash()) == Ok::<Seq<FieldRange>, ParseFailure>(
            seq![FieldRange::Range1(number_value(token)->0)],
        ),
{
    let part = token + dash();
    lemma_number_has_no_separator(token);
    assert(part[token.len() as int] == '-');
    assert(part.contains('-'));
    assert(!part.contains(','));
    lemma_parse_fields_single(part);
    lemma_bounds_of_trailing_dash(token);
}

/// An open range that starts at the last field of a line selects that field
/// alone, and one that starts beyond the line selects nothing.
pub proof fn lemma_open_range_at_line_end(token: Seq<char>, max: u32)
    requires
        number_value(token) is Some,
    ensures
        parse_fields(token + dash()) == Ok::<Seq<FieldRange>, ParseFailure>(
            seq![FieldRange::Range1(number_value(token)->0)],
        ),
        number_value(token)->0 == max && max >= 1 ==> resolve(
            seq![FieldRange::Range1(number_value(token)->0)],
            max,
        ) == seq![max],
        number_value(token)->0 > max ==> resolve(
            seq![FieldRange::Range1(number_value(token)->0)],
            max,
        ) == Seq::<u32>::empty(),
{
    lemma_parse_open_range(token);
    lemma_resolve_single(FieldRange::Range1(number_value(token)->0), max);
    assert(span(max, max) =~= seq![max]);
}

/// Splitting from any position gives at least one piece.
pub proof fn lemma_split_from_is_not_empty(text: Seq<char>, delimiter: Seq<char>, from: int)
    requires
        delimiter.len() > 0,
        0 <= from <= text.len(),
    ensures
        split_from(text, delimiter, from).len() > 0,
{
}

/// Every line has at least one field.
pub proof fn lemma_split_is_not_empty(text: Seq<char>, delimiter: Seq<char>)
    ensures
        split(text, delimiter).len() > 0,
{
}

/// Joining a piece put before other pieces puts the piece and a delimiter
/// before the others joined.
pub proof fn lemma_join_prepend(piece: Seq<char>, rest: Seq<Seq<char>>, delimiter: Seq<char>)
    requires
        rest.len() > 0,
    ensures
        join(seq![piece] + rest, delimiter) == piece + delimiter + join(rest, delimiter),
    decreases rest.len(),
{
    let all = seq![piece] + rest;
    assert(all.last() == rest.last());
    if rest.len() == 1 {
        assert(all.drop_last() =~= seq![piece]);
        assert(join(seq![piece], delimiter) == piece);
        assert(join(rest, delimiter) == rest.last());
        assert(join(all, delimiter) == piece + delimiter + rest.last());
    } else {
        assert(all.drop_last() =~= seq![piece] + rest.drop_last());
        lemma_join_prepend(piece, rest.drop_last(), delimiter);
        assert(join(all, delimiter) =~= piece + delimiter + join(rest, delimiter));
    }
}

/// Joining the pieces that follow a position gives back the text from that
/// position on.
pub proof fn lemma_join_split_from(text: Seq<char>, delimiter: Seq<char>, from: int)
    requires
        delimiter.len() > 0,
        0 <= from <= text.len(),
    ensures
        join(split_from(text, delimiter, from), delimiter) == text.subrange(
            from,
            text.len() as int,
        ),
    decreases text.len() - from,
{
    match find_from(text, delimiter, from) {
        None => {},
        Some(at) => {
            lemma_find_from_some(text, delimiter, from);
            let next = at + delimiter.len();
            let rest = split_from(text, delimiter, next);
            lemma_split_from_is_not_empty(text, delimiter, next);
            lemma_join_split_from(text, delimiter, next);
            lemma_join_prepend(text.subrange(from, at), rest, delimiter);
            assert(text.subrange(from, at) + text.subrange(at, next) + text.subrange(
                next,
                text.len() as int,
            ) =~= text.subrange(from, text.len() as int));
        },
    }
}

/// Joining an empty piece and one piece for each character of a text, with
/// nothing between them, gives back the text.
pub proof fn lemma_join_characters(text: Seq<char>)
    ensures
        join(seq![Seq::<char>::empty()] + text.map_values(|c: char| seq![c]), Seq::empty())
            == text,
    decreases text.len(),
{
    let each = |c: char| seq![c];
    let pieces = seq![Seq::<char>::empty()] + text.map_values(each);
    if text.len() == 0 {
        assert(pieces =~= seq![Seq::<char>::empty()]);
    } else {
        assert(pieces.drop_last() =~= seq![Seq::<char>::empty()] + text.drop_last().map_values(
            each,
        ));
        assert(pieces.last() == seq![text.last()]);
        lemma_join_characters(text.drop_last());
        assert(text.drop_last() + Seq::<char>::empty() + seq![text.last()] =~= text);
    }
}

/// Joining undoes splitting: the fields of a line, joined with the delimiter
/// at which the line was split, are the line.
pub proof fn lemma_join_undoes_split(text: Seq<char>, delimiter: Seq<char>)
    ensures
        join(split(text, delimiter), delimiter) == text,
{
    if delimiter.len() == 0 {
        let pieces = seq![Seq::<char>::empty()] + text.map_values(|c: char| seq![c]);
        let all = pieces + seq![Seq::<char>::empty()];
        lemma_join_characters(text);
        assert(all.drop_last() =~= pieces);
        assert(all.last() == Seq::<char>::empty());
        assert(all.len() >= 2);
        assert(join(all, delimiter) == join(pieces, delimiter) + delimiter + Seq::<char>::empty());
        assert(delimiter =~= Seq::<char>::empty());
        assert(text + delimiter + Seq::<char>::empty() =~= text);
        assert(split(text, delimiter) == all);
    } else {
        lemma_join_split_from(text, delimiter, 0);
        assert(text.subrange(0, text.len() as int) =~= text);
    }
}

} // verus!
