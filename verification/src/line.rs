//! Splitting a line into fields and joining fields back into a line.

use vstd::prelude::*;
use vstd::string::{StrSliceExecFns, StringExecFns};
use crate::field_list::{lemma_resolve_in_range, resolve, FieldList};
use crate::field_range::FieldRange;

verus! {

/// Whether `pattern` stands in `text` at position `at`.
pub open spec fn occurs_at(text: Seq<char>, pattern: Seq<char>, at: int) -> bool {
    &&& 0 <= at
    &&& at + pattern.len() <= text.len()
    &&& text.subrange(at, at + pattern.len()) == pattern
}

/// The first position at or after `from` where `pattern` stands in `text`.
pub open spec fn find_from(text: Seq<char>, pattern: Seq<char>, from: int) -> Option<int>
    decreases text.len() - from + 1,
{
    if from < 0 || from + pattern.len() > text.len() {
        None
    } else if occurs_at(text, pattern, from) {
        Some(from)
    } else {
        find_from(text, pattern, from + 1)
    }
}

/// A position that `find_from` reports is the first occurrence at or after
/// `from`.
pub proof fn lemma_find_from_some(text: Seq<char>, pattern: Seq<char>, from: int)
    requires
        find_from(text, pattern, from) is Some,
    ensures
        from <= find_from(text, pattern, from)->0,
        occurs_at(text, pattern, find_from(text, pattern, from)->0),
        forall|at: int|
            from <= at < find_from(text, pattern, from)->0 ==> !occurs_at(text, pattern, at),
    decreases text.len() - from + 1,
{
    if !occurs_at(text, pattern, from) {
        lemma_find_from_some(text, pattern, from + 1);
    }
}

/// Where `find_from` reports nothing, `pattern` stands nowhere at or after
/// `from`.
pub proof fn lemma_find_from_none(text: Seq<char>, pattern: Seq<char>, from: int)
    requires
        0 <= from,
        find_from(text, pattern, from) is None,
    ensures
        forall|at: int| from <= at ==> !occurs_at(text, pattern, at),
    decreases text.len() - from + 1,
{
    if from + pattern.len() <= text.len() {
        lemma_find_from_none(text, pattern, from + 1);
    }
}

/// The first occurrence at or after `from` is what `find_from` reports.
pub proof fn lemma_find_from_first(text: Seq<char>, pattern: Seq<char>, from: int, at: int)
    requires
        0 <= from <= at,
        occurs_at(text, pattern, at),
        forall|k: int| from <= k < at ==> !occurs_at(text, pattern, k),
    ensures
        find_from(text, pattern, from) == Some(at),
    decreases at - from,
{
    if from < at {
        lemma_find_from_first(text, pattern, from + 1, at);
    }
}

/// The pieces of `text` from position `from` on, cut at each occurrence of
/// the non-empty `delimiter`, searching left to right and resuming after
/// each occurrence.
pub open spec fn split_from(text: Seq<char>, delimiter: Seq<char>, from: int) -> Seq<Seq<char>>
    decreases text.len() - from,
    when delimiter.len() > 0 && 0 <= from <= text.len()
{
    match find_from(text, delimiter, from) {
        None => seq![text.subrange(from, text.len() as int)],
        Some(at) => {
            proof {
                lemma_find_from_some(text, delimiter, from);
            }
            seq![text.subrange(from, at)] + split_from(text, delimiter, at + delimiter.len())
        },
    }
}

/// The fields of `text`: the pieces between the occurrences of `delimiter`.
/// Neighbouring delimiters enclose an empty field. An empty delimiter occurs
/// before, between and after the characters, so it gives an empty field, one
/// field for each character, and an empty field again.
pub open spec fn split(text: Seq<char>, delimiter: Seq<char>) -> Seq<Seq<char>> {
    if delimiter.len() == 0 {
        seq![Seq::empty()] + text.map_values(|c: char| seq![c]) + seq![Seq::empty()]
    } else {
        split_from(text, delimiter, 0)
    }
}

/// The character sequences that the string slices of `parts` hold.
pub open spec fn views(parts: Seq<&str>) -> Seq<Seq<char>> {
    parts.map_values(|part: &str| part@)
}

/// The characters of `text`, in order.
pub fn chars_of(text: &str) -> (chars: Vec<char>)
    ensures
        chars@ == text@,
{
    let mut chars: Vec<char> = Vec::new();
    for c in it: text.chars()
        invariant
            chars@ == it.seq().take(it.index() as int),
            it.seq() == text@,
    {
        chars.push(c);
    }
    chars
}

/// Tells whether `pattern` stands in `text` at position `at`.
pub fn matches_at(text: &Vec<char>, pattern: &Vec<char>, at: usize) -> (found: bool)
    ensures
        found == occurs_at(text@, pattern@, at as int),
{
    if pattern.len() > text.len() || at > text.len() - pattern.len() {
        return false;
    }
    let mut k: usize = 0;
    while k < pattern.len()
        invariant
            k <= pattern.len(),
            at + pattern.len() <= text.len(),
            forall|j: int| 0 <= j < k ==> text@[at + j] == pattern@[j],
        decreases pattern.len() - k,
    {
        if text[at + k] != pattern[k] {
            assert(text@.subrange(at as int, at + pattern.len())[k as int] != pattern@[k as int]);
            return false;
        }
        k = k + 1;
    }
    assert(text@.subrange(at as int, at + pattern.len()) =~= pattern@);
    true
}

/// Splits `line` into its fields at each occurrence of `delimiter`.
pub fn split_line<'a>(line: &'a str, delimiter: &'a str) -> (output: Vec<&'a str>)
    ensures
        views(output@) == split(line@, delimiter@),
{
    let text = chars_of(line);
    let pattern = chars_of(delimiter);
    let mut output: Vec<&'a str> = Vec::new();
    if pattern.len() == 0 {
        output.push(line.substring_char(0, 0));
        let mut i: usize = 0;
        assert(views(output@) =~~= seq![Seq::<char>::empty()] + line@.take(0).map_values(
            |c: char| seq![c],
        ));
        while i < text.len()
            invariant
                i <= text.len(),
                text@ == line@,
                views(output@) == seq![Seq::<char>::empty()] + line@.take(i as int).map_values(
                    |c: char| seq![c],
                ),
            decreases text.len() - i,
        {
            let ghost before = views(output@);
            output.push(line.substring_char(i, i + 1));
            assert(views(output@) =~= before.push(line@.subrange(i as int, i + 1)));
            assert(line@.subrange(i as int, i + 1) =~= seq![line@[i as int]]);
            i = i + 1;
            assert(views(output@) =~~= seq![Seq::<char>::empty()] + line@.take(i as int).map_values(
                |c: char| seq![c],
            ));
        }
        output.push(line.substring_char(i, i));
        assert(line@.take(i as int) =~= line@);
        assert(views(output@) =~~= split(line@, delimiter@));
        return output;
    }
    let mut start: usize = 0;
    let mut at: usize = 0;
    while pattern.len() <= text.len() && at <= text.len() - pattern.len()
        invariant
            text@ == line@,
            pattern@ == delimiter@,
            pattern@.len() > 0,
            start <= at <= text.len(),
            find_from(text@, pattern@, start as int) == find_from(text@, pattern@, at as int),
            split(line@, delimiter@) == views(output@) + split_from(
                text@,
                pattern@,
                start as int,
            ),
        decreases text.len() - at,
    {
        if matches_at(&text, &pattern, at) {
            let ghost before = views(output@);
            output.push(line.substring_char(start, at));
            assert(views(output@) =~= before.push(text@.subrange(start as int, at as int)));
            start = at + pattern.len();
            at = start;
            assert(split(line@, delimiter@) =~= views(output@) + split_from(
                text@,
                pattern@,
                start as int,
            ));
        } else {
            at = at + 1;
        }
    }
    let ghost before = views(output@);
    output.push(line.substring_char(start, text.len()));
    assert(views(output@) =~= before.push(text@.subrange(start as int, text@.len() as int)));
    output
}

/// The line made of `parts` with `delimiter` between each two neighbours.
pub open spec fn join(parts: Seq<Seq<char>>, delimiter: Seq<char>) -> Seq<char>
    decreases parts.len(),
{
    if parts.len() == 0 {
        Seq::empty()
    } else if parts.len() == 1 {
        parts[0]
    } else {
        join(parts.drop_last(), delimiter) + delimiter + parts.last()
    }
}

/// The number of fields against which a selection is resolved on a line
/// split into `parts`. Field numbers are `u32`, so on a line with more
/// fields than `u32` counts only those that a field number can name are
/// counted.
pub open spec fn field_count(parts: Seq<Seq<char>>) -> u32 {
    if parts.len() > u32::MAX {
        u32::MAX
    } else {
        parts.len() as u32
    }
}

/// What remains of `line` when only the fields that `specs` selects are
/// kept: the line is split at `delimiter`, the selection is resolved against
/// the number of fields found, and the selected fields are joined with
/// `delimiter` in the order of the selection.
pub open spec fn cut(line: Seq<char>, delimiter: Seq<char>, specs: Seq<FieldRange>) -> Seq<char> {
    let parts = split(line, delimiter);
    join(resolve(specs, field_count(parts)).map_values(|field: u32| parts[field - 1]), delimiter)
}

/// Joins `parts` into one line, with `delimiter` between each two
/// neighbours.
pub fn join_line_parts(parts: &Vec<&str>, delimiter: &str) -> (output: String)
    ensures
        output@ == join(views(parts@), delimiter@),
{
    let mut output = String::new();
    let mut i: usize = 0;
    assert(views(parts@).take(0) =~= Seq::<Seq<char>>::empty());
    while i < parts.len()
        invariant
            i <= parts.len(),
            output@ == join(views(parts@).take(i as int), delimiter@),
        decreases parts.len() - i,
    {
        proof {
            let upto = views(parts@).take(i + 1);
            assert(upto.drop_last() =~= views(parts@).take(i as int));
            assert(upto.last() == parts@[i as int]@);
        }
        if i > 0 {
            output.append(delimiter);
        }
        output.append(parts[i]);
        i = i + 1;
    }
    assert(views(parts@).take(i as int) =~= views(parts@));
    output
}

/// Picks from `parts` the fields at the positions `indexes`, in the order
/// of `indexes`.
pub fn subset_line_parts<'a>(parts: &Vec<&'a str>, indexes: &Vec<u32>) -> (output: Vec<&'a str>)
    requires
        forall|k: int| 0 <= k < indexes@.len() ==> #[trigger] indexes@[k] < parts@.len(),
    ensures
        output@ == indexes@.map_values(|index: u32| parts@[index as int]),
{
    let mut output: Vec<&'a str> = Vec::new();
    let mut i: usize = 0;
    while i < indexes.len()
        invariant
            i <= indexes.len(),
            forall|k: int| 0 <= k < indexes@.len() ==> #[trigger] indexes@[k] < parts@.len(),
            output@ == indexes@.take(i as int).map_values(|index: u32| parts@[index as int]),
        decreases indexes.len() - i,
    {
        output.push(parts[indexes[i] as usize]);
        i = i + 1;
        assert(output@ =~= indexes@.take(i as int).map_values(|index: u32| parts@[index as int]));
    }
    assert(indexes@.take(i as int) =~= indexes@);
    output
}

/// Cuts `line` down to the fields that `fields` selects.
pub fn cut_line(line: &str, delimiter: &str, fields: &FieldList) -> (output: String)
    ensures
        output@ == cut(line@, delimiter@, fields@),
{
    let parts = split_line(line, delimiter);
    let length: u32 = if parts.len() > u32::MAX as usize {
        u32::MAX
    } else {
        parts.len() as u32
    };
    let indexes = fields.get_indexes(&length);
    let subset = subset_line_parts(&parts, &indexes);
    proof {
        let all = split(line@, delimiter@);
        lemma_resolve_in_range(fields@, length);
        assert(views(subset@) =~= resolve(fields@, length).map_values(
            |field: u32| all[field - 1],
        ));
    }
    join_line_parts(&subset, delimiter)
}

} // verus!
