use cut::field_list::FieldList;
use cut::field_range::FieldRange;
use cut::line::{chars_of, cut_line, join_line_parts, matches_at, split_line, subset_line_parts};
use cut::parse::make_field_list;

#[test]
fn split_lines_tab() {
    let input = "foo\tbar";
    let expected_output = vec!["foo", "bar"];
    let delimiter = "\t";
    let output = split_line(&input, &delimiter);
    assert_eq!(output, expected_output)
}

#[test]
fn split_lines_comma() {
    let input = "foo,bar";
    let expected_output = vec!["foo", "bar"];
    let delimiter = ",";
    let output = split_line(&input, &delimiter);
    assert_eq!(output, expected_output)
}

#[test]
fn split_lines_pipe() {
    let input = "foo|bar";
    let expected_output = vec!["foo", "bar"];
    let delimiter = "|";
    let output = split_line(&input, &delimiter);
    assert_eq!(output, expected_output)
}

#[test]
fn test_join_tab() {
    let input = vec!["foo", "bar"];
    let expected_output = "foo\tbar";
    let output = join_line_parts(&input, "\t");
    assert_eq!(output, expected_output)
}

#[test]
fn test_join_comma() {
    let input = vec!["foo", "bar"];
    let expected_output = "foo,bar";
    let output = join_line_parts(&input, ",");
    assert_eq!(output, expected_output)
}

#[test]
fn chars_of_a_text() {
    assert_eq!(chars_of("aé√"), vec!['a', 'é', '√']);
    assert_eq!(chars_of(""), Vec::<char>::new());
}

#[test]
fn matches_at_a_position() {
    let text = chars_of("abcabc");
    let pattern = chars_of("bc");
    assert!(!matches_at(&text, &pattern, 0));
    assert!(matches_at(&text, &pattern, 1));
    assert!(matches_at(&text, &pattern, 4));
    assert!(!matches_at(&text, &pattern, 5));
    assert!(!matches_at(&text, &pattern, 6));
    assert!(!matches_at(&text, &pattern, usize::MAX));
    assert!(matches_at(&text, &Vec::new(), 6));
    assert!(!matches_at(&text, &Vec::new(), 7));
    assert!(!matches_at(&pattern, &text, 0));
}

#[test]
fn split_keeps_empty_fields() {
    assert_eq!(split_line("a,,b", ","), vec!["a", "", "b"]);
    assert_eq!(split_line(",a,", ","), vec!["", "a", ""]);
    assert_eq!(split_line(",", ","), vec!["", ""]);
    assert_eq!(split_line("", ","), vec![""]);
    assert_eq!(split_line("abc", ","), vec!["abc"]);
}

#[test]
fn split_at_a_longer_delimiter() {
    assert_eq!(split_line("a::b::c", "::"), vec!["a", "b", "c"]);
    assert_eq!(split_line("a:::b", "::"), vec!["a", ":b"]);
    assert_eq!(split_line("aaa", "aa"), vec!["", "a"]);
    assert_eq!(split_line("aaaa", "aa"), vec!["", "", ""]);
    assert_eq!(split_line("ab", "abc"), vec!["ab"]);
}

#[test]
fn split_at_an_empty_delimiter() {
    assert_eq!(split_line("ab", ""), vec!["", "a", "b", ""]);
    assert_eq!(split_line("", ""), vec!["", ""]);
}

#[test]
fn split_counts_characters_not_bytes() {
    assert_eq!(split_line("é√é", "√"), vec!["é", "é"]);
    assert_eq!(split_line("日本→語→", "→"), vec!["日本", "語", ""]);
    assert_eq!(split_line("é√", ""), vec!["", "é", "√", ""]);
}

#[test]
fn split_agrees_with_the_standard_split() {
    let lines = ["", "a", "a,b", ",,", "a,,b,", "abab", "aaa", "xaaax", "é,√", "a-b--c"];
    let delimiters = [",", "a", "aa", "ab", "-", "--", "", "é", ",b"];
    for line in lines {
        for delimiter in delimiters {
            let expected: Vec<&str> = line.split(delimiter).collect();
            assert_eq!(split_line(line, delimiter), expected);
        }
    }
}

#[test]
fn join_of_few_parts() {
    assert_eq!(join_line_parts(&Vec::new(), ","), "");
    assert_eq!(join_line_parts(&vec!["a"], ","), "a");
    assert_eq!(join_line_parts(&vec!["", ""], ","), ",");
    assert_eq!(join_line_parts(&vec!["a", "b", "c"], "::"), "a::b::c");
    assert_eq!(join_line_parts(&vec!["a", "b"], ""), "ab");
}

#[test]
fn join_undoes_split() {
    let lines = ["", "a", "a,b", ",,", "a,,b,", "abab", "aaa", "é,√"];
    let delimiters = [",", "a", "aa", "ab", "", "√"];
    for line in lines {
        for delimiter in delimiters {
            assert_eq!(join_line_parts(&split_line(line, delimiter), delimiter), line);
        }
    }
}

#[test]
fn subset_picks_in_the_order_of_the_indexes() {
    let parts = vec!["foo", "bar", "baz"];
    assert_eq!(subset_line_parts(&parts, &vec![1, 2]), vec!["bar", "baz"]);
    assert_eq!(subset_line_parts(&parts, &vec![2, 0, 2]), vec!["baz", "foo", "baz"]);
    assert_eq!(subset_line_parts(&parts, &Vec::new()), Vec::<&str>::new());
}

#[test]
fn subset_of_selected_fields() {
    let field_list = make_field_list("1-3,5").unwrap();
    let parts = vec!["foo", "bar", "baz", "buzz", "fuzz", "waz"];
    let indexes = field_list.get_indexes(&6);
    assert_eq!(subset_line_parts(&parts, &indexes), vec!["foo", "bar", "baz", "fuzz"]);
}

#[test]
fn cut_line_at_tabs() {
    let field_list = make_field_list("1-3,5").unwrap();
    let output = cut_line("foo\tbar\tbaz\tbuzz\tfuzz\twaz", "\t", &field_list);
    assert_eq!(output, "foo\tbar\tbaz\tfuzz");
}

#[test]
fn cut_line_at_commas() {
    let field_list = make_field_list("1-3,5").unwrap();
    let output = cut_line("foo,bar,baz,buzz,fuzz,waz", ",", &field_list);
    assert_eq!(output, "foo,bar,baz,fuzz");
}

#[test]
fn cut_line_with_an_open_range() {
    let field_list = make_field_list("1,4-").unwrap();
    let output = cut_line("foo\tbar\tbaz\tbuzz\tfuzz\twaz", "\t", &field_list);
    assert_eq!(output, "foo\tbuzz\tfuzz\twaz");
}

#[test]
fn cut_line_shorter_than_the_selection() {
    let field_list = make_field_list("2-4,8,11-14").unwrap();
    assert_eq!(cut_line("a,b,c", ",", &field_list), "b,c");
    assert_eq!(cut_line("a", ",", &field_list), "");
    assert_eq!(cut_line("", ",", &field_list), "");
}

#[test]
fn cut_line_repeats_fields_as_asked() {
    let field_list = make_field_list("3,1-3").unwrap();
    assert_eq!(cut_line("x y z", " ", &field_list), "z x y z");
}

#[test]
fn cut_line_without_the_delimiter() {
    let field_list = FieldList { fields: vec![FieldRange::Value(1)] };
    assert_eq!(cut_line("no tabs here", "\t", &field_list), "no tabs here");
    let second = FieldList { fields: vec![FieldRange::Value(2)] };
    assert_eq!(cut_line("no tabs here", "\t", &second), "");
}

#[test]
fn cut_line_with_empty_fields() {
    let field_list = make_field_list("2-3").unwrap();
    assert_eq!(cut_line("a,,c", ",", &field_list), ",c");
    assert_eq!(cut_line(",,", ",", &field_list), ",");
}
