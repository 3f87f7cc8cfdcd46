use shell::tokenize::read_user_input;
use shell::utils::{split_pipeline, split_redirection, ProcessPosition, RedirectKind};

fn words(line: &str) -> Vec<String> {
    read_user_input(line)
}

fn strs(v: &[&str]) -> Vec<String> {
    v.iter().map(|s| s.to_string()).collect()
}

#[test]
fn plain_words_split_at_spaces() {
    assert_eq!(words("echo hello world"), strs(&["echo", "hello", "world"]));
}

#[test]
fn repeated_and_surrounding_white_space_is_dropped() {
    assert_eq!(words("   ls\t -l   /tmp  "), strs(&["ls", "-l", "/tmp"]));
}

#[test]
fn empty_line_has_no_words() {
    assert_eq!(words(""), Vec::<String>::new());
    assert_eq!(words("   \t "), Vec::<String>::new());
}

#[test]
fn unicode_white_space_separates_words() {
    assert_eq!(words("a\u{3000}b\u{85}c"), strs(&["a", "b", "c"]));
}

#[test]
fn single_quotes_keep_everything() {
    assert_eq!(words("echo 'a  b' 'c\\d' 'e\"f'"), strs(&["echo", "a  b", "c\\d", "e\"f"]));
}

#[test]
fn adjacent_quoted_parts_join() {
    assert_eq!(words("echo 'ab''cd' x'y'z"), strs(&["echo", "abcd", "xyz"]));
}

#[test]
fn empty_quotes_give_no_word() {
    assert_eq!(words("echo '' \"\""), strs(&["echo"]));
}

#[test]
fn double_quotes_keep_spaces_and_single_quotes() {
    assert_eq!(words("echo \"it's  here\""), strs(&["echo", "it's  here"]));
}

#[test]
fn backslash_in_double_quotes_escapes_quote_and_backslash() {
    assert_eq!(words("echo \"a\\\"b\" \"c\\\\d\""), strs(&["echo", "a\"b", "c\\d"]));
}

#[test]
fn backslash_in_double_quotes_before_other_characters_stays() {
    assert_eq!(words("echo \"a\\nb\" \"x\\ y\" \"p\\'q\""), strs(&["echo", "a\\nb", "x\\ y", "p\\'q"]));
}

#[test]
fn backslash_outside_quotes_makes_next_character_literal() {
    assert_eq!(words("echo a\\ b \\'c\\' \\\"d"), strs(&["echo", "a b", "'c'", "\"d"]));
}

#[test]
fn escaped_backslash_outside_quotes() {
    assert_eq!(words("echo a\\\\b"), strs(&["echo", "a\\b"]));
}

#[test]
fn backslash_after_escaped_backslash_still_escapes() {
    assert_eq!(words("a\\\\ b"), strs(&["a\\ b"]));
}

#[test]
fn backslash_inside_single_quotes_is_literal() {
    assert_eq!(words("'a\\'"), strs(&["a\\"]));
}

#[test]
fn unterminated_quote_keeps_rest_of_line() {
    assert_eq!(words("echo 'abc def"), strs(&["echo", "abc def"]));
}

#[test]
fn every_word_is_non_empty() {
    for line in ["'' a '' \"\" b", "\\", "''''", "a '' \"\"   "] {
        for w in words(line) {
            assert!(!w.is_empty());
        }
    }
}

#[test]
fn plain_line_splits_like_split_whitespace() {
    for line in ["one two  three", "  x ", "a\tb\nc", "solo", "α β\u{2003}γ"] {
        let expected: Vec<String> = line.split_whitespace().map(String::from).collect();
        assert_eq!(words(line), expected);
    }
}

#[test]
fn single_quoted_text_is_one_literal_word() {
    assert_eq!(words("'a \\ \" b'"), strs(&["a \\ \" b"]));
}

#[test]
fn double_quoted_text_is_one_literal_word() {
    assert_eq!(words("\"a ' b\""), strs(&["a ' b"]));
}

#[test]
fn process_positions() {
    assert_eq!(ProcessPosition::new(0, 1), ProcessPosition::FirstAndLast);
    assert_eq!(ProcessPosition::new(0, 3), ProcessPosition::First);
    assert_eq!(ProcessPosition::new(1, 3), ProcessPosition::Middle);
    assert_eq!(ProcessPosition::new(2, 3), ProcessPosition::Last);
    assert!(ProcessPosition::new(0, 1).is_first() && ProcessPosition::new(0, 1).is_last());
    assert!(ProcessPosition::new(0, 2).is_first() && !ProcessPosition::new(0, 2).is_last());
    assert!(!ProcessPosition::new(1, 2).is_first() && ProcessPosition::new(1, 2).is_last());
    assert!(!ProcessPosition::new(1, 3).is_first() && !ProcessPosition::new(1, 3).is_last());
}

#[test]
fn position_starts_and_ends_pipeline_exactly_at_the_ends() {
    let len = 5;
    for idx in 0..len {
        let p = ProcessPosition::new(idx, len);
        assert_eq!(p.is_first(), idx == 0);
        assert_eq!(p.is_last(), idx == len - 1);
    }
}

#[test]
fn redirections_are_taken_off() {
    let cases = [
        (">", RedirectKind::StdoutTruncate),
        ("1>", RedirectKind::StdoutTruncate),
        (">>", RedirectKind::StdoutAppend),
        ("1>>", RedirectKind::StdoutAppend),
        ("2>", RedirectKind::StderrTruncate),
        ("2>>", RedirectKind::StderrAppend),
    ];
    for (op, kind) in cases {
        let mut v = strs(&["echo", "hi", op, "out.txt"]);
        let r = split_redirection(&mut v);
        assert_eq!(r, Some((kind, "out.txt".to_string())));
        assert_eq!(v, strs(&["echo", "hi"]));
    }
}

#[test]
fn words_without_redirection_stay() {
    for case in [vec![], vec!["ls"], vec!["echo", "a", "b"], vec!["cat", "3>", "f"], vec!["2>"]] {
        let mut v = strs(&case);
        let before = v.clone();
        assert_eq!(split_redirection(&mut v), None);
        assert_eq!(v, before);
    }
}

#[test]
fn redirection_needs_a_file_after_the_operator() {
    let mut v = strs(&["echo", ">"]);
    assert_eq!(split_redirection(&mut v), None);
    assert_eq!(v, strs(&["echo", ">"]));
}

#[test]
fn pipeline_splits_at_bars() {
    assert_eq!(
        split_pipeline(strs(&["ls", "-l", "|", "wc", "|", "cat"])),
        vec![strs(&["ls", "-l"]), strs(&["wc"]), strs(&["cat"])]
    );
}

#[test]
fn pipeline_always_has_a_stage() {
    assert_eq!(split_pipeline(vec![]), vec![Vec::<String>::new()]);
    assert_eq!(split_pipeline(strs(&["|"])), vec![Vec::<String>::new(), Vec::<String>::new()]);
    assert_eq!(split_pipeline(strs(&["a", "|"])), vec![strs(&["a"]), Vec::<String>::new()]);
}

#[test]
fn pipeline_stages_join_back_to_the_words() {
    let ws = strs(&["a", "|", "b", "c", "|", "|", "d"]);
    let stages = split_pipeline(ws.clone());
    let mut joined: Vec<String> = Vec::new();
    for (i, s) in stages.iter().enumerate() {
        if i > 0 {
            joined.push("|".to_string());
        }
        assert!(!s.contains(&"|".to_string()));
        joined.extend(s.iter().cloned());
    }
    assert_eq!(joined, ws);
}

#[test]
fn quoted_bar_is_a_word_too() {
    let ws = read_user_input("echo '|' | wc");
    assert_eq!(ws, strs(&["echo", "|", "|", "wc"]));
    assert_eq!(split_pipeline(ws).len(), 3);
}
