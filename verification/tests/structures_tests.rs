use shell::jobs::BackGroundJobs;
use shell::order::{lex_less, sort_strictly};
use shell::string_map::StringMap;
use shell::text::{
    chars_of, contains_char, ends_with_char, is_whitespace, join_strings, parse_usize,
    push_decimal, split_lines, string_from_chars, trim_end_string,
};
use shell::trie::Trie;

fn strs(v: &[&str]) -> Vec<String> {
    v.iter().map(|s| s.to_string()).collect()
}

fn trie_of(words: &[&str]) -> Trie {
    let mut t = Trie::new();
    for w in words {
        t.insert(w);
    }
    t
}

#[test]
fn trie_completes_words_with_prefix_in_order() {
    let t = trie_of(&["exit", "echo", "type", "pwd", "cd", "history", "declare"]);
    assert_eq!(t.starts_with("e"), strs(&["echo", "exit"]));
    assert_eq!(t.starts_with("ty"), strs(&["type"]));
    assert_eq!(t.starts_with("x"), Vec::<String>::new());
}

#[test]
fn trie_empty_prefix_lists_every_word_sorted() {
    let t = trie_of(&["pwd", "cd", "echo", "cat"]);
    assert_eq!(t.starts_with(""), strs(&["cat", "cd", "echo", "pwd"]));
}

#[test]
fn empty_trie_offers_nothing() {
    let t = Trie::new();
    assert_eq!(t.starts_with(""), Vec::<String>::new());
    assert_eq!(t.starts_with("a"), Vec::<String>::new());
}

#[test]
fn trie_keeps_a_word_that_prefixes_another() {
    let t = trie_of(&["ab", "abc", "a"]);
    assert_eq!(t.starts_with("a"), strs(&["a", "ab", "abc"]));
    assert_eq!(t.starts_with("ab"), strs(&["ab", "abc"]));
    assert_eq!(t.starts_with("abc"), strs(&["abc"]));
    assert_eq!(t.starts_with("abcd"), Vec::<String>::new());
}

#[test]
fn trie_inserting_twice_changes_nothing() {
    let t = trie_of(&["ls", "ls", "less"]);
    assert_eq!(t.starts_with("l"), strs(&["less", "ls"]));
}

#[test]
fn trie_holds_the_empty_word() {
    let t = trie_of(&["", "a"]);
    assert_eq!(t.starts_with(""), strs(&["", "a"]));
}

#[test]
fn trie_orders_by_code_point() {
    let t = trie_of(&["b", "B", "é", "a", "Z"]);
    assert_eq!(t.starts_with(""), strs(&["B", "Z", "a", "b", "é"]));
}

#[test]
fn trie_word_with_terminator_hides_its_prefix() {
    let t = trie_of(&["a", "a\0b"]);
    assert_eq!(t.starts_with("a"), strs(&["a\0b"]));
}

#[test]
fn trie_prefix_equal_to_a_terminated_word_offers_nothing() {
    let t = trie_of(&["ab"]);
    assert_eq!(t.starts_with("ab\0"), Vec::<String>::new());
}

#[test]
fn string_map_insert_and_get() {
    let mut m = StringMap::new();
    assert_eq!(m.insert("x", "1".to_string()), None);
    assert_eq!(m.insert("y", "2".to_string()), None);
    assert_eq!(m.get("x"), Some(&"1".to_string()));
    assert_eq!(m.insert("x", "3".to_string()), Some("1".to_string()));
    assert_eq!(m.get("x"), Some(&"3".to_string()));
    assert_eq!(m.get("y"), Some(&"2".to_string()));
    assert_eq!(m.get("z"), None);
    assert_eq!(m.len(), 2);
    let (k, v) = m.entry(0);
    assert_eq!((k.as_str(), v.as_str()), ("x", "3"));
}

#[test]
fn string_map_keeps_first_insertion_order() {
    let mut m = StringMap::new();
    m.insert("b", "1".to_string());
    m.insert("a", "2".to_string());
    m.insert("b", "3".to_string());
    let keys: Vec<String> = (0..m.len()).map(|i| m.entry(i).0.clone()).collect();
    assert_eq!(keys, strs(&["b", "a"]));
}

#[test]
fn jobs_get_increasing_numbers() {
    let mut j = BackGroundJobs::new();
    assert_eq!(j.append(&strs(&["sleep", "10"])), 1);
    assert_eq!(j.append(&strs(&["sleep", "20"])), 2);
    assert_eq!(j.append(&strs(&["yes"])), 3);
    assert_eq!(j.job_ids(), vec![1, 2, 3]);
}

#[test]
fn jobs_list_marks_and_forgets_finished() {
    let mut j = BackGroundJobs::new();
    j.append(&strs(&["sleep", "10"]));
    j.append(&strs(&["sleep", "20"]));
    j.append(&strs(&["yes"]));
    let pad = " ".repeat(17);
    let text = j.list(&vec![2]);
    let expected = format!(
        "[1]   Running{pad}sleep 10 &\n[2]-  Done{pad}sleep 20\n[3]+  Running{pad}yes &\n"
    );
    assert_eq!(text, expected);
    assert_eq!(j.job_ids(), vec![1, 3]);
    let text = j.list(&vec![]);
    assert_eq!(text, format!("[1]-  Running{pad}sleep 10 &\n[3]+  Running{pad}yes &\n"));
}

#[test]
fn check_jobs_reports_only_finished() {
    let mut j = BackGroundJobs::new();
    j.append(&strs(&["a"]));
    j.append(&strs(&["b"]));
    let pad = " ".repeat(17);
    assert_eq!(j.check_jobs(&vec![]), "");
    assert_eq!(j.check_jobs(&vec![2, 7]), format!("[2]+  Done{pad}b\n"));
    assert_eq!(j.job_ids(), vec![1]);
    assert_eq!(j.check_jobs(&vec![1]), format!("[1]+  Done{pad}a\n"));
    assert_eq!(j.job_ids(), Vec::<usize>::new());
    assert_eq!(j.append(&strs(&["c"])), 3);
}

#[test]
fn jobs_stay_in_number_order_after_forgetting() {
    let mut j = BackGroundJobs::new();
    for w in ["a", "b", "c", "d", "e"] {
        j.append(&strs(&[w]));
    }
    let pad = " ".repeat(17);
    assert_eq!(j.check_jobs(&vec![1, 3]), format!("[1]   Done{pad}a\n[3]   Done{pad}c\n"));
    assert_eq!(j.job_ids(), vec![2, 4, 5]);
    assert_eq!(j.append(&strs(&["f"])), 6);
    assert_eq!(j.job_ids(), vec![2, 4, 5, 6]);
    assert_eq!(
        j.list(&vec![6]),
        format!(
            "[2]   Running{pad}b &\n[4]   Running{pad}d &\n[5]-  Running{pad}e &\n[6]+  Done{pad}f\n"
        )
    );
}

#[test]
fn job_started_line() {
    assert_eq!(BackGroundJobs::started_line(12, 4071), "[12] 4071\n");
}

#[test]
fn parse_usize_agrees_with_std() {
    let cases = [
        "0", "42", "+7", "007", "-1", "-0", "", "+", "4 2", " 4", "4a", "18446744073709551615",
        "18446744073709551616", "99999999999999999999999", "+18446744073709551615", "++1",
    ];
    for c in cases {
        assert_eq!(parse_usize(c), c.parse::<usize>().ok(), "{c:?}");
    }
}

#[test]
fn lines_agree_with_std() {
    let cases = ["", "a", "a\n", "a\r\nb", "\n", "\n\n", "a\rb\r", "x\r\n\r\n", "\r"];
    for c in cases {
        let expected: Vec<String> = c.lines().map(String::from).collect();
        assert_eq!(split_lines(c), expected, "{c:?}");
    }
}

#[test]
fn trim_end_agrees_with_std() {
    for c in ["", "ab  ", "a b \t\n", "  ", "x\u{3000}", "y\u{200b}"] {
        assert_eq!(trim_end_string(c), c.trim_end(), "{c:?}");
    }
}

#[test]
fn whitespace_agrees_with_std() {
    for code in 0u32..0x3100 {
        if let Some(c) = char::from_u32(code) {
            assert_eq!(is_whitespace(c), c.is_whitespace(), "{code:x}");
        }
    }
}

#[test]
fn small_text_helpers() {
    assert_eq!(chars_of("hé!"), vec!['h', 'é', '!']);
    assert_eq!(string_from_chars(&vec!['a', 'b', 'c', 'd'], 1, 3), "bc");
    assert!(contains_char("a b", ' '));
    assert!(!contains_char("ab", ' '));
    assert!(ends_with_char("dir/", '/'));
    assert!(!ends_with_char("", '/'));
    assert_eq!(join_strings(&strs(&["x", "y", "z"]), 1, ", "), "y, z");
    let mut s = String::from("n=");
    push_decimal(&mut s, 1234567890);
    assert_eq!(s, "n=1234567890");
    let mut z = String::new();
    push_decimal(&mut z, 0);
    assert_eq!(z, "0");
}

#[test]
fn lexicographic_order_and_sort() {
    assert!(lex_less(&vec!['a'], &vec!['a', 'b']));
    assert!(!lex_less(&vec!['a', 'b'], &vec!['a']));
    assert!(!lex_less(&vec!['a'], &vec!['a']));
    assert!(lex_less(&vec!['Z'], &vec!['a']));
    let sorted = sort_strictly(vec![vec!['c'], vec!['a', 'b'], vec!['a'], vec![]]);
    assert_eq!(sorted, vec![vec![], vec!['a'], vec!['a', 'b'], vec!['c']]);
}
