use wordnet_parser::grammar::{data_line_gloss, index_line_offsets, line_head_word};

fn chars(s: &str) -> Vec<char> {
    s.chars().collect()
}

fn gloss(s: &str) -> String {
    data_line_gloss(&chars(s)).into_iter().collect()
}

#[test]
fn head_word_stops_at_first_space() {
    assert_eq!(line_head_word(&chars("abc n 1 00000010\n")), chars("abc"));
    assert_eq!(line_head_word(&chars("solo")), chars("solo"));
    assert_eq!(line_head_word(&chars(" x")), chars(""));
}

#[test]
fn offsets_are_eight_digits_after_whitespace() {
    assert_eq!(index_line_offsets(&chars("abc 1 00000010\n")), vec![10]);
    assert_eq!(
        index_line_offsets(&chars("a n 2 1 @ 2 0 00001740 00002098  \n")),
        vec![1740, 2098]
    );
    assert_eq!(index_line_offsets(&chars("a 123456789")), vec![12345678]);
    assert_eq!(index_line_offsets(&chars("a\t00000005")), vec![5]);
    assert_eq!(index_line_offsets(&chars("a 0000001")), Vec::<u64>::new());
    assert_eq!(index_line_offsets(&chars("00000010 x")), Vec::<u64>::new());
    assert_eq!(index_line_offsets(&chars("a 99999999")), vec![99999999]);
}

#[test]
fn gloss_runs_from_bar_to_semicolon() {
    assert_eq!(gloss("abc | a test gloss; usage note\n"), "a test gloss");
    assert_eq!(gloss("00001740 03 n 01 entity 0 | that which exists  ; more\n"), "that which exists");
    assert_eq!(gloss("x | no semicolon here  \n"), "no semicolon here");
    assert_eq!(gloss("x | quoted \"text\"; y"), "quoted \"text\"");
}

#[test]
fn gloss_missing_gives_empty_text() {
    assert_eq!(gloss("no bar at all\n"), "");
    assert_eq!(gloss("x |; y"), "");
    assert_eq!(gloss("x |a; y"), "");
    assert_eq!(gloss("x | a; y"), "");
    assert_eq!(gloss(""), "");
}

#[test]
fn gloss_takes_first_bar_that_matches() {
    assert_eq!(gloss("x | ; y | second one; z"), "second one");
    assert_eq!(gloss("x | ab; y | cd;"), "ab");
}
