use wordnet_parser::export::{headword, plan_rows, word_definitions};
use wordnet_parser::filter::FilterPolicy;
use wordnet_parser::lexicon::Lexicon;

fn chars(s: &str) -> Vec<char> {
    s.chars().collect()
}

fn words_of(lex: &Lexicon) -> Vec<String> {
    (0..lex.word_count()).map(|i| headword(lex, i)).collect()
}

#[test]
fn index_and_data_line_give_one_definition() {
    let mut lex = Lexicon::new();
    let policy = FilterPolicy::new();
    let pending = lex.add_index_line("abc 1 00000010\n", &policy);
    assert_eq!(pending, vec![10]);
    lex.add_definition(10, "abc | a test gloss; usage note\n", "noun");
    assert_eq!(words_of(&lex), vec!["abc".to_string()]);
    let defs = word_definitions(&lex, 0);
    assert_eq!(defs.len(), 1);
    assert_eq!(defs[0].data, "a test gloss");
    assert_eq!(defs[0].part_of_speech, "noun");
}

#[test]
fn license_line_gives_nothing_and_no_seek() {
    let mut lex = Lexicon::new();
    let policy = FilterPolicy::new();
    let pending = lex.add_index_line("  1 This software and database 00000010 is provided\n", &policy);
    assert!(pending.is_empty());
    assert!(lex.is_empty());
}

#[test]
fn numbers_left_out_by_default_and_kept_on_request() {
    let mut lex = Lexicon::new();
    let mut policy = FilterPolicy::new();
    assert!(lex.add_index_line("2d a 1 00000020\n", &policy).is_empty());
    assert!(lex.is_empty());
    policy.keep_numbers = true;
    assert_eq!(lex.add_index_line("2d a 1 00000020\n", &policy), vec![20]);
    assert_eq!(words_of(&lex), vec!["2d".to_string()]);
}

#[test]
fn length_bounds_are_inclusive() {
    let mut policy = FilterPolicy::new();
    policy.min_chars = 3;
    policy.max_chars = 5;
    assert!(policy.keeps_word(&chars("abc")));
    assert!(policy.keeps_word(&chars("abcde")));
    assert!(!policy.keeps_word(&chars("ab")));
    assert!(!policy.keeps_word(&chars("abcdef")));
}

#[test]
fn explicit_lengths_replace_the_range() {
    let mut policy = FilterPolicy::new();
    policy.char_counts = vec![2, 4];
    assert!(policy.keeps_word(&chars("ab")));
    assert!(policy.keeps_word(&chars("abcd")));
    assert!(!policy.keeps_word(&chars("abc")));
    assert!(!policy.keeps_word(&chars("")));
}

#[test]
fn whole_words_only_rejects_punctuation() {
    let mut policy = FilterPolicy::new();
    assert!(policy.keeps_word(&chars("o'clock")));
    policy.only_whole_words = true;
    assert!(!policy.keeps_word(&chars("o'clock")));
    assert!(!policy.keeps_word(&chars("ice_cream")));
    assert!(!policy.keeps_word(&chars("a-b")));
    assert!(policy.keeps_word(&chars("clock")));
}

#[test]
fn offsets_of_one_word_are_merged_across_lines() {
    let mut lex = Lexicon::new();
    let policy = FilterPolicy::new();
    assert_eq!(lex.add_index_line("run n 2 00000010 00000020\n", &policy), vec![10, 20]);
    lex.add_definition(10, "x | move fast; y\n", "noun");
    lex.add_definition(20, "x | a score; y\n", "noun");
    assert_eq!(lex.add_index_line("run v 2 00000020 00000030\n", &policy), vec![30]);
    assert_eq!(lex.word_count(), 1);
    assert_eq!(lex.words[0].offsets, vec![10, 20, 30]);
}

#[test]
fn resolved_offset_is_not_read_again() {
    let mut lex = Lexicon::new();
    let policy = FilterPolicy::new();
    assert_eq!(lex.add_index_line("dog n 1 00000042 00000042\n", &policy), vec![42]);
    lex.add_definition(42, "x | a canine; y\n", "noun");
    assert!(lex.add_index_line("hound n 1 00000042\n", &policy).is_empty());
    lex.add_definition(42, "x | something else; y\n", "verb");
    let d = lex.definition(42).unwrap();
    assert_eq!(d.data, "a canine");
    assert_eq!(d.part_of_speech, "noun");
}

#[test]
fn words_are_kept_in_order() {
    let mut lex = Lexicon::new();
    let policy = FilterPolicy::new();
    lex.add_index_line("pear n 1 00000001\n", &policy);
    lex.add_index_line("apple n 1 00000002\n", &policy);
    lex.add_index_line("Zebra n 1 00000003\n", &policy);
    lex.add_index_line("apples n 1 00000004\n", &policy);
    lex.add_index_line("apple v 1 00000005\n", &policy);
    assert_eq!(
        words_of(&lex),
        vec!["Zebra".to_string(), "apple".to_string(), "apples".to_string(), "pear".to_string()]
    );
}

#[test]
fn word_without_offsets_is_kept() {
    let mut lex = Lexicon::new();
    let policy = FilterPolicy::new();
    assert!(lex.add_index_line("lonely n 0\n", &policy).is_empty());
    assert_eq!(lex.word_count(), 1);
    assert!(lex.words[0].offsets.is_empty());
    assert!(word_definitions(&lex, 0).is_empty());
}

#[test]
fn word_is_kept_unescaped() {
    let mut lex = Lexicon::new();
    let policy = FilterPolicy::new();
    lex.add_index_line("o'clock r 1 00000007\n", &policy);
    assert_eq!(words_of(&lex), vec!["o'clock".to_string()]);
}

#[test]
fn definition_rows_are_numbered_by_first_use() {
    let mut lex = Lexicon::new();
    let policy = FilterPolicy::new();
    lex.add_index_line("b n 2 00000030 00000010\n", &policy);
    lex.add_index_line("a n 2 00000010 00000099\n", &policy);
    lex.add_definition(10, "x | ten; y\n", "noun");
    lex.add_definition(30, "x | thirty; y\n", "noun");
    let plan = plan_rows(&lex);
    assert_eq!(plan.definition_offsets, vec![10, 30]);
    assert_eq!(plan.links, vec![(0, 0), (1, 1), (0, 1)]);
}
