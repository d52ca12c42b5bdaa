use wordnet_parser::files::{is_valid_dir, pair_files, part_of_speech, DirError};
use wordnet_parser::filter::FilterPolicy;
use wordnet_parser::lexicon::Lexicon;
use wordnet_parser::sql::dump_sql;

#[test]
fn sql_doubles_quotes() {
    let mut lex = Lexicon::new();
    let policy = FilterPolicy::new();
    lex.add_index_line("o'clock r 1 00000007\n", &policy);
    lex.add_definition(7, "x | used in stating the hour, as in 'two o'clock'; y\n", "adv");
    let sql = dump_sql(&lex);
    assert!(sql.contains("INSERT INTO word VALUES(1,'o''clock');\n"));
    assert!(sql.contains(
        "INSERT INTO definition VALUES(1,'used in stating the hour, as in ''two o''clock''','adv');\n"
    ));
    assert!(sql.contains("INSERT INTO word_definition VALUES(1,1,1);\n"));
}

#[test]
fn sql_script_whole() {
    let mut lex = Lexicon::new();
    let policy = FilterPolicy::new();
    lex.add_index_line("b n 1 00000012\n", &policy);
    lex.add_index_line("a n 2 00000012 00000077\n", &policy);
    lex.add_definition(12, "x | twelve; y\n", "noun");
    let sql = dump_sql(&lex);
    let expected = format!(
        "{}{}{}{}{}",
        wordnet_parser::sql::SQL_SCHEMA,
        "INSERT INTO word VALUES(1,'a');\nINSERT INTO word VALUES(2,'b');\n",
        "INSERT INTO definition VALUES(1,'twelve','noun');\n",
        "INSERT INTO word_definition VALUES(1,1,1);\nINSERT INTO word_definition VALUES(2,1,2);\n",
        "DELETE FROM sqlite_sequence;\nINSERT INTO sqlite_sequence VALUES('definition',1);\nINSERT INTO sqlite_sequence VALUES('word',2);\nINSERT INTO sqlite_sequence VALUES('word_definition',2);\nCOMMIT;"
    );
    assert_eq!(sql, expected);
}

#[test]
fn sql_of_empty_lexicon() {
    let lex = Lexicon::new();
    let sql = dump_sql(&lex);
    assert!(sql.starts_with("PRAGMA defer_foreign_keys=ON;\nBEGIN TRANSACTION;\n"));
    assert!(sql.ends_with("INSERT INTO sqlite_sequence VALUES('word_definition',0);\nCOMMIT;"));
}

#[test]
fn directory_checks() {
    assert!(matches!(is_valid_dir(Some(true), true), Ok(true)));
    assert!(matches!(is_valid_dir(Some(true), false), Err(DirError::NotADirectory)));
    assert!(matches!(is_valid_dir(Some(false), false), Err(DirError::Missing)));
    assert!(matches!(is_valid_dir(None, false), Err(DirError::Unknown)));
}

#[test]
fn files_pair_by_extension() {
    let names: Vec<String> = ["data.noun", "index.sense", "index.noun", "index.verb", "data.verb", "README", "data.adj"]
        .iter()
        .map(|s| s.to_string())
        .collect();
    assert_eq!(pair_files(&names), vec![(2, 0), (3, 4)]);
}

#[test]
fn part_of_speech_is_the_extension() {
    assert_eq!(part_of_speech("index.noun"), "noun");
    assert_eq!(part_of_speech("data.adj"), "adj");
    assert_eq!(part_of_speech("index"), "");
    assert_eq!(part_of_speech(".hidden"), "");
    assert_eq!(part_of_speech("a.b.verb"), "verb");
}
