use rusqlite::Connection;
use wordnet_parser::export::{headword, word_definitions};
use wordnet_parser::filter::FilterPolicy;
use wordnet_parser::lexicon::Lexicon;
use wordnet_parser::sql::dump_sql;

fn sample() -> Lexicon {
    let mut lex = Lexicon::new();
    let policy = FilterPolicy::new();
    let lines = [
        ("o'clock r 1 00000007\n", "adv"),
        ("dog n 2 00000042 00000050\n", "noun"),
        ("hound n 1 00000042\n", "noun"),
        ("dog v 1 00000060\n", "verb"),
    ];
    let data = |o: u64| match o {
        7 => "x | as in 'two o'clock'; y\n",
        42 => "x | a canine; y\n",
        50 => "x | a villain; y\n",
        _ => "x | to follow; y\n",
    };
    for (line, pos) in lines {
        for o in lex.add_index_line(line, &policy) {
            lex.add_definition(o, data(o), pos);
        }
    }
    lex
}

fn expected(lex: &Lexicon) -> Vec<(String, Vec<(String, String)>)> {
    (0..lex.word_count())
        .map(|i| {
            let defs = word_definitions(lex, i)
                .into_iter()
                .map(|d| (d.data, d.part_of_speech))
                .collect();
            (headword(lex, i), defs)
        })
        .collect()
}

#[test]
fn sql_script_reads_back_as_the_lexicon() {
    let lex = sample();
    let conn = Connection::open_in_memory().unwrap();
    conn.execute_batch(&dump_sql(&lex)).unwrap();

    let mut words = conn.prepare("SELECT id, data FROM word ORDER BY id").unwrap();
    let rows: Vec<(i64, String)> = words
        .query_map([], |r| Ok((r.get(0)?, r.get(1)?)))
        .unwrap()
        .map(|r| r.unwrap())
        .collect();

    let mut got = vec![];
    for (id, word) in rows {
        let mut defs = conn
            .prepare(
                "SELECT d.data, d.part_of_speech FROM word_definition wd \
                 JOIN definition d ON d.id = wd.definition_id \
                 WHERE wd.word_id = ?1 ORDER BY wd.id",
            )
            .unwrap();
        let list: Vec<(String, String)> = defs
            .query_map([id], |r| Ok((r.get(0)?, r.get(1)?)))
            .unwrap()
            .map(|r| r.unwrap())
            .collect();
        got.push((word, list));
    }

    assert_eq!(got, expected(&lex));
    assert_eq!(got[2].0, "o'clock");
    assert_eq!(got[2].1[0].0, "as in 'two o'clock'");
}

#[test]
fn shared_definition_is_stored_once() {
    let lex = sample();
    let conn = Connection::open_in_memory().unwrap();
    conn.execute_batch(&dump_sql(&lex)).unwrap();
    let n: i64 = conn
        .query_row("SELECT COUNT(*) FROM definition WHERE data = 'a canine'", [], |r| r.get(0))
        .unwrap();
    assert_eq!(n, 1);
    let links: i64 = conn.query_row("SELECT COUNT(*) FROM word_definition", [], |r| r.get(0)).unwrap();
    assert_eq!(links, 5);
    let next: i64 = conn
        .query_row("SELECT seq FROM sqlite_sequence WHERE name = 'word'", [], |r| r.get(0))
        .unwrap();
    assert_eq!(next, 3);
}
