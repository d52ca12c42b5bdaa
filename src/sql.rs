//! The SQL script sink: the schema, one `INSERT` per row, and the
//! autoincrement counters set to the row counts, in one transaction.
use vstd::prelude::*;

use crate::export::{lemma_rows_round_trip, lexicon_plan, offset_lists, plan_rows, same_links};
use crate::lexicon::{Definition, Lexicon};
use crate::text::push_char;
use vstd::string::StringExecFns;

verus! {

broadcast use vstd::std_specs::hash::group_hash_axioms;

/// The opening of the script: foreign keys checked at commit, the
/// transaction, and the three tables.
pub const SQL_SCHEMA: &'static str = "PRAGMA defer_foreign_keys=ON;\nBEGIN TRANSACTION;\nCREATE TABLE definition (id INTEGER PRIMARY KEY AUTOINCREMENT, data TEXT, part_of_speech TEXT NOT NULL);\nCREATE TABLE word (id INTEGER PRIMARY KEY AUTOINCREMENT, data TEXT NOT NULL);\nCREATE TABLE word_definition (id INTEGER PRIMARY KEY AUTOINCREMENT, definition_id INTEGER, word_id INTEGER, FOREIGN KEY (definition_id) REFERENCES definition(id), FOREIGN KEY (word_id) REFERENCES word(id));\n";

/// `s` with each single quote doubled, as an SQL string literal needs it.
pub open spec fn escape_quotes(s: Seq<char>) -> Seq<char>
    decreases s.len(),
{
    if s.len() == 0 {
        Seq::empty()
    } else if s.last() == '\'' {
        escape_quotes(s.drop_last()) + seq!['\'', '\'']
    } else {
        escape_quotes(s.drop_last()).push(s.last())
    }
}

/// The character of the decimal digit `d`.
pub open spec fn digit_char(d: nat) -> char {
    if d == 0 {
        '0'
    } else if d == 1 {
        '1'
    } else if d == 2 {
        '2'
    } else if d == 3 {
        '3'
    } else if d == 4 {
        '4'
    } else if d == 5 {
        '5'
    } else if d == 6 {
        '6'
    } else if d == 7 {
        '7'
    } else if d == 8 {
        '8'
    } else {
        '9'
    }
}

/// `n` in decimal, without leading zeros.
pub open spec fn decimal(n: nat) -> Seq<char>
    decreases n,
{
    if n < 10 {
        seq![digit_char(n)]
    } else {
        decimal(n / 10).push(digit_char(n % 10))
    }
}

pub open spec fn word_insert(id: nat, w: Seq<char>) -> Seq<char> {
    "INSERT INTO word VALUES("@ + decimal(id) + ",'"@ + escape_quotes(w) + "');\n"@
}

pub open spec fn definition_insert(id: nat, d: Definition) -> Seq<char> {
    "INSERT INTO definition VALUES("@ + decimal(id) + ",'"@ + escape_quotes(d.data@) + "','"@
        + escape_quotes(d.part_of_speech@) + "');\n"@
}

pub open spec fn link_insert(id: nat, definition_id: nat, word_id: nat) -> Seq<char> {
    "INSERT INTO word_definition VALUES("@ + decimal(id) + ","@ + decimal(definition_id) + ","@
        + decimal(word_id) + ");\n"@
}

/// The word rows, numbered from one.
pub open spec fn word_inserts(words: Seq<Seq<char>>) -> Seq<char>
    decreases words.len(),
{
    if words.len() == 0 {
        Seq::empty()
    } else {
        word_inserts(words.drop_last()) + word_insert(words.len(), words.last())
    }
}

/// The definition rows of the offsets `rows`, numbered from one.
pub open spec fn definition_inserts(rows: Seq<u64>, defs: Map<u64, Definition>) -> Seq<char>
    decreases rows.len(),
{
    if rows.len() == 0 {
        Seq::empty()
    } else {
        definition_inserts(rows.drop_last(), defs) + definition_insert(rows.len(), defs[rows.last()])
    }
}

/// The link rows, numbered from one; `links` counts rows from zero.
pub open spec fn link_inserts(links: Seq<(int, int)>) -> Seq<char>
    decreases links.len(),
{
    if links.len() == 0 {
        Seq::empty()
    } else {
        link_inserts(links.drop_last()) + link_insert(
            links.len(),
            (links.last().0 + 1) as nat,
            (links.last().1 + 1) as nat,
        )
    }
}

/// The counters set to the row counts, and the end of the transaction.
pub open spec fn sql_footer(definitions: nat, words: nat, links: nat) -> Seq<char> {
    "DELETE FROM sqlite_sequence;\nINSERT INTO sqlite_sequence VALUES('definition',"@ + decimal(definitions)
        + ");\nINSERT INTO sqlite_sequence VALUES('word',"@ + decimal(words)
        + ");\nINSERT INTO sqlite_sequence VALUES('word_definition',"@ + decimal(links) + ");\nCOMMIT;"@
}

/// The whole script for `lex`.
pub open spec fn sql_script(lex: &Lexicon) -> Seq<char> {
    let p = lexicon_plan(lex);
    SQL_SCHEMA@ + word_inserts(lex.headwords()) + definition_inserts(p.rows, lex.definition_table())
        + link_inserts(p.links) + sql_footer(p.rows.len(), lex.words@.len(), p.links.len())
}

/// Appends `s` with each single quote doubled.
pub fn push_escaped(out: &mut String, s: &Vec<char>)
    ensures
        final(out)@ == old(out)@ + escape_quotes(s@),
{
    let ghost start: Seq<char> = out@;
    for i in 0..s.len()
        invariant
            out@ == start + escape_quotes(s@.take(i as int)),
    {
        assert(s@.take(i + 1).drop_last() =~= s@.take(i as int));
        assert(s@.take(i + 1).last() == s@[i as int]);
        if s[i] == '\'' {
            push_char(out, '\'');
            push_char(out, '\'');
        } else {
            push_char(out, s[i]);
        }
        assert(out@ =~= start + escape_quotes(s@.take(i + 1)));
    }
    assert(s@.take(s.len() as int) =~= s@);
}

fn digit_of(d: u64) -> (c: char)
    requires
        d < 10,
    ensures
        c == digit_char(d as nat),
{
    if d == 0 {
        '0'
    } else if d == 1 {
        '1'
    } else if d == 2 {
        '2'
    } else if d == 3 {
        '3'
    } else if d == 4 {
        '4'
    } else if d == 5 {
        '5'
    } else if d == 6 {
        '6'
    } else if d == 7 {
        '7'
    } else if d == 8 {
        '8'
    } else {
        '9'
    }
}

/// Appends `n` in decimal.
pub fn push_decimal(out: &mut String, n: u64)
    ensures
        final(out)@ == old(out)@ + decimal(n as nat),
    decreases n,
{
    if n >= 10 {
        push_decimal(out, n / 10);
    }
    push_char(out, digit_of(n % 10));
    assert(final(out)@ =~= old(out)@ + decimal(n as nat));
}

fn push_word_inserts(out: &mut String, lex: &Lexicon)
    ensures
        final(out)@ == old(out)@ + word_inserts(lex.headwords()),
{
    let ghost words: Seq<Seq<char>> = lex.headwords();
    let ghost head: Seq<char> = out@;
    assert(words.take(0) =~= Seq::<Seq<char>>::empty());
    assert(head + word_inserts(words.take(0)) =~= head);
    for i in 0..lex.words.len()
        invariant
            words == lex.headwords(),
            out@ == head + word_inserts(words.take(i as int)),
    {
        assert(words.take(i + 1).drop_last() =~= words.take(i as int));
        out.append("INSERT INTO word VALUES(");
        push_decimal(out, i as u64 + 1);
        out.append(",'");
        push_escaped(out, &lex.words[i].word);
        out.append("');\n");
        assert(out@ =~= head + word_inserts(words.take(i + 1)));
    }
    assert(words.take(lex.words.len() as int) =~= words);
}

fn push_definition_inserts(out: &mut String, lex: &Lexicon, rows: &Vec<u64>)
    requires
        forall|j: int| 0 <= j < rows@.len() ==> lex.definition_table().contains_key(#[trigger] rows@[j]),
    ensures
        final(out)@ == old(out)@ + definition_inserts(rows@, lex.definition_table()),
{
    let ghost head: Seq<char> = out@;
    assert(rows@.take(0) =~= Seq::<u64>::empty());
    assert(head + definition_inserts(rows@.take(0), lex.definition_table()) =~= head);
    for k in 0..rows.len()
        invariant
            forall|j: int| 0 <= j < rows@.len() ==> lex.definition_table().contains_key(#[trigger] rows@[j]),
            out@ == head + definition_inserts(rows@.take(k as int), lex.definition_table()),
    {
        assert(rows@.take(k + 1).drop_last() =~= rows@.take(k as int));
        let o: u64 = rows[k];
        let d: &Definition = lex.definitions.get(&o).unwrap();
        out.append("INSERT INTO definition VALUES(");
        push_decimal(out, k as u64 + 1);
        out.append(",'");
        push_escaped(out, &crate::text::chars_of(d.data.as_str()));
        out.append("','");
        push_escaped(out, &crate::text::chars_of(d.part_of_speech.as_str()));
        out.append("');\n");
        assert(out@ =~= head + definition_inserts(rows@.take(k + 1), lex.definition_table()));
    }
    assert(rows@.take(rows.len() as int) =~= rows@);
}

fn push_link_inserts(out: &mut String, links: &Vec<(usize, usize)>, spec_links: Ghost<Seq<(int, int)>>)
    requires
        same_links(links@, spec_links@),
        forall|j: int| 0 <= j < links@.len() ==> (#[trigger] links@[j]).0 < usize::MAX && links@[j].1 < usize::MAX,
    ensures
        final(out)@ == old(out)@ + link_inserts(spec_links@),
{
    let ghost sl: Seq<(int, int)> = spec_links@;
    let ghost head: Seq<char> = out@;
    assert(sl.take(0) =~= Seq::<(int, int)>::empty());
    assert(head + link_inserts(sl.take(0)) =~= head);
    for k in 0..links.len()
        invariant
            sl == spec_links@,
            same_links(links@, sl),
            forall|j: int| 0 <= j < links@.len() ==> (#[trigger] links@[j]).0 < usize::MAX && links@[j].1 < usize::MAX,
            out@ == head + link_inserts(sl.take(k as int)),
    {
        assert(sl.take(k + 1).drop_last() =~= sl.take(k as int));
        let (d, w): (usize, usize) = links[k];
        assert(sl[k as int] == (d as int, w as int));
        out.append("INSERT INTO word_definition VALUES(");
        push_decimal(out, k as u64 + 1);
        out.append(",");
        push_decimal(out, d as u64 + 1);
        out.append(",");
        push_decimal(out, w as u64 + 1);
        out.append(");\n");
        assert(out@ =~= head + link_inserts(sl.take(k + 1)));
    }
    assert(sl.take(links.len() as int) =~= sl);
}

/// The SQL script that rebuilds `lex` as the three tables.
pub fn dump_sql(lex: &Lexicon) -> (r: String)
    ensures
        r@ == sql_script(lex),
{
    let plan = plan_rows(lex);
    proof {
        lemma_rows_round_trip(offset_lists(lex), lex.definition_table().dom());
    }
    let nrows: usize = plan.definition_offsets.len();
    let nwords: usize = lex.words.len();
    assert forall|j: int| 0 <= j < plan.links@.len() implies (#[trigger] plan.links@[j]).0 < usize::MAX && plan.links@[j].1 < usize::MAX by {
        let p = crate::export::plan_lists(offset_lists(lex), lex.definition_table().dom());
        let l = p.links[j];
        assert(0 <= l.0 < p.rows.len());
        assert(p.rows.len() == nrows);
        assert(offset_lists(lex).len() == nwords);
        assert((plan.links@[j].0 as int, plan.links@[j].1 as int) == l);
    }
    let mut out: String = String::new();
    out.append(SQL_SCHEMA);
    push_word_inserts(&mut out, lex);
    push_definition_inserts(&mut out, lex, &plan.definition_offsets);
    push_link_inserts(&mut out, &plan.links, Ghost(lexicon_plan(lex).links));
    out.append("DELETE FROM sqlite_sequence;\nINSERT INTO sqlite_sequence VALUES('definition',");
    push_decimal(&mut out, plan.definition_offsets.len() as u64);
    out.append(");\nINSERT INTO sqlite_sequence VALUES('word',");
    push_decimal(&mut out, lex.words.len() as u64);
    out.append(");\nINSERT INTO sqlite_sequence VALUES('word_definition',");
    push_decimal(&mut out, plan.links.len() as u64);
    out.append(");\nCOMMIT;");
    assert(out@ =~= sql_script(lex));
    out
}

/// Reads an SQL string literal's body: each doubled single quote stands for one.
pub open spec fn unescape_quotes(s: Seq<char>) -> Seq<char>
    decreases s.len(),
{
    if s.len() == 0 {
        Seq::empty()
    } else if s.len() >= 2 && s[0] == '\'' && s[1] == '\'' {
        seq!['\''] + unescape_quotes(s.skip(2))
    } else {
        seq![s[0]] + unescape_quotes(s.skip(1))
    }
}

proof fn lemma_escape_append(a: Seq<char>, b: Seq<char>)
    ensures
        escape_quotes(a + b) == escape_quotes(a) + escape_quotes(b),
    decreases b.len(),
{
    if b.len() == 0 {
        assert(a + b =~= a);
        assert(escape_quotes(a) + escape_quotes(b) =~= escape_quotes(a));
    } else {
        lemma_escape_append(a, b.drop_last());
        assert((a + b).drop_last() =~= a + b.drop_last());
        assert((a + b).last() == b.last());
        if b.last() == '\'' {
            assert(escape_quotes(a) + escape_quotes(b.drop_last()) + seq!['\'', '\''] =~= escape_quotes(a) + (escape_quotes(b.drop_last()) + seq!['\'', '\'']));
        } else {
            assert((escape_quotes(a) + escape_quotes(b.drop_last())).push(b.last()) =~= escape_quotes(a) + escape_quotes(b.drop_last()).push(b.last()));
        }
    }
}

/// A string written into the script with its quotes doubled reads back as
/// itself, so words and glosses with quotes survive the script.
pub proof fn lemma_escape_round_trip(s: Seq<char>)
    ensures
        unescape_quotes(escape_quotes(s)) == s,
    decreases s.len(),
{
    if s.len() > 0 {
        let c = s[0];
        let rest = s.skip(1);
        assert(s =~= seq![c] + rest);
        lemma_escape_append(seq![c], rest);
        assert(seq![c].drop_last() =~= Seq::<char>::empty());
        assert(seq![c].last() == c);
        assert(escape_quotes(Seq::<char>::empty()) == Seq::<char>::empty());
        assert(Seq::<char>::empty() + seq!['\'', '\''] =~= seq!['\'', '\'']);
        assert(Seq::<char>::empty().push(c) =~= seq![c]);
        lemma_escape_round_trip(rest);
        let e = escape_quotes(s);
        if c == '\'' {
            assert(escape_quotes(seq![c]) =~= seq!['\'', '\'']);
            assert(e.skip(2) =~= escape_quotes(rest));
        } else {
            assert(escape_quotes(seq![c]) =~= seq![c]);
            assert(e.skip(1) =~= escape_quotes(rest));
        }
        assert(unescape_quotes(e) =~= s);
    }
}

} // verus!
