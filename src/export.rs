//! What the three sinks write: the relational rows, with a definition row for
//! each resolved offset that a headword lists, numbered in order of first use;
//! each headword's definitions for the document sink; the SQL script.
use vstd::prelude::*;

use std::collections::HashMap;

use crate::lexicon::{Definition, Lexicon};

verus! {

broadcast use vstd::std_specs::hash::group_hash_axioms;

/// The relational rows in the making: `rows` holds the offset of each
/// definition row, `ids` the row of each offset given one, and `links` a
/// (definition row, word row) pair for each link row. Rows count from zero.
pub struct Plan {
    pub rows: Seq<u64>,
    pub ids: Map<u64, int>,
    pub links: Seq<(int, int)>,
}

pub open spec fn empty_plan() -> Plan {
    Plan { rows: Seq::empty(), ids: Map::empty(), links: Seq::empty() }
}

/// Word row `word` lists offset `o`: an offset without a definition gets no
/// row; one met before is linked to its row; a new one gets the next row.
pub open spec fn plan_step(p: Plan, word: int, o: u64, defs: Set<u64>) -> Plan {
    if !defs.contains(o) {
        p
    } else if p.ids.contains_key(o) {
        Plan { rows: p.rows, ids: p.ids, links: p.links.push((p.ids[o], word)) }
    } else {
        Plan {
            rows: p.rows.push(o),
            ids: p.ids.insert(o, p.rows.len() as int),
            links: p.links.push((p.rows.len() as int, word)),
        }
    }
}

/// `p` once word row `word` with offsets `offs` is taken in.
pub open spec fn plan_word(p: Plan, word: int, offs: Seq<u64>, defs: Set<u64>) -> Plan
    decreases offs.len(),
{
    if offs.len() == 0 {
        p
    } else {
        plan_step(plan_word(p, word, offs.drop_last(), defs), word, offs.last(), defs)
    }
}

/// The rows for the word rows whose offset lists are `lists`, in order.
pub open spec fn plan_lists(lists: Seq<Seq<u64>>, defs: Set<u64>) -> Plan
    decreases lists.len(),
{
    if lists.len() == 0 {
        empty_plan()
    } else {
        plan_word(plan_lists(lists.drop_last(), defs), lists.len() - 1, lists.last(), defs)
    }
}

/// Whether the executable link pairs `links` are the pairs `p`.
pub open spec fn same_links(links: Seq<(usize, usize)>, p: Seq<(int, int)>) -> bool {
    &&& links.len() == p.len()
    &&& forall|k: int| 0 <= k < p.len() ==> (links[k].0 as int, links[k].1 as int) == #[trigger] p[k]
}

/// The offset lists of the word table, in word order.
pub open spec fn offset_lists(lex: &Lexicon) -> Seq<Seq<u64>> {
    lex.words@.map_values(|e: crate::lexicon::WordEntry| e.offsets@)
}

/// The rows of `lex`.
pub open spec fn lexicon_plan(lex: &Lexicon) -> Plan {
    plan_lists(offset_lists(lex), lex.definition_table().dom())
}

/// The relational rows: the offset of each definition row, and a
/// (definition row, word row) pair for each link row, rows counted from zero.
pub struct RowPlan {
    pub definition_offsets: Vec<u64>,
    pub links: Vec<(usize, usize)>,
}

/// The rows that the relational sinks write for `lex`.
pub fn plan_rows(lex: &Lexicon) -> (r: RowPlan)
    ensures
        r.definition_offsets@ == lexicon_plan(lex).rows,
        same_links(r.links@, lexicon_plan(lex).links),
{
    let ghost lists: Seq<Seq<u64>> = offset_lists(lex);
    let ghost defs: Set<u64> = lex.definition_table().dom();
    let mut rows: Vec<u64> = Vec::new();
    let mut ids: HashMap<u64, usize> = HashMap::new();
    let mut links: Vec<(usize, usize)> = Vec::new();
    assert(lists.take(0) =~= Seq::<Seq<u64>>::empty());
    for i in 0..lex.words.len()
        invariant
            lists == offset_lists(lex),
            defs == lex.definition_table().dom(),
            rows@ == plan_lists(lists.take(i as int), defs).rows,
            ids@.dom() == plan_lists(lists.take(i as int), defs).ids.dom(),
            forall|o: u64| #[trigger] ids@.contains_key(o) ==> ids@[o] as int == plan_lists(lists.take(i as int), defs).ids[o],
            same_links(links@, plan_lists(lists.take(i as int), defs).links),
    {
        let offs: &Vec<u64> = &lex.words[i].offsets;
        let ghost start: Plan = plan_lists(lists.take(i as int), defs);
        assert(offs@.take(0) =~= Seq::<u64>::empty());
        for j in 0..offs.len()
            invariant
                lists == offset_lists(lex),
                defs == lex.definition_table().dom(),
                offs@ == lists[i as int],
                rows@ == plan_word(start, i as int, offs@.take(j as int), defs).rows,
                ids@.dom() == plan_word(start, i as int, offs@.take(j as int), defs).ids.dom(),
                forall|o: u64| #[trigger] ids@.contains_key(o) ==> ids@[o] as int == plan_word(start, i as int, offs@.take(j as int), defs).ids[o],
                same_links(links@, plan_word(start, i as int, offs@.take(j as int), defs).links),
        {
            assert(offs@.take(j + 1).drop_last() =~= offs@.take(j as int));
            let o: u64 = offs[j];
            let ghost before: Plan = plan_word(start, i as int, offs@.take(j as int), defs);
            if lex.definitions.contains_key(&o) {
                match ids.get(&o) {
                    Some(k) => {
                        links.push((*k, i));
                        assert(same_links(links@, plan_step(before, i as int, o, defs).links));
                    },
                    None => {
                        let k: usize = rows.len();
                        rows.push(o);
                        ids.insert(o, k);
                        links.push((k, i));
                        assert(same_links(links@, plan_step(before, i as int, o, defs).links));
                        assert(ids@.dom() =~= plan_step(before, i as int, o, defs).ids.dom());
                    },
                }
            }
        }
        assert(offs@.take(offs.len() as int) =~= offs@);
        assert(lists.take(i + 1).drop_last() =~= lists.take(i as int));
    }
    assert(lists.take(lex.words.len() as int) =~= lists);
    RowPlan { definition_offsets: rows, links }
}

/// The offsets of `offs` that have a definition, in order.
pub open spec fn resolved_offsets(offs: Seq<u64>, defs: Set<u64>) -> Seq<u64>
    decreases offs.len(),
{
    if offs.len() == 0 {
        Seq::empty()
    } else {
        let r = resolved_offsets(offs.drop_last(), defs);
        if defs.contains(offs.last()) {
            r.push(offs.last())
        } else {
            r
        }
    }
}

/// Reading the rows back: the offsets of the definition rows that the link
/// rows of word row `word` point at, in link order.
pub open spec fn linked_offsets(rows: Seq<u64>, links: Seq<(int, int)>, word: int) -> Seq<u64>
    decreases links.len(),
{
    if links.len() == 0 {
        Seq::empty()
    } else {
        let r = linked_offsets(rows, links.drop_last(), word);
        if links.last().1 == word {
            r.push(rows[links.last().0])
        } else {
            r
        }
    }
}

/// The rows are consistent: each numbered offset has that row, each row has
/// a defined offset and its number, and each link points at a row.
pub open spec fn plan_ok(p: Plan, defs: Set<u64>) -> bool {
    &&& forall|o: u64| #[trigger] p.ids.contains_key(o) ==> 0 <= p.ids[o] < p.rows.len() && p.rows[p.ids[o]] == o
    &&& forall|k: int| 0 <= k < p.rows.len() ==> #[trigger] p.ids.contains_key(p.rows[k]) && p.ids[p.rows[k]] == k && defs.contains(p.rows[k])
    &&& forall|k: int| 0 <= k < p.links.len() ==> 0 <= (#[trigger] p.links[k]).0 < p.rows.len()
}

proof fn lemma_linked_rows_extend(rows: Seq<u64>, more: Seq<u64>, links: Seq<(int, int)>, word: int)
    requires
        forall|k: int| 0 <= k < links.len() ==> 0 <= (#[trigger] links[k]).0 < rows.len(),
        more.len() >= rows.len(),
        more.take(rows.len() as int) == rows,
    ensures
        linked_offsets(more, links, word) == linked_offsets(rows, links, word),
    decreases links.len(),
{
    if links.len() > 0 {
        let l = links.last();
        assert(links[links.len() - 1] == l);
        assert(more[l.0] == more.take(rows.len() as int)[l.0]);
        lemma_linked_rows_extend(rows, more, links.drop_last(), word);
    }
}

proof fn lemma_linked_none(rows: Seq<u64>, links: Seq<(int, int)>, word: int)
    requires
        forall|k: int| 0 <= k < links.len() ==> (#[trigger] links[k]).1 < word,
    ensures
        linked_offsets(rows, links, word) == Seq::<u64>::empty(),
    decreases links.len(),
{
    if links.len() > 0 {
        assert(links[links.len() - 1] == links.last());
        lemma_linked_none(rows, links.drop_last(), word);
    }
}

proof fn lemma_plan_word(p: Plan, word: int, offs: Seq<u64>, defs: Set<u64>)
    requires
        plan_ok(p, defs),
    ensures
        plan_ok(plan_word(p, word, offs, defs), defs),
        plan_word(p, word, offs, defs).rows.len() >= p.rows.len(),
        plan_word(p, word, offs, defs).rows.take(p.rows.len() as int) == p.rows,
        plan_word(p, word, offs, defs).links.len() >= p.links.len(),
        forall|k: int| 0 <= k < p.links.len() ==> plan_word(p, word, offs, defs).links[k] == p.links[k],
        forall|k: int| p.links.len() <= k < plan_word(p, word, offs, defs).links.len() ==> (#[trigger] plan_word(p, word, offs, defs).links[k]).1 == word,
        linked_offsets(plan_word(p, word, offs, defs).rows, plan_word(p, word, offs, defs).links, word)
            == linked_offsets(p.rows, p.links, word) + resolved_offsets(offs, defs),
        forall|other: int| other != word ==> #[trigger] linked_offsets(plan_word(p, word, offs, defs).rows, plan_word(p, word, offs, defs).links, other)
            == linked_offsets(p.rows, p.links, other),
    decreases offs.len(),
{
    if offs.len() == 0 {
        assert(p.rows.take(p.rows.len() as int) =~= p.rows);
        assert(linked_offsets(p.rows, p.links, word) + Seq::<u64>::empty() =~= linked_offsets(p.rows, p.links, word));
    } else {
        let q = plan_word(p, word, offs.drop_last(), defs);
        lemma_plan_word(p, word, offs.drop_last(), defs);
        let o = offs.last();
        let r = plan_step(q, word, o, defs);
        assert(r == plan_word(p, word, offs, defs));
        let base = linked_offsets(p.rows, p.links, word);
        let prev = resolved_offsets(offs.drop_last(), defs);
        if !defs.contains(o) {
        } else if q.ids.contains_key(o) {
            assert(r.links.drop_last() =~= q.links);
            assert(r.links.last() == (q.ids[o], word));
            assert(base + prev.push(o) =~= (base + prev).push(o));
            assert forall|other: int| other != word implies #[trigger] linked_offsets(r.rows, r.links, other)
                == linked_offsets(p.rows, p.links, other) by {
                assert(linked_offsets(r.rows, r.links, other) == linked_offsets(q.rows, q.links, other));
            }
        } else {
            assert(r.links.drop_last() =~= q.links);
            assert(r.rows.take(q.rows.len() as int) =~= q.rows);
            lemma_linked_rows_extend(q.rows, r.rows, q.links, word);
            assert forall|other: int| other != word implies #[trigger] linked_offsets(r.rows, r.links, other)
                == linked_offsets(p.rows, p.links, other) by {
                lemma_linked_rows_extend(q.rows, r.rows, q.links, other);
                assert(linked_offsets(r.rows, r.links, other) == linked_offsets(q.rows, q.links, other));
            }
            assert(base + prev.push(o) =~= (base + prev).push(o));
            assert(r.rows.take(p.rows.len() as int) =~= q.rows.take(p.rows.len() as int));
            assert forall|k: int| 0 <= k < r.rows.len() implies #[trigger] r.ids.contains_key(r.rows[k]) && r.ids[r.rows[k]] == k && defs.contains(r.rows[k]) by {
                if k < q.rows.len() {
                    assert(r.rows[k] == q.rows[k]);
                }
            }
            assert forall|x: u64| #[trigger] r.ids.contains_key(x) implies 0 <= r.ids[x] < r.rows.len() && r.rows[r.ids[x]] == x by {
                if x != o {
                    assert(q.ids.contains_key(x));
                    assert(r.rows[q.ids[x]] == q.rows[q.ids[x]]);
                }
            }
        }
    }
}

proof fn lemma_plan_lists(lists: Seq<Seq<u64>>, defs: Set<u64>)
    ensures
        plan_ok(plan_lists(lists, defs), defs),
        forall|k: int| 0 <= k < plan_lists(lists, defs).links.len() ==> 0 <= (#[trigger] plan_lists(lists, defs).links[k]).1 < lists.len(),
        forall|i: int| 0 <= i < lists.len() ==> #[trigger] linked_offsets(plan_lists(lists, defs).rows, plan_lists(lists, defs).links, i)
            == resolved_offsets(lists[i], defs),
    decreases lists.len(),
{
    if lists.len() > 0 {
        let rest = lists.drop_last();
        let n = lists.len() - 1;
        lemma_plan_lists(rest, defs);
        let p = plan_lists(rest, defs);
        lemma_plan_word(p, n, lists.last(), defs);
        lemma_linked_none(p.rows, p.links, n);
        let r = plan_lists(lists, defs);
        assert(Seq::<u64>::empty() + resolved_offsets(lists.last(), defs) =~= resolved_offsets(lists.last(), defs));
        assert forall|i: int| 0 <= i < lists.len() implies #[trigger] linked_offsets(r.rows, r.links, i)
            == resolved_offsets(lists[i], defs) by {
            if i < n {
                assert(rest[i] == lists[i]);
                assert(linked_offsets(r.rows, r.links, i) == linked_offsets(p.rows, p.links, i));
            }
        }
        assert forall|k: int| 0 <= k < r.links.len() implies 0 <= (#[trigger] r.links[k]).1 < lists.len() by {
            if k < p.links.len() {
                assert(r.links[k] == p.links[k]);
            }
        }
    }
}

/// Reading the relational rows back gives each headword the definitions that
/// the word table gives it, in the same order: each link row of a word row
/// points at the definition row of one of its resolved offsets, each
/// definition row holds a defined offset, and each offset has one row.
pub proof fn lemma_rows_round_trip(lists: Seq<Seq<u64>>, defs: Set<u64>)
    ensures
        forall|i: int| 0 <= i < lists.len() ==> #[trigger] linked_offsets(plan_lists(lists, defs).rows, plan_lists(lists, defs).links, i)
            == resolved_offsets(lists[i], defs),
        forall|k: int| 0 <= k < plan_lists(lists, defs).links.len() ==> {
            &&& 0 <= (#[trigger] plan_lists(lists, defs).links[k]).0 < plan_lists(lists, defs).rows.len()
            &&& 0 <= plan_lists(lists, defs).links[k].1 < lists.len()
        },
        forall|k: int| 0 <= k < plan_lists(lists, defs).rows.len() ==> defs.contains(#[trigger] plan_lists(lists, defs).rows[k]),
        plan_lists(lists, defs).rows.no_duplicates(),
{
    lemma_plan_lists(lists, defs);
    let p = plan_lists(lists, defs);
    assert forall|k: int| 0 <= k < p.rows.len() implies defs.contains(#[trigger] p.rows[k]) by {
        assert(p.ids.contains_key(p.rows[k]));
    }
    assert forall|i: int, j: int| 0 <= i < p.rows.len() && 0 <= j < p.rows.len() && i != j implies p.rows[i] != p.rows[j] by {
        assert(p.ids.contains_key(p.rows[i]));
        assert(p.ids.contains_key(p.rows[j]));
    }
}

impl Definition {
    /// A copy of this definition.
    pub fn duplicate(&self) -> (r: Definition)
        ensures
            r == *self,
    {
        Definition { data: self.data.clone(), part_of_speech: self.part_of_speech.clone() }
    }
}

/// The definitions of headword `i`, in the order of its offsets, leaving out
/// the offsets that have none: what the document sink writes for it.
pub fn word_definitions(lex: &Lexicon, i: usize) -> (r: Vec<Definition>)
    requires
        i < lex.words@.len(),
    ensures
        r@ == resolved_offsets(lex.words@[i as int].offsets@, lex.definition_table().dom()).map_values(
            |o: u64| lex.definition_table()[o],
        ),
{
    let offs: &Vec<u64> = &lex.words[i].offsets;
    let ghost defs: Map<u64, Definition> = lex.definition_table();
    let mut r: Vec<Definition> = Vec::new();
    assert(offs@.take(0) =~= Seq::<u64>::empty());
    for j in 0..offs.len()
        invariant
            defs == lex.definition_table(),
            offs@ == lex.words@[i as int].offsets@,
            r@ == resolved_offsets(offs@.take(j as int), defs.dom()).map_values(|o: u64| defs[o]),
    {
        assert(offs@.take(j + 1).drop_last() =~= offs@.take(j as int));
        match lex.definitions.get(&offs[j]) {
            Some(d) => {
                r.push(d.duplicate());
            },
            None => {},
        }
        assert(r@ =~= resolved_offsets(offs@.take(j + 1), defs.dom()).map_values(|o: u64| defs[o]));
    }
    assert(offs@.take(offs.len() as int) =~= offs@);
    r
}

/// Headword `i` as a string.
pub fn headword(lex: &Lexicon, i: usize) -> (r: String)
    requires
        i < lex.words@.len(),
    ensures
        r@ == lex.words@[i as int].word@,
{
    crate::text::string_of(&lex.words[i].word)
}

/// The definitions that the relational sink links to headword `i`, read back
/// through its link rows and definition rows.
pub open spec fn linked_definitions(lex: &Lexicon, i: int) -> Seq<Definition> {
    let p = lexicon_plan(lex);
    linked_offsets(p.rows, p.links, i).map_values(|o: u64| lex.definition_table()[o])
}

/// The definitions that the word table gives headword `i`.
pub open spec fn table_definitions(lex: &Lexicon, i: int) -> Seq<Definition> {
    resolved_offsets(lex.words@[i].offsets@, lex.definition_table().dom()).map_values(
        |o: u64| lex.definition_table()[o],
    )
}

/// Exporting `lex` to the relational sink and reading it back gives every
/// headword the definitions that the lexicon gives it, in the same order.
pub proof fn lemma_lexicon_round_trip(lex: &Lexicon)
    ensures
        forall|i: int| 0 <= i < lex.words@.len() ==> #[trigger] linked_definitions(lex, i) == table_definitions(lex, i),
{
    let lists = offset_lists(lex);
    lemma_rows_round_trip(lists, lex.definition_table().dom());
    assert forall|i: int| 0 <= i < lex.words@.len() implies #[trigger] linked_definitions(lex, i) == table_definitions(lex, i) by {
        assert(lists[i] == lex.words@[i].offsets@);
    }
}

} // verus!
