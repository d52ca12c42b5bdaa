//! The lexical index: a definition table keyed by offset and a word table,
//! in word order, from headword to the offsets of its definitions.
use vstd::prelude::*;

use std::collections::HashMap;

use crate::filter::FilterPolicy;
use crate::grammar::{
    data_line_gloss, gloss_of, head_word, index_line_offsets, line_head_word, line_offsets,
};
use crate::order::{compare_words, lemma_word_lt_total, lemma_word_lt_transitive, word_lt};
use crate::text::{chars_of, string_of};

verus! {

broadcast use vstd::std_specs::hash::group_hash_axioms;

/// A gloss and the part of speech of the file it came from.
pub struct Definition {
    pub data: String,
    pub part_of_speech: String,
}

/// A headword and the offsets of its definitions, each once, in the order
/// in which they were first met.
pub struct WordEntry {
    pub word: Vec<char>,
    pub offsets: Vec<u64>,
}

/// `list`, then each offset of `offs` that is not there yet, in order.
pub open spec fn merge_offsets(list: Seq<u64>, offs: Seq<u64>) -> Seq<u64>
    decreases offs.len(),
{
    if offs.len() == 0 {
        list
    } else {
        let m = merge_offsets(list, offs.drop_last());
        if m.contains(offs.last()) {
            m
        } else {
            m.push(offs.last())
        }
    }
}

/// The offsets of `offs` that `known` lacks, each once, in order of first appearance.
pub open spec fn fresh_offsets(offs: Seq<u64>, known: Set<u64>) -> Seq<u64>
    decreases offs.len(),
{
    if offs.len() == 0 {
        Seq::empty()
    } else {
        let p = fresh_offsets(offs.drop_last(), known);
        if known.contains(offs.last()) || p.contains(offs.last()) {
            p
        } else {
            p.push(offs.last())
        }
    }
}

/// The word lists once `line` has been read under `policy`: a kept headword
/// gets the line's offsets added to its list, or a new list of them.
pub open spec fn lists_with_line(
    lists: Map<Seq<char>, Seq<u64>>,
    line: Seq<char>,
    policy: FilterPolicy,
) -> Map<Seq<char>, Seq<u64>> {
    if policy.accepts_line(line) {
        let w = head_word(line);
        let prior = if lists.contains_key(w) {
            lists[w]
        } else {
            Seq::empty()
        };
        lists.insert(w, merge_offsets(prior, line_offsets(line)))
    } else {
        lists
    }
}

pub proof fn lemma_merge_offsets(list: Seq<u64>, offs: Seq<u64>)
    requires
        list.no_duplicates(),
    ensures
        merge_offsets(list, offs).no_duplicates(),
        merge_offsets(list, offs).to_set() == list.to_set().union(offs.to_set()),
    decreases offs.len(),
{
    if offs.len() == 0 {
        assert(offs.to_set() =~= Set::empty());
        assert(list.to_set().union(offs.to_set()) =~= list.to_set());
    } else {
        let rest = offs.drop_last();
        let o = offs.last();
        lemma_merge_offsets(list, rest);
        let m = merge_offsets(list, rest);
        assert(offs =~= rest.push(o));
        rest.lemma_push_to_set_commute(o);
        m.lemma_push_to_set_commute(o);
        if m.contains(o) {
            assert(m.to_set().insert(o) =~= m.to_set());
        } else {
            assert forall|i: int, j: int|
                0 <= i < m.push(o).len() && 0 <= j < m.push(o).len() && i != j implies m.push(
                o,
            )[i] != m.push(o)[j] by {
                if i == m.len() as int {
                    assert(m[j] == m.push(o)[j]);
                } else if j == m.len() as int {
                    assert(m[i] == m.push(o)[i]);
                }
            }
        }
        assert(list.to_set().union(offs.to_set()) =~= list.to_set().union(rest.to_set()).insert(
            o,
        ));
    }
}

/// Whether `v` holds `x`.
fn vec_contains(v: &Vec<u64>, x: u64) -> (r: bool)
    ensures
        r == v@.contains(x),
{
    for i in 0..v.len()
        invariant
            !v@.take(i as int).contains(x),
    {
        if v[i] == x {
            assert(v@[i as int] == x);
            return true;
        }
        assert(v@.take(i + 1) =~= v@.take(i as int).push(v@[i as int]));
    }
    assert(v@.take(v.len() as int) =~= v@);
    false
}

/// Appends to `list` each offset of `offs` that it does not hold yet.
fn merge_into(list: &mut Vec<u64>, offs: &Vec<u64>)
    ensures
        final(list)@ == merge_offsets(old(list)@, offs@),
{
    let ghost start: Seq<u64> = list@;
    for i in 0..offs.len()
        invariant
            list@ == merge_offsets(start, offs@.take(i as int)),
    {
        assert(offs@.take(i + 1).drop_last() =~= offs@.take(i as int));
        if !vec_contains(list, offs[i]) {
            list.push(offs[i]);
        }
    }
    assert(offs@.take(offs.len() as int) =~= offs@);
}

/// The lexical index being built.
pub struct Lexicon {
    /// The definition table, keyed by offset.
    pub definitions: HashMap<u64, Definition>,
    /// The word table, in word order.
    pub words: Vec<WordEntry>,
}

impl Lexicon {
    /// Headwords are in strict word order, so each is there once, and no
    /// list of offsets holds an offset twice.
    pub open spec fn wf(&self) -> bool {
        &&& forall|i: int, j: int|
            0 <= i < j < self.words@.len() ==> word_lt(
                #[trigger] self.words@[i].word@,
                #[trigger] self.words@[j].word@,
            )
        &&& forall|i: int|
            0 <= i < self.words@.len() ==> (#[trigger] self.words@[i]).offsets@.no_duplicates()
    }

    /// The definition table.
    pub open spec fn definition_table(&self) -> Map<u64, Definition> {
        self.definitions@
    }

    /// The headwords, in word order.
    pub open spec fn headwords(&self) -> Seq<Seq<char>> {
        self.words@.map_values(|e: WordEntry| e.word@)
    }

    pub open spec fn has_word(&self, w: Seq<char>) -> bool {
        exists|i: int| 0 <= i < self.words@.len() && self.words@[i].word@ == w
    }

    pub open spec fn index_of(&self, w: Seq<char>) -> int {
        choose|i: int| 0 <= i < self.words@.len() && self.words@[i].word@ == w
    }

    /// Each headword's offsets, in order of first appearance.
    pub open spec fn word_lists(&self) -> Map<Seq<char>, Seq<u64>> {
        Map::new(|w: Seq<char>| self.has_word(w), |w: Seq<char>| self.words@[self.index_of(w)].offsets@)
    }

    /// An empty index.
    pub fn new() -> (r: Lexicon)
        ensures
            r.wf(),
            r.definition_table() == Map::<u64, Definition>::empty(),
            r.word_lists() == Map::<Seq<char>, Seq<u64>>::empty(),
    {
        let r = Lexicon { definitions: HashMap::new(), words: Vec::new() };
        assert(r.word_lists() =~= Map::<Seq<char>, Seq<u64>>::empty());
        r
    }

    proof fn lemma_lookup(&self, i: int)
        requires
            self.wf(),
            0 <= i < self.words@.len(),
        ensures
            self.has_word(self.words@[i].word@),
            self.index_of(self.words@[i].word@) == i,
    {
        let w = self.words@[i].word@;
        assert(self.has_word(w));
        let j = self.index_of(w);
        if j < i {
            assert(word_lt(self.words@[j].word@, self.words@[i].word@));
            crate::order::lemma_word_lt_irreflexive(w);
        } else if i < j {
            assert(word_lt(self.words@[i].word@, self.words@[j].word@));
            crate::order::lemma_word_lt_irreflexive(w);
        }
    }

    /// The first position whose headword does not come before `w`.
    fn position_of(&self, w: &Vec<char>) -> (r: usize)
        requires
            self.wf(),
        ensures
            r <= self.words@.len(),
            forall|j: int| 0 <= j < r ==> word_lt(#[trigger] self.words@[j].word@, w@),
            forall|j: int| r <= j < self.words@.len() ==> !word_lt(#[trigger] self.words@[j].word@, w@),
    {
        let mut lo: usize = 0;
        let mut hi: usize = self.words.len();
        while lo < hi
            invariant
                lo <= hi <= self.words@.len(),
                self.wf(),
                forall|j: int| 0 <= j < lo ==> word_lt(#[trigger] self.words@[j].word@, w@),
                forall|j: int| hi <= j < self.words@.len() ==> !word_lt(#[trigger] self.words@[j].word@, w@),
            decreases hi - lo,
        {
            let mid: usize = lo + (hi - lo) / 2;
            if compare_words(&self.words[mid].word, w) < 0 {
                assert forall|j: int| 0 <= j <= mid implies word_lt(#[trigger] self.words@[j].word@, w@) by {
                    if j < mid {
                        assert(word_lt(self.words@[j].word@, self.words@[mid as int].word@));
                        lemma_word_lt_transitive(self.words@[j].word@, self.words@[mid as int].word@, w@);
                    }
                }
                lo = mid + 1;
            } else {
                assert forall|j: int| mid <= j < self.words@.len() implies !word_lt(#[trigger] self.words@[j].word@, w@) by {
                    if mid < j {
                        assert(word_lt(self.words@[mid as int].word@, self.words@[j].word@));
                        if word_lt(self.words@[j].word@, w@) {
                            lemma_word_lt_transitive(self.words@[mid as int].word@, self.words@[j].word@, w@);
                            if self.words@[mid as int].word@ == w@ {
                                crate::order::lemma_word_lt_irreflexive(w@);
                            } else {
                                crate::order::lemma_word_lt_asymmetric(w@, self.words@[mid as int].word@);
                            }
                        }
                    }
                }
                hi = mid;
            }
        }
        lo
    }

    /// Reads one index line under `policy`. A kept headword gets the line's
    /// offsets added to its list; the definition table is left as it is. The
    /// result lists the offsets of a kept line that the definition table
    /// lacks, each once: the ones to resolve in the data file.
    pub fn add_index_line(&mut self, line: &str, policy: &FilterPolicy) -> (pending: Vec<u64>)
        requires
            old(self).wf(),
        ensures
            final(self).wf(),
            final(self).word_lists() == lists_with_line(old(self).word_lists(), line@, *policy),
            final(self).definition_table() == old(self).definition_table(),
            pending@ == (if policy.accepts_line(line@) {
                fresh_offsets(line_offsets(line@), old(self).definition_table().dom())
            } else {
                Seq::<u64>::empty()
            }),
    {
        let chars: Vec<char> = chars_of(line);
        let word: Vec<char> = line_head_word(&chars);
        if !policy.keeps_line(&chars, &word) {
            return Vec::new();
        }
        let offs: Vec<u64> = index_line_offsets(&chars);
        let mut pending: Vec<u64> = Vec::new();
        for i in 0..offs.len()
            invariant
                pending@ == fresh_offsets(offs@.take(i as int), self.definitions@.dom()),
        {
            assert(offs@.take(i + 1).drop_last() =~= offs@.take(i as int));
            let o: u64 = offs[i];
            if !self.definitions.contains_key(&o) && !vec_contains(&pending, o) {
                pending.push(o);
            }
        }
        assert(offs@.take(offs.len() as int) =~= offs@);
        let ghost before: Lexicon = *self;
        let ghost w: Seq<char> = word@;
        let pos: usize = self.position_of(&word);
        if pos < self.words.len() && compare_words(&self.words[pos].word, &word) == 0 {
            let mut entry: WordEntry = WordEntry { word: Vec::new(), offsets: Vec::new() };
            self.words.set_and_swap(pos, &mut entry);
            merge_into(&mut entry.offsets, &offs);
            let ghost merged: Seq<u64> = entry.offsets@;
            self.words.set(pos, entry);
            proof {
                before.lemma_lookup(pos as int);
                lemma_merge_offsets(before.words@[pos as int].offsets@, offs@);
                assert(forall|i: int|
                    0 <= i < self.words@.len() ==> #[trigger] self.words@[i].word@
                        == before.words@[i].word@);
                assert(self.wf());
                self.lemma_lookup(pos as int);
                assert forall|k: Seq<char>| self.has_word(k) == before.has_word(k) by {
                    if self.has_word(k) {
                        let i = choose|i: int| 0 <= i < self.words@.len() && self.words@[i].word@ == k;
                        assert(before.words@[i].word@ == k);
                    }
                    if before.has_word(k) {
                        let i = choose|i: int| 0 <= i < before.words@.len() && before.words@[i].word@ == k;
                        assert(self.words@[i].word@ == k);
                    }
                }
                assert forall|k: Seq<char>| #[trigger] self.has_word(k) && k != w implies self.word_lists()[k]
                    == before.word_lists()[k] by {
                    let i = before.index_of(k);
                    before.lemma_lookup(i);
                    self.lemma_lookup(i);
                }
                assert(self.word_lists() =~= lists_with_line(before.word_lists(), line@, *policy));
            }
        } else {
            let mut list: Vec<u64> = Vec::new();
            merge_into(&mut list, &offs);
            proof {
                lemma_merge_offsets(Seq::empty(), offs@);
                assert(forall|j: int| 0 <= j < before.words@.len() ==> #[trigger] before.words@[j].word@ != w) by {
                    assert forall|j: int| 0 <= j < before.words@.len() implies #[trigger] before.words@[j].word@ != w by {
                        if j < pos {
                            crate::order::lemma_word_lt_irreflexive(w);
                        } else if j > pos {
                            assert(word_lt(before.words@[pos as int].word@, before.words@[j].word@));
                            if before.words@[j].word@ == w {
                                assert(!word_lt(before.words@[pos as int].word@, w));
                            }
                        }
                    }
                }
            }
            self.words.insert(pos, WordEntry { word, offsets: list });
            proof {
                assert forall|i: int, j: int| 0 <= i < j < self.words@.len() implies word_lt(
                    #[trigger] self.words@[i].word@,
                    #[trigger] self.words@[j].word@,
                ) by {
                    let wi = self.words@[i].word@;
                    let wj = self.words@[j].word@;
                    if j == pos {
                        assert(wi == before.words@[i].word@);
                    } else if i == pos {
                        assert(wj == before.words@[j - 1].word@);
                        assert(!word_lt(wj, w));
                        lemma_word_lt_total(w, wj);
                    } else if i < pos {
                        if j < pos {
                            assert(word_lt(before.words@[i].word@, before.words@[j].word@));
                        } else {
                            assert(word_lt(before.words@[i].word@, before.words@[j - 1].word@));
                        }
                    } else {
                        assert(word_lt(before.words@[i - 1].word@, before.words@[j - 1].word@));
                    }
                }
                assert forall|i: int| 0 <= i < self.words@.len() implies (
                #[trigger] self.words@[i]).offsets@.no_duplicates() by {
                    if i < pos {
                        assert(self.words@[i] == before.words@[i]);
                    } else if i > pos {
                        assert(self.words@[i] == before.words@[i - 1]);
                    }
                }
                assert(self.wf());
                self.lemma_lookup(pos as int);
                assert forall|k: Seq<char>| k != w implies self.has_word(k) == before.has_word(k) by {
                    if self.has_word(k) {
                        let i = choose|i: int| 0 <= i < self.words@.len() && self.words@[i].word@ == k;
                        if i < pos {
                            assert(before.words@[i].word@ == k);
                        } else {
                            assert(before.words@[i - 1].word@ == k);
                        }
                    }
                    if before.has_word(k) {
                        let i = choose|i: int| 0 <= i < before.words@.len() && before.words@[i].word@ == k;
                        if i < pos {
                            assert(self.words@[i].word@ == k);
                        } else {
                            assert(self.words@[i + 1].word@ == k);
                        }
                    }
                }
                assert(!before.has_word(w));
                assert forall|k: Seq<char>| #[trigger] self.has_word(k) && k != w implies self.word_lists()[k]
                    == before.word_lists()[k] by {
                    let i = before.index_of(k);
                    before.lemma_lookup(i);
                    if i < pos {
                        self.lemma_lookup(i);
                    } else {
                        self.lemma_lookup(i + 1);
                    }
                }
                assert(self.word_lists() =~= lists_with_line(before.word_lists(), line@, *policy));
            }
        }
        pending
    }

    /// Resolves `offset` from the data line found there, unless the table
    /// holds it already: the first definition of an offset stays.
    pub fn add_definition(&mut self, offset: u64, data_line: &str, part_of_speech: &str)
        requires
            old(self).wf(),
        ensures
            final(self).wf(),
            final(self).words@ == old(self).words@,
            old(self).definition_table().contains_key(offset) ==> final(self).definition_table()
                == old(self).definition_table(),
            !old(self).definition_table().contains_key(offset) ==> {
                &&& final(self).definition_table() == old(self).definition_table().insert(
                    offset,
                    final(self).definition_table()[offset],
                )
                &&& final(self).definition_table()[offset].data@ == gloss_of(data_line@)
                &&& final(self).definition_table()[offset].part_of_speech@ == part_of_speech@
            },
    {
        if self.definitions.contains_key(&offset) {
            return;
        }
        let chars: Vec<char> = chars_of(data_line);
        let gloss: Vec<char> = data_line_gloss(&chars);
        let definition = Definition { data: string_of(&gloss), part_of_speech: part_of_speech.to_owned() };
        self.definitions.insert(offset, definition);
    }

    /// The number of headwords.
    pub fn word_count(&self) -> (r: usize)
        ensures
            r == self.words@.len(),
    {
        self.words.len()
    }

    /// Whether no headword was kept.
    pub fn is_empty(&self) -> (r: bool)
        ensures
            r == (self.words@.len() == 0),
    {
        self.words.len() == 0
    }

    /// The definition at `offset`, if it was resolved.
    pub fn definition(&self, offset: u64) -> (r: Option<&Definition>)
        ensures
            r == (if self.definition_table().contains_key(offset) {
                Some(&self.definition_table()[offset])
            } else {
                None::<&Definition>
            }),
    {
        self.definitions.get(&offset)
    }
}

/// The word lists after reading `lines` in order, from an empty table.
pub open spec fn lists_after(lines: Seq<Seq<char>>, policy: FilterPolicy) -> Map<Seq<char>, Seq<u64>>
    decreases lines.len(),
{
    if lines.len() == 0 {
        Map::empty()
    } else {
        lists_with_line(lists_after(lines.drop_last(), policy), lines.last(), policy)
    }
}

/// Whether line `k` of `lines` is kept under `policy` with headword `w`.
pub open spec fn kept_with_head(lines: Seq<Seq<char>>, policy: FilterPolicy, k: int, w: Seq<char>) -> bool {
    0 <= k < lines.len() && policy.accepts_line(lines[k]) && head_word(lines[k]) == w
}

/// After index lines are read in order from an empty table, a headword has an
/// entry exactly when some kept line has it, and its offsets, each listed
/// once, are the union of the offsets on those lines.
pub proof fn lemma_word_offsets_union(lines: Seq<Seq<char>>, policy: FilterPolicy, w: Seq<char>)
    ensures
        lists_after(lines, policy).contains_key(w) <==> exists|k: int| kept_with_head(lines, policy, k, w),
        lists_after(lines, policy).contains_key(w) ==> lists_after(lines, policy)[w].no_duplicates(),
        lists_after(lines, policy).contains_key(w) ==> lists_after(lines, policy)[w].to_set()
            == Set::new(|o: u64| exists|k: int| #[trigger] kept_with_head(lines, policy, k, w)
                && line_offsets(lines[k]).contains(o)),
    decreases lines.len(),
{
    if lines.len() > 0 {
        let rest = lines.drop_last();
        let line = lines.last();
        let n = lines.len() - 1;
        lemma_word_offsets_union(rest, policy, w);
        assert forall|k: int| #[trigger] kept_with_head(rest, policy, k, w) implies kept_with_head(lines, policy, k, w) by {
            assert(rest[k] == lines[k]);
        }
        assert forall|k: int| #[trigger] kept_with_head(lines, policy, k, w) && k < n implies kept_with_head(rest, policy, k, w) by {
            assert(rest[k] == lines[k]);
        }
        let m = lists_after(rest, policy);
        let target = Set::new(|o: u64| exists|k: int| #[trigger] kept_with_head(lines, policy, k, w)
                && line_offsets(lines[k]).contains(o));
        let earlier = Set::new(|o: u64| exists|k: int| #[trigger] kept_with_head(rest, policy, k, w)
                && line_offsets(rest[k]).contains(o));
        if policy.accepts_line(line) && head_word(line) == w {
            assert(kept_with_head(lines, policy, n, w));
            let prior = if m.contains_key(w) { m[w] } else { Seq::<u64>::empty() };
            lemma_merge_offsets(prior, line_offsets(line));
            if !m.contains_key(w) {
                assert(prior.to_set() =~= Set::empty());
                assert(earlier =~= Set::empty());
            }
            assert(target =~= earlier.union(line_offsets(line).to_set())) by {
                assert forall|o: u64| target.contains(o) implies #[trigger] earlier.union(line_offsets(line).to_set()).contains(o) by {
                    let k = choose|k: int| #[trigger] kept_with_head(lines, policy, k, w)
                        && line_offsets(lines[k]).contains(o);
                    if k < n {
                        assert(kept_with_head(rest, policy, k, w));
                        assert(earlier.contains(o));
                    }
                }
                assert forall|o: u64| earlier.union(line_offsets(line).to_set()).contains(o) implies #[trigger] target.contains(o) by {
                    if earlier.contains(o) {
                        let k = choose|k: int| #[trigger] kept_with_head(rest, policy, k, w)
                            && line_offsets(rest[k]).contains(o);
                        assert(kept_with_head(lines, policy, k, w));
                    } else {
                        assert(kept_with_head(lines, policy, n, w));
                    }
                }
            }
        } else {
            assert(!kept_with_head(lines, policy, n, w));
            assert(target =~= earlier) by {
                assert forall|o: u64| target.contains(o) implies #[trigger] earlier.contains(o) by {
                    let k = choose|k: int| #[trigger] kept_with_head(lines, policy, k, w)
                        && line_offsets(lines[k]).contains(o);
                    assert(k < n);
                    assert(kept_with_head(rest, policy, k, w));
                }
                assert forall|o: u64| earlier.contains(o) implies #[trigger] target.contains(o) by {
                    let k = choose|k: int| #[trigger] kept_with_head(rest, policy, k, w)
                        && line_offsets(rest[k]).contains(o);
                    assert(kept_with_head(lines, policy, k, w));
                }
            }
        }
    }
}

/// An offset that the definition table holds is never listed for resolution,
/// and none is listed twice: each offset is read from the data file at most once.
pub proof fn lemma_resolved_once(offs: Seq<u64>, known: Set<u64>, o: u64)
    ensures
        known.contains(o) ==> !fresh_offsets(offs, known).contains(o),
        fresh_offsets(offs, known).no_duplicates(),
        fresh_offsets(offs, known).to_set() == offs.to_set().difference(known),
    decreases offs.len(),
{
    if offs.len() == 0 {
        assert(offs.to_set() =~= Set::empty());
        assert(fresh_offsets(offs, known).to_set() =~= Set::empty());
    } else {
        let rest = offs.drop_last();
        let x = offs.last();
        lemma_resolved_once(rest, known, o);
        let p = fresh_offsets(rest, known);
        assert(offs =~= rest.push(x));
        rest.lemma_push_to_set_commute(x);
        p.lemma_push_to_set_commute(x);
        if !(known.contains(x) || p.contains(x)) {
            assert forall|i: int, j: int|
                0 <= i < p.push(x).len() && 0 <= j < p.push(x).len() && i != j implies p.push(
                x,
            )[i] != p.push(x)[j] by {
                if i == p.len() as int {
                    assert(p[j] == p.push(x)[j]);
                } else if j == p.len() as int {
                    assert(p[i] == p.push(x)[i]);
                }
            }
            assert(offs.to_set().difference(known) =~= rest.to_set().difference(known).insert(x));
        } else if known.contains(x) {
            assert(offs.to_set().difference(known) =~= rest.to_set().difference(known));
        } else {
            assert(p.to_set().contains(x));
            assert(offs.to_set().difference(known) =~= rest.to_set().difference(known));
        }
    }
}

} // verus!
