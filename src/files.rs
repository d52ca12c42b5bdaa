//! Pairing the lexicographer files of a directory: each `index.X` with each
//! `data.X` of the same extension, and deciding whether a directory is usable.
use vstd::prelude::*;

use std::path::PathBuf;

use crate::text::{chars_of, string_of};

verus! {

/// Declares `std::path::PathBuf` to carry paths through; nothing is assumed
/// about what it holds.
#[verifier::external_type_specification]
#[verifier::external_body]
pub struct ExPathBuf(PathBuf);

/// An index file and the data file that its offsets point into.
pub struct IndexDataPair {
    pub index_path: PathBuf,
    pub data_path: PathBuf,
    /// The part of speech of both files, from their extension.
    pub part_of_speech: String,
}

impl IndexDataPair {
    pub fn new(index_path: PathBuf, data_path: PathBuf, part_of_speech: String) -> (r: IndexDataPair)
        ensures
            r.index_path == index_path,
            r.data_path == data_path,
            r.part_of_speech == part_of_speech,
    {
        IndexDataPair { index_path, data_path, part_of_speech }
    }

    pub fn get_data_path(&self) -> (r: &PathBuf)
        ensures
            *r == self.data_path,
    {
        &self.data_path
    }

    pub fn get_index_path(&self) -> (r: &PathBuf)
        ensures
            *r == self.index_path,
    {
        &self.index_path
    }

    pub fn get_part_of_speech(&self) -> (r: &String)
        ensures
            *r == self.part_of_speech,
    {
        &self.part_of_speech
    }
}

/// Why a directory cannot be used.
pub enum DirError {
    /// Whether it exists could not be found out.
    Unknown,
    /// It does not exist.
    Missing,
    /// It exists and is not a directory.
    NotADirectory,
}

/// Whether a path is a usable directory, from what was found out about it:
/// `exists` is `None` where existence could not be checked.
pub fn is_valid_dir(exists: Option<bool>, is_dir: bool) -> (r: Result<bool, DirError>)
    ensures
        exists is None <==> r matches Err(DirError::Unknown),
        exists == Some(false) <==> r matches Err(DirError::Missing),
        exists == Some(true) && !is_dir <==> r matches Err(DirError::NotADirectory),
        exists == Some(true) && is_dir <==> r matches Ok(true),
        !(r matches Ok(false)),
{
    match exists {
        None => Err(DirError::Unknown),
        Some(false) => Err(DirError::Missing),
        Some(true) => {
            if is_dir {
                Ok(true)
            } else {
                Err(DirError::NotADirectory)
            }
        },
    }
}

/// Whether `t` occurs in `s` at position `i`.
pub open spec fn occurs_at(s: Seq<char>, t: Seq<char>, i: int) -> bool {
    0 <= i && i + t.len() <= s.len() && s.subrange(i, i + t.len()) == t
}

/// Whether `t` occurs in `s`.
pub open spec fn has_infix(s: Seq<char>, t: Seq<char>) -> bool {
    exists|i: int| occurs_at(s, t, i)
}

/// The position of the last dot of `s` before `i`, or -1.
pub open spec fn last_dot_before(s: Seq<char>, i: int) -> int
    decreases i,
{
    if i <= 0 {
        -1
    } else if s[i - 1] == '.' {
        i - 1
    } else {
        last_dot_before(s, i - 1)
    }
}

/// The extension of a file name: what follows its last dot, where that dot
/// is not its first character.
pub open spec fn extension(name: Seq<char>) -> Option<Seq<char>> {
    let d = last_dot_before(name, name.len() as int);
    if d <= 0 {
        None
    } else {
        Some(name.skip(d + 1))
    }
}

/// Whether a file name is that of an index file to read: it holds `index`
/// and is not the sense index.
pub open spec fn is_index_name(name: Seq<char>) -> bool {
    has_infix(name, "index"@) && name != "index.sense"@
}

/// Whether a file name is that of a data file.
pub open spec fn is_data_name(name: Seq<char>) -> bool {
    has_infix(name, "data"@)
}

/// The pairs (index file, data file) among `names` whose extensions agree,
/// index files in the order of `names`, and for each the data files in that
/// order; `count` limits the index files to the first `count` names.
pub open spec fn pairs_upto(names: Seq<Seq<char>>, count: int) -> Seq<(int, int)>
    decreases count,
{
    if count <= 0 {
        Seq::empty()
    } else if is_index_name(names[count - 1]) {
        pairs_upto(names, count - 1) + data_partners(names, count - 1, names.len() as int)
    } else {
        pairs_upto(names, count - 1)
    }
}

/// The data files among the first `count` names whose extension is that of name `i`.
pub open spec fn data_partners(names: Seq<Seq<char>>, i: int, count: int) -> Seq<(int, int)>
    decreases count,
{
    if count <= 0 {
        Seq::empty()
    } else if is_data_name(names[count - 1]) && extension(names[count - 1]) == extension(names[i]) {
        data_partners(names, i, count - 1).push((i, count - 1))
    } else {
        data_partners(names, i, count - 1)
    }
}

fn occurs_in(s: &Vec<char>, t: &Vec<char>) -> (r: bool)
    ensures
        r == has_infix(s@, t@),
{
    if t.len() > s.len() {
        return false;
    }
    let mut i: usize = 0;
    while i <= s.len() - t.len()
        invariant
            t.len() <= s.len(),
            i <= s.len() - t.len() + 1,
            forall|j: int| 0 <= j < i ==> !occurs_at(s@, t@, j),
        decreases s.len() - t.len() + 1 - i,
    {
        let mut k: usize = 0;
        while k < t.len() && s[i + k] == t[k]
            invariant
                k <= t.len(),
                i + t.len() <= s.len(),
                forall|m: int| 0 <= m < k ==> s@[i + m] == t@[m],
            decreases t.len() - k,
        {
            k = k + 1;
        }
        if k == t.len() {
            assert(s@.subrange(i as int, i + t.len()) =~= t@);
            assert(occurs_at(s@, t@, i as int));
            return true;
        }
        assert(!occurs_at(s@, t@, i as int)) by {
            if occurs_at(s@, t@, i as int) {
                assert(s@.subrange(i as int, i + t.len())[k as int] == s@[i + k]);
            }
        }
        i = i + 1;
    }
    assert forall|j: int| !occurs_at(s@, t@, j) by {
        if 0 <= j && j + t@.len() <= s@.len() {
            assert(j < i);
        }
    }
    false
}

fn name_extension(name: &Vec<char>) -> (r: Option<Vec<char>>)
    ensures
        match extension(name@) {
            Some(e) => r matches Some(v) && v@ == e,
            None => r is None,
        },
{
    let mut i: usize = name.len();
    while i > 0 && name[i - 1] != '.'
        invariant
            i <= name.len(),
            last_dot_before(name@, name.len() as int) == last_dot_before(name@, i as int),
        decreases i,
    {
        i = i - 1;
    }
    if i <= 1 {
        return None;
    }
    let mut v: Vec<char> = Vec::new();
    let mut k: usize = i;
    while k < name.len()
        invariant
            i <= k <= name.len(),
            v@ == name@.subrange(i as int, k as int),
        decreases name.len() - k,
    {
        v.push(name[k]);
        assert(name@.subrange(i as int, k + 1) =~= name@.subrange(i as int, k as int).push(name@[k as int]));
        k = k + 1;
    }
    assert(v@ =~= name@.skip(i as int));
    Some(v)
}

/// The part of speech that a file name gives: its extension, or nothing.
pub fn part_of_speech(name: &str) -> (r: String)
    ensures
        r@ == match extension(name@) {
            Some(e) => e,
            None => Seq::<char>::empty(),
        },
{
    match name_extension(&chars_of(name)) {
        Some(v) => string_of(&v),
        None => String::new(),
    }
}

/// Position pairs as integers.
pub open spec fn int_pairs(s: Seq<(usize, usize)>) -> Seq<(int, int)> {
    s.map_values(|p: (usize, usize)| (p.0 as int, p.1 as int))
}

/// The names as character sequences.
pub open spec fn name_views(names: Seq<String>) -> Seq<Seq<char>> {
    names.map_values(|n: String| n@)
}

fn same_extension(a: &Option<Vec<char>>, b: &Option<Vec<char>>) -> (r: bool)
    ensures
        r == (match (a, b) {
            (Some(x), Some(y)) => x@ == y@,
            (None, None) => true,
            _ => false,
        }),
{
    match (a, b) {
        (Some(x), Some(y)) => crate::order::compare_words(x, y) == 0,
        (None, None) => true,
        _ => false,
    }
}

/// The pairs (index file, data file), as positions in `names`: each index
/// file with each data file of the same extension, index files in the order
/// of `names`, and for each the data files in that order.
pub fn pair_files(names: &Vec<String>) -> (r: Vec<(usize, usize)>)
    ensures
        int_pairs(r@) == pairs_upto(name_views(names@), names@.len() as int),
{
    let ghost nv: Seq<Seq<char>> = name_views(names@);
    let n: usize = names.len();
    let index_word: Vec<char> = chars_of("index");
    let data_word: Vec<char> = chars_of("data");
    let sense_name: Vec<char> = chars_of("index.sense");
    let mut is_index: Vec<bool> = Vec::new();
    let mut is_data: Vec<bool> = Vec::new();
    let mut exts: Vec<Option<Vec<char>>> = Vec::new();
    for i in 0..n
        invariant
            n == names@.len(),
            nv == name_views(names@),
            index_word@ == "index"@,
            data_word@ == "data"@,
            sense_name@ == "index.sense"@,
            is_index@.len() == i,
            is_data@.len() == i,
            exts@.len() == i,
            forall|j: int| 0 <= j < i ==> #[trigger] is_index@[j] == is_index_name(nv[j]),
            forall|j: int| 0 <= j < i ==> #[trigger] is_data@[j] == is_data_name(nv[j]),
            forall|j: int| 0 <= j < i ==> match extension(nv[j]) {
                Some(e) => #[trigger] exts@[j] matches Some(v) && v@ == e,
                None => exts@[j] is None,
            },
    {
        let c: Vec<char> = chars_of(names[i].as_str());
        assert(c@ == nv[i as int]);
        let is_sense: bool = crate::order::compare_words(&c, &sense_name) == 0;
        is_index.push(occurs_in(&c, &index_word) && !is_sense);
        is_data.push(occurs_in(&c, &data_word));
        exts.push(name_extension(&c));
    }
    let mut r: Vec<(usize, usize)> = Vec::new();
    assert(int_pairs(r@) =~= pairs_upto(nv, 0));
    for i in 0..n
        invariant
            n == names@.len(),
            nv == name_views(names@),
            nv.len() == n,
            is_index@.len() == n,
            is_data@.len() == n,
            exts@.len() == n,
            forall|j: int| 0 <= j < n ==> #[trigger] is_index@[j] == is_index_name(nv[j]),
            forall|j: int| 0 <= j < n ==> #[trigger] is_data@[j] == is_data_name(nv[j]),
            forall|j: int| 0 <= j < n ==> match extension(nv[j]) {
                Some(e) => #[trigger] exts@[j] matches Some(v) && v@ == e,
                None => exts@[j] is None,
            },
            int_pairs(r@) == pairs_upto(nv, i as int),
    {
        if is_index[i] {
            let ghost before: Seq<(int, int)> = pairs_upto(nv, i as int);
            assert(before + data_partners(nv, i as int, 0) =~= before);
            for j in 0..n
                invariant
                    n == names@.len(),
                    nv.len() == n,
                    i < n,
                    is_data@.len() == n,
                    exts@.len() == n,
                    forall|m: int| 0 <= m < n ==> #[trigger] is_data@[m] == is_data_name(nv[m]),
                    forall|m: int| 0 <= m < n ==> match extension(nv[m]) {
                        Some(e) => #[trigger] exts@[m] matches Some(v) && v@ == e,
                        None => exts@[m] is None,
                    },
                    int_pairs(r@) == before + data_partners(nv, i as int, j as int),
            {
                let ghost e1 = exts@[j as int];
                let ghost e2 = exts@[i as int];
                if is_data[j] && same_extension(&exts[j], &exts[i]) {
                    assert(extension(nv[j as int]) == extension(nv[i as int])) by {
                        match extension(nv[j as int]) { Some(a) => {}, None => {} }
                        match extension(nv[i as int]) { Some(a) => {}, None => {} }
                    }
                    let ghost old_r = r@;
                    r.push((i, j));
                    assert(int_pairs(r@) =~= int_pairs(old_r).push((i as int, j as int)));
                    assert(before + data_partners(nv, i as int, j + 1) =~= (before + data_partners(nv, i as int, j as int)).push((i as int, j as int)));
                } else {
                    assert(!(is_data_name(nv[j as int]) && extension(nv[j as int]) == extension(nv[i as int]))) by {
                        if is_data_name(nv[j as int]) && extension(nv[j as int]) == extension(nv[i as int]) {
                            match extension(nv[j as int]) { Some(a) => {}, None => {} }
                        }
                    }
                }
            }
        } else {
        }
        assert(pairs_upto(nv, i + 1) == if is_index_name(nv[i as int]) { pairs_upto(nv, i as int) + data_partners(nv, i as int, nv.len() as int) } else { pairs_upto(nv, i as int) });
    }
    r
}

} // verus!
