//! The two line formats of a lexicographer file pair.
//!
//! An index line starts with its headword, the characters before the first
//! space, and lists byte offsets into the data file: eight decimal digits
//! that follow a whitespace character. A data line carries its gloss after a
//! bar and one whitespace character, up to a semicolon, trailing whitespace
//! left out.
use vstd::prelude::*;

verus! {

/// An ASCII decimal digit.
pub open spec fn is_digit(c: char) -> bool {
    '0' <= c && c <= '9'
}

/// A character of Unicode's `White_Space` property.
pub open spec fn is_space(c: char) -> bool {
    c == ' ' || ('\t' <= c && c <= '\r') || c == '\u{85}' || c == '\u{a0}' || c == '\u{1680}'
        || ('\u{2000}' <= c && c <= '\u{200a}') || c == '\u{2028}' || c == '\u{2029}'
        || c == '\u{202f}' || c == '\u{205f}' || c == '\u{3000}'
}

/// An ASCII punctuation character.
pub open spec fn is_punct(c: char) -> bool {
    ('!' <= c && c <= '/') || (':' <= c && c <= '@') || ('[' <= c && c <= '`') || ('{' <= c
        && c <= '~')
}

pub fn char_is_digit(c: char) -> (r: bool)
    ensures
        r == is_digit(c),
{
    '0' <= c && c <= '9'
}

pub fn char_is_space(c: char) -> (r: bool)
    ensures
        r == is_space(c),
{
    c == ' ' || ('\t' <= c && c <= '\r') || c == '\u{85}' || c == '\u{a0}' || c == '\u{1680}'
        || ('\u{2000}' <= c && c <= '\u{200a}') || c == '\u{2028}' || c == '\u{2029}'
        || c == '\u{202f}' || c == '\u{205f}' || c == '\u{3000}'
}

pub fn char_is_punct(c: char) -> (r: bool)
    ensures
        r == is_punct(c),
{
    ('!' <= c && c <= '/') || (':' <= c && c <= '@') || ('[' <= c && c <= '`') || ('{' <= c
        && c <= '~')
}

/// A header line of an index file: it starts with two spaces.
pub open spec fn is_license_line(line: Seq<char>) -> bool {
    line.len() >= 2 && line[0] == ' ' && line[1] == ' '
}

/// The position of the first space at or after `i`, or the length of `s`.
pub open spec fn space_from(s: Seq<char>, i: int) -> int
    decreases s.len() - i,
{
    if i < 0 || i >= s.len() {
        s.len() as int
    } else if s[i] == ' ' {
        i
    } else {
        space_from(s, i + 1)
    }
}

/// The headword of an index line: what stands before its first space.
pub open spec fn head_word(line: Seq<char>) -> Seq<char> {
    line.take(space_from(line, 0))
}

/// The number that a run of decimal digits writes.
pub open spec fn digits_value(d: Seq<char>) -> nat
    decreases d.len(),
{
    if d.len() == 0 {
        0
    } else {
        digits_value(d.drop_last()) * 10 + ((d.last() as nat) - ('0' as nat)) as nat
    }
}

/// Whether an offset field starts at `i`: a whitespace character, then eight digits.
pub open spec fn offset_field_at(s: Seq<char>, i: int) -> bool {
    &&& 0 <= i
    &&& i + 9 <= s.len()
    &&& is_space(s[i])
    &&& forall|k: int| i + 1 <= k < i + 9 ==> is_digit(#[trigger] s[k])
}

/// The offsets written in `s` from position `i` on, scanning left to right
/// without overlap.
pub open spec fn offsets_from(s: Seq<char>, i: int) -> Seq<u64>
    decreases s.len() - i,
{
    if i < 0 || i + 9 > s.len() {
        Seq::empty()
    } else if offset_field_at(s, i) {
        seq![digits_value(s.subrange(i + 1, i + 9)) as u64] + offsets_from(s, i + 9)
    } else {
        offsets_from(s, i + 1)
    }
}

/// The offsets listed on an index line, in order.
pub open spec fn line_offsets(line: Seq<char>) -> Seq<u64> {
    offsets_from(line, 0)
}

/// The position of the first semicolon at or after `i`, or the length of `s`.
pub open spec fn semicolon_from(s: Seq<char>, i: int) -> int
    decreases s.len() - i,
{
    if i < 0 || i >= s.len() {
        s.len() as int
    } else if s[i] == ';' {
        i
    } else {
        semicolon_from(s, i + 1)
    }
}

/// The end of `s[lo..e]` once trailing whitespace is cut off (`lo` if nothing is left).
pub open spec fn trimmed_end(s: Seq<char>, lo: int, e: int) -> int
    decreases e - lo,
{
    if e <= lo {
        lo
    } else if !is_space(s[e - 1]) {
        e
    } else {
        trimmed_end(s, lo, e - 1)
    }
}

/// The end of the gloss whose bar stands at `p`: the text starts at `p + 2`
/// and runs to the next semicolon, trailing whitespace cut off.
pub open spec fn gloss_end(s: Seq<char>, p: int) -> int {
    trimmed_end(s, p + 3, semicolon_from(s, p + 2))
}

/// Whether a gloss starts at `p`: a bar, one whitespace character, then at
/// least two characters of which the last is neither whitespace nor a semicolon.
pub open spec fn gloss_at(s: Seq<char>, p: int) -> bool {
    &&& 0 <= p
    &&& p + 2 < s.len()
    &&& s[p] == '|'
    &&& is_space(s[p + 1])
    &&& gloss_end(s, p) > p + 3
}

/// The first gloss of `s` at or after `p`, if there is one.
pub open spec fn gloss_from(s: Seq<char>, p: int) -> Option<Seq<char>>
    decreases s.len() - p,
{
    if p < 0 || p >= s.len() {
        None
    } else if gloss_at(s, p) {
        Some(s.subrange(p + 2, gloss_end(s, p)))
    } else {
        gloss_from(s, p + 1)
    }
}

/// The gloss of a data line; empty where the line has none.
pub open spec fn gloss_of(line: Seq<char>) -> Seq<char> {
    match gloss_from(line, 0) {
        Some(g) => g,
        None => Seq::empty(),
    }
}

pub fn line_is_license(line: &Vec<char>) -> (r: bool)
    ensures
        r == is_license_line(line@),
{
    line.len() >= 2 && line[0] == ' ' && line[1] == ' '
}

/// The headword of an index line.
pub fn line_head_word(line: &Vec<char>) -> (r: Vec<char>)
    ensures
        r@ == head_word(line@),
{
    let mut r: Vec<char> = Vec::new();
    let mut i: usize = 0;
    while i < line.len() && line[i] != ' '
        invariant
            0 <= i <= line.len(),
            space_from(line@, 0) == space_from(line@, i as int),
            r@ == line@.take(i as int),
        decreases line.len() - i,
    {
        r.push(line[i]);
        assert(line@.take(i as int).push(line@[i as int]) =~= line@.take(i + 1));
        i = i + 1;
    }
    r
}

/// Powers of ten.
pub open spec fn pow10(k: nat) -> nat
    decreases k,
{
    if k == 0 {
        1
    } else {
        10 * pow10((k - 1) as nat)
    }
}

proof fn lemma_pow10_monotonic(a: nat, b: nat)
    requires
        a <= b,
    ensures
        pow10(a) <= pow10(b),
    decreases b,
{
    if a < b {
        lemma_pow10_monotonic(a, (b - 1) as nat);
    }
}

proof fn lemma_pow10_eight()
    ensures
        pow10(8) == 100000000,
{
    reveal_with_fuel(pow10, 9);
}

/// The number written by the eight digits at `s[start..start + 8]`.
fn eight_digits_value(s: &Vec<char>, start: usize) -> (r: u64)
    requires
        start + 8 <= s.len(),
        forall|k: int| start <= k < start + 8 ==> is_digit(#[trigger] s@[k]),
    ensures
        r as nat == digits_value(s@.subrange(start as int, start + 8)),
{
    let mut v: u64 = 0;
    let mut k: usize = 0;
    proof {
        lemma_pow10_eight();
        assert(s@.subrange(start as int, start as int) =~= Seq::<char>::empty());
    }
    while k < 8
        invariant
            k <= 8,
            start + 8 <= s.len(),
            forall|j: int| start <= j < start + 8 ==> is_digit(#[trigger] s@[j]),
            v as nat == digits_value(s@.subrange(start as int, start + k)),
            (v as nat) < pow10(k as nat),
        decreases 8 - k,
    {
        let c: char = s[start + k];
        assert(is_digit(s@[start + k]));
        let d: u64 = (c as u32 - '0' as u32) as u64;
        let ghost p: nat = pow10(k as nat);
        assert(v * 10 + d < p * 10) by (nonlinear_arith)
            requires
                (v as nat) < p,
                d <= 9,
        ;
        assert(pow10((k + 1) as nat) == 10 * p);
        proof {
            lemma_pow10_monotonic((k + 1) as nat, 8);
            lemma_pow10_eight();
        }
        let ghost sub: Seq<char> = s@.subrange(start as int, start + k + 1);
        assert(sub.drop_last() =~= s@.subrange(start as int, start + k));
        v = v * 10 + d;
        k = k + 1;
    }
    v
}

/// The offsets listed on an index line, in order.
pub fn index_line_offsets(line: &Vec<char>) -> (r: Vec<u64>)
    ensures
        r@ == line_offsets(line@),
{
    let mut r: Vec<u64> = Vec::new();
    let mut i: usize = 0;
    while i < line.len() && line.len() - i >= 9
        invariant
            i <= line.len(),
            r@ + offsets_from(line@, i as int) == line_offsets(line@),
        decreases line.len() - i,
    {
        let mut field: bool = char_is_space(line[i]);
        let mut k: usize = 1;
        while k < 9
            invariant
                1 <= k <= 9,
                i + 9 <= line.len(),
                field == (is_space(line@[i as int]) && forall|j: int|
                    i + 1 <= j < i + k ==> is_digit(#[trigger] line@[j])),
            decreases 9 - k,
        {
            if field && !char_is_digit(line[i + k]) {
                field = false;
            }
            k = k + 1;
        }
        assert(field == offset_field_at(line@, i as int));
        if field {
            let v: u64 = eight_digits_value(line, i + 1);
            assert(seq![v] + offsets_from(line@, i + 9) == offsets_from(line@, i as int));
            assert(r@.push(v) + offsets_from(line@, i + 9) =~= r@ + (seq![v] + offsets_from(
                line@,
                i + 9,
            )));
            r.push(v);
            i = i + 9;
        } else {
            i = i + 1;
        }
    }
    assert(offsets_from(line@, i as int) =~= Seq::<u64>::empty());
    assert(r@ + Seq::<u64>::empty() =~= r@);
    r
}

fn find_semicolon(s: &Vec<char>, start: usize) -> (r: usize)
    requires
        start <= s.len(),
    ensures
        r as int == semicolon_from(s@, start as int),
        start <= r <= s.len(),
{
    let mut i: usize = start;
    while i < s.len() && s[i] != ';'
        invariant
            start <= i <= s.len(),
            semicolon_from(s@, start as int) == semicolon_from(s@, i as int),
        decreases s.len() - i,
    {
        i = i + 1;
    }
    i
}

fn trim_end(s: &Vec<char>, lo: usize, e: usize) -> (r: usize)
    requires
        e <= s.len(),
    ensures
        r as int == trimmed_end(s@, lo as int, e as int),
        r <= e || r == lo,
{
    let mut t: usize = e;
    while t > lo && char_is_space(s[t - 1])
        invariant
            t <= e <= s.len(),
            trimmed_end(s@, lo as int, e as int) == trimmed_end(s@, lo as int, t as int),
        decreases t,
    {
        t = t - 1;
    }
    if t <= lo {
        lo
    } else {
        t
    }
}

/// The gloss of a data line; empty where the line has none.
pub fn data_line_gloss(line: &Vec<char>) -> (r: Vec<char>)
    ensures
        r@ == gloss_of(line@),
{
    let n: usize = line.len();
    let mut p: usize = 0;
    while p < n
        invariant
            n == line.len(),
            p <= n,
            gloss_from(line@, 0) == gloss_from(line@, p as int),
        decreases n - p,
    {
        if n - p > 2 && line[p] == '|' && char_is_space(line[p + 1]) {
            let e: usize = find_semicolon(line, p + 2);
            let t: usize = trim_end(line, p + 3, e);
            if t > p + 3 {
                assert(gloss_at(line@, p as int));
                let mut r: Vec<char> = Vec::new();
                let mut k: usize = p + 2;
                while k < t
                    invariant
                        p + 2 <= k <= t <= n,
                        n == line.len(),
                        r@ == line@.subrange(p + 2, k as int),
                    decreases t - k,
                {
                    r.push(line[k]);
                    assert(line@.subrange(p + 2, k as int).push(line@[k as int])
                        =~= line@.subrange(p + 2, k + 1));
                    k = k + 1;
                }
                return r;
            }
        }
        p = p + 1;
    }
    Vec::new()
}

} // verus!
