//! The order of the word table: character by character, by code point, a
//! prefix before its extensions. It is the order of `String`'s `Ord`, since
//! UTF-8 keeps the order of code points.
use vstd::prelude::*;

verus! {

/// Whether `a` comes strictly before `b`.
pub open spec fn word_lt(a: Seq<char>, b: Seq<char>) -> bool
    decreases a.len(),
{
    if a.len() == 0 {
        b.len() > 0
    } else if b.len() == 0 {
        false
    } else if a[0] != b[0] {
        a[0] < b[0]
    } else {
        word_lt(a.drop_first(), b.drop_first())
    }
}

pub proof fn lemma_word_lt_irreflexive(a: Seq<char>)
    ensures
        !word_lt(a, a),
    decreases a.len(),
{
    if a.len() > 0 {
        lemma_word_lt_irreflexive(a.drop_first());
    }
}

pub proof fn lemma_word_lt_asymmetric(a: Seq<char>, b: Seq<char>)
    requires
        word_lt(a, b),
    ensures
        !word_lt(b, a),
    decreases a.len(),
{
    if a.len() > 0 && b.len() > 0 && a[0] == b[0] {
        lemma_word_lt_asymmetric(a.drop_first(), b.drop_first());
    }
}

pub proof fn lemma_word_lt_transitive(a: Seq<char>, b: Seq<char>, c: Seq<char>)
    requires
        word_lt(a, b),
        word_lt(b, c),
    ensures
        word_lt(a, c),
    decreases a.len(),
{
    if a.len() > 0 && b.len() > 0 && c.len() > 0 && a[0] == b[0] && b[0] == c[0] {
        lemma_word_lt_transitive(a.drop_first(), b.drop_first(), c.drop_first());
    }
}

pub proof fn lemma_word_lt_total(a: Seq<char>, b: Seq<char>)
    requires
        a != b,
    ensures
        word_lt(a, b) || word_lt(b, a),
    decreases a.len(),
{
    if a.len() > 0 && b.len() > 0 && a[0] == b[0] {
        if a.drop_first() == b.drop_first() {
            assert(a =~= seq![a[0]] + a.drop_first());
            assert(b =~= seq![b[0]] + b.drop_first());
        }
        lemma_word_lt_total(a.drop_first(), b.drop_first());
    } else if a.len() == 0 && b.len() == 0 {
        assert(a =~= b);
    }
}

/// Compares two words: negative where `a` comes first, zero where they are
/// equal, positive where `b` comes first.
pub fn compare_words(a: &Vec<char>, b: &Vec<char>) -> (r: i8)
    ensures
        r < 0 <==> word_lt(a@, b@),
        r == 0 <==> a@ == b@,
        r > 0 <==> word_lt(b@, a@),
{
    let mut i: usize = 0;
    assert(a@.skip(0) =~= a@);
    assert(b@.skip(0) =~= b@);
    assert(a@.take(0) =~= b@.take(0));
    while i < a.len() && i < b.len() && a[i] == b[i]
        invariant
            i <= a.len(),
            i <= b.len(),
            a@.take(i as int) == b@.take(i as int),
            word_lt(a@, b@) == word_lt(a@.skip(i as int), b@.skip(i as int)),
            word_lt(b@, a@) == word_lt(b@.skip(i as int), a@.skip(i as int)),
        decreases a.len() - i,
    {
        assert(a@.skip(i as int).drop_first() =~= a@.skip(i + 1));
        assert(b@.skip(i as int).drop_first() =~= b@.skip(i + 1));
        assert(a@.take(i + 1) =~= a@.take(i as int).push(a@[i as int]));
        assert(b@.take(i + 1) =~= b@.take(i as int).push(b@[i as int]));
        i = i + 1;
    }
    let ghost sa: Seq<char> = a@.skip(i as int);
    let ghost sb: Seq<char> = b@.skip(i as int);
    if i == a.len() && i == b.len() {
        assert(a@ =~= a@.take(i as int));
        assert(b@ =~= b@.take(i as int));
        proof {
            lemma_word_lt_irreflexive(a@);
        }
        0
    } else if i == a.len() {
        assert(sa.len() == 0 && sb.len() > 0);
        assert(a@ != b@) by {
            assert(a@.len() != b@.len());
        }
        -1
    } else if i == b.len() {
        assert(sb.len() == 0 && sa.len() > 0);
        assert(a@.len() != b@.len());
        1
    } else {
        assert(sa[0] == a@[i as int] && sb[0] == b@[i as int]);
        assert(a@[i as int] != b@[i as int]);
        assert(a@ != b@) by {
            if a@ == b@ {
                assert(a@[i as int] == b@[i as int]);
            }
        }
        if a[i] < b[i] {
            -1
        } else {
            1
        }
    }
}

} // verus!
