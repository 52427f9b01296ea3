//! Lexicographic order on words and on pairs of words.

use vstd::prelude::*;

verus! {

/// Compares `a` and `b` from position `i` on, character by character,
/// a shorter word coming before any longer word it is a prefix of:
/// -1, 0 or 1. This is the order of `str`, whose UTF-8 bytes order
/// exactly as the characters they encode.
pub open spec fn cmp_from(a: Seq<char>, b: Seq<char>, i: int) -> int
    decreases a.len() - i,
{
    if i >= a.len() {
        if i >= b.len() {
            0
        } else {
            -1
        }
    } else if i >= b.len() {
        1
    } else if a[i] != b[i] {
        if (a[i] as u32) < (b[i] as u32) {
            -1
        } else {
            1
        }
    } else {
        cmp_from(a, b, i + 1)
    }
}

/// Three-way lexicographic comparison of two words.
pub open spec fn cmp_words(a: Seq<char>, b: Seq<char>) -> int {
    cmp_from(a, b, 0)
}

/// Three-way comparison of two pairs of words, by the first word and
/// then by the second.
pub open spec fn cmp_pairs(a: (Seq<char>, Seq<char>), b: (Seq<char>, Seq<char>)) -> int {
    let c = cmp_words(a.0, b.0);
    if c != 0 {
        c
    } else {
        cmp_words(a.1, b.1)
    }
}

/// `a` comes strictly before `b`.
pub open spec fn pair_lt(a: (Seq<char>, Seq<char>), b: (Seq<char>, Seq<char>)) -> bool {
    cmp_pairs(a, b) < 0
}

proof fn lemma_cmp_from_flip(a: Seq<char>, b: Seq<char>, i: int)
    requires
        0 <= i,
    ensures
        cmp_from(b, a, i) == -cmp_from(a, b, i),
    decreases a.len() - i,
{
    if i < a.len() && i < b.len() {
        if a[i] == b[i] {
            lemma_cmp_from_flip(a, b, i + 1);
        } else {
            vstd::utf8::char_u32_cast(a[i], a[i] as u32);
            vstd::utf8::char_u32_cast(b[i], b[i] as u32);
        }
    }
}

proof fn lemma_cmp_from_zero(a: Seq<char>, b: Seq<char>, i: int)
    requires
        0 <= i <= a.len(),
        i <= b.len(),
        cmp_from(a, b, i) == 0,
    ensures
        a.len() == b.len(),
        forall|j: int| i <= j < a.len() ==> a[j] == b[j],
    decreases a.len() - i,
{
    if i < a.len() && i < b.len() {
        lemma_cmp_from_zero(a, b, i + 1);
    }
}

proof fn lemma_cmp_from_self(a: Seq<char>, i: int)
    requires
        0 <= i,
    ensures
        cmp_from(a, a, i) == 0,
    decreases a.len() - i,
{
    if i < a.len() {
        lemma_cmp_from_self(a, i + 1);
    }
}

proof fn lemma_cmp_from_trans(a: Seq<char>, b: Seq<char>, c: Seq<char>, i: int)
    requires
        0 <= i,
        cmp_from(a, b, i) < 0,
        cmp_from(b, c, i) < 0,
    ensures
        cmp_from(a, c, i) < 0,
    decreases a.len() - i,
{
    if i < a.len() && i < b.len() && i < c.len() && a[i] == b[i] && b[i] == c[i] {
        lemma_cmp_from_trans(a, b, c, i + 1);
    }
}

/// Equal words compare as 0, and only they.
pub proof fn lemma_cmp_words_zero(a: Seq<char>, b: Seq<char>)
    ensures
        (cmp_words(a, b) == 0) == (a == b),
{
    lemma_cmp_from_self(a, 0);
    if cmp_words(a, b) == 0 {
        lemma_cmp_from_zero(a, b, 0);
        assert(a =~= b);
    }
}

/// The order on pairs is a strict total order.
pub proof fn lemma_pair_order(a: (Seq<char>, Seq<char>), b: (Seq<char>, Seq<char>))
    ensures
        cmp_pairs(b, a) == -cmp_pairs(a, b),
        (cmp_pairs(a, b) == 0) == (a == b),
        -1 <= cmp_pairs(a, b) <= 1,
{
    lemma_cmp_from_flip(a.0, b.0, 0);
    lemma_cmp_from_flip(a.1, b.1, 0);
    lemma_cmp_words_zero(a.0, b.0);
    lemma_cmp_words_zero(a.1, b.1);
    lemma_cmp_bounds(a.0, b.0, 0);
    lemma_cmp_bounds(a.1, b.1, 0);
}

proof fn lemma_cmp_bounds(a: Seq<char>, b: Seq<char>, i: int)
    requires
        0 <= i,
    ensures
        -1 <= cmp_from(a, b, i) <= 1,
    decreases a.len() - i,
{
    if i < a.len() && i < b.len() && a[i] == b[i] {
        lemma_cmp_bounds(a, b, i + 1);
    }
}

/// The order on pairs is transitive.
pub proof fn lemma_pair_lt_trans(
    a: (Seq<char>, Seq<char>),
    b: (Seq<char>, Seq<char>),
    c: (Seq<char>, Seq<char>),
)
    requires
        pair_lt(a, b),
        pair_lt(b, c),
    ensures
        pair_lt(a, c),
{
    lemma_cmp_words_zero(a.0, b.0);
    lemma_cmp_words_zero(b.0, c.0);
    lemma_cmp_words_zero(a.0, c.0);
    if cmp_words(a.0, b.0) < 0 && cmp_words(b.0, c.0) < 0 {
        lemma_cmp_from_trans(a.0, b.0, c.0, 0);
    } else if cmp_words(a.0, b.0) == 0 && cmp_words(b.0, c.0) == 0 {
        lemma_cmp_from_trans(a.1, b.1, c.1, 0);
    }
}

/// Compares two words: -1, 0 or 1.
pub fn compare_words(a: &Vec<char>, b: &Vec<char>) -> (r: i8)
    ensures
        r as int == cmp_words(a@, b@),
{
    let mut i: usize = 0;
    while i < a.len() && i < b.len() && a[i] == b[i]
        invariant
            i <= a.len(),
            i <= b.len(),
            cmp_from(a@, b@, 0) == cmp_from(a@, b@, i as int),
        decreases a.len() - i,
    {
        i = i + 1;
    }
    if i >= a.len() {
        if i >= b.len() {
            0
        } else {
            -1
        }
    } else if i >= b.len() {
        1
    } else if (a[i] as u32) < (b[i] as u32) {
        -1
    } else {
        1
    }
}

/// Compares two pairs of words: -1, 0 or 1.
pub fn compare_pairs(a0: &Vec<char>, a1: &Vec<char>, b0: &Vec<char>, b1: &Vec<char>) -> (r: i8)
    ensures
        r as int == cmp_pairs((a0@, a1@), (b0@, b1@)),
{
    let c = compare_words(a0, b0);
    if c != 0 {
        c
    } else {
        compare_words(a1, b1)
    }
}

} // verus!
