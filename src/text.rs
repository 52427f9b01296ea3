//! Splitting text into words and joining words back into text.

use vstd::prelude::*;

verus! {

/// Whether `c` has the Unicode `White_Space` property, the set of
/// characters that `char::is_whitespace` accepts.
pub open spec fn white_space(c: char) -> bool {
    let u = c as u32;
    (0x09 <= u && u <= 0x0d) || u == 0x20 || u == 0x85 || u == 0xa0 || u == 0x1680
        || (0x2000 <= u && u <= 0x200a) || u == 0x2028 || u == 0x2029 || u == 0x202f
        || u == 0x205f || u == 0x3000
}

/// Executable form of `white_space`.
pub fn is_white_space(c: char) -> (r: bool)
    ensures
        r == white_space(c),
{
    let u = c as u32;
    (0x09 <= u && u <= 0x0d) || u == 0x20 || u == 0x85 || u == 0xa0 || u == 0x1680
        || (0x2000 <= u && u <= 0x200a) || u == 0x2028 || u == 0x2029 || u == 0x202f
        || u == 0x205f || u == 0x3000
}


/// A word: a non-empty run of characters none of which is white space.
pub open spec fn is_word(w: Seq<char>) -> bool {
    w.len() > 0 && forall|i: int| 0 <= i < w.len() ==> !white_space(#[trigger] w[i])
}

/// Reads `s` from left to right: the words already closed, and the
/// word that is still being read (empty between words).
pub open spec fn scan(s: Seq<char>) -> (Seq<Seq<char>>, Seq<char>)
    decreases s.len(),
{
    if s.len() == 0 {
        (Seq::empty(), Seq::empty())
    } else {
        let (ws, cur) = scan(s.drop_last());
        let c = s.last();
        if white_space(c) {
            if cur.len() > 0 {
                (ws.push(cur), Seq::empty())
            } else {
                (ws, Seq::empty())
            }
        } else {
            (ws, cur.push(c))
        }
    }
}

/// The words of `s`: its maximal runs of non-white-space characters,
/// in order, as `str::split_whitespace` yields them.
pub open spec fn words_of(s: Seq<char>) -> Seq<Seq<char>> {
    let (ws, cur) = scan(s);
    if cur.len() > 0 {
        ws.push(cur)
    } else {
        ws
    }
}

/// The words closed after reading a prefix of `s` are the first words
/// of `s`.
pub proof fn lemma_scan_prefix(s: Seq<char>, j: int)
    requires
        0 <= j <= s.len(),
    ensures
        scan(s.take(j)).0.len() <= scan(s).0.len(),
        forall|i: int|
            0 <= i < scan(s.take(j)).0.len() ==> #[trigger] scan(s.take(j)).0[i] == scan(s).0[i],
        scan(s).0.len() <= words_of(s).len(),
        forall|i: int| 0 <= i < scan(s).0.len() ==> #[trigger] words_of(s)[i] == scan(s).0[i],
    decreases s.len(),
{
    if j == s.len() {
        assert(s.take(j) =~= s);
    } else {
        let dl = s.drop_last();
        lemma_scan_prefix(dl, j);
        assert(dl.take(j) =~= s.take(j));
    }
}

/// The words of `ws` with one space between each two of them.
pub open spec fn join(ws: Seq<Seq<char>>) -> Seq<char>
    decreases ws.len(),
{
    if ws.len() == 0 {
        Seq::empty()
    } else if ws.len() == 1 {
        ws[0]
    } else {
        join(ws.drop_last()) + seq![' '] + ws.last()
    }
}

/// A join of words starts with the first of them.
pub proof fn lemma_join_starts(ws: Seq<Seq<char>>)
    requires
        ws.len() > 0,
    ensures
        join(ws).len() >= ws[0].len(),
        join(ws).take(ws[0].len() as int) == ws[0],
    decreases ws.len(),
{
    if ws.len() == 1 {
        assert(join(ws).take(ws[0].len() as int) =~= ws[0]);
    } else {
        let front = ws.drop_last();
        lemma_join_starts(front);
        assert(join(ws).take(ws[0].len() as int) =~= join(front).take(ws[0].len() as int));
    }
}

proof fn lemma_scan_parts(s: Seq<char>)
    ensures
        forall|i: int| 0 <= i < scan(s).0.len() ==> is_word(#[trigger] scan(s).0[i]),
        forall|i: int| 0 <= i < scan(s).1.len() ==> !white_space(#[trigger] scan(s).1[i]),
    decreases s.len(),
{
    if s.len() > 0 {
        let prev = s.drop_last();
        lemma_scan_parts(prev);
        let (ws, cur) = scan(prev);
        let c = s.last();
        if white_space(c) {
            if cur.len() > 0 {
                assert(is_word(cur));
                assert forall|i: int| 0 <= i < ws.push(cur).len() implies is_word(
                    #[trigger] ws.push(cur)[i],
                ) by {
                    if i < ws.len() {
                        assert(is_word(ws[i]));
                    }
                }
            }
        } else {
            assert forall|i: int| 0 <= i < cur.push(c).len() implies !white_space(
                #[trigger] cur.push(c)[i],
            ) by {
                if i < cur.len() {
                    assert(!white_space(cur[i]));
                }
            }
        }
    }
}

/// Every item of `words_of(s)` is a word.
pub proof fn lemma_words_of_are_words(s: Seq<char>)
    ensures
        forall|i: int| 0 <= i < words_of(s).len() ==> is_word(#[trigger] words_of(s)[i]),
{
    lemma_scan_parts(s);
}

proof fn lemma_scan_append_run(p: Seq<char>, w: Seq<char>)
    requires
        forall|i: int| 0 <= i < w.len() ==> !white_space(#[trigger] w[i]),
    ensures
        scan(p + w) == (scan(p).0, scan(p).1 + w),
    decreases w.len(),
{
    if w.len() == 0 {
        assert(p + w =~= p);
        assert(scan(p).1 + w =~= scan(p).1);
    } else {
        let w0 = w.drop_last();
        lemma_scan_append_run(p, w0);
        assert((p + w).drop_last() =~= p + w0);
        assert((p + w).last() == w.last());
        assert(scan(p).1 + w =~= (scan(p).1 + w0).push(w.last()));
    }
}

proof fn lemma_scan_join(ws: Seq<Seq<char>>)
    requires
        ws.len() > 0,
        forall|i: int| 0 <= i < ws.len() ==> is_word(#[trigger] ws[i]),
    ensures
        scan(join(ws)) == (ws.drop_last(), ws.last()),
    decreases ws.len(),
{
    if ws.len() == 1 {
        lemma_scan_append_run(Seq::empty(), ws[0]);
        assert(Seq::<char>::empty() + ws[0] =~= ws[0]);
        assert(ws.drop_last() =~= Seq::empty());
        assert(Seq::<char>::empty() + ws[0] =~= ws[0]);
    } else {
        let front = ws.drop_last();
        assert(is_word(front.last()));
        lemma_scan_join(front);
        let p = join(front) + seq![' '];
        assert(p.drop_last() =~= join(front));
        assert(scan(p) == (front.drop_last().push(front.last()), Seq::<char>::empty()));
        assert(front.drop_last().push(front.last()) =~= front);
        assert(is_word(ws.last()));
        lemma_scan_append_run(p, ws.last());
        assert(Seq::<char>::empty() + ws.last() =~= ws.last());
    }
}

/// Joining words with single spaces and splitting the result on white
/// space gives back the same words.
pub proof fn lemma_words_of_join(ws: Seq<Seq<char>>)
    requires
        forall|i: int| 0 <= i < ws.len() ==> is_word(#[trigger] ws[i]),
    ensures
        words_of(join(ws)) == ws,
{
    if ws.len() == 0 {
        assert(words_of(join(ws)) =~= ws);
    } else {
        lemma_scan_join(ws);
        assert(is_word(ws.last()));
        assert(ws.drop_last().push(ws.last()) =~= ws);
    }
}

/// The characters of each word of `ws`.
pub open spec fn view_words(ws: Seq<Vec<char>>) -> Seq<Seq<char>> {
    ws.map_values(|w: Vec<char>| w@)
}

/// Relies on std's `String::push`: appends one character.
#[verifier::external_body]
fn push_char(s: &mut String, c: char)
    ensures
        final(s)@ == old(s)@.push(c),
{
    s.push(c)
}

/// Splits `s` into its words.
pub fn split_words(s: &str) -> (r: Vec<Vec<char>>)
    ensures
        view_words(r@) == words_of(s@),
{
    let mut ws: Vec<Vec<char>> = Vec::new();
    let mut cur: Vec<char> = Vec::new();
    for c in it: s.chars()
        invariant
            it.seq() == s@,
            0 <= it.index() <= s@.len(),
            (view_words(ws@), cur@) == scan(s@.take(it.index() as int)),
    {
        let ghost prefix = s@.take(it.index() as int);
        assert(s@.take(it.index() + 1).drop_last() =~= prefix);
        assert(s@.take(it.index() + 1).last() == c);
        let ghost old_ws = view_words(ws@);
        let ghost old_cur = cur@;
        if is_white_space(c) {
            if cur.len() > 0 {
                ws.push(cur);
                cur = Vec::new();
                assert(view_words(ws@) =~= old_ws.push(old_cur));
            }
        } else {
            cur.push(c);
        }
    }
    assert(s@.take(s@.len() as int) =~= s@);
    if cur.len() > 0 {
        let ghost old_ws = view_words(ws@);
        let ghost old_cur = cur@;
        ws.push(cur);
        assert(view_words(ws@) =~= old_ws.push(old_cur));
    }
    ws
}

/// Joins `words` with one space between each two of them.
pub fn join_words(words: &Vec<Vec<char>>) -> (r: String)
    ensures
        r@ == join(view_words(words@)),
{
    let mut sentence = String::new();
    let mut i: usize = 0;
    while i < words.len()
        invariant
            i <= words.len(),
            sentence@ == join(view_words(words@).take(i as int)),
        decreases words.len() - i,
    {
        let ghost before = sentence@;
        if i > 0 {
            push_char(&mut sentence, ' ');
        }
        let w = &words[i];
        let mut j: usize = 0;
        while j < w.len()
            invariant
                j <= w.len(),
                i < words.len(),
                w == words[i as int],
                sentence@ == (if i > 0 { before + seq![' '] } else { before }) + w@.take(j as int),
            decreases w.len() - j,
        {
            push_char(&mut sentence, w[j]);
            assert(w@.take(j + 1) =~= w@.take(j as int).push(w[j as int]));
            j = j + 1;
        }
        let ghost taken = view_words(words@).take(i + 1);
        assert(taken.drop_last() =~= view_words(words@).take(i as int));
        assert(w@.take(j as int) =~= w@);
        if i == 0 {
            assert(sentence@ =~= join(taken));
        }
        i = i + 1;
    }
    assert(view_words(words@).take(i as int) =~= view_words(words@));
    sentence
}

/// The characters of `s`, in order.
pub fn chars_of(s: &str) -> (r: Vec<char>)
    ensures
        r@ == s@,
{
    let mut r: Vec<char> = Vec::new();
    for c in it: s.chars()
        invariant
            it.seq() == s@,
            0 <= it.index() <= s@.len(),
            r@ == s@.take(it.index() as int),
    {
        assert(s@.take(it.index() + 1) =~= r@.push(c));
        r.push(c);
    }
    assert(s@.take(s@.len() as int) =~= s@);
    r
}

/// A string holding the characters of `w`.
pub fn string_of(w: &Vec<char>) -> (r: String)
    ensures
        r@ == w@,
{
    let mut r = String::new();
    let mut j: usize = 0;
    while j < w.len()
        invariant
            j <= w.len(),
            r@ == w@.take(j as int),
        decreases w.len() - j,
    {
        push_char(&mut r, w[j]);
        assert(w@.take(j + 1) =~= w@.take(j as int).push(w[j as int]));
        j = j + 1;
    }
    assert(w@.take(j as int) =~= w@);
    r
}

} // verus!
