//! The order-two Markov chain: what it has learned, and how it learns.

use vstd::prelude::*;

use crate::order::{compare_pairs, lemma_pair_lt_trans, lemma_pair_order, pair_lt};
use crate::text::{
    chars_of, is_word, join, join_words, lemma_words_of_are_words, lemma_words_of_join, split_words,
    string_of, view_words, words_of,
};
use rand::Rng;

verus! {

/// A state of the chain: two consecutive words.
pub type Key = (Seq<char>, Seq<char>);

/// The map from each state of `v` to the words seen after it, in the
/// order they were seen.
pub open spec fn table_of(v: Seq<(Key, Seq<Seq<char>>)>) -> Map<Key, Seq<Seq<char>>> {
    Map::new(
        |k: Key| exists|i: int| 0 <= i < v.len() && v[i].0 == k,
        |k: Key| v[choose|i: int| 0 <= i < v.len() && v[i].0 == k].1,
    )
}

/// The states are in strictly increasing order, each has at least one
/// successor, and every word held is a word.
pub open spec fn chain_ok(v: Seq<(Key, Seq<Seq<char>>)>) -> bool {
    &&& forall|i: int, j: int| 0 <= i < j < v.len() ==> pair_lt(#[trigger] v[i].0, #[trigger] v[j].0)
    &&& forall|i: int|
        #![trigger v[i]]
        0 <= i < v.len() ==> {
            &&& v[i].1.len() > 0
            &&& is_word(v[i].0.0)
            &&& is_word(v[i].0.1)
            &&& forall|j: int| 0 <= j < v[i].1.len() ==> is_word(#[trigger] v[i].1[j])
        }
}

/// `t` after `c` has been seen following the state `k`.
pub open spec fn add_successor(t: Map<Key, Seq<Seq<char>>>, k: Key, c: Seq<char>) -> Map<
    Key,
    Seq<Seq<char>>,
> {
    if t.contains_key(k) {
        t.insert(k, t[k].push(c))
    } else {
        t.insert(k, seq![c])
    }
}

/// `t` after every three consecutive words `a b c` of `ws`, from the
/// first to the last, has added `c` after the state `(a, b)`.
pub open spec fn learn_words(t: Map<Key, Seq<Seq<char>>>, ws: Seq<Seq<char>>) -> Map<
    Key,
    Seq<Seq<char>>,
>
    decreases ws.len(),
{
    if ws.len() < 3 {
        t
    } else {
        let n = ws.len() as int;
        add_successor(learn_words(t, ws.drop_last()), (ws[n - 3], ws[n - 2]), ws[n - 1])
    }
}

proof fn lemma_learn_words_triple(t: Map<Key, Seq<Seq<char>>>, ws: Seq<Seq<char>>, i: int)
    requires
        0 <= i,
        i + 2 < ws.len(),
    ensures
        learn_words(t, ws).contains_key((ws[i], ws[i + 1])),
        learn_words(t, ws)[(ws[i], ws[i + 1])].contains(ws[i + 2]),
    decreases ws.len(),
{
    let n = ws.len() as int;
    let prev = learn_words(t, ws.drop_last());
    let k = (ws[n - 3], ws[n - 2]);
    if i + 3 == n {
        if prev.contains_key(k) {
            assert(prev[k].push(ws[n - 1])[prev[k].len() as int] == ws[n - 1]);
        } else {
            assert(seq![ws[n - 1]][0] == ws[n - 1]);
        }
    } else {
        lemma_learn_words_triple(t, ws.drop_last(), i);
        let ki = (ws[i], ws[i + 1]);
        assert(ws.drop_last()[i] == ws[i] && ws.drop_last()[i + 1] == ws[i + 1]);
        assert(ws.drop_last()[i + 2] == ws[i + 2]);
        if ki == k {
            let j = choose|j: int| 0 <= j < prev[k].len() && prev[k][j] == ws[i + 2];
            assert(prev[k].push(ws[n - 1])[j] == ws[i + 2]);
        }
    }
}

/// Learning a text records every three consecutive words `a b c` of
/// it: afterwards the state `(a, b)` is known and `c` is among the
/// words seen after it, whatever was learned before.
pub proof fn lemma_learn_records_triples(before: Map<Key, Seq<Seq<char>>>, text: Seq<char>, i: int)
    requires
        0 <= i,
        i + 2 < words_of(text).len(),
    ensures
        ({
            let ws = words_of(text);
            let after = learn_words(before, ws);
            &&& after.contains_key((ws[i], ws[i + 1]))
            &&& after[(ws[i], ws[i + 1])].contains(ws[i + 2])
        }),
{
    lemma_learn_words_triple(before, words_of(text), i);
}

struct State {
    first: Vec<char>,
    second: Vec<char>,
    next: Vec<Vec<char>>,
}

spec fn state_view(s: State) -> (Key, Seq<Seq<char>>) {
    ((s.first@, s.second@), view_words(s.next@))
}

spec fn states_view(s: Seq<State>) -> Seq<(Key, Seq<Seq<char>>)> {
    s.map_values(|st: State| state_view(st))
}

proof fn lemma_lookup_at(v: Seq<(Key, Seq<Seq<char>>)>, i: int)
    requires
        chain_ok(v),
        0 <= i < v.len(),
    ensures
        table_of(v).contains_key(v[i].0),
        table_of(v)[v[i].0] == v[i].1,
{
    let k = v[i].0;
    assert(exists|j: int| 0 <= j < v.len() && v[j].0 == k);
    let j = choose|j: int| 0 <= j < v.len() && v[j].0 == k;
    lemma_pair_order(k, k);
    if j < i {
        assert(pair_lt(v[j].0, v[i].0));
    } else if i < j {
        assert(pair_lt(v[i].0, v[j].0));
    }
}

/// Where the key `(a, b)` stands among the states, or where it would be
/// inserted to keep them in order.
fn find(states: &Vec<State>, a: &Vec<char>, b: &Vec<char>) -> (r: Result<usize, usize>)
    requires
        chain_ok(states_view(states@)),
    ensures
        match r {
            Ok(i) => i < states@.len() && states_view(states@)[i as int].0 == (a@, b@),
            Err(i) => {
                &&& i <= states@.len()
                &&& forall|j: int|
                    0 <= j < i ==> pair_lt(#[trigger] states_view(states@)[j].0, (a@, b@))
                &&& forall|j: int|
                    i <= j < states@.len() ==> pair_lt((a@, b@), #[trigger] states_view(states@)[j].0)
            },
        },
{
    let ghost v = states_view(states@);
    let ghost k = (a@, b@);
    let mut lo: usize = 0;
    let mut hi: usize = states.len();
    while lo < hi
        invariant
            v == states_view(states@),
            k == (a@, b@),
            chain_ok(v),
            lo <= hi <= states@.len(),
            forall|j: int| 0 <= j < lo ==> pair_lt(#[trigger] v[j].0, k),
            forall|j: int| hi <= j < states@.len() ==> pair_lt(k, #[trigger] v[j].0),
        decreases hi - lo,
    {
        let mid = lo + (hi - lo) / 2;
        let st = &states[mid];
        assert(v[mid as int] == state_view(*st));
        let c = compare_pairs(&st.first, &st.second, a, b);
        proof {
            lemma_pair_order(v[mid as int].0, k);
        }
        if c == 0 {
            return Ok(mid);
        } else if c < 0 {
            assert forall|j: int| 0 <= j < mid + 1 implies pair_lt(#[trigger] v[j].0, k) by {
                if j < mid {
                    lemma_pair_lt_trans(v[j].0, v[mid as int].0, k);
                }
            }
            lo = mid + 1;
        } else {
            assert forall|j: int| mid <= j < states@.len() implies pair_lt(k, #[trigger] v[j].0) by {
                if j > mid {
                    lemma_pair_lt_trans(k, v[mid as int].0, v[j].0);
                }
            }
            hi = mid;
        }
    }
    Err(lo)
}

proof fn lemma_table_update(v: Seq<(Key, Seq<Seq<char>>)>, i: int, s: Seq<Seq<char>>)
    requires
        chain_ok(v),
        0 <= i < v.len(),
        chain_ok(v.update(i, (v[i].0, s))),
    ensures
        table_of(v.update(i, (v[i].0, s))) == table_of(v).insert(v[i].0, s),
{
    let v2 = v.update(i, (v[i].0, s));
    let t1 = table_of(v2);
    let t2 = table_of(v).insert(v[i].0, s);
    assert forall|k: Key| t1.contains_key(k) implies t2.contains_key(k) && t1[k] == t2[k] by {
        let j = choose|j: int| 0 <= j < v2.len() && v2[j].0 == k;
        lemma_lookup_at(v2, j);
        if j != i {
            lemma_lookup_at(v, j);
            lemma_pair_order(k, k);
            if j < i {
                assert(pair_lt(v2[j].0, v2[i].0));
            } else {
                assert(pair_lt(v2[i].0, v2[j].0));
            }
        }
    }
    assert forall|k: Key| t2.contains_key(k) implies t1.contains_key(k) by {
        if k != v[i].0 {
            let j = choose|j: int| 0 <= j < v.len() && v[j].0 == k;
            lemma_lookup_at(v2, j);
        } else {
            lemma_lookup_at(v2, i);
        }
    }
    assert(t1 =~= t2);
}

proof fn lemma_table_insert(v: Seq<(Key, Seq<Seq<char>>)>, i: int, e: (Key, Seq<Seq<char>>))
    requires
        chain_ok(v),
        0 <= i <= v.len(),
        chain_ok(v.insert(i, e)),
    ensures
        table_of(v.insert(i, e)) == table_of(v).insert(e.0, e.1),
{
    let v2 = v.insert(i, e);
    let t1 = table_of(v2);
    let t2 = table_of(v).insert(e.0, e.1);
    assert forall|k: Key| t1.contains_key(k) implies t2.contains_key(k) && t1[k] == t2[k] by {
        let j = choose|j: int| 0 <= j < v2.len() && v2[j].0 == k;
        lemma_lookup_at(v2, j);
        if j < i {
            lemma_lookup_at(v, j);
            lemma_lookup_at(v2, i);
            assert(pair_lt(v2[j].0, v2[i].0));
            lemma_pair_order(k, k);
        } else if j > i {
            lemma_lookup_at(v, j - 1);
            assert(pair_lt(v2[i].0, v2[j].0));
            lemma_pair_order(k, k);
        }
    }
    assert forall|k: Key| t2.contains_key(k) implies t1.contains_key(k) by {
        if k != e.0 {
            let j = choose|j: int| 0 <= j < v.len() && v[j].0 == k;
            if j < i {
                lemma_lookup_at(v2, j);
            } else {
                lemma_lookup_at(v2, j + 1);
            }
        } else {
            lemma_lookup_at(v2, i);
        }
    }
    assert(t1 =~= t2);
}

fn copy_word(w: &Vec<char>) -> (r: Vec<char>)
    ensures
        r@ == w@,
{
    let r = w.clone();
    assert(r@ =~= w@);
    r
}

/// Records that `c` was seen after the state `(a, b)`.
fn add_triple(states: &mut Vec<State>, a: &Vec<char>, b: &Vec<char>, c: &Vec<char>)
    requires
        chain_ok(states_view(old(states)@)),
        is_word(a@),
        is_word(b@),
        is_word(c@),
    ensures
        chain_ok(states_view(final(states)@)),
        table_of(states_view(final(states)@)) == add_successor(
            table_of(states_view(old(states)@)),
            (a@, b@),
            c@,
        ),
{
    let ghost v = states_view(states@);
    let ghost k = (a@, b@);
    match find(states, a, b) {
        Ok(i) => {
            let ghost old_next = states@[i as int].next@;
            states[i].next.push(copy_word(c));
            proof {
                let s = v[i as int].1.push(c@);
                assert(view_words(states@[i as int].next@) =~= s);
                assert(states_view(states@) =~= v.update(i as int, (k, s)));
                let v2 = v.update(i as int, (k, s));
                assert forall|x: int| 0 <= x < v2.len() implies {
                    &&& (#[trigger] v2[x]).1.len() > 0
                    &&& is_word(v2[x].0.0)
                    &&& is_word(v2[x].0.1)
                    &&& forall|j: int| 0 <= j < v2[x].1.len() ==> is_word(#[trigger] v2[x].1[j])
                } by {
                    if x == i {
                        assert forall|j: int| 0 <= j < v2[x].1.len() implies is_word(
                            #[trigger] v2[x].1[j],
                        ) by {
                            if j < v[x].1.len() {
                                assert(is_word(v[x].1[j]));
                            }
                        }
                    } else {
                        assert(v2[x] == v[x]);
                    }
                }
                assert forall|x: int, y: int| 0 <= x < y < v2.len() implies pair_lt(
                    #[trigger] v2[x].0,
                    #[trigger] v2[y].0,
                ) by {
                    assert(pair_lt(v[x].0, v[y].0));
                }
                lemma_table_update(v, i as int, s);
                lemma_lookup_at(v, i as int);
            }
        },
        Err(i) => {
            let mut next: Vec<Vec<char>> = Vec::new();
            next.push(copy_word(c));
            let st = State { first: copy_word(a), second: copy_word(b), next };
            let ghost e = state_view(st);
            assert(e.1 =~= seq![c@]);
            states.insert(i, st);
            proof {
                assert(states_view(states@) =~= v.insert(i as int, e));
                let v2 = v.insert(i as int, e);
                assert forall|x: int| 0 <= x < v2.len() implies {
                    &&& (#[trigger] v2[x]).1.len() > 0
                    &&& is_word(v2[x].0.0)
                    &&& is_word(v2[x].0.1)
                    &&& forall|j: int| 0 <= j < v2[x].1.len() ==> is_word(#[trigger] v2[x].1[j])
                } by {
                    if x < i {
                        assert(v2[x] == v[x]);
                    } else if x > i {
                        assert(v2[x] == v[x - 1]);
                    }
                }
                assert forall|x: int, y: int| 0 <= x < y < v2.len() implies pair_lt(
                    #[trigger] v2[x].0,
                    #[trigger] v2[y].0,
                ) by {
                    if y < i {
                        assert(pair_lt(v[x].0, v[y].0));
                    } else if x > i {
                        assert(pair_lt(v[x - 1].0, v[y - 1].0));
                    } else if x == i {
                        assert(pair_lt(k, v[y - 1].0));
                    } else if y == i {
                        assert(pair_lt(v[x].0, k));
                    } else {
                        assert(pair_lt(v[x].0, k));
                        assert(pair_lt(k, v[y - 1].0));
                        lemma_pair_lt_trans(v[x].0, k, v[y - 1].0);
                    }
                }
                lemma_table_insert(v, i as int, e);
                assert(!table_of(v).contains_key(k)) by {
                    if table_of(v).contains_key(k) {
                        let j = choose|j: int| 0 <= j < v.len() && v[j].0 == k;
                        lemma_pair_order(k, k);
                        if j < i {
                            assert(pair_lt(v[j].0, k));
                        } else {
                            assert(pair_lt(k, v[j].0));
                        }
                    }
                }
            }
        },
    }
}

#[verifier::external_type_specification]
#[verifier::external_body]
pub struct ExXorShiftRng(rand::XorShiftRng);

/// Relies on rand's `weak_rng`: a xorshift generator seeded from the
/// thread's random source.
#[verifier::external_body]
fn fresh_rng() -> rand::XorShiftRng {
    rand::weak_rng()
}

/// Relies on rand's `Rng::gen_range`: a value in `[low, high)`; it
/// panics only when `low >= high`.
#[verifier::external_body]
fn random_below(rng: &mut rand::XorShiftRng, n: usize) -> (r: usize)
    requires
        n > 0,
    ensures
        r < n,
{
    rng.gen_range(0, n)
}

/// Every word that the states of `v` hold is a word.
proof fn lemma_table_words(v: Seq<(Key, Seq<Seq<char>>)>, k: Key)
    requires
        chain_ok(v),
        table_of(v).contains_key(k),
    ensures
        is_word(k.0),
        is_word(k.1),
        table_of(v)[k].len() > 0,
        forall|j: int| 0 <= j < table_of(v)[k].len() ==> is_word(#[trigger] table_of(v)[k][j]),
{
    let i = choose|i: int| 0 <= i < v.len() && v[i].0 == k;
    lemma_lookup_at(v, i);
}

/// One move of the chain from the state `s` to `s2`: the state moved
/// from is `s` itself when `t` knows it, and else a state that `t`
/// knows; `s2` is its second word followed by one of its successors.
pub open spec fn step(t: Map<Key, Seq<Seq<char>>>, s: Key, s2: Key) -> bool {
    exists|v: Key|
        #![trigger t[v]]
        t.contains_key(v) && (t.contains_key(s) ==> v == s) && s2.0 == v.1 && t[v].contains(s2.1)
}

/// `st` is a walk of `n` moves through `t` starting at `s0`.
pub open spec fn walk(t: Map<Key, Seq<Seq<char>>>, st: Seq<Key>, s0: Key, n: nat) -> bool {
    &&& st.len() == n + 1
    &&& st[0] == s0
    &&& forall|i: int| 0 <= i < n ==> step(t, #[trigger] st[i], st[i + 1])
}

/// The first words of the first `n` states of `st`.
pub open spec fn first_words(st: Seq<Key>, n: nat) -> Seq<Seq<char>> {
    Seq::new(n, |i: int| st[i].0)
}

/// An order-two Markov chain over words, with its own random source.
pub struct MarkovChain {
    states: Vec<State>,
    rng: rand::XorShiftRng,
}

impl View for MarkovChain {
    type V = Seq<(Key, Seq<Seq<char>>)>;

    /// The learned states in increasing order, each with its successors.
    closed spec fn view(&self) -> Self::V {
        states_view(self.states@)
    }
}

/// A never-ending stream of words walking a chain.
pub struct Words<'a> {
    states: &'a Vec<State>,
    rng: &'a mut rand::XorShiftRng,
    first: Vec<char>,
    second: Vec<char>,
}

impl<'a> Words<'a> {
    /// The states of the chain walked.
    pub closed spec fn model(&self) -> Seq<(Key, Seq<Seq<char>>)> {
        states_view(self.states@)
    }

    /// The random source the stream draws from.
    pub closed spec fn source(&self) -> rand::XorShiftRng {
        *self.rng
    }

    /// The current state.
    pub closed spec fn state(&self) -> Key {
        (self.first@, self.second@)
    }

    /// The next word as characters: the first word of the current
    /// state; the stream then moves one step. Nothing on an empty chain.
    pub fn next_chars(&mut self) -> (r: Option<Vec<char>>)
        requires
            chain_ok(old(self).model()),
        ensures
            final(self).model() == old(self).model(),
            old(self).model().len() == 0 ==> r is None && final(self).state() == old(self).state()
                && final(self).source() == old(self).source(),
            old(self).model().len() > 0 ==> {
                &&& r is Some
                &&& r->0@ == old(self).state().0
                &&& step(table_of(old(self).model()), old(self).state(), final(self).state())
            },
    {
        if self.states.len() == 0 {
            return None;
        }
        let ghost v = states_view(self.states@);
        let ghost s = (self.first@, self.second@);
        let ws = self.states;
        let i = match find(ws, &self.first, &self.second) {
            Ok(i) => i,
            Err(_) => random_below(self.rng, ws.len()),
        };
        let st = &ws[i];
        assert(v[i as int] == state_view(*st));
        assert(v[i as int].1.len() > 0);
        let j = random_below(self.rng, st.next.len());
        let c = copy_word(&st.next[j]);
        let mut result = copy_word(&st.second);
        std::mem::swap(&mut result, &mut self.first);
        self.second = c;
        proof {
            lemma_lookup_at(v, i as int);
            let k = v[i as int].0;
            assert(v[i as int] == state_view(ws@[i as int]));
            assert(table_of(v)[k][j as int] == self.second@);
            if table_of(v).contains_key(s) {
                let x = choose|x: int| 0 <= x < v.len() && v[x].0 == s;
                lemma_lookup_at(v, x);
                lemma_pair_order(s, s);
                if x < i {
                    assert(pair_lt(v[x].0, v[i as int].0));
                } else if x > i {
                    assert(pair_lt(v[i as int].0, v[x].0));
                }
                assert(k == s);
            }
            assert(table_of(v)[k].contains(self.second@));
        }
        Some(result)
    }

    /// The next word: the first word of the current state; the stream
    /// then moves one step. Nothing on an empty chain.
    pub fn next(&mut self) -> (r: Option<String>)
        requires
            chain_ok(old(self).model()),
        ensures
            final(self).model() == old(self).model(),
            old(self).model().len() == 0 ==> r is None && final(self).state() == old(self).state()
                && final(self).source() == old(self).source(),
            old(self).model().len() > 0 ==> {
                &&& r is Some
                &&& r->0@ == old(self).state().0
                &&& step(table_of(old(self).model()), old(self).state(), final(self).state())
            },
    {
        match self.next_chars() {
            Some(w) => Some(string_of(&w)),
            None => None,
        }
    }
}

/// The words that a walk through a well-formed chain emits are words
/// when its first word is, and splitting their join on white space
/// gives exactly them back: `n` words for a walk of `n` moves.
pub proof fn lemma_walk_words(v: Seq<(Key, Seq<Seq<char>>)>, st: Seq<Key>, n: nat)
    requires
        chain_ok(v),
        walk(table_of(v), st, st[0], n),
        n > 0 ==> is_word(st[0].0),
    ensures
        forall|i: int| 0 <= i < n ==> is_word(#[trigger] first_words(st, n)[i]),
        words_of(join(first_words(st, n))) == first_words(st, n),
        words_of(join(first_words(st, n))).len() == n,
{
    let t = table_of(v);
    assert forall|i: int| 0 <= i < n implies is_word(#[trigger] first_words(st, n)[i]) by {
        if i > 0 {
            assert(step(t, st[i - 1], st[i]));
            let k = choose|k: Key|
                #![trigger t[k]]
                t.contains_key(k) && (t.contains_key(st[i - 1]) ==> k == st[i - 1]) && st[i].0
                    == k.1 && t[k].contains(st[i].1);
            lemma_table_words(v, k);
        }
    }
    lemma_words_of_join(first_words(st, n));
}

/// Joins the first `n` words of the stream `it`.
fn assemble(mut it: Words, n: usize) -> (r: String)
    requires
        chain_ok(it.model()),
    ensures
        it.model().len() == 0 ==> r@ == Seq::<char>::empty(),
        it.model().len() > 0 ==> exists|st: Seq<Key>|
            walk(table_of(it.model()), st, it.state(), n as nat) && r@ == join(
                #[trigger] first_words(st, n as nat),
            ),
{
    if it.states.len() == 0 {
        return String::new();
    }
    let ghost v = it.model();
    let ghost t = table_of(v);
    let ghost s0 = it.state();
    let ghost mut st: Seq<Key> = seq![s0];
    let mut out: Vec<Vec<char>> = Vec::new();
    let mut i: usize = 0;
    while i < n
        invariant
            i <= n,
            it.model() == v,
            chain_ok(v),
            v.len() > 0,
            t == table_of(v),
            st.len() == i + 1,
            st[0] == s0,
            st[i as int] == it.state(),
            forall|j: int| 0 <= j < i ==> step(t, #[trigger] st[j], st[j + 1]),
            view_words(out@) == first_words(st, i as nat),
        decreases n - i,
    {
        let ghost before = it.state();
        let ghost out_before = view_words(out@);
        if let Some(w) = it.next_chars() {
            assert(w@ == before.0);
            out.push(w);
        }
        proof {
            assert(view_words(out@) =~= out_before.push(before.0));
            st = st.push(it.state());
            assert(view_words(out@) =~= first_words(st, (i + 1) as nat));
        }
        i = i + 1;
    }
    let r = join_words(&out);
    assert(walk(t, st, s0, n as nat));
    r
}

/// The known states of a well-formed chain are exactly the states of
/// its table, each once, in strictly increasing order.
pub proof fn lemma_keys_are_sorted_domain(c: &MarkovChain)
    requires
        c.wf(),
    ensures
        forall|i: int, j: int| 0 <= i < j < c.keys().len() ==> pair_lt(#[trigger] c.keys()[i], #[trigger] c.keys()[j]),
        forall|k: Key| c.table().contains_key(k) <==> c.keys().contains(k),
{
    let v = c@;
    let ks = c.keys();
    assert forall|i: int, j: int| 0 <= i < j < ks.len() implies pair_lt(#[trigger] ks[i], #[trigger] ks[j]) by {
        assert(pair_lt(v[i].0, v[j].0));
    }
    assert forall|k: Key| c.table().contains_key(k) <==> ks.contains(k) by {
        if c.table().contains_key(k) {
            let i = choose|i: int| 0 <= i < v.len() && v[i].0 == k;
            assert(ks[i] == k);
        }
        if ks.contains(k) {
            let i = choose|i: int| 0 <= i < ks.len() && ks[i] == k;
            assert(v[i].0 == k);
        }
    }
}

impl MarkovChain {
    /// The chain is well formed: see `chain_ok`.
    pub open spec fn wf(&self) -> bool {
        chain_ok(self@)
    }

    /// What the chain has learned: the words seen after each state.
    pub open spec fn table(&self) -> Map<Key, Seq<Seq<char>>> {
        table_of(self@)
    }

    /// The known states, in increasing order.
    pub open spec fn keys(&self) -> Seq<Key> {
        self@.map_values(|e: (Key, Seq<Seq<char>>)| e.0)
    }

    /// The random source the chain draws from.
    pub closed spec fn source(&self) -> rand::XorShiftRng {
        self.rng
    }

    /// An empty chain with a generator seeded from the thread's random
    /// source.
    pub fn new() -> (r: MarkovChain)
        ensures
            r.wf(),
            r@.len() == 0,
            r.table() == Map::<Key, Seq<Seq<char>>>::empty(),
    {
        MarkovChain::new_with_rng(fresh_rng())
    }

    /// An empty chain that draws from `rng`.
    pub fn new_with_rng(rng: rand::XorShiftRng) -> (r: MarkovChain)
        ensures
            r.wf(),
            r@.len() == 0,
            r.table() == Map::<Key, Seq<Seq<char>>>::empty(),
            r.source() == rng,
    {
        let r = MarkovChain { states: Vec::new(), rng };
        assert(r@ =~= Seq::<(Key, Seq<Seq<char>>)>::empty());
        assert(r.table() =~= Map::<Key, Seq<Seq<char>>>::empty());
        r
    }

    /// Adds the text to the chain: for every three consecutive words
    /// `a b c` of `sentence`, `c` is added after the state `(a, b)`.
    pub fn learn(&mut self, sentence: &str)
        requires
            old(self).wf(),
        ensures
            final(self).wf(),
            final(self).table() == learn_words(old(self).table(), words_of(sentence@)),
            words_of(sentence@).len() >= 3 ==> final(self)@.len() > 0,
    {
        let ghost t0 = self.table();
        let words = split_words(sentence);
        let ghost ws = view_words(words@);
        proof {
            lemma_words_of_are_words(sentence@);
        }
        let n = words.len();
        if n < 3 {
            return;
        }
        let mut i: usize = 0;
        assert(ws.take(2).len() < 3);
        while i + 2 < n
            invariant
                n == words@.len(),
                ws == view_words(words@),
                ws == words_of(sentence@),
                forall|j: int| 0 <= j < ws.len() ==> is_word(#[trigger] ws[j]),
                i + 2 <= n,
                self.wf(),
                self.table() == learn_words(t0, ws.take(i + 2)),
            decreases n - i,
        {
            assert(ws[i as int] == words@[i as int]@);
            assert(ws[i + 1] == words@[i + 1]@);
            assert(ws[i + 2] == words@[i + 2]@);
            assert(is_word(ws[i as int]) && is_word(ws[i + 1]) && is_word(ws[i + 2]));
            add_triple(&mut self.states, &words[i], &words[i + 1], &words[i + 2]);
            assert(ws.take(i + 3).drop_last() =~= ws.take(i + 2));
            i = i + 1;
        }
        assert(ws.take(n as int) =~= ws);
        proof {
            lemma_learn_words_triple(t0, ws, n - 3);
            let k = (ws[n - 3], ws[n - 2]);
            assert(table_of(self@).contains_key(k));
        }
    }

    /// The number of known states.
    pub fn len(&self) -> (r: usize)
        ensures
            r == self@.len(),
    {
        self.states.len()
    }

    /// Whether the chain knows no state.
    pub fn is_empty(&self) -> (r: bool)
        ensures
            r == (self@.len() == 0),
    {
        self.len() == 0
    }

    /// The words seen after `state`, or `None` when the state is unknown.
    pub fn words(&self, state: (&str, &str)) -> (r: Option<Vec<String>>)
        requires
            self.wf(),
        ensures
            r is Some == self.table().contains_key((state.0@, state.1@)),
            r is Some ==> r->0@.map_values(|w: String| w@) == self.table()[(state.0@, state.1@)],
    {
        let a = chars_of(state.0);
        let b = chars_of(state.1);
        let ghost v = self@;
        let ghost k = (a@, b@);
        match find(&self.states, &a, &b) {
            Ok(i) => {
                proof {
                    lemma_lookup_at(v, i as int);
                }
                let next = &self.states[i].next;
                assert(v[i as int] == state_view(self.states@[i as int]));
                let mut out: Vec<String> = Vec::new();
                let mut j: usize = 0;
                while j < next.len()
                    invariant
                        j <= next.len(),
                        self.table().contains_key(k),
                        view_words(next@) == self.table()[k],
                        out@.map_values(|w: String| w@) == view_words(next@).take(j as int),
                    decreases next.len() - j,
                {
                    let ghost before = out@.map_values(|w: String| w@);
                    let w = string_of(&next[j]);
                    assert(w@ == view_words(next@)[j as int]);
                    out.push(w);
                    assert(out@.map_values(|w: String| w@) =~= before.push(w@));
                    assert(out@.map_values(|w: String| w@) =~= view_words(next@).take(j + 1));
                    j = j + 1;
                }
                assert(view_words(next@).take(j as int) =~= view_words(next@));
                Some(out)
            },
            Err(i) => {
                proof {
                    if table_of(v).contains_key(k) {
                        let j = choose|j: int| 0 <= j < v.len() && v[j].0 == k;
                        lemma_pair_order(k, k);
                        if j < i {
                            assert(pair_lt(v[j].0, k));
                        } else {
                            assert(pair_lt(k, v[j].0));
                        }
                    }
                }
                None
            },
        }
    }

    /// A known state drawn at random, or the pair of empty words when
    /// there is none.
    fn random_state(&mut self) -> (r: (Vec<char>, Vec<char>))
        requires
            old(self).wf(),
        ensures
            final(self)@ == old(self)@,
            old(self)@.len() > 0 ==> old(self).table().contains_key((r.0@, r.1@)),
            old(self)@.len() == 0 ==> r.0@ == Seq::<char>::empty() && r.1@ == Seq::<char>::empty()
                && final(self).source() == old(self).source(),
    {
        let ghost v = self@;
        if self.states.len() == 0 {
            (Vec::new(), Vec::new())
        } else {
            let i = random_below(&mut self.rng, self.states.len());
            let first = copy_word(&self.states[i].first);
            let second = copy_word(&self.states[i].second);
            proof {
                lemma_lookup_at(v, i as int);
                assert(v[i as int] == state_view(self.states@[i as int]));
            }
            (first, second)
        }
    }

    /// A stream that starts at a known state drawn at random, or at the
    /// pair of empty words when the chain is empty.
    pub fn iter(&mut self) -> (r: Words<'_>)
        requires
            old(self).wf(),
        ensures
            final(self)@ == old(self)@,
            r.model() == old(self)@,
            old(self)@.len() > 0 ==> old(self).table().contains_key(r.state()),
            old(self)@.len() == 0 ==> r.state() == (Seq::<char>::empty(), Seq::<char>::empty())
                && r.source() == old(self).source(),
    {
        let (first, second) = self.random_state();
        Words { states: &self.states, rng: &mut self.rng, first, second }
    }

    /// A stream that starts at `from`, known or not.
    pub fn iter_from(&mut self, from: (&str, &str)) -> (r: Words<'_>)
        requires
            old(self).wf(),
        ensures
            final(self)@ == old(self)@,
            r.model() == old(self)@,
            r.state() == (from.0@, from.1@),
            r.source() == old(self).source(),
    {
        let first = chars_of(from.0);
        let second = chars_of(from.1);
        Words { states: &self.states, rng: &mut self.rng, first, second }
    }

    /// `n` words of the chain, one space between each two, starting at a
    /// known state drawn at random. Empty when the chain is empty.
    pub fn generate(&mut self, n: usize) -> (r: String)
        requires
            old(self).wf(),
        ensures
            final(self)@ == old(self)@,
            n == 0 ==> r@ == Seq::<char>::empty(),
            old(self)@.len() == 0 ==> r@ == Seq::<char>::empty(),
            old(self)@.len() > 0 ==> exists|st: Seq<Key>|
                old(self).table().contains_key(st[0]) && walk(old(self).table(), st, st[0], n as nat)
                    && r@ == join(#[trigger] first_words(st, n as nat)),
            old(self)@.len() > 0 ==> words_of(r@).len() == n,
    {
        let ghost v = self@;
        let (first, second) = self.random_state();
        let ghost s0 = (first@, second@);
        let it = Words { states: &self.states, rng: &mut self.rng, first, second };
        let r = assemble(it, n);
        proof {
            if v.len() > 0 {
                let st = choose|st: Seq<Key>|
                    walk(table_of(v), st, s0, n as nat) && r@ == join(
                        #[trigger] first_words(st, n as nat),
                    );
                lemma_table_words(v, s0);
                lemma_walk_words(v, st, n as nat);
            }
            if n == 0 {
                if v.len() > 0 {
                    let st = choose|st: Seq<Key>|
                        walk(table_of(v), st, s0, n as nat) && r@ == join(
                            #[trigger] first_words(st, n as nat),
                        );
                    assert(first_words(st, 0) =~= Seq::<Seq<char>>::empty());
                }
            }
        }
        r
    }

    /// `n` words of the chain, one space between each two, starting at
    /// `from`, which need not be a known state. Empty when the chain is
    /// empty.
    pub fn generate_from(&mut self, n: usize, from: (&str, &str)) -> (r: String)
        requires
            old(self).wf(),
        ensures
            final(self)@ == old(self)@,
            n == 0 ==> r@ == Seq::<char>::empty(),
            old(self)@.len() == 0 ==> r@ == Seq::<char>::empty(),
            old(self)@.len() > 0 ==> exists|st: Seq<Key>|
                walk(old(self).table(), st, (from.0@, from.1@), n as nat) && r@ == join(
                    #[trigger] first_words(st, n as nat),
                ) && (is_word(from.0@) ==> words_of(r@) == first_words(st, n as nat)),
            old(self)@.len() > 0 && is_word(from.0@) ==> words_of(r@).len() == n,
            old(self)@.len() > 0 && is_word(from.0@) && n > 0 ==> words_of(r@)[0] == from.0@,
    {
        let ghost v = self@;
        let it = Words {
            states: &self.states,
            rng: &mut self.rng,
            first: chars_of(from.0),
            second: chars_of(from.1),
        };
        let r = assemble(it, n);
        proof {
            if v.len() > 0 {
                let st = choose|st: Seq<Key>|
                    walk(table_of(v), st, (from.0@, from.1@), n as nat) && r@ == join(
                        #[trigger] first_words(st, n as nat),
                    );
                if is_word(from.0@) || n == 0 {
                    lemma_walk_words(v, st, n as nat);
                }
                if n == 0 {
                    assert(first_words(st, 0) =~= Seq::<Seq<char>>::empty());
                }
            }
        }
        r
    }
}

} // verus!
