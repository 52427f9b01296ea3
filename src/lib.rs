//! Placeholder text from an order-two Markov chain over words.
//!
//! A [`chain::MarkovChain`] learns which word follows each pair of
//! consecutive words in the texts it is given, then walks those pairs at
//! random to produce text that looks like them.

use vstd::prelude::*;

pub mod chain;
pub mod order;
pub mod text;

use crate::chain::{first_words, learn_words, lemma_learn_records_triples, step, walk, Key, MarkovChain};
use crate::text::{is_word, join, lemma_join_starts, lemma_scan_prefix, scan, white_space, words_of};

verus! {

/// The traditional lorem ipsum text.
pub const LOREM_IPSUM: &'static str = "Lorem ipsum dolor sit amet, consectetur adipiscing elit, sed do eiusmod tempor incididunt ut labore et dolore magna aliqua. Ut enim ad minim veniam, quis nostrud exercitation ullamco laboris nisi ut aliquip ex ea commodo consequat. Duis aute irure dolor in reprehenderit in voluptate velit esse cillum dolore eu fugiat nulla pariatur. Excepteur sint occaecat cupidatat non proident, sunt in culpa qui officia deserunt mollit anim id est laborum.";

/// `n` words of lorem ipsum text, starting with "Lorem ipsum" and
/// following the chain learned from [`LOREM_IPSUM`].
pub fn lipsum(n: usize) -> (r: String)
    ensures
        exists|st: Seq<Key>|
            walk(learn_words(Map::empty(), words_of(LOREM_IPSUM@)), st, ("Lorem"@, "ipsum"@), n as nat)
                && r@ == join(#[trigger] first_words(st, n as nat)) && words_of(r@) == first_words(
                st,
                n as nat,
            ),
        words_of(r@).len() == n,
        n == 0 ==> r@.len() == 0,
        n > 0 ==> words_of(r@)[0] == "Lorem"@ && r@.take(5) == "Lorem"@,
        n == 1 ==> r@ == "Lorem"@,
        n > 1 ==> words_of(r@)[1] == "ipsum"@,
{
    let mut chain = MarkovChain::new();
    chain.learn(LOREM_IPSUM);
    proof {
        reveal_strlit("Lorem ipsum dolor sit amet, consectetur adipiscing elit, sed do eiusmod tempor incididunt ut labore et dolore magna aliqua. Ut enim ad minim veniam, quis nostrud exercitation ullamco laboris nisi ut aliquip ex ea commodo consequat. Duis aute irure dolor in reprehenderit in voluptate velit esse cillum dolore eu fugiat nulla pariatur. Excepteur sint occaecat cupidatat non proident, sunt in culpa qui officia deserunt mollit anim id est laborum.");
        reveal_strlit("Lorem");
        reveal_strlit("ipsum");
        let s = LOREM_IPSUM@;
        assert(s.len() > 18);
        reveal_with_fuel(crate::text::scan, 20);
        let pre = scan(s.take(18)).0;
        assert(pre.len() == 3);
        assert(pre[0] =~= "Lorem"@);
        assert(pre[1] =~= "ipsum"@);
        lemma_scan_prefix(s, 18);
        assert(words_of(s)[0] == "Lorem"@);
        assert(words_of(s)[1] == "ipsum"@);
        lemma_learn_records_triples(Map::empty(), s, 0);
        assert(is_word("Lorem"@)) by {
            assert(!white_space('L') && !white_space('o') && !white_space('r'));
            assert(!white_space('e') && !white_space('m'));
        }
    }
    let r = chain.generate_from(n, ("Lorem", "ipsum"));
    proof {
        let t = learn_words(Map::empty(), words_of(LOREM_IPSUM@));
        let st = choose|st: Seq<Key>|
            walk(t, st, ("Lorem"@, "ipsum"@), n as nat) && r@ == join(
                #[trigger] first_words(st, n as nat),
            ) && (is_word("Lorem"@) ==> words_of(r@) == first_words(st, n as nat));
        if n > 0 {
            lemma_join_starts(first_words(st, n as nat));
        }
        if n > 1 {
            assert(step(t, st[0], st[1]));
        }
    }
    r
}

} // verus!
