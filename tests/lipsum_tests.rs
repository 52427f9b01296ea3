use lipsum::chain::MarkovChain;
use lipsum::lipsum;
use lipsum::order::{compare_pairs, compare_words};
use lipsum::text::{chars_of, is_white_space, join_words, split_words, string_of};
use rand::{SeedableRng, XorShiftRng};

fn owned(ws: &[&str]) -> Vec<String> {
    ws.iter().map(|w| w.to_string()).collect()
}

fn chars(s: &str) -> Vec<char> {
    s.chars().collect()
}

#[test]
fn starts_with_lorem_ipsum() {
    assert_eq!(&lipsum(10)[..11], "Lorem ipsum");
}

#[test]
fn generate_zero_words() {
    assert_eq!(lipsum(0).split_whitespace().count(), 0);
}

#[test]
fn generate_one_word() {
    assert_eq!(lipsum(1).split_whitespace().count(), 1);
}

#[test]
fn generate_two_words() {
    assert_eq!(lipsum(2).split_whitespace().count(), 2);
}

#[test]
fn empty_chain() {
    let mut chain = MarkovChain::new();
    assert_eq!(chain.generate(10), "");
}

#[test]
fn generate_from() {
    let mut chain = MarkovChain::new();
    chain.learn("red orange yellow green blue indigo violet");
    assert_eq!(chain.generate_from(5, ("orange", "yellow")), "orange yellow green blue indigo");
}

#[test]
fn generate_last_bigram() {
    let mut chain = MarkovChain::new();
    chain.learn("xxx yyy zzz");
    assert!(chain.generate_from(3, ("xxx", "yyy")) != "xxx yyy zzz");
}

#[test]
fn generate_from_no_panic() {
    let mut chain = MarkovChain::new();
    chain.learn("foo bar baz");
    chain.generate_from(3, ("xxx", "yyy"));
}

#[test]
fn chain_map() {
    let mut chain = MarkovChain::new();
    chain.learn("foo bar baz quuz");

    assert_eq!(chain.len(), 2);
    assert_eq!(chain.words(("foo", "bar")), Some(owned(&["baz"])));
    assert_eq!(chain.words(("bar", "baz")), Some(owned(&["quuz"])));
}

#[test]
fn lipsum_follows_the_text() {
    assert_eq!(lipsum(7), "Lorem ipsum dolor sit amet, consectetur adipiscing");
}

#[test]
fn lipsum_word_counts() {
    for n in 0..200 {
        assert_eq!(lipsum(n).split_whitespace().count(), n);
    }
}

#[test]
fn learn_keeps_successor_order() {
    let mut chain = MarkovChain::new();
    chain.learn("red green blue");
    assert_eq!(chain.words(("red", "green")), Some(owned(&["blue"])));
    chain.learn("red green yellow");
    assert_eq!(chain.words(("red", "green")), Some(owned(&["blue", "yellow"])));
    assert_eq!(chain.words(("foo", "bar")), None);
}

#[test]
fn learn_keeps_duplicates() {
    let mut chain = MarkovChain::new();
    chain.learn("a b c a b c a b d");
    assert_eq!(chain.words(("a", "b")), Some(owned(&["c", "c", "d"])));
    assert_eq!(chain.len(), 3);
}

#[test]
fn learn_records_every_triple() {
    let text = "the cat sat on the mat and the cat ran off the mat";
    let mut chain = MarkovChain::new();
    chain.learn(text);
    let ws: Vec<&str> = text.split_whitespace().collect();
    for w in ws.windows(3) {
        let next = chain.words((w[0], w[1])).unwrap();
        assert!(next.contains(&w[2].to_string()));
    }
}

#[test]
fn learn_short_texts_add_nothing() {
    let mut chain = MarkovChain::new();
    chain.learn("");
    chain.learn("   ");
    chain.learn("one two");
    assert!(chain.is_empty());
    assert_eq!(chain.len(), 0);
}

#[test]
fn fresh_chain_is_empty() {
    let mut chain = MarkovChain::new();
    assert!(chain.is_empty());
    assert_eq!(chain.len(), 0);
    chain.learn("foo bar baz");
    assert!(!chain.is_empty());
    assert_eq!(chain.len(), 1);
}

#[test]
fn len_counts_states() {
    let mut chain = MarkovChain::new();
    chain.learn("red orange yellow green blue indigo");
    assert_eq!(chain.len(), 4);
}

#[test]
fn learn_splits_on_any_white_space() {
    let mut chain = MarkovChain::new();
    chain.learn("  a\tb\n\nc\u{3000}d  ");
    assert_eq!(chain.words(("a", "b")), Some(owned(&["c"])));
    assert_eq!(chain.words(("b", "c")), Some(owned(&["d"])));
    assert_eq!(chain.len(), 2);
}

#[test]
fn generate_zero_is_empty() {
    let mut chain = MarkovChain::new();
    chain.learn("a b c d e f");
    assert_eq!(chain.generate(0), "");
    assert_eq!(chain.generate_from(0, ("q", "r")), "");
}

#[test]
fn generate_word_counts() {
    let mut chain = MarkovChain::new();
    chain.learn("Tick, Tock, Tick, Tock, Ding! Tick, Tock, Ding! Ding!");
    for n in 0..50 {
        assert_eq!(chain.generate(n).split_whitespace().count(), n);
        assert_eq!(chain.generate_from(n, ("Tock,", "Ding!")).split_whitespace().count(), n);
        assert_eq!(chain.generate_from(n, ("zz", "top")).split_whitespace().count(), n);
    }
}

#[test]
fn empty_chain_generates_nothing() {
    let mut chain = MarkovChain::new();
    for n in 0..20 {
        assert_eq!(chain.generate(n), "");
        assert_eq!(chain.generate_from(n, ("a", "b")), "");
    }
}

#[test]
fn unknown_start_jumps_to_a_known_state() {
    let mut chain = MarkovChain::new();
    chain.learn("xxx yyy zzz");
    assert_eq!(chain.generate_from(3, ("xxx", "yyy")), "xxx yyy yyy");
    assert_eq!(chain.generate_from(4, ("aaa", "bbb")), "aaa yyy yyy yyy");
}

#[test]
fn seeded_chains_agree() {
    let texts = ["foo bar x y z", "foo bar a b c", "a b b x y b x y x y x y bar x y"];
    let mut one = MarkovChain::new_with_rng(XorShiftRng::from_seed([1, 2, 3, 4]));
    let mut two = MarkovChain::new_with_rng(XorShiftRng::from_seed([1, 2, 3, 4]));
    for t in texts.iter() {
        one.learn(t);
        two.learn(t);
    }
    for n in 0..30 {
        assert_eq!(one.generate(n), two.generate(n));
        assert_eq!(one.generate_from(n, ("foo", "bar")), two.generate_from(n, ("foo", "bar")));
    }
}

#[test]
fn generated_words_come_from_the_text() {
    let text = "alpha beta gamma delta alpha beta epsilon";
    let mut chain = MarkovChain::new_with_rng(XorShiftRng::from_seed([9, 8, 7, 6]));
    chain.learn(text);
    let out = chain.generate(40);
    for w in out.split_whitespace() {
        assert!(text.split_whitespace().any(|t| t == w));
    }
}

#[test]
fn stream_yields_words() {
    let mut chain = MarkovChain::new();
    chain.learn("red orange yellow green blue indigo violet");
    let mut it = chain.iter_from(("red", "orange"));
    assert_eq!(it.next(), Some("red".to_string()));
    assert_eq!(it.next(), Some("orange".to_string()));
    assert_eq!(it.next(), Some("yellow".to_string()));
    let mut random = chain.iter();
    assert!(random.next().is_some());
}

#[test]
fn stream_on_empty_chain_is_exhausted() {
    let mut chain = MarkovChain::new();
    let mut it = chain.iter();
    assert_eq!(it.next(), None);
    assert_eq!(it.next_chars(), None);
}

#[test]
fn white_space_matches_std() {
    for u in 0u32..0x11_0000 {
        if let Some(c) = char::from_u32(u) {
            assert_eq!(is_white_space(c), c.is_whitespace(), "{:?}", c);
        }
    }
}

#[test]
fn split_words_matches_std() {
    let samples = ["", " ", "a", " a ", "a  b\tc\r\nd", "\u{a0}x\u{2003}y\u{85}", "Lorem ipsum, dolor."];
    for s in samples.iter() {
        let expected: Vec<Vec<char>> = s.split_whitespace().map(chars).collect();
        assert_eq!(split_words(s), expected);
    }
}

#[test]
fn join_words_uses_single_spaces() {
    let empty: Vec<Vec<char>> = Vec::new();
    assert_eq!(join_words(&empty), "");
    assert_eq!(join_words(&vec![chars("one")]), "one");
    assert_eq!(join_words(&vec![chars("one"), chars("two"), chars("three")]), "one two three");
}

#[test]
fn char_conversions() {
    assert_eq!(chars_of("héllo"), vec!['h', 'é', 'l', 'l', 'o']);
    assert_eq!(string_of(&vec!['a', 'ß', 'c']), "aßc");
    assert_eq!(string_of(&Vec::new()), "");
}

#[test]
fn word_order_is_lexicographic() {
    assert_eq!(compare_words(&chars("abc"), &chars("abd")), -1);
    assert_eq!(compare_words(&chars("abd"), &chars("abc")), 1);
    assert_eq!(compare_words(&chars("ab"), &chars("abc")), -1);
    assert_eq!(compare_words(&chars("abc"), &chars("ab")), 1);
    assert_eq!(compare_words(&chars("abc"), &chars("abc")), 0);
    assert_eq!(compare_words(&chars("Z"), &chars("a")), -1);
    assert_eq!(compare_words(&chars("é"), &chars("z")), 1);
    assert_eq!(compare_pairs(&chars("a"), &chars("z"), &chars("b"), &chars("a")), -1);
    assert_eq!(compare_pairs(&chars("a"), &chars("z"), &chars("a"), &chars("y")), 1);
    assert_eq!(compare_pairs(&chars("a"), &chars("y"), &chars("a"), &chars("y")), 0);
}

#[test]
fn lipsum_opens_with_lorem_ipsum() {
    assert_eq!(lipsum(1), "Lorem");
    assert_eq!(lipsum(2), "Lorem ipsum");
    for n in 1..40 {
        assert!(lipsum(n).starts_with("Lorem"));
    }
}

#[test]
fn chain_usable_after_streams() {
    let mut chain = MarkovChain::new();
    chain.learn("one two three four");
    {
        let mut it = chain.iter_from(("two", "three"));
        assert_eq!(it.next(), Some("two".to_string()));
    }
    {
        let mut it = chain.iter();
        assert!(it.next().is_some());
    }
    chain.learn("one two five");
    assert_eq!(chain.words(("one", "two")), Some(owned(&["three", "five"])));
}

// The index of each draw comes from `gen_range`, not from scaling a
// float, so the seeded text differs from what a float-scaling sampler
// gives; the count and the vocabulary are what the seed cannot change.
#[test]
fn new_with_rng() {
    let rng = XorShiftRng::from_seed([1, 2, 3, 4]);
    let mut chain = MarkovChain::new_with_rng(rng);
    chain.learn("foo bar x y z");
    chain.learn("foo bar a b c");

    let out = chain.generate(15);
    assert_eq!(out.split_whitespace().count(), 15);
    let vocabulary = ["foo", "bar", "x", "y", "z", "a", "b", "c"];
    for w in out.split_whitespace() {
        assert!(vocabulary.contains(&w));
    }

    let mut again = MarkovChain::new_with_rng(XorShiftRng::from_seed([1, 2, 3, 4]));
    again.learn("foo bar x y z");
    again.learn("foo bar a b c");
    assert_eq!(again.generate(15), out);
}
