use markov::entry::holds_word;
use markov::{Entry, TableError, Word};
use rand::rngs::StdRng;
use rand::SeedableRng;

fn word(s: &str) -> Word {
    Word::Word(s.to_string())
}

fn entry_of(pairs: Vec<(Word, usize)>) -> Entry {
    match Entry::from_pairs(pairs) {
        Ok(e) => e,
        Err(e) => panic!("refused: {:?}", e),
    }
}

#[test]
fn new_entry_has_one_successor_of_weight_one() {
    let e = Entry::new(word("a"));
    assert_eq!(e.len(), 1);
    assert_eq!(e.pick(0), word("a"));
    assert_eq!(e.weight_at(0), 1);
    assert_eq!(e.weight(), 1);
    assert_eq!(e.to_pairs(), vec![(word("a"), 1)]);
}

#[test]
fn new_entry_always_samples_its_successor() {
    let e = Entry::new(Word::End);
    let mut rng = StdRng::seed_from_u64(4);
    for _ in 0..100 {
        assert_eq!(e.get_random(&mut rng), Word::End);
    }
}

#[test]
fn entry_insert_increments_or_appends() {
    let mut e = Entry::new(word("a"));
    e.insert(word("b"));
    e.insert(word("a"));
    e.insert(Word::End);
    e.insert(word("a"));
    assert_eq!(e.to_pairs(), vec![(word("a"), 3), (word("b"), 1), (Word::End, 1)]);
    assert_eq!(e.weight(), 5);
    assert_eq!(e.len(), 3);
    assert_eq!(e.pick(2), Word::End);
    assert_eq!(e.weight_at(0), 3);
}

#[test]
fn entry_samples_by_updated_weights() {
    let mut e = Entry::new(word("a"));
    e.insert(word("b"));
    for _ in 0..98 {
        e.insert(word("b"));
    }
    let mut rng = StdRng::seed_from_u64(2024);
    let mut b = 0;
    for _ in 0..10_000 {
        let w = e.get_random(&mut rng);
        if w == word("b") {
            b += 1;
        } else {
            assert_eq!(w, word("a"));
        }
    }
    assert!(b >= 9_000 && b <= 9_950, "b drawn {} times", b);
}

#[test]
fn entry_samples_by_rebuilt_weights() {
    let mut e = Entry::new(word("a"));
    for _ in 0..98 {
        e.insert(word("a"));
    }
    e.insert(word("b"));
    let mut rng = StdRng::seed_from_u64(77);
    let mut a = 0;
    let mut b = 0;
    for _ in 0..10_000 {
        if e.get_random(&mut rng) == word("a") {
            a += 1;
        } else {
            b += 1;
        }
    }
    assert!(a >= 9_800, "a drawn {} times", a);
    assert!(b >= 20, "b drawn {} times", b);
}

#[test]
fn entry_from_pairs_samples_by_the_listed_weights() {
    let e = entry_of(vec![(word("a"), 1), (word("b"), 3)]);
    let mut rng = StdRng::seed_from_u64(5);
    let mut b = 0;
    for _ in 0..8_000 {
        if e.get_random(&mut rng) == word("b") {
            b += 1;
        }
    }
    assert!(b >= 5_600 && b <= 6_400, "b drawn {} times", b);
}

#[test]
fn entry_from_pairs_keeps_order_and_weights() {
    let pairs = vec![(word("x"), 7), (Word::End, 2), (word("y"), 1)];
    let e = entry_of(pairs.clone());
    assert_eq!(e.to_pairs(), pairs);
    assert_eq!(e.weight(), 10);
}

#[test]
fn entry_from_pairs_refuses_bad_lists() {
    assert_eq!(Entry::from_pairs(Vec::new()).err(), Some(TableError::NoItem));
    assert_eq!(Entry::from_pairs(vec![(word("a"), 0)]).err(), Some(TableError::InvalidWeight));
    assert_eq!(
        Entry::from_pairs(vec![(word("a"), 1), (word("a"), 1)]).err(),
        Some(TableError::DuplicateToken)
    );
    assert_eq!(
        Entry::from_pairs(vec![(word("a"), usize::MAX), (word("b"), usize::MAX)]).err(),
        Some(TableError::TooHeavy)
    );
}

#[test]
fn gen_new_weights_succeeds_on_an_entry() {
    let e = entry_of(vec![(word("a"), 2), (word("b"), 5)]);
    assert!(e.gen_new_weights().is_ok());
}

#[test]
fn retain_heavy_drops_what_was_seen_once() {
    let mut e = entry_of(vec![(word("a"), 1), (word("b"), 5), (Word::End, 1), (word("c"), 2)]);
    assert!(e.has_heavy());
    e.retain_heavy();
    assert_eq!(e.to_pairs(), vec![(word("b"), 5), (word("c"), 2)]);
    assert_eq!(e.weight(), 7);
    let mut rng = StdRng::seed_from_u64(8);
    for _ in 0..200 {
        let w = e.get_random(&mut rng);
        assert!(w == word("b") || w == word("c"));
    }
}

#[test]
fn has_heavy_needs_a_weight_above_one() {
    assert!(!Entry::new(word("a")).has_heavy());
    assert!(!entry_of(vec![(word("a"), 1), (word("b"), 1)]).has_heavy());
    assert!(entry_of(vec![(word("a"), 1), (word("b"), 2)]).has_heavy());
}

#[test]
fn has_start_sees_the_start_marker() {
    assert!(!entry_of(vec![(word("Start"), 1), (Word::End, 1)]).has_start());
    assert!(entry_of(vec![(word("a"), 1), (Word::Start, 1)]).has_start());
}

#[test]
fn collect_words_adds_new_words_only() {
    let e = entry_of(vec![(word("b"), 1), (Word::End, 4), (word("a"), 2), (word("c"), 1)]);
    let mut out = vec!["a".to_string()];
    e.collect_words(&mut out);
    assert_eq!(out, vec!["a".to_string(), "b".to_string(), "c".to_string()]);
    e.collect_words(&mut out);
    assert_eq!(out.len(), 3);
}

#[test]
fn holds_word_compares_text() {
    let words = vec!["a".to_string(), "bc".to_string()];
    assert!(holds_word(&words, &"bc".to_string()));
    assert!(!holds_word(&words, &"b".to_string()));
    assert!(!holds_word(&Vec::new(), &"a".to_string()));
}
