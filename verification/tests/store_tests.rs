use markov::{Markov, TableError, Word, WordArray};
use rand::rngs::StdRng;
use rand::SeedableRng;

fn word(s: &str) -> Word {
    Word::Word(s.to_string())
}

fn sentence(s: &str) -> Vec<String> {
    s.split_whitespace().map(|w| w.to_string()).collect()
}

fn start() -> WordArray {
    [Word::Start, Word::Start]
}

fn error_of(parts: Vec<(WordArray, Vec<(Word, usize)>)>) -> TableError {
    match Markov::from_parts(parts) {
        Ok(_) => panic!("the lists were accepted"),
        Err(e) => e,
    }
}

#[test]
fn round_trip_reproduces_the_table() {
    let mut m = Markov::new();
    m.insert_sequence(sentence("the cat sat"));
    m.insert_sequence(sentence("the dog sat"));
    m.insert_sequence(sentence("a cat ran"));
    m.insert_sequence(sentence("a cat sat"));
    m.insert_sequence(sentence("the cat ran"));
    let parts = m.to_parts();
    let rich = parts.iter().filter(|(_, s)| s.len() >= 2).count();
    assert!(rich >= 3);
    let back = match Markov::from_parts(parts.clone()) {
        Ok(t) => t,
        Err(e) => panic!("refused: {:?}", e),
    };
    assert_eq!(back.to_parts(), parts);
    assert_eq!(back.len(), m.len());
    assert_eq!(back.weight(&start()), 5);
    assert_eq!(back.what_starts(), m.what_starts());
    assert_eq!(back.what_follows("cat"), m.what_follows("cat"));
}

#[test]
fn round_trip_of_three_contexts_with_two_successors_each() {
    let mut m = Markov::new();
    m.insert(start(), word("a"));
    m.insert(start(), word("b"));
    m.insert(start(), word("b"));
    m.insert([Word::Start, word("a")], word("c"));
    m.insert([Word::Start, word("a")], Word::End);
    m.insert([Word::Start, word("b")], word("c"));
    m.insert([Word::Start, word("b")], word("d"));
    m.insert([Word::Start, word("b")], word("d"));
    m.insert([Word::Start, word("b")], word("d"));
    let parts = m.to_parts();
    assert_eq!(
        parts,
        vec![
            (start(), vec![(word("a"), 1), (word("b"), 2)]),
            ([Word::Start, word("a")], vec![(word("c"), 1), (Word::End, 1)]),
            ([Word::Start, word("b")], vec![(word("c"), 1), (word("d"), 3)]),
        ]
    );
    let back = match Markov::from_parts(parts.clone()) {
        Ok(t) => t,
        Err(e) => panic!("refused: {:?}", e),
    };
    assert_eq!(back.to_parts(), parts);
    assert_eq!(back.len(), 3);
    assert_eq!(back.weight(&start()), 3);
    assert_eq!(back.weight(&[Word::Start, word("a")]), 2);
    assert_eq!(back.weight(&[Word::Start, word("b")]), 4);
}

#[test]
fn loaded_table_samples_like_the_saved_one() {
    let mut m = Markov::new();
    m.insert_sequence(sentence("a b c"));
    m.insert_sequence(sentence("a b d"));
    m.insert_sequence(sentence("a x"));
    let back = match Markov::from_parts(m.to_parts()) {
        Ok(t) => t,
        Err(e) => panic!("refused: {:?}", e),
    };
    for seed in 0..100 {
        let mut one = m.generate_sequence(StdRng::seed_from_u64(seed));
        let mut two = back.generate_sequence(StdRng::seed_from_u64(seed));
        loop {
            let a = one.next();
            let b = two.next();
            assert_eq!(a, b);
            if a.is_none() {
                break;
            }
        }
    }
}

#[test]
fn loaded_table_can_be_trained_further() {
    let parts = vec![(start(), vec![(word("a"), 4), (word("b"), 1)])];
    let mut m = match Markov::from_parts(parts) {
        Ok(t) => t,
        Err(e) => panic!("refused: {:?}", e),
    };
    m.insert(start(), word("b"));
    m.insert(start(), word("c"));
    assert_eq!(
        m.to_parts(),
        vec![(start(), vec![(word("a"), 4), (word("b"), 2), (word("c"), 1)])]
    );
    assert_eq!(m.weight(&start()), 7);
}

#[test]
fn empty_lists_give_an_empty_table() {
    let m = match Markov::from_parts(Vec::new()) {
        Ok(t) => t,
        Err(e) => panic!("refused: {:?}", e),
    };
    assert_eq!(m.len(), 0);
}

#[test]
fn context_without_successors_is_refused() {
    assert_eq!(error_of(vec![(start(), Vec::new())]), TableError::NoItem);
}

#[test]
fn zero_weight_is_refused() {
    assert_eq!(
        error_of(vec![(start(), vec![(word("a"), 3), (word("b"), 0)])]),
        TableError::InvalidWeight
    );
    assert_eq!(error_of(vec![(start(), vec![(word("a"), 0)])]), TableError::InvalidWeight);
}

#[test]
fn token_listed_twice_is_refused() {
    assert_eq!(
        error_of(vec![(start(), vec![(word("a"), 3), (word("b"), 1), (word("a"), 2)])]),
        TableError::DuplicateToken
    );
}

#[test]
fn weights_beyond_usize_are_refused() {
    assert_eq!(
        error_of(vec![(start(), vec![(word("a"), usize::MAX), (word("b"), 1)])]),
        TableError::TooHeavy
    );
}

#[test]
fn weights_up_to_usize_are_accepted() {
    let parts = vec![(start(), vec![(word("a"), usize::MAX - 1), (word("b"), 1)])];
    let m = match Markov::from_parts(parts) {
        Ok(t) => t,
        Err(e) => panic!("refused: {:?}", e),
    };
    assert_eq!(m.weight(&start()), usize::MAX);
}

#[test]
fn context_listed_twice_is_refused() {
    assert_eq!(
        error_of(vec![
            (start(), vec![(word("a"), 1)]),
            ([Word::Start, word("a")], vec![(Word::End, 1)]),
            (start(), vec![(word("b"), 1)]),
        ]),
        TableError::DuplicateContext
    );
}

#[test]
fn first_fault_in_the_lists_decides() {
    assert_eq!(
        error_of(vec![
            (start(), vec![(word("a"), 0)]),
            (start(), vec![(word("b"), 1)]),
        ]),
        TableError::InvalidWeight
    );
    assert_eq!(
        error_of(vec![
            (start(), vec![(word("a"), 1)]),
            (start(), vec![(word("b"), 0)]),
        ]),
        TableError::DuplicateContext
    );
    assert_eq!(
        error_of(vec![(start(), vec![(word("a"), 0), (word("a"), 1)])]),
        TableError::InvalidWeight
    );
}

#[test]
fn one_bad_entry_refuses_the_whole_table() {
    let r = Markov::from_parts(vec![
        (start(), vec![(word("a"), 1)]),
        ([Word::Start, word("a")], vec![(word("b"), 2)]),
        ([word("a"), word("b")], Vec::new()),
    ]);
    assert!(matches!(r, Err(TableError::NoItem)));
}
