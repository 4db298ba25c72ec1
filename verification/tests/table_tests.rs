use markov::{Markov, Word, WordArray, START_WORDS, WORD_COUNT};

fn word(s: &str) -> Word {
    Word::Word(s.to_string())
}

fn sentence(s: &str) -> Vec<String> {
    s.split_whitespace().map(|w| w.to_string()).collect()
}

fn sorted(mut v: Vec<String>) -> Vec<String> {
    v.sort();
    v
}

#[test]
fn start_context_is_two_start_markers() {
    assert_eq!(WORD_COUNT, 2);
    assert_eq!(START_WORDS, [Word::Start, Word::Start]);
}

#[test]
fn words_compare_by_tag_and_text() {
    assert_eq!(word("a"), word("a"));
    assert_ne!(word("a"), word("b"));
    assert_ne!(word("Start"), Word::Start);
    assert_ne!(Word::Start, Word::End);
    assert_eq!(word("a").clone(), word("a"));
    assert_eq!(Word::End.clone(), Word::End);
}

#[test]
fn new_table_is_empty() {
    let m = Markov::new();
    assert_eq!(m.len(), 0);
    assert_eq!(m.weight(&START_WORDS), 0);
    assert!(m.what_starts().is_empty());
    assert!(m.to_parts().is_empty());
}

#[test]
fn insert_creates_then_increments() {
    let mut m = Markov::new();
    m.insert([Word::Start, Word::Start], word("a"));
    assert_eq!(m.to_parts(), vec![([Word::Start, Word::Start], vec![(word("a"), 1)])]);
    m.insert([Word::Start, Word::Start], word("a"));
    assert_eq!(m.to_parts(), vec![([Word::Start, Word::Start], vec![(word("a"), 2)])]);
    m.insert([Word::Start, Word::Start], word("b"));
    assert_eq!(
        m.to_parts(),
        vec![([Word::Start, Word::Start], vec![(word("a"), 2), (word("b"), 1)])]
    );
    m.insert([Word::Start, Word::Start], word("a"));
    assert_eq!(
        m.to_parts(),
        vec![([Word::Start, Word::Start], vec![(word("a"), 3), (word("b"), 1)])]
    );
    assert_eq!(m.len(), 1);
}

#[test]
fn context_order_matters() {
    let mut m = Markov::new();
    m.insert([word("a"), word("b")], word("x"));
    m.insert([word("b"), word("a")], word("y"));
    assert_eq!(m.len(), 2);
    assert_eq!(m.weight(&[word("a"), word("b")]), 1);
    assert_eq!(m.weight(&[word("b"), word("a")]), 1);
    assert_eq!(m.weight(&[word("a"), word("a")]), 0);
}

#[test]
fn weight_equals_number_of_inserts() {
    let mut m = Markov::new();
    let ctx: WordArray = [word("x"), word("y")];
    let other: WordArray = [word("y"), word("x")];
    let tokens = ["a", "b", "a", "c", "a", "b", "d"];
    let mut before = 0;
    for (n, t) in tokens.iter().enumerate() {
        m.insert(ctx.clone(), word(t));
        m.insert(other.clone(), word("z"));
        let now = m.weight(&ctx);
        assert!(now >= before);
        assert_eq!(now, n + 1);
        before = now;
    }
    assert_eq!(m.weight(&ctx), 7);
    assert_eq!(m.weight(&other), 7);
    m.insert(ctx.clone(), Word::End);
    assert_eq!(m.weight(&ctx), 8);
}

#[test]
fn insert_sequence_walks_a_sliding_context() {
    let mut m = Markov::new();
    m.insert_sequence(sentence("the cat sat"));
    assert_eq!(
        m.to_parts(),
        vec![
            ([Word::Start, Word::Start], vec![(word("the"), 1)]),
            ([Word::Start, word("the")], vec![(word("cat"), 1)]),
            ([word("the"), word("cat")], vec![(word("sat"), 1)]),
            ([word("cat"), word("sat")], vec![(Word::End, 1)]),
        ]
    );
}

#[test]
fn insert_sequence_of_nothing_records_the_end() {
    let mut m = Markov::new();
    m.insert_sequence(Vec::new());
    assert_eq!(m.to_parts(), vec![([Word::Start, Word::Start], vec![(Word::End, 1)])]);
    m.insert_sequence(Vec::new());
    assert_eq!(m.to_parts(), vec![([Word::Start, Word::Start], vec![(Word::End, 2)])]);
}

#[test]
fn insert_sequence_of_one_word() {
    let mut m = Markov::new();
    m.insert_sequence(sentence("hi"));
    assert_eq!(
        m.to_parts(),
        vec![
            ([Word::Start, Word::Start], vec![(word("hi"), 1)]),
            ([Word::Start, word("hi")], vec![(Word::End, 1)]),
        ]
    );
}

#[test]
fn insert_sequence_twice_doubles_every_weight() {
    let mut m = Markov::new();
    m.insert_sequence(sentence("a b"));
    m.insert_sequence(sentence("a b"));
    assert_eq!(
        m.to_parts(),
        vec![
            ([Word::Start, Word::Start], vec![(word("a"), 2)]),
            ([Word::Start, word("a")], vec![(word("b"), 2)]),
            ([word("a"), word("b")], vec![(Word::End, 2)]),
        ]
    );
}

#[test]
fn repeated_word_keeps_one_context() {
    let mut m = Markov::new();
    m.insert_sequence(sentence("a a a a"));
    assert_eq!(
        m.to_parts(),
        vec![
            ([Word::Start, Word::Start], vec![(word("a"), 1)]),
            ([Word::Start, word("a")], vec![(word("a"), 1)]),
            ([word("a"), word("a")], vec![(word("a"), 2), (Word::End, 1)]),
        ]
    );
    assert_eq!(m.weight(&[word("a"), word("a")]), 3);
}

#[test]
fn introspection_after_two_sentences() {
    let mut m = Markov::new();
    m.insert_sequence(sentence("the cat sat"));
    m.insert_sequence(sentence("the dog ran"));
    assert_eq!(m.what_starts(), vec!["the".to_string()]);
    assert_eq!(
        sorted(m.what_follows("the")),
        vec!["cat".to_string(), "dog".to_string()]
    );
    assert_eq!(m.what_follows("cat"), vec!["sat".to_string()]);
    assert_eq!(m.what_follows("dog"), vec!["ran".to_string()]);
}

#[test]
fn what_follows_leaves_out_the_end_marker() {
    let mut m = Markov::new();
    m.insert_sequence(sentence("the cat sat"));
    assert!(m.what_follows("sat").is_empty());
    assert!(m.what_follows("unknown").is_empty());
}

#[test]
fn what_follows_names_each_word_once() {
    let mut m = Markov::new();
    m.insert_sequence(sentence("a b c"));
    m.insert_sequence(sentence("x b c"));
    m.insert_sequence(sentence("x b d"));
    assert_eq!(sorted(m.what_follows("b")), vec!["c".to_string(), "d".to_string()]);
    assert_eq!(sorted(m.what_starts()), vec!["a".to_string(), "x".to_string()]);
}

#[test]
fn what_starts_leaves_out_the_end_marker() {
    let mut m = Markov::new();
    m.insert_sequence(Vec::new());
    m.insert_sequence(sentence("go"));
    assert_eq!(m.what_starts(), vec!["go".to_string()]);
}

#[test]
fn room_is_counted_from_the_heaviest_context() {
    let mut m = Markov::new();
    assert!(m.has_room(usize::MAX));
    m.insert_sequence(sentence("a b"));
    assert!(m.has_room(usize::MAX - 1));
    assert!(!m.has_room(usize::MAX));
    m.insert_sequence(sentence("a c"));
    assert!(m.has_room(usize::MAX - 2));
    assert!(!m.has_room(usize::MAX - 1));
    let heavy = vec![([Word::Start, Word::Start], vec![(word("a"), usize::MAX - 1)])];
    let full = match Markov::from_parts(heavy) {
        Ok(t) => t,
        Err(e) => panic!("refused: {:?}", e),
    };
    assert!(full.has_room(1));
    assert!(!full.has_room(2));
}

#[test]
fn start_free_after_training() {
    let mut m = Markov::new();
    assert!(m.is_start_free());
    m.insert_sequence(sentence("the cat sat"));
    assert!(m.is_start_free());
    m.insert([word("odd"), word("one")], Word::Start);
    assert!(!m.is_start_free());
}
