use markov::{Markov, Word, WordArray};

fn word(s: &str) -> Word {
    Word::Word(s.to_string())
}

fn sentence(s: &str) -> Vec<String> {
    s.split_whitespace().map(|w| w.to_string()).collect()
}

fn start() -> WordArray {
    [Word::Start, Word::Start]
}

fn contexts(m: &Markov) -> Vec<WordArray> {
    m.to_parts().into_iter().map(|(c, _)| c).collect()
}

fn successors(m: &Markov, c: &WordArray) -> Option<Vec<(Word, usize)>> {
    m.to_parts().into_iter().find(|(k, _)| k == c).map(|(_, s)| s)
}

#[test]
fn clean_prunes_rare_start_and_its_context() {
    let mut m = Markov::new();
    m.insert_sequence(sentence("A x"));
    for _ in 0..5 {
        m.insert_sequence(sentence("B y"));
    }
    assert_eq!(successors(&m, &start()), Some(vec![(word("A"), 1), (word("B"), 5)]));
    assert_eq!(m.len(), 5);
    assert!(m.can_clean());
    let removed = m.clean();
    assert_eq!(successors(&m, &start()), Some(vec![(word("B"), 5)]));
    assert_eq!(successors(&m, &[Word::Start, word("A")]), None);
    assert_eq!(successors(&m, &[word("A"), word("x")]), None);
    assert_eq!(
        contexts(&m),
        vec![start(), [Word::Start, word("B")], [word("B"), word("y")]]
    );
    assert_eq!(removed, 2);
    assert_eq!(m.len(), 3);
}

#[test]
fn clean_keeps_weights_of_other_contexts() {
    let mut m = Markov::new();
    m.insert_sequence(sentence("B y"));
    m.insert_sequence(sentence("B y"));
    m.insert_sequence(sentence("B z"));
    let removed = m.clean();
    assert_eq!(removed, 0);
    assert_eq!(
        m.to_parts(),
        vec![
            (start(), vec![(word("B"), 3)]),
            ([Word::Start, word("B")], vec![(word("y"), 2), (word("z"), 1)]),
            ([word("B"), word("y")], vec![(Word::End, 2)]),
            ([word("B"), word("z")], vec![(Word::End, 1)]),
        ]
    );
}

#[test]
fn clean_removes_unconnected_context() {
    let mut m = Markov::new();
    m.insert_sequence(sentence("a b"));
    m.insert_sequence(sentence("a b"));
    m.insert([word("far"), word("away")], word("island"));
    assert_eq!(m.len(), 4);
    let removed = m.clean();
    assert_eq!(removed, 1);
    assert_eq!(successors(&m, &[word("far"), word("away")]), None);
    assert_eq!(m.len(), 3);
}

#[test]
fn clean_keeps_a_five_hop_chain() {
    let mut m = Markov::new();
    m.insert_sequence(sentence("a b c d e"));
    m.insert_sequence(sentence("a b c d e"));
    let before = m.to_parts();
    assert_eq!(before.len(), 6);
    let removed = m.clean();
    assert_eq!(removed, 0);
    assert_eq!(m.to_parts(), before);
    assert!(successors(&m, &[word("d"), word("e")]).is_some());
}

#[test]
fn clean_keeps_context_with_another_way_in() {
    let mut m = Markov::new();
    m.insert_sequence(sentence("x y"));
    m.insert_sequence(sentence("x y"));
    m.insert_sequence(sentence("q"));
    m.insert([word("x"), word("y")], Word::Start);
    m.insert([word("y"), Word::Start], word("q"));
    m.insert([Word::Start, word("q")], word("r"));
    let removed = m.clean();
    assert_eq!(successors(&m, &start()), Some(vec![(word("x"), 2)]));
    assert!(successors(&m, &[Word::Start, word("q")]).is_some());
    assert_eq!(successors(&m, &[word("q"), word("r")]), None);
    assert_eq!(removed, 0);
}

#[test]
fn clean_without_start_context_removes_everything() {
    let mut m = Markov::new();
    m.insert([word("a"), word("b")], word("c"));
    m.insert([word("b"), word("c")], Word::End);
    assert!(m.can_clean());
    let removed = m.clean();
    assert_eq!(removed, 2);
    assert_eq!(m.len(), 0);
    assert!(m.to_parts().is_empty());
}

#[test]
fn clean_of_empty_table_removes_nothing() {
    let mut m = Markov::new();
    assert!(m.can_clean());
    assert_eq!(m.clean(), 0);
    assert_eq!(m.len(), 0);
}

#[test]
fn clean_twice_changes_nothing_more() {
    let mut m = Markov::new();
    m.insert_sequence(sentence("A x"));
    for _ in 0..3 {
        m.insert_sequence(sentence("B y"));
    }
    assert_eq!(m.clean(), 2);
    let once = m.to_parts();
    assert!(m.can_clean());
    assert_eq!(m.clean(), 0);
    assert_eq!(m.to_parts(), once);
}

#[test]
fn cannot_clean_when_every_first_word_is_rare() {
    let mut m = Markov::new();
    m.insert_sequence(sentence("the cat sat"));
    assert!(!m.can_clean());
    m.insert_sequence(sentence("a dog ran"));
    assert!(!m.can_clean());
    m.insert_sequence(sentence("the end"));
    assert!(m.can_clean());
}

#[test]
fn clean_is_asymmetric() {
    let mut m = Markov::new();
    m.insert_sequence(sentence("B rare"));
    m.insert_sequence(sentence("B common"));
    m.insert_sequence(sentence("B common"));
    m.clean();
    assert_eq!(
        successors(&m, &[Word::Start, word("B")]),
        Some(vec![(word("rare"), 1), (word("common"), 2)])
    );
    assert!(successors(&m, &[word("B"), word("rare")]).is_some());
}

#[test]
fn clean_walks_cycles_once() {
    let mut m = Markov::new();
    m.insert_sequence(sentence("a a a a a a"));
    m.insert_sequence(sentence("a a"));
    let before = m.to_parts();
    assert_eq!(m.clean(), 0);
    assert_eq!(m.to_parts(), before);
}
