use markov::bigram::{bigrams, BiGramIterator};
use markov::window::{collect_windows, OverlappingWindows};
use markov::MarkovError;

fn chars(s: &str) -> Vec<char> {
    s.chars().collect()
}

#[test]
fn zero_window_size_is_rejected() {
    assert!(matches!(
        OverlappingWindows::new(chars("abc"), 0),
        Err(MarkovError::InvalidWindowSize)
    ));
    assert_eq!(collect_windows(chars("abc"), 0), Err(MarkovError::InvalidWindowSize));
}

#[test]
fn window_count_matches_source_length() {
    let s = chars("abcdefg");
    for n in 1..10usize {
        let ws = collect_windows(s.clone(), n).unwrap();
        let expected = if n <= s.len() { s.len() - n + 1 } else { 0 };
        assert_eq!(ws.len(), expected);
        for w in &ws {
            assert_eq!(w.len(), n);
        }
    }
}

#[test]
fn windows_slide_one_symbol_at_a_time() {
    let ws = collect_windows(chars("abcde"), 3).unwrap();
    assert_eq!(ws, vec![chars("abc"), chars("bcd"), chars("cde")]);
}

#[test]
fn exact_length_source_gives_one_window() {
    let ws = collect_windows(chars("abcd"), 4).unwrap();
    assert_eq!(ws, vec![chars("abcd")]);
}

#[test]
fn short_and_empty_sources_give_no_window() {
    assert!(collect_windows(chars("x"), 2).unwrap().is_empty());
    for n in 1..4usize {
        assert!(collect_windows(Vec::<char>::new(), n).unwrap().is_empty());
    }
}

#[test]
fn unit_windows_are_the_symbols_in_order() {
    let ws = collect_windows(chars("abc"), 1).unwrap();
    assert_eq!(ws, vec![vec!['a'], vec!['b'], vec!['c']]);
    let flat: Vec<char> = ws.into_iter().flatten().collect();
    assert_eq!(flat, chars("abc"));
}

#[test]
fn windower_stays_done_once_exhausted() {
    let mut w = OverlappingWindows::new(chars("ab"), 2).unwrap();
    assert_eq!(w.window_size(), 2);
    assert_eq!(w.next_window(), Some(chars("ab")));
    assert_eq!(w.next_window(), None);
    assert_eq!(w.next_window(), None);
}

#[test]
fn windows_over_integers() {
    let ws = collect_windows(vec![1u32, 2, 3, 4], 2).unwrap();
    assert_eq!(ws, vec![vec![1, 2], vec![2, 3], vec![3, 4]]);
}

#[test]
fn bigrams_match_windows_of_two() {
    for s in ["", "a", "ab", "aab", "abcabc", "zzzz"] {
        let pairs = bigrams(chars(s));
        let ws = collect_windows(chars(s), 2).unwrap();
        let as_windows: Vec<Vec<char>> = pairs.iter().map(|p| vec![p.0, p.1]).collect();
        assert_eq!(as_windows, ws);
    }
}

#[test]
fn bigram_iterator_pairs_neighbours() {
    let mut it = BiGramIterator::new(chars("abc"));
    assert_eq!(it.next(), Some(('a', 'b')));
    assert_eq!(it.next(), Some(('b', 'c')));
    assert_eq!(it.next(), None);
    assert_eq!(it.next(), None);
    let mut empty = BiGramIterator::new(Vec::<char>::new());
    assert_eq!(empty.next(), None);
}
