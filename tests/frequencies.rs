use std::collections::BTreeMap;

use markov::aggregate::{bigram_frequencies, ngram_frequencies, table_from_lines};
use markov::bigram::BiGramIterator;
use markov::table::FrequencyTable;
use markov::window::OverlappingWindows;
use markov::MarkovError;

fn chars(s: &str) -> Vec<char> {
    s.chars().collect()
}

fn lines(ls: &[&str]) -> Vec<Vec<char>> {
    ls.iter().map(|l| chars(l)).collect()
}

fn as_map(t: &FrequencyTable) -> BTreeMap<String, BTreeMap<char, u64>> {
    let mut out = BTreeMap::new();
    for (prefix, followers) in t.rows() {
        let key: String = prefix.into_iter().collect();
        assert!(!out.contains_key(&key));
        let mut inner = BTreeMap::new();
        for (c, n) in followers {
            assert!(n >= 1);
            assert!(inner.insert(c, n).is_none());
        }
        out.insert(key, inner);
    }
    out
}

fn expected(rows: &[(&str, &[(char, u64)])]) -> BTreeMap<String, BTreeMap<char, u64>> {
    rows.iter()
        .map(|(p, fs)| (p.to_string(), fs.iter().cloned().collect()))
        .collect()
}

#[test]
fn scenario_aab_bigrams() {
    let t = table_from_lines(&lines(&["aab"]), 2).unwrap();
    assert_eq!(as_map(&t), expected(&[("a", &[('a', 1), ('b', 1)])]));
    assert_eq!(t.count_of(&chars("a"), 'a'), 1);
    assert_eq!(t.count_of(&chars("a"), 'b'), 1);
    assert_eq!(t.count_of(&chars("b"), 'a'), 0);
}

#[test]
fn scenario_aaa_bigrams() {
    let t = table_from_lines(&lines(&["aaa"]), 2).unwrap();
    assert_eq!(as_map(&t), expected(&[("a", &[('a', 2)])]));
}

#[test]
fn scenario_lines_reset_windows() {
    let t = table_from_lines(&lines(&["ab", "ba"]), 2).unwrap();
    assert_eq!(as_map(&t), expected(&[("a", &[('b', 1)]), ("b", &[('a', 1)])]));
    assert_eq!(t.count_of(&chars("b"), 'b'), 0);
}

#[test]
fn scenario_short_line_gives_empty_table() {
    let t = table_from_lines(&lines(&["x"]), 2).unwrap();
    assert!(t.rows().is_empty());
}

#[test]
fn scenario_unit_windows_use_empty_prefix() {
    let t = table_from_lines(&lines(&["abc"]), 1).unwrap();
    assert_eq!(as_map(&t), expected(&[("", &[('a', 1), ('b', 1), ('c', 1)])]));
    assert_eq!(t.count_of(&Vec::new(), 'b'), 1);
}

#[test]
fn scenario_empty_line_gives_no_entries() {
    for n in 1..5usize {
        let t = table_from_lines(&lines(&[""]), n).unwrap();
        assert!(t.rows().is_empty());
    }
}

#[test]
fn zero_window_size_builds_no_table() {
    assert!(matches!(
        table_from_lines(&lines(&["abc"]), 0),
        Err(MarkovError::InvalidWindowSize)
    ));
}

#[test]
fn empty_window_is_rejected_and_leaves_table_alone() {
    let mut t = FrequencyTable::new();
    t.record_window(&chars("ab")).unwrap();
    assert_eq!(t.record_window(&Vec::new()), Err(MarkovError::InvalidWindow));
    assert_eq!(as_map(&t), expected(&[("a", &[('b', 1)])]));
}

#[test]
fn prefix_totals_count_windows_with_that_prefix() {
    let input = lines(&["abracadabra", "banana", ""]);
    let n = 3;
    let t = table_from_lines(&input, n).unwrap();
    let mut windows_by_prefix: BTreeMap<String, u64> = BTreeMap::new();
    for l in &input {
        if l.len() >= n {
            for i in 0..=l.len() - n {
                let p: String = l[i..i + n - 1].iter().collect();
                *windows_by_prefix.entry(p).or_insert(0) += 1;
            }
        }
    }
    let totals: BTreeMap<String, u64> = as_map(&t)
        .into_iter()
        .map(|(p, fs)| (p, fs.values().sum()))
        .collect();
    assert_eq!(totals, windows_by_prefix);
    assert_eq!(t.count_of(&chars("ab"), 'r'), 2);
    assert_eq!(t.count_of(&chars("an"), 'a'), 2);
}

#[test]
fn two_runs_add_up_to_one_combined_run() {
    let a = lines(&["hello", "world"]);
    let b = lines(&["help", "low"]);
    let mut both = a.clone();
    both.extend(b.iter().cloned());
    let n = 2;
    let ta = as_map(&table_from_lines(&a, n).unwrap());
    let tb = as_map(&table_from_lines(&b, n).unwrap());
    let tab = as_map(&table_from_lines(&both, n).unwrap());
    let mut sum = ta.clone();
    for (p, fs) in tb {
        let inner = sum.entry(p).or_default();
        for (c, k) in fs {
            *inner.entry(c).or_insert(0) += k;
        }
    }
    assert_eq!(sum, tab);
}

#[test]
fn aggregating_twice_doubles_counts() {
    let input = lines(&["aab", "ba"]);
    let once = as_map(&table_from_lines(&input, 2).unwrap());
    let mut doubled = input.clone();
    doubled.extend(input.iter().cloned());
    let twice = as_map(&table_from_lines(&doubled, 2).unwrap());
    for (p, fs) in &once {
        for (c, k) in fs {
            assert_eq!(twice[p][c], 2 * k);
        }
    }
    assert_eq!(once.len(), twice.len());
}

#[test]
fn ngram_frequencies_accumulates_into_existing_table() {
    let mut t = FrequencyTable::new();
    ngram_frequencies(OverlappingWindows::new(chars("abab"), 2).unwrap(), &mut t);
    ngram_frequencies(OverlappingWindows::new(chars("ba"), 2).unwrap(), &mut t);
    assert_eq!(as_map(&t), expected(&[("a", &[('b', 2)]), ("b", &[('a', 2)])]));
}

#[test]
fn bigram_frequencies_equal_window_frequencies() {
    for s in ["", "q", "aab", "mississippi"] {
        let mut by_pairs = FrequencyTable::new();
        bigram_frequencies(BiGramIterator::new(chars(s)), &mut by_pairs);
        let by_windows = table_from_lines(&lines(&[s]), 2).unwrap();
        assert_eq!(as_map(&by_pairs), as_map(&by_windows));
    }
}

#[test]
fn trigram_counts_are_exact() {
    let t = table_from_lines(&lines(&["aaaa", "aab"]), 3).unwrap();
    assert_eq!(as_map(&t), expected(&[("aa", &[('a', 2), ('b', 1)])]));
}
