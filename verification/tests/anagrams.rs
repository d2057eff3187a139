use anagrams::letters::Letters;
use anagrams::search::{for_anagrams, for_anagrams_capped};
use anagrams::words::{EmptyDictionary, WordMap};

fn dict(words: &[&str]) -> Vec<String> {
    words.iter().map(|w| w.to_string()).collect()
}

fn run(words: &[&str], target: &str) -> Vec<Vec<String>> {
    let map = WordMap::build(&dict(words), None).unwrap();
    let letters = Letters::new(target);
    for_anagrams(&map, &letters)
}

fn combo(words: &[&str]) -> Vec<String> {
    words.iter().map(|w| w.to_string()).collect()
}

fn sorted_chars_of(s: &str) -> Vec<char> {
    let mut v: Vec<char> = s.chars().collect();
    v.sort();
    v
}

fn sorted_chars_of_combo(c: &[String]) -> Vec<char> {
    let mut v: Vec<char> = c.iter().flat_map(|w| w.chars()).collect();
    v.sort();
    v
}

fn brute_force_step(
    words: &[&str],
    target_sorted: &Vec<char>,
    path: &mut Vec<String>,
    out: &mut Vec<Vec<String>>,
) {
    let mut cur_sorted: Vec<char> = path.iter().flat_map(|w| w.chars()).collect();
    cur_sorted.sort();
    if cur_sorted.len() == target_sorted.len() {
        if &cur_sorted == target_sorted {
            out.push(path.clone());
        }
        return;
    }
    if cur_sorted.len() > target_sorted.len() {
        return;
    }
    for w in words {
        if let Some(last) = path.last() {
            if w.chars().count() > last.chars().count() {
                continue;
            }
        }
        path.push(w.to_string());
        brute_force_step(words, target_sorted, path, out);
        path.pop();
    }
}

fn brute_force(words: &[&str], target: &str) -> Vec<Vec<String>> {
    let mut out = Vec::new();
    let mut path: Vec<String> = Vec::new();
    brute_force_step(words, &sorted_chars_of(target), &mut path, &mut out);
    out
}

#[test]
fn cat_dictionary_combinations() {
    let out = run(&["cat", "act", "tac", "a", "ct"], "cat");
    let expected = vec![
        combo(&["cat"]),
        combo(&["act"]),
        combo(&["tac"]),
        combo(&["ct", "a"]),
    ];
    assert_eq!(out, expected);
}

#[test]
fn cat_dictionary_never_emits_increasing_or_wrong_multiset() {
    let out = run(&["cat", "act", "tac", "a", "ct"], "cat");
    assert!(!out.contains(&combo(&["a", "ct"])));
    assert!(!out.contains(&combo(&["a", "a"])));
}

#[test]
fn ox_cannot_cover_oxo() {
    let out = run(&["ox"], "oxo");
    assert!(out.is_empty());
}

#[test]
fn empty_target_gives_one_empty_combination() {
    let out = run(&["a"], "");
    assert_eq!(out, vec![Vec::<String>::new()]);
}

#[test]
fn empty_dictionary_fails() {
    let r = WordMap::build(&dict(&[]), None);
    assert!(matches!(r, Err(EmptyDictionary)));
}

#[test]
fn fully_filtered_dictionary_fails() {
    let r = WordMap::build(&dict(&["abc", "de"]), Some(4));
    assert!(matches!(r, Err(EmptyDictionary)));
}

#[test]
fn minimum_length_filter_excludes_short_words() {
    let map = WordMap::build(&dict(&["a", "bb", "ccc"]), Some(2)).unwrap();
    assert_eq!(map.maxlen(), 3);
    assert_eq!(map.bucket_len(0), 0);
    assert_eq!(map.bucket_len(1), 0);
    assert_eq!(map.bucket_len(2), 1);
    assert_eq!(map.word_at(2, 0), "bb");
    assert_eq!(map.bucket_len(3), 1);
    assert_eq!(map.word_at(3, 0), "ccc");
}

#[test]
fn maxlen_is_longest_word_length() {
    let map = WordMap::build(&dict(&["a", "abc", "ab"]), None).unwrap();
    assert_eq!(map.maxlen(), 3);
    assert_eq!(map.bucket_count(), 4);
}

#[test]
fn buckets_keep_insertion_order() {
    let map = WordMap::build(&dict(&["ba", "ab", "cd"]), None).unwrap();
    assert_eq!(map.bucket_len(2), 3);
    assert_eq!(map.word_at(2, 0), "ba");
    assert_eq!(map.word_at(2, 1), "ab");
    assert_eq!(map.word_at(2, 2), "cd");
}

#[test]
fn letters_len_counts_characters() {
    assert_eq!(Letters::new("banana").len(), 6);
    assert_eq!(Letters::new("").len(), 0);
}

#[test]
fn subtract_consumes_counted_occurrences() {
    let l = Letters::new("banana");
    let rest = l.subtract("ban").unwrap();
    assert_eq!(rest.len(), 3);
    assert!(l.subtract("aaa").is_some());
    assert!(l.subtract("aaaa").is_none());
    assert!(l.subtract("xyz").is_none());
    assert!(l.subtract("bananas").is_none());
    assert!(l.subtract("banana").unwrap().len() == 0);
}

#[test]
fn subtract_leaves_the_receiver_untouched() {
    let l = Letters::new("cat");
    assert!(l.subtract("c").is_some());
    assert_eq!(l.len(), 3);
    assert!(l.subtract("cat").is_some());
}

#[test]
fn every_emitted_combination_conserves_the_multiset() {
    let target = "stressed";
    let out = run(&["stressed", "dress", "set", "s", "e", "t", "r", "d"], target);
    assert!(!out.is_empty());
    for c in &out {
        assert_eq!(sorted_chars_of_combo(c), sorted_chars_of(target));
    }
}

#[test]
fn every_emitted_combination_has_non_increasing_lengths() {
    let out = run(&["stressed", "dress", "set", "s", "e", "t", "r", "d"], "stressed");
    for c in &out {
        for pair in c.windows(2) {
            assert!(pair[0].chars().count() >= pair[1].chars().count());
        }
    }
}

#[test]
fn every_emitted_word_comes_from_the_dictionary() {
    let words = ["ab", "ba", "a", "b"];
    let out = run(&words, "ab");
    for c in &out {
        for w in c {
            assert!(words.contains(&w.as_str()));
        }
    }
}

#[test]
fn search_agrees_with_brute_force() {
    let words = ["ab", "ba", "a", "b"];
    let target = "ab";
    let mut out = run(&words, target);
    let mut expected = brute_force(&words, target);
    out.sort();
    expected.sort();
    assert_eq!(out, expected);
}

#[test]
fn search_agrees_with_brute_force_on_repeats() {
    let words = ["aa", "a"];
    let target = "aaaa";
    let mut out = run(&words, target);
    let mut expected = brute_force(&words, target);
    out.sort();
    expected.sort();
    assert_eq!(out, expected);
}

#[test]
fn duplicate_dictionary_entries_give_duplicate_combinations() {
    let out = run(&["ab", "ab"], "ab");
    assert_eq!(out, vec![combo(&["ab"]), combo(&["ab"])]);
}

#[test]
fn multibyte_characters_count_as_single_letters() {
    let out = run(&["h\u{e9}", "\u{e9}"], "h\u{e9}\u{e9}");
    assert_eq!(out, vec![combo(&["h\u{e9}", "\u{e9}"])]);
}

#[test]
fn blank_lines_are_kept_but_never_searched() {
    let out = run(&["", "a"], "a");
    assert_eq!(out, vec![combo(&["a"])]);
}

#[test]
fn capped_search_returns_the_first_results_only() {
    let map = WordMap::build(&dict(&["cat", "act", "tac", "a", "ct"]), None).unwrap();
    let letters = Letters::new("cat");
    let two = for_anagrams_capped(&map, &letters, 2);
    assert_eq!(two, vec![combo(&["cat"]), combo(&["act"])]);
    assert!(for_anagrams_capped(&map, &letters, 0).is_empty());
    let all = for_anagrams_capped(&map, &letters, 100);
    assert_eq!(all, for_anagrams(&map, &letters));
}

#[test]
fn capped_search_stops_mid_branch() {
    let map = WordMap::build(&dict(&["ab", "a", "b"]), None).unwrap();
    let letters = Letters::new("abab");
    let full = for_anagrams(&map, &letters);
    assert!(full.len() > 3);
    for cap in 0..full.len() + 2 {
        let bounded = for_anagrams_capped(&map, &letters, cap);
        let want: Vec<Vec<String>> = full.iter().take(cap).cloned().collect();
        assert_eq!(bounded, want);
    }
}

#[test]
fn reusing_the_same_entry_at_different_depths() {
    let out = run(&["ab", "a", "b"], "abab");
    assert!(out.contains(&combo(&["ab", "ab"])));
}
