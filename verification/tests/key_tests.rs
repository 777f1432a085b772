use ranger::error::RangerError;
use ranger::key::{
    generate_key, keys_have_unique_prefixes, prefix_lengths_in_order, resolve_prefix, shortest_unique_prefix_len,
    unique_prefix_lengths, KEY_LENGTH,
};

#[test]
fn key_generated_key_has_correct_length() {
    let key = generate_key();
    assert_eq!(key.len(), KEY_LENGTH);
}

#[test]
fn key_generated_key_uses_valid_alphabet() {
    let alphabet: Vec<char> = ('k'..='z').collect();
    let key = generate_key();
    for ch in key.chars() {
        assert!(alphabet.contains(&ch), "key contains invalid character: {ch}");
    }
}

#[test]
fn key_generated_keys_are_unique() {
    let keys: Vec<String> = (0..100).map(|_| generate_key()).collect();
    let unique: std::collections::HashSet<&String> = keys.iter().collect();
    assert_eq!(keys.len(), unique.len());
}

#[test]
fn shortest_unique_prefix_single_key() {
    let keys = vec!["romoqtuw".to_string()];
    assert_eq!(shortest_unique_prefix_len("romoqtuw", &keys), 1);
}

#[test]
fn shortest_unique_prefix_diverges_at_second_char() {
    let keys = vec!["romoqtuw".to_string(), "rypqxnkl".to_string()];
    assert_eq!(shortest_unique_prefix_len("romoqtuw", &keys), 2);
    assert_eq!(shortest_unique_prefix_len("rypqxnkl", &keys), 2);
}

#[test]
fn shortest_unique_prefix_longer_shared() {
    let keys = vec!["romoqtuw".to_string(), "romxnklp".to_string(), "rypqxnkl".to_string()];
    assert_eq!(shortest_unique_prefix_len("romoqtuw", &keys), 4);
    assert_eq!(shortest_unique_prefix_len("romxnklp", &keys), 4);
    assert_eq!(shortest_unique_prefix_len("rypqxnkl", &keys), 2);
}

#[test]
fn unique_prefix_lengths_builds_map() {
    let keys = vec!["romoqtuw".to_string(), "rypqxnkl".to_string(), "slmnopqr".to_string()];
    let map = unique_prefix_lengths(&keys);
    assert_eq!(map.len(), 3);
    assert_eq!(map.get("romoqtuw"), Some(2));
    assert_eq!(map.get("rypqxnkl"), Some(2));
    assert_eq!(map.get("slmnopqr"), Some(1));
}

#[test]
fn key_resolve_prefix_exact_match() {
    let keys = vec!["romoqtuw".to_string(), "rypqxnkl".to_string()];
    assert_eq!(resolve_prefix("rom", &keys).unwrap(), "romoqtuw");
}

#[test]
fn key_resolve_prefix_ambiguous() {
    let keys = vec!["romoqtuw".to_string(), "romxnklp".to_string()];
    assert!(resolve_prefix("rom", &keys).is_err());
}

#[test]
fn key_resolve_prefix_no_match() {
    let keys = vec!["romoqtuw".to_string()];
    assert!(resolve_prefix("xyz", &keys).is_err());
}

#[test]
fn resolve_prefix_reports_which_error() {
    let keys = vec!["romoqtuw".to_string(), "romxnklp".to_string()];
    match resolve_prefix("rom", &keys) {
        Err(RangerError::AmbiguousPrefix(p)) => assert_eq!(p, "rom"),
        _ => panic!("expected an ambiguous prefix"),
    }
    match resolve_prefix("xyz", &keys) {
        Err(RangerError::KeyNotFound(p)) => assert_eq!(p, "xyz"),
        _ => panic!("expected no match"),
    }
    assert_eq!(resolve_prefix("romx", &keys).unwrap(), "romxnklp");
}

#[test]
fn unique_prefix_of_a_key_that_prefixes_no_other_is_one_char() {
    let keys = vec!["kkkk".to_string(), "lkkk".to_string(), "lmkk".to_string()];
    let map = unique_prefix_lengths(&keys);
    assert_eq!(map.get("kkkk"), Some(1));
    assert_eq!(map.get("lkkk"), Some(2));
    assert_eq!(map.get("lmkk"), Some(2));
    assert_eq!(map.get("lm"), None);
}

#[test]
fn unique_prefixes_exist_for_distinct_keys() {
    assert!(keys_have_unique_prefixes(&["romoqtuw".to_string(), "romxnklp".to_string()]));
    assert!(!keys_have_unique_prefixes(&["romo".to_string(), "romo".to_string()]));
    assert!(keys_have_unique_prefixes(&["r".to_string()]));
    assert!(keys_have_unique_prefixes(&["romk".to_string(), "roml".to_string()]));
    assert!(!keys_have_unique_prefixes(&["".to_string()]));
    assert!(!keys_have_unique_prefixes(&["rom".to_string(), "romk".to_string()]));
}

#[test]
fn shortest_prefix_resolves_to_its_key() {
    let keys = vec!["romoqtuw".to_string(), "romxnklp".to_string(), "rypqxnkl".to_string()];
    for key in &keys {
        let len = shortest_unique_prefix_len(key, &keys);
        assert_eq!(resolve_prefix(&key[..len], &keys).unwrap(), *key);
    }
}

#[test]
fn shortest_unique_prefix_may_need_the_whole_key() {
    let keys = vec!["romo".to_string(), "romp".to_string()];
    assert_eq!(shortest_unique_prefix_len("romo", &keys), 4);
    assert_eq!(shortest_unique_prefix_len("romp", &keys), 4);
    assert_eq!(resolve_prefix("romo", &keys).unwrap(), "romo");
}

#[test]
fn prefix_lengths_follow_key_order() {
    let keys = vec!["romoqtuw".to_string(), "rypqxnkl".to_string(), "slmnopqr".to_string(), "romp".to_string()];
    assert_eq!(prefix_lengths_in_order(&keys), vec![4, 2, 1, 4]);
}

#[test]
fn unique_prefix_lengths_has_one_entry_per_key() {
    let keys = vec!["romo".to_string(), "slmn".to_string(), "romo".to_string()];
    assert!(!keys_have_unique_prefixes(&keys));
    let keys = vec!["romoqtuw".to_string(), "slmnopqr".to_string(), "romxnklp".to_string()];
    let map = unique_prefix_lengths(&keys);
    assert_eq!(map.len(), 3);
    assert_eq!(map.get("romxnklp"), Some(4));
}

#[test]
fn every_prefix_from_the_shortest_resolves_to_its_key() {
    let keys = vec!["romoqtuw".to_string(), "romxnklp".to_string(), "rypqxnkl".to_string()];
    for key in &keys {
        let shortest = shortest_unique_prefix_len(key, &keys);
        for len in shortest..=key.len() {
            assert_eq!(resolve_prefix(&key[..len], &keys).unwrap(), *key);
        }
    }
}
