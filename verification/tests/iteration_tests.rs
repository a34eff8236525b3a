use index::Index;
use index::hash::{make_hash, mix64_exec, IndexHasherBuilder, IndexKey};

fn s(text: &str) -> String {
    String::from(text)
}

fn sample() -> Index<String, String> {
    let mut index = Index::with_capacity(10);
    index.insert(s("salutation"), s("Hello, world!"));
    index.insert(s("ferris"), s("dancing"));
    index.insert(s("did you know ?"), s("Rust is kinda cool !"));
    index
}

#[test]
fn iterator_counts_match_len() {
    let mut index = sample();
    assert_eq!(index.keys().len(), index.len());
    assert_eq!(index.values().len(), index.len());
    assert_eq!(index.iter().len(), index.len());
    index.insert(s("key"), s("value"));
    assert_eq!(index.keys().len(), index.len());
    assert_eq!(index.values().len(), index.len());
    assert_eq!(index.iter().len(), index.len());
    index.clear();
    assert_eq!(index.keys().len(), 0);
    assert_eq!(index.values().len(), 0);
    assert_eq!(index.iter().len(), 0);
}

#[test]
fn keys_and_values_line_up_with_iter() {
    let index = sample();
    let keys = index.keys();
    let values = index.values();
    let entries = index.iter();
    assert_eq!(keys.len(), 3);
    for i in 0..keys.len() {
        assert_eq!(keys[i], entries[i].0);
        assert_eq!(values[i], entries[i].1);
        assert_eq!(index.get(keys[i]).unwrap(), values[i]);
    }
}

#[test]
fn drain_yields_every_pair_exactly_once_and_empties() {
    let mut index = sample();
    let drained = index.drain();
    assert_eq!(drained.len(), 3);
    let expected = [
        ("salutation", "Hello, world!"),
        ("ferris", "dancing"),
        ("did you know ?", "Rust is kinda cool !"),
    ];
    for (key, value) in expected.iter() {
        let hits = drained
            .iter()
            .filter(|(k, v)| k == key && v == value)
            .count();
        assert_eq!(hits, 1);
    }
    assert_eq!(index.len(), 0);
    assert!(index.is_empty());
    assert_eq!(index.capacity(), 10);
    // every slot is empty afterwards
    for slot in 0..index.capacity() {
        assert!(index.values_mut(slot).is_none());
    }
    assert!(index.get(&s("salutation")).is_none());
}

#[test]
fn values_mut_overwrites_values_slot_by_slot() {
    let mut index = sample();
    for slot in 0..index.capacity() {
        if let Some(value) = index.values_mut(slot) {
            *value = s("overwritten!");
        }
    }
    assert_eq!(index.get(&s("salutation")).unwrap(), "overwritten!");
    assert_eq!(index.get(&s("ferris")).unwrap(), "overwritten!");
    assert_eq!(index.get(&s("did you know ?")).unwrap(), "overwritten!");
    assert_eq!(index.len(), 3);
}

#[test]
fn iter_mut_gives_the_key_and_mutable_value() {
    let mut index = sample();
    for slot in 0..index.capacity() {
        if let Some((key, value)) = index.iter_mut(slot) {
            let copy = key.clone();
            *value = copy;
        }
    }
    assert_eq!(index.get(&s("ferris")).unwrap(), "ferris");
    assert_eq!(index.get(&s("salutation")).unwrap(), "salutation");
}

#[test]
fn default_hash_is_deterministic_and_view_based() {
    let a = s("ferris");
    let b = s("ferris");
    assert_eq!(a.key_hash(), b.key_hash());
    assert_eq!(make_hash(&IndexHasherBuilder, &a), a.key_hash());
    assert_eq!(mix64_exec(17), mix64_exec(17));
    assert_eq!(make_hash(&IndexHasherBuilder, &17u64), mix64_exec(17));
    assert!(a.key_eq(&b));
    assert!(!a.key_eq(&s("fErris")));
}

#[test]
fn empty_string_key_works() {
    let mut index: Index<String, u64> = Index::with_capacity(4);
    index.insert(s(""), 7);
    assert_eq!(*index.get(&s("")).unwrap(), 7);
}

#[test]
fn hash_formulas_give_exact_expected_values() {
    // the mixing finisher on a known input
    assert_eq!(mix64_exec(17), 0x302b8631721c51be);
    // FNV-1a over the characters of a known string, and its offset basis
    assert_eq!(s("abc").key_hash(), 0xe71fa2190541574b);
    assert_eq!(s("").key_hash(), 0xcbf29ce484222325);
}
