use index::{Index, Parameters, Ratio};
use index::hash::IndexHasherBuilder;
use index::probe::QuadraticProbing;

fn s(text: &str) -> String {
    String::from(text)
}

#[test]
fn new_has_default_configuration() {
    let index: Index<String, i32> = Index::new();
    assert_eq!(index.len(), 0);
    assert!(index.is_empty());
    assert_eq!(index.capacity(), 1);
    assert_eq!(index.max_load().numerator(), 7);
    assert_eq!(index.max_load().denominator(), 10);
    assert_eq!(index.growth_policy().numerator(), 2);
    assert_eq!(index.growth_policy().denominator(), 1);
}

#[test]
fn with_capacity_keeps_requested_capacity() {
    let index: Index<String, String> = Index::with_capacity(6);
    assert_eq!(index.len(), 0);
    assert_eq!(index.capacity(), 6);
}

#[test]
fn with_capacity_zero_is_coerced_to_one() {
    let index: Index<u64, u64> = Index::with_capacity(0);
    assert_eq!(index.capacity(), 1);
}

#[test]
fn with_capacity_and_parameters_keeps_configuration() {
    let params = Parameters {
        max_load: Ratio::new(9, 10),
        growth_policy: Ratio::new(3, 2),
        hasher_builder: IndexHasherBuilder,
        probe: QuadraticProbing,
    };
    let mut index: Index<String, String, IndexHasherBuilder, QuadraticProbing> =
        Index::with_capacity_and_parameters(10, params);
    assert_eq!(index.capacity(), 10);
    assert_eq!(index.max_load().numerator(), 9);
    assert_eq!(index.max_load().denominator(), 10);
    assert_eq!(index.growth_policy().numerator(), 3);
    assert_eq!(index.growth_policy().denominator(), 2);
    index.insert(s("key"), s("value"));
    assert_eq!(index.get(&s("key")).unwrap(), "value");
    let _builder: &IndexHasherBuilder = index.hasher();
    let _probe: &QuadraticProbing = index.probe();
}

#[test]
fn clone_preserves_entries() {
    let mut index = Index::with_capacity(8);
    index.insert(s("one"), 1);
    index.insert(s("two"), 2);
    let copy = index.clone();
    index.clear();
    assert_eq!(*copy.get(&s("one")).unwrap(), 1);
    assert_eq!(*copy.get(&s("two")).unwrap(), 2);
    assert_eq!(copy.len(), 2);
    assert!(index.get(&s("one")).is_none());
}

#[test]
fn insert_then_get_round_trip() {
    let mut index = Index::with_capacity(10);
    index.insert(s("salutation"), s("Hello, world!"));
    index.insert(s("ferris"), s("dancing"));
    index.insert(s("did you know ?"), s("Rust is kinda cool !"));
    assert_eq!(index.get(&s("salutation")).unwrap(), "Hello, world!");
    assert_eq!(index.get(&s("ferris")).unwrap(), "dancing");
    assert_eq!(index.get(&s("did you know ?")).unwrap(), "Rust is kinda cool !");
    assert!(index.get(&s("absent")).is_none());
    assert_eq!(index.len(), 3);
}

#[test]
fn overwrite_returns_previous_pair_and_keeps_len() {
    let mut index = Index::with_capacity(4);
    let first = index.insert(s("key"), s("value"));
    assert!(first.is_none());
    let prev = index.insert(s("key"), s("new value"));
    let (prev_key, prev_value) = prev.expect("previous pair expected");
    assert_eq!(prev_key, "key");
    assert_eq!(prev_value, "value");
    assert_eq!(index.len(), 1);
    assert_eq!(index.get(&s("key")).unwrap(), "new value");
}

#[test]
fn growth_fires_exactly_at_the_load_threshold() {
    // max load 7/10 at capacity 10: the eighth insert is the first whose
    // pre-insert load reaches the threshold, so only it triggers growth
    let mut index = Index::with_capacity(10);
    for i in 0..7u64 {
        index.insert(format!("k{}", i), i * 10);
        assert_eq!(index.capacity(), 10);
        assert_eq!(index.len(), (i + 1) as usize);
    }
    index.insert(s("k7"), 70);
    assert_eq!(index.len(), 8);
    assert_eq!(index.capacity(), 20);
}

#[test]
fn growth_trace_from_capacity_one() {
    let mut index = Index::new();
    index.insert(s("salutation"), s("Hello, world!"));
    index.insert(s("ferris"), s("dancing"));
    index.insert(s("did you know ?"), s("Rust is kinda cool guys !"));
    index.insert(s("key"), s("value"));
    assert_eq!(index.len(), 4);
    assert_eq!(index.capacity(), 8);
}

#[test]
fn growth_scenario_from_capacity_two() {
    let mut index = Index::with_capacity(2);
    index.insert(s("key"), s("value"));
    assert_eq!(index.get(&s("key")).unwrap(), "value");
    index.insert(s("key"), s("new value"));
    assert_eq!(index.get(&s("key")).unwrap(), "new value");
    assert_eq!(index.len(), 1);
    assert_eq!(index.capacity(), 2);
    index.insert(s("salutation"), s("Hello, world!"));
    index.insert(s("ferris"), s("dancing"));
    index.insert(s("did you know ?"), s("Rust is kinda cool guys !"));
    assert_eq!(index.len(), 4);
    assert_eq!(index.capacity(), 8);
}

#[test]
fn clear_empties_the_table_and_keeps_capacity() {
    let mut index = Index::with_capacity(6);
    index.insert(s("one"), 1);
    index.insert(s("two"), 2);
    index.insert(s("three"), 3);
    index.clear();
    assert_eq!(index.len(), 0);
    assert_eq!(index.capacity(), 6);
    assert!(index.get(&s("one")).is_none());
    assert!(index.get(&s("two")).is_none());
    assert!(index.get(&s("three")).is_none());
}

#[test]
fn rehash_after_explicit_resize_keeps_every_binding() {
    let mut index: Index<String, u64> = Index::new();
    for i in 0..10u64 {
        index.insert(format!("word{}", i), i);
    }
    assert_eq!(index.len(), 10);
    assert_eq!(index.capacity(), 16);
    index.resize(64);
    assert_eq!(index.len(), 10);
    assert_eq!(index.capacity(), 64);
    for i in 0..10u64 {
        assert_eq!(*index.get(&format!("word{}", i)).unwrap(), i);
    }
}

#[test]
fn load_is_the_exact_ratio_of_len_to_capacity() {
    let mut index = Index::with_capacity(6);
    index.insert(s("one"), 1);
    index.insert(s("two"), 2);
    index.insert(s("three"), 3);
    let load = index.load();
    assert_eq!(load.numerator(), 3);
    assert_eq!(load.denominator(), 6);
}

#[test]
fn get_mut_grants_exclusive_access_to_the_value() {
    let mut index = Index::with_capacity(10);
    index.insert(s("salutation"), s("Hello, world!"));
    *index.get_mut(&s("salutation")).unwrap() = s("Hello, rust!");
    assert_eq!(index.get(&s("salutation")).unwrap(), "Hello, rust!");
    assert!(index.get_mut(&s("absent")).is_none());
}

#[test]
fn get_pair_returns_key_and_value() {
    let mut index = Index::with_capacity(10);
    index.insert(s("did you know ?"), s("Rust is kinda cool !"));
    let pair = index.get_pair(&s("did you know ?")).unwrap();
    assert_eq!(pair.0, "did you know ?");
    assert_eq!(pair.1, "Rust is kinda cool !");
    assert!(index.get_pair(&s("absent")).is_none());
}

#[test]
fn integer_keys_round_trip() {
    let mut index: Index<u64, String> = Index::with_capacity(8);
    for i in 0..5u64 {
        index.insert(i * 1_000_003, format!("v{}", i));
    }
    for i in 0..5u64 {
        assert_eq!(*index.get(&(i * 1_000_003)).unwrap(), format!("v{}", i));
    }
    assert!(index.get(&42u64).is_none());
}

#[test]
fn default_builds_an_empty_table() {
    let index: Index<String, i32> = Default::default();
    assert_eq!(index.len(), 0);
    assert_eq!(index.capacity(), 1);
}

#[test]
fn resize_below_the_entry_count_grows_back_as_needed() {
    let mut index: Index<String, u64> = Index::new();
    for i in 0..10u64 {
        index.insert(format!("word{}", i), i);
    }
    assert_eq!(index.capacity(), 16);
    index.resize(4);
    assert_eq!(index.len(), 10);
    assert_eq!(index.capacity(), 16);
    for i in 0..10u64 {
        assert_eq!(*index.get(&format!("word{}", i)).unwrap(), i);
    }
}

#[test]
fn resize_zero_is_coerced_and_keeps_entries() {
    let mut index: Index<String, u64> = Index::with_capacity(5);
    index.insert(s("a"), 1);
    index.insert(s("b"), 2);
    index.resize(0);
    assert_eq!(index.len(), 2);
    assert_eq!(index.capacity(), 2);
    assert_eq!(*index.get(&s("a")).unwrap(), 1);
    assert_eq!(*index.get(&s("b")).unwrap(), 2);
}
