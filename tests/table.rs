use connect_four::table::{has_factor, next_prime, slot_count, MRUTable};

#[test]
fn has_factor_finds_small_divisors() {
    assert!(has_factor(9, 2, 9));
    assert!(has_factor(16, 2, 16));
    assert!(has_factor(91, 2, 91));
    assert!(!has_factor(7, 2, 7));
    assert!(!has_factor(97, 2, 97));
    // only divisors in the range count
    assert!(!has_factor(15, 4, 15));
}

#[test]
fn next_prime_values() {
    assert_eq!(next_prime(2), Some(2));
    assert_eq!(next_prime(8), Some(11));
    assert_eq!(next_prime(16), Some(17));
    assert_eq!(next_prime(24), Some(29));
    assert_eq!(next_prime(1 << 23), Some(8388617));
    assert_eq!(slot_count(1 << 23), 8388617);
}

#[test]
fn table_size_is_next_prime() {
    let t = MRUTable::new(4);
    assert_eq!(t.size(), 17);
    let t = MRUTable::new(23);
    assert_eq!(t.size(), 8388617);
}

#[test]
fn new_table_is_empty() {
    let t = MRUTable::new(4);
    for k in 0..40u64 {
        assert_eq!(t.get(k), None);
    }
}

#[test]
fn put_then_get() {
    let mut t = MRUTable::new(4);
    t.put(5, 42);
    assert_eq!(t.get(5), Some(42));
    t.put(5, 7);
    assert_eq!(t.get(5), Some(7));
    assert_eq!(t.get(6), None);
}

#[test]
fn colliding_key_replaces_entry() {
    let mut t = MRUTable::new(4);
    t.put(5, 42);
    // 22 goes to the same slot as 5 in a table of 17 slots
    t.put(22, 9);
    assert_eq!(t.get(22), Some(9));
    assert_eq!(t.get(5), None);
}

#[test]
fn truncated_keys_can_collide() {
    let mut t = MRUTable::new(4);
    let k = 5u64;
    // same slot and same low 32 bits
    let other = k + 17 * (1u64 << 32);
    t.put(k, 3);
    assert_eq!(t.get(other), Some(3));
}
