use sst::sprinkle::Sprinkler;

#[test]
fn new_sprinkler_is_empty() {
    let s: Sprinkler<u8> = Sprinkler::new();
    assert_eq!(s.len(), 0);
    assert!(!s.contains(0));
    assert!(s.values().is_empty());
}

#[test]
fn mark_and_record() {
    let mut s: Sprinkler<&str> = Sprinkler::new();
    s.mark(7);
    s.mark(3);
    s.mark(7);
    assert_eq!(s.len(), 2);
    assert!(s.contains(7));
    assert!(s.contains(3));
    assert!(!s.contains(4));
    assert_eq!(s.values(), &vec![None, None]);
    s.record(3, "three");
    s.record(4, "four");
    assert_eq!(s.values(), &vec![None, Some("three")]);
    s.record(3, "again");
    assert_eq!(s.values(), &vec![None, Some("again")]);
    s.mark(3);
    assert_eq!(s.values(), &vec![None, None]);
}

#[test]
fn from_indices_keeps_each_number_once() {
    let s: Sprinkler<u8> = Sprinkler::from_indices(&vec![5, 1, 5, 9, 1]);
    assert_eq!(s.len(), 3);
    for k in [1usize, 5, 9].iter() {
        assert!(s.contains(*k));
    }
    assert!(!s.contains(0));
    assert_eq!(s.values(), &vec![None, None, None]);
}

#[test]
fn sprinkle_draws_below_total() {
    let mut rng = rand::thread_rng();
    let s: Sprinkler<u8> = Sprinkler::sprinkle(&mut rng, 50, 20);
    assert!(s.len() >= 1);
    assert!(s.len() <= 20);
    for k in 0..200 {
        if s.contains(k) {
            assert!(k < 50);
        }
    }
    assert!(s.values().iter().all(|v| v.is_none()));
}

#[test]
fn sprinkle_single_number() {
    let mut rng = rand::thread_rng();
    let s: Sprinkler<u8> = Sprinkler::sprinkle(&mut rng, 1, 5);
    assert_eq!(s.len(), 1);
    assert!(s.contains(0));
    assert!(!s.contains(1));
}

#[test]
fn sprinkle_nothing() {
    let mut rng = rand::thread_rng();
    let s: Sprinkler<u8> = Sprinkler::sprinkle(&mut rng, 0, 0);
    assert_eq!(s.len(), 0);
    let t: Sprinkler<u8> = Sprinkler::sprinkle(&mut rng, 1000, 0);
    assert_eq!(t.len(), 0);
}
