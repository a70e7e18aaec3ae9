use ares::hamt::{Hamt, MutHamt};
use ares::noun::Noun;

fn d(x: u64) -> Noun {
    Noun::direct(x)
}

fn c(h: Noun, t: Noun) -> Noun {
    Noun::cell(h, t)
}

#[test]
fn empty_map_finds_nothing() {
    let m: Hamt<u64> = Hamt::new();
    assert!(m.is_null());
    assert_eq!(m.lookup(&mut d(1)), None);
}

#[test]
fn insert_then_lookup() {
    let m: Hamt<u64> = Hamt::new();
    let m2 = m.insert(&mut d(1), 10);
    assert_eq!(m2.lookup(&mut d(1)), Some(10));
    assert_eq!(m2.lookup(&mut d(2)), None);
    assert!(!m2.is_null());
}

#[test]
fn insert_keeps_old_version() {
    let m = Hamt::new().insert(&mut d(1), 10u64);
    let m2 = m.insert(&mut d(2), 20);
    let m3 = m2.insert(&mut d(1), 11);
    assert_eq!(m.lookup(&mut d(2)), None);
    assert_eq!(m.lookup(&mut d(1)), Some(10));
    assert_eq!(m2.lookup(&mut d(1)), Some(10));
    assert_eq!(m3.lookup(&mut d(1)), Some(11));
    assert_eq!(m3.lookup(&mut d(2)), Some(20));
}

#[test]
fn reinsert_keeps_last_value() {
    let m = Hamt::new().insert(&mut d(5), 1u64).insert(&mut d(5), 2);
    let n = Hamt::new().insert(&mut d(5), 2u64);
    assert_eq!(m.lookup(&mut d(5)), n.lookup(&mut d(5)));
}

#[test]
fn cell_keys_by_value() {
    let m = Hamt::new().insert(&mut c(d(1), d(2)), 7u64);
    assert_eq!(m.lookup(&mut c(d(1), d(2))), Some(7));
    assert_eq!(m.lookup(&mut c(d(2), d(1))), None);
}

#[test]
fn many_keys() {
    let mut m: Hamt<u64> = Hamt::new();
    for i in 0..3000u64 {
        m = m.insert(&mut d(i), i * 2);
    }
    for i in 0..3000u64 {
        assert_eq!(m.lookup(&mut d(i)), Some(i * 2));
    }
    assert_eq!(m.lookup(&mut d(5000)), None);
}

#[test]
fn noun_values() {
    let m = Hamt::new().insert(&mut d(1), c(d(3), d(4)));
    let v = m.lookup(&mut d(1)).unwrap();
    assert!(v.is_cell());
}

#[test]
fn mutable_map() {
    let mut m: MutHamt<u64> = MutHamt::new();
    for i in 0..500u64 {
        m.insert(&mut d(i), i + 1);
    }
    m.insert(&mut d(3), 99);
    assert_eq!(m.lookup(&mut d(3)), Some(99));
    assert_eq!(m.lookup(&mut d(4)), Some(5));
    let frozen = m.freeze();
    assert_eq!(frozen.lookup(&mut d(499)), Some(500));
}

#[test]
fn iteration_hands_out_every_pair_once() {
    let mut m: Hamt<u64> = Hamt::new();
    for i in 0..200u64 {
        m = m.insert(&mut d(i), i + 1000);
    }
    let mut it = m.into_iter();
    let mut seen = vec![false; 200];
    let mut count = 0;
    while let Some((k, v)) = it.next() {
        let key = k.as_direct().unwrap();
        assert_eq!(v, key + 1000);
        assert!(!seen[key as usize]);
        seen[key as usize] = true;
        count += 1;
    }
    assert_eq!(count, 200);
    assert!(it.next().is_none());
}

#[test]
fn iteration_of_empty_map() {
    let m: Hamt<u64> = Hamt::new();
    assert!(m.into_iter().next().is_none());
}

#[test]
fn null_only_when_empty() {
    let m: Hamt<u64> = Hamt::new();
    assert!(m.is_null());
    let m2 = m.insert(&mut d(7), 1);
    assert!(!m2.is_null());
    assert!(m.is_null());
}
