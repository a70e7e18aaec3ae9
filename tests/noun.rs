use ares::noun::{equals, inc, unifying_equality, Noun};

fn d(x: u64) -> Noun {
    Noun::direct(x)
}

fn c(h: Noun, t: Noun) -> Noun {
    Noun::cell(h, t)
}

#[test]
fn increment_small_atom() {
    let r = inc(&d(41));
    assert_eq!(r.as_direct(), Some(42));
}

#[test]
fn increment_grows_past_word() {
    let r = inc(&d(u64::MAX));
    assert_eq!(r.as_direct(), None);
    let mut bytes = vec![0u8; 8];
    bytes.push(1);
    assert!(equals(&r, &Noun::from_bytes(&bytes)));
}

#[test]
fn increment_carries_through_words() {
    let mut bytes = vec![0xffu8; 8];
    bytes.push(5);
    let r = inc(&Noun::from_bytes(&bytes));
    let mut want = vec![0u8; 8];
    want.push(6);
    assert!(equals(&r, &Noun::from_bytes(&want)));
}

#[test]
fn increment_all_ones_grows_a_word() {
    let r = inc(&Noun::from_bytes(&vec![0xffu8; 16]));
    let mut want = vec![0u8; 16];
    want.push(1);
    assert!(equals(&r, &Noun::from_bytes(&want)));
}

#[test]
fn from_bytes_small_and_trailing_zeros() {
    assert_eq!(Noun::from_bytes(&b"memo".to_vec()).as_direct(), Some(0x6f6d_656d));
    assert_eq!(Noun::from_bytes(&vec![7u8, 0, 0, 0, 0, 0, 0, 0, 0, 0]).as_direct(), Some(7));
    assert_eq!(Noun::from_bytes(&Vec::new()).as_direct(), Some(0));
}

#[test]
fn equality_is_structural() {
    let a = c(d(1), c(d(2), d(3)));
    let b = c(d(1), c(d(2), d(3)));
    let e = c(d(1), c(d(2), d(4)));
    assert!(equals(&a, &b));
    assert!(!equals(&a, &e));
    assert!(!equals(&d(1), &c(d(1), d(1))));
}

#[test]
fn unifying_equality_keeps_value() {
    let a = c(d(1), c(d(2), d(3)));
    let mut b = c(d(1), c(d(2), d(3)));
    assert!(unifying_equality(&a, &mut b));
    assert!(equals(&a, &b));
    let mut e = d(9);
    assert!(!unifying_equality(&a, &mut e));
    assert_eq!(e.as_direct(), Some(9));
}

#[test]
fn equal_values_have_equal_hashes() {
    let a = c(d(1), c(d(2), d(3)));
    let b = c(d(1), c(d(2), d(3)));
    assert_eq!(a.mug(), b.mug());
    assert_ne!(d(1).mug(), d(2).mug());
}

#[test]
fn cell_parts() {
    let a = c(d(4), d(5));
    let (h, t) = a.as_cell().unwrap();
    assert_eq!(h.as_direct(), Some(4));
    assert_eq!(t.as_direct(), Some(5));
    assert!(d(4).as_cell().is_none());
    assert!(a.is_cell());
    assert!(d(4).is_atom());
}
