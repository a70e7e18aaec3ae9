use ares::axis::{edit, raw_slot, slot};
use ares::noun::{equals, Noun};

fn d(x: u64) -> Noun {
    Noun::direct(x)
}

fn c(h: Noun, t: Noun) -> Noun {
    Noun::cell(h, t)
}

#[test]
fn fetch_whole_head_tail() {
    let t = c(d(4), d(5));
    assert!(equals(&raw_slot(&t, 1).unwrap(), &t));
    assert_eq!(raw_slot(&t, 2).unwrap().as_direct(), Some(4));
    assert_eq!(raw_slot(&t, 3).unwrap().as_direct(), Some(5));
}

#[test]
fn fetch_axis_zero_fails() {
    assert!(raw_slot(&c(d(4), d(5)), 0).is_none());
    assert!(raw_slot(&d(4), 0).is_none());
}

#[test]
fn fetch_through_atom_fails() {
    assert!(raw_slot(&c(d(4), d(5)), 6).is_none());
    assert!(slot(&c(d(4), d(5)), &c(d(1), d(1))).is_none());
}

#[test]
fn fetch_deeper_axes() {
    let t = c(c(d(1), d(2)), c(d(3), d(4)));
    assert_eq!(raw_slot(&t, 4).unwrap().as_direct(), Some(1));
    assert_eq!(raw_slot(&t, 5).unwrap().as_direct(), Some(2));
    assert_eq!(raw_slot(&t, 6).unwrap().as_direct(), Some(3));
    assert_eq!(raw_slot(&t, 7).unwrap().as_direct(), Some(4));
}

#[test]
fn fetch_axis_beyond_a_word() {
    let mut t = d(42);
    for _ in 0..64 {
        t = c(t, d(0));
    }
    let mut bytes = vec![0u8; 8];
    bytes.push(1);
    let axis = Noun::from_bytes(&bytes);
    assert_eq!(slot(&t, &axis).unwrap().as_direct(), Some(42));
    let mut bytes3 = vec![1u8, 0, 0, 0, 0, 0, 0, 0];
    bytes3.push(1);
    assert_eq!(slot(&t, &Noun::from_bytes(&bytes3)).unwrap().as_direct(), Some(0));
}

#[test]
fn edit_then_fetch() {
    let t = c(c(d(1), d(2)), c(d(3), d(4)));
    let r = edit(&d(5), d(9), &t).unwrap();
    assert_eq!(raw_slot(&r, 5).unwrap().as_direct(), Some(9));
    assert_eq!(raw_slot(&r, 4).unwrap().as_direct(), Some(1));
    assert_eq!(raw_slot(&r, 6).unwrap().as_direct(), Some(3));
    assert_eq!(raw_slot(&r, 7).unwrap().as_direct(), Some(4));
    assert!(equals(&raw_slot(&r, 3).unwrap(), &raw_slot(&t, 3).unwrap()));
}

#[test]
fn edit_whole_tree() {
    let r = edit(&d(1), d(7), &c(d(1), d(2))).unwrap();
    assert_eq!(r.as_direct(), Some(7));
}

#[test]
fn edit_fails_on_bad_axis() {
    assert!(edit(&d(0), d(7), &c(d(1), d(2))).is_none());
    assert!(edit(&d(4), d(7), &c(d(1), d(2))).is_none());
    assert!(edit(&c(d(1), d(1)), d(7), &c(d(1), d(2))).is_none());
}
