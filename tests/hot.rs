use ares::jets::hot::{path_noun, Hot, HotEntry, HotMemEntry, PathItem};
use ares::noun::{equals, Noun};

fn d(x: u64) -> Noun {
    Noun::direct(x)
}

fn c(h: Noun, t: Noun) -> Noun {
    Noun::cell(h, t)
}

fn entry(path: &[&[u8]], axis: u64, jet: u64) -> HotEntry {
    let mut items = vec![PathItem::Versioned(0x6b, 139)];
    for p in path {
        items.push(PathItem::Term(p.to_vec()));
    }
    HotEntry { path: items, axis, jet }
}

#[test]
fn path_noun_conses_last_outermost() {
    let items = vec![PathItem::Versioned(0x6b, 139), PathItem::Term(b"one".to_vec())];
    let p = path_noun(&items);
    let want = c(Noun::from_bytes(&b"one".to_vec()), c(c(d(0x6b), d(139)), d(0)));
    assert!(equals(&p, &want));
}

#[test]
fn lookup_registered_jets() {
    let table = vec![entry(&[b"one", b"add"], 1, 10), entry(&[b"one", b"dec"], 1, 11)];
    let hot = Hot::init(&table);
    let mut p = path_noun(&table[0].path);
    assert_eq!(hot.lookup(&mut p, &d(1)), Some(10));
    let mut q = path_noun(&table[1].path);
    assert_eq!(hot.lookup(&mut q, &d(1)), Some(11));
    assert_eq!(hot.lookup(&mut q, &d(2)), None);
    assert_eq!(hot.lookup(&mut d(0), &d(1)), None);
}

#[test]
fn several_axes_on_one_path() {
    let table = vec![
        entry(&[b"one"], 1, 10),
        entry(&[b"one"], 2, 20),
        entry(&[b"one"], 1, 30),
    ];
    let hot = Hot::init(&table);
    let mut p = path_noun(&table[0].path);
    assert_eq!(hot.lookup(&mut p, &d(1)), Some(30));
    assert_eq!(hot.lookup(&mut p, &d(2)), Some(20));
    assert_eq!(hot.lookup(&mut p, &c(d(1), d(1))), None);
}

#[test]
fn chain_newest_first() {
    let e = HotMemEntry::empty().prepend(1, 10).prepend(2, 20);
    assert_eq!(e.len(), 2);
    assert_eq!(e.get(0), (2, 20));
    assert_eq!(e.find(1), Some(10));
    assert_eq!(e.find(3), None);
}
