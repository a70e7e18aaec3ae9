use ares::codegen::util::{comp, part_will, peek, poke, tap};
use ares::interpreter::{Context, Error};
use ares::noun::{equals, Noun};

fn d(x: u64) -> Noun {
    Noun::direct(x)
}

fn c(h: Noun, t: Noun) -> Noun {
    Noun::cell(h, t)
}

fn leaf(n: u64) -> Noun {
    c(d(n), c(d(0), d(0)))
}

#[test]
fn tap_walks_node_left_right() {
    let tree = c(d(1), c(leaf(2), leaf(3)));
    let map = c(d(0), c(d(0), c(d(0), c(tree, d(0)))));
    let r = match tap(&map) {
        Ok(v) => v,
        Err(_) => panic!("not a map"),
    };
    let want = c(d(3), c(d(2), c(d(1), d(0))));
    assert!(equals(&r, &want));
}

#[test]
fn tap_of_empty_map() {
    let map = c(d(0), c(d(0), c(d(0), c(d(0), d(0)))));
    let r = match tap(&map) {
        Ok(v) => v,
        Err(_) => panic!("not a map"),
    };
    assert_eq!(r.as_direct(), Some(0));
}

#[test]
fn tap_rejects_malformed_tree() {
    let map = c(d(0), c(d(0), c(d(0), c(c(d(1), d(5)), d(0)))));
    assert!(matches!(tap(&map), Err(Error::Crash)));
    assert!(matches!(tap(&d(3)), Err(Error::Crash)));
}

#[test]
fn peek_without_core_fails() {
    let mut ctx = Context::new(1000);
    assert!(matches!(peek(&mut ctx, &d(1), &d(2)), Err(Error::Crash)));
    assert!(matches!(poke(&mut ctx, &d(1)), Err(Error::Crash)));
}

#[test]
fn peek_calls_the_core() {
    let gate = c(c(d(0), d(6)), c(d(0), d(0)));
    let line = c(c(c(d(1), gate), d(0)), d(0));
    let mut ctx = Context::new(1000);
    ctx.line = Some(line);
    let r = match peek(&mut ctx, &d(1), &d(2)) {
        Ok(v) => v,
        Err(_) => panic!("peek failed"),
    };
    assert!(equals(&r, &c(d(1), d(2))));
}

#[test]
fn comp_request_shape() {
    let r = comp(&d(1), &d(2));
    let want = c(d(0x706d_6f63), c(d(0), c(d(1), d(2))));
    assert!(equals(&r, &want));
}

#[test]
fn part_will_builds_trie() {
    let kv = |k: u64, v: u64| c(d(k), d(v));
    let tree = c(kv(1, 10), c(c(kv(2, 20), c(d(0), d(0))), c(kv(3, 30), c(d(0), d(0)))));
    let will = c(d(0), c(d(0), c(d(0), c(tree, d(0)))));
    let h = match part_will(&will) {
        Ok(h) => h,
        Err(_) => panic!("not a map"),
    };
    assert_eq!(h.lookup(&mut d(1)).unwrap().as_direct(), Some(10));
    assert_eq!(h.lookup(&mut d(2)).unwrap().as_direct(), Some(20));
    assert_eq!(h.lookup(&mut d(3)).unwrap().as_direct(), Some(30));
    assert!(h.lookup(&mut d(4)).is_none());
}

#[test]
fn part_will_rejects_bad_entry() {
    let tree = c(d(7), c(d(0), d(0)));
    let will = c(d(0), c(d(0), c(d(0), c(tree, d(0)))));
    assert!(matches!(part_will(&will), Err(Error::Crash)));
}
