use crate::noun::{mug, unifying_equality, Noun, Tree};
use std::rc::Rc;
use vstd::prelude::*;

verus! {

/// Deepest stem level. A 32-bit hash gives six chunks of five bits; keys
/// that agree on all of them share a leaf at this level.
pub const MAX_DEPTH: usize = 5;

/// Whether slot `c` of a bitmap is occupied.
pub open spec fn bit(bm: u32, c: nat) -> bool {
    (bm >> (c as u32)) & 1u32 == 1u32
}

/// Number of occupied slots below slot `c`: the index of slot `c` in a stem's
/// packed buffer.
pub open spec fn rank(bm: u32, c: nat) -> nat
    decreases c,
{
    if c == 0 {
        0
    } else {
        rank(bm, (c - 1) as nat) + if bit(bm, (c - 1) as nat) {
            1nat
        } else {
            0nat
        }
    }
}

/// The five hash bits that choose a slot at depth `d`.
pub open spec fn chunk(m: u32, d: nat) -> nat {
    ((m >> ((5 * d) as u32)) & 31u32) as nat
}

/// An inner node: a 32-slot sparse array, packed. Slot `c` is occupied when
/// bit `c` of `bitmap` is set, and then lives at index `rank(bitmap, c)` of
/// `buffer`.
pub struct Stem<T> {
    pub bitmap: u32,
    pub buffer: Rc<Vec<Entry<T>>>,
}

/// An occupied slot: a deeper stem, or a leaf of key/value pairs.
pub enum Entry<T> {
    Stem(Stem<T>),
    Leaf(Rc<Vec<(Noun, Rc<T>)>>),
}

/// Value of the first pair of a leaf whose key equals `k`.
pub open spec fn leaf_get<T>(ps: Seq<(Noun, Rc<T>)>, k: Tree) -> Option<T>
    decreases ps.len(),
{
    if ps.len() == 0 {
        None
    } else if ps[0].0@ == k {
        Some(*ps[0].1)
    } else {
        leaf_get(ps.drop_first(), k)
    }
}

/// What a lookup of `k` finds below a stem at depth `d`.
pub open spec fn stem_get<T>(s: Stem<T>, k: Tree, d: nat) -> Option<T>
    decreases 6 - d, 1nat,
{
    if d > 5 {
        None
    } else {
        let c = chunk(mug(k), d);
        if !bit(s.bitmap, c) {
            None
        } else {
            let i = rank(s.bitmap, c) as int;
            if i >= s.buffer@.len() {
                None
            } else {
                entry_get(s.buffer@[i], k, d)
            }
        }
    }
}

/// What a lookup of `k` finds in the slot entry `e` of a stem at depth `d`.
pub open spec fn entry_get<T>(e: Entry<T>, k: Tree, d: nat) -> Option<T>
    decreases 6 - d, 0nat,
{
    match e {
        Entry::Leaf(ps) => leaf_get(ps@, k),
        Entry::Stem(s2) => if d < 5 {
            stem_get(s2, k, d + 1)
        } else {
            None
        },
    }
}

/// A leaf holds at least one pair, and exactly one above the deepest level.
pub open spec fn leaf_wf<T>(ps: Seq<(Noun, Rc<T>)>, d: nat) -> bool {
    &&& ps.len() >= 1
    &&& d < 5 ==> ps.len() == 1
    &&& forall|j: int| 0 <= j < ps.len() ==> (#[trigger] ps[j]).0.wf()
}

/// The buffer holds one entry per occupied slot, and stems nest no deeper
/// than `MAX_DEPTH`.
pub open spec fn stem_wf<T>(s: Stem<T>, d: nat) -> bool
    decreases 6 - d, 1nat,
{
    &&& d <= 5
    &&& s.buffer@.len() == rank(s.bitmap, 32)
    &&& forall|i: int| 0 <= i < s.buffer@.len() ==> entry_wf(#[trigger] s.buffer@[i], d)
}

pub open spec fn entry_wf<T>(e: Entry<T>, d: nat) -> bool
    decreases 6 - d, 0nat,
{
    match e {
        Entry::Leaf(ps) => leaf_wf(ps@, d),
        Entry::Stem(s2) => d < 5 && stem_wf(s2, d + 1),
    }
}

impl<T> Stem<T> {
    fn share(&self) -> (r: Stem<T>)
        ensures
            r == *self,
    {
        Stem { bitmap: self.bitmap, buffer: Rc::clone(&self.buffer) }
    }
}

impl<T> Entry<T> {
    fn share(&self) -> (r: Entry<T>)
        ensures
            r == *self,
    {
        match self {
            Entry::Stem(s) => Entry::Stem(s.share()),
            Entry::Leaf(ps) => Entry::Leaf(Rc::clone(ps)),
        }
    }
}

fn chunk_exec(m: u32, d: usize) -> (c: u32)
    requires
        d <= 5,
    ensures
        c as nat == chunk(m, d as nat),
        c < 32,
{
    let sh: u32 = (5 * d) as u32;
    let c = (m >> sh) & 31u32;
    assert(c < 32) by (bit_vector)
        requires
            c == (m >> sh) & 31u32,
    ;
    c
}

fn bit_exec(bm: u32, c: u32) -> (r: bool)
    requires
        c < 32,
    ensures
        r == bit(bm, c as nat),
{
    (bm >> c) & 1u32 == 1u32
}

fn rank_exec(bm: u32, c: u32) -> (r: usize)
    requires
        c <= 32,
    ensures
        r as nat == rank(bm, c as nat),
        r <= c,
{
    let mut n: usize = 0;
    let mut j: u32 = 0;
    while j < c
        invariant
            j <= c <= 32,
            n as nat == rank(bm, j as nat),
            n <= j,
        decreases c - j,
    {
        if bit_exec(bm, j) {
            n = n + 1;
        }
        j = j + 1;
    }
    n
}

proof fn lemma_bit_or(bm: u32, c: nat, j: nat)
    requires
        c < 32,
        j < 32,
    ensures
        bit(bm | (1u32 << (c as u32)), j) == (bit(bm, j) || j == c),
{
    let cc = c as u32;
    let jj = j as u32;
    assert((((bm | (1u32 << cc)) >> jj) & 1u32 == 1u32) == (((bm >> jj) & 1u32 == 1u32) || jj
        == cc)) by (bit_vector)
        requires
            cc < 32,
            jj < 32,
    ;
}

proof fn lemma_bit_zero(j: nat)
    requires
        j < 32,
    ensures
        !bit(0u32, j),
{
    let jj = j as u32;
    assert(((0u32 >> jj) & 1u32) == 0u32) by (bit_vector);
}

/// Setting an empty slot `c` shifts the index of every slot above it by one.
proof fn lemma_rank_or(bm: u32, c: nat, c2: nat)
    requires
        c < 32,
        c2 <= 32,
        !bit(bm, c),
    ensures
        rank(bm | (1u32 << (c as u32)), c2) == rank(bm, c2) + if c2 > c {
            1nat
        } else {
            0nat
        },
    decreases c2,
{
    if c2 > 0 {
        lemma_rank_or(bm, c, (c2 - 1) as nat);
        lemma_bit_or(bm, c, (c2 - 1) as nat);
    }
}

proof fn lemma_rank_zero(c2: nat)
    requires
        c2 <= 32,
    ensures
        rank(0u32, c2) == 0,
    decreases c2,
{
    if c2 > 0 {
        lemma_rank_zero((c2 - 1) as nat);
        lemma_bit_zero((c2 - 1) as nat);
    }
}

proof fn lemma_rank_mono(bm: u32, c1: nat, c2: nat)
    requires
        c1 <= c2,
    ensures
        rank(bm, c1) <= rank(bm, c2),
        c1 < c2 && bit(bm, c1) ==> rank(bm, c1) < rank(bm, c2),
    decreases c2,
{
    if c1 < c2 {
        lemma_rank_mono(bm, c1, (c2 - 1) as nat);
    }
}

/// Changing the first pair whose key is `k` changes the lookup of `k` alone.
proof fn lemma_leaf_update<T>(ps: Seq<(Noun, Rc<T>)>, j: int, k: Tree, v: Rc<T>, k2: Tree)
    requires
        0 <= j < ps.len(),
        ps[j].0@ == k,
        forall|i: int| 0 <= i < j ==> (#[trigger] ps[i]).0@ != k,
    ensures
        leaf_get(ps.update(j, (ps[j].0, v)), k2) == if k2 == k {
            Some(*v)
        } else {
            leaf_get(ps, k2)
        },
    decreases j,
{
    let u = ps.update(j, (ps[j].0, v));
    if j > 0 {
        assert(u.drop_first() =~= ps.drop_first().update(j - 1, (ps[j].0, v)));
        assert(ps[0].0@ != k);
        assert(u[0] == ps[0]);
        assert(ps.drop_first()[j - 1] == ps[j]);
        assert forall|i: int| 0 <= i < j - 1 implies (#[trigger] ps.drop_first()[i]).0@ != k by {
            assert(ps.drop_first()[i] == ps[i + 1]);
        }
        lemma_leaf_update(ps.drop_first(), j - 1, k, v, k2);
    } else {
        assert(u.drop_first() =~= ps.drop_first());
        assert(u[0] == (ps[0].0, v));
    }
}

/// Appending a pair for a key the leaf lacks changes the lookup of that key alone.
proof fn lemma_leaf_push<T>(ps: Seq<(Noun, Rc<T>)>, kn: Noun, v: Rc<T>, k2: Tree)
    requires
        forall|i: int| 0 <= i < ps.len() ==> (#[trigger] ps[i]).0@ != kn@,
    ensures
        leaf_get(ps.push((kn, v)), k2) == if k2 == kn@ {
            Some(*v)
        } else {
            leaf_get(ps, k2)
        },
    decreases ps.len(),
{
    if ps.len() > 0 {
        assert(ps.push((kn, v)).drop_first() =~= ps.drop_first().push((kn, v)));
        assert(ps[0].0@ != kn@);
        lemma_leaf_push(ps.drop_first(), kn, v, k2);
    } else {
        assert(ps.push((kn, v)).drop_first() =~= ps);
    }
}

fn copy_entries<T>(es: &Vec<Entry<T>>) -> (r: Vec<Entry<T>>)
    ensures
        r@ == es@,
{
    let mut r: Vec<Entry<T>> = Vec::new();
    let mut i: usize = 0;
    while i < es.len()
        invariant
            i <= es.len(),
            r@ =~= es@.subrange(0, i as int),
        decreases es.len() - i,
    {
        r.push(es[i].share());
        i = i + 1;
    }
    assert(r@ =~= es@);
    r
}

fn copy_pairs<T>(ps: &Vec<(Noun, Rc<T>)>) -> (r: Vec<(Noun, Rc<T>)>)
    ensures
        r@ == ps@,
{
    let mut r: Vec<(Noun, Rc<T>)> = Vec::new();
    let mut i: usize = 0;
    while i < ps.len()
        invariant
            i <= ps.len(),
            r@ =~= ps@.subrange(0, i as int),
        decreases ps.len() - i,
    {
        r.push((ps[i].0.copy(), Rc::clone(&ps[i].1)));
        i = i + 1;
    }
    assert(r@ =~= ps@);
    r
}


/// Index of the first pair whose key equals `k`; on a match `k` is pointed at
/// the stored key.
fn find_key<T>(ps: &Vec<(Noun, Rc<T>)>, k: &mut Noun) -> (r: Option<usize>)
    requires
        old(k).wf(),
        forall|j: int| 0 <= j < ps@.len() ==> (#[trigger] ps@[j]).0.wf(),
    ensures
        final(k)@ == old(k)@,
        final(k).wf(),
        r matches Some(j) ==> j < ps@.len() && ps@[j as int].0@ == old(k)@,
        forall|j: int|
            0 <= j < ps@.len() && (r matches Some(i) ==> j < i) ==> (#[trigger] ps@[j]).0@ != old(
                k,
            )@,
{
    let ghost k0 = k@;
    let mut j: usize = 0;
    while j < ps.len()
        invariant
            j <= ps@.len(),
            k@ == k0,
            k0 == old(k)@,
            k.wf(),
            forall|j: int| 0 <= j < ps@.len() ==> (#[trigger] ps@[j]).0.wf(),
            forall|i: int| 0 <= i < j ==> (#[trigger] ps@[i]).0@ != k0,
        decreases ps.len() - j,
    {
        if unifying_equality(&ps[j].0, k) {
            return Some(j);
        }
        j = j + 1;
    }
    None
}

/// Replacing the entry of occupied slot `c` leaves the lookup of every key of
/// another slot unchanged.
proof fn lemma_get_set<T>(s: Stem<T>, r: Stem<T>, c: nat, e: Entry<T>, k2: Tree, d: nat)
    requires
        d <= 5,
        c < 32,
        bit(s.bitmap, c),
        stem_wf(s, d),
        r.bitmap == s.bitmap,
        r.buffer@ == s.buffer@.update(rank(s.bitmap, c) as int, e),
        chunk(mug(k2), d) != c,
    ensures
        stem_get(r, k2, d) == stem_get(s, k2, d),
{
    let c2 = chunk(mug(k2), d);
    lemma_chunk_bound(mug(k2), d);
    lemma_rank_mono(s.bitmap, c, 32);
    if bit(s.bitmap, c2) {
        if c2 < c {
            lemma_rank_mono(s.bitmap, c2, c);
        } else {
            lemma_rank_mono(s.bitmap, c, c2);
        }
        lemma_rank_mono(s.bitmap, c2, 32);
    }
}

proof fn lemma_chunk_bound(m: u32, d: nat)
    ensures
        chunk(m, d) < 32,
{
    let sh = (5 * d) as u32;
    assert((m >> sh) & 31u32 < 32u32) by (bit_vector);
}

/// Filling empty slot `c` with a one-pair leaf adds that pair and changes nothing else.
proof fn lemma_get_fill<T>(
    s: Stem<T>,
    r: Stem<T>,
    c: nat,
    e: Entry<T>,
    kn: Noun,
    v: Rc<T>,
    k2: Tree,
    d: nat,
)
    requires
        d <= 5,
        c < 32,
        !bit(s.bitmap, c),
        stem_wf(s, d),
        c == chunk(mug(kn@), d),
        e matches Entry::Leaf(ps) && ps@ == seq![(kn, v)],
        r.bitmap == s.bitmap | (1u32 << (c as u32)),
        r.buffer@ == s.buffer@.insert(rank(s.bitmap, c) as int, e),
    ensures
        stem_get(r, k2, d) == if k2 == kn@ {
            Some(*v)
        } else {
            stem_get(s, k2, d)
        },
{
    let bm = s.bitmap;
    let c2 = chunk(mug(k2), d);
    lemma_chunk_bound(mug(k2), d);
    lemma_bit_or(bm, c, c2);
    lemma_rank_or(bm, c, c2);
    lemma_rank_or(bm, c, 32);
    lemma_rank_mono(bm, c, 32);
    if c2 == c {
        let ps = e->Leaf_0;
        assert(ps@.drop_first() =~= Seq::<(Noun, Rc<T>)>::empty());
        assert(r.buffer@[rank(bm, c) as int] == e);
        assert(leaf_get(ps@.drop_first(), k2) is None);
    } else if bit(bm, c2) {
        if c2 < c {
            lemma_rank_mono(bm, c2, c);
        } else {
            lemma_rank_mono(bm, c, c2);
        }
        lemma_rank_mono(bm, c2, 32);
    }
}

/// A one-leaf stem one level down finds what the leaf finds.
proof fn lemma_get_single<T>(f: Stem<T>, ps: Rc<Vec<(Noun, Rc<T>)>>, oc: nat, k2: Tree, d: nat)
    requires
        d <= 5,
        oc < 32,
        ps@.len() == 1,
        oc == chunk(mug(ps@[0].0@), d),
        f.bitmap == 1u32 << (oc as u32),
        f.buffer@ == seq![Entry::Leaf(ps)],
    ensures
        stem_get(f, k2, d) == leaf_get(ps@, k2),
{
    let c2 = chunk(mug(k2), d);
    lemma_chunk_bound(mug(k2), d);
    let x = 1u32 << (oc as u32);
    assert((0u32 | x) == x) by (bit_vector);
    lemma_bit_or(0u32, oc, c2);
    lemma_bit_zero(c2);
    lemma_bit_zero(oc);
    lemma_rank_or(0u32, oc, c2);
    lemma_rank_zero(c2);
    assert(ps@.drop_first() =~= Seq::<(Noun, Rc<T>)>::empty());
    assert(leaf_get(ps@.drop_first(), k2) is None);
}

/// A persistent map keyed by nouns. Every insert returns a new map that shares
/// all untouched subtrees with the old one; the old one stays valid.
pub struct Hamt<T> {
    root: Stem<T>,
}

impl<T> Hamt<T> {
    /// What a lookup of `k` finds.
    pub closed spec fn get(self, k: Tree) -> Option<T> {
        stem_get(self.root, k, 0)
    }

    /// The map's contents: each key, by value, to its value.
    pub closed spec fn view(self) -> Map<Tree, T> {
        Map::new(|k: Tree| self.get(k) is Some, |k: Tree| self.get(k)->0)
    }

    pub closed spec fn wf(self) -> bool {
        stem_wf(self.root, 0) && placed_stem(self.root, 0)
    }

    /// A second handle on the same map; nothing is copied.
    pub fn share(&self) -> (r: Self)
        ensures
            r == *self,
    {
        Hamt { root: self.root.share() }
    }

    /// The empty map.
    pub fn new() -> (r: Self)
        ensures
            r.wf(),
            r@ == Map::<Tree, T>::empty(),
    {
        let r = Hamt { root: Stem { bitmap: 0, buffer: Rc::new(Vec::new()) } };
        proof {
            lemma_rank_zero(32);
            assert forall|c: nat| c < 32 && #[trigger] bit(r.root.bitmap, c) implies placed_entry(
                r.root.buffer@[rank(r.root.bitmap, c) as int],
                0,
                c,
            ) by {
                lemma_bit_zero(c);
            }
            assert forall|k: Tree| !(#[trigger] r.get(k) is Some) by {
                lemma_chunk_bound(mug(k), 0);
                lemma_bit_zero(chunk(mug(k), 0));
            }
            assert(r@ =~= Map::<Tree, T>::empty());
        }
        r
    }

    /// Whether the map is empty: its root has no occupied slot.
    pub fn is_null(&self) -> (r: bool)
        requires
            self.wf(),
        ensures
            r == (self@ == Map::<Tree, T>::empty()),
    {
        let r = self.root.buffer.len() == 0;
        proof {
            if r {
                assert(self@ =~= Map::<Tree, T>::empty());
            } else {
                let es = self.root.buffer@;
                let c = lemma_rank_select(self.root.bitmap, 32, 0);
                assert(placed_entry(es[0], 0, c));
                let off = lemma_entries_index(es, 0, 0, 0);
                lemma_stem_sound(self.root, 0, off);
                let k = stem_pairs(self.root, 0)[off].0@;
                assert(self@.contains_key(k));
            }
        }
        r
    }

    /// The value stored under a key equal to `k`. On a hit `k` is pointed at
    /// the stored key, so later comparisons of the two are a pointer test.
    pub fn lookup(&self, k: &mut Noun) -> (r: Option<T>) where T: Clone
        requires
            self.wf(),
            old(k).wf(),
        ensures
            final(k)@ == old(k)@,
            final(k).wf(),
            r is Some <==> self@.contains_key(old(k)@),
            r matches Some(v) ==> cloned(self@[old(k)@], v),
    {
        let ghost k0 = k@;
        let m = k.mug();
        let mut stem = &self.root;
        let mut d: usize = 0;
        loop
            invariant
                d <= 5,
                k@ == k0,
                k0 == old(k)@,
                k.wf(),
                m == mug(k0),
                stem_wf(*stem, d as nat),
                stem_get(*stem, k0, d as nat) == self.get(k0),
            decreases 5 - d,
        {
            let c = chunk_exec(m, d);
            if !bit_exec(stem.bitmap, c) {
                return None;
            }
            let i = rank_exec(stem.bitmap, c);
            proof {
                lemma_rank_mono(stem.bitmap, c as nat, 32);
            }
            match &stem.buffer[i] {
                Entry::Stem(s2) => {
                    stem = s2;
                    d = d + 1;
                },
                Entry::Leaf(ps) => {
                    let ghost pss = ps@;
                    return match find_key(ps, k) {
                        Some(j) => {
                            proof {
                                lemma_leaf_find(pss, j as int, k0);
                            }
                            Some((*ps[j].1).clone())
                        },
                        None => {
                            proof {
                                lemma_leaf_miss(pss, k0);
                            }
                            None
                        },
                    };
                },
            }
        }
    }
}

/// `s` with `k` bound to `v`, as a new stem: the path from `s` down to the
/// changed leaf is copied and every other subtree is shared.
fn insert_at<T>(s: &Stem<T>, k: &mut Noun, m: u32, v: Rc<T>, d: usize) -> (r: Stem<T>)
    requires
        d <= MAX_DEPTH,
        stem_wf(*s, d as nat),
        placed_stem(*s, d as nat),
        old(k).wf(),
        m == mug(old(k)@),
    ensures
        stem_wf(r, d as nat),
        placed_stem(r, d as nat),
        grows_by(stem_pairs(r, d as nat), stem_pairs(*s, d as nat), old(k)@),
        final(k)@ == old(k)@,
        final(k).wf(),
        forall|k2: Tree|
            stem_get(r, k2, d as nat) == if k2 == old(k)@ {
                Some(*v)
            } else {
                stem_get(*s, k2, d as nat)
            },
    decreases 6 - d, 2nat,
{
    let ghost k0 = k@;
    let c = chunk_exec(m, d);
    let bm = s.bitmap;
    let i = rank_exec(bm, c);
    proof {
        lemma_rank_mono(bm, c as nat, 32);
    }
    if !bit_exec(bm, c) {
        return fill_slot(s, &*k, v, c, i, d);
    }
    proof {
        assert(bit(bm, c as nat));
    }
    let e = insert_entry(&s.buffer[i], k, m, v, d);
    let mut buf = copy_entries(&s.buffer);
    buf.set(i, e);
    let r = Stem { bitmap: bm, buffer: Rc::new(buf) };
    proof {
        lemma_place_set(*s, r, c as nat, e, k0, d as nat);
        assert forall|k2: Tree|
            stem_get(r, k2, d as nat) == if k2 == k0 {
                Some(*v)
            } else {
                stem_get(*s, k2, d as nat)
            } by {
            if chunk(mug(k2), d as nat) != c as nat {
                lemma_get_set(*s, r, c as nat, e, k2, d as nat);
            } else {
                assert(r.buffer@[i as int] == e);
                assert(entry_get(e, k2, d as nat) == if k2 == k0 {
                    Some(*v)
                } else {
                    entry_get(s.buffer@[i as int], k2, d as nat)
                });
            }
        }
        assert forall|j: int| 0 <= j < r.buffer@.len() implies entry_wf(
            #[trigger] r.buffer@[j],
            d as nat,
        ) by {
            if j != i {
                assert(r.buffer@[j] == s.buffer@[j]);
            }
        }
    }
    r
}

/// `s` with its empty slot `c` filled by a one-pair leaf for `k`.
fn fill_slot<T>(s: &Stem<T>, k: &Noun, v: Rc<T>, c: u32, i: usize, d: usize) -> (r: Stem<T>)
    requires
        d <= MAX_DEPTH,
        stem_wf(*s, d as nat),
        placed_stem(*s, d as nat),
        k.wf(),
        c < 32,
        c as nat == chunk(mug(k@), d as nat),
        !bit(s.bitmap, c as nat),
        i as nat == rank(s.bitmap, c as nat),
    ensures
        stem_wf(r, d as nat),
        placed_stem(r, d as nat),
        grows_by(stem_pairs(r, d as nat), stem_pairs(*s, d as nat), k@),
        forall|k2: Tree|
            stem_get(r, k2, d as nat) == if k2 == k@ {
                Some(*v)
            } else {
                stem_get(*s, k2, d as nat)
            },
{
    let bm = s.bitmap;
    proof {
        lemma_rank_mono(bm, c as nat, 32);
    }
    let mut leaf: Vec<(Noun, Rc<T>)> = Vec::new();
    leaf.push((k.copy(), v));
    let e = Entry::Leaf(Rc::new(leaf));
    let mut buf = copy_entries(&s.buffer);
    buf.insert(i, e);
    let r = Stem { bitmap: bm | (1u32 << c), buffer: Rc::new(buf) };
    proof {
        lemma_rank_or(bm, c as nat, 32);
        assert(leaf@ =~= seq![(*k, v)]);
        lemma_place_fill(*s, r, c as nat, e, *k, v, d as nat);
        assert forall|k2: Tree|
            stem_get(r, k2, d as nat) == if k2 == k@ {
                Some(*v)
            } else {
                stem_get(*s, k2, d as nat)
            } by {
            lemma_get_fill(*s, r, c as nat, e, *k, v, k2, d as nat);
        }
        assert forall|j: int| 0 <= j < r.buffer@.len() implies entry_wf(
            #[trigger] r.buffer@[j],
            d as nat,
        ) by {
            if j < i {
                assert(r.buffer@[j] == s.buffer@[j]);
            } else if j > i {
                assert(r.buffer@[j] == s.buffer@[j - 1]);
            } else {
                assert(r.buffer@[j] == e);
                assert(leaf@[0] == (*k, v));
            }
        }
    }
    r
}

/// The slot entry `e` with `k` bound to `v`.
fn insert_entry<T>(e: &Entry<T>, k: &mut Noun, m: u32, v: Rc<T>, d: usize) -> (r: Entry<T>)
    requires
        d <= MAX_DEPTH,
        entry_wf(*e, d as nat),
        placed_entry(*e, d as nat, chunk(m, d as nat)),
        old(k).wf(),
        m == mug(old(k)@),
    ensures
        entry_wf(r, d as nat),
        placed_entry(r, d as nat, chunk(m, d as nat)),
        grows_by(entry_pairs(r, d as nat), entry_pairs(*e, d as nat), old(k)@),
        final(k)@ == old(k)@,
        final(k).wf(),
        forall|k2: Tree|
            entry_get(r, k2, d as nat) == if k2 == old(k)@ {
                Some(*v)
            } else {
                entry_get(*e, k2, d as nat)
            },
    decreases 6 - d, 1nat,
{
    let ghost k0 = k@;
    match e {
        Entry::Stem(s2) => {
            let r2 = insert_at(s2, k, m, v, d + 1);
            proof {
                let c = chunk(m, d as nat);
                assert(entry_pairs(Entry::Stem(r2), d as nat) == stem_pairs(r2, (d + 1) as nat));
                assert(entry_pairs(*e, d as nat) == stem_pairs(*s2, (d + 1) as nat));
                assert(all_chunk(stem_pairs(r2, (d + 1) as nat), d as nat, c));
                assert(stem_get(r2, k0, (d + 1) as nat) == Some(*v));
                lemma_stem_hit(r2, k0, (d + 1) as nat);
                assert forall|k2: Tree|
                    entry_get(Entry::Stem(r2), k2, d as nat) == if k2 == k0 {
                        Some(*v)
                    } else {
                        entry_get(*e, k2, d as nat)
                    } by {
                    assert(stem_get(r2, k2, (d + 1) as nat) == if k2 == k0 {
                        Some(*v)
                    } else {
                        stem_get(*s2, k2, (d + 1) as nat)
                    });
                }
            }
            Entry::Stem(r2)
        },
        Entry::Leaf(ps) => {
            let ghost pss = ps@;
            match find_key(ps, k) {
                Some(j) => {
                    let mut nps = copy_pairs(ps);
                    nps.set(j, (ps[j].0.copy(), v));
                    proof {
                        lemma_place_leaf_update(pss, j as int, v);
                        assert(nps@ == pss.update(j as int, (pss[j as int].0, v)));
                        assert forall|k2: Tree|
                            leaf_get(nps@, k2) == if k2 == k0 {
                                Some(*v)
                            } else {
                                leaf_get(pss, k2)
                            } by {
                            lemma_leaf_update(pss, j as int, k0, v, k2);
                        }
                        assert forall|jj: int| 0 <= jj < nps@.len() implies (#[trigger] nps@[jj]).0.wf() by {
                            assert(nps@[jj].0 == pss[jj].0);
                        }
                    }
                    Entry::Leaf(Rc::new(nps))
                },
                None => {
                    if d >= MAX_DEPTH {
                        let mut nps = copy_pairs(ps);
                        nps.push((k.copy(), v));
                        proof {
                            lemma_place_leaf_push(pss, *k, v);
                            assert forall|k2: Tree|
                                leaf_get(nps@, k2) == if k2 == k0 {
                                    Some(*v)
                                } else {
                                    leaf_get(pss, k2)
                                } by {
                                lemma_leaf_push(pss, *k, v, k2);
                            }
                            assert forall|jj: int| 0 <= jj < nps@.len() implies (#[trigger] nps@[jj]).0.wf() by {
                                if jj < pss.len() {
                                    assert(nps@[jj] == pss[jj]);
                                }
                            }
                        }
                        Entry::Leaf(Rc::new(nps))
                    } else {
                        split_leaf(ps, k, m, v, d)
                    }
                },
            }
        },
    }
}

/// A one-pair leaf above the deepest level that meets a second key: the leaf
/// moves into a new stem one level down, and `k` is inserted there.
fn split_leaf<T>(ps: &Rc<Vec<(Noun, Rc<T>)>>, k: &mut Noun, m: u32, v: Rc<T>, d: usize) -> (r: Entry<T>)
    requires
        d < MAX_DEPTH,
        leaf_wf(ps@, d as nat),
        leaf_unique(ps@),
        all_chunk(leaf_pairs(ps@), d as nat, chunk(m, d as nat)),
        old(k).wf(),
        m == mug(old(k)@),
    ensures
        entry_wf(r, d as nat),
        placed_entry(r, d as nat, chunk(m, d as nat)),
        grows_by(entry_pairs(r, d as nat), leaf_pairs(ps@), old(k)@),
        final(k)@ == old(k)@,
        final(k).wf(),
        forall|k2: Tree|
            entry_get(r, k2, d as nat) == if k2 == old(k)@ {
                Some(*v)
            } else {
                leaf_get(ps@, k2)
            },
    decreases 6 - d, 0nat,
{
    let ghost k0 = k@;
    let om = ps[0].0.mug();
    let oc = chunk_exec(om, d + 1);
    let mut b1: Vec<Entry<T>> = Vec::new();
    b1.push(Entry::Leaf(Rc::clone(ps)));
    let fake = Stem { bitmap: 1u32 << oc, buffer: Rc::new(b1) };
    proof {
        let x = 1u32 << oc;
        assert((0u32 | x) == x) by (bit_vector);
        lemma_bit_zero(oc as nat);
        lemma_rank_or(0u32, oc as nat, 32);
        lemma_rank_zero(32);
        assert(b1@ =~= seq![Entry::Leaf(*ps)]);
        assert(entry_wf(fake.buffer@[0], (d + 1) as nat));
        assert(all_chunk(leaf_pairs(ps@), (d + 1) as nat, oc as nat)) by {
            assert(leaf_pairs(ps@)[0].0 == ps@[0].0);
        }
        assert forall|c2: nat| c2 < 32 && #[trigger] bit(fake.bitmap, c2) implies placed_entry(
            fake.buffer@[rank(fake.bitmap, c2) as int],
            (d + 1) as nat,
            c2,
        ) by {
            lemma_bit_or(0u32, oc as nat, c2);
            lemma_bit_zero(c2);
            lemma_rank_or(0u32, oc as nat, c2);
            lemma_rank_zero(c2);
        }
        lemma_ep_single(Entry::Leaf(*ps), (d + 1) as nat);
    }
    let r2 = insert_at(&fake, k, m, v, d + 1);
    proof {
        let c = chunk(m, d as nat);
        assert(stem_pairs(fake, (d + 1) as nat) == leaf_pairs(ps@));
        assert(all_chunk(stem_pairs(r2, (d + 1) as nat), d as nat, c));
        assert(entry_pairs(Entry::Stem(r2), d as nat) == stem_pairs(r2, (d + 1) as nat));
        assert(stem_get(r2, k0, (d + 1) as nat) == Some(*v));
        lemma_stem_hit(r2, k0, (d + 1) as nat);
        assert forall|k2: Tree|
            stem_get(r2, k2, (d + 1) as nat) == if k2 == k0 {
                Some(*v)
            } else {
                leaf_get(ps@, k2)
            } by {
            lemma_get_single(fake, *ps, oc as nat, k2, (d + 1) as nat);
        }
    }
    Entry::Stem(r2)
}

impl<T> Hamt<T> {
    /// A new map with `k` bound to `t`, replacing any value under an equal key.
    /// `self` is unchanged and shares every untouched subtree with the result.
    pub fn insert(&self, k: &mut Noun, t: T) -> (r: Hamt<T>)
        requires
            self.wf(),
            old(k).wf(),
        ensures
            r.wf(),
            final(k)@ == old(k)@,
            final(k).wf(),
            r@ == self@.insert(old(k)@, t),
    {
        let m = k.mug();
        let ghost k0 = k@;
        let root = insert_at(&self.root, k, m, Rc::new(t), 0);
        let r = Hamt { root };
        proof {
            assert(r@ =~= self@.insert(k0, t));
        }
        r
    }
}

/// The first pair whose key equals `k` decides the lookup.
proof fn lemma_leaf_find<T>(ps: Seq<(Noun, Rc<T>)>, j: int, k: Tree)
    requires
        0 <= j < ps.len(),
        ps[j].0@ == k,
        forall|i: int| 0 <= i < j ==> (#[trigger] ps[i]).0@ != k,
    ensures
        leaf_get(ps, k) == Some(*ps[j].1),
    decreases j,
{
    if j > 0 {
        assert forall|i: int| 0 <= i < j - 1 implies (#[trigger] ps.drop_first()[i]).0@ != k by {
            assert(ps.drop_first()[i] == ps[i + 1]);
        }
        lemma_leaf_find(ps.drop_first(), j - 1, k);
    }
}

/// A leaf without the key finds nothing.
proof fn lemma_leaf_miss<T>(ps: Seq<(Noun, Rc<T>)>, k: Tree)
    requires
        forall|i: int| 0 <= i < ps.len() ==> (#[trigger] ps[i]).0@ != k,
    ensures
        leaf_get(ps, k) is None,
    decreases ps.len(),
{
    if ps.len() > 0 {
        assert(ps[0].0@ != k);
        assert forall|i: int| 0 <= i < ps.len() - 1 implies (#[trigger] ps.drop_first()[i]).0@ != k by {
            assert(ps.drop_first()[i] == ps[i + 1]);
        }
        lemma_leaf_miss(ps.drop_first(), k);
    }
}

/// Inserting `k1` leaves the lookup of every other key as it was, and a
/// lookup of `k1` then finds the inserted value.
pub proof fn lemma_insert_persistence<T>(m: Hamt<T>, k1: Tree, k2: Tree, v: T)
    requires
        k1 != k2,
    ensures
        m@.insert(k1, v).contains_key(k2) == m@.contains_key(k2),
        m@.contains_key(k2) ==> m@.insert(k1, v)[k2] == m@[k2],
        m@.insert(k1, v).contains_key(k1),
        m@.insert(k1, v)[k1] == v,
{
}

/// Inserting a key twice gives the map of inserting its second value only.
pub proof fn lemma_insert_twice<T>(m: Hamt<T>, k: Tree, v1: T, v2: T)
    ensures
        m@.insert(k, v1).insert(k, v2) == m@.insert(k, v2),
{
    assert(m@.insert(k, v1).insert(k, v2) =~= m@.insert(k, v2));
}

impl<T> Default for Hamt<T> {
    /// The empty map.
    fn default() -> (r: Self)
        ensures
            r.wf(),
            r@ == Map::<Tree, T>::empty(),
    {
        Hamt::new()
    }
}

/// A map updated in place, for building a table once. It keeps no older
/// versions: each insert replaces the map it was made on.
pub struct MutHamt<T> {
    map: Hamt<T>,
}

impl<T> MutHamt<T> {
    pub closed spec fn view(self) -> Map<Tree, T> {
        self.map@
    }

    pub closed spec fn wf(self) -> bool {
        self.map.wf()
    }

    /// The empty map.
    pub fn new() -> (r: Self)
        ensures
            r.wf(),
            r@ == Map::<Tree, T>::empty(),
    {
        MutHamt { map: Hamt::new() }
    }

    /// The value stored under a key equal to `k`; on a hit `k` is pointed at
    /// the stored key.
    pub fn lookup(&self, k: &mut Noun) -> (r: Option<T>) where T: Clone
        requires
            self.wf(),
            old(k).wf(),
        ensures
            final(k)@ == old(k)@,
            final(k).wf(),
            r is Some <==> self@.contains_key(old(k)@),
            r matches Some(v) ==> cloned(self@[old(k)@], v),
    {
        self.map.lookup(k)
    }

    /// Binds `k` to `t`, replacing any value under an equal key.
    pub fn insert(&mut self, k: &mut Noun, t: T)
        requires
            old(self).wf(),
            old(k).wf(),
        ensures
            final(self).wf(),
            final(k)@ == old(k)@,
            final(k).wf(),
            final(self)@ == old(self)@.insert(old(k)@, t),
    {
        self.map = self.map.insert(k, t);
    }

    /// The map as a persistent one.
    pub fn freeze(self) -> (r: Hamt<T>)
        requires
            self.wf(),
        ensures
            r.wf(),
            r@ == self@,
    {
        self.map
    }
}

/// The pairs held below a stem, slot by slot in slot order, each leaf's
/// pairs in their stored order: the order of iteration.
pub open spec fn stem_pairs<T>(s: Stem<T>, d: nat) -> Seq<(Noun, T)>
    decreases 6 - d, 2nat, 0nat,
{
    entries_pairs(s.buffer@, d)
}

pub open spec fn entries_pairs<T>(es: Seq<Entry<T>>, d: nat) -> Seq<(Noun, T)>
    decreases 6 - d, 1nat, es.len(),
{
    if es.len() == 0 {
        Seq::empty()
    } else {
        entries_pairs(es.drop_last(), d) + entry_pairs(es.last(), d)
    }
}

/// The pairs of a leaf, values taken out of their shared cells.
pub open spec fn leaf_pairs<T>(ps: Seq<(Noun, Rc<T>)>) -> Seq<(Noun, T)> {
    ps.map_values(|p: (Noun, Rc<T>)| (p.0, *p.1))
}

pub open spec fn entry_pairs<T>(e: Entry<T>, d: nat) -> Seq<(Noun, T)>
    decreases 6 - d, 0nat, 0nat,
{
    match e {
        Entry::Leaf(ps) => leaf_pairs(ps@),
        Entry::Stem(s2) => if d < 5 {
            stem_pairs(s2, d + 1)
        } else {
            Seq::empty()
        },
    }
}

/// `a` holds the pairs of `b`: the same keys, and clones of the values.
pub open spec fn clones_of<T: Clone>(a: Seq<(Noun, T)>, b: Seq<(Noun, T)>) -> bool {
    &&& a.len() == b.len()
    &&& forall|i: int| 0 <= i < a.len() ==> (#[trigger] a[i]).0 == b[i].0 && cloned(b[i].1, a[i].1)
}

proof fn lemma_clones_append<T: Clone>(a: Seq<(Noun, T)>, b: Seq<(Noun, T)>, c: Seq<(Noun, T)>, e: Seq<(Noun, T)>)
    requires
        clones_of(a, b),
        clones_of(c, e),
    ensures
        clones_of(a + c, b + e),
{
    assert forall|i: int| 0 <= i < (a + c).len() implies (#[trigger] (a + c)[i]).0 == (b + e)[i].0
        && cloned((b + e)[i].1, (a + c)[i].1) by {
        if i >= a.len() {
            assert((a + c)[i] == c[i - a.len()]);
            assert((b + e)[i] == e[i - a.len()]);
        }
    }
}

fn collect_leaf<T: Clone>(ps: &Vec<(Noun, Rc<T>)>, out: &mut Vec<(Noun, T)>) -> (added: Ghost<Seq<(Noun, T)>>)
    ensures
        final(out)@ == old(out)@ + added@,
        clones_of(added@, leaf_pairs(ps@)),
{
    let ghost start = out@;
    let ghost want = leaf_pairs(ps@);
    let mut i: usize = 0;
    while i < ps.len()
        invariant
            i <= ps@.len(),
            start.len() <= out@.len(),
            out@.subrange(0, start.len() as int) == start,
            want == leaf_pairs(ps@),
            clones_of(out@.subrange(start.len() as int, out@.len() as int), want.subrange(0, i as int)),
        decreases ps@.len() - i,
    {
        let k = ps[i].0.copy();
        let v = (*ps[i].1).clone();
        let ghost before = out@;
        out.push((k, v));
        proof {
            let a = out@.subrange(start.len() as int, out@.len() as int);
            let a0 = before.subrange(start.len() as int, before.len() as int);
            assert(a =~= a0.push((k, v)));
            assert(want.subrange(0, i + 1) =~= want.subrange(0, i as int).push(want[i as int]));
            assert(out@.subrange(0, start.len() as int) =~= before.subrange(0, start.len() as int));
            assert(clones_of(seq![(k, v)], seq![want[i as int]]));
            lemma_clones_append(a0, want.subrange(0, i as int), seq![(k, v)], seq![want[i as int]]);
            assert(a0 + seq![(k, v)] =~= a);
            assert(want.subrange(0, i as int) + seq![want[i as int]] =~= want.subrange(0, i + 1));
        }
        i = i + 1;
    }
    let ghost added = out@.subrange(start.len() as int, out@.len() as int);
    proof {
        assert(out@ =~= start + added);
        assert(want.subrange(0, ps@.len() as int) =~= want);
    }
    Ghost(added)
}


fn collect_entry<T: Clone>(e: &Entry<T>, d: usize, out: &mut Vec<(Noun, T)>) -> (added: Ghost<Seq<(Noun, T)>>)
    requires
        d <= MAX_DEPTH,
    ensures
        final(out)@ == old(out)@ + added@,
        clones_of(added@, entry_pairs(*e, d as nat)),
    decreases 6 - d, 0nat,
{
    match e {
        Entry::Leaf(ps) => collect_leaf(ps, out),
        Entry::Stem(s2) => {
            if d < MAX_DEPTH {
                collect_stem(s2, d + 1, out)
            } else {
                proof {
                    assert(out@ =~= out@ + Seq::<(Noun, T)>::empty());
                }
                Ghost(Seq::empty())
            }
        },
    }
}

fn collect_stem<T: Clone>(s: &Stem<T>, d: usize, out: &mut Vec<(Noun, T)>) -> (added: Ghost<Seq<(Noun, T)>>)
    requires
        d <= MAX_DEPTH,
    ensures
        final(out)@ == old(out)@ + added@,
        clones_of(added@, stem_pairs(*s, d as nat)),
    decreases 6 - d, 1nat,
{
    let ghost start = out@;
    let ghost mut acc: Seq<(Noun, T)> = Seq::empty();
    let mut i: usize = 0;
    proof {
        assert(s.buffer@.take(0) =~= Seq::<Entry<T>>::empty());
        assert(start + acc =~= start);
    }
    while i < s.buffer.len()
        invariant
            i <= s.buffer@.len(),
            d <= MAX_DEPTH,
            out@ == start + acc,
            clones_of(acc, entries_pairs(s.buffer@.take(i as int), d as nat)),
        decreases s.buffer@.len() - i,
    {
        let more = collect_entry(&s.buffer[i], d, out);
        proof {
            let t1 = s.buffer@.take(i + 1);
            assert(t1.drop_last() =~= s.buffer@.take(i as int));
            assert(t1.last() == s.buffer@[i as int]);
            lemma_clones_append(
                acc,
                entries_pairs(s.buffer@.take(i as int), d as nat),
                more@,
                entry_pairs(s.buffer@[i as int], d as nat),
            );
            acc = acc + more@;
            assert(out@ =~= start + acc);
        }
        i = i + 1;
    }
    proof {
        assert(s.buffer@.take(s.buffer@.len() as int) =~= s.buffer@);
    }
    Ghost(acc)
}

/// The pairs of a map, handed out one at a time in trie order.
pub struct HamtIterator<T> {
    pairs: Vec<(Noun, T)>,
    pos: usize,
}

impl<T> HamtIterator<T> {
    /// The pairs not yet handed out.
    pub closed spec fn rest(&self) -> Seq<(Noun, T)> {
        if self.pos >= self.pairs@.len() {
            Seq::empty()
        } else {
            self.pairs@.skip(self.pos as int)
        }
    }

    /// The next pair, or `None` when all were handed out.
    pub fn next(&mut self) -> (r: Option<(Noun, T)>) where T: Clone
        ensures
            old(self).rest().len() == 0 ==> r is None && final(self).rest() == old(self).rest(),
            old(self).rest().len() > 0 ==> (r matches Some(p) && p.0 == old(self).rest()[0].0
                && cloned(old(self).rest()[0].1, p.1) && final(self).rest() == old(
                self,
            ).rest().drop_first()),
    {
        if self.pos >= self.pairs.len() {
            return None;
        }
        let k = self.pairs[self.pos].0.copy();
        let v = self.pairs[self.pos].1.clone();
        proof {
            assert(self.pairs@.skip(self.pos as int)[0] == self.pairs@[self.pos as int]);
            assert(self.pairs@.skip(self.pos as int).drop_first() =~= self.pairs@.skip(self.pos + 1));
            if self.pos + 1 >= self.pairs@.len() {
                assert(self.pairs@.skip(self.pos + 1) =~= Seq::<(Noun, T)>::empty());
            }
        }
        self.pos = self.pos + 1;
        Some((k, v))
    }
}

impl<T: Clone> Hamt<T> {
    /// Every stored pair, in trie order: slot by slot from the root down. The
    /// order is that of the hashes, not of insertion.
    pub closed spec fn pairs(self) -> Seq<(Noun, T)> {
        stem_pairs(self.root, 0)
    }

    /// An iterator over the stored pairs, in trie order.
    pub fn into_iter(&self) -> (r: HamtIterator<T>)
        ensures
            clones_of(r.rest(), self.pairs()),
    {
        let mut out: Vec<(Noun, T)> = Vec::new();
        let added = collect_stem(&self.root, 0, &mut out);
        proof {
            assert(out@ =~= added@);
            assert(out@.skip(0) =~= out@);
        }
        HamtIterator { pairs: out, pos: 0 }
    }
}

/// Where a pair of one slot entry stands among the pairs of all entries.
proof fn lemma_entries_index<T>(es: Seq<Entry<T>>, d: nat, i: int, j: int) -> (off: int)
    requires
        0 <= i < es.len(),
        0 <= j < entry_pairs(es[i], d).len(),
    ensures
        0 <= off < entries_pairs(es, d).len(),
        entries_pairs(es, d)[off] == entry_pairs(es[i], d)[j],
    decreases es.len(),
{
    let front = entries_pairs(es.drop_last(), d);
    if i == es.len() - 1 {
        front.len() + j
    } else {
        assert(es.drop_last()[i] == es[i]);
        lemma_entries_index(es.drop_last(), d, i, j)
    }
}

/// A hit in a leaf is one of its pairs.
proof fn lemma_leaf_hit<T>(ps: Seq<(Noun, Rc<T>)>, k: Tree) -> (j: int)
    requires
        leaf_get(ps, k) is Some,
    ensures
        0 <= j < ps.len(),
        ps[j].0@ == k,
        Some(*ps[j].1) == leaf_get(ps, k),
    decreases ps.len(),
{
    if ps[0].0@ == k {
        0
    } else {
        let j = lemma_leaf_hit(ps.drop_first(), k);
        j + 1
    }
}

/// A hit below a stem is one of the pairs that iteration hands out.
proof fn lemma_stem_hit<T>(s: Stem<T>, k: Tree, d: nat) -> (off: int)
    requires
        stem_get(s, k, d) is Some,
    ensures
        0 <= off < stem_pairs(s, d).len(),
        stem_pairs(s, d)[off].0@ == k,
        Some(stem_pairs(s, d)[off].1) == stem_get(s, k, d),
    decreases 6 - d, 1nat,
{
    let c = chunk(mug(k), d);
    let i = rank(s.bitmap, c) as int;
    let e = s.buffer@[i];
    let j = lemma_entry_hit(e, k, d);
    lemma_entries_index(s.buffer@, d, i, j)
}

proof fn lemma_entry_hit<T>(e: Entry<T>, k: Tree, d: nat) -> (j: int)
    requires
        d <= 5,
        entry_get(e, k, d) is Some,
    ensures
        0 <= j < entry_pairs(e, d).len(),
        entry_pairs(e, d)[j].0@ == k,
        Some(entry_pairs(e, d)[j].1) == entry_get(e, k, d),
    decreases 6 - d, 0nat,
{
    match e {
        Entry::Leaf(ps) => lemma_leaf_hit(ps@, k),
        Entry::Stem(s2) => lemma_stem_hit(s2, k, d + 1),
    }
}

/// Iteration covers the map: every key of it is handed out, with its value.
pub proof fn lemma_pairs_cover<T: Clone>(m: Hamt<T>, k: Tree)
    requires
        m@.contains_key(k),
    ensures
        exists|i: int| 0 <= i < m.pairs().len() && m.pairs()[i].0@ == k && m.pairs()[i].1 == m@[k],
{
    let off = lemma_stem_hit(m.root, k, 0);
    assert(m.pairs()[off].0@ == k);
}

/// Every key of `ps` has hash chunk `x` at depth `t`.
pub open spec fn all_chunk<T>(ps: Seq<(Noun, T)>, t: nat, x: nat) -> bool {
    forall|j: int| 0 <= j < ps.len() ==> chunk(mug((#[trigger] ps[j]).0@), t) == x
}

/// No key stands twice in a leaf.
pub open spec fn leaf_unique<T>(ps: Seq<(Noun, Rc<T>)>) -> bool {
    forall|i: int, j: int| 0 <= i < j < ps.len() ==> (#[trigger] ps[i]).0@ != (#[trigger] ps[j]).0@
}

/// Entry `e`, which fills slot `c` of a stem at depth `d`, holds at least one
/// pair; every key below it has hash chunk `c` there, and so on down; no leaf
/// holds a key twice.
pub open spec fn placed_entry<T>(e: Entry<T>, d: nat, c: nat) -> bool
    decreases 6 - d, 0nat,
{
    &&& entry_pairs(e, d).len() > 0
    &&& all_chunk(entry_pairs(e, d), d, c)
    &&& match e {
        Entry::Leaf(ps) => leaf_unique(ps@),
        Entry::Stem(s2) => d < 5 ==> placed_stem(s2, d + 1),
    }
}

/// Every occupied slot of the stem holds only keys that hash to it.
pub open spec fn placed_stem<T>(s: Stem<T>, d: nat) -> bool
    decreases 6 - d, 1nat,
{
    forall|c: nat|
        c < 32 && #[trigger] bit(s.bitmap, c) ==> placed_entry(
            s.buffer@[rank(s.bitmap, c) as int],
            d,
            c,
        )
}

proof fn lemma_ep_concat<T>(a: Seq<Entry<T>>, b: Seq<Entry<T>>, d: nat)
    ensures
        entries_pairs(a + b, d) == entries_pairs(a, d) + entries_pairs(b, d),
    decreases b.len(),
{
    if b.len() == 0 {
        assert(a + b =~= a);
        assert(entries_pairs(a, d) + entries_pairs(b, d) =~= entries_pairs(a, d));
    } else {
        assert((a + b).drop_last() =~= a + b.drop_last());
        assert((a + b).last() == b.last());
        lemma_ep_concat(a, b.drop_last(), d);
        assert(entries_pairs(a + b, d) =~= entries_pairs(a, d) + entries_pairs(b, d));
    }
}

proof fn lemma_ep_single<T>(e: Entry<T>, d: nat)
    ensures
        entries_pairs(seq![e], d) == entry_pairs(e, d),
{
    assert(seq![e].drop_last() =~= Seq::<Entry<T>>::empty());
    assert(seq![e].last() == e);
    assert(entries_pairs(Seq::<Entry<T>>::empty(), d) == Seq::<(Noun, T)>::empty());
    assert(entries_pairs(seq![e], d) == entries_pairs(seq![e].drop_last(), d) + entry_pairs(
        seq![e].last(),
        d,
    ));
    assert(Seq::<(Noun, T)>::empty() + entry_pairs(e, d) =~= entry_pairs(e, d));
}

proof fn lemma_all_chunk_concat<T>(p: Seq<(Noun, T)>, q: Seq<(Noun, T)>, t: nat, x: nat)
    ensures
        all_chunk(p + q, t, x) == (all_chunk(p, t, x) && all_chunk(q, t, x)),
{
    if all_chunk(p + q, t, x) {
        assert forall|j: int| 0 <= j < q.len() implies chunk(mug((#[trigger] q[j]).0@), t) == x by {
            assert((p + q)[p.len() + j] == q[j]);
        }
        assert forall|j: int| 0 <= j < p.len() implies chunk(mug((#[trigger] p[j]).0@), t) == x by {
            assert((p + q)[j] == p[j]);
        }
    }
    if all_chunk(p, t, x) && all_chunk(q, t, x) {
        assert forall|j: int| 0 <= j < (p + q).len() implies chunk(mug((#[trigger] (p + q)[j]).0@), t)
            == x by {
            if j < p.len() {
                assert((p + q)[j] == p[j]);
            } else {
                assert((p + q)[j] == q[j - p.len()]);
            }
        }
    }
}

/// The pairs of the entries with entry `i` replaced by `e`, in three parts.
proof fn lemma_ep_update<T>(es: Seq<Entry<T>>, i: int, e: Entry<T>, d: nat)
    requires
        0 <= i < es.len(),
    ensures
        entries_pairs(es, d) == entries_pairs(es.take(i), d) + entry_pairs(es[i], d) + entries_pairs(
            es.skip(i + 1),
            d,
        ),
        entries_pairs(es.update(i, e), d) == entries_pairs(es.take(i), d) + entry_pairs(e, d)
            + entries_pairs(es.skip(i + 1), d),
{
    assert(es =~= es.take(i) + seq![es[i]] + es.skip(i + 1));
    assert(es.update(i, e) =~= es.take(i) + seq![e] + es.skip(i + 1));
    lemma_ep_concat(es.take(i) + seq![es[i]], es.skip(i + 1), d);
    lemma_ep_concat(es.take(i), seq![es[i]], d);
    lemma_ep_concat(es.take(i) + seq![e], es.skip(i + 1), d);
    lemma_ep_concat(es.take(i), seq![e], d);
    lemma_ep_single(es[i], d);
    lemma_ep_single(e, d);
}

/// The pairs of the entries with `e` put in at `i`, in three parts.
proof fn lemma_ep_insert<T>(es: Seq<Entry<T>>, i: int, e: Entry<T>, d: nat)
    requires
        0 <= i <= es.len(),
    ensures
        entries_pairs(es, d) == entries_pairs(es.take(i), d) + entries_pairs(es.skip(i), d),
        entries_pairs(es.insert(i, e), d) == entries_pairs(es.take(i), d) + entry_pairs(e, d)
            + entries_pairs(es.skip(i), d),
{
    assert(es =~= es.take(i) + es.skip(i));
    assert(es.insert(i, e) =~= es.take(i) + seq![e] + es.skip(i));
    lemma_ep_concat(es.take(i), es.skip(i), d);
    lemma_ep_concat(es.take(i) + seq![e], es.skip(i), d);
    lemma_ep_concat(es.take(i), seq![e], d);
    lemma_ep_single(e, d);
}

/// Inserting `k` keeps every hash-chunk agreement that all old keys and `k` share.
pub open spec fn grows_by<T>(new: Seq<(Noun, T)>, old: Seq<(Noun, T)>, k: Tree) -> bool {
    forall|t: nat, x: nat| all_chunk(old, t, x) && chunk(mug(k), t) == x ==> #[trigger] all_chunk(new, t, x)
}

proof fn lemma_place_leaf_update<T>(ps: Seq<(Noun, Rc<T>)>, j: int, v: Rc<T>)
    requires
        0 <= j < ps.len(),
    ensures
        leaf_unique(ps.update(j, (ps[j].0, v))) == leaf_unique(ps),
        forall|t: nat, x: nat|
            #[trigger] all_chunk(leaf_pairs(ps.update(j, (ps[j].0, v))), t, x) == all_chunk(
                leaf_pairs(ps),
                t,
                x,
            ),
{
    let u = ps.update(j, (ps[j].0, v));
    assert forall|i: int| 0 <= i < ps.len() implies (#[trigger] u[i]).0 == ps[i].0 by {}
    assert forall|t: nat, x: nat| #[trigger] all_chunk(leaf_pairs(u), t, x) == all_chunk(leaf_pairs(ps), t, x) by {
        if all_chunk(leaf_pairs(u), t, x) {
            assert forall|i: int| 0 <= i < leaf_pairs(ps).len() implies chunk(mug((#[trigger] leaf_pairs(ps)[i]).0@), t) == x by {
                assert(leaf_pairs(u)[i].0 == u[i].0);
            }
        }
        if all_chunk(leaf_pairs(ps), t, x) {
            assert forall|i: int| 0 <= i < leaf_pairs(u).len() implies chunk(mug((#[trigger] leaf_pairs(u)[i]).0@), t) == x by {
                assert(leaf_pairs(ps)[i].0 == ps[i].0);
            }
        }
    }
    if leaf_unique(ps) {
        assert forall|a: int, b: int| 0 <= a < b < u.len() implies (#[trigger] u[a]).0@ != (#[trigger] u[b]).0@ by {
            assert(ps[a].0@ != ps[b].0@);
        }
    }
    if leaf_unique(u) {
        assert forall|a: int, b: int| 0 <= a < b < ps.len() implies (#[trigger] ps[a]).0@ != (#[trigger] ps[b]).0@ by {
            assert(u[a].0@ != u[b].0@);
        }
    }
}

proof fn lemma_place_leaf_push<T>(ps: Seq<(Noun, Rc<T>)>, kn: Noun, v: Rc<T>)
    requires
        leaf_unique(ps),
        forall|i: int| 0 <= i < ps.len() ==> (#[trigger] ps[i]).0@ != kn@,
    ensures
        leaf_unique(ps.push((kn, v))),
        forall|t: nat, x: nat|
            #[trigger] all_chunk(leaf_pairs(ps.push((kn, v))), t, x) == (all_chunk(
                leaf_pairs(ps),
                t,
                x,
            ) && chunk(mug(kn@), t) == x),
{
    let u = ps.push((kn, v));
    assert(leaf_pairs(u) =~= leaf_pairs(ps).push((kn, *v)));
    assert forall|t: nat, x: nat| #[trigger] all_chunk(leaf_pairs(u), t, x) == (all_chunk(leaf_pairs(ps), t, x)
        && chunk(mug(kn@), t) == x) by {
        lemma_all_chunk_concat(leaf_pairs(ps), seq![(kn, *v)], t, x);
        assert(leaf_pairs(ps) + seq![(kn, *v)] =~= leaf_pairs(u));
        if all_chunk(seq![(kn, *v)], t, x) {
            assert(seq![(kn, *v)][0].0 == kn);
        }
    }
    assert forall|a: int, b: int| 0 <= a < b < u.len() implies (#[trigger] u[a]).0@ != (#[trigger] u[b]).0@ by {
        if b == ps.len() {
            assert(u[a] == ps[a]);
        } else {
            assert(ps[a].0@ != ps[b].0@);
        }
    }
}

/// Filling an empty slot keeps every key in its slot.
proof fn lemma_place_fill<T>(s: Stem<T>, r: Stem<T>, c: nat, e: Entry<T>, kn: Noun, v: Rc<T>, d: nat)
    requires
        d <= 5,
        c < 32,
        !bit(s.bitmap, c),
        stem_wf(s, d),
        placed_stem(s, d),
        c == chunk(mug(kn@), d),
        e matches Entry::Leaf(ps) && ps@ == seq![(kn, v)],
        r.bitmap == s.bitmap | (1u32 << (c as u32)),
        r.buffer@ == s.buffer@.insert(rank(s.bitmap, c) as int, e),
    ensures
        placed_stem(r, d),
        grows_by(stem_pairs(r, d), stem_pairs(s, d), kn@),
{
    let bm = s.bitmap;
    let i = rank(bm, c) as int;
    lemma_rank_mono(bm, c, 32);
    let ps = e->Leaf_0;
    assert(leaf_pairs(ps@) =~= seq![(kn, *v)]);
    assert(all_chunk(leaf_pairs(ps@), d, c)) by {
        assert(leaf_pairs(ps@)[0].0 == kn);
    }
    assert(leaf_unique(ps@));
    assert forall|c2: nat| c2 < 32 && #[trigger] bit(r.bitmap, c2) implies placed_entry(
        r.buffer@[rank(r.bitmap, c2) as int],
        d,
        c2,
    ) by {
        lemma_bit_or(bm, c, c2);
        lemma_rank_or(bm, c, c2);
        if c2 == c {
            assert(r.buffer@[i] == e);
        } else {
            if c2 < c {
                lemma_rank_mono(bm, c2, c);
            } else {
                lemma_rank_mono(bm, c, c2);
            }
            lemma_rank_mono(bm, c2, 32);
        }
    }
    lemma_ep_insert(s.buffer@, i, e, d);
    let a = entries_pairs(s.buffer@.take(i), d);
    let b = entries_pairs(s.buffer@.skip(i), d);
    assert forall|t: nat, x: nat| all_chunk(stem_pairs(s, d), t, x) && chunk(mug(kn@), t) == x implies #[trigger] all_chunk(
        stem_pairs(r, d),
        t,
        x,
    ) by {
        lemma_all_chunk_concat(a, b, t, x);
        lemma_all_chunk_concat(a, entry_pairs(e, d), t, x);
        lemma_all_chunk_concat(a + entry_pairs(e, d), b, t, x);
        assert(entry_pairs(e, d)[0].0 == kn);
    }
}

/// Replacing the entry of occupied slot `c` by one that keeps its keys in
/// the slot keeps every key in its slot.
proof fn lemma_place_set<T>(s: Stem<T>, r: Stem<T>, c: nat, e: Entry<T>, k: Tree, d: nat)
    requires
        d <= 5,
        c < 32,
        bit(s.bitmap, c),
        stem_wf(s, d),
        placed_stem(s, d),
        placed_entry(e, d, c),
        grows_by(entry_pairs(e, d), entry_pairs(s.buffer@[rank(s.bitmap, c) as int], d), k),
        r.bitmap == s.bitmap,
        r.buffer@ == s.buffer@.update(rank(s.bitmap, c) as int, e),
    ensures
        placed_stem(r, d),
        grows_by(stem_pairs(r, d), stem_pairs(s, d), k),
{
    let bm = s.bitmap;
    let i = rank(bm, c) as int;
    lemma_rank_mono(bm, c, 32);
    assert forall|c2: nat| c2 < 32 && #[trigger] bit(r.bitmap, c2) implies placed_entry(
        r.buffer@[rank(r.bitmap, c2) as int],
        d,
        c2,
    ) by {
        if c2 != c {
            if c2 < c {
                lemma_rank_mono(bm, c2, c);
            } else {
                lemma_rank_mono(bm, c, c2);
            }
            lemma_rank_mono(bm, c2, 32);
        }
    }
    let old_e = s.buffer@[i];
    lemma_ep_update(s.buffer@, i, e, d);
    let a = entries_pairs(s.buffer@.take(i), d);
    let b = entries_pairs(s.buffer@.skip(i + 1), d);
    assert forall|t: nat, x: nat| all_chunk(stem_pairs(s, d), t, x) && chunk(mug(k), t) == x implies #[trigger] all_chunk(
        stem_pairs(r, d),
        t,
        x,
    ) by {
        lemma_all_chunk_concat(a, entry_pairs(old_e, d), t, x);
        lemma_all_chunk_concat(a + entry_pairs(old_e, d), b, t, x);
        lemma_all_chunk_concat(a, entry_pairs(e, d), t, x);
        lemma_all_chunk_concat(a + entry_pairs(e, d), b, t, x);
    }
}

/// Which entry, and which of its pairs, a position among all pairs is.
proof fn lemma_entries_split<T>(es: Seq<Entry<T>>, d: nat, off: int) -> (ij: (int, int))
    requires
        0 <= off < entries_pairs(es, d).len(),
    ensures
        0 <= ij.0 < es.len(),
        0 <= ij.1 < entry_pairs(es[ij.0], d).len(),
        entries_pairs(es, d)[off] == entry_pairs(es[ij.0], d)[ij.1],
    decreases es.len(),
{
    let front = entries_pairs(es.drop_last(), d);
    if off < front.len() {
        let (i, j) = lemma_entries_split(es.drop_last(), d, off);
        assert(es.drop_last()[i] == es[i]);
        (i, j)
    } else {
        ((es.len() - 1) as int, off - front.len())
    }
}

/// Each index of a packed buffer belongs to an occupied slot.
proof fn lemma_rank_select(bm: u32, n: nat, i: nat) -> (c: nat)
    requires
        n <= 32,
        i < rank(bm, n),
    ensures
        c < n,
        bit(bm, c),
        rank(bm, c) == i,
    decreases n,
{
    if i < rank(bm, (n - 1) as nat) {
        lemma_rank_select(bm, (n - 1) as nat, i)
    } else {
        (n - 1) as nat
    }
}

proof fn lemma_stem_sound<T>(s: Stem<T>, d: nat, off: int)
    requires
        stem_wf(s, d),
        placed_stem(s, d),
        0 <= off < stem_pairs(s, d).len(),
    ensures
        stem_get(s, stem_pairs(s, d)[off].0@, d) == Some(stem_pairs(s, d)[off].1),
    decreases 6 - d, 1nat,
{
    let (i, j) = lemma_entries_split(s.buffer@, d, off);
    let c = lemma_rank_select(s.bitmap, 32, i as nat);
    let e = s.buffer@[i];
    assert(placed_entry(e, d, c));
    assert(entry_wf(e, d));
    let p = entry_pairs(e, d)[j];
    assert(chunk(mug(p.0@), d) == c);
    lemma_entry_sound(e, d, c, j);
}

proof fn lemma_entry_sound<T>(e: Entry<T>, d: nat, c: nat, j: int)
    requires
        d <= 5,
        entry_wf(e, d),
        placed_entry(e, d, c),
        0 <= j < entry_pairs(e, d).len(),
    ensures
        entry_get(e, entry_pairs(e, d)[j].0@, d) == Some(entry_pairs(e, d)[j].1),
    decreases 6 - d, 0nat,
{
    match e {
        Entry::Leaf(ps) => {
            let k = ps@[j].0@;
            assert(leaf_pairs(ps@)[j] == (ps@[j].0, *ps@[j].1));
            assert forall|i: int| 0 <= i < j implies (#[trigger] ps@[i]).0@ != k by {
                assert(ps@[i].0@ != ps@[j].0@);
            }
            lemma_leaf_find(ps@, j, k);
        },
        Entry::Stem(s2) => {
            lemma_stem_sound(s2, d + 1, j);
        },
    }
}

/// Iteration hands out only pairs of the map: each key with its value.
pub proof fn lemma_pairs_sound<T: Clone>(m: Hamt<T>, i: int)
    requires
        m.wf(),
        0 <= i < m.pairs().len(),
    ensures
        m@.contains_key(m.pairs()[i].0@),
        m@[m.pairs()[i].0@] == m.pairs()[i].1,
{
    lemma_stem_sound(m.root, 0, i);
}

/// Which entry, and which of its pairs, a position among all pairs is, with
/// the position as the pairs of the entries before plus the place in the entry.
proof fn lemma_entries_locate<T>(es: Seq<Entry<T>>, d: nat, off: int) -> (ij: (int, int))
    requires
        0 <= off < entries_pairs(es, d).len(),
    ensures
        0 <= ij.0 < es.len(),
        0 <= ij.1 < entry_pairs(es[ij.0], d).len(),
        entries_pairs(es, d)[off] == entry_pairs(es[ij.0], d)[ij.1],
        off == entries_pairs(es.take(ij.0), d).len() + ij.1,
    decreases es.len(),
{
    let front = entries_pairs(es.drop_last(), d);
    if off < front.len() {
        let (i, j) = lemma_entries_locate(es.drop_last(), d, off);
        assert(es.drop_last()[i] == es[i]);
        assert(es.drop_last().take(i) =~= es.take(i));
        (i, j)
    } else {
        assert(es.take(es.len() - 1) =~= es.drop_last());
        ((es.len() - 1) as int, off - front.len())
    }
}

proof fn lemma_stem_distinct<T>(s: Stem<T>, d: nat, o1: int, o2: int)
    requires
        stem_wf(s, d),
        placed_stem(s, d),
        0 <= o1 < stem_pairs(s, d).len(),
        0 <= o2 < stem_pairs(s, d).len(),
        o1 != o2,
    ensures
        stem_pairs(s, d)[o1].0@ != stem_pairs(s, d)[o2].0@,
    decreases 6 - d, 1nat,
{
    let es = s.buffer@;
    let (i1, j1) = lemma_entries_locate(es, d, o1);
    let (i2, j2) = lemma_entries_locate(es, d, o2);
    let c1 = lemma_rank_select(s.bitmap, 32, i1 as nat);
    let c2 = lemma_rank_select(s.bitmap, 32, i2 as nat);
    assert(placed_entry(es[i1], d, c1));
    assert(placed_entry(es[i2], d, c2));
    let k1 = entry_pairs(es[i1], d)[j1].0@;
    let k2 = entry_pairs(es[i2], d)[j2].0@;
    assert(chunk(mug(k1), d) == c1);
    assert(chunk(mug(k2), d) == c2);
    if k1 == k2 {
        assert(i1 == i2);
        assert(j1 != j2);
        lemma_entry_distinct(es[i1], d, c1, j1, j2);
    }
}

proof fn lemma_entry_distinct<T>(e: Entry<T>, d: nat, c: nat, j1: int, j2: int)
    requires
        d <= 5,
        entry_wf(e, d),
        placed_entry(e, d, c),
        0 <= j1 < entry_pairs(e, d).len(),
        0 <= j2 < entry_pairs(e, d).len(),
        j1 != j2,
    ensures
        entry_pairs(e, d)[j1].0@ != entry_pairs(e, d)[j2].0@,
    decreases 6 - d, 0nat,
{
    match e {
        Entry::Leaf(ps) => {
            assert(leaf_pairs(ps@)[j1].0 == ps@[j1].0);
            assert(leaf_pairs(ps@)[j2].0 == ps@[j2].0);
            if j1 < j2 {
                assert(ps@[j1].0@ != ps@[j2].0@);
            } else {
                assert(ps@[j2].0@ != ps@[j1].0@);
            }
        },
        Entry::Stem(s2) => {
            lemma_stem_distinct(s2, d + 1, j1, j2);
        },
    }
}

/// Iteration hands out each key once: the keys of the stored pairs are distinct.
pub proof fn lemma_pairs_distinct<T: Clone>(m: Hamt<T>, i: int, j: int)
    requires
        m.wf(),
        0 <= i < m.pairs().len(),
        0 <= j < m.pairs().len(),
        i != j,
    ensures
        m.pairs()[i].0@ != m.pairs()[j].0@,
{
    lemma_stem_distinct(m.root, 0, i, j);
}

} // verus!
