use crate::hamt::{clones_of, Hamt, HamtIterator};
use crate::noun::{bytes_val, cell, Noun, Tree};
use std::rc::Rc;
use vstd::prelude::*;

verus! {

/// Identifies a native function in the table that the host supplies.
pub type Jet = u64;

/// One element of the path of a core: a term given by its bytes, or a
/// versioned root given as (term, version).
pub enum PathItem {
    Term(Vec<u8>),
    Versioned(u64, u64),
}

/// A registration: the path of a core, the axis of the arm in its battery,
/// and the jet that computes it.
pub struct HotEntry {
    pub path: Vec<PathItem>,
    pub axis: u64,
    pub jet: Jet,
}

/// The noun of one path element.
pub open spec fn item_tree(i: PathItem) -> Tree {
    match i {
        PathItem::Term(bs) => Tree::Atom(bytes_val(bs@)),
        PathItem::Versioned(t, v) => cell(Tree::Atom(t as nat), Tree::Atom(v as nat)),
    }
}

/// The noun of a path: its elements consed onto 0, the last one outermost.
pub open spec fn path_tree(items: Seq<PathItem>) -> Tree
    decreases items.len(),
{
    if items.len() == 0 {
        Tree::Atom(0)
    } else {
        cell(item_tree(items.last()), path_tree(items.drop_last()))
    }
}

/// The jet registered last for path `p` and battery axis `a`.
pub open spec fn find_jet(entries: Seq<HotEntry>, p: Tree, a: nat) -> Option<Jet>
    decreases entries.len(),
{
    if entries.len() == 0 {
        None
    } else {
        let e = entries.last();
        if path_tree(e.path@) == p && e.axis as nat == a {
            Some(e.jet)
        } else {
            find_jet(entries.drop_last(), p, a)
        }
    }
}

/// The first jet of a chain registered at axis `a`.
pub open spec fn chain_find(chain: Seq<(u64, Jet)>, a: nat) -> Option<Jet>
    decreases chain.len(),
{
    if chain.len() == 0 {
        None
    } else if chain[0].0 as nat == a {
        Some(chain[0].1)
    } else {
        chain_find(chain.drop_first(), a)
    }
}

/// The (axis, jet) pairs registered for one path, newest first: one path
/// may have jets at several axes.
pub struct HotMemEntry {
    chain: Rc<Vec<(u64, Jet)>>,
}

impl HotMemEntry {
    pub closed spec fn view(self) -> Seq<(u64, Jet)> {
        self.chain@
    }

    /// The chain with no registration.
    pub fn empty() -> (r: HotMemEntry)
        ensures
            r@ == Seq::<(u64, Jet)>::empty(),
    {
        HotMemEntry { chain: Rc::new(Vec::new()) }
    }

    /// Number of registrations in the chain.
    pub fn len(&self) -> (r: usize)
        ensures
            r == self@.len(),
    {
        self.chain.len()
    }

    /// The registration at position `i`, newest first.
    pub fn get(&self, i: usize) -> (r: (u64, Jet))
        requires
            i < self@.len(),
        ensures
            r == self@[i as int],
    {
        self.chain[i]
    }

    /// The chain with (axis, jet) in front.
    pub fn prepend(&self, axis: u64, jet: Jet) -> (r: HotMemEntry)
        ensures
            r@ == seq![(axis, jet)] + self@,
    {
        let mut v: Vec<(u64, Jet)> = Vec::new();
        v.push((axis, jet));
        let mut i: usize = 0;
        while i < self.chain.len()
            invariant
                i <= self@.len(),
                v@ =~= seq![(axis, jet)] + self@.subrange(0, i as int),
            decreases self@.len() - i,
        {
            v.push(self.chain[i]);
            i = i + 1;
        }
        assert(self@.subrange(0, self@.len() as int) =~= self@);
        HotMemEntry { chain: Rc::new(v) }
    }

    /// The first jet of the chain registered at `axis`.
    pub fn find(&self, axis: u64) -> (r: Option<Jet>)
        ensures
            r == chain_find(self@, axis as nat),
    {
        let mut i: usize = 0;
        proof {
            assert(self@.skip(0) =~= self@);
        }
        while i < self.chain.len()
            invariant
                i <= self@.len(),
                chain_find(self@, axis as nat) == chain_find(self@.skip(i as int), axis as nat),
            decreases self@.len() - i,
        {
            let ghost rest = self@.skip(i as int);
            proof {
                assert(rest.drop_first() =~= self@.skip(i + 1));
                assert(rest[0] == self@[i as int]);
            }
            if self.chain[i].0 == axis {
                return Some(self.chain[i].1);
            }
            i = i + 1;
        }
        proof {
            assert(self@.skip(i as int) =~= Seq::<(u64, Jet)>::empty());
        }
        None
    }
}

impl Clone for HotMemEntry {
    /// A second handle on the same chain.
    fn clone(&self) -> (r: Self)
        ensures
            r == *self,
    {
        HotMemEntry { chain: Rc::clone(&self.chain) }
    }
}

/// The noun of a path.
pub fn path_noun(items: &Vec<PathItem>) -> (r: Noun)
    ensures
        r.wf(),
        r@ == path_tree(items@),
{
    let mut acc = Noun::direct(0);
    let mut i: usize = 0;
    proof {
        assert(items@.take(0) =~= Seq::<PathItem>::empty());
    }
    while i < items.len()
        invariant
            i <= items@.len(),
            acc.wf(),
            acc@ == path_tree(items@.take(i as int)),
        decreases items@.len() - i,
    {
        let chum = match &items[i] {
            PathItem::Term(bs) => Noun::from_bytes(bs),
            PathItem::Versioned(t, v) => Noun::cell(Noun::direct(*t), Noun::direct(*v)),
        };
        proof {
            let t1 = items@.take(i + 1);
            assert(t1.drop_last() =~= items@.take(i as int));
            assert(t1.last() == items@[i as int]);
        }
        acc = Noun::cell(chum, acc);
        i = i + 1;
    }
    proof {
        assert(items@.take(items@.len() as int) =~= items@);
    }
    acc
}

/// The jet dispatch table: from the path of a core to the jets registered
/// for it. Built once, then only read.
pub struct Hot {
    map: Hamt<HotMemEntry>,
}

impl Hot {
    pub closed spec fn wf(self) -> bool {
        self.map.wf()
    }

    /// Every (path, chain) pair of the table, in trie order.
    pub closed spec fn pairs(self) -> Seq<(Noun, HotMemEntry)> {
        self.map.pairs()
    }

    /// An iterator over the (path, chain) pairs of the table.
    pub fn into_iter(&self) -> (r: HamtIterator<HotMemEntry>)
        ensures
            clones_of(r.rest(), self.pairs()),
    {
        self.map.into_iter()
    }

    /// The jet for path `p` and battery axis `a`.
    pub closed spec fn jet_for(self, p: Tree, a: nat) -> Option<Jet> {
        if self.map@.contains_key(p) {
            chain_find(self.map@[p]@, a)
        } else {
            None
        }
    }

    /// The table of `constant_hot_state`. Where one path and axis are
    /// registered more than once, the last registration wins.
    pub fn init(constant_hot_state: &Vec<HotEntry>) -> (r: Hot)
        ensures
            r.wf(),
            forall|p: Tree, a: nat| r.jet_for(p, a) == find_jet(constant_hot_state@, p, a),
    {
        let entries = constant_hot_state;
        let mut hot = Hot { map: Hamt::new() };
        let mut i: usize = 0;
        proof {
            assert(entries@.take(0) =~= Seq::<HotEntry>::empty());
        }
        while i < entries.len()
            invariant
                i <= entries@.len(),
                hot.wf(),
                forall|p: Tree, a: nat| hot.jet_for(p, a) == find_jet(entries@.take(i as int), p, a),
            decreases entries@.len() - i,
        {
            let e = &entries[i];
            let mut a_path = path_noun(&e.path);
            let ghost pt = a_path@;
            let current = match hot.map.lookup(&mut a_path) {
                Some(c) => c,
                None => HotMemEntry::empty(),
            };
            let chain = current.prepend(e.axis, e.jet);
            let ghost old_hot = hot;
            hot = Hot { map: hot.map.insert(&mut a_path, chain) };
            proof {
                let t1 = entries@.take(i + 1);
                assert(t1.drop_last() =~= entries@.take(i as int));
                assert(t1.last() == entries@[i as int]);
                assert forall|p: Tree, a: nat| hot.jet_for(p, a) == find_jet(t1, p, a) by {
                    if p == pt {
                        assert((seq![(e.axis, e.jet)] + current@).drop_first() =~= current@);
                        if !old_hot.map@.contains_key(p) {
                            assert(old_hot.jet_for(p, a) is None);
                            assert(chain_find(current@, a) is None);
                        }
                    } else {
                        assert(old_hot.jet_for(p, a) == find_jet(entries@.take(i as int), p, a));
                    }
                }
            }
            i = i + 1;
        }
        proof {
            assert(entries@.take(entries@.len() as int) =~= entries@);
        }
        hot
    }

    /// The jet registered for the core at `path` and the arm at `axis` of its
    /// battery. On a hit `path` is pointed at the stored key.
    pub fn lookup(&self, path: &mut Noun, axis: &Noun) -> (r: Option<Jet>)
        requires
            self.wf(),
            old(path).wf(),
            axis.wf(),
        ensures
            final(path)@ == old(path)@,
            final(path).wf(),
            r == match axis@ {
                Tree::Atom(a) => self.jet_for(old(path)@, a),
                Tree::Cell(_, _) => None,
            },
    {
        let ghost p0 = path@;
        let he = match self.map.lookup(path) {
            Some(he) => he,
            None => {
                return None;
            },
        };
        match axis.as_direct() {
            Some(a) => he.find(a),
            None => {
                proof {
                    if axis@ is Atom {
                        lemma_chain_find_wide(he@, axis@->Atom_0);
                    }
                }
                None
            },
        }
    }
}

/// No registration has an axis of 2^64 or more.
proof fn lemma_chain_find_wide(chain: Seq<(u64, Jet)>, a: nat)
    requires
        a >= crate::noun::WORD,
    ensures
        chain_find(chain, a) is None,
    decreases chain.len(),
{
    if chain.len() > 0 {
        lemma_chain_find_wide(chain.drop_first(), a);
    }
}

} // verus!
