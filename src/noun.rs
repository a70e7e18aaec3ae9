use std::rc::Rc;
use vstd::arithmetic::div_mod::lemma_fundamental_div_mod_converse;
use vstd::prelude::*;

verus! {

/// 2^64, the radix of the words of an indirect atom.
pub const WORD: u128 = 0x1_0000_0000_0000_0000;

/// Seed of the hash of an atom.
pub const ATOM_SEED: u32 = 0x811c_9dc5;

/// Seed of the hash of a cell.
pub const CELL_SEED: u32 = 0x5bd1_e995;

/// Multiplier of one hashing step.
pub const MUG_PRIME: u32 = 0x0100_0193;

/// Mathematical value of a noun: an unbounded natural number or an ordered pair.
pub enum Tree {
    Atom(nat),
    Cell(Box<Tree>, Box<Tree>),
}

/// Number of atoms and cells in a tree.
pub open spec fn size(t: Tree) -> nat
    decreases t,
{
    match t {
        Tree::Atom(_) => 1,
        Tree::Cell(h, t) => 1 + size(*h) + size(*t),
    }
}

pub open spec fn cell(h: Tree, t: Tree) -> Tree {
    Tree::Cell(Box::new(h), Box::new(t))
}

/// Value of little-endian 64-bit words.
pub open spec fn words_val(ws: Seq<u64>) -> nat
    decreases ws.len(),
{
    if ws.len() == 0 {
        0
    } else {
        ws[0] as nat + WORD as nat * words_val(ws.drop_first())
    }
}

/// `WORD` to the power `i`.
pub open spec fn word_pow(i: nat) -> nat
    decreases i,
{
    if i == 0 {
        1
    } else {
        WORD as nat * word_pow((i - 1) as nat)
    }
}

/// One step of the hash: fold 32 bits into the state.
pub open spec fn mix(h: u32, w: u32) -> u32 {
    (h ^ w).wrapping_mul(MUG_PRIME)
}

pub open spec fn mix_word(h: u32, w: u64) -> u32 {
    mix(mix(h, w as u32), (w >> 32u64) as u32)
}

/// Hash of a natural number, folding its 64-bit words from the most significant down.
pub open spec fn mug_nat(n: nat) -> u32
    decreases n,
{
    if n == 0 {
        ATOM_SEED
    } else {
        mix_word(mug_nat(n / (WORD as nat)), (n % (WORD as nat)) as u64)
    }
}

pub open spec fn mug_cell(a: u32, b: u32) -> u32 {
    mix(mix(CELL_SEED, a), b)
}

/// The 32-bit hash ("mug") of a tree: a function of its value alone.
pub open spec fn mug(t: Tree) -> u32
    decreases t,
{
    match t {
        Tree::Atom(n) => mug_nat(n),
        Tree::Cell(h, t) => mug_cell(mug(*h), mug(*t)),
    }
}

/// An immutable tree value. Atoms below 2^64 are stored inline; larger atoms
/// keep their little-endian words behind a shared pointer. Cells share their
/// children and remember the hash of the whole tree.
pub enum Noun {
    Direct(u64),
    Indirect(Rc<Vec<u64>>),
    Cell(Rc<CellMem>),
}

/// The shared storage of a cell: its children and the hash of the cell.
pub struct CellMem {
    pub head: Noun,
    pub tail: Noun,
    pub mug: u32,
}

/// Words of an indirect atom: at least two, the most significant one nonzero.
pub open spec fn wf_words(ws: Seq<u64>) -> bool {
    ws.len() >= 2 && ws[ws.len() - 1] != 0
}

/// The words have no zero word on top (zero has no words).
pub open spec fn normalized(ws: Seq<u64>) -> bool {
    ws.len() == 0 || ws[ws.len() - 1] != 0
}

impl Noun {
    pub open spec fn view(self) -> Tree
        decreases self,
    {
        match self {
            Noun::Direct(x) => Tree::Atom(x as nat),
            Noun::Indirect(ws) => Tree::Atom(words_val(ws@)),
            Noun::Cell(c) => cell(c.head.view(), c.tail.view()),
        }
    }

    /// Indirect atoms are normalized and every cell caches its true hash.
    pub open spec fn wf(self) -> bool
        decreases self,
    {
        match self {
            Noun::Direct(_) => true,
            Noun::Indirect(ws) => wf_words(ws@),
            Noun::Cell(c) => c.head.wf() && c.tail.wf() && c.mug == mug_cell(
                mug(c.head.view()),
                mug(c.tail.view()),
            ),
        }
    }

    /// The atom `x`.
    pub fn direct(x: u64) -> (r: Noun)
        ensures
            r.wf(),
            r@ == Tree::Atom(x as nat),
    {
        Noun::Direct(x)
    }

    /// Builds the cell `[h t]`, sharing both children.
    pub fn cell(h: Noun, t: Noun) -> (r: Noun)
        requires
            h.wf(),
            t.wf(),
        ensures
            r.wf(),
            r@ == cell(h@, t@),
    {
        let m = mug_cell_exec(h.mug(), t.mug());
        Noun::Cell(Rc::new(CellMem { head: h, tail: t, mug: m }))
    }

    /// A second handle on the same value; no tree is copied.
    pub fn copy(&self) -> (r: Noun)
        ensures
            r == *self,
    {
        match self {
            Noun::Direct(x) => Noun::Direct(*x),
            Noun::Indirect(ws) => Noun::Indirect(Rc::clone(ws)),
            Noun::Cell(c) => Noun::Cell(Rc::clone(c)),
        }
    }

    /// Whether the noun is a cell.
    pub fn is_cell(&self) -> (r: bool)
        ensures
            r == (self@ is Cell),
    {
        match self {
            Noun::Cell(_) => true,
            _ => false,
        }
    }

    /// Whether the noun is an atom.
    pub fn is_atom(&self) -> (r: bool)
        ensures
            r == (self@ is Atom),
    {
        !self.is_cell()
    }

    /// The atom's value when it is below 2^64.
    pub fn as_direct(&self) -> (r: Option<u64>)
        requires
            self.wf(),
        ensures
            r == (match self@ {
                Tree::Atom(n) => if n < WORD {
                    Some(n as u64)
                } else {
                    None
                },
                Tree::Cell(_, _) => None,
            }),
    {
        match self {
            Noun::Direct(x) => Some(*x),
            Noun::Indirect(ws) => {
                proof {
                    lemma_words_val_wide(ws@);
                }
                None
            },
            Noun::Cell(_) => None,
        }
    }

    /// Head and tail of a cell.
    pub fn as_cell(&self) -> (r: Option<(&Noun, &Noun)>)
        requires
            self.wf(),
        ensures
            r is Some <==> self@ is Cell,
            r matches Some((h, t)) ==> h.wf() && t.wf() && self@ == cell(h@, t@),
    {
        match self {
            Noun::Cell(c) => Some((&c.head, &c.tail)),
            _ => None,
        }
    }

    /// The hash of the value.
    pub fn mug(&self) -> (r: u32)
        requires
            self.wf(),
        ensures
            r == mug(self@),
    {
        match self {
            Noun::Direct(x) => mug_direct(*x),
            Noun::Indirect(ws) => mug_words(ws),
            Noun::Cell(c) => c.mug,
        }
    }
}

impl Clone for Noun {
    /// A second handle on the same value.
    fn clone(&self) -> (r: Self)
        ensures
            r == *self,
    {
        self.copy()
    }
}

fn mix_exec(h: u32, w: u32) -> (r: u32)
    ensures
        r == mix(h, w),
{
    (h ^ w).wrapping_mul(MUG_PRIME)
}

fn mix_word_exec(h: u32, w: u64) -> (r: u32)
    ensures
        r == mix_word(h, w),
{
    mix_exec(mix_exec(h, w as u32), (w >> 32u64) as u32)
}

fn mug_cell_exec(a: u32, b: u32) -> (r: u32)
    ensures
        r == mug_cell(a, b),
{
    mix_exec(mix_exec(CELL_SEED, a), b)
}

fn mug_direct(x: u64) -> (r: u32)
    ensures
        r == mug_nat(x as nat),
{
    proof {
        reveal_with_fuel(mug_nat, 2);
        assert(x as nat / (WORD as nat) == 0);
    }
    if x == 0 {
        ATOM_SEED
    } else {
        mix_word_exec(ATOM_SEED, x)
    }
}

fn mug_words(ws: &Vec<u64>) -> (r: u32)
    requires
        wf_words(ws@),
    ensures
        r == mug_nat(words_val(ws@)),
{
    let mut h: u32 = ATOM_SEED;
    let mut i: usize = ws.len();
    while i > 0
        invariant
            wf_words(ws@),
            i <= ws.len(),
            h == mug_nat(words_val(ws@.subrange(i as int, ws.len() as int))),
            i < ws.len() ==> words_val(ws@.subrange(i as int, ws.len() as int)) > 0,
        decreases i,
    {
        let ghost hi = ws@.subrange(i as int, ws.len() as int);
        let ghost lo = ws@.subrange(i - 1, ws.len() as int);
        proof {
            assert(lo.drop_first() =~= hi);
            assert(lo[0] == ws@[i - 1]);
            let v = words_val(lo);
            assert(v == ws@[i - 1] as nat + WORD as nat * words_val(hi));
            if i == ws.len() {
                assert(hi.len() == 0);
                assert(ws@[i - 1] != 0);
            }
            assert(v > 0);
            lemma_fundamental_div_mod_converse(
                v as int,
                WORD as int,
                words_val(hi) as int,
                ws@[i - 1] as int,
            );
        }
        h = mix_word_exec(h, ws[i - 1]);
        i = i - 1;
    }
    proof {
        assert(ws@.subrange(0, ws.len() as int) =~= ws@);
    }
    h
}

/// A sequence whose top word is nonzero has a positive value.
pub proof fn lemma_words_val_pos(ws: Seq<u64>)
    requires
        ws.len() > 0,
        ws[ws.len() - 1] != 0,
    ensures
        words_val(ws) > 0,
    decreases ws.len(),
{
    if ws.len() > 1 {
        lemma_words_val_pos(ws.drop_first());
    }
}

/// The value of the words of an indirect atom is at least 2^64.
pub proof fn lemma_words_val_wide(ws: Seq<u64>)
    requires
        wf_words(ws),
    ensures
        words_val(ws) >= WORD,
{
    lemma_words_val_pos(ws.drop_first());
}

/// Normalized word sequences with equal values are equal.
pub proof fn lemma_words_val_injective(a: Seq<u64>, b: Seq<u64>)
    requires
        normalized(a),
        normalized(b),
        words_val(a) == words_val(b),
    ensures
        a == b,
    decreases a.len(),
{
    if a.len() == 0 {
        if b.len() > 0 {
            lemma_words_val_pos(b);
        }
        assert(a =~= b);
    } else if b.len() == 0 {
        lemma_words_val_pos(a);
    } else {
        let v = words_val(a);
        lemma_fundamental_div_mod_converse(
            v as int,
            WORD as int,
            words_val(a.drop_first()) as int,
            a[0] as int,
        );
        lemma_fundamental_div_mod_converse(
            v as int,
            WORD as int,
            words_val(b.drop_first()) as int,
            b[0] as int,
        );
        lemma_words_val_injective(a.drop_first(), b.drop_first());
        assert(a =~= b) by {
            assert forall|i: int| 0 <= i < a.len() implies a[i] == b[i] by {
                if i > 0 {
                    assert(a[i] == a.drop_first()[i - 1]);
                    assert(b[i] == b.drop_first()[i - 1]);
                }
            }
        }
    }
}


/// Value of an atom; zero for a cell.
pub open spec fn atom_val(t: Tree) -> nat {
    match t {
        Tree::Atom(n) => n,
        Tree::Cell(_, _) => 0,
    }
}

/// Relies on std's `Rc::ptr_eq`: two handles on one allocation hold one value.
#[verifier::external_body]
fn same_cell(a: &Rc<CellMem>, b: &Rc<CellMem>) -> (r: bool)
    ensures
        r ==> a == b,
{
    Rc::ptr_eq(a, b)
}

fn words_eq(a: &Vec<u64>, b: &Vec<u64>) -> (r: bool)
    ensures
        r == (a@ == b@),
{
    if a.len() != b.len() {
        return false;
    }
    let mut i: usize = 0;
    while i < a.len()
        invariant
            a.len() == b.len(),
            i <= a.len(),
            forall|j: int| 0 <= j < i ==> a@[j] == b@[j],
        decreases a.len() - i,
    {
        if a[i] != b[i] {
            return false;
        }
        i = i + 1;
    }
    assert(a@ =~= b@);
    true
}

/// Every pair on a comparison stack holds equal trees.
pub open spec fn pairs_equal(s: Seq<(Noun, Noun)>) -> bool {
    forall|i: int| 0 <= i < s.len() ==> (#[trigger] s[i]).0@ == s[i].1@
}

pub open spec fn pairs_wf(s: Seq<(Noun, Noun)>) -> bool {
    forall|i: int| 0 <= i < s.len() ==> (#[trigger] s[i]).0.wf() && s[i].1.wf()
}

/// Work left on a comparison stack: the size of the left trees.
pub open spec fn pairs_size(s: Seq<(Noun, Noun)>) -> nat
    decreases s.len(),
{
    if s.len() == 0 {
        0
    } else {
        pairs_size(s.drop_last()) + size(s.last().0@)
    }
}

proof fn lemma_pairs_pop(before: Seq<(Noun, Noun)>, after: Seq<(Noun, Noun)>, x: Noun, y: Noun)
    requires
        before == after.push((x, y)),
        pairs_wf(before),
    ensures
        x.wf() && y.wf(),
        pairs_wf(after),
        pairs_equal(before) == (pairs_equal(after) && x@ == y@),
        pairs_size(before) == pairs_size(after) + size(x@),
{
    assert(before.drop_last() =~= after);
    assert(before[before.len() - 1] == (x, y));
    assert forall|i: int| 0 <= i < after.len() implies (#[trigger] after[i]).0.wf()
        && after[i].1.wf() by {
        assert(after[i] == before[i]);
    }
    if pairs_equal(before) {
        assert forall|i: int| 0 <= i < after.len() implies (#[trigger] after[i]).0@ == after[i].1@ by {
            assert(after[i] == before[i]);
        }
    }
    if pairs_equal(after) && x@ == y@ {
        assert forall|i: int| 0 <= i < before.len() implies (#[trigger] before[i]).0@
            == before[i].1@ by {
            if i < after.len() {
                assert(after[i] == before[i]);
            }
        }
    }
}

proof fn lemma_pairs_push2(mid: Seq<(Noun, Noun)>, after: Seq<(Noun, Noun)>, x: Noun, y: Noun)
    requires
        x is Cell,
        y is Cell,
        x.wf(),
        y.wf(),
        after == mid.push((x->Cell_0.head, y->Cell_0.head)).push(
            (x->Cell_0.tail, y->Cell_0.tail),
        ),
        pairs_wf(mid),
    ensures
        pairs_wf(after),
        pairs_equal(after) == (pairs_equal(mid) && x@ == y@),
        pairs_size(after) < pairs_size(mid) + size(x@),
{
    let h1 = x->Cell_0.head;
    let t1 = x->Cell_0.tail;
    let h2 = y->Cell_0.head;
    let t2 = y->Cell_0.tail;
    let m1 = mid.push((h1, h2));
    assert(after.drop_last() =~= m1);
    assert(m1.drop_last() =~= mid);
    assert(pairs_size(m1) == pairs_size(mid) + size(h1@));
    assert(pairs_size(after) == pairs_size(m1) + size(t1@));
    assert(x@ == cell(h1@, t1@));
    assert(y@ == cell(h2@, t2@));
    assert(after.drop_last() =~= mid.push((h1, h2)));
    assert(mid.push((h1, h2)).drop_last() =~= mid);
    assert(after[mid.len() as int] == (h1, h2));
    assert(after[mid.len() as int + 1] == (t1, t2));
    assert forall|i: int| 0 <= i < after.len() implies (#[trigger] after[i]).0.wf()
        && after[i].1.wf() by {
        if i < mid.len() {
            assert(after[i] == mid[i]);
        }
    }
    if pairs_equal(after) {
        assert forall|i: int| 0 <= i < mid.len() implies (#[trigger] mid[i]).0@ == mid[i].1@ by {
            assert(after[i] == mid[i]);
        }
    }
    if pairs_equal(mid) && h1@ == h2@ && t1@ == t2@ {
        assert forall|i: int| 0 <= i < after.len() implies (#[trigger] after[i]).0@
            == after[i].1@ by {
            if i < mid.len() {
                assert(after[i] == mid[i]);
            }
        }
    }
}

/// Value equality of two nouns, walked with an explicit stack of pairs so that
/// deep trees never deepen the native stack. Handles on one shared cell are
/// equal at once; cells with different hashes are unequal at once.
pub fn equals(a: &Noun, b: &Noun) -> (r: bool)
    requires
        a.wf(),
        b.wf(),
    ensures
        r == (a@ == b@),
{
    let mut stack: Vec<(Noun, Noun)> = Vec::new();
    stack.push((a.copy(), b.copy()));
    proof {
        assert(pairs_equal(stack@) == (a@ == b@)) by {
            if pairs_equal(stack@) {
                assert(stack@[0].0@ == stack@[0].1@);
            }
        }
    }
    loop
        invariant
            pairs_wf(stack@),
            pairs_equal(stack@) == (a@ == b@),
        decreases pairs_size(stack@),
    {
        let ghost before = stack@;
        match stack.pop() {
            None => {
                return true;
            },
            Some((x, y)) => {
                proof {
                    assert(before =~= stack@.push((x, y)));
                    lemma_pairs_pop(before, stack@, x, y);
                }
                match (&x, &y) {
                    (Noun::Direct(p), Noun::Direct(q)) => {
                        if *p != *q {
                            return false;
                        }
                    },
                    (Noun::Indirect(p), Noun::Indirect(q)) => {
                        if !words_eq(p, q) {
                            proof {
                                if x@ == y@ {
                                    lemma_words_val_injective(p@, q@);
                                }
                            }
                            return false;
                        }
                    },
                    (Noun::Cell(p), Noun::Cell(q)) => {
                        if !same_cell(p, q) {
                            if p.mug != q.mug {
                                return false;
                            }
                            let ghost mid = stack@;
                            stack.push((p.head.copy(), q.head.copy()));
                            stack.push((p.tail.copy(), q.tail.copy()));
                            proof {
                                lemma_pairs_push2(mid, stack@, x, y);
                            }
                        }
                    },
                    (Noun::Direct(_), Noun::Indirect(q)) => {
                        proof {
                            lemma_words_val_wide(q@);
                        }
                        return false;
                    },
                    (Noun::Indirect(p), Noun::Direct(_)) => {
                        proof {
                            lemma_words_val_wide(p@);
                        }
                        return false;
                    },
                    _ => {
                        return false;
                    },
                }
            },
        }
    }
}

/// Equality that, on success, points `b` at `a`'s storage, so that later
/// comparisons of the two handles are a pointer test.
pub fn unifying_equality(a: &Noun, b: &mut Noun) -> (r: bool)
    requires
        a.wf(),
        old(b).wf(),
    ensures
        r == (a@ == old(b)@),
        final(b).wf(),
        final(b)@ == old(b)@,
        r ==> *final(b) == *a,
{
    if equals(a, b) {
        *b = a.copy();
        true
    } else {
        false
    }
}

/// Changing word `i` changes the value by the difference times `WORD^i`.
pub proof fn lemma_words_val_update(s: Seq<u64>, i: int, v: u64)
    requires
        0 <= i < s.len(),
    ensures
        words_val(s.update(i, v)) + s[i] as nat * word_pow(i as nat) == words_val(s) + v as nat
            * word_pow(i as nat),
    decreases i,
{
    let u = s.update(i, v);
    let w = WORD as nat;
    let vu = words_val(u);
    let vs = words_val(s);
    let x = s[i] as nat;
    let y = v as nat;
    let a = words_val(u.drop_first());
    let b = words_val(s.drop_first());
    assert(vu == u[0] as nat + w * a);
    assert(vs == s[0] as nat + w * b);
    if i == 0 {
        assert(u.drop_first() =~= s.drop_first());
        assert(word_pow(0) == 1);
        assert(u[0] == v);
        assert(a == b);
        assert(vu + x == vs + y);
        assert(x * word_pow(0) == x && y * word_pow(0) == y) by (nonlinear_arith)
            requires
                word_pow(0) == 1,
        ;
    } else {
        assert(u[0] == s[0]);
        assert(u.drop_first() =~= s.drop_first().update(i - 1, v));
        lemma_words_val_update(s.drop_first(), i - 1, v);
        let p = word_pow((i - 1) as nat);
        assert(s.drop_first()[i - 1] == s[i]);
        assert(a + x * p == b + y * p);
        assert(word_pow(i as nat) == w * p);
        assert(w * a + x * (w * p) == w * b + y * (w * p)) by (nonlinear_arith)
            requires
                a + x * p == b + y * p,
        ;
        assert(vu + x * (w * p) == vs + y * (w * p));
    }
}

/// Appending a word adds it times `WORD^len`.
pub proof fn lemma_words_val_push(s: Seq<u64>, x: u64)
    ensures
        words_val(s.push(x)) == words_val(s) + x as nat * word_pow(s.len()),
    decreases s.len(),
{
    let w = WORD as nat;
    let t = s.push(x);
    if s.len() == 0 {
        assert(t.drop_first() =~= Seq::<u64>::empty());
        assert(words_val(t.drop_first()) == 0);
        assert(t[0] == x);
        assert(words_val(t) == x as nat + w * 0);
        assert(word_pow(0) == 1);
        assert(x as nat * 1 == x as nat);
    } else {
        assert(t.drop_first() =~= s.drop_first().push(x));
        lemma_words_val_push(s.drop_first(), x);
        let a = words_val(s.drop_first());
        let p = word_pow((s.len() - 1) as nat);
        assert(words_val(t.drop_first()) == a + x as nat * p);
        assert(t[0] == s[0]);
        assert(words_val(t) == s[0] as nat + w * words_val(t.drop_first()));
        assert(words_val(s) == s[0] as nat + w * a);
        assert(word_pow(s.len()) == w * p);
        assert(w * (a + x as nat * p) == w * a + x as nat * (w * p)) by (nonlinear_arith);
    }
}

fn copy_words(p: &Vec<u64>) -> (r: Vec<u64>)
    ensures
        r@ == p@,
{
    let mut r: Vec<u64> = Vec::new();
    let mut i: usize = 0;
    while i < p.len()
        invariant
            i <= p.len(),
            r@ =~= p@.subrange(0, i as int),
        decreases p.len() - i,
    {
        r.push(p[i]);
        i = i + 1;
    }
    assert(r@ =~= p@);
    r
}

/// The successor of an atom. An all-ones word grows into a wider atom, never
/// wrapping around.
pub fn inc(a: &Noun) -> (r: Noun)
    requires
        a.wf(),
        a@ is Atom,
    ensures
        r.wf(),
        r@ == Tree::Atom(atom_val(a@) + 1),
{
    match a {
        Noun::Direct(x) => {
            if *x < u64::MAX {
                Noun::Direct(*x + 1)
            } else {
                let mut ws: Vec<u64> = Vec::new();
                ws.push(0);
                ws.push(1);
                proof {
                    reveal_with_fuel(words_val, 3);
                    assert(ws@.drop_first().drop_first() =~= Seq::<u64>::empty());
                    assert(words_val(ws@.drop_first()) == 1);
                    assert(ws@[0] == 0);
                    assert(words_val(ws@) == WORD);
                    assert(*x as nat + 1 == WORD);
                }
                Noun::Indirect(Rc::new(ws))
            }
        },
        Noun::Indirect(p) => {
            let mut ws = copy_words(p);
            let mut i: usize = 0;
            while i < ws.len() && ws[i] == u64::MAX
                invariant
                    ws@.len() == p@.len(),
                    i <= ws.len(),
                    words_val(ws@) + word_pow(i as nat) == words_val(p@) + 1,
                    forall|j: int| i <= j < ws@.len() ==> ws@[j] == p@[j],
                decreases ws.len() - i,
            {
                proof {
                    lemma_words_val_update(ws@, i as int, 0);
                    let w = WORD as nat;
                    let q = word_pow(i as nat);
                    assert(word_pow((i + 1) as nat) == w * q);
                    assert(w * q == (u64::MAX as nat) * q + q) by (nonlinear_arith)
                        requires
                            w == u64::MAX as nat + 1,
                    ;
                }
                ws.set(i, 0);
                i = i + 1;
            }
            if i == ws.len() {
                proof {
                    lemma_words_val_push(ws@, 1);
                }
                ws.push(1);
            } else {
                proof {
                    let c = ws@[i as int] as nat;
                    let q = word_pow(i as nat);
                    lemma_words_val_update(ws@, i as int, (c + 1) as u64);
                    assert((c + 1) * q == c * q + q) by (nonlinear_arith);
                }
                let w = ws[i];
                ws.set(i, w + 1);
            }
            Noun::Indirect(Rc::new(ws))
        },
        Noun::Cell(_) => {
            Noun::Direct(0)
        },
    }
}

/// Value of little-endian bytes.
pub open spec fn bytes_val(bs: Seq<u8>) -> nat
    decreases bs.len(),
{
    if bs.len() == 0 {
        0
    } else {
        bs[0] as nat + 256 * bytes_val(bs.drop_first())
    }
}

/// 256 to the power `k`.
pub open spec fn byte_pow(k: nat) -> nat
    decreases k,
{
    if k == 0 {
        1
    } else {
        256 * byte_pow((k - 1) as nat)
    }
}

/// The value of bytes splits at any point into the low part and the high
/// part shifted past it.
pub proof fn lemma_bytes_split(bs: Seq<u8>, k: nat)
    requires
        k <= bs.len(),
    ensures
        bytes_val(bs) == bytes_val(bs.take(k as int)) + byte_pow(k) * bytes_val(bs.skip(k as int)),
    decreases k,
{
    if k == 0 {
        assert(bs.take(0) =~= Seq::<u8>::empty());
        assert(bs.skip(0) =~= bs);
        assert(byte_pow(0) == 1);
        assert(bytes_val(Seq::<u8>::empty()) == 0);
        let v = bytes_val(bs);
        assert(v == 0 + 1 * v) by (nonlinear_arith);
    } else {
        let t = bs.drop_first();
        assert(bytes_val(bs) == bs[0] as nat + 256 * bytes_val(t));
        assert(bytes_val(bs.take(k as int)) == bs[0] as nat + 256 * bytes_val(
            bs.take(k as int).drop_first(),
        ));
        assert(byte_pow(k) == 256 * byte_pow((k - 1) as nat));
        lemma_bytes_split(t, (k - 1) as nat);
        assert(bs.take(k as int).drop_first() =~= t.take(k - 1));
        assert(t.skip(k - 1) =~= bs.skip(k as int));
        assert(bs.take(k as int)[0] == bs[0]);
        let a = bytes_val(t.take(k - 1));
        let b = bytes_val(bs.skip(k as int));
        let p = byte_pow((k - 1) as nat);
        assert(256 * (a + p * b) == 256 * a + (256 * p) * b) by (nonlinear_arith);
    }
}

proof fn lemma_byte_pow_word()
    ensures
        byte_pow(8) == WORD,
{
    reveal_with_fuel(byte_pow, 9);
}

/// Value of at most eight bytes `bs[lo..hi]`, as a machine word.
fn chunk_val(bs: &Vec<u8>, lo: usize, hi: usize) -> (w: u64)
    requires
        lo <= hi <= bs.len(),
        hi - lo <= 8,
    ensures
        w as nat == bytes_val(bs@.subrange(lo as int, hi as int)),
{
    let mut w: u64 = 0;
    let mut j: usize = hi;
    proof {
        assert(bs@.subrange(hi as int, hi as int) =~= Seq::<u8>::empty());
        assert(byte_pow(0) == 1);
    }
    while j > lo
        invariant
            lo <= j <= hi,
            hi - lo <= 8,
            hi <= bs.len(),
            w as nat == bytes_val(bs@.subrange(j as int, hi as int)),
            (w as nat) < byte_pow((hi - j) as nat),
        decreases j,
    {
        let ghost k = (hi - j) as nat;
        proof {
            let s1 = bs@.subrange(j - 1, hi as int);
            assert(s1.drop_first() =~= bs@.subrange(j as int, hi as int));
            assert(s1[0] == bs@[j - 1]);
            assert(byte_pow(k + 1) == 256 * byte_pow(k));
            assert(byte_pow(k + 1) <= WORD) by {
                lemma_byte_pow_mono(k + 1, 8);
                lemma_byte_pow_word();
            }
            let b = bs@[j - 1] as nat;
            assert((w as nat) * 256 + b < 256 * byte_pow(k)) by (nonlinear_arith)
                requires
                    (w as nat) < byte_pow(k),
                    b < 256,
            ;
        }
        w = w * 256 + bs[j - 1] as u64;
        j = j - 1;
    }
    w
}

proof fn lemma_byte_pow_mono(a: nat, b: nat)
    requires
        a <= b,
    ensures
        byte_pow(a) <= byte_pow(b),
    decreases b,
{
    if a < b {
        lemma_byte_pow_mono(a, (b - 1) as nat);
    }
}

impl Noun {
    /// The atom whose little-endian bytes are `bs`.
    pub fn from_bytes(bs: &Vec<u8>) -> (r: Noun)
        ensures
            r.wf(),
            r@ == Tree::Atom(bytes_val(bs@)),
    {
        let mut ws: Vec<u64> = Vec::new();
        let mut k: usize = 0;
        proof {
            assert(bs@.skip(0) =~= bs@);
            assert(word_pow(0) == 1);
            let v = bytes_val(bs@);
            assert(0 + 1 * v == v) by (nonlinear_arith);
        }
        while k < bs.len()
            invariant
                k <= bs.len(),
                words_val(ws@) + word_pow(ws@.len()) * bytes_val(bs@.skip(k as int)) == bytes_val(
                    bs@,
                ),
            decreases bs.len() - k,
        {
            let end: usize = if bs.len() - k > 8 {
                k + 8
            } else {
                bs.len()
            };
            let w = chunk_val(bs, k, end);
            proof {
                let rest = bs@.skip(k as int);
                let m = (end - k) as nat;
                lemma_bytes_split(rest, m);
                assert(rest.take(m as int) =~= bs@.subrange(k as int, end as int));
                assert(rest.skip(m as int) =~= bs@.skip(end as int));
                lemma_words_val_push(ws@, w);
                let n = ws@.len();
                let hv = bytes_val(bs@.skip(end as int));
                if m == 8 {
                    lemma_byte_pow_word();
                } else {
                    assert(bs@.skip(end as int) =~= Seq::<u8>::empty());
                    assert(hv == 0);
                }
                assert(word_pow(n + 1) == WORD as nat * word_pow(n));
                let q = word_pow(n);
                assert(q * (w as nat + byte_pow(m) * hv) == (w as nat) * q + (WORD as nat * q) * hv)
                    by (nonlinear_arith)
                    requires
                        m == 8 ==> byte_pow(m) == WORD,
                        m != 8 ==> hv == 0,
                ;
            }
            ws.push(w);
            k = end;
        }
        proof {
            assert(bs@.skip(k as int) =~= Seq::<u8>::empty());
            assert(bytes_val(bs@.skip(k as int)) == 0);
            let q = word_pow(ws@.len());
            assert(q * 0 == 0) by (nonlinear_arith);
            assert(words_val(ws@) == bytes_val(bs@));
        }
        while ws.len() > 0 && ws[ws.len() - 1] == 0
            invariant
                words_val(ws@) == bytes_val(bs@),
            decreases ws.len(),
        {
            let ghost before = ws@;
            ws.pop();
            proof {
                assert(before =~= ws@.push(0));
                lemma_words_val_push(ws@, 0);
            }
        }
        if ws.len() == 0 {
            Noun::Direct(0)
        } else if ws.len() == 1 {
            proof {
                assert(ws@.drop_first() =~= Seq::<u64>::empty());
            }
            Noun::Direct(ws[0])
        } else {
            Noun::Indirect(Rc::new(ws))
        }
    }
}

} // verus!
