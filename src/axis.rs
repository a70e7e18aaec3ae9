use crate::noun::{atom_val, cell, Noun, Tree};
use vstd::arithmetic::power2::{lemma2_to64_rest, lemma_pow2_unfold, pow2};
use vstd::prelude::*;

verus! {

/// The subtree at axis `a`: 1 is the whole tree, `2a` and `2a + 1` are the
/// head and tail of the subtree at `a`. Axis 0, and a step into an atom, have none.
pub open spec fn fetch(t: Tree, a: nat) -> Option<Tree>
    decreases a,
{
    if a == 0 {
        None
    } else if a == 1 {
        Some(t)
    } else {
        match fetch(t, a / 2) {
            Some(Tree::Cell(h, tl)) => Some(
                if a % 2 == 0 {
                    *h
                } else {
                    *tl
                },
            ),
            _ => None,
        }
    }
}

/// `t` with the subtree at axis `a` replaced by `v`; every other subtree is kept.
pub open spec fn edited(t: Tree, a: nat, v: Tree) -> Option<Tree>
    decreases a,
{
    if a == 0 {
        None
    } else if a == 1 {
        Some(v)
    } else {
        match fetch(t, a / 2) {
            Some(Tree::Cell(h, tl)) => edited(
                t,
                a / 2,
                if a % 2 == 0 {
                    cell(v, *tl)
                } else {
                    cell(*h, v)
                },
            ),
            _ => None,
        }
    }
}

/// Axis `x` names `b` or a subtree of it.
pub open spec fn is_under(x: nat, b: nat) -> bool
    decreases x,
{
    x == b || (x > b && x >= 2 && is_under(x / 2, b))
}

/// The number whose binary digits are `x` followed by `bits`, the last of
/// `bits` most significant among them and `bits[0]` lowest.
pub open spec fn join(x: nat, bits: Seq<bool>) -> nat
    decreases bits.len(),
{
    if bits.len() == 0 {
        x
    } else {
        2 * join(x, bits.drop_first()) + if bits[0] {
            1nat
        } else {
            0nat
        }
    }
}

/// The axis reached after the turns `p[i..]` were taken from the root.
pub open spec fn ancestor(p: Seq<bool>, i: int) -> nat {
    join(1, p.subrange(i, p.len() as int))
}

proof fn lemma_join_push(x: nat, bits: Seq<bool>, b: bool)
    ensures
        join(x, bits.push(b)) == join(
            2 * x + if b {
                1nat
            } else {
                0nat
            },
            bits,
        ),
    decreases bits.len(),
{
    if bits.len() > 0 {
        assert(bits.push(b).drop_first() =~= bits.drop_first().push(b));
        assert(bits.push(b)[0] == bits[0]);
        lemma_join_push(x, bits.drop_first(), b);
    } else {
        assert(bits.push(b).drop_first() =~= bits);
        assert(bits.push(b)[0] == b);
        assert(join(x, bits) == x);
        assert(join(2 * x + if b { 1nat } else { 0nat }, bits) == 2 * x + if b { 1nat } else { 0nat });
    }
}

proof fn lemma_join_pos(x: nat, bits: Seq<bool>)
    requires
        x >= 1,
    ensures
        join(x, bits) >= 1,
    decreases bits.len(),
{
    if bits.len() > 0 {
        lemma_join_pos(x, bits.drop_first());
    }
}

proof fn lemma_ancestor_step(p: Seq<bool>, i: int)
    requires
        1 <= i <= p.len(),
    ensures
        ancestor(p, i) >= 1,
        ancestor(p, i - 1) == 2 * ancestor(p, i) + if p[i - 1] {
            1nat
        } else {
            0nat
        },
        ancestor(p, i - 1) / 2 == ancestor(p, i),
        ancestor(p, i - 1) % 2 == if p[i - 1] {
            1nat
        } else {
            0nat
        },
{
    let s = p.subrange(i - 1, p.len() as int);
    assert(s.drop_first() =~= p.subrange(i, p.len() as int));
    lemma_join_pos(1, p.subrange(i, p.len() as int));
}

/// A subtree exists only below an existing subtree.
proof fn lemma_fetch_parent(t: Tree, a: nat)
    requires
        a >= 2,
        fetch(t, a) is Some,
    ensures
        fetch(t, a / 2) matches Some(Tree::Cell(_, _)),
{
}

proof fn lemma_fetch_ancestors(t: Tree, p: Seq<bool>, i: int, j: int)
    requires
        0 <= i <= j <= p.len(),
        fetch(t, ancestor(p, i)) is Some,
    ensures
        fetch(t, ancestor(p, j)) is Some,
    decreases j - i,
{
    if i < j {
        lemma_ancestor_step(p, i + 1);
        lemma_fetch_parent(t, ancestor(p, i));
        lemma_fetch_ancestors(t, p, i + 1, j);
    }
}

/// The turns from the root down to an axis, the last turn first: `true` for a tail.
pub fn axis_path(axis: &Noun) -> (r: Option<Vec<bool>>)
    requires
        axis.wf(),
    ensures
        match axis@ {
            Tree::Atom(a) => if a == 0 {
                r is None
            } else {
                r matches Some(p) && join(1, p@) == a
            },
            Tree::Cell(_, _) => r is None,
        },
{
    match axis {
        Noun::Direct(x) => {
            if *x == 0 {
                return None;
            }
            Some(top_bits(*x))
        },
        Noun::Indirect(ws) => {
            let ghost mut rem: nat = crate::noun::words_val(ws@);
            let mut bits: Vec<bool> = Vec::new();
            let mut k: usize = 0;
            proof {
                assert(ws@.subrange(0, ws.len() as int) =~= ws@);
            }
            while k + 1 < ws.len()
                invariant
                    crate::noun::wf_words(ws@),
                    k < ws.len(),
                    join(rem, bits@) == crate::noun::words_val(ws@),
                    rem == crate::noun::words_val(ws@.subrange(k as int, ws.len() as int)),
                decreases ws.len() - k,
            {
                let ghost hi = crate::noun::words_val(ws@.subrange(k + 1, ws.len() as int));
                proof {
                    let s = ws@.subrange(k as int, ws.len() as int);
                    assert(s.drop_first() =~= ws@.subrange(k + 1, ws.len() as int));
                    lemma2_to64_rest();
                    assert(rem == ws@[k as int] as nat + pow2(64) * hi);
                }
                let mut w: u64 = ws[k];
                let mut j: usize = 0;
                while j < 64
                    invariant
                        crate::noun::wf_words(ws@),
                        k + 1 < ws.len(),
                        hi == crate::noun::words_val(ws@.subrange(k + 1, ws.len() as int)),
                        j <= 64,
                        w < pow2((64 - j) as nat),
                        rem == w as nat + pow2((64 - j) as nat) * hi,
                        join(rem, bits@) == crate::noun::words_val(ws@),
                    decreases 64 - j,
                {
                    proof {
                        lemma_pow2_unfold((64 - j) as nat);
                        let c = pow2((63 - j) as nat) * hi;
                        assert(pow2((64 - j) as nat) * hi == 2 * c) by (nonlinear_arith)
                            requires
                                pow2((64 - j) as nat) == 2 * pow2((63 - j) as nat),
                                c == pow2((63 - j) as nat) * hi,
                        ;
                        lemma_join_push(rem / 2, bits@, w % 2 == 1);
                    }
                    bits.push(w % 2 == 1);
                    proof {
                        rem = rem / 2;
                    }
                    w = w / 2;
                    j = j + 1;
                }
                proof {
                    assert(pow2(0) == 1) by {
                        vstd::arithmetic::power2::lemma2_to64();
                    }
                    assert(w == 0);
                    assert(pow2(0) * hi == hi) by (nonlinear_arith)
                        requires
                            pow2(0) == 1,
                    ;
                    assert(rem == hi);
                }
                k = k + 1;
            }
            let top = ws[k];
            proof {
                let s = ws@.subrange(k as int, ws.len() as int);
                assert(s.drop_first() =~= Seq::<u64>::empty());
                assert(s[0] == top);
                assert(crate::noun::words_val(s.drop_first()) == 0);
                assert(rem == top as nat);
            }
            let mut more = top_bits(top);
            proof {
                lemma_join_concat(1, bits@, more@);
            }
            bits.append(&mut more);
            proof {
                crate::noun::lemma_words_val_wide(ws@);
            }
            Some(bits)
        },
        Noun::Cell(_) => None,
    }
}

/// The binary digits of `x` below its leading one, lowest first.
fn top_bits(x: u64) -> (bits: Vec<bool>)
    requires
        x >= 1,
    ensures
        join(1, bits@) == x,
{
    let mut bits: Vec<bool> = Vec::new();
    let mut v: u64 = x;
    while v > 1
        invariant
            v >= 1,
            join(v as nat, bits@) == x,
        decreases v,
    {
        proof {
            lemma_join_push((v / 2) as nat, bits@, v % 2 == 1);
        }
        bits.push(v % 2 == 1);
        v = v / 2;
    }
    bits
}

proof fn lemma_join_concat(x: nat, a: Seq<bool>, b: Seq<bool>)
    ensures
        join(x, a + b) == join(join(x, b), a),
    decreases a.len(),
{
    if a.len() == 0 {
        assert(a + b =~= b);
    } else {
        assert((a + b).drop_first() =~= a.drop_first() + b);
        lemma_join_concat(x, a.drop_first(), b);
    }
}


/// Follows the turns `p` down from `noun`, the last turn first.
fn walk(noun: &Noun, p: &Vec<bool>) -> (r: Option<Noun>)
    requires
        noun.wf(),
    ensures
        r matches Some(n) ==> n.wf() && fetch(noun@, join(1, p@)) == Some(n@),
        r is None ==> fetch(noun@, join(1, p@)) is None,
{
    let mut cur = noun.copy();
    let mut i: usize = p.len();
    proof {
        assert(p@.subrange(p@.len() as int, p@.len() as int) =~= Seq::<bool>::empty());
    }
    while i > 0
        invariant
            cur.wf(),
            i <= p.len(),
            fetch(noun@, ancestor(p@, i as int)) == Some(cur@),
        decreases i,
    {
        proof {
            lemma_ancestor_step(p@, i as int);
        }
        let next = match cur.as_cell() {
            Some((h, t)) => {
                if p[i - 1] {
                    t.copy()
                } else {
                    h.copy()
                }
            },
            None => {
                proof {
                    assert(p@.subrange(0, p@.len() as int) =~= p@);
                    if fetch(noun@, ancestor(p@, 0)) is Some {
                        lemma_fetch_ancestors(noun@, p@, 0, i - 1);
                    }
                }
                return None;
            },
        };
        cur = next;
        i = i - 1;
    }
    proof {
        assert(p@.subrange(0, p@.len() as int) =~= p@);
    }
    Some(cur)
}

/// The subtree of `noun` at `axis`. `None` where the axis is 0 or a cell, or
/// where the walk would step into an atom.
pub fn slot(noun: &Noun, axis: &Noun) -> (r: Option<Noun>)
    requires
        noun.wf(),
        axis.wf(),
    ensures
        axis@ is Cell ==> r is None,
        axis@ is Atom ==> (r is Some <==> fetch(noun@, atom_val(axis@)) is Some),
        r matches Some(n) ==> n.wf() && fetch(noun@, atom_val(axis@)) == Some(n@),
{
    match axis_path(axis) {
        Some(p) => walk(noun, &p),
        None => None,
    }
}

/// The subtree of `noun` at an axis given as a machine word.
pub fn raw_slot(noun: &Noun, axis: u64) -> (r: Option<Noun>)
    requires
        noun.wf(),
    ensures
        r is Some <==> fetch(noun@, axis as nat) is Some,
        r matches Some(n) ==> n.wf() && fetch(noun@, axis as nat) == Some(n@),
{
    slot(noun, &Noun::direct(axis))
}

/// Siblings collected on the way down: entry `k` is the subtree beside the
/// turn `p[p.len() - 1 - k]`.
pub open spec fn siblings_ok(t: Tree, p: Seq<bool>, sibs: Seq<Noun>) -> bool {
    forall|k: int|
        0 <= k < sibs.len() ==> {
            let m = p.len() - 1 - k;
            &&& (#[trigger] sibs[k]).wf()
            &&& fetch(t, ancestor(p, m + 1)) matches Some(Tree::Cell(h, tl))
            &&& sibs[k]@ == if p[m] {
                *h
            } else {
                *tl
            }
        }
}

/// `tree` with the subtree at `axis` replaced by `patch`, rebuilding one new
/// cell per level on the way and sharing every untouched sibling. `None` where
/// the axis is 0 or a cell, or where the path steps into an atom.
pub fn edit(axis: &Noun, patch: Noun, tree: &Noun) -> (r: Option<Noun>)
    requires
        axis.wf(),
        patch.wf(),
        tree.wf(),
    ensures
        axis@ is Cell ==> r is None,
        axis@ is Atom ==> (r is Some <==> edited(tree@, atom_val(axis@), patch@) is Some),
        r matches Some(n) ==> n.wf() && edited(tree@, atom_val(axis@), patch@) == Some(n@),
{
    let p = match axis_path(axis) {
        Some(p) => p,
        None => {
            return None;
        },
    };
    let ghost a = join(1, p@);
    let mut cur = tree.copy();
    let mut sibs: Vec<Noun> = Vec::new();
    let mut i: usize = p.len();
    proof {
        assert(p@.subrange(p@.len() as int, p@.len() as int) =~= Seq::<bool>::empty());
        assert(p@.subrange(0, p@.len() as int) =~= p@);
    }
    while i > 0
        invariant
            cur.wf(),
            i <= p.len(),
            a == ancestor(p@, 0),
            axis@ is Atom,
            a == atom_val(axis@),
            fetch(tree@, ancestor(p@, i as int)) == Some(cur@),
            sibs@.len() == p@.len() - i,
            siblings_ok(tree@, p@, sibs@),
        decreases i,
    {
        proof {
            lemma_ancestor_step(p@, i as int);
        }
        let ghost before = sibs@;
        let next = match cur.as_cell() {
            Some((h, t)) => {
                if p[i - 1] {
                    sibs.push(h.copy());
                    t.copy()
                } else {
                    sibs.push(t.copy());
                    h.copy()
                }
            },
            None => {
                proof {
                    lemma_ancestor_step(p@, 1);
                    if edited(tree@, a, patch@) is Some {
                        assert(fetch(tree@, ancestor(p@, 1)) matches Some(Tree::Cell(_, _)));
                        if i >= 2 {
                            lemma_fetch_ancestors(tree@, p@, 1, i - 1);
                            lemma_fetch_parent(tree@, ancestor(p@, i - 1));
                        }
                    }
                }
                return None;
            },
        };
        proof {
            assert forall|k: int| 0 <= k < sibs@.len() implies {
                let m = p@.len() - 1 - k;
                &&& (#[trigger] sibs@[k]).wf()
                &&& fetch(tree@, ancestor(p@, m + 1)) matches Some(Tree::Cell(h, tl))
                &&& sibs@[k]@ == if p@[m] {
                    *h
                } else {
                    *tl
                }
            } by {
                if k < before.len() {
                    assert(sibs@[k] == before[k]);
                }
            }
        }
        cur = next;
        i = i - 1;
    }
    let mut res = patch;
    let mut m: usize = 0;
    while m < p.len()
        invariant
            res.wf(),
            m <= p.len(),
            sibs@.len() == p@.len() - m,
            siblings_ok(tree@, p@, sibs@),
            edited(tree@, a, patch@) == edited(tree@, ancestor(p@, m as int), res@),
            axis@ is Atom,
            a == atom_val(axis@),
        decreases p.len() - m,
    {
        proof {
            lemma_ancestor_step(p@, m + 1);
        }
        let ghost before = sibs@;
        let s = match sibs.pop() {
            Some(s) => s,
            None => {
                return None;
            },
        };
        proof {
            assert(before =~= sibs@.push(s));
            assert(before[before.len() - 1] == s);
            assert forall|k: int| 0 <= k < sibs@.len() implies {
                let m = p@.len() - 1 - k;
                &&& (#[trigger] sibs@[k]).wf()
                &&& fetch(tree@, ancestor(p@, m + 1)) matches Some(Tree::Cell(h, tl))
                &&& sibs@[k]@ == if p@[m] {
                    *h
                } else {
                    *tl
                }
            } by {
                assert(sibs@[k] == before[k]);
            }
        }
        res = if p[m] {
            Noun::cell(s, res)
        } else {
            Noun::cell(res, s)
        };
        m = m + 1;
    }
    Some(res)
}

/// Every axis at least 1 lies under the root.
proof fn lemma_under_root(c: nat)
    requires
        c >= 1,
    ensures
        is_under(c, 1),
    decreases c,
{
    if c >= 2 {
        lemma_under_root(c / 2);
    }
}

proof fn lemma_under_trans(a: nat, b: nat, c: nat)
    requires
        is_under(a, b),
        is_under(b, c),
    ensures
        is_under(a, c),
    decreases a,
{
    if a != b {
        lemma_under_trans(a / 2, b, c);
    }
}

proof fn lemma_under_split(c: nat, x: nat)
    requires
        x >= 1,
        is_under(c, x),
        c != x,
    ensures
        is_under(c, 2 * x) || is_under(c, 2 * x + 1),
    decreases c,
{
    if c / 2 != x {
        lemma_under_split(c / 2, x);
    }
}

proof fn lemma_fetch_congruent(r: Tree, t: Tree, x: nat, c: nat)
    requires
        x >= 1,
        is_under(c, x),
        fetch(r, x) == fetch(t, x),
    ensures
        fetch(r, c) == fetch(t, c),
    decreases c,
{
    if c != x {
        lemma_fetch_congruent(r, t, x, c / 2);
    }
}

proof fn lemma_edit_fetch_same(t: Tree, b: nat, v: Tree)
    requires
        edited(t, b, v) is Some,
    ensures
        fetch(edited(t, b, v)->0, b) == Some(v),
    decreases b,
{
    if b >= 2 {
        let ft = fetch(t, b / 2)->0;
        let v2 = if b % 2 == 0 {
            cell(v, *ft->Cell_1)
        } else {
            cell(*ft->Cell_0, v)
        };
        lemma_edit_fetch_same(t, b / 2, v2);
    }
}

proof fn lemma_edit_fetch_other(t: Tree, b: nat, v: Tree, c: nat)
    requires
        edited(t, b, v) is Some,
        c >= 1,
        !is_under(c, b),
        !is_under(b, c),
    ensures
        fetch(edited(t, b, v)->0, c) == fetch(t, c),
    decreases b,
{
    if b == 1 {
        lemma_under_root(c);
    } else {
        let p = b / 2;
        let ft = fetch(t, p)->0;
        let v2 = if b % 2 == 0 {
            cell(v, *ft->Cell_1)
        } else {
            cell(*ft->Cell_0, v)
        };
        let r = edited(t, p, v2)->0;
        assert(is_under(p, p));
        assert(is_under(b, p));
        if is_under(p, c) {
            lemma_under_trans(b, p, c);
        } else if !is_under(c, p) {
            lemma_edit_fetch_other(t, p, v2, c);
        } else {
            lemma_under_split(c, p);
            let s: nat = if b % 2 == 0 {
                b + 1
            } else {
                (b - 1) as nat
            };
            assert(is_under(c, s));
            lemma_edit_fetch_same(t, p, v2);
            assert(s / 2 == p);
            assert(fetch(r, s) == fetch(t, s));
            lemma_fetch_congruent(r, t, s, c);
        }
    }
}

/// Axis 1 is the whole tree, axis 2 the head and axis 3 the tail of a cell;
/// axis 0 names nothing.
pub proof fn lemma_axis_fetch(h: Tree, t: Tree, x: Tree)
    ensures
        fetch(cell(h, t), 1) == Some(cell(h, t)),
        fetch(cell(h, t), 2) == Some(h),
        fetch(cell(h, t), 3) == Some(t),
        fetch(x, 0) is None,
{
    reveal_with_fuel(fetch, 2);
}

/// After an edit, the edited axis holds the patch, and every axis that is
/// neither under the edited one nor above it holds what it held before.
pub proof fn lemma_edit_then_fetch(t: Tree, b: nat, v: Tree, c: nat)
    requires
        edited(t, b, v) is Some,
    ensures
        fetch(edited(t, b, v)->0, b) == Some(v),
        c >= 1 && !is_under(c, b) && !is_under(b, c) ==> fetch(edited(t, b, v)->0, c) == fetch(t, c),
{
    lemma_edit_fetch_same(t, b, v);
    if c >= 1 && !is_under(c, b) && !is_under(b, c) {
        lemma_edit_fetch_other(t, b, v, c);
    }
}

} // verus!
