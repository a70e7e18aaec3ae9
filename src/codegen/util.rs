use crate::axis::{fetch, raw_slot};
use crate::hamt::Hamt;
use crate::interpreter::{interpret, Context, Error};
use crate::nock::{atom, evals, nock, op, Outcome};
use crate::noun::{cell, size, Noun, Tree};
use vstd::prelude::*;

verus! {

/// The list of the nodes of a Hoon tree `t` (`0`, or `[node left right]`),
/// each consed onto `acc` in the order of a depth-first walk that visits a
/// node, then its left subtree, then its right one. `None` where `t` is not
/// such a tree.
pub open spec fn tap_tree(t: Tree, acc: Tree) -> Option<Tree>
    decreases t,
{
    if t == atom(0) {
        Some(acc)
    } else {
        match t {
            Tree::Cell(n, lr) => match *lr {
                Tree::Cell(l, r) => match tap_tree(*l, cell(*n, acc)) {
                    Some(a2) => tap_tree(*r, a2),
                    None => None,
                },
                _ => None,
            },
            _ => None,
        }
    }
}

/// The nodes of the tree `a` consed onto `b`.
fn tap_in(a: &Noun, b: Noun) -> (r: Result<Noun, Error>)
    requires
        a.wf(),
        b.wf(),
    ensures
        r matches Ok(v) ==> v.wf() && tap_tree(a@, b@) == Some(v@),
        r is Err ==> tap_tree(a@, b@) is None,
    decreases size(a@),
{
    if a.as_direct() == Some(0u64) {
        return Ok(b);
    }
    let (n, lr) = match a.as_cell() {
        Some(p) => p,
        None => {
            return Err(Error::Crash);
        },
    };
    let (l, r) = match lr.as_cell() {
        Some(p) => p,
        None => {
            return Err(Error::Crash);
        },
    };
    proof {
        assert(size(a@) == 1 + size(n@) + size(lr@));
        assert(size(lr@) == 1 + size(l@) + size(r@));
    }
    let b2 = tap_in(l, Noun::cell(n.copy(), b))?;
    tap_in(r, b2)
}

/// The nodes of the Hoon map `map` (its tree sits at axis 30), as a list in
/// the order of `tap_tree`.
pub fn tap(map: &Noun) -> (r: Result<Noun, Error>)
    requires
        map.wf(),
    ensures
        r matches Ok(v) ==> v.wf() && (fetch(map@, 30) matches Some(t) && tap_tree(t, atom(0))
            == Some(v@)),
        r is Err ==> (fetch(map@, 30) matches Some(t) ==> tap_tree(t, atom(0)) is None),
{
    match raw_slot(map, 30) {
        Some(t) => tap_in(&t, Noun::direct(0)),
        None => Err(Error::Crash),
    }
}

/// The tag of a compilation request, `%comp` as a little-endian atom.
pub const COMP: u64 = 0x706d_6f63;

/// Axis of the `+peek` arm in the code-generation core.
pub const PEEK_AXIS: u64 = 4;

/// Axis of the `+poke` arm in the code-generation core.
pub const POKE_AXIS: u64 = 86;

/// The formula that runs the arm at `axis` of the subject against the subject.
pub open spec fn kick_formula(axis: nat) -> Tree {
    op(9, cell(atom(axis), op(0, atom(1))))
}

/// The formula that calls a gate, held as subject, with `sample`.
pub open spec fn slam_formula(sample: Tree) -> Tree {
    op(9, cell(atom(2), op(10, cell(cell(atom(6), op(1, sample)), op(0, atom(1))))))
}

fn kick_formula_exec(axis: u64) -> (r: Noun)
    ensures
        r.wf(),
        r@ == kick_formula(axis as nat),
{
    Noun::cell(
        Noun::direct(9),
        Noun::cell(Noun::direct(axis), Noun::cell(Noun::direct(0), Noun::direct(1))),
    )
}

fn slam_formula_exec(sample: Noun) -> (r: Noun)
    requires
        sample.wf(),
    ensures
        r.wf(),
        r@ == slam_formula(sample@),
{
    let edit = Noun::cell(
        Noun::cell(Noun::direct(6), Noun::cell(Noun::direct(1), sample)),
        Noun::cell(Noun::direct(0), Noun::direct(1)),
    );
    Noun::cell(
        Noun::direct(9),
        Noun::cell(Noun::direct(2), Noun::cell(Noun::direct(10), edit)),
    )
}

/// Runs the arm at `axis` of `core` against the core.
pub fn kick(context: &mut Context, core: &Noun, axis: u64) -> (r: Result<Noun, Error>)
    requires
        old(context).wf(),
        core.wf(),
    ensures
        final(context).wf(),
        final(context).line == old(context).line,
        final(context).budget == old(context).budget,
        r matches Ok(v) ==> v.wf() && evals(core@, kick_formula(axis as nat), Outcome::Value(v@)),
        r matches Err(Error::Crash) ==> evals(core@, kick_formula(axis as nat), Outcome::Crash),
        r matches Err(Error::Exhausted) ==> nock(
            core@,
            kick_formula(axis as nat),
            old(context).budget as nat,
        ) is Exhausted,
{
    let f = kick_formula_exec(axis);
    interpret(context, core, &f)
}

/// Calls `gate` with `sample`.
pub fn slam(context: &mut Context, gate: &Noun, sample: Noun) -> (r: Result<Noun, Error>)
    requires
        old(context).wf(),
        gate.wf(),
        sample.wf(),
    ensures
        final(context).wf(),
        final(context).line == old(context).line,
        final(context).budget == old(context).budget,
        r matches Ok(v) ==> v.wf() && evals(gate@, slam_formula(sample@), Outcome::Value(v@)),
        r matches Err(Error::Crash) ==> evals(gate@, slam_formula(sample@), Outcome::Crash),
        r matches Err(Error::Exhausted) ==> nock(
            gate@,
            slam_formula(sample@),
            old(context).budget as nat,
        ) is Exhausted,
{
    let f = slam_formula_exec(sample);
    interpret(context, gate, &f)
}

/// What asking the core `line` through the arm at `axis` with `sample` comes to.
pub open spec fn asks(line: Tree, axis: nat, sample: Tree, o: Outcome) -> bool {
    ||| evals(line, kick_formula(axis), Outcome::Crash) && o is Crash
    ||| exists|arm: Tree|
        evals(line, kick_formula(axis), Outcome::Value(arm)) && evals(arm, slam_formula(sample), o)
}

/// Asking the core `line` through the arm at `axis` with `sample` runs out of
/// depth `bud`: getting the arm does, or the call of the arm it gives does.
pub open spec fn asks_exhausted(line: Tree, axis: nat, sample: Tree, bud: nat) -> bool {
    ||| nock(line, kick_formula(axis), bud) is Exhausted
    ||| exists|arm: Tree|
        evals(line, kick_formula(axis), Outcome::Value(arm)) && nock(arm, slam_formula(sample), bud)
            is Exhausted
}

fn ask(context: &mut Context, axis: u64, sample: Noun) -> (r: Result<Noun, Error>)
    requires
        old(context).wf(),
        sample.wf(),
    ensures
        old(context).line is None ==> r matches Err(Error::Crash),
        r matches Err(Error::Exhausted) ==> (old(context).line matches Some(l) && asks_exhausted(
            l@,
            axis as nat,
            sample@,
            old(context).budget as nat,
        )),
        final(context).wf(),
        final(context).line == old(context).line,
        final(context).budget == old(context).budget,
        r matches Ok(v) ==> v.wf() && (old(context).line matches Some(l) && asks(
            l@,
            axis as nat,
            sample@,
            Outcome::Value(v@),
        )),
        r matches Err(Error::Crash) ==> (old(context).line matches Some(l) ==> asks(
            l@,
            axis as nat,
            sample@,
            Outcome::Crash,
        )),
{
    let line = match &context.line {
        Some(l) => l.copy(),
        None => {
            return Err(Error::Crash);
        },
    };
    let arm = kick(context, &line, axis)?;
    slam(context, &arm, sample)
}

/// Asks the code-generation core for the code of `formula` against `subject`
/// through its `+peek` arm. Fails where the context has no core.
pub fn peek(context: &mut Context, subject: &Noun, formula: &Noun) -> (r: Result<Noun, Error>)
    requires
        old(context).wf(),
        subject.wf(),
        formula.wf(),
    ensures
        old(context).line is None ==> r matches Err(Error::Crash),
        r matches Err(Error::Exhausted) ==> (old(context).line matches Some(l) && asks_exhausted(
            l@,
            PEEK_AXIS as nat,
            cell(subject@, formula@),
            old(context).budget as nat,
        )),
        final(context).wf(),
        final(context).line == old(context).line,
        r matches Ok(v) ==> v.wf() && (old(context).line matches Some(l) && asks(
            l@,
            PEEK_AXIS as nat,
            cell(subject@, formula@),
            Outcome::Value(v@),
        )),
        r matches Err(Error::Crash) ==> (old(context).line matches Some(l) ==> asks(
            l@,
            PEEK_AXIS as nat,
            cell(subject@, formula@),
            Outcome::Crash,
        )),
{
    let sam = Noun::cell(subject.copy(), formula.copy());
    ask(context, PEEK_AXIS, sam)
}

/// Hands `gist` to the code-generation core through its `+poke` arm and
/// returns the new core. Fails where the context has no core.
pub fn poke(context: &mut Context, gist: &Noun) -> (r: Result<Noun, Error>)
    requires
        old(context).wf(),
        gist.wf(),
    ensures
        old(context).line is None ==> r matches Err(Error::Crash),
        r matches Err(Error::Exhausted) ==> (old(context).line matches Some(l) && asks_exhausted(
            l@,
            POKE_AXIS as nat,
            gist@,
            old(context).budget as nat,
        )),
        final(context).wf(),
        final(context).line == old(context).line,
        r matches Ok(v) ==> v.wf() && (old(context).line matches Some(l) && asks(
            l@,
            POKE_AXIS as nat,
            gist@,
            Outcome::Value(v@),
        )),
        r matches Err(Error::Crash) ==> (old(context).line matches Some(l) ==> asks(
            l@,
            POKE_AXIS as nat,
            gist@,
            Outcome::Crash,
        )),
{
    ask(context, POKE_AXIS, gist.copy())
}

/// The compilation request `[%comp 0 s f]`.
pub fn comp(s: &Noun, f: &Noun) -> (r: Noun)
    requires
        s.wf(),
        f.wf(),
    ensures
        r.wf(),
        r@ == cell(atom(COMP as nat), cell(atom(0), cell(s@, f@))),
{
    Noun::cell(
        Noun::direct(COMP),
        Noun::cell(Noun::direct(0), Noun::cell(s.copy(), f.copy())),
    )
}

/// The map whose entries are those of list `kvs` (of `[key value]` cells)
/// inserted into `m` in list order. `None` where `kvs` is no such list.
pub open spec fn list_map(kvs: Tree, m: Map<Tree, Tree>) -> Option<Map<Tree, Tree>>
    decreases kvs,
{
    if kvs == atom(0) {
        Some(m)
    } else {
        match kvs {
            Tree::Cell(kv, rest) => match *kv {
                Tree::Cell(k, v) => list_map(*rest, m.insert(*k, *v)),
                _ => None,
            },
            _ => None,
        }
    }
}

/// The values of a map of nouns, as trees.
pub open spec fn tree_values(m: Map<Tree, Noun>) -> Map<Tree, Tree> {
    m.map_values(|n: Noun| n@)
}

/// Inserts the `[key value]` pairs of list `kvs` into `acc`, in list order.
fn insert_list(kvs: &Noun, acc: Hamt<Noun>) -> (r: Result<Hamt<Noun>, Error>)
    requires
        kvs.wf(),
        acc.wf(),
    ensures
        r matches Ok(h) ==> h.wf() && list_map(kvs@, tree_values(acc@)) == Some(tree_values(h@)),
        r is Err ==> list_map(kvs@, tree_values(acc@)) is None,
    decreases size(kvs@),
{
    if kvs.as_direct() == Some(0u64) {
        return Ok(acc);
    }
    let (kv, rest) = match kvs.as_cell() {
        Some(p) => p,
        None => {
            return Err(Error::Crash);
        },
    };
    let (k, v) = match kv.as_cell() {
        Some(p) => p,
        None => {
            return Err(Error::Crash);
        },
    };
    let mut key = k.copy();
    let next = acc.insert(&mut key, v.copy());
    proof {
        assert(tree_values(next@) =~= tree_values(acc@).insert(k@, v@));
        assert(size(kvs@) == 1 + size(kv@) + size(rest@));
    }
    insert_list(rest, next)
}

/// The map noun `will` (a Hoon map of `[key value]` entries) as a trie.
pub fn part_will(will: &Noun) -> (r: Result<Hamt<Noun>, Error>)
    requires
        will.wf(),
    ensures
        r matches Ok(h) ==> h.wf() && (fetch(will@, 30) matches Some(t) && (tap_tree(t, atom(0))
            matches Some(kvs) && list_map(kvs, Map::empty()) == Some(tree_values(h@)))),
        r is Err ==> (fetch(will@, 30) matches Some(t) ==> (tap_tree(t, atom(0)) matches Some(kvs)
            ==> list_map(kvs, Map::empty()) is None)),
{
    let kvs = tap(will)?;
    let empty: Hamt<Noun> = Hamt::new();
    proof {
        assert(tree_values(empty@) =~= Map::<Tree, Tree>::empty());
    }
    insert_list(&kvs, empty)
}

} // verus!
