use crate::axis::{edited, fetch};
use crate::noun::{cell, Tree};
use vstd::prelude::*;

verus! {

/// The tag of the memoization hint, `%memo` as a little-endian atom.
pub const MEMO: u64 = 0x6f6d_656d;

/// The tag of the diagnostic hint, `%slog` as a little-endian atom.
pub const SLOG: u64 = 0x676f_6c73;

/// What evaluating a formula against a subject comes to within a bound on
/// nesting depth.
pub enum Outcome {
    Value(Tree),
    Crash,
    Exhausted,
}

pub open spec fn atom(n: nat) -> Tree {
    Tree::Atom(n)
}

/// The formula `[op arg]` for an opcode.
pub open spec fn op(code: nat, arg: Tree) -> Tree {
    cell(atom(code), arg)
}

/// Evaluation of formula `f` against subject `s`, nesting at most `n` deep.
/// A hint with a cell annotation `[tag clue]` evaluates its clue first, except
/// for the memoization hint, whose clue is never evaluated.
pub open spec fn nock(s: Tree, f: Tree, n: nat) -> Outcome
    decreases n, 1nat,
{
    if n == 0 {
        Outcome::Exhausted
    } else {
        let m = (n - 1) as nat;
        match f {
            Tree::Atom(_) => Outcome::Crash,
            Tree::Cell(hd, arg) => match *hd {
                Tree::Cell(_, _) => match nock(s, *hd, m) {
                    Outcome::Value(h) => match nock(s, *arg, m) {
                        Outcome::Value(t) => Outcome::Value(cell(h, t)),
                        o => o,
                    },
                    o => o,
                },
                Tree::Atom(code) => if code == 0 {
                    match *arg {
                        Tree::Atom(b) => match fetch(s, b) {
                            Some(v) => Outcome::Value(v),
                            None => Outcome::Crash,
                        },
                        _ => Outcome::Crash,
                    }
                } else if code == 1 {
                    Outcome::Value(*arg)
                } else if code == 3 {
                    match nock(s, *arg, m) {
                        Outcome::Value(v) => Outcome::Value(
                            atom(
                                if v is Cell {
                                    0
                                } else {
                                    1
                                },
                            ),
                        ),
                        o => o,
                    }
                } else if code == 4 {
                    match nock(s, *arg, m) {
                        Outcome::Value(Tree::Atom(x)) => Outcome::Value(atom(x + 1)),
                        Outcome::Value(_) => Outcome::Crash,
                        o => o,
                    }
                } else {
                    match *arg {
                        Tree::Atom(_) => Outcome::Crash,
                        Tree::Cell(b, c) => nock_pair(s, code, *b, *c, n),
                    }
                },
            },
        }
    }
}

/// Evaluation of an opcode from 2 up whose argument is the cell `[b c]`,
/// within depth `n` counting this step.
pub open spec fn nock_pair(s: Tree, code: nat, b: Tree, c: Tree, n: nat) -> Outcome
    decreases n, 0nat,
{
    let m = (n - 1) as nat;
    if n == 0 {
        Outcome::Exhausted
    } else if code == 2 {
        match nock(s, b, m) {
            Outcome::Value(s2) => match nock(s, c, m) {
                Outcome::Value(f2) => nock(s2, f2, m),
                o => o,
            },
            o => o,
        }
    } else if code == 5 {
        match nock(s, b, m) {
            Outcome::Value(x) => match nock(s, c, m) {
                Outcome::Value(y) => Outcome::Value(
                    atom(
                        if x == y {
                            0
                        } else {
                            1
                        },
                    ),
                ),
                o => o,
            },
            o => o,
        }
    } else if code == 6 {
        match c {
            Tree::Cell(yes, no) => match nock(s, b, m) {
                Outcome::Value(Tree::Atom(t)) => if t == 0 {
                    nock(s, *yes, m)
                } else if t == 1 {
                    nock(s, *no, m)
                } else {
                    Outcome::Crash
                },
                Outcome::Value(_) => Outcome::Crash,
                o => o,
            },
            _ => Outcome::Crash,
        }
    } else if code == 7 {
        match nock(s, b, m) {
            Outcome::Value(x) => nock(x, c, m),
            o => o,
        }
    } else if code == 8 {
        match nock(s, b, m) {
            Outcome::Value(x) => nock(cell(x, s), c, m),
            o => o,
        }
    } else if code == 9 {
        match nock(s, c, m) {
            Outcome::Value(core) => match b {
                Tree::Atom(ax) => match fetch(core, ax) {
                    Some(arm) => nock(core, arm, m),
                    None => Outcome::Crash,
                },
                _ => Outcome::Crash,
            },
            o => o,
        }
    } else if code == 10 {
        match b {
            Tree::Cell(ax, pf) => match nock(s, c, m) {
                Outcome::Value(t) => match nock(s, *pf, m) {
                    Outcome::Value(p) => match *ax {
                        Tree::Atom(a) => match edited(t, a, p) {
                            Some(r) => Outcome::Value(r),
                            None => Outcome::Crash,
                        },
                        _ => Outcome::Crash,
                    },
                    o => o,
                },
                o => o,
            },
            _ => Outcome::Crash,
        }
    } else if code == 11 {
        match b {
            Tree::Cell(tag, clue) => if *tag == atom(MEMO as nat) {
                nock(s, c, m)
            } else {
                match nock(s, *clue, m) {
                    Outcome::Value(_) => nock(s, c, m),
                    o => o,
                }
            },
            _ => nock(s, c, m),
        }
    } else {
        Outcome::Crash
    }
}

/// `f` against `s` comes to `o` (a value or a crash) within some depth.
pub open spec fn evals(s: Tree, f: Tree, o: Outcome) -> bool {
    &&& !(o is Exhausted)
    &&& exists|n: nat| nock(s, f, n) == o
}

/// A depth at which `f` against `s` comes to `o`, where there is one.
pub open spec fn depth_of(s: Tree, f: Tree, o: Outcome) -> nat {
    choose|n: nat| nock(s, f, n) == o
}

/// More depth never changes a settled outcome.
pub proof fn lemma_nock_mono(s: Tree, f: Tree, n: nat, n2: nat)
    requires
        n <= n2,
    ensures
        nock(s, f, n) is Exhausted || nock(s, f, n2) == nock(s, f, n),
    decreases n, 1nat,
{
    if n > 0 {
        let m = (n - 1) as nat;
        let m2 = (n2 - 1) as nat;
        if let Tree::Cell(hd, arg) = f {
            match *hd {
                Tree::Cell(_, _) => {
                    lemma_nock_mono(s, *hd, m, m2);
                    lemma_nock_mono(s, *arg, m, m2);
                },
                Tree::Atom(code) => {
                    if code == 3 || code == 4 {
                        lemma_nock_mono(s, *arg, m, m2);
                    } else if code >= 2 {
                        if let Tree::Cell(b, c) = *arg {
                            lemma_pair_mono(s, code, *b, *c, n, n2);
                        }
                    }
                },
            }
        }
    }
}

proof fn lemma_pair_mono(s: Tree, code: nat, b: Tree, c: Tree, n: nat, n2: nat)
    requires
        n <= n2,
    ensures
        nock_pair(s, code, b, c, n) is Exhausted || nock_pair(s, code, b, c, n2) == nock_pair(
            s,
            code,
            b,
            c,
            n,
        ),
    decreases n, 0nat,
{
    if n > 0 {
        let m = (n - 1) as nat;
        let m2 = (n2 - 1) as nat;
        lemma_nock_mono(s, b, m, m2);
        lemma_nock_mono(s, c, m, m2);
        if code == 2 {
            if let (Outcome::Value(s2), Outcome::Value(f2)) = (nock(s, b, m), nock(s, c, m)) {
                lemma_nock_mono(s2, f2, m, m2);
            }
        } else if code == 6 {
            if let Tree::Cell(yes, no) = c {
                lemma_nock_mono(s, *yes, m, m2);
                lemma_nock_mono(s, *no, m, m2);
            }
        } else if code == 7 {
            if let Outcome::Value(x) = nock(s, b, m) {
                lemma_nock_mono(x, c, m, m2);
            }
        } else if code == 8 {
            if let Outcome::Value(x) = nock(s, b, m) {
                lemma_nock_mono(cell(x, s), c, m, m2);
            }
        } else if code == 9 {
            if let Outcome::Value(core) = nock(s, c, m) {
                if let Tree::Atom(ax) = b {
                    if let Some(arm) = fetch(core, ax) {
                        lemma_nock_mono(core, arm, m, m2);
                    }
                }
            }
        } else if code == 10 {
            if let Tree::Cell(ax, pf) = b {
                lemma_nock_mono(s, *pf, m, m2);
            }
        } else if code == 11 {
            if let Tree::Cell(tag, clue) = b {
                lemma_nock_mono(s, *clue, m, m2);
            }
        }
    }
}

/// At every depth from `depth_of` up, a settled evaluation has its outcome.
pub proof fn lemma_fuel(s: Tree, f: Tree, o: Outcome, n: nat)
    requires
        evals(s, f, o),
        n >= depth_of(s, f, o),
    ensures
        nock(s, f, n) == o,
{
    let k = depth_of(s, f, o);
    lemma_nock_mono(s, f, k, n);
}

/// An evaluation has at most one outcome.
pub proof fn lemma_evals_unique(s: Tree, f: Tree, o1: Outcome, o2: Outcome)
    requires
        evals(s, f, o1),
        evals(s, f, o2),
    ensures
        o1 == o2,
{
    let n = depth_of(s, f, o1) + depth_of(s, f, o2);
    lemma_fuel(s, f, o1, n);
    lemma_fuel(s, f, o2, n);
}

/// A depth at which two settled evaluations both have their outcomes.
pub proof fn lemma_common2(s1: Tree, f1: Tree, o1: Outcome, s2: Tree, f2: Tree, o2: Outcome) -> (n: nat)
    requires
        evals(s1, f1, o1),
        evals(s2, f2, o2),
    ensures
        nock(s1, f1, n) == o1,
        nock(s2, f2, n) == o2,
{
    let n = depth_of(s1, f1, o1) + depth_of(s2, f2, o2);
    lemma_fuel(s1, f1, o1, n);
    lemma_fuel(s2, f2, o2, n);
    n
}

/// A depth at which three settled evaluations all have their outcomes.
pub proof fn lemma_common3(
    s1: Tree,
    f1: Tree,
    o1: Outcome,
    s2: Tree,
    f2: Tree,
    o2: Outcome,
    s3: Tree,
    f3: Tree,
    o3: Outcome,
) -> (n: nat)
    requires
        evals(s1, f1, o1),
        evals(s2, f2, o2),
        evals(s3, f3, o3),
    ensures
        nock(s1, f1, n) == o1,
        nock(s2, f2, n) == o2,
        nock(s3, f3, n) == o3,
{
    let n = depth_of(s1, f1, o1) + depth_of(s2, f2, o2) + depth_of(s3, f3, o3);
    lemma_fuel(s1, f1, o1, n);
    lemma_fuel(s2, f2, o2, n);
    lemma_fuel(s3, f3, o3, n);
    n
}

/// A depth at which one settled evaluation has its outcome.
pub proof fn lemma_common1(s1: Tree, f1: Tree, o1: Outcome) -> (n: nat)
    requires
        evals(s1, f1, o1),
    ensures
        nock(s1, f1, n) == o1,
{
    let n = depth_of(s1, f1, o1);
    lemma_fuel(s1, f1, o1, n);
    n
}

/// An atom is no formula.
pub proof fn lemma_atom_crash(s: Tree, f: Tree)
    requires
        f is Atom,
    ensures
        evals(s, f, Outcome::Crash),
{
    assert(nock(s, f, 1) == Outcome::Crash);
}

/// Opcodes other than 0, 1, 3 and 4 need a cell argument, opcodes from 12 up
/// do not exist, 6 needs two branches and 10 an axis-patch pair.
pub proof fn lemma_malformed_crash(s: Tree, code: nat, arg: Tree)
    requires
        code >= 2,
        code != 3,
        code != 4,
        arg is Atom || code >= 12 || (code == 6 && (*arg->Cell_1) is Atom) || (code == 10
            && (*arg->Cell_0) is Atom),
    ensures
        evals(s, op(code, arg), Outcome::Crash),
{
    if let Tree::Cell(b, c) = arg {
        assert(nock(s, op(code, arg), 1) == nock_pair(s, code, *b, *c, 1));
    }
    assert(nock(s, op(code, arg), 1) == Outcome::Crash);
}

/// The pair formula `[a b]` (with `a` a cell) has the pair of the values.
pub proof fn lemma_cons_value(s: Tree, a: Tree, b: Tree, h: Tree, t: Tree)
    requires
        a is Cell,
        evals(s, a, Outcome::Value(h)),
        evals(s, b, Outcome::Value(t)),
    ensures
        evals(s, cell(a, b), Outcome::Value(cell(h, t))),
{
    let n = lemma_common2(s, a, Outcome::Value(h), s, b, Outcome::Value(t));
    assert(nock(s, cell(a, b), n + 1) == Outcome::Value(cell(h, t)));
}

/// `[2 b c]` has the outcomes of the computed formula against the computed subject.
pub proof fn lemma_op2_passes(s: Tree, b: Tree, c: Tree, s2: Tree, f2: Tree, o: Outcome)
    requires
        evals(s, b, Outcome::Value(s2)),
        evals(s, c, Outcome::Value(f2)),
        evals(s2, f2, o),
    ensures
        evals(s, op(2, cell(b, c)), o),
{
    let n = lemma_common3(s, b, Outcome::Value(s2), s, c, Outcome::Value(f2), s2, f2, o);
    assert(nock(s, op(2, cell(b, c)), n + 1) == nock_pair(s, 2, b, c, n + 1));
    assert(nock_pair(s, 2, b, c, n + 1) == o);
}

/// `[3 b]` tests whether the value of `b` is a cell.
pub proof fn lemma_op3_value(s: Tree, b: Tree, v: Tree)
    requires
        evals(s, b, Outcome::Value(v)),
    ensures
        evals(
            s,
            op(3, b),
            Outcome::Value(
                atom(
                    if v is Cell {
                        0
                    } else {
                        1
                    },
                ),
            ),
        ),
{
    let n = lemma_common1(s, b, Outcome::Value(v));
    assert(nock(s, op(3, b), n + 1) == Outcome::Value(
        atom(
            if v is Cell {
                0
            } else {
                1
            },
        ),
    ));
}

/// `[4 b]` increments the value of `b`, and crashes on a cell.
pub proof fn lemma_op4_value(s: Tree, b: Tree, v: Tree)
    requires
        evals(s, b, Outcome::Value(v)),
    ensures
        v is Atom ==> evals(s, op(4, b), Outcome::Value(atom(v->Atom_0 + 1))),
        v is Cell ==> evals(s, op(4, b), Outcome::Crash),
{
    let n = lemma_common1(s, b, Outcome::Value(v));
    if v is Atom {
        assert(nock(s, op(4, b), n + 1) == Outcome::Value(atom(v->Atom_0 + 1)));
    } else {
        assert(nock(s, op(4, b), n + 1) == Outcome::Crash);
    }
}

/// `[5 b c]` compares the two values.
pub proof fn lemma_op5_value(s: Tree, b: Tree, c: Tree, x: Tree, y: Tree)
    requires
        evals(s, b, Outcome::Value(x)),
        evals(s, c, Outcome::Value(y)),
    ensures
        evals(
            s,
            op(5, cell(b, c)),
            Outcome::Value(
                atom(
                    if x == y {
                        0
                    } else {
                        1
                    },
                ),
            ),
        ),
{
    let n = lemma_common2(s, b, Outcome::Value(x), s, c, Outcome::Value(y));
    assert(nock(s, op(5, cell(b, c)), n + 1) == nock_pair(s, 5, b, c, n + 1));
}

/// `[6 b y n]` takes branch `y` on 0 and `n` on 1, and crashes on any other value.
pub proof fn lemma_op6(s: Tree, b: Tree, y: Tree, no: Tree, t: Tree, o: Outcome)
    requires
        evals(s, b, Outcome::Value(t)),
        !(o is Exhausted),
        t == atom(0) ==> evals(s, y, o),
        t == atom(1) ==> evals(s, no, o),
        t != atom(0) && t != atom(1) ==> o is Crash,
    ensures
        evals(s, op(6, cell(b, cell(y, no))), o),
{
    let f = op(6, cell(b, cell(y, no)));
    if t == atom(0) {
        let n = lemma_common2(s, b, Outcome::Value(t), s, y, o);
        assert(nock(s, f, n + 1) == nock_pair(s, 6, b, cell(y, no), n + 1));
    } else if t == atom(1) {
        let n = lemma_common2(s, b, Outcome::Value(t), s, no, o);
        assert(nock(s, f, n + 1) == nock_pair(s, 6, b, cell(y, no), n + 1));
    } else {
        let n = lemma_common1(s, b, Outcome::Value(t));
        assert(nock(s, f, n + 1) == nock_pair(s, 6, b, cell(y, no), n + 1));
    }
}

/// `[7 b c]` runs `c` against the value of `b`; `[8 b c]` against that
/// value consed onto the subject.
pub proof fn lemma_op78(s: Tree, code: nat, b: Tree, c: Tree, x: Tree, o: Outcome)
    requires
        code == 7 || code == 8,
        evals(s, b, Outcome::Value(x)),
        evals(
            if code == 7 {
                x
            } else {
                cell(x, s)
            },
            c,
            o,
        ),
    ensures
        evals(s, op(code, cell(b, c)), o),
{
    let s2 = if code == 7 {
        x
    } else {
        cell(x, s)
    };
    let n = lemma_common2(s, b, Outcome::Value(x), s2, c, o);
    assert(nock(s, op(code, cell(b, c)), n + 1) == nock_pair(s, code, b, c, n + 1));
}

/// `[9 b c]` runs the arm at axis `b` of the core that `c` gives, against the core.
pub proof fn lemma_op9(s: Tree, b: Tree, c: Tree, core: Tree, o: Outcome)
    requires
        evals(s, c, Outcome::Value(core)),
        !(o is Exhausted),
        b is Atom && fetch(core, b->Atom_0) is Some ==> evals(
            core,
            fetch(core, b->Atom_0)->0,
            o,
        ),
        !(b is Atom && fetch(core, b->Atom_0) is Some) ==> o is Crash,
    ensures
        evals(s, op(9, cell(b, c)), o),
{
    let f = op(9, cell(b, c));
    if b is Atom && fetch(core, b->Atom_0) is Some {
        let arm = fetch(core, b->Atom_0)->0;
        let n = lemma_common2(s, c, Outcome::Value(core), core, arm, o);
        assert(nock(s, f, n + 1) == nock_pair(s, 9, b, c, n + 1));
    } else {
        let n = lemma_common1(s, c, Outcome::Value(core));
        assert(nock(s, f, n + 1) == nock_pair(s, 9, b, c, n + 1));
    }
}

/// `[10 [ax pf] d]` edits the value of `d` at axis `ax` with the value of `pf`.
pub proof fn lemma_op10(s: Tree, ax: Tree, pf: Tree, d: Tree, t: Tree, p: Tree)
    requires
        evals(s, d, Outcome::Value(t)),
        evals(s, pf, Outcome::Value(p)),
    ensures
        evals(
            s,
            op(10, cell(cell(ax, pf), d)),
            match ax {
                Tree::Atom(a) => match edited(t, a, p) {
                    Some(r) => Outcome::Value(r),
                    None => Outcome::Crash,
                },
                _ => Outcome::Crash,
            },
        ),
{
    let n = lemma_common2(s, d, Outcome::Value(t), s, pf, Outcome::Value(p));
    assert(nock(s, op(10, cell(cell(ax, pf), d)), n + 1) == nock_pair(
        s,
        10,
        cell(ax, pf),
        d,
        n + 1,
    ));
}

/// A dynamic hint other than memoization whose clue has a value has the
/// outcomes of its body.
pub proof fn lemma_op11_clue(s: Tree, tag: Tree, clue: Tree, d: Tree, v: Tree, o: Outcome)
    requires
        tag != atom(MEMO as nat),
        evals(s, clue, Outcome::Value(v)),
        evals(s, d, o),
    ensures
        evals(s, op(11, cell(cell(tag, clue), d)), o),
{
    let n = lemma_common2(s, clue, Outcome::Value(v), s, d, o);
    assert(nock(s, op(11, cell(cell(tag, clue), d)), n + 1) == nock_pair(
        s,
        11,
        cell(tag, clue),
        d,
        n + 1,
    ));
}

/// Axis 0 names nothing: fetching it always crashes.
pub proof fn lemma_axis_zero_crash(s: Tree)
    ensures
        evals(s, op(0, atom(0)), Outcome::Crash),
{
    assert(nock(s, op(0, atom(0)), 1) == Outcome::Crash);
}

/// Fetching axis 2 or 3 of a cell subject gives its head or tail, and
/// axis 1 the whole subject.
pub proof fn lemma_axis_fetch_eval(h: Tree, t: Tree)
    ensures
        evals(cell(h, t), op(0, atom(1)), Outcome::Value(cell(h, t))),
        evals(cell(h, t), op(0, atom(2)), Outcome::Value(h)),
        evals(cell(h, t), op(0, atom(3)), Outcome::Value(t)),
{
    crate::axis::lemma_axis_fetch(h, t, h);
    assert(nock(cell(h, t), op(0, atom(1)), 1) == Outcome::Value(cell(h, t)));
    assert(nock(cell(h, t), op(0, atom(2)), 1) == Outcome::Value(h));
    assert(nock(cell(h, t), op(0, atom(3)), 1) == Outcome::Value(t));
}

/// Incrementing gives the successor of an atom, however large.
pub proof fn lemma_increment(s: Tree, b: Tree, x: nat)
    requires
        evals(s, b, Outcome::Value(atom(x))),
    ensures
        evals(s, op(4, b), Outcome::Value(atom(x + 1))),
{
    lemma_op4_value(s, b, atom(x));
}

/// Comparing a formula with itself gives 0 wherever the formula has a value,
/// and crashes wherever it crashes.
pub proof fn lemma_equal_formulas(s: Tree, a: Tree, o: Outcome)
    requires
        evals(s, a, o),
    ensures
        o matches Outcome::Value(_) ==> evals(s, op(5, cell(a, a)), Outcome::Value(atom(0))),
        o is Crash ==> evals(s, op(5, cell(a, a)), Outcome::Crash),
{
    if let Outcome::Value(v) = o {
        lemma_op5_value(s, a, a, v, v);
    } else {
        let n = lemma_common1(s, a, o);
        assert(nock(s, op(5, cell(a, a)), n + 1) == nock_pair(s, 5, a, a, n + 1));
    }
}

/// A memoization hint `[11 [%memo clue] f]` has exactly the outcomes of its
/// body `f`, so two evaluations of it against one subject that both give a
/// value give the same value.
pub proof fn lemma_memo_round_trip(s: Tree, clue: Tree, f: Tree, v1: Tree, v2: Tree)
    requires
        evals(s, op(11, cell(cell(atom(MEMO as nat), clue), f)), Outcome::Value(v1)),
        evals(s, op(11, cell(cell(atom(MEMO as nat), clue), f)), Outcome::Value(v2)),
    ensures
        v1 == v2,
        evals(s, f, Outcome::Value(v1)),
{
    let h = op(11, cell(cell(atom(MEMO as nat), clue), f));
    lemma_evals_unique(s, h, Outcome::Value(v1), Outcome::Value(v2));
    let n = depth_of(s, h, Outcome::Value(v1));
    assert(nock(s, h, n) == Outcome::Value(v1));
    assert(n > 0);
    assert(nock(s, h, n) == nock_pair(s, 11, cell(atom(MEMO as nat), clue), f, n));
    assert(nock(s, f, (n - 1) as nat) == Outcome::Value(v1));
}

/// At any depth, an evaluation known to have a value either runs out of
/// depth or has that value.
pub proof fn lemma_settled(s: Tree, x: Tree, m: nat, v: Tree)
    requires
        evals(s, x, Outcome::Value(v)),
    ensures
        nock(s, x, m) is Exhausted || nock(s, x, m) == Outcome::Value(v),
{
    if !(nock(s, x, m) is Exhausted) {
        assert(evals(s, x, nock(s, x, m)));
        lemma_evals_unique(s, x, nock(s, x, m), Outcome::Value(v));
    }
}

} // verus!
