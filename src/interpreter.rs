use crate::axis::{edit, fetch, slot};
use crate::hamt::Hamt;
use crate::nock::{
    lemma_atom_crash, lemma_cons_value, lemma_malformed_crash, lemma_op10, lemma_op11_clue,
    lemma_op2_passes, lemma_op3_value, lemma_op4_value, lemma_op5_value, lemma_op6, lemma_op78,
    lemma_op9, lemma_settled, atom, evals, lemma_common1, lemma_common2, lemma_common3, nock, nock_pair, op, Outcome, MEMO,
    SLOG,
};
use crate::noun::{atom_val, cell, equals, inc, Noun, Tree};
use vstd::prelude::*;

verus! {

/// One entry of the control stack: a formula to evaluate against the current
/// subject, or a step to resume once the value it waits for is in `res`.
pub enum Work {
    /// Evaluate this formula against the current subject.
    Eval(Noun),
    /// The head of a cell formula is known; evaluate this tail formula next.
    ConsTail(Noun),
    /// Pair this head value with the tail value.
    ConsDone(Noun),
    /// `[2 b c]`: the new subject is known; evaluate `c` for the formula.
    Op2Formula(Noun),
    /// `[2 b c]`: the formula is known; run it against this new subject.
    Op2Call(Noun),
    /// `[3 b]`: test whether the value is a cell.
    Op3,
    /// `[4 b]`: increment the value.
    Op4,
    /// `[5 b c]`: the left value is known; evaluate this right formula.
    Op5Right(Noun),
    /// `[5 b c]`: compare this left value with the right value.
    Op5Test(Noun),
    /// `[6 b c d]`: the test is known; take one of these two branches.
    Op6Branch(Noun, Noun),
    /// `[7 b c]`: run this formula against the value.
    Op7(Noun),
    /// `[8 b c]`: run this formula against the value consed onto the subject.
    Op8(Noun),
    /// `[9 b c]`: the core is known; run its arm at this axis against it.
    Op9(Noun),
    /// `[10 [b c] d]`: the tree is known; evaluate the patch formula (axis, formula).
    Op10Patch(Noun, Noun),
    /// `[10 [b c] d]`: the patch is known; splice it into the tree (axis, tree).
    Op10Edit(Noun, Noun),
    /// A dynamic hint: the clue is known (tag, body formula).
    HintClue(Noun, Noun),
    /// A memoization hint: the body's value is known; cache it under this body formula.
    HintStore(Noun),
    /// A nested evaluation is done: put back this saved subject.
    Restore(Noun),
}

/// Why an evaluation stopped without a value.
pub enum Error {
    /// The formula crashes on this subject: a defined outcome of the
    /// instruction set.
    Crash,
    /// Evaluations would nest deeper than the budget allows.
    Exhausted,
}

/// The body `f` of a memoization hint `[11 [%memo clue] f]`.
pub open spec fn memo_body(f: Tree) -> Option<Tree> {
    if f is Cell && *f->Cell_0 == atom(11) && (*f->Cell_1) is Cell && (*(*f->Cell_1)->Cell_0) is Cell
        && *(*(*f->Cell_1)->Cell_0)->Cell_0 == atom(MEMO as nat) {
        Some(*(*f->Cell_1)->Cell_1)
    } else {
        None
    }
}

/// Every cache entry maps the key `[s f]` to the value of `f` against `s`.
pub open spec fn cache_ok(m: Map<Tree, Noun>) -> bool {
    forall|k: Tree|
        #[trigger] m.contains_key(k) ==> k is Cell && m[k].wf() && evals(
            *k->Cell_0,
            *k->Cell_1,
            Outcome::Value(m[k]@),
        )
}

/// State that outlives one evaluation: the memoization cache, the
/// diagnostics (priority, message) that hints emitted, the depth to which
/// evaluations may nest, and the code-generation core, where there is one.
pub struct Context {
    pub cache: Hamt<Noun>,
    pub slogs: Vec<(u64, Noun)>,
    pub budget: u64,
    pub line: Option<Noun>,
}

impl Context {
    pub open spec fn wf(&self) -> bool {
        &&& self.cache.wf()
        &&& cache_ok(self.cache@)
        &&& self.line matches Some(l) ==> l.wf()
    }

    /// A context with an empty cache, no diagnostics and no code-generation
    /// core, letting evaluations nest `budget` deep.
    pub fn new(budget: u64) -> (r: Context)
        ensures
            r.wf(),
            r.cache@ == Map::<Tree, Noun>::empty(),
            r.slogs@.len() == 0,
            r.budget == budget,
            r.line is None,
    {
        Context { cache: Hamt::new(), slogs: Vec::new(), budget, line: None }
    }
}

/// `new` is `old` with diagnostics appended.
pub open spec fn appended(old: Seq<(u64, Noun)>, new: Seq<(u64, Noun)>) -> bool {
    &&& old.len() <= new.len()
    &&& forall|i: int| 0 <= i < old.len() ==> #[trigger] new[i] == old[i]
}

pub open spec fn work_wf(w: Work) -> bool {
    match w {
        Work::Eval(a) | Work::ConsTail(a) | Work::ConsDone(a) | Work::Op2Formula(a)
        | Work::Op2Call(a) | Work::Op5Right(a) | Work::Op5Test(a) | Work::Op7(a) | Work::Op8(a)
        | Work::Op9(a) | Work::HintStore(a) | Work::Restore(a) => a.wf(),
        Work::Op6Branch(a, b) | Work::Op10Patch(a, b) | Work::Op10Edit(a, b) | Work::HintClue(
            a,
            b,
        ) => a.wf() && b.wf(),
        Work::Op3 | Work::Op4 => true,
    }
}

/// Head of the argument of formula `f`.
pub open spec fn arg1(f: Tree) -> Tree {
    *(*f->Cell_1)->Cell_0
}

/// Tail of the argument of formula `f`.
pub open spec fn arg2(f: Tree) -> Tree {
    *(*f->Cell_1)->Cell_1
}

/// Every outcome of `g` is an outcome of `p`.
pub open spec fn passes(g: (Tree, Tree), p: (Tree, Tree)) -> bool {
    forall|o: Outcome| #[trigger] evals(g.0, g.1, o) ==> evals(p.0, p.1, o)
}

/// Work item `w` waits for the evaluation `g` and, given its outcome,
/// completes the evaluation `p` of the item below it.
#[verifier::opaque]
pub open spec fn item_ok(w: Work, g: (Tree, Tree), p: (Tree, Tree)) -> bool {
    match w {
        Work::Eval(f) => f@ == g.1 && g == p,
        Work::Restore(sv) => sv@ == p.0 && passes(g, p),
        Work::HintStore(d) => d@ == g.1 && p.0 == g.0 && passes(g, p),
        _ => p.0 == g.0 && match w {
            Work::ConsTail(b) => g.1 is Cell && p.1 == cell(g.1, b@),
            Work::ConsDone(h) => p.1 is Cell && (*p.1->Cell_0) is Cell && *p.1->Cell_1 == g.1
                && evals(g.0, *p.1->Cell_0, Outcome::Value(h@)),
            Work::Op2Formula(c) => p.1 == op(2, cell(g.1, c@)),
            Work::Op2Call(s2) => p.1 == op(2, cell(arg1(p.1), g.1)) && evals(
                g.0,
                arg1(p.1),
                Outcome::Value(s2@),
            ),
            Work::Op3 => p.1 == op(3, g.1),
            Work::Op4 => p.1 == op(4, g.1),
            Work::Op5Right(c) => p.1 == op(5, cell(g.1, c@)),
            Work::Op5Test(x) => p.1 == op(5, cell(arg1(p.1), g.1)) && evals(
                g.0,
                arg1(p.1),
                Outcome::Value(x@),
            ),
            Work::Op6Branch(y, n) => p.1 == op(6, cell(g.1, cell(y@, n@))),
            Work::Op7(c) => p.1 == op(7, cell(g.1, c@)),
            Work::Op8(c) => p.1 == op(8, cell(g.1, c@)),
            Work::Op9(b) => p.1 == op(9, cell(b@, g.1)),
            Work::Op10Patch(ax, c) => p.1 == op(10, cell(cell(ax@, c@), g.1)),
            Work::Op10Edit(ax, t) => p.1 == op(10, cell(cell(ax@, g.1), arg2(p.1))) && evals(
                g.0,
                arg2(p.1),
                Outcome::Value(t@),
            ),
            Work::HintClue(tag, d) => p.1 == op(11, cell(cell(tag@, g.1), d@)) && tag@ != atom(
                MEMO as nat,
            ),
            _ => false,
        },
    }
}

/// The evaluation below entry `j`, or the whole one at the bottom.
pub open spec fn parent(frames: Seq<(Tree, Tree)>, j: int, top: (Tree, Tree)) -> (Tree, Tree) {
    if j == 0 {
        top
    } else {
        frames[j - 1]
    }
}

/// Each entry waits for its frame and completes the frame below it; only the
/// top entry may be an evaluation.
#[verifier::opaque]
pub open spec fn stack_ok(stack: Seq<Work>, frames: Seq<(Tree, Tree)>, top: (Tree, Tree)) -> bool {
    &&& stack.len() == frames.len()
    &&& forall|j: int|
        0 <= j < stack.len() ==> work_wf(#[trigger] stack[j]) && item_ok(
            stack[j],
            frames[j],
            parent(frames, j, top),
        )
    &&& forall|j: int| 0 <= j < stack.len() - 1 ==> !(#[trigger] stack[j] is Eval)
}

/// Depth at which an entry's parent evaluation runs: the whole one runs at
/// the budget, every other one at the depth its entry waits at.
pub open spec fn pdepth(depths: Seq<u64>, j: int, bud: nat) -> nat {
    if j == 0 {
        bud
    } else {
        depths[j - 1] as nat
    }
}

/// Running out of depth while waiting for `g` at depth `m` means that `p`
/// runs out of depth at `m + 1`.
pub open spec fn exh_ok(g: (Tree, Tree), p: (Tree, Tree), m: nat) -> bool {
    nock(g.0, g.1, m) is Exhausted ==> nock(p.0, p.1, m + 1) is Exhausted
}

/// An evaluation entry runs at its parent's depth; every other entry waits at
/// one less and passes running out of depth on to its parent.
#[verifier::opaque]
pub open spec fn depth_ok(
    stack: Seq<Work>,
    frames: Seq<(Tree, Tree)>,
    depths: Seq<u64>,
    top: (Tree, Tree),
    bud: nat,
) -> bool {
    forall|j: int|
        0 <= j < stack.len() ==> if #[trigger] stack[j] is Eval {
            depths[j] as nat == pdepth(depths, j, bud)
        } else {
            pdepth(depths, j, bud) == depths[j] + 1 && exh_ok(
                frames[j],
                parent(frames, j, top),
                depths[j] as nat,
            )
        }
}

/// A bound on the steps an evaluation at depth `d` can take: it spawns at
/// most three evaluations one level down, plus a few resumptions.
pub open spec fn reach(d: nat) -> nat
    decreases d,
{
    if d == 0 {
        1
    } else {
        3 * reach((d - 1) as nat) + 4
    }
}

/// A bound on the steps that entry `w`, waiting at depth `m`, still takes.
pub open spec fn weight(w: Work, m: nat) -> nat {
    match w {
        Work::Eval(_) => reach(m),
        Work::ConsDone(_) | Work::Op3 | Work::Op4 | Work::Op5Test(_) | Work::Op10Edit(_, _)
        | Work::HintStore(_) | Work::Restore(_) => 1,
        Work::Op2Formula(_) => 3 + 2 * reach(m),
        _ => 2 + reach(m),
    }
}

/// A bound on the steps that a whole control stack still takes.
pub open spec fn load(stack: Seq<Work>, depths: Seq<u64>) -> nat
    decreases stack.len(),
{
    if stack.len() == 0 || depths.len() != stack.len() {
        0
    } else {
        load(stack.drop_last(), depths.drop_last()) + weight(stack.last(), depths.last() as nat)
    }
}

const TASK: u8 = 0;

const VALUE: u8 = 1;

const CRASH: u8 = 2;

const EXHAUSTED: u8 = 3;

/// The reduction engine's registers and control stack. `frames` holds, for
/// each stack entry, the evaluation it waits for (or performs).
struct Machine {
    stack: Vec<Work>,
    frames: Ghost<Seq<(Tree, Tree)>>,
    depths: Vec<u64>,
    bud: Ghost<nat>,
    subject: Noun,
    res: Noun,
}

impl Machine {
    /// The evaluation whose outcome is due next.
    spec fn goal(&self, top: (Tree, Tree)) -> (Tree, Tree) {
        parent(self.frames@, self.stack@.len() as int, top)
    }

    /// The depth at which the evaluation due next runs.
    spec fn gdepth(&self) -> nat {
        pdepth(self.depths@, self.stack@.len() as int, self.bud@)
    }

    spec fn load(&self) -> nat {
        load(self.stack@, self.depths@)
    }

    /// The stack is consistent and the registers are well formed.
    spec fn ok(&self, top: (Tree, Tree)) -> bool {
        &&& stack_ok(self.stack@, self.frames@, top)
        &&& depth_ok(self.stack@, self.frames@, self.depths@, top, self.bud@)
        &&& self.stack@.len() == self.frames@.len()
        &&& self.depths@.len() == self.stack@.len()
        &&& self.subject.wf()
        &&& self.res.wf()
    }

    spec fn top_is_eval(&self) -> bool {
        self.stack@.len() > 0 && self.stack@.last() is Eval
    }

    spec fn mode_ok(&self, mode: u8, top: (Tree, Tree)) -> bool {
        if mode == TASK {
            self.top_is_eval() && self.subject@ == self.frames@.last().0
        } else if mode == VALUE {
            !self.top_is_eval() && self.subject@ == self.goal(top).0 && evals(
                self.goal(top).0,
                self.goal(top).1,
                Outcome::Value(self.res@),
            )
        } else if mode == CRASH {
            !self.top_is_eval() && evals(self.goal(top).0, self.goal(top).1, Outcome::Crash)
        } else {
            mode == EXHAUSTED && !self.top_is_eval() && nock(
                self.goal(top).0,
                self.goal(top).1,
                self.gdepth(),
            ) is Exhausted
        }
    }

    /// Pushes a continuation waiting for `g`, then the evaluation of `f`
    /// (which is `g`'s formula) against the current subject.
    fn push_pair(
        &mut self,
        w: Work,
        f: Noun,
        m: u64,
        Ghost(g): Ghost<(Tree, Tree)>,
        Ghost(top): Ghost<(Tree, Tree)>,
    )
        requires
            old(self).ok(top),
            !old(self).top_is_eval(),
            work_wf(w),
            f.wf(),
            item_ok(w, g, old(self).goal(top)),
            !(w is Eval),
            f@ == g.1,
            old(self).subject@ == g.0,
            old(self).gdepth() == m + 1,
            (w is Restore || w is HintStore) ==> exh_ok(g, old(self).goal(top), m as nat),
        ensures
            final(self).ok(top),
            final(self).mode_ok(TASK, top),
            final(self).subject == old(self).subject,
            final(self).bud == old(self).bud,
            final(self).load() == old(self).load() + weight(w, m as nat) + reach(m as nat),
    {
        proof {
            reveal(stack_ok);
            reveal(depth_ok);
            reveal(item_ok);
            if !(w is Restore || w is HintStore) {
                lemma_exh_item(w, g, self.goal(top), m as nat);
            }
        }
        let ghost before = self.stack@;
        let ghost fr = self.frames@;
        let ghost ds = self.depths@;
        self.stack.push(w);
        self.depths.push(m);
        self.frames = Ghost(fr.push(g));
        self.stack.push(Work::Eval(f));
        self.depths.push(m);
        self.frames = Ghost(fr.push(g).push(g));
        proof {
            assert(self.stack@.drop_last() =~= before.push(w));
            assert(self.depths@.drop_last() =~= ds.push(m));
            assert(before.push(w).drop_last() =~= before);
            assert(ds.push(m).drop_last() =~= ds);
            assert(load(before.push(w), ds.push(m)) == load(before, ds) + weight(w, m as nat));
            assert(self.stack@.last() == Work::Eval(f));
            assert(load(self.stack@, self.depths@) == load(before.push(w), ds.push(m)) + reach(
                m as nat,
            ));
            assert forall|j: int| 0 <= j < self.stack@.len() implies if #[trigger] self.stack@[j] is Eval {
                self.depths@[j] as nat == pdepth(self.depths@, j, self.bud@)
            } else {
                pdepth(self.depths@, j, self.bud@) == self.depths@[j] + 1 && exh_ok(
                    self.frames@[j],
                    parent(self.frames@, j, top),
                    self.depths@[j] as nat,
                )
            } by {
                if j < before.len() {
                    assert(self.stack@[j] == before[j]);
                    assert(self.frames@[j] == fr[j]);
                    assert(self.depths@[j] == ds[j]);
                    if j > 0 {
                        assert(self.frames@[j - 1] == fr[j - 1]);
                        assert(self.depths@[j - 1] == ds[j - 1]);
                    }
                } else if j == before.len() {
                    if j > 0 {
                        assert(self.frames@[j - 1] == fr[j - 1]);
                        assert(self.depths@[j - 1] == ds[j - 1]);
                    }
                }
            }
            assert forall|j: int| 0 <= j < self.stack@.len() implies work_wf(
                #[trigger] self.stack@[j],
            ) && item_ok(self.stack@[j], self.frames@[j], parent(self.frames@, j, top)) by {
                if j < before.len() {
                    assert(self.stack@[j] == before[j]);
                    assert(self.frames@[j] == fr[j]);
                    if j > 0 {
                        assert(self.frames@[j - 1] == fr[j - 1]);
                    }
                } else if j == before.len() {
                    if j > 0 {
                        assert(self.frames@[j - 1] == fr[j - 1]);
                    }
                }
            }
            assert forall|j: int| 0 <= j < self.stack@.len() - 1 implies !(
            #[trigger] self.stack@[j] is Eval) by {
                if j < before.len() {
                    assert(self.stack@[j] == before[j]);
                }
            }
        }
    }

    /// Pops the top entry together with its frame.
    fn pop(&mut self, Ghost(top): Ghost<(Tree, Tree)>) -> (r: (Work, Ghost<(Tree, Tree)>, u64))
        requires
            old(self).ok(top),
            old(self).stack@.len() > 0,
        ensures
            final(self).ok(top),
            final(self).subject == old(self).subject,
            final(self).res == old(self).res,
            final(self).bud == old(self).bud,
            old(self).stack@ == final(self).stack@.push(r.0),
            old(self).frames@ == final(self).frames@.push(r.1@),
            old(self).depths@ == final(self).depths@.push(r.2),
            old(self).load() == final(self).load() + weight(r.0, r.2 as nat),
            old(self).goal(top) == r.1@,
            old(self).gdepth() == r.2,
            work_wf(r.0),
            item_ok(r.0, r.1@, final(self).goal(top)),
            r.0 is Eval ==> final(self).gdepth() == r.2,
            !(r.0 is Eval) ==> final(self).gdepth() == r.2 + 1 && exh_ok(
                r.1@,
                final(self).goal(top),
                r.2 as nat,
            ),
            !final(self).top_is_eval(),
    {
        proof {
            reveal(stack_ok);
            reveal(depth_ok);
        }
        let ghost before = self.stack@;
        let ghost fr = self.frames@;
        let ghost ds = self.depths@;
        let w = match self.stack.pop() {
            Some(w) => w,
            None => Work::Op3,
        };
        let d = match self.depths.pop() {
            Some(d) => d,
            None => 0,
        };
        let ghost g = fr.last();
        self.frames = Ghost(fr.drop_last());
        proof {
            assert(ds =~= self.depths@.push(d));
            assert(before.drop_last() =~= self.stack@);
            assert(ds.drop_last() =~= self.depths@);
            assert(ds[ds.len() - 1] == d);
            let n = before.len() - 1;
            assert(before[n] == w);
            if n > 0 {
                assert(ds[n - 1] == self.depths@[n - 1]);
            }
            assert forall|j: int| 0 <= j < self.stack@.len() implies if #[trigger] self.stack@[j] is Eval {
                self.depths@[j] as nat == pdepth(self.depths@, j, self.bud@)
            } else {
                pdepth(self.depths@, j, self.bud@) == self.depths@[j] + 1 && exh_ok(
                    self.frames@[j],
                    parent(self.frames@, j, top),
                    self.depths@[j] as nat,
                )
            } by {
                assert(self.stack@[j] == before[j]);
                assert(self.frames@[j] == fr[j]);
                assert(self.depths@[j] == ds[j]);
                if j > 0 {
                    assert(self.frames@[j - 1] == fr[j - 1]);
                    assert(self.depths@[j - 1] == ds[j - 1]);
                }
            }
            assert(before == self.stack@.push(w));
            assert(fr =~= self.frames@.push(g));
            assert(before[before.len() - 1] == w);
            assert forall|j: int| 0 <= j < self.stack@.len() implies work_wf(
                #[trigger] self.stack@[j],
            ) && item_ok(self.stack@[j], self.frames@[j], parent(self.frames@, j, top)) by {
                assert(self.stack@[j] == before[j]);
                assert(self.frames@[j] == fr[j]);
                if j > 0 {
                    assert(self.frames@[j - 1] == fr[j - 1]);
                }
            }
            assert forall|j: int| 0 <= j < self.stack@.len() - 1 implies !(
            #[trigger] self.stack@[j] is Eval) by {
                assert(self.stack@[j] == before[j]);
            }
            if self.stack@.len() > 0 {
                assert(self.stack@.last() == before[before.len() - 2]);
            }
            let n = before.len() - 1;
            if n > 0 {
                assert(fr[n - 1] == self.frames@[n - 1]);
            }
        }
        (w, Ghost(g), d)
    }
}


proof fn lemma_use_passes(g: (Tree, Tree), p: (Tree, Tree), o: Outcome)
    requires
        passes(g, p),
        evals(g.0, g.1, o),
    ensures
        evals(p.0, p.1, o),
{
}

/// A hint whose annotation is an atom, or the memoization hint, has the
/// outcomes of its body.
proof fn lemma_hint_passes(s: Tree, b: Tree, d: Tree)
    requires
        b is Atom || (b is Cell && *b->Cell_0 == atom(MEMO as nat)),
    ensures
        passes((s, d), (s, op(11, cell(b, d)))),
{
    assert forall|o: Outcome| #[trigger] evals(s, d, o) implies evals(s, op(11, cell(b, d)), o) by {
        let n = lemma_common1(s, d, o);
        assert(nock(s, op(11, cell(b, d)), n + 1) == nock_pair(s, 11, b, d, n + 1));
        assert(nock_pair(s, 11, b, d, n + 1) == nock(s, d, n));
    }
}

impl Machine {
    /// Takes up the evaluation of `f` against the current subject: either its
    /// value or crash is known at once, or the steps that compute it are pushed.
    fn run_eval(&mut self, f: Noun, d: u64, ctx: &mut Context, Ghost(top): Ghost<(Tree, Tree)>) -> (mode: u8)
        requires
            d >= 1,
            old(self).gdepth() == d,
            old(self).ok(top),
            !old(self).top_is_eval(),
            f.wf(),
            old(self).goal(top) == (old(self).subject@, f@),
            old(ctx).wf(),
        ensures
            (memo_body(f@) is Some && old(ctx).cache@.contains_key(cell(old(self).subject@, memo_body(f@)->0))) ==> (mode == VALUE && final(self).res == old(ctx).cache@[cell(old(self).subject@, memo_body(f@)->0)] && final(self).stack@ == old(self).stack@),
            final(self).bud == old(self).bud,
            final(self).load() < old(self).load() + reach(d as nat),
            nock(old(self).subject@, f@, 1) is Crash ==> mode == CRASH,
            final(self).ok(top),
            final(self).mode_ok(mode, top),
            final(ctx).wf(),
            final(ctx).budget == old(ctx).budget,
            final(ctx).line == old(ctx).line,
            appended(old(ctx).slogs@, final(ctx).slogs@),
    {
        let ghost s = self.subject@;
        proof {
            reveal(item_ok);
        }
        let ghost fv = f@;
        let m = d - 1;
        let (hd, arg) = match f.as_cell() {
            Some(p) => p,
            None => {
                proof {
                    lemma_atom_crash(s, fv);
                }
                return CRASH;
            },
        };
        if hd.is_cell() {
            proof {
                assert(nock(s, hd@, 0) is Exhausted);
                assert(nock(s, fv, 1) is Exhausted);
            }
            self.push_pair(Work::ConsTail(arg.copy()), hd.copy(), m, Ghost((s, hd@)), Ghost(top));
            return TASK;
        }
        let code = match hd.as_direct() {
            Some(c) => c,
            None => {
                proof {
                    lemma_malformed_crash(s, atom_val(hd@), arg@);
                }
                return CRASH;
            },
        };
        if code == 0 {
            match slot(&self.subject, arg) {
                Some(v) => {
                    self.res = v;
                    proof {
                        assert(nock(s, fv, 1) == Outcome::Value(self.res@));
                    }
                    VALUE
                },
                None => {
                    proof {
                        assert(nock(s, fv, 1) == Outcome::Crash);
                    }
                    CRASH
                },
            }
        } else if code == 1 {
            self.res = arg.copy();
            proof {
                assert(nock(s, fv, 1) == Outcome::Value(self.res@));
            }
            VALUE
        } else if code == 3 {
            proof {
                assert(nock(s, arg@, 0) is Exhausted);
                assert(nock(s, fv, 1) is Exhausted);
            }
            self.push_pair(Work::Op3, arg.copy(), m, Ghost((s, arg@)), Ghost(top));
            TASK
        } else if code == 4 {
            proof {
                assert(nock(s, arg@, 0) is Exhausted);
                assert(nock(s, fv, 1) is Exhausted);
            }
            self.push_pair(Work::Op4, arg.copy(), m, Ghost((s, arg@)), Ghost(top));
            TASK
        } else {
            match arg.as_cell() {
                Some((b, c)) => {
                    proof {
                        assert(nock(s, fv, 1) == nock_pair(s, code as nat, b@, c@, 1));
                    }
                    self.run_pair(code, b, c, m, ctx, Ghost(top))
                },
                None => {
                    proof {
                        lemma_malformed_crash(s, code as nat, arg@);
                    }
                    CRASH
                },
            }
        }
    }

    /// Takes up `[code b c]` for an opcode from 2 up (not 3 or 4).
    fn run_pair(&mut self, code: u64, b: &Noun, c: &Noun, m: u64, ctx: &mut Context, Ghost(top): Ghost<(Tree, Tree)>) -> (mode: u8)
        requires
            old(self).gdepth() == m + 1,
            old(self).ok(top),
            !old(self).top_is_eval(),
            b.wf(),
            c.wf(),
            code >= 2,
            code != 3,
            code != 4,
            old(self).goal(top) == (old(self).subject@, op(code as nat, cell(b@, c@))),
            old(ctx).wf(),
        ensures
            (code == 11 && b@ is Cell && *b@->Cell_0 == atom(MEMO as nat) && old(ctx).cache@.contains_key(cell(old(self).subject@, c@))) ==> (mode == VALUE && final(self).res == old(ctx).cache@[cell(old(self).subject@, c@)] && final(self).stack@ == old(self).stack@),
            nock_pair(old(self).subject@, code as nat, b@, c@, 1) is Crash ==> mode == CRASH,
            final(self).bud == old(self).bud,
            final(self).load() < old(self).load() + reach((m + 1) as nat),
            final(self).ok(top),
            final(self).mode_ok(mode, top),
            final(ctx).wf(),
            final(ctx).budget == old(ctx).budget,
            final(ctx).line == old(ctx).line,
            appended(old(ctx).slogs@, final(ctx).slogs@),
    {
        let ghost s = self.subject@;
        proof {
            reveal(item_ok);
        }
        let ghost fv = op(code as nat, cell(b@, c@));
        proof {
            assert((code == 2 || code == 5 || code == 7 || code == 8 || code == 9 || code == 11 || (
            code == 6 && c@ is Cell) || (code == 10 && b@ is Cell)) ==> nock_pair(
                s,
                code as nat,
                b@,
                c@,
                1,
            ) is Exhausted);
        }
        if code == 2 {
            self.push_pair(Work::Op2Formula(c.copy()), b.copy(), m, Ghost((s, b@)), Ghost(top));
            TASK
        } else if code == 5 {
            self.push_pair(Work::Op5Right(c.copy()), b.copy(), m, Ghost((s, b@)), Ghost(top));
            TASK
        } else if code == 6 {
            match c.as_cell() {
                Some((y, n)) => {
                    self.push_pair(
                        Work::Op6Branch(y.copy(), n.copy()),
                        b.copy(),
                        m, Ghost((s, b@)),
                        Ghost(top),
                    );
                    TASK
                },
                None => {
                    proof {
                        lemma_malformed_crash(s, code as nat, cell(b@, c@));
                    }
                    CRASH
                },
            }
        } else if code == 7 {
            self.push_pair(Work::Op7(c.copy()), b.copy(), m, Ghost((s, b@)), Ghost(top));
            TASK
        } else if code == 8 {
            self.push_pair(Work::Op8(c.copy()), b.copy(), m, Ghost((s, b@)), Ghost(top));
            TASK
        } else if code == 9 {
            self.push_pair(Work::Op9(b.copy()), c.copy(), m, Ghost((s, c@)), Ghost(top));
            TASK
        } else if code == 10 {
            match b.as_cell() {
                Some((ax, pf)) => {
                    self.push_pair(
                        Work::Op10Patch(ax.copy(), pf.copy()),
                        c.copy(),
                        m, Ghost((s, c@)),
                        Ghost(top),
                    );
                    TASK
                },
                None => {
                    proof {
                        lemma_malformed_crash(s, code as nat, cell(b@, c@));
                    }
                    CRASH
                },
            }
        } else if code == 11 {
            self.run_hint(b, c, m, ctx, Ghost(top))
        } else {
            proof {
                lemma_malformed_crash(s, code as nat, cell(b@, c@));
            }
            CRASH
        }
    }

    /// Takes up the hint `[11 b c]`. A memoization hint answers from the cache
    /// when it can; another dynamic hint evaluates its clue first. The clue of
    /// a memoization hint is never evaluated, on a hit or on a miss: its value
    /// is not used, and evaluating it on a miss only would make the outcome
    /// of a crashing clue depend on what the cache holds.
    fn run_hint(&mut self, b: &Noun, c: &Noun, m: u64, ctx: &mut Context, Ghost(top): Ghost<(Tree, Tree)>) -> (mode: u8)
        requires
            old(self).gdepth() == m + 1,
            old(self).ok(top),
            !old(self).top_is_eval(),
            b.wf(),
            c.wf(),
            old(self).goal(top) == (old(self).subject@, op(11, cell(b@, c@))),
            old(ctx).wf(),
        ensures
            (b@ is Cell && *b@->Cell_0 == atom(MEMO as nat) && old(ctx).cache@.contains_key(cell(old(self).subject@, c@))) ==> (mode == VALUE && final(self).res == old(ctx).cache@[cell(old(self).subject@, c@)] && final(self).stack@ == old(self).stack@),
            final(self).bud == old(self).bud,
            final(self).load() < old(self).load() + reach((m + 1) as nat),
            final(self).ok(top),
            final(self).mode_ok(mode, top),
            final(ctx).wf(),
            final(ctx).budget == old(ctx).budget,
            final(ctx).line == old(ctx).line,
            appended(old(ctx).slogs@, final(ctx).slogs@),
    {
        let ghost s = self.subject@;
        match b.as_cell() {
            None => {
                let saved = self.subject.copy();
                proof {
                    lemma_hint_passes(s, b@, c@);
                    lemma_exh_hint_body(s, b@, c@, m as nat);
                    assert(item_ok(Work::Restore(saved), (s, c@), self.goal(top))) by {
                        reveal(item_ok);
                    }
                }
                self.push_pair(Work::Restore(saved), c.copy(), m, Ghost((s, c@)), Ghost(top));
                TASK
            },
            Some((tag, clue)) => {
                let is_memo = match tag.as_direct() {
                    Some(t) => t == MEMO,
                    None => false,
                };
                if is_memo {
                    proof {
                        lemma_hint_passes(s, b@, c@);
                        lemma_exh_hint_body(s, b@, c@, m as nat);
                    lemma_exh_hint_body(s, b@, c@, m as nat);
                    }
                    self.run_memo(c, m, ctx, Ghost(top))
                } else {
                    let w = Work::HintClue(tag.copy(), c.copy());
                    proof {
                        assert(item_ok(w, (s, clue@), self.goal(top))) by {
                            reveal(item_ok);
                        }
                    }
                    self.push_pair(w, clue.copy(), m, Ghost((s, clue@)), Ghost(top));
                    TASK
                }
            },
        }
    }

    /// A memoization hint over body `c`: the cached value of `[subject c]`, or
    /// the evaluation of `c` followed by storing its value.
    fn run_memo(&mut self, c: &Noun, m: u64, ctx: &mut Context, Ghost(top): Ghost<(Tree, Tree)>) -> (mode: u8)
        requires
            old(self).gdepth() == m + 1,
            exh_ok((old(self).subject@, c@), old(self).goal(top), m as nat),
            old(self).ok(top),
            !old(self).top_is_eval(),
            c.wf(),
            passes((old(self).subject@, c@), old(self).goal(top)),
            old(self).goal(top).0 == old(self).subject@,
            old(ctx).wf(),
        ensures
            old(ctx).cache@.contains_key(cell(old(self).subject@, c@)) ==> final(self).stack@ == old(self).stack@,
            final(self).bud == old(self).bud,
            final(self).load() < old(self).load() + reach((m + 1) as nat),
            old(ctx).cache@.contains_key(cell(old(self).subject@, c@)) ==> mode == VALUE && final(self).res == old(ctx).cache@[cell(old(self).subject@, c@)],
            final(self).ok(top),
            final(self).mode_ok(mode, top),
            final(ctx).wf(),
            final(ctx).budget == old(ctx).budget,
            final(ctx).line == old(ctx).line,
            appended(old(ctx).slogs@, final(ctx).slogs@),
    {
        let ghost s = self.subject@;
        let mut key = Noun::cell(self.subject.copy(), c.copy());
        match ctx.cache.lookup(&mut key) {
            Some(v) => {
                proof {
                    assert(ctx.cache@.contains_key(cell(s, c@)));
                    assert(evals(s, c@, Outcome::Value(v@)));
                    lemma_use_passes((s, c@), self.goal(top), Outcome::Value(v@));
                }
                self.res = v;
                VALUE
            },
            None => {
                let w = Work::HintStore(c.copy());
                proof {
                    assert(item_ok(w, (s, c@), self.goal(top))) by {
                        reveal(item_ok);
                    }
                }
                self.push_pair(w, c.copy(), m, Ghost((s, c@)), Ghost(top));
                TASK
            },
        }
    }
}


/// A crash of what an entry waits for is a crash of what it completes.
proof fn lemma_crash_step(w: Work, g: (Tree, Tree), p: (Tree, Tree))
    requires
        item_ok(w, g, p),
        evals(g.0, g.1, Outcome::Crash),
        !(w is Eval),
    ensures
        evals(p.0, p.1, Outcome::Crash),
{
    reveal(item_ok);
    let s = g.0;
    let cr = Outcome::Crash;
    match w {
        Work::Restore(_) | Work::HintStore(_) => {
            lemma_use_passes(g, p, cr);
        },
        Work::ConsTail(b) => {
            let n = lemma_common1(s, g.1, cr);
            assert(nock(s, p.1, n + 1) == cr);
        },
        Work::ConsDone(h) => {
            let a = *p.1->Cell_0;
            let n = lemma_common2(s, a, Outcome::Value(h@), s, g.1, cr);
            assert(nock(s, p.1, n + 1) == cr);
        },
        Work::Op3 | Work::Op4 => {
            let n = lemma_common1(s, g.1, cr);
            assert(nock(s, p.1, n + 1) == cr);
        },
        Work::Op2Formula(c) | Work::Op5Right(c) | Work::Op7(c) | Work::Op8(c) => {
            let code = atom_val(*p.1->Cell_0);
            let n = lemma_common1(s, g.1, cr);
            assert(nock(s, p.1, n + 1) == nock_pair(s, code, g.1, c@, n + 1));
        },
        Work::Op6Branch(y, no) => {
            let n = lemma_common1(s, g.1, cr);
            assert(nock(s, p.1, n + 1) == nock_pair(s, 6, g.1, cell(y@, no@), n + 1));
        },
        Work::Op2Call(x) | Work::Op5Test(x) => {
            let code = atom_val(*p.1->Cell_0);
            let b = arg1(p.1);
            let n = lemma_common2(s, b, Outcome::Value(x@), s, g.1, cr);
            assert(nock(s, p.1, n + 1) == nock_pair(s, code, b, g.1, n + 1));
        },
        Work::Op9(b) => {
            let n = lemma_common1(s, g.1, cr);
            assert(nock(s, p.1, n + 1) == nock_pair(s, 9, b@, g.1, n + 1));
        },
        Work::Op10Patch(ax, pf) => {
            let n = lemma_common1(s, g.1, cr);
            assert(nock(s, p.1, n + 1) == nock_pair(s, 10, cell(ax@, pf@), g.1, n + 1));
        },
        Work::Op10Edit(ax, t) => {
            let d = arg2(p.1);
            let n = lemma_common2(s, d, Outcome::Value(t@), s, g.1, cr);
            assert(nock(s, p.1, n + 1) == nock_pair(s, 10, cell(ax@, g.1), d, n + 1));
        },
        Work::HintClue(tag, d) => {
            let n = lemma_common1(s, g.1, cr);
            assert(nock(s, p.1, n + 1) == nock_pair(s, 11, cell(tag@, g.1), d@, n + 1));
        },
        Work::Eval(_) => {},
    }
}

/// Running out of depth in what an entry waits for runs its parent out of
/// depth one level up.
proof fn lemma_exh_item(w: Work, g: (Tree, Tree), p: (Tree, Tree), m: nat)
    requires
        item_ok(w, g, p),
        !(w is Eval),
        !(w is Restore),
        !(w is HintStore),
    ensures
        exh_ok(g, p, m),
{
    reveal(item_ok);
    let s = g.0;
    if nock(s, g.1, m) is Exhausted {
        match w {
            Work::ConsTail(b) => {
                assert(nock(s, p.1, m + 1) is Exhausted);
            },
            Work::ConsDone(h) => {
                let a = *p.1->Cell_0;
                lemma_settled(s, a, m, h@);
                assert(nock(s, p.1, m + 1) is Exhausted);
            },
            Work::Op3 | Work::Op4 => {
                assert(nock(s, p.1, m + 1) is Exhausted);
            },
            Work::Op2Formula(c) | Work::Op5Right(c) | Work::Op7(c) | Work::Op8(c) => {
                let code = atom_val(*p.1->Cell_0);
                assert(nock(s, p.1, m + 1) == nock_pair(s, code, g.1, c@, m + 1));
            },
            Work::Op6Branch(y, no) => {
                assert(nock(s, p.1, m + 1) == nock_pair(s, 6, g.1, cell(y@, no@), m + 1));
            },
            Work::Op2Call(x) | Work::Op5Test(x) => {
                let code = atom_val(*p.1->Cell_0);
                let b = arg1(p.1);
                lemma_settled(s, b, m, x@);
                assert(nock(s, p.1, m + 1) == nock_pair(s, code, b, g.1, m + 1));
            },
            Work::Op9(b) => {
                assert(nock(s, p.1, m + 1) == nock_pair(s, 9, b@, g.1, m + 1));
            },
            Work::Op10Patch(ax, pf) => {
                assert(nock(s, p.1, m + 1) == nock_pair(s, 10, cell(ax@, pf@), g.1, m + 1));
            },
            Work::Op10Edit(ax, t) => {
                let d = arg2(p.1);
                lemma_settled(s, d, m, t@);
                assert(nock(s, p.1, m + 1) == nock_pair(s, 10, cell(ax@, g.1), d, m + 1));
            },
            Work::HintClue(tag, d) => {
                assert(nock(s, p.1, m + 1) == nock_pair(s, 11, cell(tag@, g.1), d@, m + 1));
            },
            _ => {},
        }
    }
}

proof fn lemma_exh_hint_body(s: Tree, b: Tree, d: Tree, m: nat)
    requires
        b is Atom || (b is Cell && *b->Cell_0 == atom(MEMO as nat)),
    ensures
        exh_ok((s, d), (s, op(11, cell(b, d))), m),
{
    assert(nock(s, op(11, cell(b, d)), m + 1) == nock_pair(s, 11, b, d, m + 1));
}

proof fn lemma_exh_op2(s: Tree, b: Tree, c: Tree, s2: Tree, f2: Tree, m: nat)
    requires
        evals(s, b, Outcome::Value(s2)),
        evals(s, c, Outcome::Value(f2)),
    ensures
        exh_ok((s2, f2), (s, op(2, cell(b, c))), m),
{
    lemma_settled(s, b, m, s2);
    lemma_settled(s, c, m, f2);
    assert(nock(s, op(2, cell(b, c)), m + 1) == nock_pair(s, 2, b, c, m + 1));
}

proof fn lemma_exh_op6(s: Tree, b: Tree, y: Tree, no: Tree, t: Tree, m: nat)
    requires
        evals(s, b, Outcome::Value(t)),
        t == atom(0) || t == atom(1),
    ensures
        exh_ok((s, if t == atom(0) { y } else { no }), (s, op(6, cell(b, cell(y, no)))), m),
{
    lemma_settled(s, b, m, t);
    assert(nock(s, op(6, cell(b, cell(y, no))), m + 1) == nock_pair(s, 6, b, cell(y, no), m + 1));
}

proof fn lemma_exh_op78(s: Tree, code: nat, b: Tree, c: Tree, v: Tree, m: nat)
    requires
        code == 7 || code == 8,
        evals(s, b, Outcome::Value(v)),
    ensures
        exh_ok((if code == 7 { v } else { cell(v, s) }, c), (s, op(code, cell(b, c))), m),
{
    lemma_settled(s, b, m, v);
    assert(nock(s, op(code, cell(b, c)), m + 1) == nock_pair(s, code, b, c, m + 1));
}

proof fn lemma_exh_op9(s: Tree, b: Tree, c: Tree, core: Tree, arm: Tree, m: nat)
    requires
        evals(s, c, Outcome::Value(core)),
        b is Atom,
        fetch(core, b->Atom_0) == Some(arm),
    ensures
        exh_ok((core, arm), (s, op(9, cell(b, c))), m),
{
    lemma_settled(s, c, m, core);
    assert(nock(s, op(9, cell(b, c)), m + 1) == nock_pair(s, 9, b, c, m + 1));
}

proof fn lemma_exh_op11(s: Tree, tag: Tree, clue: Tree, d: Tree, v: Tree, m: nat)
    requires
        tag != atom(MEMO as nat),
        evals(s, clue, Outcome::Value(v)),
    ensures
        exh_ok((s, d), (s, op(11, cell(cell(tag, clue), d))), m),
{
    lemma_settled(s, clue, m, v);
    assert(nock(s, op(11, cell(cell(tag, clue), d)), m + 1) == nock_pair(
        s,
        11,
        cell(tag, clue),
        d,
        m + 1,
    ));
}

impl Machine {
    /// Switches to `new_subject` for the evaluation of `f`, after pushing the
    /// entry that puts the current subject back.
    fn enter(
        &mut self,
        saved: Noun,
        new_subject: Noun,
        f: Noun,
        m: u64,
        Ghost(g): Ghost<(Tree, Tree)>,
        Ghost(top): Ghost<(Tree, Tree)>,
    )
        requires
            old(self).ok(top),
            !old(self).top_is_eval(),
            saved.wf(),
            new_subject.wf(),
            f.wf(),
            saved@ == old(self).goal(top).0,
            passes(g, old(self).goal(top)),
            exh_ok(g, old(self).goal(top), m as nat),
            old(self).gdepth() == m + 1,
            new_subject@ == g.0,
            f@ == g.1,
        ensures
            final(self).ok(top),
            final(self).mode_ok(TASK, top),
            final(self).bud == old(self).bud,
            final(self).load() == old(self).load() + 1 + reach(m as nat),
    {
        let w = Work::Restore(saved);
        proof {
            assert(item_ok(w, g, self.goal(top))) by {
                reveal(item_ok);
            }
        }
        self.subject = new_subject;
        self.push_pair(w, f, m, Ghost(g), Ghost(top));
    }

    /// Resumes entry `w`, whose awaited value is in `res`.
    fn run_cont(&mut self, w: Work, Ghost(g): Ghost<(Tree, Tree)>, m: u64, ctx: &mut Context, Ghost(top): Ghost<(Tree, Tree)>) -> (mode: u8)
        requires
            old(self).gdepth() == m + 1,
            exh_ok(g, old(self).goal(top), m as nat),
            old(self).ok(top),
            !old(self).top_is_eval(),
            work_wf(w),
            !(w is Eval),
            item_ok(w, g, old(self).goal(top)),
            evals(g.0, g.1, Outcome::Value(old(self).res@)),
            old(self).subject@ == g.0,
            old(ctx).wf(),
        ensures
            final(self).bud == old(self).bud,
            final(self).load() < old(self).load() + weight(w, m as nat),
            final(self).ok(top),
            final(self).mode_ok(mode, top),
            final(ctx).wf(),
            final(ctx).budget == old(ctx).budget,
            final(ctx).line == old(ctx).line,
            appended(old(ctx).slogs@, final(ctx).slogs@),
    {
        let ghost s = self.subject@;
        let ghost p = self.goal(top);
        let ghost v = self.res@;
        match w {
            Work::ConsTail(b) => {
                let nw = Work::ConsDone(self.res.copy());
                proof {
                    assert(item_ok(nw, (s, b@), p)) by {
                        reveal(item_ok);
                    }
                }
                self.push_pair(nw, b, m, Ghost((s, b@)), Ghost(top));
                TASK
            },
            Work::ConsDone(h) => {
                proof {
                    reveal(item_ok);
                    lemma_cons_value(s, *p.1->Cell_0, g.1, h@, v);
                }
                self.res = Noun::cell(h, self.res.copy());
                VALUE
            },
            Work::Op2Formula(c) => {
                let nw = Work::Op2Call(self.res.copy());
                proof {
                    assert(item_ok(nw, (s, c@), p)) by {
                        reveal(item_ok);
                    }
                }
                self.push_pair(nw, c, m, Ghost((s, c@)), Ghost(top));
                TASK
            },
            Work::Op2Call(s2) => {
                let f2 = self.res.copy();
                let saved = self.subject.copy();
                proof {
                    reveal(item_ok);
                    assert forall|o: Outcome| #[trigger] evals(s2@, f2@, o) implies evals(p.0, p.1, o) by {
                        lemma_op2_passes(s, arg1(p.1), g.1, s2@, f2@, o);
                    }
                    lemma_exh_op2(s, arg1(p.1), g.1, s2@, f2@, m as nat);
                }
                self.enter(saved, s2, f2, m, Ghost((s2@, v)), Ghost(top));
                TASK
            },
            Work::Op3 => {
                proof {
                    reveal(item_ok);
                    lemma_op3_value(s, g.1, v);
                }
                self.res = if self.res.is_cell() {
                    Noun::direct(0)
                } else {
                    Noun::direct(1)
                };
                VALUE
            },
            Work::Op4 => {
                proof {
                    reveal(item_ok);
                    lemma_op4_value(s, g.1, v);
                }
                if self.res.is_atom() {
                    self.res = inc(&self.res);
                    VALUE
                } else {
                    CRASH
                }
            },
            Work::Op5Right(c) => {
                let nw = Work::Op5Test(self.res.copy());
                proof {
                    assert(item_ok(nw, (s, c@), p)) by {
                        reveal(item_ok);
                    }
                }
                self.push_pair(nw, c, m, Ghost((s, c@)), Ghost(top));
                TASK
            },
            Work::Op5Test(x) => {
                proof {
                    reveal(item_ok);
                    lemma_op5_value(s, arg1(p.1), g.1, x@, v);
                }
                self.res = if equals(&x, &self.res) {
                    Noun::direct(0)
                } else {
                    Noun::direct(1)
                };
                VALUE
            },
            _ => self.run_cont_more(w, Ghost(g), m, ctx, Ghost(top)),
        }
    }

    fn run_cont_more(&mut self, w: Work, Ghost(g): Ghost<(Tree, Tree)>, m: u64, ctx: &mut Context, Ghost(top): Ghost<(Tree, Tree)>) -> (mode: u8)
        requires
            old(self).gdepth() == m + 1,
            exh_ok(g, old(self).goal(top), m as nat),
            old(self).ok(top),
            !old(self).top_is_eval(),
            work_wf(w),
            !(w is Eval),
            item_ok(w, g, old(self).goal(top)),
            evals(g.0, g.1, Outcome::Value(old(self).res@)),
            old(self).subject@ == g.0,
            old(ctx).wf(),
            w is Op6Branch || w is Op7 || w is Op8 || w is Op9 || w is Op10Patch || w is Op10Edit
                || w is HintClue || w is HintStore || w is Restore,
        ensures
            final(self).bud == old(self).bud,
            final(self).load() < old(self).load() + weight(w, m as nat),
            final(self).ok(top),
            final(self).mode_ok(mode, top),
            final(ctx).wf(),
            final(ctx).budget == old(ctx).budget,
            final(ctx).line == old(ctx).line,
            appended(old(ctx).slogs@, final(ctx).slogs@),
    {
        let ghost s = self.subject@;
        let ghost p = self.goal(top);
        let ghost v = self.res@;
        match w {
            Work::Op6Branch(y, no) => {
                let t = self.res.as_direct();
                let ghost b = g.1;
                proof {
                    reveal(item_ok);
                }
                if t == Some(0u64) || t == Some(1u64) {
                    let branch = if t == Some(0u64) {
                        y
                    } else {
                        no
                    };
                    proof {
                        assert forall|o: Outcome| #[trigger] evals(s, branch@, o) implies evals(
                            p.0,
                            p.1,
                            o,
                        ) by {
                            lemma_op6(s, b, y@, no@, v, o);
                        }
                        lemma_exh_op6(s, b, y@, no@, v, m as nat);
                    }
                    let saved = self.subject.copy();
                    let here = self.subject.copy();
                    self.enter(saved, here, branch, m, Ghost((s, branch@)), Ghost(top));
                    TASK
                } else {
                    proof {
                        lemma_op6(s, b, y@, no@, v, Outcome::Crash);
                    }
                    CRASH
                }
            },
            Work::Op7(c) => {
                let x = self.res.copy();
                let saved = self.subject.copy();
                proof {
                    reveal(item_ok);
                    assert forall|o: Outcome| #[trigger] evals(v, c@, o) implies evals(p.0, p.1, o) by {
                        lemma_op78(s, 7, g.1, c@, v, o);
                    }
                    lemma_exh_op78(s, 7, g.1, c@, v, m as nat);
                }
                self.enter(saved, x, c, m, Ghost((v, c@)), Ghost(top));
                TASK
            },
            Work::Op8(c) => {
                let x = Noun::cell(self.res.copy(), self.subject.copy());
                let saved = self.subject.copy();
                proof {
                    reveal(item_ok);
                    assert forall|o: Outcome| #[trigger] evals(cell(v, s), c@, o) implies evals(
                        p.0,
                        p.1,
                        o,
                    ) by {
                        lemma_op78(s, 8, g.1, c@, v, o);
                    }
                    lemma_exh_op78(s, 8, g.1, c@, v, m as nat);
                }
                self.enter(saved, x, c, m, Ghost((cell(v, s), c@)), Ghost(top));
                TASK
            },
            Work::Op9(b) => {
                proof {
                    reveal(item_ok);
                }
                match slot(&self.res, &b) {
                    Some(arm) => {
                        let core = self.res.copy();
                        let saved = self.subject.copy();
                        proof {
                            assert forall|o: Outcome| #[trigger] evals(v, arm@, o) implies evals(
                                p.0,
                                p.1,
                                o,
                            ) by {
                                lemma_op9(s, b@, g.1, v, o);
                            }
                            lemma_exh_op9(s, b@, g.1, v, arm@, m as nat);
                        }
                        self.enter(saved, core, arm, m, Ghost((v, arm@)), Ghost(top));
                        TASK
                    },
                    None => {
                        proof {
                            lemma_op9(s, b@, g.1, v, Outcome::Crash);
                        }
                        CRASH
                    },
                }
            },
            _ => self.run_cont_last(w, Ghost(g), m, ctx, Ghost(top)),
        }
    }

    fn run_cont_last(&mut self, w: Work, Ghost(g): Ghost<(Tree, Tree)>, m: u64, ctx: &mut Context, Ghost(top): Ghost<(Tree, Tree)>) -> (mode: u8)
        requires
            old(self).gdepth() == m + 1,
            exh_ok(g, old(self).goal(top), m as nat),
            old(self).ok(top),
            !old(self).top_is_eval(),
            work_wf(w),
            !(w is Eval),
            item_ok(w, g, old(self).goal(top)),
            evals(g.0, g.1, Outcome::Value(old(self).res@)),
            old(self).subject@ == g.0,
            old(ctx).wf(),
            w is Op10Patch || w is Op10Edit || w is HintClue || w is HintStore || w is Restore,
        ensures
            w is HintStore ==> final(ctx).cache@ == old(ctx).cache@.insert(cell(old(self).subject@, w->HintStore_0@), old(self).res),
            final(self).bud == old(self).bud,
            final(self).load() < old(self).load() + weight(w, m as nat),
            final(self).ok(top),
            final(self).mode_ok(mode, top),
            final(ctx).wf(),
            final(ctx).budget == old(ctx).budget,
            final(ctx).line == old(ctx).line,
            appended(old(ctx).slogs@, final(ctx).slogs@),
    {
        let ghost s = self.subject@;
        let ghost p = self.goal(top);
        let ghost v = self.res@;
        match w {
            Work::Op10Patch(ax, pf) => {
                let nw = Work::Op10Edit(ax, self.res.copy());
                proof {
                    assert(item_ok(nw, (s, pf@), p)) by {
                        reveal(item_ok);
                    }
                }
                self.push_pair(nw, pf, m, Ghost((s, pf@)), Ghost(top));
                TASK
            },
            Work::Op10Edit(ax, t) => {
                proof {
                    reveal(item_ok);
                    lemma_op10(s, ax@, g.1, arg2(p.1), t@, v);
                }
                match edit(&ax, self.res.copy(), &t) {
                    Some(r) => {
                        self.res = r;
                        VALUE
                    },
                    None => CRASH,
                }
            },
            Work::HintClue(tag, d) => {
                proof {
                    reveal(item_ok);
                    assert forall|o: Outcome| #[trigger] evals(s, d@, o) implies evals(p.0, p.1, o) by {
                        lemma_op11_clue(s, tag@, g.1, d@, v, o);
                    }
                    lemma_exh_op11(s, tag@, g.1, d@, v, m as nat);
                }
                record_slog(&tag, &self.res, ctx);
                let saved = self.subject.copy();
                let here = self.subject.copy();
                self.enter(saved, here, d, m, Ghost((s, d@)), Ghost(top));
                TASK
            },
            Work::HintStore(d) => {
                proof {
                    reveal(item_ok);
                    lemma_use_passes(g, p, Outcome::Value(v));
                }
                let mut key = Noun::cell(self.subject.copy(), d);
                let val = self.res.copy();
                let ghost old_cache = ctx.cache@;
                ctx.cache = ctx.cache.insert(&mut key, val);
                proof {
                    assert forall|k: Tree| #[trigger] ctx.cache@.contains_key(k) implies k is Cell
                        && ctx.cache@[k].wf() && evals(
                        *k->Cell_0,
                        *k->Cell_1,
                        Outcome::Value(ctx.cache@[k]@),
                    ) by {
                        if k != cell(s, g.1) {
                            assert(old_cache.contains_key(k));
                        }
                    }
                }
                VALUE
            },
            Work::Restore(sv) => {
                proof {
                    reveal(item_ok);
                    lemma_use_passes(g, p, Outcome::Value(v));
                }
                self.subject = sv;
                VALUE
            },
            _ => CRASH,
        }
    }
}

proof fn lemma_appended_trans(a: Seq<(u64, Noun)>, b: Seq<(u64, Noun)>, c: Seq<(u64, Noun)>)
    requires
        appended(a, b),
        appended(b, c),
    ensures
        appended(a, c),
{
    assert forall|i: int| 0 <= i < a.len() implies #[trigger] c[i] == a[i] by {
        assert(c[i] == b[i]);
    }
}

/// A `%slog` hint whose clue is `[priority message]`, with a priority that
/// fits a machine word, emits a diagnostic.
fn record_slog(tag: &Noun, clue: &Noun, ctx: &mut Context)
    requires
        old(ctx).wf(),
        tag.wf(),
        clue.wf(),
    ensures
        final(ctx).wf(),
        final(ctx).budget == old(ctx).budget,
        final(ctx).line == old(ctx).line,
        appended(old(ctx).slogs@, final(ctx).slogs@),
        ({
            let emits = tag@ == atom(SLOG as nat) && clue@ is Cell && (*clue@->Cell_0) is Atom
                && atom_val(*clue@->Cell_0) < crate::noun::WORD;
            &&& emits ==> final(ctx).slogs@.len() == old(ctx).slogs@.len() + 1
                && final(ctx).slogs@.last().0 == atom_val(*clue@->Cell_0)
                && final(ctx).slogs@.last().1@ == *clue@->Cell_1
            &&& !emits ==> final(ctx).slogs@ == old(ctx).slogs@
        }),
{
    if tag.as_direct() == Some(SLOG) {
        if let Some((pri, tank)) = clue.as_cell() {
            if let Some(p) = pri.as_direct() {
                ctx.slogs.push((p, tank.copy()));
            }
        }
    }
}


/// Evaluates `formula` against `subject` without native recursion: nested
/// evaluations are entries of an explicit control stack, so their depth is
/// bounded by the heap alone. Evaluations nest at most `context.budget` deep;
/// where that is not deep enough the result is `Error::Exhausted`, exactly
/// where `nock` at that depth runs out too (a memoized answer may settle
/// sooner). A crash unwinds the whole stack, is reported as `Error::Crash`,
/// and leaves the cache as it was. The cache of `context` answers and records
/// memoization hints; it only ever holds finished evaluations.
pub fn interpret(context: &mut Context, subject: &Noun, formula: &Noun) -> (r: Result<Noun, Error>)
    requires
        old(context).wf(),
        subject.wf(),
        formula.wf(),
    ensures
        final(context).wf(),
        final(context).budget == old(context).budget,
        final(context).line == old(context).line,
        appended(old(context).slogs@, final(context).slogs@),
        r matches Ok(v) ==> v.wf() && evals(subject@, formula@, Outcome::Value(v@)),
        r matches Err(Error::Crash) ==> evals(subject@, formula@, Outcome::Crash)
            && final(context).cache@ == old(context).cache@,
        r matches Err(Error::Exhausted) ==> nock(subject@, formula@, old(context).budget as nat) is Exhausted,
        (memo_body(formula@) is Some && old(context).budget >= 1 && old(context).cache@.contains_key(
            cell(subject@, memo_body(formula@)->0),
        )) ==> (r matches Ok(v) && v == old(context).cache@[cell(subject@, memo_body(formula@)->0)]),
{
    let ghost top = (subject@, formula@);
    let cache0 = context.cache.share();
    let mut m = Machine {
        stack: Vec::new(),
        frames: Ghost(Seq::empty()),
        depths: Vec::new(),
        bud: Ghost(context.budget as nat),
        subject: subject.copy(),
        res: Noun::direct(0),
    };
    m.stack.push(Work::Eval(formula.copy()));
    m.depths.push(context.budget);
    m.frames = Ghost(Seq::empty().push(top));
    proof {
        assert(m.stack@ =~= seq![Work::Eval(*formula)]);
        assert(m.depths@ =~= seq![context.budget]);
        reveal(stack_ok);
        reveal(depth_ok);
        reveal(item_ok);
        assert(m.stack@[0] == Work::Eval(*formula));
    }
    let mut mode: u8 = TASK;
    let ghost hit = memo_body(formula@) is Some && context.budget >= 1 && context.cache@.contains_key(
        cell(subject@, memo_body(formula@)->0),
    );
    let ghost cached = context.cache@[cell(subject@, memo_body(formula@)->0)];
    let ghost budget0 = context.budget;
    let ghost line0 = context.line;
    let ghost slogs0 = context.slogs@;
    while mode == TASK || mode == VALUE
        invariant
            top == (subject@, formula@),
            m.ok(top),
            m.mode_ok(mode, top),
            m.bud@ == budget0,
            context.wf(),
            context.budget == budget0,
            context.line == line0,
            budget0 == old(context).budget,
            line0 == old(context).line,
            slogs0 == old(context).slogs@,
            appended(slogs0, context.slogs@),
            cache0.wf(),
            cache0@ == old(context).cache@,
            cache_ok(cache0@),
            hit == (memo_body(formula@) is Some && old(context).budget >= 1 && old(
                context,
            ).cache@.contains_key(cell(subject@, memo_body(formula@)->0))),
            cached == old(context).cache@[cell(subject@, memo_body(formula@)->0)],
            hit ==> (mode == TASK && m.stack@ == seq![Work::Eval(*formula)] && m.depths@ == seq![
                budget0,
            ] && m.subject@ == subject@ && context.cache@ == old(context).cache@) || (mode == VALUE
                && m.stack@.len() == 0 && m.res == cached),
        decreases m.load(),
    {
        if mode == TASK {
            let ghost before = m;
            let (w, g, d) = m.pop(Ghost(top));
            match w {
                Work::Eval(f) => {
                    proof {
                        reveal(item_ok);
                    }
                    if d == 0 {
                        mode = EXHAUSTED;
                    } else {
                        let ghost before_slogs = context.slogs@;
                        proof {
                            if hit {
                                assert(before.stack@ == seq![Work::Eval(*formula)]);
                                assert(w == Work::Eval(*formula));
                                assert(d == budget0);
                            }
                        }
                        mode = m.run_eval(f, d, context, Ghost(top));
                        proof {
                            lemma_appended_trans(slogs0, before_slogs, context.slogs@);
                        }
                    }
                },
                _ => {
                    return Err(Error::Exhausted);
                },
            }
        } else {
            if m.stack.len() == 0 {
                return Ok(m.res);
            }
            let (w, g, d) = m.pop(Ghost(top));
            let ghost before_slogs = context.slogs@;
            mode = m.run_cont(w, g, d, context, Ghost(top));
            proof {
                lemma_appended_trans(slogs0, before_slogs, context.slogs@);
            }
        }
    }
    while m.stack.len() > 0
        invariant
            top == (subject@, formula@),
            m.ok(top),
            m.mode_ok(mode, top),
            m.bud@ == budget0,
            mode == CRASH || mode == EXHAUSTED,
        decreases m.stack.len(),
    {
        let ghost before = m;
        let (w, g, d) = m.pop(Ghost(top));
        proof {
            if mode == CRASH {
                lemma_crash_step(w, g@, m.goal(top));
            }
        }
    }
    if mode == CRASH {
        context.cache = cache0;
        Err(Error::Crash)
    } else {
        Err(Error::Exhausted)
    }
}

} // verus!
