use ares::interpreter::{interpret, Context, Error};
use ares::nock::{MEMO, SLOG};
use ares::noun::{equals, Noun};

fn d(x: u64) -> Noun {
    Noun::direct(x)
}

fn c(h: Noun, t: Noun) -> Noun {
    Noun::cell(h, t)
}

fn run(subject: Noun, formula: Noun) -> Result<Noun, Error> {
    let mut ctx = Context::new(1_000_000);
    interpret(&mut ctx, &subject, &formula)
}

fn value(r: Result<Noun, Error>) -> Noun {
    match r {
        Ok(v) => v,
        Err(Error::Crash) => panic!("crashed"),
        Err(Error::Exhausted) => panic!("ran out of steps"),
    }
}

#[test]
fn fetch_tail_of_subject() {
    let r = value(run(c(d(4), d(5)), c(d(0), d(3))));
    assert_eq!(r.as_direct(), Some(5));
}

#[test]
fn increment_whole_subject() {
    let r = value(run(d(0), c(d(4), c(d(0), d(1)))));
    assert_eq!(r.as_direct(), Some(1));
}

#[test]
fn cell_test_of_atom() {
    let r = value(run(d(42), c(d(3), c(d(0), d(1)))));
    assert_eq!(r.as_direct(), Some(1));
    let r2 = value(run(c(d(1), d(2)), c(d(3), c(d(0), d(1)))));
    assert_eq!(r2.as_direct(), Some(0));
}

#[test]
fn axis_zero_crashes() {
    assert!(matches!(run(c(d(4), d(5)), c(d(0), d(0))), Err(Error::Crash)));
}

#[test]
fn fetch_through_atom_crashes() {
    assert!(matches!(run(d(4), c(d(0), d(2))), Err(Error::Crash)));
}

#[test]
fn atom_formula_crashes() {
    assert!(matches!(run(d(4), d(7)), Err(Error::Crash)));
}

#[test]
fn unknown_opcode_crashes() {
    assert!(matches!(run(d(4), c(d(12), c(d(0), d(1)))), Err(Error::Crash)));
}

#[test]
fn increment_cell_crashes() {
    assert!(matches!(run(c(d(1), d(2)), c(d(4), c(d(0), d(1)))), Err(Error::Crash)));
}

#[test]
fn increment_past_word() {
    let r = value(run(d(u64::MAX), c(d(4), c(d(0), d(1)))));
    let mut bytes = vec![0u8; 8];
    bytes.push(1);
    assert!(equals(&r, &Noun::from_bytes(&bytes)));
}

#[test]
fn equality_of_same_formula() {
    let subj = c(d(1), c(d(2), d(3)));
    let f = c(d(5), c(c(d(0), d(3)), c(d(0), d(3))));
    assert_eq!(value(run(subj, f)).as_direct(), Some(0));
}

#[test]
fn equality_of_equal_values_built_apart() {
    let subj = c(c(d(2), d(3)), c(d(2), d(3)));
    let f = c(d(5), c(c(d(0), d(2)), c(d(0), d(3))));
    assert_eq!(value(run(subj, f)).as_direct(), Some(0));
    let f2 = c(d(5), c(c(d(0), d(2)), c(d(1), d(9))));
    assert_eq!(value(run(c(d(2), d(3)), f2)).as_direct(), Some(1));
}

#[test]
fn constant_and_cons() {
    let f = c(c(d(1), d(1)), c(d(1), d(2)));
    let r = value(run(d(0), f));
    assert!(equals(&r, &c(d(1), d(2))));
}

#[test]
fn compose() {
    let f = c(d(2), c(c(d(0), d(1)), c(d(1), c(d(4), c(d(0), d(1))))));
    assert_eq!(value(run(d(5), f)).as_direct(), Some(6));
}

#[test]
fn branch_on_test() {
    let yes = c(d(6), c(c(d(1), d(0)), c(c(d(1), d(11)), c(d(1), d(22)))));
    let no = c(d(6), c(c(d(1), d(1)), c(c(d(1), d(11)), c(d(1), d(22)))));
    let bad = c(d(6), c(c(d(1), d(2)), c(c(d(1), d(11)), c(d(1), d(22)))));
    assert_eq!(value(run(d(0), yes)).as_direct(), Some(11));
    assert_eq!(value(run(d(0), no)).as_direct(), Some(22));
    assert!(matches!(run(d(0), bad), Err(Error::Crash)));
}

#[test]
fn pipe_and_push() {
    let inc1 = c(d(4), c(d(0), d(1)));
    let pipe = c(d(7), c(inc1.clone(), inc1.clone()));
    assert_eq!(value(run(d(5), pipe)).as_direct(), Some(7));
    let push = c(d(8), c(c(d(1), d(0)), c(d(4), c(d(0), d(2)))));
    assert_eq!(value(run(d(0), push)).as_direct(), Some(1));
}

#[test]
fn invoke_arm() {
    let core = c(c(d(4), c(d(0), d(3))), d(77));
    let f = c(d(9), c(d(2), c(d(1), core)));
    assert_eq!(value(run(d(0), f)).as_direct(), Some(78));
}

#[test]
fn edit_opcode() {
    let f = c(d(10), c(c(d(2), c(d(1), d(9))), c(d(0), d(1))));
    let r = value(run(c(d(1), d(2)), f));
    assert!(equals(&r, &c(d(9), d(2))));
    let bad = c(d(10), c(c(d(6), c(d(1), d(9))), c(d(0), d(1))));
    assert!(matches!(run(c(d(1), d(2)), bad), Err(Error::Crash)));
}

#[test]
fn static_hint_is_transparent() {
    let f = c(d(11), c(d(1), c(d(1), d(5))));
    assert_eq!(value(run(d(0), f)).as_direct(), Some(5));
}

#[test]
fn dynamic_hint_crashing_clue_crashes() {
    let f = c(d(11), c(c(d(1), c(d(0), d(0))), c(d(1), d(5))));
    assert!(matches!(run(d(0), f), Err(Error::Crash)));
}

#[test]
fn slog_hint_records_diagnostic() {
    let clue = c(d(1), c(d(1), d(0x61)));
    let f = c(d(11), c(c(d(SLOG), clue), c(d(1), d(7))));
    let mut ctx = Context::new(1000);
    let r = value(interpret(&mut ctx, &d(0), &f));
    assert_eq!(r.as_direct(), Some(7));
    assert_eq!(ctx.slogs.len(), 1);
    assert_eq!(ctx.slogs[0].0, 1);
    assert_eq!(ctx.slogs[0].1.as_direct(), Some(0x61));
}

fn countdown(n: u64) -> Noun {
    let mut f = c(d(0), d(1));
    for _ in 0..n {
        f = c(d(4), f);
    }
    f
}

#[test]
fn memo_second_call_uses_cache() {
    let body = countdown(200);
    let f = c(d(11), c(c(d(MEMO), c(d(1), d(0))), body));
    let mut ctx = Context::new(100_000);
    let first = value(interpret(&mut ctx, &d(5), &f));
    assert_eq!(first.as_direct(), Some(205));
    ctx.budget = 2;
    let second = value(interpret(&mut ctx, &d(5), &f));
    assert!(equals(&first, &second));
    let other = interpret(&mut ctx, &d(6), &f);
    assert!(matches!(other, Err(Error::Exhausted)));
}

#[test]
fn deep_nesting_needs_no_native_stack() {
    let f = countdown(20_000);
    assert_eq!(value(run(d(0), f)).as_direct(), Some(20_000));
}

#[test]
fn endless_loop_runs_out_of_steps() {
    let f = c(d(2), c(c(d(0), d(1)), c(d(0), d(1))));
    let mut ctx = Context::new(10_000);
    assert!(matches!(interpret(&mut ctx, &f, &f), Err(Error::Exhausted)));
}

#[test]
fn budget_is_nesting_depth() {
    let f = c(d(4), c(d(4), c(d(0), d(1))));
    let mut shallow = Context::new(2);
    assert!(matches!(interpret(&mut shallow, &d(0), &f), Err(Error::Exhausted)));
    let mut enough = Context::new(3);
    assert_eq!(value(interpret(&mut enough, &d(0), &f)).as_direct(), Some(2));
}

#[test]
fn crash_leaves_cache_unchanged() {
    let memo = c(d(11), c(c(d(MEMO), d(0)), c(d(4), c(d(0), d(1)))));
    let f = c(memo, c(d(0), d(0)));
    let mut ctx = Context::new(1000);
    assert!(matches!(interpret(&mut ctx, &d(5), &f), Err(Error::Crash)));
    assert!(ctx.cache.is_null());
}
