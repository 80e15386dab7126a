//! Long runs: the debugger against a plain forward pass over tens of thousands
//! of steps.

use bloodhound::assembler::assemble;
use bloodhound::debugger::{Debugger, StopReason, WatchHit, WatchLoc};
use bloodhound::expr::Expr;
use bloodhound::vm::{Op, Program, Snapshot, Vm};
use std::collections::HashMap;

/// Loop iterations of the long programs.
fn stress_iters() -> u64 {
    2_100
}

/// Alternating moves.
fn stress_alt() -> usize {
    2_000
}

/// One entry of the ground-truth trace.
struct Step {
    pc: usize,
    line: u32,
    depth: usize,
    halted: bool,
    snap: Snapshot,
}

const TRACE_CAP: usize = 2_000_000;

struct Rng(u64);
impl Rng {
    fn new(seed: u64) -> Self {
        Rng(seed.wrapping_mul(0x9E37_79B9_7F4A_7C15).wrapping_add(1))
    }
    fn next(&mut self) -> u64 {
        // xorshift64star
        let mut x = self.0;
        x ^= x >> 12;
        x ^= x << 25;
        x ^= x >> 27;
        self.0 = x;
        x.wrapping_mul(0x2545_F491_4F6C_DD1D)
    }
    /// A uniform value in 0..n. The result is below `n` by construction, so the
    /// narrowing cast to usize cannot lose information.
    fn range(&mut self, n: usize) -> usize {
        (self.next() % n as u64) as usize
    }
    fn small(&mut self) -> i64 {
        // The modulo result is 0..=18, so the cast to i64 is exact.
        let v = (self.next() % 19) as i64;
        v - 9
    }
}

/// Generate a counted loop that runs `iters` iterations. Each iteration does
/// global arithmetic, a nested call two frames deep, a memory write, a
/// conditional branch that alternates, and the loop exit test. It prints once
/// at the end and always terminates, so the trace length is a deterministic
/// linear function of `iters`.
fn gen_loop_program(seed: u64, iters: u64) -> Program {
    let mut r = Rng::new(seed);
    let ma = r.range(15);
    let mv = r.small();
    let src = format!(
        "\
.globals 4
.memory 16
main:
  push {mv}
  push {ma}
  storemem
  push 0
  storeg 0
  push 0
  storeg 1
loop:
  loadg 1
  push {iters}
  lt
  jz done
  loadg 0
  loadg 1
  add
  storeg 0
  loadg 1
  push 15
  mod
  push 77
  storemem
  loadg 1
  call bump 1 2
  storeg 2
  loadg 1
  push 3
  mod
  jz alt
  push 1
  jmp inc
alt:
  push 0
inc:
  pop
  loadg 1
  push 1
  add
  storeg 1
  jmp loop
done:
  loadg 0
  print
  halt
bump:
  load 0
  call dbl 1 1
  push 1
  add
  ret
dbl:
  load 0
  push 2
  mul
  ret
"
    );
    assemble(&src).unwrap_or_else(|e| panic!("gen_loop seed {seed}: {}", e.to_string()))
}

/// A recursive program that descends `n` frames before unwinding, exercising
/// deep frame push and pop sequences.
fn gen_recursion_program(n: u64) -> Program {
    let src = format!(
        "\
.globals 2
.memory 8
main:
  push {n}
  call fact 1 2
  print
  halt
fact:
  load 0
  push 1
  le
  jz recurse
  push 1
  ret
recurse:
  load 0
  load 0
  push 1
  sub
  call fact 1 2
  mul
  ret
"
    );
    assemble(&src).unwrap_or_else(|e| panic!("gen_recursion: {}", e.to_string()))
}

/// Walk the whole program forward with a raw VM, calling `on_step(i, vm)` once
/// per state i (state i is the machine after i instructions), and return the
/// index of the final state. This is the independent reference for the
/// debugger: plain forward execution, no debugger involved.
fn raw_pass(p: &Program, mut on_step: impl FnMut(usize, &Vm)) -> usize {
    let mut vm = Vm::new(p);
    let mut n = 0usize;
    loop {
        on_step(n, &vm);
        if vm.halted || vm.step().is_none() {
            return n;
        }
        n += 1;
    }
}

/// Build the ground-truth forward trace: index i is the state after i steps.
/// Stops at `TRACE_CAP` states for very long programs.
fn ground_truth(p: &Program) -> Vec<Step> {
    let mut vm = Vm::new(p);
    let mut out = Vec::new();
    loop {
        let snap = vm.snapshot();
        out.push(Step {
            pc: snap.pc,
            line: p.line_at(snap.pc),
            depth: snap.frames.len(),
            halted: snap.halted,
            snap,
        });
        if vm.halted {
            break;
        }
        if vm.step().is_none() {
            break;
        }
        if out.len() > TRACE_CAP {
            break;
        }
    }
    out
}

/// Expected breakpoint arrivals from a trace: steps whose pc equals the
/// address and which have not halted.
fn expected_breakpoint_stops(trace: &[Step], addr: usize) -> Vec<usize> {
    (1..trace.len())
        .filter(|&i| trace[i].pc == addr && !trace[i].halted)
        .collect()
}

fn expected_step_out(trace: &[Step], s: usize) -> usize {
    let start_depth = trace[s].depth;
    for (j, step) in trace.iter().enumerate().skip(s + 1) {
        if step.halted || step.depth < start_depth {
            return j;
        }
    }
    trace.len() - 1
}

/// Run `d.cont()` until halt, collecting breakpoint stops.
fn collect_cont_stops(d: &mut Debugger, addr: usize) -> Vec<usize> {
    let mut stops = Vec::new();
    loop {
        match d.cont() {
            StopReason::Breakpoint(a) => {
                assert_eq!(a, addr);
                stops.push(d.step_count());
            }
            StopReason::Halted => break,
            StopReason::Limit => panic!("hit step limit"),
            other => panic!("unexpected stop {other:?}"),
        }
    }
    stops
}

/// Run the full forward pass once, recording (step, snapshot) anchors every
/// `every` steps and at the final state. Anchors are the ground truth for
/// random-access scrubbing without storing millions of snapshots.
fn anchors(p: &Program, every: usize) -> (usize, Vec<(usize, Snapshot)>) {
    let mut out = Vec::new();
    let total = raw_pass(p, |i, vm| {
        if i % every == 0 {
            out.push((i, vm.snapshot()));
        }
    });
    let last = out.last().map_or(0, |&(i, _)| i);
    if last != total {
        // Re-run to capture the terminal state (raw_pass is cheap).
        let mut vm = Vm::new(p);
        let mut n = 0;
        loop {
            if n == total {
                out.push((n, vm.snapshot()));
                break;
            }
            vm.step().expect("step within total");
            n += 1;
        }
    }
    (total, out)
}

// --- reversibility on a long path

#[test]
fn stress_long_reversibility() {
    let iters = stress_iters();
    let p = gen_loop_program(0xBEEF, iters);
    let (total, marks) = anchors(&p, 512);
    println!("stress_long_reversibility: iters={iters} total_steps={total} anchors={}", marks.len());

    let mut d = Debugger::new(p);
    // goto to every anchor reconstructs the exact forward state.
    for &(i, ref snap) in &marks {
        d.reset();
        d.goto(i);
        assert_eq!(d.step_count(), i, "step_count after goto({i})");
        assert_eq!(d.snapshot(), *snap, "goto({i}) mismatch on a {total}-step trace");
    }

    // From random start steps, forward K then back K returns exactly.
    let mut r = Rng::new(0x5CA1E);
    let mut d2 = Debugger::new(gen_loop_program(0xBEEF, iters));
    for _ in 0..256 {
        let s = marks[r.range(marks.len())].0;
        let room = total - s;
        if room == 0 {
            continue;
        }
        let k = 1 + r.range(room.min(4096));
        d2.reset();
        d2.goto(s);
        let before = d2.snapshot();
        for _ in 0..k {
            assert!(d2.forward());
        }
        for _ in 0..k {
            assert!(d2.backward());
        }
        assert_eq!(d2.snapshot(), before, "forward {k} back {k} at step {s}");
        assert_eq!(d2.step_count(), s);
    }

    // Thousands of alternating moves mid-program: state must flip exactly.
    let mid = marks[marks.len() / 2].0;
    d2.reset();
    d2.goto(mid);
    let before = d2.snapshot();
    let alt = stress_alt();
    for j in 0..alt {
        assert!(d2.forward());
        assert!(d2.backward());
        assert_eq!(d2.snapshot(), before, "alternation {j} at step {mid}");
    }
    // And a long reverse run from the end back to step 0 is exact.
    d2.reset();
    d2.goto(total);
    for i in (0..total).rev() {
        assert!(d2.backward());
        if i % 4096 == 0 {
            let want = marks.iter().find(|m| m.0 == i).expect("anchor exists");
            assert_eq!(d2.snapshot(), want.1, "reverse pass at step {i}");
        }
    }
    assert_eq!(d2.step_count(), 0);
}

// --- breakpoint stream over a long loop

#[test]
fn stress_long_breakpoints() {
    let iters = stress_iters();
    let p = gen_loop_program(0x00C0_FFEE, iters);
    // The accumulator store inside the loop body: hit once per iteration. It
    // is the last StoreG(0) in the program (the first is the prologue init).
    let bp_addr = p
        .code
        .iter()
        .rposition(|op| matches!(op, Op::StoreG(0)))
        .expect("a storeg 0 in the loop body");

    // Independent expectation: a raw forward pass records every arrival.
    let mut expected = Vec::new();
    let total = raw_pass(&p, |i, vm| {
        if i > 0 && vm.pc == bp_addr && !vm.halted {
            expected.push(i);
        }
    });
    println!(
        "stress_long_breakpoints: iters={iters} total_steps={total} expected_hits={}",
        expected.len()
    );
    assert!(expected.len() > 1000, "the loop must produce a long hit stream");

    let mut d = Debugger::new(p);
    d.add_break(bp_addr);
    let got = collect_cont_stops(&mut d, bp_addr);
    assert_eq!(got.len(), expected.len(), "hit count");
    assert_eq!(got, expected, "hit steps must match the raw pass exactly");

    // Breakpoint alignment after goto: from a random point, the next stop must
    // be the first expected hit strictly after it.
    let mut r = Rng::new(0xABC);
    for _ in 0..600 {
        let target = r.range(total + 1);
        d.reset();
        d.goto(target);
        let want = expected.iter().find(|&&s| s > target).copied();
        match d.cont() {
            StopReason::Breakpoint(a) => {
                assert_eq!(a, bp_addr);
                assert_eq!(Some(d.step_count()), want, "next hit after goto({target})");
            }
            StopReason::Halted => assert!(want.is_none(), "missed hit after goto({target})"),
            other => panic!("unexpected {other:?}"),
        }
    }
}

// --- watchpoint stream over a long loop

#[test]
fn stress_long_watchpoints() {
    let iters = stress_iters();
    let p = gen_loop_program(0xD00D, iters);
    let watches = [WatchLoc::Global(0), WatchLoc::Mem(0)];

    // Independent reference diff over the raw pass.
    let mut expected: Vec<WatchHit> = Vec::new();
    let mut prev: Option<Vec<i64>> = None;
    let total = raw_pass(&p, |i, vm| {
        let vals: Vec<i64> = watches.iter().map(|&l| watch_val_raw(vm, l)).collect();
        if let Some(before) = &prev {
            for (k, &loc) in watches.iter().enumerate() {
                if before[k] != vals[k] {
                    expected.push(WatchHit {
                        loc,
                        old: before[k],
                        new: vals[k],
                        step: i,
                    });
                    break;
                }
            }
        }
        prev = Some(vals);
    });
    println!(
        "stress_long_watchpoints: iters={iters} total_steps={total} expected_hits={}",
        expected.len()
    );
    assert!(expected.len() > 1000, "watched values must change often");

    let mut d = Debugger::new(p);
    for &w in &watches {
        d.add_watch(w);
    }
    let mut got = Vec::new();
    loop {
        match d.cont() {
            StopReason::Watchpoint(hit) => got.push(hit),
            StopReason::Halted => break,
            StopReason::Limit => panic!("step limit"),
            other => panic!("unexpected {other:?}"),
        }
    }
    assert_eq!(got.len(), expected.len(), "hit count");
    assert_eq!(got, expected, "watch hits must match the reference diff exactly");
}

fn watch_val_raw(vm: &Vm, loc: WatchLoc) -> i64 {
    match loc {
        WatchLoc::Global(i) => vm.globals.get(i).copied().unwrap_or(0),
        WatchLoc::Mem(i) => vm.memory.get(i).copied().unwrap_or(0),
        WatchLoc::Local(i) => vm.local(i),
    }
}

// --- deep recursion

#[test]
fn stress_deep_recursion() {
    let n = 300u64;
    let p = gen_recursion_program(n);
    let trace = ground_truth(&p);
    let total = trace.len() - 1;
    let max_depth = trace.iter().map(|s| s.depth).max().unwrap_or(0);
    println!("stress_deep_recursion: n={n} total_steps={total} max_depth={max_depth}");
    assert_eq!(max_depth as u64, n + 1, "entry frame plus {n} nested calls");

    // Step out from the deepest frame lands back at depth n after one ret.
    let deepest = trace.iter().position(|s| s.depth == max_depth).unwrap();
    let want = expected_step_out(&trace, deepest);
    let mut d = Debugger::new(p.clone());
    d.goto(deepest);
    d.step_out();
    assert_eq!(d.step_count(), want);
    assert_eq!(d.snapshot(), trace[want].snap);
    assert_eq!(d.vm().depth(), max_depth - 1);

    // Step out from the outermost frame runs to the halted end.
    d.reset();
    d.step_out();
    assert!(d.halted());
    assert_eq!(d.snapshot(), trace[total].snap);

    // Reversibility around the deepest frame pushes and pops.
    let mut r = Rng::new(0xDEE);
    for _ in 0..32 {
        let s = deepest.saturating_sub(r.range(64));
        let room = (total - s).min(256);
        if room == 0 {
            continue;
        }
        let k = 1 + r.range(room);
        d.reset();
        d.goto(s);
        let before = d.snapshot();
        for _ in 0..k {
            assert!(d.forward());
        }
        for _ in 0..k {
            assert!(d.backward());
        }
        assert_eq!(d.snapshot(), before, "deep cycle at step {s}");
    }

    // A breakpoint on the function entry is hit once per recursion level.
    let entry_addr = trace
        .iter()
        .position(|s| s.depth == 2 && !s.halted && s.pc > 0)
        .expect("first callee entry");
    let expected = expected_breakpoint_stops(&trace, trace[entry_addr].pc);
    assert_eq!(expected.len() as u64, n, "one hit per recursive call");
    let mut d2 = Debugger::new(p);
    d2.add_break(trace[entry_addr].pc);
    let got = collect_cont_stops(&mut d2, trace[entry_addr].pc);
    assert_eq!(got, expected);
}

// --- single-step bookkeeping over a long stretch

#[test]
fn stress_single_step_alignment() {
    let iters = stress_iters();
    let p = gen_loop_program(0x5EED, iters);
    let (total, marks) = anchors(&p, 4096);
    println!("stress_single_step_alignment: iters={iters} total_steps={total} anchors={}", marks.len());
    let index: HashMap<usize, &Snapshot> =
        marks.iter().map(|&(i, ref s)| (i, s)).collect();

    let mut d = Debugger::new(p);
    let mut r = Rng::new(0x1234);
    // From random anchors, single-step forward across at least one anchor
    // boundary and require every intermediate state to match the trace.
    for _ in 0..48 {
        let start = marks[r.range(marks.len() - 1)].0;
        d.reset();
        d.goto(start);
        let run = 65_536.min(total - start);
        for j in 0..run {
            assert!(d.forward(), "forward at step {}", start + j);
            let at = start + j + 1;
            if let Some(want) = index.get(&at) {
                assert_eq!(d.snapshot(), **want, "state at step {at}");
            }
            assert_eq!(d.step_count(), at, "bookkeeping at step {at}");
        }
    }
}

// --- conditional breakpoints at scale

#[test]
fn stress_conditional_breakpoints_long() {
    let iters = stress_iters();
    let p = gen_loop_program(0xF005, iters);
    let bp_addr = p
        .code
        .iter()
        .rposition(|op| matches!(op, Op::StoreG(0)))
        .expect("a storeg 0 in the loop body");
    let cond = Expr::parse("globals[0] % 2 == 1").unwrap();

    // Independent expectation with a plain Rust predicate.
    let mut expected = Vec::new();
    let total = raw_pass(&p, |i, vm| {
        if i > 0 && vm.pc == bp_addr && !vm.halted {
            let acc = vm.globals.first().copied().unwrap_or(0);
            if acc.rem_euclid(2) == 1 {
                expected.push(i);
            }
        }
    });
    println!(
        "stress_conditional_breakpoints_long: iters={iters} total_steps={total} expected_hits={}",
        expected.len()
    );
    assert!(expected.len() > 1000);

    let mut d = Debugger::new(p);
    d.add_break_cond(bp_addr, cond);
    let got = collect_cont_stops(&mut d, bp_addr);
    assert_eq!(got, expected, "conditional hits must match the raw pass exactly");

    // A conditional breakpoint that never fires must run to the halt.
    let mut d2 = Debugger::new(gen_loop_program(0xF005, iters));
    d2.add_break_cond(bp_addr, Expr::parse("globals[0] < 0").unwrap());
    assert_eq!(d2.cont(), StopReason::Halted);
    assert_eq!(d2.step_count(), total);
}
