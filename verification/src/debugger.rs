//! The debugger layer: breakpoints, watchpoints, source-level stepping, and time
//! travel over a [`Vm`].
//!
//! Time travel is implemented by journaling. Each forward instruction pushes its
//! undo record onto a journal; stepping back pops and applies one. Because the VM
//! is deterministic, moving forward past the current point simply re-executes,
//! so [`Debugger::goto`] can reach any step in either direction and reconstruct
//! the exact machine state forward execution had there.

use crate::arith;
use crate::arith::read;
use crate::expr;
use crate::expr::{EvalCtx, Expr};
use crate::machine;
use crate::machine::{Activation, Image, Record, State};
use crate::vm;
use crate::vm::{Frame, Listing, Program, Snapshot, Undo, Vm};
use std::collections::BTreeMap;
use vstd::prelude::*;

verus! {

broadcast use vstd::std_specs::btree::group_btree_axioms;

/// A place the debugger can watch for changes.
#[derive(Clone, Copy, Debug, PartialEq, Eq, Structural)]
pub enum WatchLoc {
    /// A global slot.
    Global(usize),
    /// A linear memory cell.
    Mem(usize),
    /// A local slot in the current (innermost) frame.
    Local(usize),
}

/// A watchpoint: a location to watch plus an optional condition. When a
/// condition is present the watch fires only on steps where the location
/// changed and the condition holds on the state after the change.
#[derive(Debug)]
pub struct WatchEntry {
    /// The location being watched.
    pub loc: WatchLoc,
    /// The optional fire condition.
    pub cond: Option<Expr>,
}

impl Clone for WatchEntry {
    fn clone(&self) -> (r: WatchEntry)
        ensures
            r == *self,
    {
        WatchEntry {
            loc: self.loc,
            cond: match &self.cond {
                Some(e) => Some(e.clone()),
                None => None,
            },
        }
    }
}

/// A fired watchpoint: the location, its previous and new value, and the step at
/// which the change happened.
#[derive(Clone, Copy, Debug, PartialEq, Eq)]
pub struct WatchHit {
    /// The location that changed.
    pub loc: WatchLoc,
    /// The value before the changing instruction.
    pub old: i64,
    /// The value after the changing instruction.
    pub new: i64,
    /// The step index the change happened at.
    pub step: usize,
}

/// Why a run/step operation stopped.
#[derive(Clone, Debug, PartialEq, Eq)]
pub enum StopReason {
    /// Halted at a breakpoint address (the instruction about to execute).
    Breakpoint(usize),
    /// A watched location changed.
    Watchpoint(WatchHit),
    /// The program halted.
    Halted,
    /// A single step completed.
    Stepped,
    /// Reached a new source line (from a line-level step).
    Line,
    /// Reached the beginning of history (cannot go further back).
    Start,
    /// A safety step limit was hit without otherwise stopping.
    Limit,
}

/// How many instructions a run executes before it gives up.
pub const STEP_LIMIT: usize = 5_000_000;

/// A time-travel debugger over a single program.
#[derive(Debug)]
pub struct Debugger {
    /// The loaded program.
    pub program: Program,
    vm: Vm,
    journal: Vec<Undo>,
    breakpoints: BTreeMap<usize, Option<Expr>>,
    watchpoints: Vec<WatchEntry>,
}

/// What a debugger holds: a program, a position on the time line of a run, and
/// the places to stop at.
#[verifier::ext_equal]
pub struct Session {
    /// The loaded program.
    pub listing: Listing,
    /// What the machine runs.
    pub image: Image,
    /// The state at step 0.
    pub origin: State,
    /// The current step.
    pub steps: nat,
    /// The breakpoint addresses, each with its condition.
    pub breaks: Map<usize, Option<Expr>>,
    /// The watchpoints in registration order.
    pub watches: Seq<WatchEntry>,
}

/// What a forward run is looking for.
pub enum Goal {
    /// Another source line.
    Line(u32),
    /// Another source line in a frame no deeper than this.
    Over(u32, nat),
    /// A frame less deep than this.
    Out(nat),
    /// A breakpoint.
    Break,
}

/// The value of a watched location.
pub open spec fn watched(s: State, loc: WatchLoc) -> i64 {
    match loc {
        WatchLoc::Global(i) => arith::value_at(s.globals, i as nat),
        WatchLoc::Mem(i) => arith::value_at(s.memory, i as nat),
        WatchLoc::Local(i) => machine::local_value(s, i as nat),
    }
}

/// Whether a condition, where there is one, holds.
pub open spec fn permits(cond: Option<Expr>, s: State) -> bool {
    match cond {
        Some(e) => expr::holds(e, expr::scope_of(s)),
        None => true,
    }
}

/// Whether a watchpoint fires on an instruction: its location changed, and its
/// condition holds on the state after the change.
pub open spec fn fires(w: WatchEntry, before: State, after: State) -> bool {
    watched(before, w.loc) != watched(after, w.loc) && permits(w.cond, after)
}

/// What is reported of the first watchpoint that fires, if one does.
pub open spec fn first_hit(
    watches: Seq<WatchEntry>,
    before: State,
    after: State,
    step: nat,
) -> Option<WatchHit>
    decreases watches.len(),
{
    if watches.len() == 0 {
        None
    } else if fires(watches.first(), before, after) {
        let loc = watches.first().loc;
        Some(
            WatchHit {
                loc,
                old: watched(before, loc),
                new: watched(after, loc),
                step: step as usize,
            },
        )
    } else {
        first_hit(watches.drop_first(), before, after, step)
    }
}

/// The values of the watched locations.
pub open spec fn watched_values(watches: Seq<WatchEntry>, s: State) -> Seq<i64> {
    watches.map_values(|w: WatchEntry| watched(s, w.loc))
}

/// Whether a breakpoint fires in a state: there is one at the instruction about
/// to execute, and its condition holds.
pub open spec fn breaks_here(breaks: Map<usize, Option<Expr>>, s: State) -> bool {
    &&& s.pc <= usize::MAX
    &&& breaks.contains_key(s.pc as usize)
    &&& permits(breaks[s.pc as usize], s)
}

/// Whether `addrs` are the breakpoint addresses, ascending.
pub open spec fn lists_breaks(addrs: Seq<usize>, breaks: Map<usize, Option<Expr>>) -> bool {
    &&& forall|i: int, j: int| 0 <= i < j < addrs.len() ==> addrs[i] < addrs[j]
    &&& addrs.to_set() == breaks.dom()
}

/// Whether `found` is the first address of a source line, `None` when the line
/// has no instruction.
pub open spec fn is_first_address(lines: Seq<u32>, line: u32, found: Option<usize>) -> bool {
    match found {
        Some(addr) => {
            &&& addr < lines.len()
            &&& lines[addr as int] == line
            &&& forall|j: int| 0 <= j < addr ==> #[trigger] lines[j] != line
        },
        None => forall|j: int| 0 <= j < lines.len() ==> #[trigger] lines[j] != line,
    }
}

/// The index of the watchpoint on a location, if there is one.
pub open spec fn watch_index(watches: Seq<WatchEntry>, loc: WatchLoc) -> Option<int>
    decreases watches.len(),
{
    if watches.len() == 0 {
        None
    } else if watches.last().loc == loc {
        Some(watches.len() - 1)
    } else {
        watch_index(watches.drop_last(), loc)
    }
}

/// The watchpoints with one more. A location that is watched already keeps its
/// place: with a condition the new one replaces it, without one it stays as it
/// is.
pub open spec fn with_watch(
    watches: Seq<WatchEntry>,
    loc: WatchLoc,
    cond: Option<Expr>,
) -> Seq<WatchEntry> {
    match watch_index(watches, loc) {
        Some(i) => if cond is Some {
            watches.update(i, WatchEntry { loc, cond })
        } else {
            watches
        },
        None => watches.push(WatchEntry { loc, cond }),
    }
}

/// Whether no location is watched twice.
pub open spec fn distinct(watches: Seq<WatchEntry>) -> bool {
    forall|i: int, j: int|
        0 <= i < j < watches.len() ==> (#[trigger] watches[i]).loc != (#[trigger] watches[j]).loc
}

impl Session {
    /// The state at step `k`.
    pub open spec fn at(self, k: nat) -> State {
        machine::run(self.image, self.origin, k)
    }

    /// The current state.
    pub open spec fn now(self) -> State {
        self.at(self.steps)
    }

    /// Whether the run has a step `k`.
    pub open spec fn reaches(self, k: nat) -> bool {
        machine::runs(self.image, self.origin, k)
    }

    /// Whether there is a next step.
    pub open spec fn can_step(self) -> bool {
        machine::can_step(self.image, self.now())
    }

    /// The source line of a state.
    pub open spec fn line(self, s: State) -> u32 {
        machine::line_of(self.listing.image.lines, s.pc)
    }

    /// Whether a state meets the goal of a run.
    pub open spec fn meets(self, goal: Goal, s: State) -> bool {
        match goal {
            Goal::Line(line) => self.line(s) != line,
            Goal::Over(line, depth) => s.frames.len() <= depth && self.line(s) != line,
            Goal::Out(depth) => s.frames.len() < depth,
            Goal::Break => breaks_here(self.breaks, s),
        }
    }

    /// Why a run stops after the instruction that leads from `before` to `after`
    /// at step `k`, if it does: a watchpoint comes before a halt, and a halt
    /// before the goal.
    pub open spec fn judged(self, goal: Goal, before: State, after: State, k: nat) -> Option<
        StopReason,
    > {
        match first_hit(self.watches, before, after, k) {
            Some(hit) => Some(StopReason::Watchpoint(hit)),
            None => if after.halted {
                Some(StopReason::Halted)
            } else if self.meets(goal, after) {
                if goal is Break {
                    Some(StopReason::Breakpoint(after.pc as usize))
                } else {
                    Some(StopReason::Line)
                }
            } else {
                None
            },
        }
    }

    /// Why a run stops at step `k`, if it does.
    pub open spec fn verdict(self, goal: Goal, k: nat) -> Option<StopReason> {
        self.judged(goal, self.at((k - 1) as nat), self.at(k), k)
    }

    /// The session one step later, itself when there is no next step.
    pub open spec fn next(self) -> Session {
        if self.can_step() {
            Session { steps: self.steps + 1, ..self }
        } else {
            self
        }
    }

    /// Why a single step stops: a watchpoint that fired on it, a halted machine,
    /// or that the step is done.
    pub open spec fn step_reason(self) -> StopReason {
        let after = self.next();
        let hit = if self.can_step() {
            first_hit(self.watches, self.now(), after.now(), after.steps)
        } else {
            None
        };
        match hit {
            Some(hit) => StopReason::Watchpoint(hit),
            None => if after.now().halted {
                StopReason::Halted
            } else {
                StopReason::Stepped
            },
        }
    }

    /// Whether a move to step `n` ends at step `m` for reason `r`: at `n`, or at
    /// the last step when the run is shorter.
    pub open spec fn goes_to(self, n: nat, m: nat, r: StopReason) -> bool {
        &&& m <= n
        &&& self.reaches(m)
        &&& if m == n {
            r == StopReason::Stepped
        } else {
            r == StopReason::Halted && !machine::can_step(self.image, self.at(m))
        }
    }

    /// Whether a backward run ends at step `n` for reason `r`: at the last
    /// earlier step where a breakpoint fires, or at the start.
    pub open spec fn returns_to(self, n: nat, r: StopReason) -> bool {
        &&& n <= self.steps
        &&& forall|k: nat| n < k < self.steps ==> !breaks_here(self.breaks, #[trigger] self.at(k))
        &&& if n < self.steps && breaks_here(self.breaks, self.at(n)) {
            r == StopReason::Breakpoint(self.at(n).pc as usize)
        } else {
            r == StopReason::Start && n == 0
        }
    }

    /// Whether a forward run ends at step `n` for reason `r`: at the first step
    /// with a verdict, where the machine is stuck, or at the limit.
    pub open spec fn ends(self, goal: Goal, n: nat, r: StopReason) -> bool {
        &&& self.steps <= n <= self.steps + STEP_LIMIT
        &&& self.reaches(n)
        &&& forall|k: nat| self.steps < k < n ==> #[trigger] self.verdict(goal, k) is None
        &&& if n > self.steps && self.verdict(goal, n) is Some {
            r == self.verdict(goal, n)->0
        } else if n == self.steps + STEP_LIMIT {
            r == StopReason::Limit
        } else {
            r == StopReason::Halted && !machine::can_step(self.image, self.at(n))
        }
    }

    /// The session in which a program is loaded.
    pub open spec fn loaded(listing: Listing) -> Session {
        Session {
            listing,
            image: listing.image,
            origin: listing.start(),
            steps: 0,
            breaks: Map::empty(),
            watches: Seq::empty(),
        }
    }

    /// The session back at the start of its program.
    pub open spec fn restarted(self) -> Session {
        Session {
            image: self.listing.image,
            origin: self.listing.start(),
            steps: 0,
            ..self
        }
    }

    /// Whether the frame that the instruction after step `k` makes, if it makes
    /// one, can be allocated.
    pub open spec fn fits_at(self, k: nat) -> bool {
        machine::step_fits(self.image, self.at(k))
    }

    /// Whether the frame that the next instruction makes, if it makes one, can be
    /// allocated.
    pub open spec fn next_fits(self) -> bool {
        self.fits_at(self.steps)
    }

    /// Whether a forward run gets to step `k` and does not stop there.
    pub open spec fn goes_on(self, goal: Goal, k: nat) -> bool {
        &&& self.steps <= k < self.steps + STEP_LIMIT
        &&& self.reaches(k)
        &&& forall|j: nat| self.steps < j <= k ==> #[trigger] self.verdict(goal, j) is None
    }

    /// Whether every frame that a forward run makes before it stops can be
    /// allocated.
    pub open spec fn run_fits(self, goal: Goal) -> bool {
        forall|k: nat| #[trigger] self.goes_on(goal, k) ==> self.fits_at(k)
    }

    /// Whether a forward run gets to step `n` and no further: it goes on there
    /// with a call, the first whose frame cannot be allocated.
    pub open spec fn stalls(self, goal: Goal, n: nat) -> bool {
        &&& self.goes_on(goal, n)
        &&& !self.fits_at(n)
        &&& forall|k: nat| self.steps <= k < n ==> #[trigger] self.fits_at(k)
    }

    /// Whether a forward run that is tried ends at step `n` for reason `r`, or
    /// without a reason where it gets no further.
    pub open spec fn tried(self, goal: Goal, n: nat, r: Option<StopReason>) -> bool {
        match r {
            Some(r) => self.run_fits(goal) && self.ends(goal, n, r),
            None => !self.run_fits(goal) && self.stalls(goal, n),
        }
    }

    /// Whether every frame on the way forward to step `n` can be allocated.
    pub open spec fn way_fits(self, n: nat) -> bool {
        forall|k: nat| self.steps <= k < n && self.reaches(k) ==> #[trigger] self.fits_at(k)
    }

    /// Whether a move to step `n` gets to step `m` and no further: a call comes
    /// there, the first whose frame cannot be allocated.
    pub open spec fn way_stalls(self, n: nat, m: nat) -> bool {
        &&& self.steps <= m < n
        &&& self.reaches(m)
        &&& !self.fits_at(m)
        &&& forall|k: nat| self.steps <= k < m ==> #[trigger] self.fits_at(k)
    }
}

/// What a forward run is looking for.
enum Target {
    Line(u32),
    Over(u32, usize),
    Out(usize),
    Break,
}

impl View for Target {
    type V = Goal;

    closed spec fn view(&self) -> Goal {
        match self {
            Target::Line(line) => Goal::Line(*line),
            Target::Over(line, depth) => Goal::Over(*line, *depth as nat),
            Target::Out(depth) => Goal::Out(*depth as nat),
            Target::Break => Goal::Break,
        }
    }
}

/// The records of a journal.
spec fn records(journal: Seq<Undo>) -> Seq<Record> {
    journal.map_values(|u: Undo| u@)
}

impl View for Debugger {
    type V = Session;

    closed spec fn view(&self) -> Session {
        Session {
            listing: self.program@,
            image: self.vm.image(),
            origin: machine::rewound(self.vm@, records(self.journal@)),
            steps: self.journal@.len(),
            breaks: self.breakpoints@,
            watches: self.watchpoints@,
        }
    }
}

/// References to addresses are ordered as the addresses are.
proof fn lemma_addresses_ordered()
    ensures
        vstd::laws_cmp::obeys_cmp::<&usize>(),
{
    broadcast use vstd::laws_cmp::group_laws_cmp;
    reveal(vstd::laws_eq::obeys_eq_spec_properties);
    reveal(vstd::laws_cmp::obeys_partial_cmp_spec_properties);
    reveal(vstd::laws_cmp::obeys_cmp_partial_ord);
    reveal(vstd::laws_cmp::obeys_cmp_ord);
    assert(vstd::laws_cmp::obeys_cmp::<usize>());
}

impl Clone for Debugger {
    fn clone(&self) -> (r: Debugger)
        ensures
            r@ == self@,
            self.wf() ==> r.wf(),
    {
        let r = Debugger {
            program: self.program.clone(),
            vm: self.vm.clone(),
            journal: self.journal.clone(),
            breakpoints: self.breakpoints.clone(),
            watchpoints: self.watchpoints.clone(),
        };
        assert(records(r.journal@) =~= records(self.journal@));
        assert(r.watchpoints@ =~= self.watchpoints@);
        r
    }
}

impl Debugger {
    /// The journal holds exactly the run from step 0 to the current state, and no
    /// location is watched twice.
    pub closed spec fn wf(&self) -> bool {
        &&& self@.reaches(self@.steps)
        &&& self.vm@ == self@.now()
        &&& records(self.journal@) == machine::trail(self@.image, self@.origin, self@.steps)
        &&& self@.origin.frames.len() > 0
        &&& distinct(self.watchpoints@)
    }

    /// Load a program and place the machine at step 0.
    pub fn new(program: Program) -> (d: Debugger)
        requires
            program@.loadable(),
        ensures
            d.wf(),
            d@ == Session::loaded(program@),
    {
        let vm = Vm::new(&program);
        let d = Debugger {
            program,
            vm,
            journal: Vec::new(),
            breakpoints: BTreeMap::new(),
            watchpoints: Vec::new(),
        };
        proof {
            machine::run_steps(d@.image, d@.origin, 0);
            assert(records(d.journal@) =~= machine::trail(d@.image, d@.origin, 0));
        }
        d
    }

    /// Reset execution to step 0, discarding history. Breakpoints and
    /// watchpoints are preserved.
    pub fn reset(&mut self)
        requires
            old(self).wf(),
            old(self)@.listing.loadable(),
        ensures
            final(self).wf(),
            final(self)@ == old(self)@.restarted(),
    {
        self.vm = Vm::new(&self.program);
        self.journal.clear();
        proof {
            machine::run_steps(self@.image, self@.origin, 0);
            assert(records(self.journal@) =~= machine::trail(self@.image, self@.origin, 0));
        }
    }

    /// The current step index (number of instructions executed from the start).
    pub fn step_count(&self) -> (n: usize)
        ensures
            n == self@.steps,
    {
        self.journal.len()
    }

    /// Whether the frame that the next instruction makes, if it makes one, stays
    /// within the largest allocation.
    pub fn next_fits(&self) -> (r: bool)
        requires
            self.wf(),
        ensures
            r == self@.next_fits(),
    {
        self.vm.next_fits()
    }

    /// Execute one instruction. Returns false if already halted.
    pub fn forward(&mut self) -> (moved: bool)
        requires
            old(self).wf(),
            old(self)@.next_fits(),
        ensures
            final(self).wf(),
            moved == old(self)@.can_step(),
            final(self)@ == (if moved {
                Session { steps: old(self)@.steps + 1, ..old(self)@ }
            } else {
                old(self)@
            }),
    {
        if self.vm.halted {
            return false;
        }
        let ghost d = self@;
        let ghost s = self.vm@;
        let ghost before = self.journal@;
        match self.vm.step() {
            Some(u) => {
                self.journal.push(u);
                proof {
                    machine::run_steps(d.image, d.origin, d.steps);
                    machine::undo_inverts_step(d.image, s);
                    assert(records(self.journal@).drop_last() =~= records(before));
                    assert(records(self.journal@).last() == u@);
                    assert(self@.origin == d.origin);
                    assert(records(self.journal@) =~= records(before).push(u@));
                    assert(machine::trail(d.image, d.origin, d.steps + 1) =~= machine::trail(
                        d.image,
                        d.origin,
                        d.steps,
                    ).push(u@));
                }
                true
            },
            None => false,
        }
    }

    /// Reverse one instruction. Returns false if already at step 0.
    pub fn backward(&mut self) -> (moved: bool)
        requires
            old(self).wf(),
        ensures
            final(self).wf(),
            moved == (old(self)@.steps > 0),
            final(self)@ == (if moved {
                Session { steps: (old(self)@.steps - 1) as nat, ..old(self)@ }
            } else {
                old(self)@
            }),
    {
        let ghost d = self@;
        let ghost before = self.journal@;
        match self.journal.pop() {
            Some(u) => {
                proof {
                    let n = (d.steps - 1) as nat;
                    machine::run_steps(d.image, d.origin, n);
                    assert(records(before).last() == u@);
                    assert(u@ == machine::step_record(d.image, d.at(n)));
                    assert(machine::can_step(d.image, d.at(n)));
                    machine::undo_inverts_step(d.image, d.at(n));
                    machine::recorded_writes_fit(d.image, d.at(n));
                }
                self.vm.undo(u);
                proof {
                    assert(records(self.journal@) =~= records(before).drop_last());
                    assert(self@.origin == d.origin);
                    assert(records(self.journal@) =~= machine::trail(
                        d.image,
                        d.origin,
                        (d.steps - 1) as nat,
                    ));
                }
                true
            },
            None => false,
        }
    }

    /// The loaded program.
    pub fn program(&self) -> (program: &Program)
        ensures
            program@ == self@.listing,
    {
        &self.program
    }

    /// Immutable access to the underlying VM.
    pub fn vm(&self) -> (vm: &Vm)
        requires
            self.wf(),
        ensures
            vm@ == self@.now(),
            vm.image() == self@.image,
    {
        &self.vm
    }

    /// A read-only evaluation context over the current machine state.
    pub fn eval_ctx(&self) -> (ctx: EvalCtx<'_>)
        requires
            self.wf(),
        ensures
            ctx@ == expr::scope_of(self@.now()),
    {
        EvalCtx::of_vm(&self.vm)
    }

    /// Whether the machine has halted.
    pub fn halted(&self) -> (b: bool)
        requires
            self.wf(),
        ensures
            b == self@.now().halted,
    {
        self.vm.halted
    }

    /// A full comparable snapshot of the current machine state.
    pub fn snapshot(&self) -> (snap: Snapshot)
        requires
            self.wf(),
        ensures
            snap@ == self@.now(),
    {
        self.vm.snapshot()
    }

    /// The 1-based source line the machine is about to execute.
    pub fn current_line(&self) -> (line: u32)
        requires
            self.wf(),
        ensures
            line == self@.line(self@.now()),
    {
        self.program.line_at(self.vm.pc)
    }

    /// The current program counter.
    pub fn pc(&self) -> (pc: usize)
        requires
            self.wf(),
        ensures
            pc == self@.now().pc,
    {
        self.vm.pc
    }

    /// Set a breakpoint at an instruction address.
    pub fn add_break(&mut self, addr: usize)
        requires
            old(self).wf(),
        ensures
            final(self).wf(),
            final(self)@ == (Session {
                breaks: old(self)@.breaks.insert(addr, None),
                ..old(self)@
            }),
    {
        self.breakpoints.insert(addr, None);
    }

    /// Set a breakpoint at an instruction address that only fires when
    /// `cond` holds on the state at the stop, with the pc pointing at the
    /// breakpointed instruction.
    pub fn add_break_cond(&mut self, addr: usize, cond: Expr)
        requires
            old(self).wf(),
        ensures
            final(self).wf(),
            final(self)@ == (Session {
                breaks: old(self)@.breaks.insert(addr, Some(cond)),
                ..old(self)@
            }),
    {
        self.breakpoints.insert(addr, Some(cond));
    }

    /// The condition attached to a breakpoint address, if any.
    pub fn break_cond(&self, addr: usize) -> (cond: Option<&Expr>)
        ensures
            match cond {
                Some(e) => self@.breaks.contains_key(addr) && self@.breaks[addr] == Some(*e),
                None => self@.breaks.contains_key(addr) ==> self@.breaks[addr] is None,
            },
    {
        match self.breakpoints.get(&addr) {
            Some(Some(e)) => Some(e),
            _ => None,
        }
    }

    /// Remove a breakpoint at an instruction address. Returns true if present.
    pub fn remove_break(&mut self, addr: usize) -> (present: bool)
        requires
            old(self).wf(),
        ensures
            final(self).wf(),
            present == old(self)@.breaks.contains_key(addr),
            final(self)@ == (Session { breaks: old(self)@.breaks.remove(addr), ..old(self)@ }),
    {
        match self.breakpoints.remove(&addr) {
            Some(_) => true,
            None => false,
        }
    }

    /// The set of breakpoint addresses, ascending.
    pub fn breakpoints(&self) -> (addrs: Vec<usize>)
        ensures
            lists_breaks(addrs@, self@.breaks),
    {
        let mut addrs: Vec<usize> = Vec::new();
        let keys = self.breakpoints.keys();
        let ghost all: Seq<usize> = vstd::std_specs::btree::into_iter_keys(keys);
        proof {
            lemma_addresses_ordered();
        }
        for addr in it: keys
            invariant
                it.seq().unref() == all,
                vstd::laws_cmp::obeys_cmp::<&usize>(),
                vstd::std_specs::btree::increasing_seq(it.seq()),
                addrs@.len() == it.index(),
                forall|i: int| 0 <= i < it.index() ==> addrs@[i] == all[i],
                forall|i: int, j: int| 0 <= i < j < addrs@.len() ==> addrs@[i] < addrs@[j],
        {
            proof {
                let refs = it.seq();
                let n = it.index();
                assert forall|i: int| 0 <= i < n implies addrs@[i] < *addr by {
                    assert(refs[i] == &all[i]);
                    assert(refs[n] == addr);
                    assert(vstd::std_specs::cmp::OrdSpec::cmp_spec(&refs[i], &refs[n]) is Less);
                    assert(vstd::std_specs::cmp::OrdSpec::cmp_spec(&all[i], addr) is Less);
                }
            }
            addrs.push(*addr);
        }
        assert(addrs@ =~= all);
        addrs
    }

    /// Whether the breakpoint at `addr` fires right now: an unconditional
    /// breakpoint always does, a conditional one evaluates its expression
    /// against the current machine state.
    fn break_fires_here(&self, addr: usize) -> (b: bool)
        requires
            self.wf(),
            addr == self@.now().pc,
        ensures
            b == breaks_here(self@.breaks, self@.now()),
    {
        match self.breakpoints.get(&addr) {
            None => false,
            Some(None) => true,
            Some(Some(cond)) => cond.eval_cond(&self.eval_ctx()),
        }
    }

    /// The first instruction address that maps to a source line, if any.
    pub fn line_to_addr(&self, line: u32) -> (found: Option<usize>)
        ensures
            is_first_address(self@.listing.image.lines, line, found),
    {
        let mut i: usize = 0;
        while i < self.program.line_of.len()
            invariant
                i <= self.program.line_of.len(),
                forall|j: int| 0 <= j < i ==> #[trigger] self.program.line_of@[j] != line,
            decreases self.program.line_of.len() - i,
        {
            if self.program.line_of[i] == line {
                return Some(i);
            }
            i += 1;
        }
        None
    }

    /// Set a breakpoint by source line. Returns the resolved address.
    pub fn add_break_line(&mut self, line: u32) -> (found: Option<usize>)
        requires
            old(self).wf(),
        ensures
            final(self).wf(),
            is_first_address(old(self)@.listing.image.lines, line, found),
            final(self)@ == (match found {
                Some(addr) => Session {
                    breaks: old(self)@.breaks.insert(addr, None),
                    ..old(self)@
                },
                None => old(self)@,
            }),
    {
        match self.line_to_addr(line) {
            Some(addr) => {
                self.add_break(addr);
                Some(addr)
            },
            None => None,
        }
    }

    /// Set a conditional breakpoint by source line. Returns the resolved address.
    pub fn add_break_line_cond(&mut self, line: u32, cond: Expr) -> (found: Option<usize>)
        requires
            old(self).wf(),
        ensures
            final(self).wf(),
            is_first_address(old(self)@.listing.image.lines, line, found),
            final(self)@ == (match found {
                Some(addr) => Session {
                    breaks: old(self)@.breaks.insert(addr, Some(cond)),
                    ..old(self)@
                },
                None => old(self)@,
            }),
    {
        match self.line_to_addr(line) {
            Some(addr) => {
                self.add_break_cond(addr, cond);
                Some(addr)
            },
            None => None,
        }
    }

    /// The position of the watchpoint on a location.
    fn find_watch(&self, loc: WatchLoc) -> (found: Option<usize>)
        requires
            self.wf(),
        ensures
            match found {
                Some(i) => i < self@.watches.len() && self@.watches[i as int].loc == loc,
                None => true,
            },
            watch_index(self@.watches, loc) == (match found {
                Some(i) => Some(i as int),
                None => None,
            }),
    {
        let mut i: usize = self.watchpoints.len();
        assert(self@.watches.take(i as int) =~= self@.watches);
        while i > 0
            invariant
                i <= self@.watches.len(),
                self@.watches == self.watchpoints@,
                watch_index(self@.watches, loc) == watch_index(self@.watches.take(i as int), loc),
            decreases i,
        {
            proof {
                assert(self@.watches.take(i as int).drop_last() =~= self@.watches.take(i - 1));
            }
            i -= 1;
            if self.watchpoints[i].loc == loc {
                return Some(i);
            }
        }
        None
    }

    /// Add a watchpoint without a condition. Duplicate locations are ignored.
    pub fn add_watch(&mut self, loc: WatchLoc)
        requires
            old(self).wf(),
        ensures
            final(self).wf(),
            final(self)@ == (Session {
                watches: with_watch(old(self)@.watches, loc, None),
                ..old(self)@
            }),
    {
        if let None = self.find_watch(loc) {
            proof {
                lemma_unwatched(self@.watches, loc);
            }
            self.watchpoints.push(WatchEntry { loc, cond: None });
        }
    }

    /// Add a watchpoint that fires only when the location changed and `cond`
    /// holds on the state after the change. A duplicate location replaces its
    /// condition.
    pub fn add_watch_cond(&mut self, loc: WatchLoc, cond: Expr)
        requires
            old(self).wf(),
        ensures
            final(self).wf(),
            final(self)@ == (Session {
                watches: with_watch(old(self)@.watches, loc, Some(cond)),
                ..old(self)@
            }),
    {
        match self.find_watch(loc) {
            Some(i) => {
                self.watchpoints.set(i, WatchEntry { loc, cond: Some(cond) });
            },
            None => {
                proof {
                    lemma_unwatched(self@.watches, loc);
                }
                self.watchpoints.push(WatchEntry { loc, cond: Some(cond) });
            },
        }
    }

    /// Remove a watchpoint. Returns true if it was present.
    pub fn remove_watch(&mut self, loc: WatchLoc) -> (present: bool)
        requires
            old(self).wf(),
        ensures
            final(self).wf(),
            present == (watch_index(old(self)@.watches, loc) is Some),
            final(self)@ == (Session {
                watches: match watch_index(old(self)@.watches, loc) {
                    Some(i) => old(self)@.watches.remove(i),
                    None => old(self)@.watches,
                },
                ..old(self)@
            }),
    {
        match self.find_watch(loc) {
            Some(i) => {
                self.watchpoints.remove(i);
                true
            },
            None => false,
        }
    }

    /// The watched locations, in registration order.
    pub fn watchpoints(&self) -> (locs: Vec<WatchLoc>)
        ensures
            locs@ == self@.watches.map_values(|w: WatchEntry| w.loc),
    {
        let mut locs: Vec<WatchLoc> = Vec::new();
        let mut i: usize = 0;
        while i < self.watchpoints.len()
            invariant
                i <= self.watchpoints.len(),
                locs@ == self.watchpoints@.take(i as int).map_values(|w: WatchEntry| w.loc),
            decreases self.watchpoints.len() - i,
        {
            locs.push(self.watchpoints[i].loc);
            i += 1;
            assert(locs@ =~= self.watchpoints@.take(i as int).map_values(|w: WatchEntry| w.loc));
        }
        assert(self.watchpoints@.take(i as int) =~= self.watchpoints@);
        locs
    }

    /// The condition attached to a watched location, if any.
    pub fn watch_cond(&self, loc: WatchLoc) -> (cond: Option<&Expr>)
        requires
            self.wf(),
        ensures
            match watch_index(self@.watches, loc) {
                Some(i) => match cond {
                    Some(e) => self@.watches[i].cond == Some(*e),
                    None => self@.watches[i].cond is None,
                },
                None => cond is None,
            },
    {
        match self.find_watch(loc) {
            Some(i) => match &self.watchpoints[i].cond {
                Some(e) => Some(e),
                None => None,
            },
            None => None,
        }
    }

    fn read_watch(&self, loc: WatchLoc) -> (v: i64)
        requires
            self.wf(),
        ensures
            v == watched(self@.now(), loc),
    {
        match loc {
            WatchLoc::Global(i) => read(&self.vm.globals, i),
            WatchLoc::Mem(i) => read(&self.vm.memory, i),
            WatchLoc::Local(i) => self.vm.local(i),
        }
    }

    fn watch_values(&self) -> (values: Vec<i64>)
        requires
            self.wf(),
        ensures
            values@ == watched_values(self@.watches, self@.now()),
    {
        let mut values: Vec<i64> = Vec::new();
        let mut i: usize = 0;
        while i < self.watchpoints.len()
            invariant
                self.wf(),
                self@.watches == self.watchpoints@,
                i <= self.watchpoints.len(),
                values@.len() == i,
                forall|k: int|
                    0 <= k < i ==> #[trigger] values@[k] == watched(
                        self@.now(),
                        self@.watches[k].loc,
                    ),
            decreases self.watchpoints.len() - i,
        {
            values.push(self.read_watch(self.watchpoints[i].loc));
            i += 1;
        }
        assert(values@ =~= watched_values(self@.watches, self@.now()));
        values
    }

    /// The first watch, in registration order, whose value changed and whose
    /// condition passes. A changed watch with a false condition is skipped and
    /// the scan continues, so one false condition cannot mask other watches.
    fn watch_diff(&self, before: &Vec<i64>) -> (hit: Option<WatchHit>)
        requires
            self.wf(),
            before@.len() == self@.watches.len(),
        ensures
            forall|s: State|
                before@ == #[trigger] watched_values(self@.watches, s) ==> hit == first_hit(
                    self@.watches,
                    s,
                    self@.now(),
                    self@.steps,
                ),
    {
        let mut i: usize = 0;
        assert(self@.watches.skip(0) =~= self@.watches);
        while i < self.watchpoints.len()
            invariant
                self.wf(),
                self@.watches == self.watchpoints@,
                before@.len() == self@.watches.len(),
                i <= self.watchpoints.len(),
                forall|s: State|
                    before@ == #[trigger] watched_values(self@.watches, s) ==> first_hit(
                        self@.watches,
                        s,
                        self@.now(),
                        self@.steps,
                    ) == first_hit(self@.watches.skip(i as int), s, self@.now(), self@.steps),
            decreases self.watchpoints.len() - i,
        {
            let entry = &self.watchpoints[i];
            let new: i64 = self.read_watch(entry.loc);
            let old: i64 = before[i];
            let passes: bool = match &entry.cond {
                None => true,
                Some(cond) => cond.eval_cond(&self.eval_ctx()),
            };
            proof {
                let rest = self@.watches.skip(i as int);
                assert(rest.first() == *entry);
                assert(rest.drop_first() =~= self@.watches.skip(i + 1));
                assert forall|s: State|
                    before@ == #[trigger] watched_values(self@.watches, s) implies old == watched(
                    s,
                    entry.loc,
                ) by {
                    assert(before@[i as int] == watched_values(self@.watches, s)[i as int]);
                }
            }
            if old != new && passes {
                return Some(WatchHit { loc: entry.loc, old, new, step: self.step_count() });
            }
            i += 1;
        }
        None
    }

    /// Step a single instruction, reporting any watchpoint that fired.
    pub fn step_instr(&mut self) -> (r: StopReason)
        requires
            old(self).wf(),
            old(self)@.next_fits(),
        ensures
            final(self).wf(),
            final(self)@ == old(self)@.next(),
            r == old(self)@.step_reason(),
    {
        if self.vm.halted {
            return StopReason::Halted;
        }
        let pre: Vec<i64> = self.watch_values();
        let ghost s = self@.now();
        if !self.forward() {
            return StopReason::Stepped;
        }
        proof {
            assert(pre@ == watched_values(self@.watches, s));
        }
        if let Some(hit) = self.watch_diff(&pre) {
            return StopReason::Watchpoint(hit);
        }
        if self.vm.halted {
            StopReason::Halted
        } else {
            StopReason::Stepped
        }
    }

    /// Why a run for `target` stops in the current state, if it does. The watched
    /// values before the last instruction were `pre`.
    fn judge(&self, pre: &Vec<i64>, target: &Target) -> (r: Option<StopReason>)
        requires
            self.wf(),
            pre@.len() == self@.watches.len(),
        ensures
            forall|s: State|
                pre@ == #[trigger] watched_values(self@.watches, s) ==> r == self@.judged(
                    target@,
                    s,
                    self@.now(),
                    self@.steps,
                ),
    {
        if let Some(hit) = self.watch_diff(pre) {
            return Some(StopReason::Watchpoint(hit));
        }
        if self.vm.halted {
            return Some(StopReason::Halted);
        }
        let met: bool = match target {
            Target::Line(line) => self.current_line() != *line,
            Target::Over(line, depth) => self.vm.depth() <= *depth && self.current_line() != *line,
            Target::Out(depth) => self.vm.depth() < *depth,
            Target::Break => {
                if self.break_fires_here(self.vm.pc) {
                    return Some(StopReason::Breakpoint(self.vm.pc));
                }
                false
            },
        };
        if met {
            Some(StopReason::Line)
        } else {
            None
        }
    }

    /// Run forward until a watchpoint fires, the machine halts, the target is
    /// reached, or the limit. Returns `None` before a call whose frame exceeds
    /// the largest allocation.
    #[verifier::spinoff_prover]
    fn advance(&mut self, target: Target) -> (r: Option<StopReason>)
        requires
            old(self).wf(),
        ensures
            final(self).wf(),
            final(self)@ == (Session { steps: final(self)@.steps, ..old(self)@ }),
            old(self)@.tried(target@, final(self)@.steps, r),
    {
        let ghost d = self@;
        let mut n: usize = 0;
        while n < STEP_LIMIT
            invariant
                self.wf(),
                d == old(self)@,
                n <= STEP_LIMIT,
                self@ == (Session { steps: d.steps + n as nat, ..d }),
                forall|k: nat|
                    d.steps < k <= d.steps + n ==> #[trigger] d.verdict(target@, k) is None,
                forall|k: nat| d.steps <= k < d.steps + n ==> #[trigger] d.fits_at(k),
            decreases STEP_LIMIT - n,
        {
            let pre: Vec<i64> = self.watch_values();
            let ghost s = self@.now();
            proof {
                debuggers_are_sound(*self);
                assert(pre@ == watched_values(d.watches, s));
                assert(self@.next_fits() == d.fits_at(self@.steps));
            }
            if !self.next_fits() {
                assert(d.goes_on(target@, self@.steps));
                return None;
            }
            if !self.forward() {
                proof {
                    lemma_ended_runs_fit(d, target@, self@.steps, StopReason::Halted);
                }
                return Some(StopReason::Halted);
            }
            proof {
                debuggers_are_sound(*self);
                lemma_judged_alike(d, self@.steps, target@, s, self@.now());
            }
            if let Some(reason) = self.judge(&pre, &target) {
                assert(d.verdict(target@, self@.steps) == Some(reason));
                proof {
                    lemma_ended_runs_fit(d, target@, self@.steps, reason);
                }
                return Some(reason);
            }
            assert(d.verdict(target@, self@.steps) is None);
            n += 1;
        }
        proof {
            debuggers_are_sound(*self);
            lemma_ended_runs_fit(d, target@, self@.steps, StopReason::Limit);
        }
        Some(StopReason::Limit)
    }

    /// Step into: advance until the source line changes (descending into calls).
    pub fn step_line(&mut self) -> (r: StopReason)
        requires
            old(self).wf(),
            old(self)@.run_fits(Goal::Line(old(self)@.line(old(self)@.now()))),
        ensures
            final(self).wf(),
            final(self)@ == (Session { steps: final(self)@.steps, ..old(self)@ }),
            old(self)@.ends(
                Goal::Line(old(self)@.line(old(self)@.now())),
                final(self)@.steps,
                r,
            ),
    {
        self.try_step_line().unwrap()
    }

    /// Step into if every frame on the way stays within the largest allocation;
    /// otherwise stop before the first call whose frame does not, and return
    /// `None`.
    pub fn try_step_line(&mut self) -> (r: Option<StopReason>)
        requires
            old(self).wf(),
        ensures
            final(self).wf(),
            final(self)@ == (Session { steps: final(self)@.steps, ..old(self)@ }),
            old(self)@.tried(
                Goal::Line(old(self)@.line(old(self)@.now())),
                final(self)@.steps,
                r,
            ),
    {
        let start: u32 = self.current_line();
        self.advance(Target::Line(start))
    }

    /// Step over: advance to the next source line in the same frame, executing
    /// any calls to completion rather than descending into them.
    pub fn step_over(&mut self) -> (r: StopReason)
        requires
            old(self).wf(),
            old(self)@.run_fits(
                Goal::Over(old(self)@.line(old(self)@.now()), old(self)@.now().frames.len()),
            ),
        ensures
            final(self).wf(),
            final(self)@ == (Session { steps: final(self)@.steps, ..old(self)@ }),
            old(self)@.ends(
                Goal::Over(old(self)@.line(old(self)@.now()), old(self)@.now().frames.len()),
                final(self)@.steps,
                r,
            ),
    {
        self.try_step_over().unwrap()
    }

    /// Step over if every frame on the way stays within the largest allocation;
    /// otherwise stop before the first call whose frame does not, and return
    /// `None`.
    pub fn try_step_over(&mut self) -> (r: Option<StopReason>)
        requires
            old(self).wf(),
        ensures
            final(self).wf(),
            final(self)@ == (Session { steps: final(self)@.steps, ..old(self)@ }),
            old(self)@.tried(
                Goal::Over(old(self)@.line(old(self)@.now()), old(self)@.now().frames.len()),
                final(self)@.steps,
                r,
            ),
    {
        let start_line: u32 = self.current_line();
        let start_depth: usize = self.vm.depth();
        self.advance(Target::Over(start_line, start_depth))
    }

    /// Step out: run until the current frame returns.
    pub fn step_out(&mut self) -> (r: StopReason)
        requires
            old(self).wf(),
            old(self)@.run_fits(Goal::Out(old(self)@.now().frames.len())),
        ensures
            final(self).wf(),
            final(self)@ == (Session { steps: final(self)@.steps, ..old(self)@ }),
            old(self)@.ends(Goal::Out(old(self)@.now().frames.len()), final(self)@.steps, r),
    {
        self.try_step_out().unwrap()
    }

    /// Step out if every frame on the way stays within the largest allocation;
    /// otherwise stop before the first call whose frame does not, and return
    /// `None`.
    pub fn try_step_out(&mut self) -> (r: Option<StopReason>)
        requires
            old(self).wf(),
        ensures
            final(self).wf(),
            final(self)@ == (Session { steps: final(self)@.steps, ..old(self)@ }),
            old(self)@.tried(Goal::Out(old(self)@.now().frames.len()), final(self)@.steps, r),
    {
        let start_depth: usize = self.vm.depth();
        self.advance(Target::Out(start_depth))
    }

    /// Run forward until a breakpoint, a watchpoint change, a halt, or the limit.
    /// A conditional breakpoint only stops when its condition holds on the state
    /// at the stop.
    pub fn cont(&mut self) -> (r: StopReason)
        requires
            old(self).wf(),
            old(self)@.run_fits(Goal::Break),
        ensures
            final(self).wf(),
            final(self)@ == (Session { steps: final(self)@.steps, ..old(self)@ }),
            old(self)@.ends(Goal::Break, final(self)@.steps, r),
    {
        self.try_cont().unwrap()
    }

    /// Continue if every frame on the way stays within the largest allocation;
    /// otherwise stop before the first call whose frame does not, and return
    /// `None`.
    pub fn try_cont(&mut self) -> (r: Option<StopReason>)
        requires
            old(self).wf(),
        ensures
            final(self).wf(),
            final(self)@ == (Session { steps: final(self)@.steps, ..old(self)@ }),
            old(self)@.tried(Goal::Break, final(self)@.steps, r),
    {
        self.advance(Target::Break)
    }

    /// Run backward until the most recent earlier breakpoint whose condition
    /// holds, or the start.
    #[verifier::spinoff_prover]
    pub fn run_back(&mut self) -> (r: StopReason)
        requires
            old(self).wf(),
        ensures
            final(self).wf(),
            final(self)@ == (Session { steps: final(self)@.steps, ..old(self)@ }),
            old(self)@.returns_to(final(self)@.steps, r),
    {
        let ghost d = self@;
        while self.backward()
            invariant
                self.wf(),
                d == old(self)@,
                self@ == (Session { steps: self@.steps, ..d }),
                self@.steps <= d.steps,
                forall|k: nat|
                    self@.steps <= k < d.steps ==> !breaks_here(d.breaks, #[trigger] d.at(k)),
            ensures
                self@.steps == 0,
            decreases self@.steps,
        {
            assert(self@.now() == d.at(self@.steps));
            if self.break_fires_here(self.vm.pc) {
                return StopReason::Breakpoint(self.vm.pc);
            }
        }
        StopReason::Start
    }

    /// Move to an absolute step index, forward or backward, reconstructing the
    /// exact state forward execution had at that step. Steps beyond the natural
    /// end of the program are clamped at the end.
    pub fn goto(&mut self, n: usize) -> (r: StopReason)
        requires
            old(self).wf(),
            old(self)@.way_fits(n as nat),
        ensures
            final(self).wf(),
            final(self)@ == (Session { steps: final(self)@.steps, ..old(self)@ }),
            old(self)@.goes_to(n as nat, final(self)@.steps, r),
    {
        self.try_goto(n).unwrap()
    }

    /// Move to an absolute step index if every frame on the way stays within the
    /// largest allocation; otherwise stop before the first call whose frame does
    /// not, and return `None`.
    pub fn try_goto(&mut self, n: usize) -> (r: Option<StopReason>)
        requires
            old(self).wf(),
        ensures
            final(self).wf(),
            final(self)@ == (Session { steps: final(self)@.steps, ..old(self)@ }),
            match r {
                Some(r) => {
                    &&& old(self)@.way_fits(n as nat)
                    &&& old(self)@.goes_to(n as nat, final(self)@.steps, r)
                },
                None => {
                    &&& !old(self)@.way_fits(n as nat)
                    &&& old(self)@.way_stalls(n as nat, final(self)@.steps)
                },
            },
    {
        let ghost d = self@;
        if n < self.step_count() {
            while self.step_count() > n
                invariant
                    self.wf(),
                    self@ == (Session { steps: self@.steps, ..d }),
                    self@.steps >= n,
                    d == old(self)@,
                decreases self@.steps,
            {
                self.backward();
            }
        } else {
            while self.step_count() < n
                invariant
                    self.wf(),
                    d == old(self)@,
                    self@ == (Session { steps: self@.steps, ..d }),
                    d.steps <= self@.steps <= n,
                    forall|k: nat| d.steps <= k < self@.steps ==> #[trigger] d.fits_at(k),
                decreases n - self@.steps,
            {
                proof {
                    debuggers_are_sound(*self);
                    assert(self@.next_fits() == d.fits_at(self@.steps));
                }
                if !self.next_fits() {
                    return None;
                }
                if !self.forward() {
                    proof {
                        let m = self@.steps;
                        assert forall|k: nat| d.steps <= k < n && d.reaches(k) implies
                            #[trigger] d.fits_at(k) by {
                            if k > m {
                                assert(machine::can_step(d.image, d.at(m)));
                            }
                        }
                    }
                    return Some(StopReason::Halted);
                }
            }
        }
        Some(StopReason::Stepped)
    }

    /// The active call frames, entry frame first.
    pub fn backtrace(&self) -> (frames: &[Frame])
        requires
            self.wf(),
        ensures
            vm::activations(frames@) == self@.now().frames,
    {
        self.vm.frames.as_slice()
    }

    /// The locals of the innermost frame.
    pub fn locals(&self) -> (locals: &[i64])
        requires
            self.wf(),
        ensures
            self@.now().frames.len() > 0,
            locals@ == self@.now().frames.last().locals,
    {
        proof {
            machine::run_keeps_sizes(self@.image, self@.origin, self@.steps);
            assert(self.vm@.frames.last() == self.vm.frames@.last()@);
        }
        self.vm.frames[self.vm.frames.len() - 1].locals.as_slice()
    }
}

/// Why a run stops does not depend on where the session stands.
proof fn lemma_judged_alike(d: Session, n: nat, goal: Goal, before: State, after: State)
    ensures
        (Session { steps: n, ..d }).judged(goal, before, after, n) == d.judged(
            goal,
            before,
            after,
            n,
        ),
        (Session { steps: n, ..d }).now() == d.at(n),
{
}

/// When every frame up to the end of a run can be allocated, no other comes up in
/// it.
proof fn lemma_ended_runs_fit(d: Session, goal: Goal, n: nat, r: StopReason)
    requires
        d.ends(goal, n, r),
        forall|k: nat| d.steps <= k < n ==> #[trigger] d.fits_at(k),
    ensures
        d.run_fits(goal),
{
    assert forall|k: nat| #[trigger] d.goes_on(goal, k) implies d.fits_at(k) by {
        if k > n {
            assert(machine::can_step(d.image, d.at(n)));
            assert(n > d.steps ==> d.verdict(goal, n) is None);
        } else if k == n && n > d.steps {
            assert(d.verdict(goal, n) is None);
        }
    }
}

/// A location without a watchpoint differs from every watched one.
proof fn lemma_unwatched(watches: Seq<WatchEntry>, loc: WatchLoc)
    requires
        watch_index(watches, loc) is None,
    ensures
        forall|i: int| 0 <= i < watches.len() ==> (#[trigger] watches[i]).loc != loc,
    decreases watches.len(),
{
    if watches.len() > 0 {
        lemma_unwatched(watches.drop_last(), loc);
        assert forall|i: int| 0 <= i < watches.len() implies (#[trigger] watches[i]).loc != loc by {
            if i < watches.len() - 1 {
                assert(watches.drop_last()[i] == watches[i]);
            }
        }
    }
}

/// A forward run has exactly one outcome.
pub proof fn run_has_one_end(
    d: Session,
    goal: Goal,
    n1: nat,
    r1: StopReason,
    n2: nat,
    r2: StopReason,
)
    requires
        d.ends(goal, n1, r1),
        d.ends(goal, n2, r2),
    ensures
        n1 == n2,
        r1 == r2,
{
    if n1 < n2 {
        assert(machine::can_step(d.image, d.at(n1)));
        assert(n1 > d.steps ==> d.verdict(goal, n1) is None);
    } else if n2 < n1 {
        assert(machine::can_step(d.image, d.at(n2)));
        assert(n2 > d.steps ==> d.verdict(goal, n2) is None);
    }
}

/// Every program can be run forward from every step, up to a call whose frame
/// cannot be allocated: either the run ends, and every frame on the way can be
/// allocated, or it gets to the first call whose frame cannot.
pub proof fn runs_end_or_stall(d: Session, goal: Goal)
    requires
        d.reaches(d.steps),
    ensures
        d.run_fits(goal) <==> exists|n: nat, r: StopReason| #[trigger]
            d.ends(goal, n, r) && forall|k: nat| d.steps <= k < n ==> #[trigger] d.fits_at(k),
        !d.run_fits(goal) <==> exists|n: nat| #[trigger] d.stalls(goal, n),
{
    lemma_run_goes_on(d, goal, d.steps);
    if exists|n: nat, r: StopReason| #[trigger]
        d.ends(goal, n, r) && forall|k: nat| d.steps <= k < n ==> #[trigger] d.fits_at(k) {
        let (n, r) = choose|n: nat, r: StopReason| #[trigger]
            d.ends(goal, n, r) && forall|k: nat| d.steps <= k < n ==> #[trigger] d.fits_at(k);
        lemma_ended_runs_fit(d, goal, n, r);
    }
}

/// A run that got to step `k` ends or gets to a call whose frame cannot be
/// allocated.
proof fn lemma_run_goes_on(d: Session, goal: Goal, k: nat)
    requires
        d.steps <= k <= d.steps + STEP_LIMIT,
        d.reaches(k),
        forall|j: nat| d.steps < j <= k ==> #[trigger] d.verdict(goal, j) is None,
        forall|j: nat| d.steps <= j < k ==> #[trigger] d.fits_at(j),
    ensures
        (exists|n: nat, r: StopReason| #[trigger]
            d.ends(goal, n, r) && forall|j: nat| d.steps <= j < n ==> #[trigger] d.fits_at(j))
            || exists|n: nat| #[trigger] d.stalls(goal, n),
    decreases d.steps + STEP_LIMIT - k,
{
    if k == d.steps + STEP_LIMIT {
        assert(d.ends(goal, k, StopReason::Limit));
    } else if !machine::can_step(d.image, d.at(k)) {
        assert(d.ends(goal, k, StopReason::Halted));
    } else if !d.fits_at(k) {
        assert(d.stalls(goal, k));
    } else {
        assert(d.reaches(k + 1));
        match d.verdict(goal, k + 1) {
            Some(r) => {
                assert(d.ends(goal, k + 1, r));
            },
            None => {
                lemma_run_goes_on(d, goal, k + 1);
            },
        }
    }
}

/// A run gets to one call alone whose frame cannot be allocated.
pub proof fn run_stalls_once(d: Session, goal: Goal, n1: nat, n2: nat)
    requires
        d.stalls(goal, n1),
        d.stalls(goal, n2),
    ensures
        n1 == n2,
{
}

/// Every step of a run can be moved to, from every step, unless a call comes
/// before it whose frame cannot be allocated: either the move ends, and every
/// frame on the way can be allocated, or it gets to the first call whose frame
/// cannot.
pub proof fn moves_end_or_stall(d: Session, n: nat)
    requires
        d.reaches(d.steps),
    ensures
        exists|m: nat, r: StopReason| #[trigger] d.goes_to(n, m, r),
        !d.way_fits(n) <==> exists|m: nat| #[trigger] d.way_stalls(n, m),
{
    if n <= d.steps {
        assert(d.goes_to(n, n, StopReason::Stepped));
    } else {
        lemma_way_goes_on(d, n, d.steps);
        lemma_way_stalls(d, n, d.steps);
    }
}

/// A move that got to step `k` ends.
proof fn lemma_way_goes_on(d: Session, n: nat, k: nat)
    requires
        d.steps <= k <= n,
        d.reaches(k),
    ensures
        exists|m: nat, r: StopReason| #[trigger] d.goes_to(n, m, r),
    decreases n - k,
{
    if k == n {
        assert(d.goes_to(n, n, StopReason::Stepped));
    } else if !machine::can_step(d.image, d.at(k)) {
        assert(d.goes_to(n, k, StopReason::Halted));
    } else {
        assert(d.reaches(k + 1));
        lemma_way_goes_on(d, n, k + 1);
    }
}

/// A move that got to step `k` has no frame before it that cannot be allocated,
/// or gets to the first.
proof fn lemma_way_stalls(d: Session, n: nat, k: nat)
    requires
        d.steps <= k <= n,
        d.reaches(k),
        forall|j: nat| d.steps <= j < k ==> #[trigger] d.fits_at(j),
    ensures
        d.way_fits(n) || exists|m: nat| #[trigger] d.way_stalls(n, m),
    decreases n - k,
{
    if k < n {
        if !d.fits_at(k) {
            assert(d.way_stalls(n, k));
        } else if machine::can_step(d.image, d.at(k)) {
            assert(d.reaches(k + 1));
            lemma_way_stalls(d, n, k + 1);
        } else {
            assert forall|j: nat| d.steps <= j < n && d.reaches(j) implies #[trigger] d.fits_at(
                j,
            ) by {
                if j > k {
                    assert(machine::can_step(d.image, d.at(k)));
                }
            }
        }
    }
}

/// When every frame that the code may make can be allocated, no run and no move
/// is held up.
pub proof fn fitting_code_never_stalls(d: Session)
    requires
        machine::frames_fit(d.image.code),
    ensures
        forall|k: nat| #[trigger] d.fits_at(k),
        forall|goal: Goal| #[trigger] d.run_fits(goal),
        forall|n: nat| #[trigger] d.way_fits(n),
{
}

/// Restarting gives back the state in which the program is loaded, at step 0, and
/// keeps the program, the breakpoints and the watchpoints.
pub proof fn restarting_gives_back_the_start(d: Session)
    ensures
        ({
            let r = d.restarted();
            &&& r.steps == 0
            &&& r.now() == d.listing.start()
            &&& forall|k: nat| #[trigger] r.at(k) == Session::loaded(d.listing).at(k)
            &&& r.listing == d.listing
            &&& r.breaks == d.breaks
            &&& r.watches == d.watches
        }),
{
    machine::run_steps(d.listing.image, d.listing.start(), 0);
}

/// A backward run has exactly one outcome.
pub proof fn return_has_one_end(d: Session, n1: nat, r1: StopReason, n2: nat, r2: StopReason)
    requires
        d.returns_to(n1, r1),
        d.returns_to(n2, r2),
    ensures
        n1 == n2,
        r1 == r2,
{
    if n1 < n2 {
        assert(breaks_here(d.breaks, d.at(n2)));
    } else if n2 < n1 {
        assert(breaks_here(d.breaks, d.at(n1)));
    }
}

/// A move to a step has exactly one outcome.
pub proof fn move_has_one_end(
    d: Session,
    n: nat,
    m1: nat,
    r1: StopReason,
    m2: nat,
    r2: StopReason,
)
    requires
        d.goes_to(n, m1, r1),
        d.goes_to(n, m2, r2),
    ensures
        m1 == m2,
        r1 == r2,
{
    if m1 < m2 {
        assert(machine::can_step(d.image, d.at(m1)));
    } else if m2 < m1 {
        assert(machine::can_step(d.image, d.at(m2)));
    }
}

/// Reverse-continue takes back continue: where a continue leaves a breakpoint
/// that fires, reverse-continue from wherever it ended returns to that
/// breakpoint. So the stops of a reverse run are those of the forward run, last
/// first.
pub proof fn reverse_continue_mirrors_continue(
    d: Session,
    n: nat,
    r: StopReason,
    back: nat,
    reason: StopReason,
)
    requires
        breaks_here(d.breaks, d.now()),
        d.ends(Goal::Break, n, r),
        n > d.steps,
        (Session { steps: n, ..d }).returns_to(back, reason),
    ensures
        back == d.steps,
        reason == StopReason::Breakpoint(d.now().pc as usize),
{
    let e = Session { steps: n, ..d };
    assert forall|k: nat| d.steps < k < n implies !breaks_here(d.breaks, #[trigger] d.at(k)) by {
        assert(d.verdict(Goal::Break, k) is None);
    }
    assert(forall|k: nat| e.at(k) == d.at(k));
    if back < d.steps {
        assert(e.at(d.steps) == d.now());
        assert(!breaks_here(e.breaks, e.at(d.steps)));
    } else if back > d.steps {
        assert(!breaks_here(d.breaks, d.at(back)));
    }
}

/// Continuing stops for a breakpoint at exactly the steps where one fires: none
/// is passed over on the way, and a stop reported as a breakpoint is one, on a
/// machine that has not halted.
pub proof fn continue_stops_at_breakpoints(d: Session, n: nat, r: StopReason)
    requires
        d.ends(Goal::Break, n, r),
    ensures
        forall|k: nat| d.steps < k < n ==> !breaks_here(d.breaks, #[trigger] d.at(k)),
        r matches StopReason::Breakpoint(addr) ==> {
            &&& breaks_here(d.breaks, d.at(n))
            &&& addr == d.at(n).pc
            &&& !d.at(n).halted
        },
{
    assert forall|k: nat| d.steps < k < n implies !breaks_here(d.breaks, #[trigger] d.at(k)) by {
        assert(d.verdict(Goal::Break, k) is None);
    }
}

/// Every run stops on each step where a watchpoint fires, and reports a
/// watchpoint on no other step.
pub proof fn runs_stop_at_watchpoints(d: Session, goal: Goal, n: nat, r: StopReason)
    requires
        d.ends(goal, n, r),
    ensures
        forall|k: nat, i: int|
            d.steps < k < n && 0 <= i < d.watches.len() ==> !fires(
                #[trigger] d.watches[i],
                d.at((k - 1) as nat),
                #[trigger] d.at(k),
            ),
        r matches StopReason::Watchpoint(hit) ==> {
            &&& n > d.steps
            &&& first_hit(d.watches, d.at((n - 1) as nat), d.at(n), n) == Some(hit)
        },
{
    assert forall|k: nat, i: int|
        d.steps < k < n && 0 <= i < d.watches.len() implies !fires(
        #[trigger] d.watches[i],
        d.at((k - 1) as nat),
        #[trigger] d.at(k),
    ) by {
        assert(d.verdict(goal, k) is None);
        hit_is_the_first_that_fires(d.watches, d.at((k - 1) as nat), d.at(k), k);
    }
}

/// The watchpoint that is reported is the first in registration order that
/// fires: a watchpoint whose condition is false masks no other. Nothing is
/// reported exactly when none fires.
pub proof fn hit_is_the_first_that_fires(
    watches: Seq<WatchEntry>,
    before: State,
    after: State,
    step: nat,
)
    ensures
        match first_hit(watches, before, after, step) {
            Some(hit) => exists|i: int|
                {
                    &&& 0 <= i < watches.len()
                    &&& fires(#[trigger] watches[i], before, after)
                    &&& forall|j: int| 0 <= j < i ==> !fires(#[trigger] watches[j], before, after)
                    &&& hit.loc == watches[i].loc
                    &&& hit.old == watched(before, hit.loc)
                    &&& hit.new == watched(after, hit.loc)
                    &&& hit.old != hit.new
                    &&& hit.step == step as usize
                },
            None => forall|i: int|
                0 <= i < watches.len() ==> !fires(#[trigger] watches[i], before, after),
        },
    decreases watches.len(),
{
    if watches.len() > 0 {
        let rest = watches.drop_first();
        if fires(watches.first(), before, after) {
            assert(fires(watches[0], before, after));
        } else {
            hit_is_the_first_that_fires(rest, before, after, step);
            assert forall|j: int| 0 < j < watches.len() implies #[trigger] watches[j] == rest[j
                - 1] by {}
            if let Some(hit) = first_hit(rest, before, after, step) {
                let i = choose|i: int|
                    {
                        &&& 0 <= i < rest.len()
                        &&& fires(#[trigger] rest[i], before, after)
                        &&& forall|j: int| 0 <= j < i ==> !fires(#[trigger] rest[j], before, after)
                        &&& hit.loc == rest[i].loc
                        &&& hit.old == watched(before, hit.loc)
                        &&& hit.new == watched(after, hit.loc)
                        &&& hit.old != hit.new
                        &&& hit.step == step as usize
                    };
                assert(watches[i + 1] == rest[i]);
                assert(fires(watches[i + 1], before, after));
            } else {
                assert forall|i: int| 0 <= i < watches.len() implies !fires(
                    #[trigger] watches[i],
                    before,
                    after,
                ) by {
                    if i > 0 {
                        assert(!fires(rest[i - 1], before, after));
                    }
                }
            }
        }
    }
}

/// A line-level step that ends on a line ends where its goal is first met: step
/// into on another line, step over on another line no deeper than the start,
/// step out in a shallower frame.
pub proof fn line_steps_meet_their_goal(d: Session, goal: Goal, n: nat, r: StopReason)
    requires
        d.ends(goal, n, r),
    ensures
        r == StopReason::Line ==> n > d.steps && d.meets(goal, d.at(n)),
        forall|k: nat| d.steps < k < n ==> !d.meets(goal, #[trigger] d.at(k)),
        forall|k: nat| d.steps < k < n ==> !(#[trigger] d.at(k)).halted,
{
    assert forall|k: nat| d.steps < k < n implies !d.meets(goal, #[trigger] d.at(k)) && !d.at(
        k,
    ).halted by {
        assert(d.verdict(goal, k) is None);
    }
}

/// Stepping out lands right after the current frame returned: in the caller, at
/// the return address, with the frames of all callers as they were.
pub proof fn step_out_lands_after_the_return(d: Session, n: nat)
    requires
        d.now().frames.len() > 0,
        d.ends(Goal::Out(d.now().frames.len()), n, StopReason::Line),
    ensures
        d.at(n).frames == d.now().frames.drop_last(),
        d.at(n).pc == d.now().frames.last().return_pc,
{
    let depth = d.now().frames.len();
    let start = d.now();
    let m = (n - 1 - d.steps) as nat;
    line_steps_meet_their_goal(d, Goal::Out(depth), n, StopReason::Line);
    assert forall|k: nat| k <= m implies (#[trigger] machine::run(
        d.image,
        start,
        k,
    )).frames.len() >= depth by {
        machine::run_adds_up(d.image, d.origin, d.steps, k);
        if k > 0 {
            assert(!d.meets(Goal::Out(depth), d.at(d.steps + k)));
        }
    }
    machine::callers_wait(d.image, start, depth, m);
    machine::run_adds_up(d.image, d.origin, d.steps, m);
    let last = d.at((n - 1) as nat);
    assert(last.frames.len() >= depth);
    machine::frames_change_at_the_top(d.image, last);
    machine::run_steps(d.image, d.origin, (n - 1) as nat);
    machine::run_steps(d.image, start, 0);
    assert(d.at(n) == machine::after_step(d.image, last));
    assert(d.at(n).frames =~= d.now().frames.drop_last());
}

/// Stepping over runs calls to completion: unless the current function itself
/// returns on the way, the step ends in the same frame, with the frames of all
/// callers as they were.
pub proof fn step_over_comes_back_to_its_frame(d: Session, n: nat)
    requires
        d.now().frames.len() > 0,
        d.ends(
            Goal::Over(d.line(d.now()), d.now().frames.len()),
            n,
            StopReason::Line,
        ),
        forall|k: nat|
            d.steps < k <= n ==> (#[trigger] d.at(k)).frames.len() >= d.now().frames.len(),
    ensures
        d.at(n).frames.len() == d.now().frames.len(),
        d.at(n).frames.drop_last() == d.now().frames.drop_last(),
        d.at(n).frames.last() == (Activation {
            locals: d.at(n).frames.last().locals,
            ..d.now().frames.last()
        }),
        d.line(d.at(n)) != d.line(d.now()),
{
    let depth = d.now().frames.len();
    let start = d.now();
    let goal = Goal::Over(d.line(start), depth);
    let m = (n - d.steps) as nat;
    line_steps_meet_their_goal(d, goal, n, StopReason::Line);
    machine::run_steps(d.image, start, 0);
    assert forall|k: nat| k <= m implies (#[trigger] machine::run(
        d.image,
        start,
        k,
    )).frames.len() >= depth by {
        machine::run_adds_up(d.image, d.origin, d.steps, k);
        if k > 0 {
            assert(d.at(d.steps + k).frames.len() >= depth);
        }
    }
    machine::callers_wait(d.image, start, depth, m);
    machine::run_adds_up(d.image, d.origin, d.steps, m);
    assert(d.at(n).frames.drop_last() =~= d.at(n).frames.take(depth - 1));
    assert(d.now().frames.drop_last() =~= d.now().frames.take(depth - 1));
}

/// Stepping out of the entry frame never lands on a line: it runs until the
/// machine halts, a watchpoint fires, or the limit.
pub proof fn entry_frame_is_never_left(d: Session, n: nat, r: StopReason)
    requires
        d.origin.frames.len() > 0,
        d.now().frames.len() == 1,
        d.ends(Goal::Out(1), n, r),
    ensures
        r != StopReason::Line,
{
    machine::run_keeps_sizes(d.image, d.origin, n);
}

/// Once an instruction has been executed, the machine can go on exactly when it
/// has not halted.
pub proof fn stuck_sessions_are_halted(d: Session)
    requires
        d.steps > 0,
    ensures
        d.can_step() <==> !d.now().halted,
{
    machine::run_steps(d.image, d.origin, (d.steps - 1) as nat);
    machine::stuck_means_halted(d.image, d.at((d.steps - 1) as nat));
}

/// No location is watched twice, and the entry frame is always there.
pub proof fn debuggers_are_sound(d: Debugger)
    requires
        d.wf(),
    ensures
        distinct(d@.watches),
        d@.reaches(d@.steps),
        d@.now().frames.len() > 0,
        d@.origin.frames.len() > 0,
{
    machine::run_keeps_sizes(d@.image, d@.origin, d@.steps);
}

} // verus!
