//! Where the debugger stops and why: the laws of its motions.
//!
//! The laws speak of the states on the time line of a run, of the watchpoints and
//! breakpoints of a session, and of where a motion ends.

use crate::debugger;
use crate::debugger::{Goal, Session, StopReason, WatchEntry, WatchHit, WatchLoc};
use crate::expr;
use crate::expr::Expr;
use crate::machine;
use crate::machine::{Image, State};
use crate::vm::{Listing, Op};
use vstd::prelude::*;

verus! {

/// The value at a location: a global slot, a memory cell, or a local slot of the
/// innermost frame. One that does not exist reads 0.
pub open spec fn reading(s: State, loc: WatchLoc) -> i64 {
    let (cells, i) = match loc {
        WatchLoc::Global(i) => (s.globals, i),
        WatchLoc::Mem(i) => (s.memory, i),
        WatchLoc::Local(i) => (
            if s.frames.len() == 0 {
                Seq::empty()
            } else {
                s.frames.last().locals
            },
            i,
        ),
    };
    if i < cells.len() {
        cells[i as int]
    } else {
        0
    }
}

/// Whether a condition allows a stop in a state: there is none, or it is worth
/// something other than zero there.
pub open spec fn allows(cond: Option<Expr>, s: State) -> bool {
    cond matches Some(e) ==> expr::value(e, expr::scope_of(s)) != 0
}

/// Whether a watchpoint fires on the instruction from `before` to `after`: its
/// location changed, and its condition allows a stop after the change.
pub open spec fn rings(w: WatchEntry, before: State, after: State) -> bool {
    reading(before, w.loc) != reading(after, w.loc) && allows(w.cond, after)
}

/// Whether some watchpoint fires.
pub open spec fn some_rings(watches: Seq<WatchEntry>, before: State, after: State) -> bool {
    exists|i: int| 0 <= i < watches.len() && rings(#[trigger] watches[i], before, after)
}

/// Whether a hit reports the first watchpoint, in the order in which they were
/// set, that fires on the instruction that leads to step `k`.
pub open spec fn reports_the_first(
    hit: WatchHit,
    watches: Seq<WatchEntry>,
    before: State,
    after: State,
    k: nat,
) -> bool {
    exists|i: int|
        {
            &&& 0 <= i < watches.len()
            &&& rings(#[trigger] watches[i], before, after)
            &&& forall|j: int| 0 <= j < i ==> !rings(#[trigger] watches[j], before, after)
            &&& hit.loc == watches[i].loc
            &&& hit.old == reading(before, hit.loc)
            &&& hit.new == reading(after, hit.loc)
            &&& k <= usize::MAX ==> hit.step == k
        }
}

/// Whether a breakpoint fires in a state: one is set at the instruction about to
/// execute, and its condition allows a stop.
pub open spec fn struck(breaks: Map<usize, Option<Expr>>, s: State) -> bool {
    exists|addr: usize| #[trigger]
        breaks.contains_key(addr) && addr == s.pc && allows(breaks[addr], s)
}

/// The source line of a state, 0 when there is none.
pub open spec fn source_line(d: Session, s: State) -> u32 {
    let lines = d.listing.image.lines;
    if s.pc < lines.len() {
        lines[s.pc as int]
    } else {
        0
    }
}

/// Whether a run has arrived in a state where it was meant to stop: on another
/// line; on another line in a frame that is not deeper; in a frame less deep; at
/// a breakpoint that fires.
pub open spec fn arrived(d: Session, goal: Goal, s: State) -> bool {
    match goal {
        Goal::Line(line) => source_line(d, s) != line,
        Goal::Over(line, depth) => source_line(d, s) != line && s.frames.len() <= depth,
        Goal::Out(depth) => s.frames.len() < depth,
        Goal::Break => struck(d.breaks, s),
    }
}

/// The two notions of a firing watchpoint agree.
proof fn lemma_rings(w: WatchEntry, before: State, after: State)
    ensures
        rings(w, before, after) == debugger::fires(w, before, after),
        reading(before, w.loc) == debugger::watched(before, w.loc),
        reading(after, w.loc) == debugger::watched(after, w.loc),
{
}

/// What is found by a scan of the watchpoints.
proof fn lemma_scan(watches: Seq<WatchEntry>, before: State, after: State, k: nat)
    ensures
        match debugger::first_hit(watches, before, after, k) {
            Some(hit) => {
                &&& some_rings(watches, before, after)
                &&& reports_the_first(hit, watches, before, after, k)
            },
            None => !some_rings(watches, before, after),
        },
{
    debugger::hit_is_the_first_that_fires(watches, before, after, k);
    assert forall|i: int| 0 <= i < watches.len() implies rings(
        #[trigger] watches[i],
        before,
        after,
    ) == debugger::fires(watches[i], before, after) by {
        lemma_rings(watches[i], before, after);
    }
    if let Some(hit) = debugger::first_hit(watches, before, after, k) {
        let i = choose|i: int|
            {
                &&& 0 <= i < watches.len()
                &&& debugger::fires(#[trigger] watches[i], before, after)
                &&& forall|j: int|
                    0 <= j < i ==> !debugger::fires(#[trigger] watches[j], before, after)
                &&& hit.loc == watches[i].loc
                &&& hit.old == debugger::watched(before, hit.loc)
                &&& hit.new == debugger::watched(after, hit.loc)
                &&& hit.old != hit.new
                &&& hit.step == k as usize
            };
        lemma_rings(watches[i], before, after);
        assert(rings(watches[i], before, after));
        assert(reports_the_first(hit, watches, before, after, k));
    }
}

/// The two notions of a firing breakpoint agree.
proof fn lemma_struck(breaks: Map<usize, Option<Expr>>, s: State)
    ensures
        struck(breaks, s) == debugger::breaks_here(breaks, s),
{
    if debugger::breaks_here(breaks, s) {
        assert(breaks.contains_key(s.pc as usize));
    }
}

/// The time line of a session: step 0 is where it started, each step is one
/// instruction after the one before it, and a step is reached exactly when the
/// machine could execute every instruction before it.
pub proof fn steps_follow_each_other(d: Session, k: nat)
    ensures
        d.at(0) == d.origin,
        d.at(k + 1) == machine::after_step(d.image, d.at(k)),
        d.reaches(0),
        d.reaches(k + 1) <==> {
            &&& d.reaches(k)
            &&& !d.at(k).halted
            &&& d.at(k).pc < d.image.code.len()
        },
        d.now() == d.at(d.steps),
        d.can_step() <==> !d.now().halted && d.now().pc < d.image.code.len(),
{
    machine::run_steps(d.image, d.origin, k);
    if d.reaches(k + 1) {
        assert(machine::can_step(d.image, d.at(k)));
        assert(d.reaches(k));
    }
}

/// A forward run stops at the first step where there is a reason to, and for the
/// first of these reasons that holds there. First, a watchpoint fires: the run
/// reports the first one that does, whether or not the machine halted or the run
/// has arrived. Second, the machine halted. Third, the run has arrived. Otherwise
/// it stops where no instruction is left, or after five million.
pub proof fn runs_stop_at_the_first_reason(d: Session, goal: Goal, n: nat, r: StopReason)
    requires
        d.ends(goal, n, r),
    ensures
        d.steps <= n <= d.steps + 5_000_000,
        d.reaches(n),
        forall|k: nat|
            d.steps < k < n ==> {
                &&& !some_rings(d.watches, d.at((k - 1) as nat), #[trigger] d.at(k))
                &&& !d.at(k).halted
                &&& !arrived(d, goal, d.at(k))
            },
        n > d.steps && some_rings(d.watches, d.at((n - 1) as nat), d.at(n)) ==> (
        r matches StopReason::Watchpoint(hit) && reports_the_first(
            hit,
            d.watches,
            d.at((n - 1) as nat),
            d.at(n),
            n,
        )),
        n > d.steps && !some_rings(d.watches, d.at((n - 1) as nat), d.at(n)) && d.at(n).halted
            ==> r == StopReason::Halted,
        n > d.steps && !some_rings(d.watches, d.at((n - 1) as nat), d.at(n)) && !d.at(n).halted
            && arrived(d, goal, d.at(n)) ==> if goal is Break {
            r matches StopReason::Breakpoint(addr) && addr == d.at(n).pc
        } else {
            r == StopReason::Line
        },
        n == d.steps || !some_rings(d.watches, d.at((n - 1) as nat), d.at(n)) && !d.at(n).halted
            && !arrived(d, goal, d.at(n)) ==> if n == d.steps + 5_000_000 {
            r == StopReason::Limit
        } else {
            r == StopReason::Halted && (d.at(n).halted || d.at(n).pc >= d.image.code.len())
        },
{
    assert forall|k: nat| d.steps < k <= n implies {
        &&& d.verdict(goal, k) is None ==> {
            &&& !some_rings(d.watches, d.at((k - 1) as nat), #[trigger] d.at(k))
            &&& !d.at(k).halted
            &&& !arrived(d, goal, d.at(k))
        }
        &&& (arrived(d, goal, d.at(k)) <==> d.meets(goal, d.at(k)))
    } by {
        lemma_scan(d.watches, d.at((k - 1) as nat), d.at(k), k);
        lemma_struck(d.breaks, d.at(k));
    }
    assert forall|k: nat| d.steps < k < n implies {
        &&& !some_rings(d.watches, d.at((k - 1) as nat), #[trigger] d.at(k))
        &&& !d.at(k).halted
        &&& !arrived(d, goal, d.at(k))
    } by {
        assert(d.verdict(goal, k) is None);
    }
    if n > d.steps {
        lemma_scan(d.watches, d.at((n - 1) as nat), d.at(n), n);
        lemma_struck(d.breaks, d.at(n));
        assert(arrived(d, goal, d.at(n)) <==> d.meets(goal, d.at(n)));
    }
}

/// A run that can execute an instruction executes at least one.
pub proof fn runs_make_progress(d: Session, goal: Goal, n: nat, r: StopReason)
    requires
        d.ends(goal, n, r),
        !d.now().halted,
        d.now().pc < d.image.code.len(),
    ensures
        n > d.steps,
{
}

/// A single step executes one instruction, if there is one. It reports the first
/// watchpoint that fires on it; otherwise it says that the machine is halted
/// exactly when it is, and that the step is done when it is not.
pub proof fn single_steps_report_what_happened(d: Session)
    ensures
        ({
            let t = d.next();
            let moves = !d.now().halted && d.now().pc < d.image.code.len();
            let alarm = moves && some_rings(d.watches, d.now(), d.at(d.steps + 1));
            &&& t == (Session {
                steps: if moves {
                    d.steps + 1
                } else {
                    d.steps
                },
                ..d
            })
            &&& alarm ==> (d.step_reason() matches StopReason::Watchpoint(hit)
                && reports_the_first(
                hit,
                d.watches,
                d.now(),
                d.at(d.steps + 1),
                d.steps + 1,
            ))
            &&& !alarm && t.now().halted ==> d.step_reason() == StopReason::Halted
            &&& !alarm && !t.now().halted ==> d.step_reason() == StopReason::Stepped
        }),
{
    lemma_scan(d.watches, d.now(), d.at(d.steps + 1), d.steps + 1);
}

/// A backward run stops at the last earlier step where a breakpoint fires, and
/// says so, or at the start when there is none.
pub proof fn backward_runs_stop_at_the_last_breakpoint(d: Session, n: nat, r: StopReason)
    requires
        d.returns_to(n, r),
    ensures
        n <= d.steps,
        forall|k: nat| n < k < d.steps ==> !struck(d.breaks, #[trigger] d.at(k)),
        n < d.steps && struck(d.breaks, d.at(n)) ==> (r matches StopReason::Breakpoint(addr)
            && addr == d.at(n).pc),
        n == d.steps || !struck(d.breaks, d.at(n)) ==> n == 0 && r == StopReason::Start,
{
    assert forall|k: nat| n < k < d.steps implies !struck(d.breaks, #[trigger] d.at(k)) by {
        lemma_struck(d.breaks, d.at(k));
    }
    lemma_struck(d.breaks, d.at(n));
}

/// A move ends at the step that was asked for; when the run is shorter, at its
/// last step, where no instruction is left, and it says that the program halted.
pub proof fn moves_arrive_or_end_with_the_run(d: Session, n: nat, m: nat, r: StopReason)
    requires
        d.goes_to(n, m, r),
    ensures
        m <= n,
        d.reaches(m),
        d.reaches(n) ==> m == n && r == StopReason::Stepped,
        !d.reaches(n) ==> m < n && r == StopReason::Halted && (d.at(m).halted || d.at(m).pc
            >= d.image.code.len()),
{
    if m < n && d.reaches(n) {
        assert(machine::can_step(d.image, d.at(m)));
    }
}

/// A location is watched when some watchpoint is on it.
pub open spec fn is_watched(watches: Seq<WatchEntry>, loc: WatchLoc) -> bool {
    exists|i: int| 0 <= i < watches.len() && (#[trigger] watches[i]).loc == loc
}

/// The watchpoint that is found for a location is on it, and none is found exactly
/// when the location is not watched.
pub proof fn watchpoints_are_found_by_location(watches: Seq<WatchEntry>, loc: WatchLoc)
    ensures
        match debugger::watch_index(watches, loc) {
            Some(i) => 0 <= i < watches.len() && watches[i].loc == loc,
            None => !is_watched(watches, loc),
        },
    decreases watches.len(),
{
    if watches.len() > 0 && watches.last().loc != loc {
        let rest = watches.drop_last();
        watchpoints_are_found_by_location(rest, loc);
        if debugger::watch_index(rest, loc) is None && is_watched(watches, loc) {
            let i = choose|i: int| 0 <= i < watches.len() && (#[trigger] watches[i]).loc == loc;
            assert(rest[i].loc == loc);
        }
    }
}

/// Setting a watchpoint: a location that was not watched gets one after all
/// others. One that was watched keeps its place, takes a new condition when one
/// is given, and keeps the old one when none is. No other watchpoint changes.
pub proof fn setting_a_watchpoint_watches_its_location(
    watches: Seq<WatchEntry>,
    loc: WatchLoc,
    cond: Option<Expr>,
)
    requires
        debugger::distinct(watches),
    ensures
        ({
            let after = debugger::with_watch(watches, loc, cond);
            &&& is_watched(after, loc)
            &&& debugger::distinct(after)
            &&& !is_watched(watches, loc) ==> after == watches.push(WatchEntry { loc, cond })
            &&& is_watched(watches, loc) ==> after.len() == watches.len()
            &&& forall|i: int|
                0 <= i < watches.len() ==> {
                    &&& (#[trigger] after[i]).loc == watches[i].loc
                    &&& watches[i].loc != loc || cond is None ==> after[i] == watches[i]
                    &&& watches[i].loc == loc && cond is Some ==> after[i].cond == cond
                }
        }),
{
    watchpoints_are_found_by_location(watches, loc);
    let after = debugger::with_watch(watches, loc, cond);
    match debugger::watch_index(watches, loc) {
        Some(i) => {
            assert(watches[i].loc == loc);
            assert(after[i].loc == loc);
        },
        None => {
            assert(after[watches.len() as int].loc == loc);
        },
    }
}

/// The first address of a line has that line and comes before every other that
/// has it; there is none exactly when no instruction comes from the line.
pub proof fn lines_start_at_their_first_address(lines: Seq<u32>, line: u32, found: Option<usize>)
    requires
        debugger::is_first_address(lines, line, found),
    ensures
        found matches Some(addr) ==> addr < lines.len() && lines[addr as int] == line,
        forall|j: int|
            0 <= j < lines.len() && #[trigger] lines[j] == line ==> (found matches Some(addr)
                && addr <= j),
{
}

/// The list of breakpoints holds every address that has one, and no other, in
/// ascending order.
pub proof fn breakpoints_are_listed_in_order(
    addrs: Seq<usize>,
    breaks: Map<usize, Option<Expr>>,
    addr: usize,
)
    requires
        debugger::lists_breaks(addrs, breaks),
    ensures
        breaks.contains_key(addr) <==> addrs.contains(addr),
        forall|i: int, j: int| 0 <= i < j < addrs.len() ==> addrs[i] < addrs[j],
{
    assert(breaks.contains_key(addr) <==> addrs.to_set().contains(addr));
}

/// Loading a program places the machine at its start, with nothing to stop at.
pub proof fn programs_load_at_their_start(p: Listing)
    ensures
        ({
            let d = Session::loaded(p);
            &&& d.listing == p
            &&& d.image == p.image
            &&& d.steps == 0
            &&& d.now() == machine::initial(p.globals, p.memory)
            &&& d.breaks.dom() == Set::<usize>::empty()
            &&& d.watches.len() == 0
        }),
{
    machine::run_steps(p.image, p.start(), 0);
    assert(Session::loaded(p).breaks.dom() =~= Set::<usize>::empty());
}

/// Only a call can ask for more than can be allocated: one whose frame takes more
/// bytes than the largest `isize`, at eight for each slot.
pub proof fn only_oversized_calls_do_not_fit(image: Image, s: State)
    ensures
        !machine::step_fits(image, s) <==> {
            &&& !s.halted
            &&& s.pc < image.code.len()
            &&& image.code[s.pc as int] matches Op::Call(_, nargs, nlocals)
            &&& nargs * 8 > isize::MAX || nlocals * 8 > isize::MAX
        },
{
}

/// The line of a state is that of its address in the line table of the program.
pub proof fn states_have_the_line_of_their_address(d: Session, s: State)
    ensures
        d.line(s) == source_line(d, s),
{
}

/// A program can be loaded exactly when neither its globals nor its memory take
/// more bytes than the largest `isize`, at eight for each cell.
pub proof fn programs_load_when_their_cells_fit(p: Listing)
    ensures
        p.loadable() <==> p.globals * 8 <= isize::MAX && p.memory * 8 <= isize::MAX,
{
}

} // verus!
