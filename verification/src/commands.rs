//! What the commands are for: the laws of the interactive session.

use crate::console;
use crate::console::Verb;
use crate::debugger;
use crate::debugger::{Goal, Session, StopReason, WatchHit, WatchLoc};
use crate::expr;
use crate::expr::Expr;
use crate::grammar;
use crate::machine::Activation;
use crate::scanning;
use crate::stops;
use crate::text;
use crate::vm;
use vstd::prelude::*;

verus! {

/// The letters of the command words.
proof fn lemma_command_letters()
    ensures
        "help"@.len() == 4,
        "help"@[0] == 'h',
        "help"@[1] == 'e',
        "help"@[2] == 'l',
        "help"@[3] == 'p',
        "h"@.len() == 1,
        "h"@[0] == 'h',
        "quit"@.len() == 4,
        "quit"@[0] == 'q',
        "quit"@[1] == 'u',
        "quit"@[2] == 'i',
        "quit"@[3] == 't',
        "q"@.len() == 1,
        "q"@[0] == 'q',
        "src"@.len() == 3,
        "src"@[0] == 's',
        "src"@[1] == 'r',
        "src"@[2] == 'c',
        "list"@.len() == 4,
        "list"@[0] == 'l',
        "list"@[1] == 'i',
        "list"@[2] == 's',
        "list"@[3] == 't',
        "reset"@.len() == 5,
        "reset"@[0] == 'r',
        "reset"@[1] == 'e',
        "reset"@[2] == 's',
        "reset"@[3] == 'e',
        "reset"@[4] == 't',
        "c"@.len() == 1,
        "c"@[0] == 'c',
        "continue"@.len() == 8,
        "continue"@[0] == 'c',
        "continue"@[1] == 'o',
        "continue"@[2] == 'n',
        "continue"@[3] == 't',
        "continue"@[4] == 'i',
        "continue"@[5] == 'n',
        "continue"@[6] == 'u',
        "continue"@[7] == 'e',
        "rc"@.len() == 2,
        "rc"@[0] == 'r',
        "rc"@[1] == 'c',
        "stepi"@.len() == 5,
        "stepi"@[0] == 's',
        "stepi"@[1] == 't',
        "stepi"@[2] == 'e',
        "stepi"@[3] == 'p',
        "stepi"@[4] == 'i',
        "si"@.len() == 2,
        "si"@[0] == 's',
        "si"@[1] == 'i',
        "step"@.len() == 4,
        "step"@[0] == 's',
        "step"@[1] == 't',
        "step"@[2] == 'e',
        "step"@[3] == 'p',
        "s"@.len() == 1,
        "s"@[0] == 's',
        "next"@.len() == 4,
        "next"@[0] == 'n',
        "next"@[1] == 'e',
        "next"@[2] == 'x',
        "next"@[3] == 't',
        "n"@.len() == 1,
        "n"@[0] == 'n',
        "out"@.len() == 3,
        "out"@[0] == 'o',
        "out"@[1] == 'u',
        "out"@[2] == 't',
        "finish"@.len() == 6,
        "finish"@[0] == 'f',
        "finish"@[1] == 'i',
        "finish"@[2] == 'n',
        "finish"@[3] == 'i',
        "finish"@[4] == 's',
        "finish"@[5] == 'h',
        "back"@.len() == 4,
        "back"@[0] == 'b',
        "back"@[1] == 'a',
        "back"@[2] == 'c',
        "back"@[3] == 'k',
        "b"@.len() == 1,
        "b"@[0] == 'b',
        "goto"@.len() == 4,
        "goto"@[0] == 'g',
        "goto"@[1] == 'o',
        "goto"@[2] == 't',
        "goto"@[3] == 'o',
        "g"@.len() == 1,
        "g"@[0] == 'g',
        "break"@.len() == 5,
        "break"@[0] == 'b',
        "break"@[1] == 'r',
        "break"@[2] == 'e',
        "break"@[3] == 'a',
        "break"@[4] == 'k',
        "bp"@.len() == 2,
        "bp"@[0] == 'b',
        "bp"@[1] == 'p',
        "breaki"@.len() == 6,
        "breaki"@[0] == 'b',
        "breaki"@[1] == 'r',
        "breaki"@[2] == 'e',
        "breaki"@[3] == 'a',
        "breaki"@[4] == 'k',
        "breaki"@[5] == 'i',
        "delete"@.len() == 6,
        "delete"@[0] == 'd',
        "delete"@[1] == 'e',
        "delete"@[2] == 'l',
        "delete"@[3] == 'e',
        "delete"@[4] == 't',
        "delete"@[5] == 'e',
        "d"@.len() == 1,
        "d"@[0] == 'd',
        "watch"@.len() == 5,
        "watch"@[0] == 'w',
        "watch"@[1] == 'a',
        "watch"@[2] == 't',
        "watch"@[3] == 'c',
        "watch"@[4] == 'h',
        "w"@.len() == 1,
        "w"@[0] == 'w',
        "eval"@.len() == 4,
        "eval"@[0] == 'e',
        "eval"@[1] == 'v',
        "eval"@[2] == 'a',
        "eval"@[3] == 'l',
        "bt"@.len() == 2,
        "bt"@[0] == 'b',
        "bt"@[1] == 't',
        "where"@.len() == 5,
        "where"@[0] == 'w',
        "where"@[1] == 'h',
        "where"@[2] == 'e',
        "where"@[3] == 'r',
        "where"@[4] == 'e',
        "print"@.len() == 5,
        "print"@[0] == 'p',
        "print"@[1] == 'r',
        "print"@[2] == 'i',
        "print"@[3] == 'n',
        "print"@[4] == 't',
        "p"@.len() == 1,
        "p"@[0] == 'p',
{
    reveal_strlit("help");
    reveal_strlit("h");
    reveal_strlit("quit");
    reveal_strlit("q");
    reveal_strlit("src");
    reveal_strlit("list");
    reveal_strlit("reset");
    reveal_strlit("c");
    reveal_strlit("continue");
    reveal_strlit("rc");
    reveal_strlit("stepi");
    reveal_strlit("si");
    reveal_strlit("step");
    reveal_strlit("s");
    reveal_strlit("next");
    reveal_strlit("n");
    reveal_strlit("out");
    reveal_strlit("finish");
    reveal_strlit("back");
    reveal_strlit("b");
    reveal_strlit("goto");
    reveal_strlit("g");
    reveal_strlit("break");
    reveal_strlit("bp");
    reveal_strlit("breaki");
    reveal_strlit("delete");
    reveal_strlit("d");
    reveal_strlit("watch");
    reveal_strlit("w");
    reveal_strlit("eval");
    reveal_strlit("bt");
    reveal_strlit("where");
    reveal_strlit("print");
    reveal_strlit("p");
}

/// Each command has its words, long and short, and no other word is a command.
pub proof fn commands_have_their_words(word: Seq<char>)
    ensures
        console::verb(word) is Help <==> word == "help"@ || word == "h"@,
        console::verb(word) is Quit <==> word == "quit"@ || word == "q"@,
        console::verb(word) is Source <==> word == "src"@ || word == "list"@,
        console::verb(word) is Reset <==> word == "reset"@,
        console::verb(word) is Continue <==> word == "c"@ || word == "continue"@,
        console::verb(word) is ReverseContinue <==> word == "rc"@,
        console::verb(word) is StepInstr <==> word == "stepi"@ || word == "si"@,
        console::verb(word) is Step <==> word == "step"@ || word == "s"@,
        console::verb(word) is Next <==> word == "next"@ || word == "n"@,
        console::verb(word) is Out <==> word == "out"@ || word == "finish"@,
        console::verb(word) is Back <==> word == "back"@ || word == "b"@,
        console::verb(word) is Goto <==> word == "goto"@ || word == "g"@,
        console::verb(word) is Break <==> word == "break"@ || word == "bp"@,
        console::verb(word) is BreakAddr <==> word == "breaki"@,
        console::verb(word) is Delete <==> word == "delete"@ || word == "d"@,
        console::verb(word) is Watch <==> word == "watch"@ || word == "w"@,
        console::verb(word) is Eval <==> word == "eval"@,
        console::verb(word) is Backtrace <==> word == "bt"@ || word == "where"@,
        console::verb(word) is State <==> word == "print"@ || word == "p"@,
{
    lemma_command_letters();
}

/// Whether ` if ` stands at index `i` of a line.
pub open spec fn if_at(line: Seq<char>, i: int) -> bool {
    &&& 0 <= i <= line.len() - 4
    &&& line[i] == ' '
    &&& line[i + 1] == 'i'
    &&& line[i + 2] == 'f'
    &&& line[i + 3] == ' '
}

/// The first ` if ` of a command separates it from its condition; without one the
/// command has no condition. What follows is trimmed and parsed as an expression.
pub proof fn conditions_follow_the_first_if(line: Seq<char>, i: int)
    ensures
        if_at(line, i) && (forall|j: int| 0 <= j < i ==> !#[trigger] if_at(line, j)) ==> {
            &&& console::head(line) == line.take(i)
            &&& console::condition_text(line) == Some(text::trimmed(line.skip(i + 4)))
            &&& match grammar::expression(text::trimmed(line.skip(i + 4))) {
                Ok(e) => console::condition(line) == Ok::<Option<Expr>, Seq<char>>(Some(e)),
                Err(m) => console::condition(line) == Err::<Option<Expr>, Seq<char>>(m),
            }
        },
        (forall|j: int| !#[trigger] if_at(line, j)) ==> {
            &&& console::head(line) == line
            &&& console::condition_text(line) is None
            &&& console::condition(line) == Ok::<Option<Expr>, Seq<char>>(None)
        },
{
    lemma_condition_start(line);
    let n = console::condition_start(line) as int;
    if if_at(line, i) && (forall|j: int| 0 <= j < i ==> !#[trigger] if_at(line, j)) {
        if n < i {
            assert(!if_at(line, n));
        } else if i < n {
            assert(!if_at(line, i));
        }
        assert(n == i);
    }
    if forall|j: int| !#[trigger] if_at(line, j) {
        assert(!if_at(line, n));
        assert(n == line.len());
        assert(line.take(n) =~= line);
    }
}

/// Where the condition of a command starts.
proof fn lemma_condition_start(line: Seq<char>)
    ensures
        ({
            let n = console::condition_start(line) as int;
            &&& n <= line.len()
            &&& forall|j: int| 0 <= j < n ==> !#[trigger] if_at(line, j)
            &&& n < line.len() ==> if_at(line, n)
        }),
    decreases line.len(),
{
    reveal_strlit(" if ");
    let mark = " if "@;
    if line.len() >= 4 {
        let front = line.take(4);
        if front == mark {
            assert(front[0] == ' ' && front[1] == 'i' && front[2] == 'f' && front[3] == ' ');
            assert(if_at(line, 0));
        } else {
            if if_at(line, 0) {
                assert(front =~= mark);
            }
            let rest = line.skip(1);
            lemma_condition_start(rest);
            let n = console::condition_start(line) as int;
            assert forall|j: int| 0 <= j < n implies !#[trigger] if_at(line, j) by {
                if j > 0 {
                    assert(!if_at(rest, j - 1));
                }
            }
            if n < line.len() {
                assert(if_at(rest, n - 1));
            }
        }
    }
}

/// What a command asks for.
pub open spec fn asked(line: Seq<char>) -> Verb {
    let words = text::words(console::head(line));
    console::verb(
        if words.len() > 0 {
            words[0]
        } else {
            Seq::empty()
        },
    )
}

/// Whether the second word of a command is `arg`.
pub open spec fn argument(line: Seq<char>, arg: Seq<char>) -> bool {
    let words = text::words(console::head(line));
    words.len() > 1 && words[1] == arg
}

/// Whether a session moved to another step of its run, with nothing else changed.
pub open spec fn only_moved(before: Session, after: Session) -> bool {
    after == (Session { steps: after.steps, ..before })
}

/// The commands that run forward run to what they are for, and say why they
/// stopped and where: `c` to a breakpoint, `s` to another line, `n` to another
/// line in a frame that is not deeper, `out` to a frame that is less deep.
pub proof fn run_commands_run(
    before: Session,
    after: Session,
    line: Seq<char>,
    out: Seq<char>,
    quit: bool,
)
    requires
        console::answered(before, after, line, out, quit),
        console::condition(line) is Ok,
    ensures
        ({
            let here = stops::source_line(before, before.now());
            let depth = before.now().frames.len();
            &&& asked(line) is Continue ==> ran(before, after, Goal::Break, out)
            &&& asked(line) is Step ==> ran(before, after, Goal::Line(here), out)
            &&& asked(line) is Next ==> ran(before, after, Goal::Over(here, depth), out)
            &&& asked(line) is Out ==> ran(before, after, Goal::Out(depth), out)
            &&& asked(line) is StepInstr ==> {
                &&& after == before.next()
                &&& out == stop_message(before.step_reason(), after) + console::position_text(
                    after,
                )
            }
        }),
{
    stops::states_have_the_line_of_their_address(before, before.now());
    lemma_stop_message(before.step_reason(), after);
    if asked(line) is Continue {
        lemma_ran(before, after, Goal::Break, out);
    }
    if asked(line) is Step {
        lemma_ran(before, after, Goal::Line(before.line(before.now())), out);
    }
    if asked(line) is Next {
        lemma_ran(
            before,
            after,
            Goal::Over(before.line(before.now()), before.now().frames.len()),
            out,
        );
    }
    if asked(line) is Out {
        lemma_ran(before, after, Goal::Out(before.now().frames.len()), out);
    }
}

/// What is said of a stop.
pub open spec fn stop_message(r: StopReason, d: Session) -> Seq<char> {
    match r {
        StopReason::Breakpoint(addr) => "stopped at breakpoint (addr "@ + text::decimal(addr as nat)
            + ", line "@ + text::decimal(stops::source_line(d, d.now()) as nat) + ")\n"@,
        StopReason::Watchpoint(hit) => alarm(hit),
        StopReason::Halted => "program halted\n"@,
        StopReason::Limit => "step limit reached\n"@,
        StopReason::Start => "reached the start of history\n"@,
        _ => ""@,
    }
}

/// What is said of a watchpoint that fired.
pub open spec fn alarm(hit: WatchHit) -> Seq<char> {
    let (kind, i) = match hit.loc {
        WatchLoc::Global(i) => ("global["@, i),
        WatchLoc::Mem(i) => ("mem["@, i),
        WatchLoc::Local(i) => ("local["@, i),
    };
    "watchpoint "@ + (kind + text::decimal(i as nat) + "]"@) + ": "@ + text::signed_decimal(
        hit.old as int,
    ) + " -> "@ + text::signed_decimal(hit.new as int) + " at step "@ + text::decimal(
        hit.step as nat,
    ) + "\n"@
}

/// Whether a forward run for a goal ended, and was reported with its reason and
/// the position.
pub open spec fn ran(before: Session, after: Session, goal: Goal, out: Seq<char>) -> bool {
    &&& only_moved(before, after)
    &&& exists|r: StopReason| #[trigger]
        before.ends(goal, after.steps, r) && out == stop_message(r, after)
            + console::position_text(after)
}

/// A stop is reported by its message.
proof fn lemma_stop_message(r: StopReason, d: Session)
    ensures
        console::reason_text(d, r) == stop_message(r, d),
{
    stops::states_have_the_line_of_their_address(d, d.now());
}

/// A run that was answered was reported.
proof fn lemma_ran(before: Session, after: Session, goal: Goal, out: Seq<char>)
    requires
        console::ran(before, after, goal, out),
    ensures
        ran(before, after, goal, out),
{
    let r = choose|r: StopReason| #[trigger]
        before.ends(goal, after.steps, r) && out == console::stop_text(after, r);
    lemma_stop_message(r, after);
    assert(before.ends(goal, after.steps, r));
}

/// The commands that move back or to a step do so: `b` by one instruction, `rc` to
/// the last breakpoint, `goto` to the step that is asked for, `reset` to the start
/// of the program.
pub proof fn time_travel_commands_travel(
    before: Session,
    after: Session,
    line: Seq<char>,
    out: Seq<char>,
    quit: bool,
    arg: Seq<char>,
)
    requires
        console::answered(before, after, line, out, quit),
        console::condition(line) is Ok,
    ensures
        asked(line) is Back && before.steps > 0 ==> {
            &&& only_moved(before, after)
            &&& after.steps == before.steps - 1
            &&& out == console::position_text(after)
        },
        asked(line) is Back && before.steps == 0 ==> after == before && out
            == "already at the start (step 0)\n"@,
        asked(line) is ReverseContinue ==> {
            &&& only_moved(before, after)
            &&& exists|r: StopReason| #[trigger]
                before.returns_to(after.steps, r) && out == stop_message(r, after)
                    + console::position_text(after)
        },
        asked(line) is Goto && argument(line, arg) ==> match text::parsed(arg, usize::MAX as nat) {
            Some(n) => {
                &&& only_moved(before, after)
                &&& exists|r: StopReason| #[trigger] before.goes_to(n, after.steps, r)
                &&& out == console::position_text(after)
            },
            None => after == before && out == "usage: goto <step>\n"@,
        },
        asked(line) is Reset ==> {
            &&& after.steps == 0
            &&& after.listing == before.listing
            &&& after.image == before.listing.image
            &&& after.origin == before.listing.start()
            &&& after.breaks == before.breaks
            &&& after.watches == before.watches
            &&& out == console::position_text(after)
        },
{
    if asked(line) is ReverseContinue {
        let r = choose|r: StopReason| #[trigger]
            before.returns_to(after.steps, r) && out == console::stop_text(after, r);
        lemma_stop_message(r, after);
        assert(before.returns_to(after.steps, r));
    }
}

/// The commands that set and remove stops do so and change nothing else: `break`
/// on the first address of a line, `breaki` on an address, `delete` from the first
/// address of a line, `watch` on a location. A condition is kept with the stop.
pub proof fn stop_commands_set_stops(
    before: Session,
    after: Session,
    line: Seq<char>,
    out: Seq<char>,
    quit: bool,
    arg: Seq<char>,
    cond: Option<Expr>,
    found: Option<usize>,
    n: nat,
)
    requires
        console::answered(before, after, line, out, quit),
        console::condition(line) == Ok::<Option<Expr>, Seq<char>>(cond),
        argument(line, arg),
    ensures
        asked(line) is Break && text::parsed(arg, u32::MAX as nat) == Some(n)
            && debugger::is_first_address(before.listing.image.lines, n as u32, found) ==> after
            == (match found {
            Some(addr) => Session { breaks: before.breaks.insert(addr, cond), ..before },
            None => before,
        }),
        asked(line) is BreakAddr && text::parsed(arg, usize::MAX as nat) == Some(n) ==> after == (
        Session { breaks: before.breaks.insert(n as usize, cond), ..before }),
        asked(line) is Delete && text::parsed(arg, u32::MAX as nat) == Some(n)
            && debugger::is_first_address(before.listing.image.lines, n as u32, found) ==> after
            == (match found {
            Some(addr) => Session { breaks: before.breaks.remove(addr), ..before },
            None => before,
        }),
        asked(line) is Watch && arg.len() > 0 && text::parsed(arg.skip(1), usize::MAX as nat)
            == Some(n) ==> {
            &&& arg[0] == 'g' ==> watching(before, after, WatchLoc::Global(n as usize), cond)
            &&& arg[0] == 'm' ==> watching(before, after, WatchLoc::Mem(n as usize), cond)
            &&& arg[0] == 'l' ==> watching(before, after, WatchLoc::Local(n as usize), cond)
        },
{
    let words = text::words(console::head(line));
    assert(text::word(words, 1) == Some(arg));
    if asked(line) is Break && text::parsed(arg, u32::MAX as nat) == Some(n)
        && debugger::is_first_address(before.listing.image.lines, n as u32, found) {
        let suffix = console::condition_suffix(line);
        let other = choose|other: Option<usize>| #[trigger]
            console::set_on_line(before, after, n as u32, other, cond, suffix, out);
        lemma_one_first_address(before.listing.image.lines, n as u32, found, other);
    }
    if asked(line) is Delete && text::parsed(arg, u32::MAX as nat) == Some(n)
        && debugger::is_first_address(before.listing.image.lines, n as u32, found) {
        let other = choose|other: Option<usize>| #[trigger]
            console::cleared_on_line(before, after, n as u32, other, out);
        lemma_one_first_address(before.listing.image.lines, n as u32, found, other);
        if let Some(addr) = found {
            if !before.breaks.contains_key(addr) {
                assert(before.breaks.remove(addr) =~= before.breaks);
            }
        }
    }
}

/// Whether a watchpoint was set, as it is by the debugger.
pub open spec fn watching(
    before: Session,
    after: Session,
    loc: WatchLoc,
    cond: Option<Expr>,
) -> bool {
    after == (Session { watches: debugger::with_watch(before.watches, loc, cond), ..before })
}

/// A line has one first address.
proof fn lemma_one_first_address(
    lines: Seq<u32>,
    line: u32,
    a: Option<usize>,
    b: Option<usize>,
)
    requires
        debugger::is_first_address(lines, line, a),
        debugger::is_first_address(lines, line, b),
    ensures
        a == b,
{
    stops::lines_start_at_their_first_address(lines, line, a);
    stops::lines_start_at_their_first_address(lines, line, b);
    if let Some(x) = a {
        assert(lines[x as int] == line);
    }
    if let Some(y) = b {
        assert(lines[y as int] == line);
    }
}

/// The commands that look do not move, and show what they are for: `eval` the
/// value of the expression after it, `bt` the call stack, `src` the source, `p`
/// the whole state. Only `quit` ends the session. A condition that does not parse
/// is refused.
pub proof fn looking_commands_show(
    before: Session,
    after: Session,
    line: Seq<char>,
    out: Seq<char>,
    quit: bool,
)
    requires
        console::answered(before, after, line, out, quit),
    ensures
        console::condition(line) matches Err(m) ==> after == before && !quit && out
            == "bad condition: "@ + m + "\n"@,
        console::condition(line) is Ok ==> (quit <==> asked(line) is Quit),
        console::condition(line) is Ok && asked(line) is Eval ==> {
            &&& after == before
            &&& match grammar::expression(
                text::trimmed(text::trimmed_start(console::head(line)).skip(4)),
            ) {
                Ok(e) => out == "= "@ + text::signed_decimal(
                    expr::value(e, expr::scope_of(before.now())) as int,
                ) + "\n"@,
                Err(m) => out == "bad expression: "@ + m + "\n"@,
            }
        },
        console::condition(line) is Ok && asked(line) is Backtrace ==> after == before && out
            == "call stack (innermost last):\n"@ + console::frames_text(before.now().frames),
        console::condition(line) is Ok && asked(line) is Source ==> after == before && out
            == console::marked_lines(before, before.listing.source.len()),
        console::condition(line) is Ok && asked(line) is State ==> after == before
            && exists|addrs: Seq<usize>| #[trigger]
            debugger::lists_breaks(addrs, before.breaks) && out == console::state_text(
                before,
                addrs,
            ),
{
}

/// The call stack is shown frame by frame, the innermost last: its number, the
/// name of the function, the address that it returns to, the line of the call and
/// the locals.
pub proof fn call_stacks_are_shown_frame_by_frame(frames: Seq<Activation>, f: Activation)
    ensures
        console::frames_text(Seq::empty()).len() == 0,
        console::frames_text(frames.push(f)) == console::frames_text(frames) + ("  #"@
            + text::decimal(frames.len()) + " "@ + f.func + " return_pc="@ + text::decimal(
            f.return_pc,
        ) + " call_line="@ + text::decimal(f.call_line as nat) + " locals="@ + console::integers(
            f.locals,
        ) + "\n"@),
{
    assert(frames.push(f).drop_last() =~= frames);
}

/// A list of integers is shown in brackets, with a comma and a space between two
/// of them.
pub proof fn lists_are_shown_in_brackets(values: Seq<i64>, v: i64)
    ensures
        console::integers(Seq::empty()) == "["@ + Seq::empty() + "]"@,
        console::integers(seq![v]) == "["@ + text::signed_decimal(v as int) + "]"@,
        values.len() > 0 ==> console::integers(values.push(v)) == console::integers(
            values,
        ).drop_last() + ", "@ + text::signed_decimal(v as int) + "]"@,
{
    let f = |v: i64| text::signed_decimal(v as int);
    let none = Seq::<i64>::empty();
    assert(none.map_values(f) =~= Seq::empty());
    assert(seq![v].map_values(f) =~= seq![text::signed_decimal(v as int)]);
    if values.len() > 0 {
        let items = values.map_values(f);
        let more = values.push(v).map_values(f);
        assert(more =~= items.push(text::signed_decimal(v as int)));
        assert(more.drop_last() =~= items);
        reveal_strlit("]");
        assert(console::integers(values).drop_last() =~= "["@ + console::comma_separated(items));
        assert(console::integers(values.push(v)) =~= console::integers(values).drop_last() + ", "@
            + text::signed_decimal(v as int) + "]"@);
    }
}

/// The cells of the memory that are shown are those that are not zero, in the
/// order of their addresses.
pub proof fn the_cells_that_are_not_zero_are_shown(memory: Seq<i64>)
    ensures
        ({
            let shown = console::occupied(memory);
            &&& forall|k: int|
                0 <= k < shown.len() ==> {
                    &&& (#[trigger] shown[k]).0 < memory.len()
                    &&& shown[k].1 == memory[shown[k].0 as int]
                    &&& shown[k].1 != 0
                }
            &&& forall|j: int, k: int|
                0 <= j < k < shown.len() ==> (#[trigger] shown[j]).0 < (#[trigger] shown[k]).0
            &&& forall|i: int|
                0 <= i < memory.len() && #[trigger] memory[i] != 0 ==> shown.contains(
                    (i as nat, memory[i]),
                )
        }),
    decreases memory.len(),
{
    if memory.len() > 0 {
        let less = memory.drop_last();
        the_cells_that_are_not_zero_are_shown(less);
        let rest = console::occupied(less);
        let shown = console::occupied(memory);
        assert forall|k: int| 0 <= k < rest.len() implies (#[trigger] shown[k]) == rest[k] by {}
        assert forall|k: int| 0 <= k < rest.len() implies (#[trigger] rest[k]).1
            == memory[rest[k].0 as int] by {
            assert(less[rest[k].0 as int] == memory[rest[k].0 as int]);
        }
        assert forall|i: int| 0 <= i < memory.len() && #[trigger] memory[i]
            != 0 implies shown.contains((i as nat, memory[i])) by {
            if i < memory.len() - 1 {
                assert(less[i] != 0);
                assert(rest.contains((i as nat, memory[i])));
                let k = choose|k: int| 0 <= k < rest.len() && rest[k] == (i as nat, memory[i]);
                assert(shown[k] == (i as nat, memory[i]));
            } else {
                assert(shown[rest.len() as int] == (i as nat, memory[i]));
            }
        }
    }
}

/// Any number of spaces.
pub open spec fn gap(n: int) -> Seq<char> {
    Seq::new(
        if n < 0 {
            0
        } else {
            n as nat
        },
        |i: int| ' ',
    )
}

/// The position is shown with the step, the source line, the address and the
/// instruction there, whether the machine halted, the text of the source line, the
/// stack, and the locals of the innermost frame.
pub proof fn positions_are_shown(d: Session)
    ensures
        ({
            let s = d.now();
            let line = stops::source_line(d, s);
            let (a, b, c) = (
                text::decimal(d.steps),
                text::decimal(line as nat),
                text::decimal(s.pc),
            );
            console::position_text(d) == "step "@ + (a + gap(4 - a.len())) + " line "@ + (b + gap(
                3 - b.len(),
            )) + " pc "@ + (c + gap(3 - c.len())) + " "@ + (if !s.halted && s.pc
                < d.image.code.len() {
                vm::spelling(d.image.code[s.pc as int])
            } else {
                "<end>"@
            }) + (if s.halted {
                " [halted]"@
            } else {
                ""@
            }) + "\n"@ + (if 0 < line <= d.listing.source.len() {
                "  >> "@ + text::trimmed_end(d.listing.source[line - 1]) + "\n"@
            } else {
                ""@
            }) + "  stack "@ + console::integers(s.stack) + "\n  locals "@ + console::integers(
                s.frames.last().locals,
            ) + "\n"@
        }),
{
    stops::states_have_the_line_of_their_address(d, d.now());
    assert forall|n: int| #[trigger] gap(n) == console::blanks(n) by {
        assert(gap(n) =~= console::blanks(n));
    }
}

/// The whole state is shown: the position, the globals, the cells of the memory
/// that are not zero, the output, and the breakpoints when there are any.
pub proof fn states_are_shown(d: Session, addrs: Seq<usize>)
    ensures
        console::state_text(d, addrs) == console::position_text(d) + "  globals "@
            + console::integers(d.now().globals) + "\n  memory (nonzero) "@ + console::cells(
            d.now().memory,
        ) + "\n  output "@ + console::quoted_texts(d.now().output) + "\n"@ + (if addrs.len() == 0 {
            ""@
        } else {
            "  breakpoints (addr) "@ + console::addresses(addrs) + "\n"@
        }),
{
}

/// The source is shown line by line, each with its number: an arrow marks the line
/// of the machine, and a star a line with a breakpoint at its first address.
pub proof fn sources_are_shown_line_by_line(d: Session, n: nat)
    requires
        n < u32::MAX,
    ensures
        console::marked_lines(d, 0).len() == 0,
        ({
            let line = (n + 1) as u32;
            let number = text::decimal(n + 1);
            let starred = exists|addr: usize|
                d.breaks.contains_key(addr) && #[trigger] debugger::is_first_address(
                    d.listing.image.lines,
                    line,
                    Some(addr),
                );
            console::marked_lines(d, n + 1) == console::marked_lines(d, n) + ((if line
                == stops::source_line(d, d.now()) {
                "->"@
            } else {
                "  "@
            }) + (if starred {
                "*"@
            } else {
                " "@
            }) + (gap(3 - number.len()) + number) + " | "@ + text::trimmed_end(
                d.listing.source[n as int],
            ) + "\n"@)
        }),
{
    let line = (n + 1) as u32;
    stops::states_have_the_line_of_their_address(d, d.now());
    assert(gap(3 - text::decimal(n + 1).len()) =~= console::blanks(3 - text::decimal(n + 1).len()));
    if exists|addr: usize|
        d.breaks.contains_key(addr) && #[trigger] debugger::is_first_address(
            d.listing.image.lines,
            line,
            Some(addr),
        ) {
        let addr = choose|addr: usize|
            d.breaks.contains_key(addr) && #[trigger] debugger::is_first_address(
                d.listing.image.lines,
                line,
                Some(addr),
            );
        assert(d.breaks.contains_key(addr));
        assert(console::line_has_break(d, line));
    }
}

/// A line of input is a command without the white space around it; a blank one is
/// passed over.
pub proof fn input_is_trimmed(
    before: Session,
    after: Session,
    space: Seq<char>,
    line: Seq<char>,
    end: Seq<char>,
    out: Seq<char>,
    quit: bool,
)
    requires
        scanning::blank(space),
        scanning::blank(end),
        line.len() > 0 ==> !text::white_space(line[0]) && !text::white_space(line.last()),
    ensures
        line.len() > 0 ==> (console::responded(before, after, space + line + end, out, quit)
            <==> console::answered(before, after, line, out, quit)),
        line.len() == 0 ==> (console::responded(before, after, space + line + end, out, quit)
            <==> after == before && out == ""@ && !quit),
{
    scanning::trimming_takes_the_ends_away(space, line, end);
}

/// The condition as it is repeated in an answer.
pub open spec fn repeated(line: Seq<char>) -> Seq<char> {
    match console::condition_text(line) {
        Some(s) => " if "@ + s,
        None => ""@,
    }
}

/// The name of a location.
pub open spec fn location_name(loc: WatchLoc) -> Seq<char> {
    match loc {
        WatchLoc::Global(i) => "global["@ + text::decimal(i as nat) + "]"@,
        WatchLoc::Mem(i) => "mem["@ + text::decimal(i as nat) + "]"@,
        WatchLoc::Local(i) => "local["@ + text::decimal(i as nat) + "]"@,
    }
}

/// The commands that set and remove stops say what they did: the line and the
/// address, or the location, and the condition; or that there was nothing to set
/// or to remove.
pub proof fn stop_commands_say_what_they_did(
    before: Session,
    after: Session,
    line: Seq<char>,
    out: Seq<char>,
    quit: bool,
    arg: Seq<char>,
    found: Option<usize>,
    n: nat,
)
    requires
        console::answered(before, after, line, out, quit),
        console::condition(line) is Ok,
        argument(line, arg),
    ensures
        asked(line) is Break && text::parsed(arg, u32::MAX as nat) == Some(n)
            && debugger::is_first_address(before.listing.image.lines, n as u32, found) ==> out == (
        match found {
            Some(addr) => "breakpoint at line "@ + text::decimal(n) + " (addr "@ + text::decimal(
                addr as nat,
            ) + ")"@ + repeated(line) + "\n"@,
            None => "no instruction on line "@ + text::decimal(n) + "\n"@,
        }),
        asked(line) is BreakAddr && text::parsed(arg, usize::MAX as nat) == Some(n) ==> out
            == "breakpoint at addr "@ + text::decimal(n) + repeated(line) + "\n"@,
        asked(line) is Delete && text::parsed(arg, u32::MAX as nat) == Some(n)
            && debugger::is_first_address(before.listing.image.lines, n as u32, found) ==> out == (
        if found matches Some(addr) && before.breaks.contains_key(addr) {
            "removed breakpoint on line "@ + text::decimal(n) + "\n"@
        } else {
            "no breakpoint on line "@ + text::decimal(n) + "\n"@
        }),
        asked(line) is Watch && arg.len() > 0 && text::parsed(arg.skip(1), usize::MAX as nat)
            == Some(n) ==> {
            &&& arg[0] == 'g' ==> out == "watching "@ + location_name(WatchLoc::Global(n as usize))
                + repeated(line) + "\n"@
            &&& arg[0] == 'm' ==> out == "watching "@ + location_name(WatchLoc::Mem(n as usize))
                + repeated(line) + "\n"@
            &&& arg[0] == 'l' ==> out == "watching "@ + location_name(WatchLoc::Local(n as usize))
                + repeated(line) + "\n"@
        },
{
    let words = text::words(console::head(line));
    assert(text::word(words, 1) == Some(arg));
    if asked(line) is Break && text::parsed(arg, u32::MAX as nat) == Some(n)
        && debugger::is_first_address(before.listing.image.lines, n as u32, found) {
        let cond = console::condition(line)->Ok_0;
        let suffix = console::condition_suffix(line);
        let other = choose|other: Option<usize>| #[trigger]
            console::set_on_line(before, after, n as u32, other, cond, suffix, out);
        lemma_one_first_address(before.listing.image.lines, n as u32, found, other);
    }
    if asked(line) is Delete && text::parsed(arg, u32::MAX as nat) == Some(n)
        && debugger::is_first_address(before.listing.image.lines, n as u32, found) {
        let other = choose|other: Option<usize>| #[trigger]
            console::cleared_on_line(before, after, n as u32, other, out);
        lemma_one_first_address(before.listing.image.lines, n as u32, found, other);
    }
}

/// A command that lacks what it needs, or has something else in its place, changes
/// nothing and is answered with how it is used.
pub proof fn incomplete_commands_change_nothing(
    before: Session,
    after: Session,
    line: Seq<char>,
    out: Seq<char>,
    quit: bool,
)
    requires
        console::answered(before, after, line, out, quit),
        console::condition(line) is Ok,
    ensures
        ({
            let words = text::words(console::head(line));
            let lacks = |max: nat| words.len() < 2 || text::parsed(words[1], max) is None;
            &&& asked(line) is Goto && lacks(usize::MAX as nat) ==> after == before && out
                == "usage: goto <step>\n"@
            &&& asked(line) is Break && lacks(u32::MAX as nat) ==> after == before && out
                == "usage: break <line> [if <expr>]\n"@
            &&& asked(line) is BreakAddr && lacks(usize::MAX as nat) ==> after == before && out
                == "usage: breaki <addr> [if <expr>]\n"@
            &&& asked(line) is Delete && lacks(u32::MAX as nat) ==> after == before && out
                == "usage: delete <line>\n"@
            &&& asked(line) is Watch && (words.len() < 2 || words[1].len() == 0 || text::parsed(
                words[1].skip(1),
                usize::MAX as nat,
            ) is None || words[1][0] != 'g' && words[1][0] != 'm' && words[1][0] != 'l') ==> after
                == before && out == "usage: watch g<idx> | m<idx> | l<idx> [if <expr>]\n"@
            &&& asked(line) is Unknown ==> after == before && out == "unknown command `"@ + (
            if words.len() > 0 {
                words[0]
            } else {
                Seq::empty()
            }) + "` (try `help`)\n"@
        }),
{
}

/// A list of any items is shown in brackets, with a comma and a space between two
/// of them. Memory cells are shown with their addresses, output in double quotes,
/// and addresses as they are.
pub proof fn items_are_shown_in_brackets(
    items: Seq<Seq<char>>,
    x: Seq<char>,
    addr: nat,
    v: i64,
    memory: Seq<i64>,
    addrs: Seq<usize>,
)
    ensures
        console::bracketed(Seq::empty()) == "["@ + Seq::empty() + "]"@,
        console::bracketed(seq![x]) == "["@ + x + "]"@,
        items.len() > 0 ==> console::bracketed(items.push(x)) == console::bracketed(
            items,
        ).drop_last() + ", "@ + x + "]"@,
        console::cell_text((addr, v)) == "("@ + text::decimal(addr) + ", "@ + text::signed_decimal(
            v as int,
        ) + ")"@,
        console::cells(memory) == console::bracketed(
            console::occupied(memory).map_values(|c: (nat, i64)| console::cell_text(c)),
        ),
        console::quoted_texts(items) == console::bracketed(
            items.map_values(|s: Seq<char>| "\""@ + s + "\""@),
        ),
        console::addresses(addrs) == console::bracketed(
            addrs.map_values(|a: usize| text::decimal(a as nat)),
        ),
{
    reveal_strlit("]");
    if items.len() > 0 {
        let more = items.push(x);
        assert(more.drop_last() =~= items);
        assert(console::bracketed(items).drop_last() =~= "["@ + console::comma_separated(items));
        assert(console::bracketed(more) =~= console::bracketed(items).drop_last() + ", "@ + x
            + "]"@);
    }
    assert(items.map_values(|s: Seq<char>| "\""@ + s + "\""@) =~= items.map_values(
        |s: Seq<char>| console::in_quotes(s),
    ));
}

/// A session is greeted with the name of the program and the position.
pub proof fn sessions_are_greeted(d: Session, name: Seq<char>)
    ensures
        console::greeting_text(d, name) == "Bloodhound time-travel debugger. Loaded `"@ + name
            + "`.\nType `help` for commands, `src` to see the program.\n\n"@
            + console::position_text(d),
{
}

/// `help` shows the list of all commands with what they do, and `quit` shows
/// nothing. Neither changes anything.
pub proof fn help_lists_the_commands(
    before: Session,
    after: Session,
    line: Seq<char>,
    out: Seq<char>,
    quit: bool,
)
    requires
        console::answered(before, after, line, out, quit),
        console::condition(line) is Ok,
    ensures
        asked(line) is Quit ==> after == before && out == ""@,
        asked(line) is Help ==> after == before && out == "commands:
  src                 show the program with the current line marked
  c                   continue to next breakpoint or watchpoint
  rc                  reverse-continue back to the previous breakpoint
  s / step            step to the next source line (into calls)
  n / next            step over (skip calls)
  out / finish        step out of the current function
  stepi / si          step a single instruction
  back / b            step backward one instruction (time travel)
  goto <step>         jump to an absolute step index (time travel)
  break <line> [if <expr>]   set a breakpoint, optionally conditional
  breaki <addr> [if <expr>]  set an address breakpoint, optionally conditional
  delete <line>       remove a breakpoint on a source line
  watch g<i>|m<i>|l<i> [if <expr>]  watch a global, cell, or local
  eval <expr>         evaluate an expression against the current state
  bt / where          show the call stack
  p / print           show full machine state
  reset               restart at step 0
  q / quit            exit

expressions use pc, depth, top (the stack top), globals[e], memory[e],
integers, + - * / %, == != < <= > >=, && || ! and parentheses
"@,
{
}

} // verus!
