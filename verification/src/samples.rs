//! Ready to load example programs, used by the command line and the tests.

use crate::text::{chars_of, is_text};
use vstd::prelude::*;

verus! {

/// A recursive factorial. Exercises call frames, arguments, locals, returns,
/// branches, and a global result. `fact(5)` prints `120`.
pub const FACTORIAL: &'static str = "\
; recursive factorial of 5
.globals 4
.memory 16
main:
  push 5
  call fact 1 2
  storeg 0
  loadg 0
  print
  halt
fact:            ; local 0 = n
  load 0
  push 1
  le             ; n <= 1 ?
  jz recurse
  push 1
  ret
recurse:
  load 0         ; n
  load 0
  push 1
  sub            ; n - 1
  call fact 1 2
  mul            ; n * fact(n - 1)
  ret
";

/// A counting loop that accumulates a global sum. Good for watchpoints on
/// globals. Prints `15` (the sum of 1 through 5).
pub const SUM_LOOP: &'static str = "\
; sum of 1..5 into global 0
.globals 2
main:
  push 0
  storeg 0       ; sum = 0
  push 1
  storeg 1       ; i = 1
loop:
  loadg 1
  push 5
  le
  jz done        ; while i <= 5
  loadg 0
  loadg 1
  add
  storeg 0       ; sum += i
  loadg 1
  push 1
  add
  storeg 1       ; i += 1
  jmp loop
done:
  loadg 0
  print
  halt
";

/// A short straight-line program that writes memory then reads it back.
pub const MEMORY_DEMO: &'static str = "\
; store and reload a value in linear memory
.globals 1
.memory 8
main:
  push 4         ; address
  push 77        ; value
  storemem       ; mem[4] = 77
  push 4
  loadmem
  print
  halt
";

/// The built-in samples as (name, source) pairs.
pub const ALL: [(&'static str, &'static str); 3] = [
    ("factorial", FACTORIAL),
    ("sum_loop", SUM_LOOP),
    ("memory", MEMORY_DEMO),
];

/// Look up a sample by name.
pub fn by_name(name: &str) -> (source: Option<&'static str>)
    ensures
        match source {
            Some(s) => exists|i: int|
                0 <= i < ALL@.len() && (#[trigger] ALL@[i]).0@ == name@ && ALL@[i].1@ == s@,
            None => forall|i: int| 0 <= i < ALL@.len() ==> (#[trigger] ALL@[i]).0@ != name@,
        },
{
    let wanted: Vec<char> = chars_of(name);
    let mut i: usize = 0;
    while i < ALL.len()
        invariant
            i <= ALL@.len(),
            wanted@ == name@,
            forall|k: int| 0 <= k < i ==> (#[trigger] ALL@[k]).0@ != name@,
        decreases ALL@.len() - i,
    {
        if is_text(wanted.as_slice(), ALL[i].0) {
            assert(ALL@[i as int].0@ == name@);
            return Some(ALL[i].1);
        }
        i += 1;
    }
    None
}

} // verus!
