//! The decision core of piping candidates through an external filter
//! program: the lines handed to the program, and matching its chosen
//! output line back to a candidate by exact content.  Spawning the program
//! and moving bytes is the front end's concern.

use vstd::prelude::*;

verus! {

use crate::frecency::SpecEntry;
use crate::strutil::{chars_of, decimal_u64, eq_chars, spec_digits};
use vstd::string::StringExecFns;

/// Why piping produced no selection.
#[derive(Debug)]
pub enum PipeError {
    /// The pipe program could not be written to.
    WriteErr(String),
    /// Anything else; the message says why.
    String(String),
}

/// The line a candidate is presented as: its score, a tab, its path.
pub open spec fn spec_pipe_line(e: SpecEntry) -> Seq<char> {
    spec_digits(e.1) + seq!['\t'] + e.0
}

/// Renders each candidate as the line handed to the filter program.
pub fn pipe_lines(opts: &Vec<(String, u64)>) -> (r: Vec<String>)
    ensures
        r@.len() == opts@.len(),
        forall|i: int|
            0 <= i < r@.len() ==> #[trigger] r@[i]@ == spec_pipe_line(
                (opts@[i].0@, opts@[i].1 as int),
            ),
{
    let mut out: Vec<String> = Vec::new();
    let mut i: usize = 0;
    while i < opts.len()
        invariant
            i <= opts@.len(),
            out@.len() == i,
            forall|j: int|
                0 <= j < i ==> #[trigger] out@[j]@ == spec_pipe_line(
                    (opts@[j].0@, opts@[j].1 as int),
                ),
        decreases opts@.len() - i,
    {
        let mut line = decimal_u64(opts[i].1);
        line.append("\t");
        line.append(opts[i].0.as_str());
        proof {
            reveal_strlit("\t");
            assert("\t"@ =~= seq!['\t']);
            assert(line@ =~= spec_pipe_line((opts@[i as int].0@, opts@[i as int].1 as int)));
        }
        out.push(line);
        i = i + 1;
    }
    out
}

/// Finds the candidate whose presented line the filter program chose,
/// matched by exact line content; the first match wins.
pub fn match_selection(opts: &Vec<(String, u64)>, lines: &Vec<String>, chosen: &str) -> (r:
    Option<String>)
    requires
        lines@.len() == opts@.len(),
    ensures
        match r {
            Some(p) => exists|i: int|
                0 <= i < lines@.len() && lines@[i]@ == chosen@ && p@ == opts@[i].0@,
            None => forall|i: int| 0 <= i < lines@.len() ==> #[trigger] lines@[i]@ != chosen@,
        },
{
    let cv = chars_of(chosen);
    let mut i: usize = 0;
    while i < lines.len()
        invariant
            lines@.len() == opts@.len(),
            i <= lines@.len(),
            cv@ == chosen@,
            forall|j: int| 0 <= j < i ==> #[trigger] lines@[j]@ != chosen@,
        decreases lines@.len() - i,
    {
        let lv = chars_of(lines[i].as_str());
        if eq_chars(&lv, &cv) {
            return Some(opts[i].0.clone());
        }
        i = i + 1;
    }
    None
}

} // verus!
