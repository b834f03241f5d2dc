//! The decision core of interactive selection: given the ranked candidate
//! list shown to the user (reversed, numbered from the bottom) and the line
//! the user typed, pick the chosen path.  The terminal plumbing around it —
//! the alternate screen, the input thread, the signal race — lives with the
//! front end, which must only honor this contract.

use vstd::prelude::*;

verus! {

use crate::edit::{spec_trim, trim_blanks};
use crate::frecency::view_scores;
use crate::strutil::{chars_of, digits_value, is_digit, parse_digits_span};

/// Why no selection came back.
#[derive(Debug)]
pub enum FilterError {
    /// The terminal could not be written to.
    WriteErr(String),
    /// The input could not be understood; the message says why.
    String(String),
    /// The user declined to choose (empty input, or no terminal).
    NoSelection,
}

/// Resolves the user's typed reply against the displayed list: the list is
/// shown reversed with the best candidate numbered 1 at the bottom, so a
/// reply `n` picks the `n`-th best.  Blank input declines; anything but a
/// number from 1 to the list's length is an error.
pub fn select_from(opts: &Vec<(String, u64)>, input: &str) -> (r: Result<String, FilterError>)
    ensures
        ({
            let t = spec_trim(input@);
            match r {
                Ok(p) => {
                    &&& t.len() > 0
                    &&& forall|k: int| 0 <= k < t.len() ==> is_digit(#[trigger] t[k])
                    &&& 1 <= digits_value(t) <= opts@.len()
                    &&& p@ == view_scores(opts@)[digits_value(t) - 1].0
                },
                Err(e) => match e {
                    FilterError::NoSelection => t.len() == 0,
                    FilterError::String(_) => t.len() > 0 && ((exists|k: int|
                        0 <= k < t.len() && !is_digit(#[trigger] t[k])) || digits_value(t) == 0
                        || digits_value(t) > opts@.len()),
                    FilterError::WriteErr(_) => false,
                },
            }
        }),
{
    let iv = chars_of(input);
    let t = trim_blanks(&iv);
    if t.len() == 0 {
        return Err(FilterError::NoSelection);
    }
    let ol = opts.len();
    match parse_digits_span(&t, 0, t.len(), u64::MAX) {
        None => {
            proof {
                assert(t@.subrange(0, t@.len() as int) =~= t@);
                assert(opts@.len() == ol as int);
                assert(ol as int <= u64::MAX as int);
            }
            Err(FilterError::String("unable to parse selection".to_owned()))
        },
        Some(v) => {
            proof {
                assert(t@.subrange(0, t@.len() as int) =~= t@);
            }
            if v == 0 || v > ol as u64 {
                return Err(FilterError::String("index out of bounds".to_owned()));
            }
            let idx = (v as usize) - 1;
            proof {
                assert(view_scores(opts@)[idx as int].0 == opts@[idx as int].0@);
            }
            Ok(opts[idx].0.clone())
        },
    }
}

} // verus!
