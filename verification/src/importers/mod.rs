//! Importing visit data from other directory-jump tools.  Reading the
//! other tool's database file is the caller's concern; the parsing of its
//! records lives here.

use vstd::prelude::*;

verus! {

use crate::strutil::string_from_chars;

/// The fasd import source: its data file holds one record per line, the
/// path followed by `|`-separated bookkeeping fields.
pub struct Fasd;

/// What an import run saw and took.
pub struct ImportStats {
    /// Records read from the other tool's database.
    pub items_considered: u64,
    /// Records that named a live directory and were visited.
    pub items_visited: u64,
}

/// Index of the first `|`, or the length if there is none.
pub open spec fn first_pipe_sep(s: Seq<char>) -> int
    decreases s.len(),
{
    if s.len() == 0 {
        0
    } else if s.first() == '|' {
        0
    } else {
        1 + first_pipe_sep(s.drop_first())
    }
}

impl Fasd {
    /// The path field of one fasd record: everything before the first `|`.
    pub fn data_of_line(line: &str) -> (r: String)
        ensures
            r@ == line@.take(first_pipe_sep(line@)),
    {
        let lv = crate::strutil::chars_of(line);
        let n = lv.len();
        let mut i: usize = 0;
        while i < n && lv[i] != '|'
            invariant
                n == lv@.len(),
                i <= n,
                forall|k: int| 0 <= k < i ==> lv@[k] != '|',
            decreases n - i,
        {
            i = i + 1;
        }
        proof {
            lemma_first_pipe_at(lv@, i as int);
        }
        let mut out: Vec<char> = Vec::new();
        let mut k: usize = 0;
        while k < i
            invariant
                k <= i <= lv@.len(),
                out@ == lv@.take(i as int).take(k as int),
            decreases i - k,
        {
            out.push(lv[k]);
            proof {
                assert(lv@.take(i as int).take(k as int + 1) =~= out@);
            }
            k = k + 1;
        }
        proof {
            assert(lv@.take(i as int).take(i as int) =~= lv@.take(i as int));
        }
        string_from_chars(&out)
    }
}

proof fn lemma_first_pipe_at(s: Seq<char>, m: int)
    requires
        0 <= m <= s.len(),
        forall|k: int| 0 <= k < m ==> s[k] != '|',
        m < s.len() ==> s[m] == '|',
    ensures
        first_pipe_sep(s) == m,
    decreases m,
{
    if s.len() == 0 {
    } else if m == 0 {
    } else {
        let d = s.drop_first();
        assert forall|k: int| 0 <= k < m - 1 implies d[k] != '|' by {
            assert(d[k] == s[k + 1]);
        }
        assert(m - 1 < d.len() ==> d[m - 1] == s[m]);
        lemma_first_pipe_at(d, m - 1);
    }
}

} // verus!
