//! The manual-edit text format: one entry per line, score then
//! shell-escaped path, with `#` comments.  Exporting renders the store;
//! importing parses an edited file back and diffs it against the store's
//! current contents.
//!
//! Leading and trailing blanks are trimmed and columns are split on ASCII
//! blanks (space, tab, carriage return); scores are whole numbers in the
//! store's fixed-point scale.

use vstd::prelude::*;

verus! {

use crate::frecency::{contains_key, view_of, Frecency, SpecEntry};
use crate::frecent_paths::{remove_key, spec_overwrite_all, PathFrecencyDiff};
use crate::strutil::{
    chars_of, decimal_i64, spec_decimal, spec_parse_decimal, string_from_chars,
};
use vstd::string::StringExecFns;

/// The comment block written at the top of every exported file.
pub const EDIT_HEADER: &'static str = "# Edit your frecency fearlessly!\n#\n# Lines starting with '#' are comments. sh-esque quoting and escapes may be used in paths.\n# Columns are whitespace separated. The first column is the current score, the second is the path.\n# Any changes saved here will be applied back to your frecency database immediately.\n";

/// What shell-style escaping turns a path into: a function of the
/// characters alone.
pub uninterp spec fn escaped_of(s: Seq<char>) -> Seq<char>;

/// Relies on `snailquote::escape`: shell-style quoting, a function of the
/// input characters alone.
#[verifier::external_body]
fn sq_escape(s: &str) -> (r: String)
    ensures
        r@ == escaped_of(s@),
{
    snailquote::escape(s).into_owned()
}

/// What shell-style unescaping yields, or `None` where the escapes are
/// malformed: a function of the characters alone.
pub uninterp spec fn unescaped_of(s: Seq<char>) -> Option<Seq<char>>;

/// Relies on `snailquote::unescape`: parses shell-style quoting; success
/// and result depend on the input characters alone.
#[verifier::external_body]
fn sq_unescape(s: &str) -> (r: Option<String>)
    ensures
        match (r, unescaped_of(s@)) {
            (Some(x), Some(y)) => x@ == y,
            (None, None) => true,
            _ => false,
        },
{
    match snailquote::unescape(s) {
        Ok(x) => Some(x),
        Err(_) => None,
    }
}

/// One rendered entry line.
pub open spec fn spec_edit_line(e: SpecEntry) -> Seq<char> {
    spec_decimal(e.1) + seq!['\t'] + escaped_of(e.0)
}

/// The rendered entry lines, separated by newlines.
pub open spec fn spec_edit_lines(es: Seq<SpecEntry>) -> Seq<char>
    decreases es.len(),
{
    if es.len() == 0 {
        Seq::empty()
    } else if es.len() == 1 {
        spec_edit_line(es[0])
    } else {
        spec_edit_lines(es.drop_last()) + seq!['\n'] + spec_edit_line(es.last())
    }
}

/// Renders entries for hand editing: the header comment, then one line
/// per entry.
pub fn serialize(matches: &Vec<(String, i64)>) -> (r: String)
    ensures
        r@ == EDIT_HEADER@ + spec_edit_lines(view_of(matches@)),
{
    let ghost ev = view_of(matches@);
    let mut out: String = EDIT_HEADER.to_owned();
    let mut i: usize = 0;
    proof {
        assert(ev.take(0) =~= Seq::<SpecEntry>::empty());
        assert(out@ =~= EDIT_HEADER@ + spec_edit_lines(ev.take(0)));
    }
    while i < matches.len()
        invariant
            i <= matches@.len(),
            ev == view_of(matches@),
            ev.len() == matches@.len(),
            out@ == EDIT_HEADER@ + spec_edit_lines(ev.take(i as int)),
        decreases matches@.len() - i,
    {
        proof {
            assert(ev.take(i as int + 1).drop_last() =~= ev.take(i as int));
            assert(ev.take(i as int + 1).last() == ev[i as int]);
            assert(ev[i as int] == (matches@[i as int].0@, matches@[i as int].1 as int));
        }
        if i > 0 {
            out.append("\n");
        }
        let num = decimal_i64(matches[i].1);
        out.append(num.as_str());
        out.append("\t");
        let esc = sq_escape(matches[i].0.as_str());
        out.append(esc.as_str());
        proof {
            reveal_strlit("\n");
            reveal_strlit("\t");
            assert("\n"@ =~= seq!['\n']);
            assert("\t"@ =~= seq!['\t']);
            if i == 0 {
                assert(ev.take(1).len() == 1);
                assert(ev.take(1)[0] == ev[0]);
                assert(out@ =~= EDIT_HEADER@ + spec_edit_lines(ev.take(1)));
            } else {
                assert(out@ =~= EDIT_HEADER@ + spec_edit_lines(ev.take(i as int + 1)));
            }
        }
        i = i + 1;
    }
    proof {
        assert(ev.take(ev.len() as int) =~= ev);
    }
    out
}

/// An ASCII blank, for trimming and column splitting.
pub open spec fn is_blank(c: char) -> bool {
    c == ' ' || c == '\t' || c == '\r' || c == '\n'
}

/// `s` without leading blanks.
pub open spec fn drop_leading(s: Seq<char>) -> Seq<char>
    decreases s.len(),
{
    if s.len() > 0 && is_blank(s.first()) {
        drop_leading(s.drop_first())
    } else {
        s
    }
}

/// `s` without trailing blanks.
pub open spec fn drop_trailing(s: Seq<char>) -> Seq<char>
    decreases s.len(),
{
    if s.len() > 0 && is_blank(s.last()) {
        drop_trailing(s.drop_last())
    } else {
        s
    }
}

/// `s` trimmed of blanks on both ends.
pub open spec fn spec_trim(s: Seq<char>) -> Seq<char> {
    drop_trailing(drop_leading(s))
}

/// Index of the first blank, or the length if there is none.
pub open spec fn first_blank(s: Seq<char>) -> int
    decreases s.len(),
{
    if s.len() == 0 {
        0
    } else if is_blank(s.first()) {
        0
    } else {
        1 + first_blank(s.drop_first())
    }
}

/// Index of the first newline, or the length if there is none.
pub open spec fn first_nl(s: Seq<char>) -> int
    decreases s.len(),
{
    if s.len() == 0 {
        0
    } else if s.first() == '\n' {
        0
    } else {
        1 + first_nl(s.drop_first())
    }
}

/// The lines of `s`: maximal runs between newlines (an empty text is one
/// empty line).
pub open spec fn split_lines(s: Seq<char>) -> Seq<Seq<char>>
    decreases s.len(),
{
    let i = first_nl(s);
    if 0 <= i < s.len() {
        seq![s.take(i)] + split_lines(s.skip(i + 1))
    } else {
        seq![s]
    }
}

/// What one line contributes: nothing for blanks and comments, an entry
/// for a well-formed row, an error otherwise.
pub open spec fn spec_parse_line(line: Seq<char>) -> Result<Option<SpecEntry>, ()> {
    let t = spec_trim(line);
    if t.len() == 0 || t[0] == '#' {
        Ok(None)
    } else {
        let i = first_blank(t);
        if !(0 <= i < t.len()) {
            Err(())
        } else {
            match (spec_parse_decimal(t.take(i)), unescaped_of(t.skip(i + 1))) {
                (Some(v), Some(p)) => if -9223372036854775808 <= v <= 9223372036854775807 {
                    Ok(Some((p, v)))
                } else {
                    Err(())
                },
                _ => Err(()),
            }
        }
    }
}

/// The entries of a whole edited file, or the index of the first line that
/// cannot be parsed.
pub open spec fn spec_parse_lines(ls: Seq<Seq<char>>) -> Result<Seq<SpecEntry>, int>
    decreases ls.len(),
{
    if ls.len() == 0 {
        Ok(Seq::empty())
    } else {
        match spec_parse_line(ls.first()) {
            Err(_) => Err(0),
            Ok(head) => match spec_parse_lines(ls.drop_first()) {
                Err(i) => Err(i + 1),
                Ok(rest) => match head {
                    Some(e) => Ok(seq![e] + rest),
                    None => Ok(rest),
                },
            },
        }
    }
}

/// What parsing an edited file yields.
pub open spec fn spec_deserialize(s: Seq<char>) -> Result<Seq<SpecEntry>, int> {
    spec_parse_lines(split_lines(s))
}

proof fn lemma_drop_leading_at(s: Seq<char>, a: int)
    requires
        0 <= a <= s.len(),
        forall|k: int| 0 <= k < a ==> is_blank(#[trigger] s[k]),
        a < s.len() ==> !is_blank(s[a]),
    ensures
        drop_leading(s) == s.skip(a),
    decreases a,
{
    if s.len() == 0 {
        assert(s.skip(0) =~= s);
    } else if a == 0 {
        assert(s.skip(0) =~= s);
    } else {
        assert(is_blank(s.first()));
        let d = s.drop_first();
        assert forall|k: int| 0 <= k < a - 1 implies is_blank(#[trigger] d[k]) by {
            assert(d[k] == s[k + 1]);
        }
        assert(a - 1 < d.len() ==> d[a - 1] == s[a]);
        lemma_drop_leading_at(d, a - 1);
        assert(d.skip(a - 1) =~= s.skip(a));
    }
}

proof fn lemma_drop_trailing_at(s: Seq<char>, b: int)
    requires
        0 <= b <= s.len(),
        forall|k: int| b <= k < s.len() ==> is_blank(#[trigger] s[k]),
        b > 0 ==> !is_blank(s[b - 1]),
    ensures
        drop_trailing(s) == s.take(b),
    decreases s.len() - b,
{
    if b == s.len() {
        if s.len() == 0 || !is_blank(s.last()) {
            assert(s.take(b) =~= s);
        } else {
            assert(s.take(b) =~= s);
        }
    } else {
        assert(is_blank(s.last()));
        let d = s.drop_last();
        assert forall|k: int| b <= k < d.len() implies is_blank(#[trigger] d[k]) by {
            assert(d[k] == s[k]);
        }
        assert(b > 0 ==> d[b - 1] == s[b - 1]);
        lemma_drop_trailing_at(d, b);
        assert(d.take(b) =~= s.take(b));
    }
}

proof fn lemma_first_blank_at(s: Seq<char>, m: int)
    requires
        0 <= m <= s.len(),
        forall|k: int| 0 <= k < m ==> !is_blank(#[trigger] s[k]),
        m < s.len() ==> is_blank(s[m]),
    ensures
        first_blank(s) == m,
    decreases m,
{
    if s.len() == 0 {
    } else if m == 0 {
    } else {
        let d = s.drop_first();
        assert forall|k: int| 0 <= k < m - 1 implies !is_blank(#[trigger] d[k]) by {
            assert(d[k] == s[k + 1]);
        }
        assert(m - 1 < d.len() ==> d[m - 1] == s[m]);
        lemma_first_blank_at(d, m - 1);
    }
}

proof fn lemma_first_nl_at(s: Seq<char>, m: int)
    requires
        0 <= m <= s.len(),
        forall|k: int| 0 <= k < m ==> s[k] != '\n',
        m < s.len() ==> s[m] == '\n',
    ensures
        first_nl(s) == m,
    decreases m,
{
    if s.len() == 0 {
    } else if m == 0 {
    } else {
        let d = s.drop_first();
        assert forall|k: int| 0 <= k < m - 1 implies d[k] != '\n' by {
            assert(d[k] == s[k + 1]);
        }
        assert(m - 1 < d.len() ==> d[m - 1] == s[m]);
        lemma_first_nl_at(d, m - 1);
    }
}

/// Trims ASCII blanks from both ends.
pub(crate) fn trim_blanks(v: &Vec<char>) -> (r: Vec<char>)
    ensures
        r@ == spec_trim(v@),
{
    let n = v.len();
    let mut a: usize = 0;
    while a < n && (v[a] == ' ' || v[a] == '\t' || v[a] == '\r' || v[a] == '\n')
        invariant
            n == v@.len(),
            a <= n,
            forall|k: int| 0 <= k < a ==> is_blank(#[trigger] v@[k]),
        decreases n - a,
    {
        a = a + 1;
    }
    proof {
        lemma_drop_leading_at(v@, a as int);
    }
    let mut b: usize = n;
    while b > a && (v[b - 1] == ' ' || v[b - 1] == '\t' || v[b - 1] == '\r' || v[b - 1] == '\n')
        invariant
            n == v@.len(),
            a <= b <= n,
            forall|k: int| 0 <= k < a ==> is_blank(#[trigger] v@[k]),
            forall|k: int| b <= k < n ==> is_blank(#[trigger] v@[k]),
        decreases b,
    {
        b = b - 1;
    }
    proof {
        let lead = v@.skip(a as int);
        assert forall|k: int| (b - a) <= k < lead.len() implies is_blank(#[trigger] lead[k]) by {
            assert(lead[k] == v@[a + k]);
        }
        assert(b as int - a as int > 0 ==> lead[b - a - 1] == v@[b as int - 1]);
        lemma_drop_trailing_at(lead, b as int - a as int);
        assert(lead.take(b as int - a as int) =~= v@.subrange(a as int, b as int));
    }
    let mut out: Vec<char> = Vec::new();
    let mut k = a;
    while k < b
        invariant
            a <= k <= b <= v@.len(),
            out@ == v@.subrange(a as int, k as int),
        decreases b - k,
    {
        out.push(v[k]);
        proof {
            assert(v@.subrange(a as int, k as int + 1)
                =~= v@.subrange(a as int, k as int).push(v@[k as int]));
        }
        k = k + 1;
    }
    out
}

/// Parses one line; mirrors [`spec_parse_line`].
fn parse_line(line: &Vec<char>) -> (r: Result<Option<(String, i64)>, ()>)
    ensures
        match (r, spec_parse_line(line@)) {
            (Ok(Some(p)), Ok(q)) => q == Some((p.0@, p.1 as int)),
            (Ok(None), Ok(q)) => q is None,
            (Err(_), Err(_)) => true,
            _ => false,
        },
{
    let t = trim_blanks(line);
    if t.len() == 0 {
        return Ok(None);
    }
    if t[0] == '#' {
        return Ok(None);
    }
    let n = t.len();
    let mut i: usize = 0;
    while i < n && !(t[i] == ' ' || t[i] == '\t' || t[i] == '\r' || t[i] == '\n')
        invariant
            n == t@.len(),
            i <= n,
            forall|k: int| 0 <= k < i ==> !is_blank(#[trigger] t@[k]),
        decreases n - i,
    {
        i = i + 1;
    }
    proof {
        lemma_first_blank_at(t@, i as int);
    }
    if i == n {
        return Err(());
    }
    let value: i64;
    if t[0] == '-' {
        match crate::strutil::parse_digits_span(&t, 1, i, 9223372036854775808u64) {
            Some(x) => {
                proof {
                    assert(t@.subrange(1, i as int) =~= t@.take(i as int).drop_first());
                }
                if x == 9223372036854775808u64 {
                    value = i64::MIN;
                } else {
                    value = -(x as i64);
                }
            },
            None => {
                proof {
                    let sc = t@.take(i as int);
                    let d = sc.drop_first();
                    assert(d =~= t@.subrange(1, i as int));
                    if spec_parse_line(line@) is Ok {
                        assert(spec_parse_decimal(sc) is Some);
                        assert(d.len() >= 1 && forall|k: int|
                            0 <= k < d.len() ==> crate::strutil::is_digit(#[trigger] d[k]));
                        assert forall|k: int| 1 <= k < i
                            implies crate::strutil::is_digit(#[trigger] t@[k]) by {
                            assert(t@[k] == d[k - 1]);
                        }
                        assert(crate::strutil::digits_value(t@.subrange(1, i as int))
                            > 9223372036854775808);
                        assert(crate::strutil::digits_value(d) > 9223372036854775808);
                        assert(spec_parse_decimal(sc)->0 < -9223372036854775808);
                    }
                }
                return Err(());
            },
        }
    } else {
        match crate::strutil::parse_digits_span(&t, 0, i, 9223372036854775807u64) {
            Some(x) => {
                proof {
                    assert(t@.subrange(0, i as int) =~= t@.take(i as int));
                }
                value = x as i64;
            },
            None => {
                proof {
                    let sc = t@.take(i as int);
                    assert(sc =~= t@.subrange(0, i as int));
                    if spec_parse_line(line@) is Ok {
                        assert(spec_parse_decimal(sc) is Some);
                        assert(sc.len() >= 1 && forall|k: int|
                            0 <= k < sc.len() ==> crate::strutil::is_digit(#[trigger] sc[k]));
                        assert forall|k: int| 0 <= k < i
                            implies crate::strutil::is_digit(#[trigger] t@[k]) by {
                            assert(t@[k] == sc[k]);
                        }
                        assert(crate::strutil::digits_value(t@.subrange(0, i as int))
                            > 9223372036854775807);
                        assert(crate::strutil::digits_value(sc) > 9223372036854775807);
                        assert(spec_parse_decimal(sc)->0 > 9223372036854775807);
                    }
                }
                return Err(());
            },
        }
    }
    proof {
        if t@[0] == '-' {
        } else {
            assert(t@.take(i as int)[0] == t@[0]);
        }
    }
    let mut pathv: Vec<char> = Vec::new();
    let mut k = i + 1;
    while k < n
        invariant
            n == t@.len(),
            i as int + 1 <= k as int <= n,
            pathv@ == t@.subrange(i as int + 1, k as int),
        decreases n - k,
    {
        pathv.push(t[k]);
        proof {
            assert(t@.subrange(i as int + 1, k as int + 1)
                =~= t@.subrange(i as int + 1, k as int).push(t@[k as int]));
        }
        k = k + 1;
    }
    proof {
        assert(pathv@ =~= t@.skip(i as int + 1));
    }
    let paths = string_from_chars(&pathv);
    match sq_unescape(paths.as_str()) {
        Some(p) => Ok(Some((p, value))),
        None => Err(()),
    }
}

/// Parses an edited file into entries, in file order; the whole parse
/// fails on the first malformed line, naming that line in the message.
pub fn deserialize(s: &str) -> (r: Result<Vec<(String, i64)>, String>)
    ensures
        match r {
            Ok(v) => spec_deserialize(s@) is Ok && view_of(v@) == spec_deserialize(s@)->Ok_0,
            Err(msg) => {
                &&& spec_deserialize(s@) is Err
                &&& {
                    let i = spec_deserialize(s@)->Err_0;
                    &&& 0 <= i < split_lines(s@).len()
                    &&& msg@ == "could not parse line: "@ + split_lines(s@)[i]
                }
            },
        },
{
    let sv = chars_of(s);
    let n = sv.len();
    let mut out: Vec<(String, i64)> = Vec::new();
    let mut pos: usize = 0;
    let ghost whole = sv@;
    let ghost mut consumed: Seq<Seq<char>> = Seq::empty();
    proof {
        assert(whole.skip(0) =~= whole);
        assert(consumed + split_lines(whole) =~= split_lines(whole));
    }
    loop
        invariant_except_break
            n == whole.len(),
            whole == sv@,
            whole == s@,
            pos <= n,
            pos == 0 || whole[pos as int - 1] == '\n',
            split_lines(whole) == consumed + split_lines(whole.skip(pos as int)),
            (match spec_parse_lines(split_lines(whole.skip(pos as int))) {
                Ok(rest) => spec_deserialize(whole) == Ok::<Seq<SpecEntry>, int>(
                    view_of(out@) + rest,
                ),
                Err(j) => spec_deserialize(whole) == Err::<Seq<SpecEntry>, int>(
                    j + consumed.len(),
                ),
            }),
        ensures
            match spec_deserialize(whole) {
                Ok(all) => view_of(out@) == all,
                Err(_) => false,
            },
        decreases n - pos + 1,
    {
        let start = pos;
        let mut j = pos;
        while j < n && sv[j] != '\n'
            invariant
                n == sv@.len(),
                start <= j <= n,
                forall|k: int| start <= k < j ==> sv@[k] != '\n',
            decreases n - j,
        {
            j = j + 1;
        }
        let ghost suffix = whole.skip(start as int);
        proof {
            assert forall|k: int| 0 <= k < j - start implies suffix[k] != '\n' by {
                assert(suffix[k] == whole[start + k]);
            }
            assert(j < n ==> suffix[j - start] == whole[j as int]);
            lemma_first_nl_at(suffix, j as int - start as int);
            assert(suffix.take(j as int - start as int)
                =~= whole.subrange(start as int, j as int));
            if (j as int) < n as int {
                assert(suffix.skip(j as int - start as int + 1)
                    =~= whole.skip(j as int + 1));
            }
        }
        let mut linev: Vec<char> = Vec::new();
        let mut k = start;
        while k < j
            invariant
                start <= k <= j <= sv@.len(),
                linev@ == sv@.subrange(start as int, k as int),
            decreases j - k,
        {
            linev.push(sv[k]);
            proof {
                assert(sv@.subrange(start as int, k as int + 1)
                    =~= sv@.subrange(start as int, k as int).push(sv@[k as int]));
            }
            k = k + 1;
        }
        let ghost pre_out = view_of(out@);
        match parse_line(&linev) {
            Err(_) => {
                let msg = "could not parse line: ".to_owned().concat(
                    string_from_chars(&linev).as_str(),
                );
                proof {
                    assert(split_lines(suffix)[0] == linev@) by {
                        if (j as int) < n as int {
                            assert(split_lines(suffix).first() == suffix.take(
                                j as int - start as int,
                            ));
                        } else {
                            assert(split_lines(suffix) =~= seq![suffix]);
                            assert(suffix.take(j as int - start as int) =~= suffix);
                        }
                    }
                    assert(spec_parse_lines(split_lines(suffix))
                        == Err::<Seq<SpecEntry>, int>(0));
                    assert(spec_deserialize(whole)
                        == Err::<Seq<SpecEntry>, int>(consumed.len() as int));
                    assert(split_lines(whole)[consumed.len() as int]
                        == split_lines(suffix)[0]) by {
                        assert(split_lines(whole)
                            == consumed + split_lines(whole.skip(pos as int)));
                    }
                }
                return Err(msg);
            },
            Ok(item) => {
                match item {
                    Some(p) => {
                        out.push(p);
                        proof {
                            assert(view_of(out@) =~= pre_out.push((out@.last().0@, out@.last().1 as int)));
                        }
                    },
                    None => {},
                }
                proof {
                    if (j as int) < n as int {
                        assert(split_lines(suffix) == seq![suffix.take(j as int - start as int)]
                            + split_lines(whole.skip(j as int + 1)));
                        assert(split_lines(suffix).drop_first() =~= split_lines(whole.skip(
                            j as int + 1,
                        )));
                        assert(split_lines(suffix).first() == whole.subrange(
                            start as int,
                            j as int,
                        ));
                        match spec_parse_line(whole.subrange(start as int, j as int)) {
                            Ok(h) => {
                                match h {
                                    Some(e) => {
                                        assert(view_of(out@) =~= pre_out.push(e));
                                    },
                                    None => {
                                        assert(view_of(out@) =~= pre_out);
                                    },
                                }
                            },
                            Err(_) => {},
                        }
                    } else {
                        assert(split_lines(suffix) =~= seq![suffix]);
                        assert(suffix =~= whole.subrange(start as int, j as int));
                        assert(split_lines(suffix).drop_first()
                            =~= Seq::<Seq<char>>::empty());
                        assert(spec_parse_lines(Seq::<Seq<char>>::empty())
                            == Ok::<Seq<SpecEntry>, int>(Seq::empty()));
                    }
                }
                if j < n {
                    proof {
                        let lv = whole.subrange(start as int, j as int);
                        match spec_parse_line(lv) {
                            Ok(h) => {
                                match spec_parse_lines(split_lines(whole.skip(j as int + 1))) {
                                    Ok(rest) => {
                                        match h {
                                            Some(e) => {
                                                assert(pre_out + (seq![e] + rest)
                                                    =~= view_of(out@) + rest);
                                            },
                                            None => {},
                                        }
                                    },
                                    Err(_) => {},
                                }
                            },
                            Err(_) => {},
                        }
                        let pre_consumed = consumed;
                        consumed = consumed.push(lv);
                        assert(consumed + split_lines(whole.skip(j as int + 1))
                            =~= pre_consumed + (seq![lv] + split_lines(whole.skip(
                            j as int + 1,
                        ))));
                        assert(split_lines(whole) == consumed + split_lines(whole.skip(
                            j as int + 1,
                        )));
                    }
                    pos = j + 1;
                } else {
                    proof {
                        let lv = whole.subrange(start as int, j as int);
                        match spec_parse_line(lv) {
                            Ok(h) => {
                                match h {
                                    Some(e) => {
                                        assert(pre_out + (seq![e] + Seq::<SpecEntry>::empty())
                                            =~= view_of(out@));
                                    },
                                    None => {
                                        assert(pre_out + Seq::<SpecEntry>::empty()
                                            =~= view_of(out@));
                                    },
                                }
                            },
                            Err(_) => {},
                        }
                        assert(view_of(out@) + Seq::<SpecEntry>::empty() =~= view_of(out@));
                    }
                    break;
                }
            },
        }
    }
    Ok(out)
}

/// One step of diffing: walking the old entries in order against the
/// deduplicated new map, collect removals and changed-score additions,
/// leaving the untouched new entries behind.
pub open spec fn spec_diff_steps(old: Seq<SpecEntry>, nm: Seq<SpecEntry>) -> (
    Seq<Seq<char>>,
    Seq<SpecEntry>,
    Seq<SpecEntry>,
)
    decreases old.len(),
{
    if old.len() == 0 {
        (Seq::empty(), Seq::empty(), nm)
    } else {
        let e = old.first();
        if contains_key(nm, e.0) {
            let w = crate::frecency::score_of(nm, e.0);
            let rec = spec_diff_steps(old.drop_first(), remove_key(nm, e.0));
            if w == e.1 {
                rec
            } else {
                (seq![e.0] + rec.0, seq![(e.0, w)] + rec.1, rec.2)
            }
        } else {
            let rec = spec_diff_steps(old.drop_first(), nm);
            (seq![e.0] + rec.0, rec.1, rec.2)
        }
    }
}

/// Diffs an edited entry list against the entries it was produced from:
/// entries absent from the edit become removals, entries whose score
/// changed become a removal plus an addition, and entries new to the edit
/// become additions (repeated paths in the edit collapse, last one wins).
pub fn diff_between(old: &Vec<(String, i64)>, new: Vec<(String, i64)>) -> (r: PathFrecencyDiff)
    ensures
        ({
            let nm0 = spec_overwrite_all(Seq::<SpecEntry>::empty(), view_of(new@));
            let steps = spec_diff_steps(view_of(old@), nm0);
            &&& r.removals_spec() == steps.0
            &&& r.additions_spec() == steps.1 + steps.2
        }),
{
    let ghost newv = view_of(new@);
    let ghost oldv = view_of(old@);
    let mut scratch = Frecency::new(0);
    let mut i: usize = 0;
    proof {
        assert(newv.skip(0) =~= newv);
        assert(scratch@ =~= Seq::<SpecEntry>::empty());
    }
    while i < new.len()
        invariant
            i <= new@.len(),
            newv == view_of(new@),
            newv.len() == new@.len(),
            scratch.wf(),
            spec_overwrite_all(Seq::<SpecEntry>::empty(), newv) == spec_overwrite_all(
                scratch@,
                newv.skip(i as int),
            ),
        decreases new@.len() - i,
    {
        proof {
            assert(newv.skip(i as int).first() == newv[i as int]);
            assert(newv.skip(i as int).drop_first() =~= newv.skip(i as int + 1));
            assert(newv[i as int] == (new@[i as int].0@, new@[i as int].1 as int));
        }
        scratch.overwrite(new[i].0.clone(), new[i].1);
        i = i + 1;
    }
    proof {
        assert(newv.skip(newv.len() as int) =~= Seq::<SpecEntry>::empty());
    }
    let ghost nm0 = scratch@;
    let mut removals: Vec<String> = Vec::new();
    let mut additions: Vec<(String, i64)> = Vec::new();
    let mut j: usize = 0;
    proof {
        assert(oldv.skip(0) =~= oldv);
        assert(removals@.map_values(|p: String| p@) =~= Seq::<Seq<char>>::empty());
        assert(view_of(additions@) =~= Seq::<SpecEntry>::empty());
    }
    while j < old.len()
        invariant
            j <= old@.len(),
            oldv == view_of(old@),
            oldv.len() == old@.len(),
            scratch.wf(),
            ({
                let steps = spec_diff_steps(oldv, nm0);
                let rest = spec_diff_steps(oldv.skip(j as int), scratch@);
                &&& steps.0 == removals@.map_values(|p: String| p@) + rest.0
                &&& steps.1 == view_of(additions@) + rest.1
                &&& steps.2 == rest.2
            }),
        decreases old@.len() - j,
    {
        let ghost pre_r = removals@.map_values(|p: String| p@);
        let ghost pre_a = view_of(additions@);
        proof {
            assert(oldv.skip(j as int).first() == oldv[j as int]);
            assert(oldv.skip(j as int).drop_first() =~= oldv.skip(j as int + 1));
            assert(oldv[j as int] == (old@[j as int].0@, old@[j as int].1 as int));
        }
        match scratch.remove(&old[j].0) {
            Some(w) => {
                if w != old[j].1 {
                    removals.push(old[j].0.clone());
                    additions.push((old[j].0.clone(), w));
                    proof {
                        assert(removals@.map_values(|p: String| p@)
                            =~= pre_r.push(oldv[j as int].0));
                        assert(view_of(additions@) =~= pre_a.push((oldv[j as int].0, w as int)));
                        let rest = spec_diff_steps(oldv.skip(j as int + 1), scratch@);
                        assert(pre_r + (seq![oldv[j as int].0] + rest.0)
                            =~= pre_r.push(oldv[j as int].0) + rest.0);
                        assert(pre_a + (seq![(oldv[j as int].0, w as int)] + rest.1)
                            =~= pre_a.push((oldv[j as int].0, w as int)) + rest.1);
                    }
                }
            },
            None => {
                removals.push(old[j].0.clone());
                proof {
                    assert(removals@.map_values(|p: String| p@)
                        =~= pre_r.push(oldv[j as int].0));
                    let rest = spec_diff_steps(oldv.skip(j as int + 1), scratch@);
                    assert(pre_r + (seq![oldv[j as int].0] + rest.0)
                        =~= pre_r.push(oldv[j as int].0) + rest.0);
                }
            },
        }
        j = j + 1;
    }
    proof {
        assert(oldv.skip(oldv.len() as int) =~= Seq::<SpecEntry>::empty());
    }
    let leftovers = scratch.items().raw();
    let ghost pre_final = view_of(additions@);
    let mut k: usize = 0;
    proof {
        assert(pre_final + view_of(leftovers@).take(0) =~= pre_final);
    }
    while k < leftovers.len()
        invariant
            k <= leftovers@.len(),
            view_of(additions@) == pre_final + view_of(leftovers@).take(k as int),
        decreases leftovers@.len() - k,
    {
        let ghost pre = view_of(additions@);
        additions.push((leftovers[k].0.clone(), leftovers[k].1));
        proof {
            assert(view_of(leftovers@).take(k as int + 1)
                =~= view_of(leftovers@).take(k as int).push(view_of(leftovers@)[k as int]));
            assert(view_of(leftovers@)[k as int]
                == (leftovers@[k as int].0@, leftovers@[k as int].1 as int));
            assert(view_of(additions@) =~= pre.push(view_of(leftovers@)[k as int]));
            assert(pre_final + view_of(leftovers@).take(k as int + 1)
                =~= view_of(additions@));
        }
        k = k + 1;
    }
    proof {
        assert(view_of(leftovers@).take(view_of(leftovers@).len() as int)
            =~= view_of(leftovers@));
    }
    PathFrecencyDiff::new(additions, removals)
}

} // verus!
