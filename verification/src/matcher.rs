//! Composable string matchers.
//!
//! A matcher assigns a query/candidate pair a confidence in `[0, 1]`, in
//! fixed-point millionths ([`CONFIDENCE_UNIT`]), or `None` for "no match at
//! all".  Two base strategies (exact and substring) are refined by two
//! decorators (case folding and per-path-component matching), mirroring how
//! users think about directory paths.

use vstd::prelude::*;

verus! {

use crate::strutil::{chars_of, eq_chars, lowercase, lower_of};

/// Full confidence (1.0) in fixed-point millionths.
pub const CONFIDENCE_UNIT: u64 = 1000000;

/// `q` occurs in `c` at offset `off`.
pub open spec fn is_match_at(c: Seq<char>, q: Seq<char>, off: int) -> bool {
    &&& 0 <= off
    &&& off + q.len() <= c.len()
    &&& c.subrange(off, off + q.len()) == q
}

/// `q` occurs somewhere in `c`.
pub open spec fn occurs_in(c: Seq<char>, q: Seq<char>) -> bool {
    exists|off: int| is_match_at(c, q, off)
}

/// `q` is a prefix of `c`.
pub open spec fn is_prefix_of(c: Seq<char>, q: Seq<char>) -> bool {
    is_match_at(c, q, 0)
}

/// A strategy that rates how well a query matches a candidate.
pub trait Matcher {
    /// The confidence this strategy assigns, as a function of the two
    /// character sequences.
    spec fn spec_matches(&self, c: Seq<char>, q: Seq<char>) -> Option<u64>;

    /// Rates `search` against `input`; confidences never exceed
    /// [`CONFIDENCE_UNIT`].
    fn matches(&self, input: &str, search: &str) -> (r: Option<u64>)
        ensures
            r == self.spec_matches(input@, search@),
            r matches Some(v) ==> v <= CONFIDENCE_UNIT,
    ;
}

/// Matches only the whole candidate, with full confidence.
pub struct ExactMatcher {}

impl Matcher for ExactMatcher {
    open spec fn spec_matches(&self, c: Seq<char>, q: Seq<char>) -> Option<u64> {
        if c == q {
            Some(CONFIDENCE_UNIT)
        } else {
            None
        }
    }

    fn matches(&self, input: &str, search: &str) -> (r: Option<u64>)
        ensures
            r == self.spec_matches(input@, search@),
            r matches Some(v) ==> v <= CONFIDENCE_UNIT,
    {
        let ci = chars_of(input);
        let qi = chars_of(search);
        if eq_chars(&ci, &qi) {
            Some(CONFIDENCE_UNIT)
        } else {
            None
        }
    }
}

/// The confidence a substring occurrence earns: scaled by how much of the
/// candidate the query covers, with a bonus for matching at the very start.
pub open spec fn spec_substring_confidence(c: Seq<char>, q: Seq<char>) -> Option<u64> {
    if !occurs_in(c, q) {
        None
    } else {
        let base: int = if is_prefix_of(c, q) {
            1000000
        } else {
            800000
        };
        if c.len() == 0 {
            Some(0u64)
        } else {
            Some((base * q.len() / c.len() as int) as u64)
        }
    }
}

/// First offset at which `q` occurs in `c`, scanning left to right.
fn find_sub(c: &Vec<char>, q: &Vec<char>) -> (r: Option<usize>)
    ensures
        match r {
            Some(off) => {
                &&& is_match_at(c@, q@, off as int)
                &&& forall|o: int| 0 <= o < off ==> !is_match_at(c@, q@, o)
            },
            None => !occurs_in(c@, q@),
        },
{
    if q.len() == 0 {
        proof {
            assert(c@.subrange(0, 0) =~= q@);
        }
        return Some(0);
    }
    if q.len() > c.len() {
        return None;
    }
    let clen = c.len();
    let qlen = q.len();
    let last = clen - qlen;
    let mut off: usize = 0;
    while off <= last
        invariant
            clen == c@.len(),
            qlen == q@.len(),
            1 <= qlen <= clen,
            last == clen - qlen,
            off <= last + 1,
            forall|o: int| 0 <= o < off ==> !is_match_at(c@, q@, o),
        decreases last - off + 1,
    {
        let mut j: usize = 0;
        let mut matched = true;
        while matched && j < qlen
            invariant
                clen == c@.len(),
                qlen == q@.len(),
                off + qlen <= clen,
                j <= qlen,
                matched ==> forall|k: int| 0 <= k < j ==> c@[off + k] == q@[k],
                !matched ==> !is_match_at(c@, q@, off as int),
            decreases (if matched { 1int } else { 0int }), qlen - j,
        {
            if c[off + j] != q[j] {
                proof {
                    if is_match_at(c@, q@, off as int) {
                        assert(c@.subrange(off as int, off + q@.len())[j as int]
                            == c@[off + j]);
                    }
                }
                matched = false;
            } else {
                j = j + 1;
            }
        }
        if matched {
            proof {
                assert(c@.subrange(off as int, off + q@.len()) =~= q@);
            }
            return Some(off);
        }
        off = off + 1;
    }
    proof {
        assert forall|o: int| !is_match_at(c@, q@, o) by {
            if 0 <= o <= last {
                assert(!is_match_at(c@, q@, o));
            }
        }
    }
    None
}

/// Matches anywhere inside the candidate; prefix occurrences outrank
/// interior ones of the same length ratio.
pub struct SubstringMatcher {}

impl Matcher for SubstringMatcher {
    open spec fn spec_matches(&self, c: Seq<char>, q: Seq<char>) -> Option<u64> {
        spec_substring_confidence(c, q)
    }

    fn matches(&self, input: &str, search: &str) -> (r: Option<u64>)
        ensures
            r == self.spec_matches(input@, search@),
            r matches Some(v) ==> v <= CONFIDENCE_UNIT,
    {
        let cv = chars_of(input);
        let qv = chars_of(search);
        match find_sub(&cv, &qv) {
            None => None,
            Some(off) => {
                let base: u64 = if off == 0 {
                    1000000
                } else {
                    proof {
                        assert(!is_match_at(cv@, qv@, 0));
                    }
                    800000
                };
                if cv.len() == 0 {
                    Some(0)
                } else {
                    proof {
                        vstd::arithmetic::mul::lemma_mul_inequality(
                            qv@.len() as int,
                            cv@.len() as int,
                            base as int,
                        );
                        vstd::arithmetic::div_mod::lemma_div_is_ordered(
                            base as int * qv@.len() as int,
                            base as int * cv@.len() as int,
                            cv@.len() as int,
                        );
                        assert(base as int * cv@.len() as int / (cv@.len() as int)
                            == base as int) by (nonlinear_arith)
                            requires cv@.len() > 0;
                        vstd::arithmetic::div_mod::lemma_div_pos_is_pos(
                            base as int * qv@.len() as int,
                            cv@.len() as int,
                        );
                        assert((base as u128) * (qv.len() as u128)
                            == base as int * qv@.len() as int) by (nonlinear_arith);
                    }
                    let conf: u64 = ((base as u128) * (qv.len() as u128)
                        / (cv.len() as u128)) as u64;
                    Some(conf)
                }
            },
        }
    }
}

/// Index of the first `/` in `s`, or `s.len()` if there is none.
pub open spec fn first_slash(s: Seq<char>) -> int
    decreases s.len(),
{
    if s.len() == 0 {
        0
    } else if s[0] == '/' {
        0
    } else {
        1 + first_slash(s.drop_first())
    }
}

/// Splits on `/`, dropping empty and `.` segments.
pub open spec fn seg_split(s: Seq<char>) -> Seq<Seq<char>>
    decreases s.len(),
{
    if s.len() == 0 {
        Seq::empty()
    } else {
        let i = first_slash(s);
        // the index is always in `[0, s.len()]`; the guard serves termination
        if 0 <= i < s.len() {
            let head = s.subrange(0, i);
            let tail = seg_split(s.subrange(i + 1, s.len() as int));
            if head.len() == 0 || head == seq!['.'] {
                tail
            } else {
                seq![head] + tail
            }
        } else {
            if s == seq!['.'] {
                Seq::empty()
            } else {
                seq![s]
            }
        }
    }
}

/// The path components of a candidate: a leading `/` is its own root
/// component, a leading `.` segment stays as its own component, and the
/// rest are the non-empty, non-`.` segments between slashes.
pub open spec fn components_of(c: Seq<char>) -> Seq<Seq<char>> {
    if c.len() > 0 && c[0] == '/' {
        seq![seq!['/']] + seg_split(c)
    } else if c.len() > 0 && c[0] == '.' && (c.len() == 1 || c[1] == '/') {
        seq![seq!['.']] + seg_split(c)
    } else {
        seg_split(c)
    }
}

proof fn lemma_first_slash_at(s: Seq<char>, m: int)
    requires
        0 <= m <= s.len(),
        forall|k: int| 0 <= k < m ==> s[k] != '/',
        m < s.len() ==> s[m] == '/',
    ensures
        first_slash(s) == m,
    decreases m,
{
    if s.len() == 0 {
    } else if s[0] == '/' {
        assert(m == 0);
    } else {
        let d = s.drop_first();
        assert forall|k: int| 0 <= k < m - 1 implies d[k] != '/' by {
            assert(d[k] == s[k + 1]);
        }
        assert(m - 1 < d.len() ==> d[m - 1] == s[m]);
        lemma_first_slash_at(d, m - 1);
    }
}

/// Unfolds `seg_split` of the suffix starting at a segment boundary `pos`:
/// the next segment runs up to `j`, the first slash at or after `pos`.
proof fn lemma_seg_split_step(s: Seq<char>, pos: int, j: int)
    requires
        0 <= pos <= j <= s.len(),
        forall|k: int| pos <= k < j ==> s[k] != '/',
        j < s.len() ==> s[j] == '/',
    ensures
        seg_split(s.subrange(pos, s.len() as int)) == {
            let head = s.subrange(pos, j);
            let tail = if j < s.len() {
                seg_split(s.subrange(j + 1, s.len() as int))
            } else {
                Seq::<Seq<char>>::empty()
            };
            if head.len() == 0 || head == seq!['.'] {
                tail
            } else {
                seq![head] + tail
            }
        },
{
    let t = s.subrange(pos, s.len() as int);
    if t.len() == 0 {
        assert(j == pos);
        assert(s.subrange(pos, j) =~= Seq::<char>::empty());
    } else {
        assert forall|k: int| 0 <= k < j - pos implies t[k] != '/' by {
            assert(t[k] == s[pos + k]);
        }
        assert(j - pos < t.len() ==> t[j - pos] == s[j]);
        lemma_first_slash_at(t, j - pos);
        let head = s.subrange(pos, j);
        assert(t.subrange(0, j - pos) =~= head);
        if j < s.len() {
            assert(t.subrange(j - pos + 1, t.len() as int)
                =~= s.subrange(j + 1, s.len() as int));
        }
    }
}

fn next_slash(v: &Vec<char>, from: usize) -> (r: usize)
    requires
        from <= v@.len(),
    ensures
        from <= r <= v@.len(),
        forall|k: int| from <= k < r ==> v@[k] != '/',
        r < v@.len() ==> v@[r as int] == '/',
{
    let n = v.len();
    let mut j = from;
    while j < n
        invariant
            n == v@.len(),
            from <= j <= n,
            forall|k: int| from <= k < j ==> v@[k] != '/',
        decreases n - j,
    {
        if v[j] == '/' {
            return j;
        }
        j = j + 1;
    }
    j
}

/// Splits a candidate into its path components (see [`components_of`]).
fn split_components(v: &Vec<char>) -> (r: Vec<Vec<char>>)
    ensures
        r@.map_values(|x: Vec<char>| x@) == components_of(v@),
{
    let n = v.len();
    let mut comps: Vec<Vec<char>> = Vec::new();
    if n > 0 && v[0] == '/' {
        let mut root: Vec<char> = Vec::new();
        root.push('/');
        comps.push(root);
        proof {
            assert(root@ =~= seq!['/']);
            assert(comps@.map_values(|x: Vec<char>| x@) =~= seq![seq!['/']]);
        }
    } else if n > 0 && v[0] == '.' && (n == 1 || v[1] == '/') {
        let mut cur: Vec<char> = Vec::new();
        cur.push('.');
        comps.push(cur);
        proof {
            assert(cur@ =~= seq!['.']);
            assert(comps@.map_values(|x: Vec<char>| x@) =~= seq![seq!['.']]);
        }
    } else {
        proof {
            assert(comps@.map_values(|x: Vec<char>| x@) =~= Seq::<Seq<char>>::empty());
        }
    }
    let mut pos: usize = 0;
    proof {
        assert(v@.subrange(0, n as int) =~= v@);
        assert(comps@.map_values(|x: Vec<char>| x@) + seg_split(v@)
            =~= components_of(v@));
    }
    while pos < n
        invariant
            n == v@.len(),
            pos <= n,
            comps@.map_values(|x: Vec<char>| x@)
                + seg_split(v@.subrange(pos as int, n as int)) =~= components_of(v@),
        decreases n - pos,
    {
        let ghost comps0 = comps@.map_values(|x: Vec<char>| x@);
        let j = next_slash(v, pos);
        let mut seg: Vec<char> = Vec::new();
        let mut k = pos;
        while k < j
            invariant
                n == v@.len(),
                pos <= k <= j <= n,
                seg@ =~= v@.subrange(pos as int, k as int),
            decreases j - k,
        {
            seg.push(v[k]);
            proof {
                assert(seg@ =~= v@.subrange(pos as int, k as int + 1));
            }
            k = k + 1;
        }
        proof {
            assert(seg@ =~= v@.subrange(pos as int, j as int));
            lemma_seg_split_step(v@, pos as int, j as int);
        }
        let keep: bool;
        if seg.len() == 0 {
            keep = false;
        } else if seg.len() == 1 {
            keep = seg[0] != '.';
            proof {
                if seg@[0] == '.' {
                    assert(seg@ =~= seq!['.']);
                } else {
                    assert(seg@ != seq!['.']);
                }
            }
        } else {
            keep = true;
            proof {
                assert(seg@ != seq!['.']);
            }
        }
        if keep {
            let ghost segv = seg@;
            comps.push(seg);
            proof {
                assert(comps@.map_values(|x: Vec<char>| x@) =~= comps0.push(segv));
                assert(comps0.push(segv) =~= comps0 + seq![segv]);
            }
        }
        proof {
            if (j as int) < n as int {
                assert(comps@.map_values(|x: Vec<char>| x@)
                    + seg_split(v@.subrange(j as int + 1, n as int))
                    =~= components_of(v@));
            } else {
                assert(seg_split(v@.subrange(n as int, n as int))
                    =~= Seq::<Seq<char>>::empty());
                assert(v@.subrange(n as int, n as int) =~= Seq::<char>::empty());
                assert(comps@.map_values(|x: Vec<char>| x@)
                    + seg_split(v@.subrange(n as int, n as int))
                    =~= components_of(v@));
            }
        }
        if j >= n {
            pos = n;
        } else {
            pos = j + 1;
        }
    }
    proof {
        assert(v@.subrange(n as int, n as int) =~= Seq::<char>::empty());
        assert(comps@.map_values(|x: Vec<char>| x@)
            =~= comps@.map_values(|x: Vec<char>| x@)
                + seg_split(v@.subrange(n as int, n as int)));
    }
    comps
}

/// Larger of two optional confidences; an earlier value wins ties.
pub open spec fn opt_max(a: Option<u64>, b: Option<u64>) -> Option<u64> {
    match (a, b) {
        (None, x) => x,
        (x, None) => x,
        (Some(x), Some(y)) => if y > x {
            Some(y)
        } else {
            Some(x)
        },
    }
}

/// The weight of the component `k` positions from the right among `n`:
/// starts at 0.9 on the rightmost and falls linearly toward 0.2.
pub open spec fn pc_weight(n: int, k: int) -> int {
    900000 - k * (700000int / n)
}

/// Best attenuated confidence of `base` over the `k` rightmost components.
pub open spec fn spec_pc_best<M: Matcher>(
    base: &M,
    comps: Seq<Seq<char>>,
    q: Seq<char>,
    k: nat,
) -> Option<u64>
    decreases k,
{
    if k == 0 || comps.len() < k {
        None
    } else {
        let prev = spec_pc_best(base, comps, q, (k - 1) as nat);
        let cur = match base.spec_matches(comps[comps.len() - k], q) {
            Some(v) => Some((v * pc_weight(comps.len() as int, k - 1) / 1000000) as u64),
            None => None,
        };
        opt_max(prev, cur)
    }
}

/// Evaluates a base matcher against every path component of the candidate,
/// attenuating by how far from the rightmost component the match sits, and
/// keeps the best result.
pub struct PathComponentMatcher<M: Matcher> {
    /// The strategy evaluated against each component.
    pub base: M,
}

impl<M: Matcher> PathComponentMatcher<M> {
    /// Wraps a base matcher.
    pub fn new(base: M) -> (r: Self)
        ensures
            r == (PathComponentMatcher { base }),
    {
        PathComponentMatcher { base }
    }
}

impl<M: Matcher> Matcher for PathComponentMatcher<M> {
    open spec fn spec_matches(&self, c: Seq<char>, q: Seq<char>) -> Option<u64> {
        spec_pc_best(&self.base, components_of(c), q, components_of(c).len())
    }

    fn matches(&self, input: &str, search: &str) -> (r: Option<u64>)
        ensures
            r == self.spec_matches(input@, search@),
            r matches Some(v) ==> v <= CONFIDENCE_UNIT,
    {
        let cv = chars_of(input);
        let comps = split_components(&cv);
        let ghost compsv = comps@.map_values(|x: Vec<char>| x@);
        let n = comps.len();
        if n == 0 {
            return None;
        }
        let step: u64 = 700000 / (n as u64);
        proof {
            vstd::arithmetic::div_mod::lemma_fundamental_div_mod(700000, n as int);
            vstd::arithmetic::div_mod::lemma_remainder_lower(700000, n as int);
        }
        let mut best: Option<u64> = None;
        let mut ri: usize = 0;
        while ri < n
            invariant
                n == comps@.len(),
                n == compsv.len(),
                n >= 1,
                compsv == comps@.map_values(|x: Vec<char>| x@),
                step as int == 700000int / (n as int),
                (n as int) * (step as int) <= 700000,
                ri <= n,
                best == spec_pc_best(&self.base, compsv, search@, ri as nat),
                best matches Some(v) ==> v <= CONFIDENCE_UNIT,
            decreases n - ri,
        {
            let idx = n - 1 - ri;
            let comp_str = crate::strutil::string_from_chars(&comps[idx]);
            let m = self.base.matches(comp_str.as_str(), search);
            proof {
                assert(compsv[idx as int] == comps@[idx as int]@);
                assert(compsv.len() - (ri + 1) == idx);
                vstd::arithmetic::mul::lemma_mul_inequality(
                    ri as int,
                    n as int - 1,
                    step as int,
                );
                assert((n as int - 1) * (step as int)
                    == (n as int) * (step as int) - step as int) by (nonlinear_arith);
            }
            let w: u64 = 900000 - (ri as u64) * step;
            match m {
                Some(v) => {
                    proof {
                        assert((v as u128) * (w as u128) == (v as int) * (w as int))
                            by (nonlinear_arith)
                            requires v <= 1000000, w <= 900000;
                        vstd::arithmetic::mul::lemma_mul_inequality(
                            v as int,
                            1000000,
                            w as int,
                        );
                        vstd::arithmetic::div_mod::lemma_div_is_ordered(
                            (v as int) * (w as int),
                            1000000 * (w as int),
                            1000000,
                        );
                        vstd::arithmetic::div_mod::lemma_div_multiples_vanish(
                            w as int,
                            1000000,
                        );
                        vstd::arithmetic::div_mod::lemma_div_pos_is_pos(
                            (v as int) * (w as int),
                            1000000,
                        );
                    }
                    let att: u64 = (((v as u128) * (w as u128)) / 1000000) as u64;
                    match best {
                        Some(b) => {
                            if att > b {
                                best = Some(att);
                            }
                        },
                        None => {
                            best = Some(att);
                        },
                    }
                },
                None => {},
            }
            ri = ri + 1;
        }
        best
    }
}

/// Lowercases both candidate and query before delegating, and attenuates
/// the result by 0.7: a case-sensitive match always outranks the
/// case-insensitive version of the same match.
pub struct CaseInsensitiveMatcher<M: Matcher> {
    /// The strategy evaluated on the lowercased pair.
    pub base: M,
}

impl<M: Matcher> CaseInsensitiveMatcher<M> {
    /// Wraps a base matcher.
    pub fn new(base: M) -> (r: Self)
        ensures
            r == (CaseInsensitiveMatcher { base }),
    {
        CaseInsensitiveMatcher { base }
    }
}

impl<M: Matcher> Matcher for CaseInsensitiveMatcher<M> {
    open spec fn spec_matches(&self, c: Seq<char>, q: Seq<char>) -> Option<u64> {
        match self.base.spec_matches(lower_of(c), lower_of(q)) {
            Some(v) => Some((v * 700000 / 1000000) as u64),
            None => None,
        }
    }

    fn matches(&self, input: &str, search: &str) -> (r: Option<u64>)
        ensures
            r == self.spec_matches(input@, search@),
            r matches Some(v) ==> v <= CONFIDENCE_UNIT,
    {
        let li = lowercase(input);
        let ls = lowercase(search);
        match self.base.matches(li.as_str(), ls.as_str()) {
            Some(v) => {
                proof {
                    assert(v as int * 700000 / 1000000 <= v as int) by (nonlinear_arith)
                        requires 0 <= v as int;
                    vstd::arithmetic::div_mod::lemma_div_pos_is_pos(
                        v as int * 700000,
                        1000000,
                    );
                    assert((v as u128) * 700000u128 == (v as int) * 700000)
                        by (nonlinear_arith)
                        requires v <= 1000000;
                }
                let att: u64 = (((v as u128) * 700000) / 1000000) as u64;
                Some(att)
            },
            None => None,
        }
    }
}

/// Best confidence over the production matcher set: exact and substring,
/// each also case-insensitively and per path component.
pub open spec fn spec_query_match(c: Seq<char>, q: Seq<char>) -> Option<u64> {
    let em = ExactMatcher {};
    let sm = SubstringMatcher {};
    let ci_em = CaseInsensitiveMatcher { base: ExactMatcher {} };
    let pc_em = PathComponentMatcher { base: ExactMatcher {} };
    let pc_sm = PathComponentMatcher { base: SubstringMatcher {} };
    let pc_ci_em = PathComponentMatcher {
        base: CaseInsensitiveMatcher { base: ExactMatcher {} },
    };
    let ci_sm = CaseInsensitiveMatcher { base: SubstringMatcher {} };
    let pc_ci_sm = PathComponentMatcher {
        base: CaseInsensitiveMatcher { base: SubstringMatcher {} },
    };
    opt_max(
        opt_max(
            opt_max(em.spec_matches(c, q), ci_em.spec_matches(c, q)),
            opt_max(pc_em.spec_matches(c, q), pc_sm.spec_matches(c, q)),
        ),
        opt_max(
            opt_max(pc_ci_em.spec_matches(c, q), sm.spec_matches(c, q)),
            opt_max(ci_sm.spec_matches(c, q), pc_ci_sm.spec_matches(c, q)),
        ),
    )
}

fn opt_max_exec(a: Option<u64>, b: Option<u64>) -> (r: Option<u64>)
    ensures
        r == opt_max(a, b),
{
    match (a, b) {
        (None, x) => x,
        (x, None) => x,
        (Some(x), Some(y)) => if y > x {
            Some(y)
        } else {
            Some(x)
        },
    }
}

/// Rates `search` against `input` with every production matcher and keeps
/// the best confidence.
pub fn query_match(input: &str, search: &str) -> (r: Option<u64>)
    ensures
        r == spec_query_match(input@, search@),
        r matches Some(v) ==> v <= CONFIDENCE_UNIT,
{
    let em = ExactMatcher {};
    let sm = SubstringMatcher {};
    let ci_em = CaseInsensitiveMatcher::new(ExactMatcher {});
    let pc_em = PathComponentMatcher::new(ExactMatcher {});
    let pc_sm = PathComponentMatcher::new(SubstringMatcher {});
    let pc_ci_em = PathComponentMatcher::new(CaseInsensitiveMatcher::new(ExactMatcher {}));
    let ci_sm = CaseInsensitiveMatcher::new(SubstringMatcher {});
    let pc_ci_sm = PathComponentMatcher::new(CaseInsensitiveMatcher::new(SubstringMatcher {}));
    let r1 = opt_max_exec(em.matches(input, search), ci_em.matches(input, search));
    let r2 = opt_max_exec(pc_em.matches(input, search), pc_sm.matches(input, search));
    let r3 = opt_max_exec(pc_ci_em.matches(input, search), sm.matches(input, search));
    let r4 = opt_max_exec(ci_sm.matches(input, search), pc_ci_sm.matches(input, search));
    opt_max_exec(opt_max_exec(r1, r2), opt_max_exec(r3, r4))
}

/// An exact match always earns at least as much confidence as a substring
/// match of the same pair: when both strategies match, exact confidence is
/// full while substring confidence never exceeds full.
pub proof fn lemma_exact_outranks_substring(c: Seq<char>, q: Seq<char>)
    ensures
        (ExactMatcher {}).spec_matches(c, q) matches Some(e)
            ==> (match (SubstringMatcher {}).spec_matches(c, q) {
                Some(s) => e >= s,
                None => true,
            }),
{
    if c == q {
        if occurs_in(c, q) {
            if c.len() > 0 {
                let base: int = if is_prefix_of(c, q) {
                    1000000
                } else {
                    800000
                };
                vstd::arithmetic::mul::lemma_mul_inequality(base, 1000000, c.len() as int);
                vstd::arithmetic::div_mod::lemma_div_is_ordered(
                    base * (q.len() as int),
                    1000000 * (c.len() as int),
                    c.len() as int,
                );
                assert(base * (c.len() as int) <= 1000000 * (c.len() as int))
                    by (nonlinear_arith)
                    requires base <= 1000000, c.len() >= 0;
                assert(1000000 * (c.len() as int) / (c.len() as int) == 1000000)
                    by (nonlinear_arith)
                    requires c.len() > 0;
            }
        }
    }
}

/// A candidate equal to the query is a full-confidence substring match:
/// the occurrence is at the start and covers everything.  (On the empty
/// pair the length ratio degenerates and the confidence is zero instead.)
pub proof fn lemma_substring_full_on_equal(c: Seq<char>, q: Seq<char>)
    requires
        c == q,
        c.len() > 0,
    ensures
        (SubstringMatcher {}).spec_matches(c, q) == Some(1000000u64),
{
    assert(c.subrange(0, q.len() as int) =~= q);
    assert(is_match_at(c, q, 0));
    assert(is_prefix_of(c, q));
    assert(1000000 * (q.len() as int) / (c.len() as int) == 1000000) by (nonlinear_arith)
        requires c.len() > 0, q.len() == c.len();
}

/// Case folding attenuates an exact match by exactly 0.7: whenever the
/// candidate equals the query, the case-insensitive exact matcher returns
/// 700000 where the exact matcher returns 1000000.
pub proof fn lemma_case_insensitive_attenuation(c: Seq<char>, q: Seq<char>)
    ensures
        c == q ==> (CaseInsensitiveMatcher { base: ExactMatcher {} }).spec_matches(c, q)
            == Some(700000u64),
        c == q ==> (ExactMatcher {}).spec_matches(c, q) == Some(1000000u64),
{
    if c == q {
        assert(lower_of(c) == lower_of(q));
    }
}

} // verus!
