//! The path-keyed frecency store: wraps the generic score store with
//! durability bookkeeping (a dirty flag and an atomically renamed snapshot),
//! diff application for manual edits, and self-healing enumeration that
//! drops paths that no longer exist on disk.

use vstd::prelude::*;

verus! {

use crate::frecency::{
    contains_key, is_normalization, key_index, sort_desc_entries, sorted_desc, spec_evict,
    spec_visited, unique_keys, view_of, view_scores, Frecency, SpecEntry,
};
use crate::matcher::{query_match, spec_query_match};
use crate::snapshot::{decode_store, encode_store, le_val, snapshot_ok, spec_snapshot};
use crate::strutil::{push_digits_u64, spec_digits, string_from_chars};
use crate::score::{spec_now_decay, MAX_NOW_SECS};
use vstd::string::StringExecFns;

/// Relies on `std::path::Path::is_dir`: whether the path currently names a
/// directory on disk.  The answer depends on the state of the filesystem,
/// so nothing can be promised of it.
#[verifier::external_body]
fn path_is_dir(p: &String) -> bool {
    std::path::Path::new(p.as_str()).is_dir()
}

/// `s` with the entry for `k` removed, if there is one.
pub open spec fn remove_key(s: Seq<SpecEntry>, k: Seq<char>) -> Seq<SpecEntry> {
    if contains_key(s, k) {
        s.remove(key_index(s, k))
    } else {
        s
    }
}

/// `s` with the entry for `k` set to `v`: updated in place when present,
/// appended otherwise.
pub open spec fn upsert(s: Seq<SpecEntry>, k: Seq<char>, v: int) -> Seq<SpecEntry> {
    if contains_key(s, k) {
        s.update(key_index(s, k), (k, v))
    } else {
        s.push((k, v))
    }
}

/// Applies the removals in order; `Err(i)` names the first removal whose
/// key is absent at its turn.
pub open spec fn spec_remove_all(s: Seq<SpecEntry>, rs: Seq<Seq<char>>) -> Result<
    Seq<SpecEntry>,
    int,
>
    decreases rs.len(),
{
    if rs.len() == 0 {
        Ok(s)
    } else if !contains_key(s, rs.first()) {
        Err(0)
    } else {
        match spec_remove_all(remove_key(s, rs.first()), rs.drop_first()) {
            Ok(t) => Ok(t),
            Err(i) => Err(i + 1),
        }
    }
}

/// Applies the additions in order, each overwriting verbatim.
pub open spec fn spec_overwrite_all(s: Seq<SpecEntry>, adds: Seq<SpecEntry>) -> Seq<SpecEntry>
    decreases adds.len(),
{
    if adds.len() == 0 {
        s
    } else {
        spec_overwrite_all(upsert(s, adds.first().0, adds.first().1), adds.drop_first())
    }
}

/// A batch of manual edits: additions overwrite verbatim, removals must
/// name existing entries.
pub struct PathFrecencyDiff {
    additions: Vec<(String, i64)>,
    removals: Vec<String>,
}

impl PathFrecencyDiff {
    /// The additions, as key/score pairs.
    pub closed spec fn additions_spec(&self) -> Seq<SpecEntry> {
        view_of(self.additions@)
    }

    /// The removals, as keys.
    pub closed spec fn removals_spec(&self) -> Seq<Seq<char>> {
        self.removals@.map_values(|p: String| p@)
    }

    /// Bundles a batch of edits.
    pub fn new(additions: Vec<(String, i64)>, removals: Vec<String>) -> (r: Self)
        ensures
            r.additions_spec() == view_of(additions@),
            r.removals_spec() == removals@.map_values(|p: String| p@),
    {
        PathFrecencyDiff { additions, removals }
    }

    /// Takes the batch apart again: the additions, then the removals.
    pub fn into_parts(self) -> (r: (Vec<(String, i64)>, Vec<String>))
        ensures
            view_of(r.0@) == self.additions_spec(),
            r.1@.map_values(|p: String| p@) == self.removals_spec(),
    {
        (self.additions, self.removals)
    }
}

/// A score store over filesystem paths, bound to the file that persists it.
#[derive(Clone)]
pub struct PathFrecency {
    frecency: Frecency,
    dirty: bool,
    path: String,
}

impl PathFrecency {
    /// The stored entries.
    pub closed spec fn entries(&self) -> Seq<SpecEntry> {
        self.frecency@
    }

    /// Whether unsaved mutations exist.
    pub closed spec fn is_dirty(&self) -> bool {
        self.dirty
    }

    /// The snapshot file this store was loaded from.
    pub closed spec fn path_spec(&self) -> Seq<char> {
        self.path@
    }

    /// The bound on the number of entries.
    pub closed spec fn max_size_spec(&self) -> int {
        self.frecency.max_size_spec()
    }

    /// Well-formed: the underlying store is.
    pub open spec fn wf(&self) -> bool {
        unique_keys(self.entries())
    }

    /// A fresh, empty store persisted at `path`, holding at most
    /// `max_size` entries.  Not dirty: saving it is a no-op.
    pub fn new_empty(path: String, max_size: usize) -> (r: Self)
        ensures
            r.wf(),
            r.entries() == Seq::<SpecEntry>::empty(),
            !r.is_dirty(),
            r.path_spec() == path@,
            r.max_size_spec() == max_size,
    {
        PathFrecency { frecency: Frecency::new(max_size), dirty: false, path }
    }

    /// Records a visit to `dir` at `now_secs` seconds since the epoch and
    /// marks the store dirty.
    pub fn visit(&mut self, dir: String, now_secs: u64)
        requires
            old(self).wf(),
            now_secs <= MAX_NOW_SECS,
        ensures
            final(self).wf(),
            final(self).entries() == spec_evict(
                spec_visited(old(self).entries(), dir@, spec_now_decay(now_secs as int)),
                old(self).max_size_spec(),
            ),
            final(self).entries().len() <= old(self).max_size_spec(),
            final(self).is_dirty(),
            final(self).path_spec() == old(self).path_spec(),
            final(self).max_size_spec() == old(self).max_size_spec(),
    {
        self.frecency.visit_with_time(dir, now_secs);
        self.dirty = true;
    }

    /// If `base_path` joined with `relative_path` names a directory on
    /// disk, remembers it (without counting a visit if it is already
    /// known) and reports true; otherwise changes nothing.
    pub fn maybe_add_relative_to(
        &mut self,
        base_path: String,
        relative_path: &str,
        now_secs: u64,
    ) -> (r: bool)
        requires
            old(self).wf(),
            now_secs <= MAX_NOW_SECS,
        ensures
            final(self).wf(),
            final(self).path_spec() == old(self).path_spec(),
            final(self).max_size_spec() == old(self).max_size_spec(),
            r ==> {
                let joined = spec_join(base_path@, relative_path@);
                &&& (contains_key(old(self).entries(), joined)
                    ==> final(self).entries() == old(self).entries())
                &&& (!contains_key(old(self).entries(), joined)
                    ==> final(self).entries() == spec_evict(
                        spec_visited(
                            old(self).entries(),
                            joined,
                            spec_now_decay(now_secs as int),
                        ),
                        old(self).max_size_spec(),
                    ))
                &&& final(self).is_dirty()
            },
            !r ==> final(self).entries() == old(self).entries()
                && final(self).is_dirty() == old(self).is_dirty(),
    {
        let joined = join_path(&base_path, relative_path);
        if path_is_dir(&joined) {
            self.frecency.insert_with_time(joined, now_secs);
            self.dirty = true;
            true
        } else {
            false
        }
    }

    /// If `path` no longer names a directory on disk, drops it from the
    /// store (a no-op if it was not stored), marks the store dirty, and
    /// reports true; a live directory is left untouched.
    pub fn trim(&mut self, path: &String) -> (r: bool)
        requires
            old(self).wf(),
        ensures
            final(self).wf(),
            final(self).path_spec() == old(self).path_spec(),
            final(self).max_size_spec() == old(self).max_size_spec(),
            r ==> final(self).entries() == remove_key(old(self).entries(), path@)
                && final(self).is_dirty(),
            !r ==> final(self).entries() == old(self).entries()
                && final(self).is_dirty() == old(self).is_dirty(),
    {
        if path_is_dir(path) {
            false
        } else {
            self.frecency.remove(path);
            self.dirty = true;
            true
        }
    }

    /// Applies a manual-edit diff: every removal must name a stored entry,
    /// else the whole application fails before anything is changed; then
    /// every addition overwrites verbatim.
    pub fn apply_diff(&mut self, diff: PathFrecencyDiff) -> (r: Result<(), String>)
        requires
            old(self).wf(),
        ensures
            final(self).wf(),
            final(self).path_spec() == old(self).path_spec(),
            final(self).max_size_spec() == old(self).max_size_spec(),
            r is Ok ==> {
                &&& spec_remove_all(old(self).entries(), diff.removals_spec()) is Ok
                &&& final(self).entries() == spec_overwrite_all(
                    spec_remove_all(old(self).entries(), diff.removals_spec())->Ok_0,
                    diff.additions_spec(),
                )
                &&& final(self).is_dirty() == (old(self).is_dirty()
                    || diff.removals_spec().len() > 0
                    || diff.additions_spec().len() > 0)
            },
            r is Err ==> {
                &&& spec_remove_all(old(self).entries(), diff.removals_spec()) is Err
                &&& {
                    let i = spec_remove_all(
                        old(self).entries(),
                        diff.removals_spec(),
                    )->Err_0;
                    r->Err_0@ == "no such item to remove: "@ + diff.removals_spec()[i]
                }
                &&& final(self).entries() == old(self).entries()
                &&& final(self).is_dirty() == old(self).is_dirty()
            },
    {
        let ghost s0 = self.frecency@;
        let ghost rsv = diff.removals_spec();
        let mut scratch = self.frecency.duplicate();
        proof {
            assert(rsv.skip(0) =~= rsv);
        }
        let mut i: usize = 0;
        while i < diff.removals.len()
            invariant
                *self == *old(self),
                old(self).wf(),
                s0 == old(self).entries(),
                scratch.wf(),
                scratch.max_size_spec() == self.frecency.max_size_spec(),
                i <= diff.removals@.len(),
                rsv == diff.removals@.map_values(|p: String| p@),
                rsv.len() == diff.removals@.len(),
                spec_remove_all(s0, rsv) == (match spec_remove_all(scratch@, rsv.skip(i as int)) {
                    Ok(t) => Ok::<Seq<SpecEntry>, int>(t),
                    Err(j) => Err::<Seq<SpecEntry>, int>(j + i),
                }),
            decreases diff.removals@.len() - i,
        {
            proof {
                assert(rsv.skip(i as int).first() == rsv[i as int]);
                assert(rsv.skip(i as int).drop_first() =~= rsv.skip(i as int + 1));
            }
            match scratch.remove(&diff.removals[i]) {
                Some(_) => {},
                None => {
                    proof {
                        assert(rsv[i as int] == diff.removals@[i as int]@);
                        assert(spec_remove_all(scratch@, rsv.skip(i as int))
                            == Err::<Seq<SpecEntry>, int>(0));
                        assert(spec_remove_all(s0, rsv) == Err::<Seq<SpecEntry>, int>(i as int));
                    }
                    let msg = "no such item to remove: ".to_owned().concat(
                        diff.removals[i].as_str(),
                    );
                    return Err(msg);
                },
            }
            i = i + 1;
        }
        proof {
            assert(rsv.skip(rsv.len() as int) =~= Seq::<Seq<char>>::empty());
        }
        let ghost removed = scratch@;
        let ghost adsv = diff.additions_spec();
        let mut j: usize = 0;
        let additions = diff.additions;
        proof {
            assert(adsv.skip(0) =~= adsv);
        }
        while j < additions.len()
            invariant
                *self == *old(self),
                old(self).wf(),
                scratch.wf(),
                scratch.max_size_spec() == self.frecency.max_size_spec(),
                j <= additions@.len(),
                adsv == view_of(additions@),
                adsv.len() == additions@.len(),
                spec_overwrite_all(removed, adsv) == spec_overwrite_all(
                    scratch@,
                    adsv.skip(j as int),
                ),
            decreases additions@.len() - j,
        {
            proof {
                assert(adsv.skip(j as int).first() == adsv[j as int]);
                assert(adsv.skip(j as int).drop_first() =~= adsv.skip(j as int + 1));
            }
            scratch.overwrite(additions[j].0.clone(), additions[j].1);
            j = j + 1;
        }
        proof {
            assert(adsv.skip(adsv.len() as int) =~= Seq::<SpecEntry>::empty());
        }
        self.frecency = scratch;
        if diff.removals.len() > 0 || additions.len() > 0 {
            self.dirty = true;
        }
        Ok(())
    }
}

/// How a match confidence and a normalized frecency combine into one
/// ranking score: four parts match to one part frecency.
pub open spec fn spec_combined(m: u64, f: int) -> int {
    (8 * m + 2 * f) / 10
}

/// The ranking cutoff: a combined score at or below a quarter of full
/// confidence is too weak to be useful.
pub const RANK_CUTOFF: u64 = 250000;

/// The scored candidates a query keeps, in store order: every entry whose
/// best matcher confidence, combined with its normalized frecency, clears
/// the cutoff, paired with that combined score.
pub open spec fn spec_scored(normd: Seq<SpecEntry>, q: Seq<char>) -> Seq<SpecEntry>
    decreases normd.len(),
{
    if normd.len() == 0 {
        Seq::empty()
    } else {
        let rest = spec_scored(normd.drop_last(), q);
        match spec_query_match(normd.last().0, q) {
            Some(m) => {
                let comb = spec_combined(m, normd.last().1);
                if comb > RANK_CUTOFF {
                    rest.push((normd.last().0, comb))
                } else {
                    rest
                }
            },
            None => rest,
        }
    }
}

/// `out` ranks `entries` for `q`: an empty query yields all entries by
/// descending normalized frecency; otherwise the cutoff-clearing scored
/// candidates, sorted by descending combined score (ties unordered).
pub open spec fn is_ranking(entries: Seq<SpecEntry>, q: Seq<char>, out: Seq<SpecEntry>) -> bool {
    exists|normd: Seq<SpecEntry>|
        {
            &&& is_normalization(entries, normd)
            &&& if q.len() == 0 {
                out == normd
            } else {
                out.to_multiset() == spec_scored(normd, q).to_multiset() && sorted_desc(out)
            }
        }
}

/// Every scored candidate clears the cutoff.
pub proof fn lemma_scored_bounds(normd: Seq<SpecEntry>, q: Seq<char>)
    ensures
        forall|e: SpecEntry| #[trigger] spec_scored(normd, q).contains(e) ==> e.1 > RANK_CUTOFF,
    decreases normd.len(),
{
    if normd.len() > 0 {
        let d = normd.drop_last();
        lemma_scored_bounds(d, q);
        let s = spec_scored(normd, q);
        let rest = spec_scored(d, q);
        assert forall|e: SpecEntry| #[trigger] s.contains(e) implies e.1 > RANK_CUTOFF by {
            let i = choose|i: int| 0 <= i < s.len() && s[i] == e;
            match spec_query_match(normd.last().0, q) {
                Some(m) => {
                    let comb = spec_combined(m, normd.last().1);
                    if comb > RANK_CUTOFF {
                        if i < rest.len() {
                            assert(rest.contains(e));
                        } else {
                            assert(e == (normd.last().0, comb));
                        }
                    } else {
                        assert(rest.contains(e));
                    }
                },
                None => {
                    assert(rest.contains(e));
                },
            }
        }
    }
}

/// A path whose combined score clears the cutoff appears among the scored
/// candidates with exactly that score.
pub proof fn lemma_cutoff_present(normd: Seq<SpecEntry>, q: Seq<char>, i: int)
    requires
        0 <= i < normd.len(),
        spec_query_match(normd[i].0, q) is Some,
        spec_combined(spec_query_match(normd[i].0, q)->0, normd[i].1) > RANK_CUTOFF,
    ensures
        spec_scored(normd, q).contains(
            (normd[i].0, spec_combined(spec_query_match(normd[i].0, q)->0, normd[i].1)),
        ),
    decreases normd.len(),
{
    let d = normd.drop_last();
    let rest = spec_scored(d, q);
    let s = spec_scored(normd, q);
    if i == normd.len() - 1 {
        match spec_query_match(normd.last().0, q) {
            Some(m) => {
                let comb = spec_combined(m, normd.last().1);
                assert(s[s.len() - 1] == (normd[i].0, comb));
            },
            None => {},
        }
    } else {
        assert(d[i] == normd[i]);
        lemma_cutoff_present(d, q, i);
        let e = (normd[i].0, spec_combined(spec_query_match(normd[i].0, q)->0, normd[i].1));
        let w = choose|w: int| 0 <= w < rest.len() && rest[w] == e;
        match spec_query_match(normd.last().0, q) {
            Some(m) => {
                let comb = spec_combined(m, normd.last().1);
                if comb > RANK_CUTOFF {
                    assert(s[w] == e);
                } else {
                    assert(s[w] == e);
                }
            },
            None => {
                assert(s[w] == e);
            },
        }
    }
}

/// A path whose best combined score sits at or below the cutoff (or that
/// no matcher matches) contributes nothing: no scored candidate carries
/// its key.
pub proof fn lemma_cutoff_absent(normd: Seq<SpecEntry>, q: Seq<char>, i: int)
    requires
        0 <= i < normd.len(),
        forall|a: int, b: int| 0 <= a < b < normd.len() ==> normd[a].0 != normd[b].0,
        match spec_query_match(normd[i].0, q) {
            Some(m) => spec_combined(m, normd[i].1) <= RANK_CUTOFF,
            None => true,
        },
    ensures
        forall|e: SpecEntry| #[trigger] spec_scored(normd, q).contains(e) ==> e.0 != normd[i].0,
    decreases normd.len(),
{
    let d = normd.drop_last();
    let rest = spec_scored(d, q);
    let s = spec_scored(normd, q);
    assert forall|e: SpecEntry| #[trigger] s.contains(e) implies e.0 != normd[i].0 by {
        let w = choose|w: int| 0 <= w < s.len() && s[w] == e;
        if i < normd.len() - 1 {
            assert forall|a: int, b: int| 0 <= a < b < d.len() implies d[a].0 != d[b].0 by {
                assert(d[a] == normd[a] && d[b] == normd[b]);
            }
            assert(d[i] == normd[i]);
            lemma_cutoff_absent(d, q, i);
            match spec_query_match(normd.last().0, q) {
                Some(m) => {
                    let comb = spec_combined(m, normd.last().1);
                    if comb > RANK_CUTOFF && w == s.len() - 1 {
                        assert(e == (normd.last().0, comb));
                        assert(normd.last().0 != normd[i].0);
                    } else {
                        assert(rest.contains(e));
                    }
                },
                None => {
                    assert(rest.contains(e));
                },
            }
        } else {
            match spec_query_match(normd.last().0, q) {
                Some(m) => {
                    assert(rest.contains(e));
                },
                None => {
                    assert(rest.contains(e));
                },
            }
            let wr = choose|wr: int| 0 <= wr < rest.len() && rest[wr] == e;
            lemma_scored_member_key(d, q, e);
            let src = choose|src: int| 0 <= src < d.len() && d[src].0 == e.0;
            assert(normd[src] == d[src]);
        }
    }
}

/// Every scored candidate's key comes from some entry.
proof fn lemma_scored_member_key(normd: Seq<SpecEntry>, q: Seq<char>, e: SpecEntry)
    requires
        spec_scored(normd, q).contains(e),
    ensures
        exists|i: int| 0 <= i < normd.len() && normd[i].0 == e.0,
    decreases normd.len(),
{
    let d = normd.drop_last();
    let rest = spec_scored(d, q);
    let s = spec_scored(normd, q);
    let w = choose|w: int| 0 <= w < s.len() && s[w] == e;
    match spec_query_match(normd.last().0, q) {
        Some(m) => {
            let comb = spec_combined(m, normd.last().1);
            if comb > RANK_CUTOFF && w == s.len() - 1 {
                assert(normd[normd.len() - 1].0 == e.0);
            } else {
                assert(rest.contains(e));
                lemma_scored_member_key(d, q, e);
                let i = choose|i: int| 0 <= i < d.len() && d[i].0 == e.0;
                assert(normd[i].0 == e.0);
            }
        },
        None => {
            assert(rest.contains(e));
            lemma_scored_member_key(d, q, e);
            let i = choose|i: int| 0 <= i < d.len() && d[i].0 == e.0;
            assert(normd[i].0 == e.0);
        },
    }
}

/// `base` joined with `rel` as paths: `rel` alone when absolute, else the
/// two with exactly one slash between them.
pub open spec fn spec_join(base: Seq<char>, rel: Seq<char>) -> Seq<char> {
    if rel.len() > 0 && rel[0] == '/' {
        rel
    } else if base.len() > 0 && base.last() == '/' {
        base + rel
    } else {
        base + seq!['/'] + rel
    }
}

fn join_path(base: &String, rel: &str) -> (r: String)
    ensures
        r@ == spec_join(base@, rel@),
{
    let rv = crate::strutil::chars_of(rel);
    let bv = crate::strutil::chars_of(base.as_str());
    if rv.len() > 0 && rv[0] == '/' {
        return crate::strutil::string_from_chars(&rv);
    }
    let mut out = bv;
    if out.len() == 0 || out[out.len() - 1] != '/' {
        out.push('/');
    }
    let mut k: usize = 0;
    while k < rv.len()
        invariant
            k <= rv@.len(),
            out@ == (if base@.len() > 0 && base@.last() == '/' {
                base@ + rv@.subrange(0, k as int)
            } else {
                base@ + seq!['/'] + rv@.subrange(0, k as int)
            }),
        decreases rv@.len() - k,
    {
        out.push(rv[k]);
        proof {
            assert(rv@.subrange(0, k as int + 1)
                =~= rv@.subrange(0, k as int).push(rv@[k as int]));
            if base@.len() > 0 && base@.last() == '/' {
                assert(out@ =~= base@ + rv@.subrange(0, k as int + 1));
            } else {
                assert(out@ =~= base@ + seq!['/'] + rv@.subrange(0, k as int + 1));
            }
        }
        k = k + 1;
    }
    proof {
        assert(rv@.subrange(0, rv@.len() as int) =~= rv@);
        if base@.len() > 0 && base@.last() == '/' {
            assert(out@ =~= base@ + rv@);
        } else {
            assert(out@ =~= base@ + seq!['/'] + rv@);
        }
    }
    crate::strutil::string_from_chars(&out)
}

/// Keeps, of each position, the marked items in order.
pub open spec fn spec_live_filter(items: Seq<SpecEntry>, alive: Seq<bool>) -> Seq<SpecEntry>
    decreases items.len(),
{
    if items.len() == 0 {
        Seq::empty()
    } else {
        let rest = spec_live_filter(items.drop_last(), alive.drop_last());
        if alive.len() == items.len() && alive.last() {
            rest.push(items.last())
        } else {
            rest
        }
    }
}

/// Removes from `store`, in order, the key of every item not marked alive.
pub open spec fn spec_prune(
    store: Seq<SpecEntry>,
    items: Seq<SpecEntry>,
    alive: Seq<bool>,
) -> Seq<SpecEntry>
    decreases items.len(),
{
    if items.len() == 0 {
        store
    } else {
        let pre = spec_prune(store, items.drop_last(), alive.drop_last());
        if alive.len() == items.len() && !alive.last() {
            remove_key(pre, items.last().0)
        } else {
            pre
        }
    }
}

impl PathFrecency {
    /// Ranks the stored paths for a query without touching the disk: the
    /// pure ranking step of the matching pipeline (see [`is_ranking`]).
    pub fn ranked_candidates(&self, filter: &str) -> (r: Vec<(String, u64)>)
        ensures
            is_ranking(self.entries(), filter@, view_scores(r@)),
            filter@.len() > 0 ==> forall|i: int|
                0 <= i < r@.len() ==> #[trigger] r@[i].1 > RANK_CUTOFF,
    {
        let items = self.frecency.items();
        let normd = items.normalized();
        let ghost normdv = view_scores(normd@);
        if filter.unicode_len() == 0 {
            return normd;
        }
        let mut scored: Vec<(String, i64)> = Vec::new();
        let mut i: usize = 0;
        proof {
            assert(normdv.take(0) =~= Seq::<SpecEntry>::empty());
            assert(view_of(scored@) =~= spec_scored(normdv.take(0), filter@));
        }
        while i < normd.len()
            invariant
                i <= normd@.len(),
                normdv == view_scores(normd@),
                normdv.len() == normd@.len(),
                view_of(scored@) == spec_scored(normdv.take(i as int), filter@),
                forall|j: int| 0 <= j < normd@.len() ==> #[trigger] normd@[j].1 <= 1000000,
            decreases normd@.len() - i,
        {
            let ghost pre = view_of(scored@);
            proof {
                assert(normdv.take(i as int + 1).drop_last() =~= normdv.take(i as int));
                assert(normdv.take(i as int + 1).last() == normdv[i as int]);
                assert(normdv[i as int] == (normd@[i as int].0@, normd@[i as int].1 as int));
            }
            match query_match(normd[i].0.as_str(), filter) {
                Some(m) => {
                    let f = normd[i].1;
                    let comb: u64 = (8 * m + 2 * f) / 10;
                    proof {
                        assert(comb as int == spec_combined(m, f as int));
                    }
                    if comb > 250000 {
                        scored.push((normd[i].0.clone(), comb as i64));
                        proof {
                            assert(view_of(scored@) =~= pre.push(
                                (normd@[i as int].0@, comb as int),
                            ));
                        }
                    }
                },
                None => {},
            }
            i = i + 1;
        }
        proof {
            assert(normdv.take(normdv.len() as int) =~= normdv);
        }
        let sorted = sort_desc_entries(scored);
        let ghost sortedv = view_of(sorted@);
        let mut out: Vec<(String, u64)> = Vec::new();
        let mut k: usize = 0;
        proof {
            lemma_scored_bounds(normdv, filter@);
            vstd::seq_lib::to_multiset_len(sortedv);
            vstd::seq_lib::to_multiset_len(spec_scored(normdv, filter@));
        }
        while k < sorted.len()
            invariant
                k <= sorted@.len(),
                sortedv == view_of(sorted@),
                sortedv.len() == sorted@.len(),
                sortedv.to_multiset() == spec_scored(normdv, filter@).to_multiset(),
                forall|e: SpecEntry| #[trigger] spec_scored(normdv, filter@).contains(e)
                    ==> e.1 > RANK_CUTOFF,
                out@.len() == k,
                forall|j: int| 0 <= j < k ==> #[trigger] view_scores(out@)[j] == sortedv[j],
                forall|j: int| 0 <= j < k ==> #[trigger] out@[j].1 > RANK_CUTOFF,
            decreases sorted@.len() - k,
        {
            proof {
                assert(sortedv[k as int] == (sorted@[k as int].0@, sorted@[k as int].1 as int));
                vstd::seq_lib::to_multiset_contains(sortedv, sortedv[k as int]);
                vstd::seq_lib::to_multiset_contains(
                    spec_scored(normdv, filter@),
                    sortedv[k as int],
                );
                assert(sortedv.contains(sortedv[k as int]));
                assert(spec_scored(normdv, filter@).contains(sortedv[k as int]));
                assert(sorted@[k as int].1 > RANK_CUTOFF as int);
            }
            let sc: i64 = sorted[k].1;
            let ghost pre = out@;
            out.push((sorted[k].0.clone(), sc as u64));
            proof {
                assert forall|j: int| 0 <= j < out@.len()
                    implies #[trigger] view_scores(out@)[j] == sortedv[j] by {
                    if j < pre.len() {
                        assert(out@[j] == pre[j]);
                        assert(view_scores(pre)[j] == sortedv[j]);
                    } else {
                        assert(out@[j].0 == sorted@[k as int].0);
                        assert(out@[j].1 as int == sorted@[k as int].1 as int);
                    }
                }
            }
            k = k + 1;
        }
        proof {
            assert(view_scores(out@) =~= sortedv);
            assert(is_ranking(self.entries(), filter@, view_scores(out@)));
        }
        out
    }

    /// Drops from the candidate list — and from the store — every path
    /// that no longer names a directory on disk, keeping the survivors in
    /// order.  Enumeration is therefore not read-only: it self-heals the
    /// store.
    fn retain_live(&mut self, ranked: Vec<(String, u64)>) -> (r: Vec<(String, u64)>)
        requires
            old(self).wf(),
        ensures
            final(self).wf(),
            final(self).path_spec() == old(self).path_spec(),
            final(self).max_size_spec() == old(self).max_size_spec(),
            exists|alive: Seq<bool>|
                {
                    &&& alive.len() == ranked@.len()
                    &&& view_scores(r@) == spec_live_filter(view_scores(ranked@), alive)
                    &&& final(self).entries() == spec_prune(
                        old(self).entries(),
                        view_scores(ranked@),
                        alive,
                    )
                    &&& final(self).is_dirty() == (old(self).is_dirty() || exists|j: int|
                        0 <= j < alive.len() && !alive[j])
                },
    {
        let ghost rankedv = view_scores(ranked@);
        let mut out: Vec<(String, u64)> = Vec::new();
        let ghost mut alive: Seq<bool> = Seq::empty();
        let mut i: usize = 0;
        proof {
            assert(rankedv.take(0) =~= Seq::<SpecEntry>::empty());
            assert(view_scores(out@) =~= spec_live_filter(rankedv.take(0), alive));
        }
        while i < ranked.len()
            invariant
                old(self).wf(),
                self.wf(),
                self.path_spec() == old(self).path_spec(),
                self.max_size_spec() == old(self).max_size_spec(),
                i <= ranked@.len(),
                rankedv == view_scores(ranked@),
                rankedv.len() == ranked@.len(),
                alive.len() == i,
                view_scores(out@) == spec_live_filter(rankedv.take(i as int), alive),
                self.entries() == spec_prune(old(self).entries(), rankedv.take(i as int), alive),
                self.is_dirty() == (old(self).is_dirty() || exists|j: int|
                    0 <= j < alive.len() && !alive[j]),
            decreases ranked@.len() - i,
        {
            let ghost pre_out = view_scores(out@);
            let ghost pre_alive = alive;
            proof {
                assert(rankedv.take(i as int + 1).drop_last() =~= rankedv.take(i as int));
                assert(rankedv.take(i as int + 1).last() == rankedv[i as int]);
                assert(rankedv[i as int] == (ranked@[i as int].0@, ranked@[i as int].1 as int));
            }
            let trimmed = self.trim(&ranked[i].0);
            proof {
                alive = alive.push(!trimmed);
                assert(alive.drop_last() =~= pre_alive);
                assert(alive.last() == !trimmed);
            }
            if !trimmed {
                out.push((ranked[i].0.clone(), ranked[i].1));
                proof {
                    assert(view_scores(out@) =~= pre_out.push(rankedv[i as int]));
                }
            }
            i = i + 1;
        }
        proof {
            assert(rankedv.take(rankedv.len() as int) =~= rankedv);
        }
        out
    }

    /// All live stored paths with their normalized frecency, best first.
    /// Dead paths encountered along the way are pruned from the store.
    pub fn items_with_frecency(&mut self) -> (r: Vec<(String, u64)>)
        requires
            old(self).wf(),
        ensures
            final(self).wf(),
            final(self).path_spec() == old(self).path_spec(),
            final(self).max_size_spec() == old(self).max_size_spec(),
            exists|ranked: Seq<SpecEntry>, alive: Seq<bool>|
                {
                    &&& is_ranking(old(self).entries(), Seq::<char>::empty(), ranked)
                    &&& alive.len() == ranked.len()
                    &&& view_scores(r@) == spec_live_filter(ranked, alive)
                    &&& final(self).entries() == spec_prune(old(self).entries(), ranked, alive)
                    &&& final(self).is_dirty() == (old(self).is_dirty() || exists|j: int|
                        0 <= j < alive.len() && !alive[j])
                },
    {
        let ranked = self.ranked_candidates("");
        proof {
            reveal_strlit("");
            assert(""@ =~= Seq::<char>::empty());
        }
        self.retain_live(ranked)
    }

    /// The live stored paths that match `filter`, ranked by combined
    /// match confidence and frecency, best first.  Dead paths encountered
    /// along the way are pruned from the store.
    pub fn directory_matches(&mut self, filter: &str) -> (r: Vec<(String, u64)>)
        requires
            old(self).wf(),
        ensures
            final(self).wf(),
            final(self).path_spec() == old(self).path_spec(),
            final(self).max_size_spec() == old(self).max_size_spec(),
            exists|ranked: Seq<SpecEntry>, alive: Seq<bool>|
                {
                    &&& is_ranking(old(self).entries(), filter@, ranked)
                    &&& alive.len() == ranked.len()
                    &&& view_scores(r@) == spec_live_filter(ranked, alive)
                    &&& final(self).entries() == spec_prune(old(self).entries(), ranked, alive)
                    &&& final(self).is_dirty() == (old(self).is_dirty() || exists|j: int|
                        0 <= j < alive.len() && !alive[j])
                },
    {
        let ranked = self.ranked_candidates(filter);
        self.retain_live(ranked)
    }
}

/// Index of the last `/` in `s`, or -1 if there is none.
pub open spec fn last_slash_idx(s: Seq<char>) -> int
    decreases s.len(),
{
    if s.len() == 0 {
        -1
    } else if s.last() == '/' {
        s.len() - 1
    } else {
        last_slash_idx(s.drop_last())
    }
}

/// The sibling temp file a save writes before the atomic rename: the
/// store's directory, then a dot, the file's name, a dot, and the pid.
pub open spec fn spec_tmp_path(path: Seq<char>, pid: int) -> Seq<char> {
    let cut = last_slash_idx(path) + 1;
    path.take(cut) + seq!['.'] + path.skip(cut) + seq!['.'] + spec_digits(pid)
}

/// Everything the caller needs to persist a dirty store: write `bytes` to
/// `tmp_path`, then atomically rename `tmp_path` over `target_path`.
pub struct SavePlan {
    /// Sibling temp file to write first.
    pub tmp_path: String,
    /// The snapshot file to rename over.
    pub target_path: String,
    /// The snapshot image.
    pub bytes: Vec<u8>,
}

proof fn lemma_last_slash_idx_range(s: Seq<char>)
    ensures
        -1 <= last_slash_idx(s) < s.len(),
        last_slash_idx(s) >= 0 ==> s[last_slash_idx(s)] == '/',
        forall|j: int| last_slash_idx(s) < j < s.len() ==> s[j] != '/',
    decreases s.len(),
{
    if s.len() > 0 && s.last() != '/' {
        lemma_last_slash_idx_range(s.drop_last());
        assert forall|j: int| last_slash_idx(s) < j < s.len() implies s[j] != '/' by {
            if j < s.len() - 1 {
                assert(s.drop_last()[j] == s[j]);
            }
        }
        if last_slash_idx(s) >= 0 {
            assert(s.drop_last()[last_slash_idx(s)] == s[last_slash_idx(s)]);
        }
    }
}

impl PathFrecency {
    /// The snapshot image of the current store.  The side facts let a
    /// caller apply the codec's round-trip lemma to these bytes.
    pub fn snapshot_bytes(&self) -> (r: Vec<u8>)
        ensures
            r@ == spec_snapshot(self.entries(), self.max_size_spec()),
            crate::snapshot::entries_valid(self.entries()),
            self.entries().len() < 18446744073709551616,
            0 <= self.max_size_spec() < 18446744073709551616,
    {
        encode_store(&self.frecency)
    }

    /// Rebuilds a store from the bytes of its snapshot file.  An empty
    /// file starts a fresh store remembering at most 1000 paths; anything
    /// else must be a well-formed snapshot image, and the returned store
    /// is exactly the one that wrote it.
    pub fn load_from_bytes(path: String, bytes: &Vec<u8>) -> (r: Result<PathFrecency, String>)
        ensures
            match r {
                Ok(st) => {
                    &&& st.wf()
                    &&& !st.is_dirty()
                    &&& st.path_spec() == path@
                    &&& if bytes@.len() == 0 {
                        st.entries() == Seq::<SpecEntry>::empty() && st.max_size_spec() == 1000
                    } else {
                        &&& snapshot_ok(bytes@)
                        &&& 0 <= st.max_size_spec() < 18446744073709551616
                        &&& exists|de: Seq<SpecEntry>|
                            {
                                &&& bytes@ == spec_snapshot(de, st.max_size_spec())
                                &&& st.entries() == spec_overwrite_all(
                                    Seq::<SpecEntry>::empty(),
                                    de,
                                )
                                &&& crate::snapshot::entries_valid(de)
                                &&& de.len() < 18446744073709551616
                            }
                    }
                },
                Err(_) => bytes@.len() != 0 && !snapshot_ok(bytes@),
            },
    {
        if bytes.len() == 0 {
            return Ok(PathFrecency::new_empty(path, 1000));
        }
        match decode_store(bytes) {
            Ok(frecency) => Ok(PathFrecency { frecency, dirty: false, path }),
            Err(e) => Err(e),
        }
    }

    /// What a save must do, if anything: `Ok(None)` exactly when the store
    /// is clean (no write happens and the file stays untouched), else a
    /// plan naming a pid-suffixed sibling temp file and carrying the
    /// snapshot image.  Fails only when the store's path has no final
    /// name component.
    pub fn save_plan(&self, pid: u32) -> (r: Result<Option<SavePlan>, String>)
        ensures
            match r {
                Ok(plan) => {
                    &&& plan is None <==> !self.is_dirty()
                    &&& match plan {
                        Some(p) => {
                            &&& p.target_path@ == self.path_spec()
                            &&& p.tmp_path@ == spec_tmp_path(self.path_spec(), pid as int)
                            &&& p.bytes@ == spec_snapshot(self.entries(), self.max_size_spec())
                            &&& crate::snapshot::entries_valid(self.entries())
                            &&& self.entries().len() < 18446744073709551616
                            &&& 0 <= self.max_size_spec() < 18446744073709551616
                        },
                        None => true,
                    }
                },
                Err(_) => self.is_dirty() && last_slash_idx(self.path_spec()) + 1
                    == self.path_spec().len(),
            },
    {
        if !self.dirty {
            return Ok(None);
        }
        let pv = crate::strutil::chars_of(self.path.as_str());
        proof {
            lemma_last_slash_idx_range(pv@);
        }
        let mut cut: usize = 0;
        let mut i: usize = 0;
        proof {
            assert(pv@.take(0) =~= Seq::<char>::empty());
        }
        while i < pv.len()
            invariant
                i <= pv@.len(),
                cut <= i,
                cut as int == last_slash_idx(pv@.take(i as int)) + 1,
            decreases pv@.len() - i,
        {
            proof {
                assert(pv@.take(i as int + 1).drop_last() =~= pv@.take(i as int));
                assert(pv@.take(i as int + 1).last() == pv@[i as int]);
            }
            if pv[i] == '/' {
                cut = i + 1;
            }
            i = i + 1;
        }
        proof {
            assert(pv@.take(pv@.len() as int) =~= pv@);
        }
        if cut == pv.len() {
            return Err("path did not have file component".to_owned());
        }
        let mut tv: Vec<char> = Vec::new();
        let mut k: usize = 0;
        while k < cut
            invariant
                cut <= pv@.len(),
                k <= cut,
                tv@ == pv@.take(cut as int).take(k as int),
            decreases cut - k,
        {
            tv.push(pv[k]);
            proof {
                assert(pv@.take(cut as int).take(k as int + 1) =~= tv@);
            }
            k = k + 1;
        }
        proof {
            assert(pv@.take(cut as int).take(cut as int) =~= pv@.take(cut as int));
        }
        tv.push('.');
        let ghost mid0 = pv@.take(cut as int) + seq!['.'];
        proof {
            assert(tv@ =~= mid0);
        }
        let mut k2: usize = cut;
        while k2 < pv.len()
            invariant
                cut <= k2 <= pv@.len(),
                tv@ == mid0 + pv@.skip(cut as int).take(k2 as int - cut as int),
            decreases pv@.len() - k2,
        {
            tv.push(pv[k2]);
            proof {
                assert(pv@.skip(cut as int).take(k2 as int + 1 - cut as int)
                    =~= pv@.skip(cut as int).take(k2 as int - cut as int).push(pv@[k2 as int]));
                assert(tv@ =~= mid0 + pv@.skip(cut as int).take(k2 as int + 1 - cut as int));
            }
            k2 = k2 + 1;
        }
        proof {
            assert(pv@.skip(cut as int).take(pv@.len() as int - cut as int)
                =~= pv@.skip(cut as int));
        }
        tv.push('.');
        let ghost mid1 = mid0 + pv@.skip(cut as int) + seq!['.'];
        proof {
            assert(tv@ =~= mid1);
        }
        push_digits_u64(pid as u64, &mut tv);
        proof {
            assert(tv@ =~= spec_tmp_path(pv@, pid as int));
        }
        let tmp_path = string_from_chars(&tv);
        let bytes = encode_store(&self.frecency);
        Ok(Some(SavePlan { tmp_path, target_path: self.path.clone(), bytes }))
    }
}

/// The entries some production matcher accepts for `q`, raw scores kept,
/// in store order.
pub open spec fn spec_raw_filter(entries: Seq<SpecEntry>, q: Seq<char>) -> Seq<SpecEntry>
    decreases entries.len(),
{
    if entries.len() == 0 {
        Seq::empty()
    } else {
        let rest = spec_raw_filter(entries.drop_last(), q);
        if spec_query_match(entries.last().0, q) is Some {
            rest.push(entries.last())
        } else {
            rest
        }
    }
}

impl PathFrecency {
    /// Drops from a raw candidate list — and from the store — every path
    /// that no longer names a directory on disk, keeping the survivors in
    /// order.
    fn retain_live_raw(&mut self, ranked: Vec<(String, i64)>) -> (r: Vec<(String, i64)>)
        requires
            old(self).wf(),
        ensures
            final(self).wf(),
            final(self).path_spec() == old(self).path_spec(),
            final(self).max_size_spec() == old(self).max_size_spec(),
            exists|alive: Seq<bool>|
                {
                    &&& alive.len() == ranked@.len()
                    &&& view_of(r@) == spec_live_filter(view_of(ranked@), alive)
                    &&& final(self).entries() == spec_prune(
                        old(self).entries(),
                        view_of(ranked@),
                        alive,
                    )
                    &&& final(self).is_dirty() == (old(self).is_dirty() || exists|j: int|
                        0 <= j < alive.len() && !alive[j])
                },
    {
        let ghost rankedv = view_of(ranked@);
        let mut out: Vec<(String, i64)> = Vec::new();
        let ghost mut alive: Seq<bool> = Seq::empty();
        let mut i: usize = 0;
        proof {
            assert(rankedv.take(0) =~= Seq::<SpecEntry>::empty());
            assert(view_of(out@) =~= spec_live_filter(rankedv.take(0), alive));
        }
        while i < ranked.len()
            invariant
                old(self).wf(),
                self.wf(),
                self.path_spec() == old(self).path_spec(),
                self.max_size_spec() == old(self).max_size_spec(),
                i <= ranked@.len(),
                rankedv == view_of(ranked@),
                rankedv.len() == ranked@.len(),
                alive.len() == i,
                view_of(out@) == spec_live_filter(rankedv.take(i as int), alive),
                self.entries() == spec_prune(old(self).entries(), rankedv.take(i as int), alive),
                self.is_dirty() == (old(self).is_dirty() || exists|j: int|
                    0 <= j < alive.len() && !alive[j]),
            decreases ranked@.len() - i,
        {
            let ghost pre_out = view_of(out@);
            let ghost pre_alive = alive;
            proof {
                assert(rankedv.take(i as int + 1).drop_last() =~= rankedv.take(i as int));
                assert(rankedv.take(i as int + 1).last() == rankedv[i as int]);
                assert(rankedv[i as int] == (ranked@[i as int].0@, ranked@[i as int].1 as int));
            }
            let trimmed = self.trim(&ranked[i].0);
            proof {
                alive = alive.push(!trimmed);
                assert(alive.drop_last() =~= pre_alive);
                assert(alive.last() == !trimmed);
            }
            if !trimmed {
                out.push((ranked[i].0.clone(), ranked[i].1));
                proof {
                    assert(view_of(out@) =~= pre_out.push(rankedv[i as int]));
                }
            }
            i = i + 1;
        }
        proof {
            assert(rankedv.take(rankedv.len() as int) =~= rankedv);
        }
        out
    }

    /// The entries matching `filter` with their raw stored scores, highest
    /// first, without consulting the disk; an empty filter keeps
    /// everything.  The pure ordering step of the raw enumerations.
    fn matched_raw(&self, filter: &str) -> (r: Vec<(String, i64)>)
        ensures
            filter@.len() == 0 ==> view_of(r@).to_multiset() == self.entries().to_multiset(),
            filter@.len() > 0 ==> view_of(r@).to_multiset() == spec_raw_filter(
                self.entries(),
                filter@,
            ).to_multiset(),
            sorted_desc(view_of(r@)),
    {
        let items = self.frecency.items().raw();
        if filter.unicode_len() == 0 {
            return sort_desc_entries(items);
        }
        let ghost ev = self.entries();
        let mut kept: Vec<(String, i64)> = Vec::new();
        let mut i: usize = 0;
        proof {
            assert(ev.take(0) =~= Seq::<SpecEntry>::empty());
            assert(view_of(kept@) =~= spec_raw_filter(ev.take(0), filter@));
        }
        while i < items.len()
            invariant
                i <= items@.len(),
                view_of(items@) == ev,
                items@.len() == ev.len(),
                view_of(kept@) == spec_raw_filter(ev.take(i as int), filter@),
            decreases items@.len() - i,
        {
            let ghost pre = view_of(kept@);
            proof {
                assert(ev.take(i as int + 1).drop_last() =~= ev.take(i as int));
                assert(ev.take(i as int + 1).last() == ev[i as int]);
                assert(ev[i as int] == (items@[i as int].0@, items@[i as int].1 as int));
            }
            match query_match(items[i].0.as_str(), filter) {
                Some(_) => {
                    kept.push((items[i].0.clone(), items[i].1));
                    proof {
                        assert(view_of(kept@) =~= pre.push(ev[i as int]));
                    }
                },
                None => {},
            }
            i = i + 1;
        }
        proof {
            assert(ev.take(ev.len() as int) =~= ev);
        }
        sort_desc_entries(kept)
    }

    /// All live stored paths with their raw stored scores (bit-identical,
    /// no normalization), highest first.  Like the normalized
    /// enumerations, paths that no longer name a directory on disk are
    /// pruned from the store along the way.  Feeds the manual editor.
    pub fn items_with_frecency_raw(&mut self) -> (r: Vec<(String, i64)>)
        requires
            old(self).wf(),
        ensures
            final(self).wf(),
            final(self).path_spec() == old(self).path_spec(),
            final(self).max_size_spec() == old(self).max_size_spec(),
            exists|sorted: Seq<SpecEntry>, alive: Seq<bool>|
                {
                    &&& sorted.to_multiset() == old(self).entries().to_multiset()
                    &&& sorted_desc(sorted)
                    &&& alive.len() == sorted.len()
                    &&& view_of(r@) == spec_live_filter(sorted, alive)
                    &&& final(self).entries() == spec_prune(old(self).entries(), sorted, alive)
                    &&& final(self).is_dirty() == (old(self).is_dirty() || exists|j: int|
                        0 <= j < alive.len() && !alive[j])
                },
    {
        let sorted = self.matched_raw("");
        proof {
            reveal_strlit("");
            assert(""@ =~= Seq::<char>::empty());
        }
        self.retain_live_raw(sorted)
    }

    /// The live stored paths matching `filter` with their raw stored
    /// scores, highest first; an empty filter keeps everything.  Dead
    /// paths encountered along the way are pruned from the store.
    pub fn directory_matches_raw(&mut self, filter: &str) -> (r: Vec<(String, i64)>)
        requires
            old(self).wf(),
        ensures
            final(self).wf(),
            final(self).path_spec() == old(self).path_spec(),
            final(self).max_size_spec() == old(self).max_size_spec(),
            exists|sorted: Seq<SpecEntry>, alive: Seq<bool>|
                {
                    &&& (filter@.len() == 0 ==> sorted.to_multiset()
                        == old(self).entries().to_multiset())
                    &&& (filter@.len() > 0 ==> sorted.to_multiset() == spec_raw_filter(
                        old(self).entries(),
                        filter@,
                    ).to_multiset())
                    &&& sorted_desc(sorted)
                    &&& alive.len() == sorted.len()
                    &&& view_of(r@) == spec_live_filter(sorted, alive)
                    &&& final(self).entries() == spec_prune(old(self).entries(), sorted, alive)
                    &&& final(self).is_dirty() == (old(self).is_dirty() || exists|j: int|
                        0 <= j < alive.len() && !alive[j])
                },
    {
        let sorted = self.matched_raw(filter);
        self.retain_live_raw(sorted)
    }
}

proof fn lemma_remove_key_gone(s: Seq<SpecEntry>, k: Seq<char>)
    requires
        unique_keys(s),
    ensures
        !contains_key(remove_key(s, k), k),
        unique_keys(remove_key(s, k)),
        forall|k2: Seq<char>|
            k2 != k ==> #[trigger] contains_key(remove_key(s, k), k2) == contains_key(s, k2),
{
    if contains_key(s, k) {
        let i = key_index(s, k);
        assert(0 <= i < s.len() && s[i].0 == k);
        let r = s.remove(i);
        assert forall|a: int, b: int| 0 <= a < b < r.len() implies r[a].0 != r[b].0 by {
            let a0 = if a < i { a } else { a + 1 };
            let b0 = if b < i { b } else { b + 1 };
            assert(r[a] == s[a0] && r[b] == s[b0]);
        }
        assert(!contains_key(r, k)) by {
            if contains_key(r, k) {
                let w = choose|w: int| 0 <= w < r.len() && r[w].0 == k;
                let w0 = if w < i { w } else { w + 1 };
                assert(r[w] == s[w0]);
                assert(s[w0].0 == k && s[i].0 == k && w0 != i);
            }
        }
        assert forall|k2: Seq<char>| k2 != k
            implies #[trigger] contains_key(r, k2) == contains_key(s, k2) by {
            if contains_key(s, k2) {
                let w = choose|w: int| 0 <= w < s.len() && s[w].0 == k2;
                assert(w != i);
                if w < i {
                    assert(r[w] == s[w]);
                } else {
                    assert(r[w - 1] == s[w]);
                }
            }
            if contains_key(r, k2) {
                let w = choose|w: int| 0 <= w < r.len() && r[w].0 == k2;
                let w0 = if w < i { w } else { w + 1 };
                assert(r[w] == s[w0]);
            }
        }
    }
}

/// Self-healing is real: once enumeration finds an entry's directory dead,
/// the store no longer holds that key — later steps of the same pass never
/// bring it back.
pub proof fn lemma_prune_removes_dead(
    store: Seq<SpecEntry>,
    items: Seq<SpecEntry>,
    alive: Seq<bool>,
    i: int,
)
    requires
        unique_keys(store),
        alive.len() == items.len(),
        0 <= i < items.len(),
        !alive[i],
        forall|a: int, b: int| 0 <= a < b < items.len() ==> items[a].0 != items[b].0,
    ensures
        !contains_key(spec_prune(store, items, alive), items[i].0),
        unique_keys(spec_prune(store, items, alive)),
    decreases items.len(),
{
    lemma_prune_preserves_unique(store, items.drop_last(), alive.drop_last());
    let pre = spec_prune(store, items.drop_last(), alive.drop_last());
    if i == items.len() - 1 {
        lemma_remove_key_gone(pre, items.last().0);
    } else {
        assert forall|a: int, b: int| 0 <= a < b < items.drop_last().len()
            implies items.drop_last()[a].0 != items.drop_last()[b].0 by {
            assert(items.drop_last()[a] == items[a] && items.drop_last()[b] == items[b]);
        }
        assert(items.drop_last()[i] == items[i]);
        assert(alive.drop_last()[i] == alive[i]);
        lemma_prune_removes_dead(store, items.drop_last(), alive.drop_last(), i);
        if !alive.last() {
            lemma_remove_key_gone(pre, items.last().0);
            assert(items.last().0 != items[i].0);
        }
    }
}

proof fn lemma_prune_preserves_unique(
    store: Seq<SpecEntry>,
    items: Seq<SpecEntry>,
    alive: Seq<bool>,
)
    requires
        unique_keys(store),
    ensures
        unique_keys(spec_prune(store, items, alive)),
    decreases items.len(),
{
    if items.len() > 0 {
        lemma_prune_preserves_unique(store, items.drop_last(), alive.drop_last());
        let pre = spec_prune(store, items.drop_last(), alive.drop_last());
        if alive.len() == items.len() && !alive.last() {
            lemma_remove_key_gone(pre, items.last().0);
        }
    }
}

} // verus!
