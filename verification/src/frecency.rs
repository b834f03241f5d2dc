//! The bounded frecency score store.
//!
//! Keys map to fixed-point scores (see [`crate::score`]).  Order is not
//! maintained on the store itself — visits vastly outnumber reads — but is
//! computed on demand by the view.  After every visit the store evicts
//! lowest-scoring entries until it is back within its size bound.

use vstd::prelude::*;

verus! {

use crate::score::{
    spec_now_decay, spec_visit_update, now_decay, visit_update, MAX_NOW_SECS,
};

/// A keyed score entry at the specification level.
pub type SpecEntry = (Seq<char>, int);

/// View of a vector of concrete entries.
pub open spec fn view_of(entries: Seq<(String, i64)>) -> Seq<SpecEntry> {
    entries.map_values(|p: (String, i64)| (p.0@, p.1 as int))
}

/// No two entries share a key.
pub open spec fn unique_keys(s: Seq<SpecEntry>) -> bool {
    forall|i: int, j: int| 0 <= i < j < s.len() ==> s[i].0 != s[j].0
}

/// Whether some entry has this key.
pub open spec fn contains_key(s: Seq<SpecEntry>, k: Seq<char>) -> bool {
    exists|i: int| 0 <= i < s.len() && s[i].0 == k
}

/// The index holding this key (meaningful when `contains_key` holds and the
/// keys are unique).
pub open spec fn key_index(s: Seq<SpecEntry>, k: Seq<char>) -> int {
    choose|i: int| 0 <= i < s.len() && s[i].0 == k
}

/// The score stored for a key.
pub open spec fn score_of(s: Seq<SpecEntry>, k: Seq<char>) -> int {
    s[key_index(s, k)].1
}

/// First index of a minimal score: the entry a full eviction scan settles on.
pub open spec fn min_index(s: Seq<SpecEntry>) -> int
    decreases s.len(),
{
    if s.len() <= 1 {
        0
    } else {
        let m = min_index(s.drop_last());
        if s.last().1 < s[m].1 {
            s.len() - 1
        } else {
            m
        }
    }
}

/// Repeatedly drops the first minimal entry until the sequence fits the
/// bound.
pub open spec fn spec_evict(s: Seq<SpecEntry>, max: int) -> Seq<SpecEntry>
    decreases s.len(),
{
    if s.len() <= max {
        s
    } else {
        let m = min_index(s);
        // the index is always in range; the guard only serves termination
        if 0 <= m < s.len() {
            spec_evict(s.remove(m), max)
        } else {
            s
        }
    }
}

/// One visit applied to the entries, before eviction: an existing key gets
/// the decayed-accumulation update, a new key enters with the plain decay
/// offset of the visit instant.
pub open spec fn spec_visited(s: Seq<SpecEntry>, k: Seq<char>, nd: int) -> Seq<SpecEntry> {
    if contains_key(s, k) {
        let i = key_index(s, k);
        s.update(i, (k, spec_visit_update(s[i].1, nd)))
    } else {
        s.push((k, nd))
    }
}

proof fn lemma_min_index_in_range(s: Seq<SpecEntry>)
    requires
        s.len() > 0,
    ensures
        0 <= min_index(s) < s.len(),
        forall|i: int| 0 <= i < s.len() ==> s[min_index(s)].1 <= #[trigger] s[i].1,
    decreases s.len(),
{
    if s.len() > 1 {
        lemma_min_index_in_range(s.drop_last());
        assert forall|i: int| 0 <= i < s.len() implies s[min_index(s)].1 <= #[trigger] s[i].1 by {
            let m = min_index(s.drop_last());
            if i < s.len() - 1 {
                assert(s.drop_last()[i] == s[i]);
                assert(s.drop_last()[m] == s[m]);
            }
        }
    }
}

proof fn lemma_unique_keys_remove(s: Seq<SpecEntry>, i: int)
    requires
        unique_keys(s),
        0 <= i < s.len(),
    ensures
        unique_keys(s.remove(i)),
{
    assert forall|a: int, b: int| 0 <= a < b < s.remove(i).len()
        implies s.remove(i)[a].0 != s.remove(i)[b].0 by {
        let a0 = if a < i { a } else { a + 1 };
        let b0 = if b < i { b } else { b + 1 };
        assert(s.remove(i)[a] == s[a0]);
        assert(s.remove(i)[b] == s[b0]);
    }
}

proof fn lemma_evict_shape(s: Seq<SpecEntry>, max: int)
    requires
        max >= 0,
    ensures
        spec_evict(s, max).len() <= max,
        spec_evict(s, max).len() <= s.len(),
        unique_keys(s) ==> unique_keys(spec_evict(s, max)),
    decreases s.len(),
{
    if s.len() > max {
        lemma_min_index_in_range(s);
        if unique_keys(s) {
            lemma_unique_keys_remove(s, min_index(s));
        }
        lemma_evict_shape(s.remove(min_index(s)), max);
    }
}

/// The generic decaying score store: a key/score map with a size bound.
#[derive(Clone)]
pub struct Frecency {
    entries: Vec<(String, i64)>,
    max_size: usize,
}

impl View for Frecency {
    type V = Seq<SpecEntry>;

    closed spec fn view(&self) -> Seq<SpecEntry> {
        view_of(self.entries@)
    }
}

impl Frecency {
    /// The configured bound on the number of entries.
    pub closed spec fn max_size_spec(&self) -> int {
        self.max_size as int
    }

    /// Well-formed: keys are unique.
    pub open spec fn wf(&self) -> bool {
        unique_keys(self@)
    }

    /// An empty store that will hold at most `max_size` entries.
    pub fn new(max_size: usize) -> (r: Self)
        ensures
            r.wf(),
            r@ == Seq::<SpecEntry>::empty(),
            r.max_size_spec() == max_size,
    {
        let r = Frecency { entries: Vec::new(), max_size };
        proof {
            assert(r@ =~= Seq::<SpecEntry>::empty());
        }
        r
    }

    /// The configured bound, as a value.
    pub fn max_size(&self) -> (r: usize)
        ensures
            r == self.max_size_spec(),
    {
        self.max_size
    }

    /// How many entries the store holds.
    pub fn len(&self) -> (r: usize)
        ensures
            r == self@.len(),
    {
        self.entries.len()
    }

    fn find_key(&self, key: &String) -> (r: Option<usize>)
        requires
            self.wf(),
        ensures
            match r {
                Some(i) => {
                    &&& 0 <= i < self@.len()
                    &&& self@[i as int].0 == key@
                    &&& contains_key(self@, key@)
                    &&& i as int == key_index(self@, key@)
                },
                None => !contains_key(self@, key@),
            },
    {
        let mut i: usize = 0;
        while i < self.entries.len()
            invariant
                self.wf(),
                i <= self@.len(),
                forall|j: int| 0 <= j < i ==> self@[j].0 != key@,
            decreases self@.len() - i,
        {
            if self.entries[i].0 == *key {
                proof {
                    assert(self@[i as int].0 == key@);
                    let w = key_index(self@, key@);
                    assert(0 <= w < self@.len() && self@[w].0 == key@);
                    assert(w == i as int);
                }
                return Some(i);
            }
            i = i + 1;
        }
        None
    }

    /// Removes the first entry with the lowest score.  Used by eviction.
    fn trim_min(&mut self)
        requires
            old(self).wf(),
            old(self)@.len() > 0,
        ensures
            final(self).wf(),
            final(self)@ == old(self)@.remove(min_index(old(self)@)),
            final(self).max_size_spec() == old(self).max_size_spec(),
    {
        let ghost s0 = self@;
        let mut m: usize = 0;
        let mut i: usize = 1;
        while i < self.entries.len()
            invariant
                self@ == s0,
                self@.len() > 0,
                i <= self@.len(),
                0 <= m < i || (i == 1 && m == 0),
                m < self@.len(),
                m as int == min_index(self@.take(i as int)),
            decreases self@.len() - i,
        {
            proof {
                assert(self@.take(i as int + 1).drop_last() =~= self@.take(i as int));
                assert(self@.take(i as int + 1).last() == self@[i as int]);
            }
            if self.entries[i].1 < self.entries[m].1 {
                m = i;
            }
            i = i + 1;
        }
        proof {
            assert(self@.take(self@.len() as int) =~= self@);
            lemma_unique_keys_remove(self@, m as int);
            assert(view_of(self.entries@.remove(m as int)) =~= self@.remove(m as int));
        }
        self.entries.remove(m);
    }

    fn evict_to_bound(&mut self)
        requires
            old(self).wf(),
        ensures
            final(self).wf(),
            final(self)@ == spec_evict(old(self)@, old(self).max_size_spec()),
            final(self).max_size_spec() == old(self).max_size_spec(),
            final(self)@.len() <= old(self).max_size_spec(),
    {
        let ghost s0 = self@;
        let ghost max = self.max_size_spec();
        while self.entries.len() > self.max_size
            invariant
                self.wf(),
                self.max_size_spec() == max,
                spec_evict(self@, max) == spec_evict(s0, max),
                self@.len() <= s0.len(),
            decreases self@.len(),
        {
            proof {
                lemma_min_index_in_range(self@);
            }
            self.trim_min();
        }
    }

    /// Records a visit to `key` at `now_secs` seconds since the epoch, then
    /// evicts down to the size bound.  A fresh key enters with the decay
    /// offset of the instant; an existing key accumulates.
    pub fn visit_with_time(&mut self, key: String, now_secs: u64)
        requires
            old(self).wf(),
            now_secs <= MAX_NOW_SECS,
        ensures
            final(self).wf(),
            final(self)@ == spec_evict(
                spec_visited(old(self)@, key@, spec_now_decay(now_secs as int)),
                old(self).max_size_spec(),
            ),
            final(self).max_size_spec() == old(self).max_size_spec(),
            final(self)@.len() <= old(self).max_size_spec(),
    {
        let nd = now_decay(now_secs);
        match self.find_key(&key) {
            Some(i) => {
                let updated = visit_update(self.entries[i].1, nd);
                let ghost before = self@;
                self.entries[i].1 = updated;
                proof {
                    assert(self@ =~= spec_visited(before, key@, spec_now_decay(now_secs as int)));
                    assert(unique_keys(self@));
                }
            },
            None => {
                let ghost before = self@;
                self.entries.push((key, nd));
                proof {
                    assert(self@ =~= spec_visited(before, self@.last().0, spec_now_decay(now_secs as int)));
                    assert(unique_keys(self@));
                }
            },
        }
        self.evict_to_bound();
    }

    /// Records `key` only if it is absent ("remember this exists"); a no-op
    /// when the key is already stored.
    pub fn insert_with_time(&mut self, key: String, now_secs: u64)
        requires
            old(self).wf(),
            now_secs <= MAX_NOW_SECS,
        ensures
            final(self).wf(),
            final(self).max_size_spec() == old(self).max_size_spec(),
            contains_key(old(self)@, key@) ==> final(self)@ == old(self)@,
            !contains_key(old(self)@, key@) ==> final(self)@ == spec_evict(
                spec_visited(old(self)@, key@, spec_now_decay(now_secs as int)),
                old(self).max_size_spec(),
            ),
    {
        match self.find_key(&key) {
            Some(_) => {},
            None => {
                self.visit_with_time(key, now_secs);
            },
        }
    }

    /// Sets a raw score directly, bypassing the decay arithmetic: used when
    /// applying a manual edit, where the edited value is authoritative.
    /// Does not evict.
    pub fn overwrite(&mut self, key: String, value: i64)
        requires
            old(self).wf(),
        ensures
            final(self).wf(),
            final(self).max_size_spec() == old(self).max_size_spec(),
            contains_key(old(self)@, key@) ==> final(self)@ == old(self)@.update(
                key_index(old(self)@, key@),
                (key@, value as int),
            ),
            !contains_key(old(self)@, key@) ==> final(self)@ == old(self)@.push((key@, value as int)),
    {
        match self.find_key(&key) {
            Some(i) => {
                let ghost before = self@;
                self.entries[i] = (key, value);
                proof {
                    assert(self@ =~= before.update(key_index(before, self@[i as int].0), (self@[i as int].0, value as int)));
                    assert(unique_keys(self@));
                }
            },
            None => {
                let ghost before = self@;
                self.entries.push((key, value));
                proof {
                    assert(self@ =~= before.push((self@.last().0, value as int)));
                    assert(unique_keys(self@));
                }
            },
        }
    }

    /// Removes a key, returning its stored score if it was present.
    pub fn remove(&mut self, key: &String) -> (r: Option<i64>)
        requires
            old(self).wf(),
        ensures
            final(self).wf(),
            final(self).max_size_spec() == old(self).max_size_spec(),
            match r {
                Some(v) => {
                    &&& contains_key(old(self)@, key@)
                    &&& v as int == score_of(old(self)@, key@)
                    &&& final(self)@ == old(self)@.remove(key_index(old(self)@, key@))
                },
                None => {
                    &&& !contains_key(old(self)@, key@)
                    &&& final(self)@ == old(self)@
                },
            },
    {
        match self.find_key(key) {
            Some(i) => {
                let ghost before = self@;
                proof {
                    lemma_unique_keys_remove(self@, i as int);
                    assert(view_of(self.entries@.remove(i as int)) =~= self@.remove(i as int));
                }
                let entry = self.entries.remove(i);
                Some(entry.1)
            },
            None => None,
        }
    }

    /// An independent copy with the same entries and bound.
    pub fn duplicate(&self) -> (r: Self)
        ensures
            r@ == self@,
            r.max_size_spec() == self.max_size_spec(),
    {
        let mut entries: Vec<(String, i64)> = Vec::new();
        let mut i: usize = 0;
        while i < self.entries.len()
            invariant
                i <= self.entries@.len(),
                view_of(entries@) == view_of(self.entries@.take(i as int)),
            decreases self.entries@.len() - i,
        {
            let ghost before = entries@;
            entries.push((self.entries[i].0.clone(), self.entries[i].1));
            proof {
                assert(view_of(before.push((self.entries@[i as int].0, self.entries@[i as int].1)))
                    =~= view_of(before).push((self.entries@[i as int].0@, self.entries@[i as int].1 as int)));
                assert(view_of(entries@) =~= view_of(self.entries@.take(i as int + 1)));
            }
            i = i + 1;
        }
        proof {
            assert(self.entries@.take(self.entries@.len() as int) =~= self.entries@);
        }
        Frecency { entries, max_size: self.max_size }
    }

    /// A snapshot view of the entries, for ordering and normalization.
    pub fn items(&self) -> (v: FrecencyView)
        ensures
            v@ == self@,
    {
        let mut items: Vec<(String, i64)> = Vec::new();
        let mut i: usize = 0;
        while i < self.entries.len()
            invariant
                i <= self.entries@.len(),
                view_of(items@) == view_of(self.entries@.take(i as int)),
            decreases self.entries@.len() - i,
        {
            let ghost before = items@;
            items.push((self.entries[i].0.clone(), self.entries[i].1));
            proof {
                assert(view_of(before.push((self.entries@[i as int].0, self.entries@[i as int].1)))
                    =~= view_of(before).push((self.entries@[i as int].0@, self.entries@[i as int].1 as int)));
                assert(view_of(items@) =~= view_of(self.entries@.take(i as int + 1)));
            }
            i = i + 1;
        }
        proof {
            assert(self.entries@.take(self.entries@.len() as int) =~= self.entries@);
        }
        FrecencyView { items }
    }
}

/// A snapshot of a store's entries, exposing the raw pairs and the
/// normalized, descending-sorted projection.
pub struct FrecencyView {
    items: Vec<(String, i64)>,
}

impl View for FrecencyView {
    type V = Seq<SpecEntry>;

    closed spec fn view(&self) -> Seq<SpecEntry> {
        view_of(self.items@)
    }
}

/// View of a vector of entries whose scores are already normalized.
pub open spec fn view_scores(s: Seq<(String, u64)>) -> Seq<SpecEntry> {
    s.map_values(|p: (String, u64)| (p.0@, p.1 as int))
}

/// Descending by score.
pub open spec fn sorted_desc(s: Seq<SpecEntry>) -> bool {
    forall|i: int, j: int| 0 <= i < j < s.len() ==> s[i].1 >= s[j].1
}

/// The value an entry gets after linear rescaling of `[lo, hi]` onto
/// `[0, 1000000]`; a degenerate range collapses to 0 so that downstream
/// arithmetic stays well defined.
pub open spec fn norm_value(v: int, lo: int, hi: int) -> int {
    if hi <= lo {
        0
    } else {
        (v - lo) * 1000000 / (hi - lo)
    }
}

/// `r` lists exactly the entries of `src` in descending score order, each
/// score rescaled so the maximum maps to 1000000 and the minimum to 0.
pub open spec fn is_normalization(src: Seq<SpecEntry>, r: Seq<SpecEntry>) -> bool {
    exists|sorted: Seq<SpecEntry>|
        {
            &&& sorted.to_multiset() == src.to_multiset()
            &&& sorted_desc(sorted)
            &&& r.len() == sorted.len()
            &&& forall|i: int|
                0 <= i < r.len() ==> #[trigger] r[i] == (
                    sorted[i].0,
                    norm_value(sorted[i].1, sorted.last().1, sorted.first().1),
                )
        }
}

fn index_of_max(items: &Vec<(String, i64)>) -> (m: usize)
    requires
        items@.len() > 0,
    ensures
        m < items@.len(),
        forall|i: int| 0 <= i < items@.len() ==> items@[m as int].1 >= #[trigger] items@[i].1,
{
    let mut m: usize = 0;
    let mut i: usize = 1;
    while i < items.len()
        invariant
            m < i <= items@.len() || (i == 1 && m == 0 && items@.len() > 0),
            forall|j: int| 0 <= j < i ==> items@[m as int].1 >= #[trigger] items@[j].1,
        decreases items@.len() - i,
    {
        if items[i].1 > items[m].1 {
            m = i;
        }
        i = i + 1;
    }
    m
}

/// Sorts entries by descending score (extract-max), preserving the multiset
/// of entries.
pub(crate) fn sort_desc_entries(src: Vec<(String, i64)>) -> (r: Vec<(String, i64)>)
    ensures
        view_of(r@).to_multiset() == view_of(src@).to_multiset(),
        sorted_desc(view_of(r@)),
        r@.len() == src@.len(),
{
    broadcast use vstd::seq_lib::group_to_multiset_ensures;
    broadcast use vstd::multiset::group_multiset_axioms;

    let ghost orig = view_of(src@);
    let mut rest = src;
    let mut out: Vec<(String, i64)> = Vec::new();
    proof {
        assert(view_of(out@) =~= Seq::<SpecEntry>::empty());
        assert(view_of(out@).to_multiset().add(view_of(rest@).to_multiset())
            =~= orig.to_multiset());
    }
    while rest.len() > 0
        invariant
            view_of(out@).to_multiset().add(view_of(rest@).to_multiset()) == orig.to_multiset(),
            out@.len() + rest@.len() == orig.len(),
            sorted_desc(view_of(out@)),
            forall|i: int, j: int|
                0 <= i < out@.len() && 0 <= j < rest@.len()
                    ==> view_of(out@)[i].1 >= view_of(rest@)[j].1,
        decreases rest@.len(),
    {
        let ghost rest0 = view_of(rest@);
        let ghost out0 = view_of(out@);
        let m = index_of_max(&rest);
        let ghost xv = rest0[m as int];
        let x = rest.remove(m);
        out.push(x);
        proof {
            assert(view_of(rest@) =~= rest0.remove(m as int));
            assert(view_of(out@) =~= out0.push(xv));
            vstd::seq_lib::to_multiset_build(out0, xv);
            vstd::seq_lib::to_multiset_remove(rest0, m as int);
            vstd::seq_lib::to_multiset_contains(rest0, xv);
            assert(out0.to_multiset().insert(xv).add(rest0.to_multiset().remove(xv))
                =~= out0.to_multiset().add(rest0.to_multiset())) by {
                assert(rest0[m as int] == xv);
                assert(rest0.contains(xv));
                vstd::seq_lib::to_multiset_contains(rest0, xv);
                assert(rest0.to_multiset().count(xv) > 0);
            }
            assert forall|i: int, j: int|
                0 <= i < out@.len() && 0 <= j < rest@.len()
                    implies view_of(out@)[i].1 >= view_of(rest@)[j].1 by {
                let j0 = if j < m as int { j } else { j + 1 };
                assert(view_of(rest@)[j] == rest0[j0]);
                if i < out0.len() {
                    assert(view_of(out@)[i] == out0[i]);
                } else {
                    assert(view_of(out@)[i] == xv);
                }
            }
            assert(sorted_desc(view_of(out@)));
        }
    }
    proof {
        assert(view_of(rest@) =~= Seq::<SpecEntry>::empty());
        assert(view_of(out@).to_multiset().add(view_of(rest@).to_multiset())
            =~= view_of(out@).to_multiset());
        assert(view_of(out@).to_multiset().len() == orig.to_multiset().len());
    }
    out
}

impl FrecencyView {
    /// All pairs, in storage order, with raw scores.
    pub fn raw(self) -> (r: Vec<(String, i64)>)
        ensures
            view_of(r@) == self@,
    {
        self.items
    }

    /// The entries sorted by descending raw score, each score linearly
    /// rescaled onto `[0, 1000000]`: the maximum raw score maps to 1000000,
    /// the minimum to 0, and a single entry (or an all-equal store) maps
    /// to 0 everywhere.
    pub fn normalized(self) -> (r: Vec<(String, u64)>)
        ensures
            is_normalization(self@, view_scores(r@)),
            r@.len() == self@.len(),
            forall|i: int| 0 <= i < r@.len() ==> 0 <= #[trigger] r@[i].1 <= 1000000,
            self@.len() == 1 ==> r@[0].1 == 0 && r@[0].0@ == self@[0].0,
    {
        broadcast use vstd::seq_lib::group_to_multiset_ensures;

        let ghost src = self@;
        let sorted = sort_desc_entries(self.items);
        let ghost sortedv = view_of(sorted@);
        let mut r: Vec<(String, u64)> = Vec::new();
        if sorted.len() == 0 {
            proof {
                assert(view_scores(r@) =~= Seq::<SpecEntry>::empty());
                assert(is_normalization(src, view_scores(r@)));
            }
            return r;
        }
        let hi = sorted[0].1;
        let lo = sorted[sorted.len() - 1].1;
        let mut i: usize = 0;
        while i < sorted.len()
            invariant
                i <= sorted@.len(),
                sorted@.len() == sortedv.len(),
                sortedv == view_of(sorted@),
                sorted_desc(sortedv),
                sortedv.len() > 0,
                hi as int == sortedv.first().1,
                lo as int == sortedv.last().1,
                r@.len() == i,
                forall|j: int|
                    0 <= j < i ==> #[trigger] r@[j].0@ == sortedv[j].0
                        && r@[j].1 as int == norm_value(sortedv[j].1, lo as int, hi as int),
                forall|j: int| 0 <= j < i ==> 0 <= #[trigger] r@[j].1 <= 1000000,
            decreases sorted@.len() - i,
        {
            let v = sorted[i].1;
            proof {
                assert(sortedv[i as int].1 == v as int);
                assert(sortedv.first().1 >= sortedv[i as int].1 >= sortedv.last().1);
            }
            let nv: u64;
            if hi <= lo {
                nv = 0;
            } else {
                let num: i128 = (v as i128 - lo as i128) * 1000000;
                let den: i128 = hi as i128 - lo as i128;
                proof {
                    vstd::arithmetic::div_mod::lemma_div_pos_is_pos(
                        (v as int - lo as int) * 1000000,
                        hi as int - lo as int,
                    );
                    vstd::arithmetic::mul::lemma_mul_inequality(
                        v as int - lo as int,
                        hi as int - lo as int,
                        1000000,
                    );
                    vstd::arithmetic::div_mod::lemma_div_is_ordered(
                        (v as int - lo as int) * 1000000,
                        (hi as int - lo as int) * 1000000,
                        hi as int - lo as int,
                    );
                    assert((hi as int - lo as int) * 1000000 / (hi as int - lo as int)
                        == 1000000) by (nonlinear_arith)
                        requires hi as int - lo as int > 0;
                }
                nv = (num / den) as u64;
            }
            r.push((sorted[i].0.clone(), nv));
            i = i + 1;
        }
        proof {
            let rv = view_scores(r@);
            assert(rv.len() == sortedv.len());
            assert forall|j: int| 0 <= j < rv.len() implies #[trigger] rv[j] == (
                sortedv[j].0,
                norm_value(sortedv[j].1, sortedv.last().1, sortedv.first().1),
            ) by {
                assert(rv[j] == (r@[j].0@, r@[j].1 as int));
            }
            assert(is_normalization(src, rv));
            if src.len() == 1 {
                assert(norm_value(sortedv[0].1, sortedv.last().1, sortedv.first().1) == 0);
                // the single entry must be the original one
                vstd::seq_lib::to_multiset_contains(src, src[0]);
                vstd::seq_lib::to_multiset_contains(sortedv, src[0]);
                assert(src.contains(src[0]));
                assert(src.to_multiset().count(src[0]) > 0);
                assert(sortedv.contains(src[0]));
                assert(sortedv[0] == src[0]);
                assert(r@[0].0@ == sortedv[0].0);
                assert(r@[0].1 as int == norm_value(sortedv[0].1, lo as int, hi as int));
                assert(r@[0].1 == 0);
            }
        }
        r
    }
}

/// Monotonic recency: a key first visited later always outranks a key
/// first visited earlier (when neither was known before and nothing is
/// evicted): fresh keys enter with the decay offset of their visit
/// instant, and later instants map to strictly larger offsets.
pub proof fn lemma_recency(
    s0: Seq<SpecEntry>,
    a: Seq<char>,
    b: Seq<char>,
    t1: int,
    t2: int,
    max: int,
)
    requires
        unique_keys(s0),
        !contains_key(s0, a),
        !contains_key(s0, b),
        a != b,
        0 <= t1 < t2,
        s0.len() + 2 <= max,
    ensures
        ({
            let s1 = spec_evict(spec_visited(s0, a, spec_now_decay(t1)), max);
            let s2 = spec_evict(spec_visited(s1, b, spec_now_decay(t2)), max);
            &&& contains_key(s2, a)
            &&& contains_key(s2, b)
            &&& score_of(s2, b) > score_of(s2, a)
        }),
{
    let nd1 = spec_now_decay(t1);
    let nd2 = spec_now_decay(t2);
    let v1 = spec_visited(s0, a, nd1);
    assert(v1 == s0.push((a, nd1)));
    let s1 = spec_evict(v1, max);
    assert(s1 == v1);
    assert(!contains_key(s1, b)) by {
        if contains_key(s1, b) {
            let i = choose|i: int| 0 <= i < s1.len() && s1[i].0 == b;
            if i < s0.len() {
                assert(s0[i].0 == b);
            }
        }
    }
    let v2 = spec_visited(s1, b, nd2);
    assert(v2 == s1.push((b, nd2)));
    let s2 = spec_evict(v2, max);
    assert(s2 == v2);
    assert(s2[s0.len() as int] == (a, nd1));
    assert(s2[s0.len() as int + 1] == (b, nd2));
    assert(contains_key(s2, a));
    assert(contains_key(s2, b));
    assert(unique_keys(s2)) by {
        assert forall|i: int, j: int| 0 <= i < j < s2.len() implies s2[i].0 != s2[j].0 by {
            if j < s0.len() {
                assert(s2[i] == s0[i] && s2[j] == s0[j]);
            } else if j == s0.len() {
                if i < s0.len() {
                    assert(s2[i] == s0[i]);
                    assert(!contains_key(s0, a) ==> s0[i].0 != a) by {
                        if s0[i].0 == a {
                            assert(contains_key(s0, a));
                        }
                    }
                }
            } else {
                if i < s0.len() {
                    assert(s2[i] == s0[i]);
                    if s0[i].0 == b {
                        assert(contains_key(s0, b));
                    }
                }
            }
        }
    }
    let ia = key_index(s2, a);
    let ib = key_index(s2, b);
    assert(0 <= ia < s2.len() && s2[ia].0 == a);
    assert(0 <= ib < s2.len() && s2[ib].0 == b);
    assert(ia == s0.len() as int) by {
        if ia != s0.len() as int {
            assert(s2[ia].0 == s2[s0.len() as int].0);
        }
    }
    assert(ib == s0.len() as int + 1) by {
        if ib != s0.len() as int + 1 {
            assert(s2[ib].0 == s2[s0.len() as int + 1].0);
        }
    }
    crate::score::lemma_now_decay_strictly_monotonic(t1, t2);
}

/// Eviction always removes a lowest-scoring entry: when one entry too many
/// is present, the survivor set is exactly the store minus the first
/// minimum, and that minimum's score is below every other entry's.
pub proof fn lemma_eviction_drops_minimum(s: Seq<SpecEntry>, max: int)
    requires
        max >= 0,
        s.len() == max + 1,
    ensures
        spec_evict(s, max) == s.remove(min_index(s)),
        0 <= min_index(s) < s.len(),
        forall|i: int| 0 <= i < s.len() ==> s[min_index(s)].1 <= #[trigger] s[i].1,
{
    lemma_min_index_in_range(s);
    assert(s.remove(min_index(s)).len() == max);
    assert(spec_evict(s.remove(min_index(s)), max) == s.remove(min_index(s)));
}

} // verus!
