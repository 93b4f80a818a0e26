use vstd::prelude::*;
use crate::model::Ranker;
use crate::model::RankedRowIndex;
use crate::model::ResultSet;
use crate::model::Table;
use crate::model::capped;
use crate::model::entries_equal;
use crate::model::identity_view;
use crate::model::lemma_entries_equal_ranking;
use crate::model::valid_ranking;

verus! {

/// Builds the unfiltered view an empty query yields: the first `k` items of
/// the store in original order, unscored.
pub fn identity_result(table: &Table, k: usize) -> (r: ResultSet)
    ensures
        identity_view(table.texts(), k as int, r.entries@),
{
    let n = table.rows.len();
    let m = if n <= k {
        n
    } else {
        k
    };
    let mut out: Vec<RankedRowIndex> = Vec::new();
    let mut j: usize = 0;
    while j < m
        invariant
            j <= m,
            m == capped(table.texts().len() as int, k as int),
            m <= table.rows@.len(),
            out@.len() == j,
            forall|p: int|
                0 <= p < j ==> (#[trigger] out@[p]).index as int == p && out@[p].score is None
                    && out@[p].len == table.texts()[p].len() && out@[p].matched.deep_view().len()
                    == 0,
        decreases m - j,
    {
        let tl = table.rows[j].text.as_str().unicode_len();
        let e = RankedRowIndex { index: j, score: None, len: tl, matched: Vec::new() };
        proof {
            assert(e.matched.deep_view() =~= Seq::<usize>::empty());
        }
        out.push(e);
        j += 1;
    }
    ResultSet { entries: out }
}

/// The query cache: one stored `ResultSet` per query string already ranked
/// in this session. The item store never changes and the matcher is a pure
/// function, so an entry, once inserted, stays correct for the whole session
/// and is never invalidated.
pub struct QueryCache {
    pub entries: Vec<(String, ResultSet)>,
}

impl QueryCache {
    /// A result has been stored for this exact query string.
    pub open spec fn has_key(self, q: Seq<char>) -> bool {
        exists|j: int| 0 <= j < self.entries@.len() && (#[trigger] self.entries@[j]).0@ == q
    }

    /// The entries stored for query `q` (meaningful only under `has_key`
    /// and unique keys).
    pub open spec fn value_at(self, q: Seq<char>) -> Seq<RankedRowIndex> {
        self.entries@[choose|j: int|
            0 <= j < self.entries@.len() && (#[trigger] self.entries@[j]).0@ == q].1.entries@
    }

    /// No two stored entries are for the same query string.
    pub open spec fn keys_unique(self) -> bool {
        forall|j1: int, j2: int|
            0 <= j1 < j2 < self.entries@.len() ==> (#[trigger] self.entries@[j1]).0@
                != (#[trigger] self.entries@[j2]).0@
    }

    /// Cache well-formedness against a fixed item store and capacity: keys
    /// are unique and never empty, and every stored value is exactly the
    /// valid ranking of its key.
    pub open spec fn wf(self, items: Seq<Seq<char>>, k: int) -> bool {
        &&& self.keys_unique()
        &&& forall|j: int| 0 <= j < self.entries@.len() ==> (#[trigger] self.entries@[j]).0@.len() > 0
        &&& forall|j: int|
            0 <= j < self.entries@.len() ==> valid_ranking(
                items,
                (#[trigger] self.entries@[j]).0@,
                k,
                self.entries@[j].1.entries@,
            )
    }

    /// With unique keys, any position holding key `q` holds `value_at(q)`.
    pub proof fn lemma_value_at(self, q: Seq<char>, j: int)
        requires
            self.keys_unique(),
            0 <= j < self.entries@.len(),
            self.entries@[j].0@ == q,
        ensures
            self.value_at(q) == self.entries@[j].1.entries@,
    {
        let j2 = choose|j2: int|
            0 <= j2 < self.entries@.len() && (#[trigger] self.entries@[j2]).0@ == q;
    }

    pub fn new() -> (r: QueryCache)
        ensures
            r.entries@.len() == 0,
    {
        QueryCache { entries: Vec::new() }
    }

    /// Finds the stored position of a query string, if any.
    fn find(&self, query: &String) -> (r: Option<usize>)
        ensures
            match r {
                Some(j) => 0 <= j < self.entries@.len() && self.entries@[j as int].0@ == query@
                    && self.has_key(query@),
                None => !self.has_key(query@),
            },
    {
        let n = self.entries.len();
        let mut j: usize = 0;
        let mut found: Option<usize> = None;
        while j < n
            invariant
                j <= n,
                n == self.entries@.len(),
                match found {
                    Some(p) => 0 <= p < self.entries@.len() && self.entries@[p as int].0@
                        == query@,
                    None => forall|p: int| 0 <= p < j ==> (#[trigger] self.entries@[p]).0@ != query@,
                },
                found is Some ==> j == n,
            decreases n - j,
        {
            if self.entries[j].0 == *query {
                found = Some(j);
                proof {
                    assert(self.entries@[j as int].0@ == query@);
                }
                j = n;
            } else {
                j += 1;
            }
        }
        proof {
            if found is Some {
                let p = found->0 as int;
                assert(self.entries@[p].0@ == query@);
                assert(self.has_key(query@));
            }
        }
        found
    }

    /// Borrows the stored result for `query`, if one is present.
    pub fn lookup(&self, query: &String) -> (r: Option<&ResultSet>)
        requires
            self.keys_unique(),
        ensures
            match r {
                Some(rs) => self.has_key(query@) && rs.entries@ == self.value_at(query@),
                None => !self.has_key(query@),
            },
    {
        match self.find(query) {
            Some(j) => {
                proof {
                    self.lemma_value_at(query@, j as int);
                }
                Some(&self.entries[j].1)
            },
            None => None,
        }
    }

    /// Returns the ranked window for `query`, computing and storing it on a
    /// first sight and replaying the stored snapshot ever after. The empty
    /// query never touches the cache or the ranking engine: it always yields
    /// the first `window_height` items of the store in original order.
    pub fn get_or_compute(&mut self, table: &Table, ranker: &Ranker, query: &String) -> (r:
        ResultSet)
        requires
            old(self).wf(table.texts(), ranker.window_height as int),
            ranker.window_height >= 1,
        ensures
            final(self).wf(table.texts(), ranker.window_height as int),
            old(self).entries@.is_prefix_of(final(self).entries@),
            query@.len() == 0 ==> *final(self) == *old(self) && identity_view(
                table.texts(),
                ranker.window_height as int,
                r.entries@,
            ),
            query@.len() > 0 && old(self).has_key(query@) ==> *final(self) == *old(self)
                && entries_equal(r.entries@, old(self).value_at(query@)),
            query@.len() > 0 && !old(self).has_key(query@) ==> {
                &&& final(self).entries@.len() == old(self).entries@.len() + 1
                &&& final(self).has_key(query@)
                &&& final(self).entries@.last().0@ == query@
                &&& entries_equal(r.entries@, final(self).value_at(query@))
            },
            query@.len() > 0 ==> valid_ranking(
                table.texts(),
                query@,
                ranker.window_height as int,
                r.entries@,
            ),
    {
        if query.as_str().is_empty() {
            let r = identity_result(table, ranker.window_height);
            proof {
                assert(old(self).entries@.is_prefix_of(self.entries@));
            }
            return r;
        }
        match self.find(query) {
            Some(j) => {
                let r = self.entries[j].1.snapshot();
                proof {
                    self.lemma_value_at(query@, j as int);
                    assert(old(self).entries@.is_prefix_of(self.entries@));
                    lemma_entries_equal_ranking(
                        table.texts(),
                        query@,
                        ranker.window_height as int,
                        self.entries@[j as int].1.entries@,
                        r.entries@,
                    );
                }
                r
            },
            None => {
                let ghost pre = *self;
                let rs = ranker.rank_all(table, query.as_str());
                let r = rs.snapshot();
                self.entries.push((query.clone(), rs));
                proof {
                    let n = pre.entries@.len() as int;
                    assert(self.entries@ == pre.entries@.push((*query, rs)));
                    assert(self.entries@[n].0@ == query@);
                    assert(self.has_key(query@));
                    assert forall|j1: int, j2: int|
                        0 <= j1 < j2 < self.entries@.len() implies (#[trigger] self.entries@[j1]).0@
                        != (#[trigger] self.entries@[j2]).0@ by {
                        if j2 == n {
                            assert(self.entries@[j1] == pre.entries@[j1]);
                            assert(pre.entries@[j1].0@ != query@);
                        }
                    }
                    self.lemma_value_at(query@, n);
                    assert(pre.entries@.is_prefix_of(self.entries@));
                    lemma_entries_equal_ranking(
                        table.texts(),
                        query@,
                        ranker.window_height as int,
                        rs.entries@,
                        r.entries@,
                    );
                }
                r
            },
        }
    }

    /// Picks the next query to warm the cache with: the latest candidate, in
    /// reverse list order, that has not been ranked yet.
    pub fn pick_prewarm(&self, candidates: &Vec<String>) -> (r: Option<usize>)
        ensures
            match r {
                Some(j) => 0 <= j < candidates@.len() && !self.has_key(candidates@[j as int]@) && (
                forall|j2: int| j < j2 < candidates@.len() ==> self.has_key(#[trigger] candidates@[j2]@)),
                None => forall|j: int| 0 <= j < candidates@.len() ==> self.has_key(#[trigger] candidates@[j]@),
            },
    {
        let mut j: usize = candidates.len();
        let mut found: Option<usize> = None;
        while j > 0
            invariant
                j <= candidates@.len(),
                match found {
                    Some(p) => j <= p < candidates@.len() && !self.has_key(
                        candidates@[p as int]@,
                    ) && (forall|j2: int|
                        p < j2 < candidates@.len() ==> self.has_key(#[trigger] candidates@[j2]@)),
                    None => forall|j2: int|
                        j <= j2 < candidates@.len() ==> self.has_key(#[trigger] candidates@[j2]@),
                },
            decreases j,
        {
            j -= 1;
            if found.is_none() {
                if self.find(&candidates[j]).is_none() {
                    found = Some(j);
                }
            }
        }
        found
    }
}

} // verus!
