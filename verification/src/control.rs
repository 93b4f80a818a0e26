use vstd::prelude::*;
use crate::cache::QueryCache;
use crate::cache::identity_result;
use crate::model::Ranker;
use crate::model::ResultSet;
use crate::model::Table;
use crate::model::capped;
use crate::model::entries_equal;
use crate::model::identity_view;
use crate::model::lemma_entries_equal_ranking;
use crate::model::valid_ranking;
use crate::text::pop_char;
use crate::text::push_char;

verus! {

/// One input event, as the selection controller sees it. The terminal
/// driver's own event type is reduced to this before it reaches the
/// controller; anything it does not care about arrives as `Other`.
pub enum Event {
    Char(char),
    Backspace,
    Delete,
    Up,
    Down,
    Enter,
    Esc,
    Tick,
    Other,
}

/// What one controller step decided: keep going, or end the session with
/// the selected store index (`None` when nothing was selected).
pub enum StepResult {
    Pending,
    Finished(Option<usize>),
}

/// Whether an event ends the session.
pub open spec fn terminal_event(e: Event) -> bool {
    e is Enter || e is Esc
}

/// One event's effect on the query text.
pub open spec fn q_step(q: Seq<char>, e: Event) -> Seq<char> {
    match e {
        Event::Char(c) => q.push(c),
        Event::Backspace | Event::Delete => if q.len() > 0 {
            q.drop_last()
        } else {
            q
        },
        _ => q,
    }
}

/// One event's effect on the cursor, wrapping modulo the window height `k`.
pub open spec fn c_step(cur: int, k: int, e: Event) -> int {
    match e {
        Event::Up => if cur == 0 {
            k - 1
        } else {
            cur - 1
        },
        Event::Down => if cur == k - 1 {
            0
        } else {
            cur + 1
        },
        _ => cur,
    }
}

/// The query text after a whole event sequence.
pub open spec fn query_fold(q: Seq<char>, evs: Seq<Event>) -> Seq<char>
    decreases evs.len(),
{
    if evs.len() == 0 {
        q
    } else {
        query_fold(q_step(q, evs[0]), evs.drop_first())
    }
}

/// The cursor after a whole event sequence.
pub open spec fn cursor_fold(cur: int, k: int, evs: Seq<Event>) -> int
    decreases evs.len(),
{
    if evs.len() == 0 {
        cur
    } else {
        cursor_fold(c_step(cur, k, evs[0]), k, evs.drop_first())
    }
}

/// The position of the first session-ending event, or the sequence's length
/// when there is none.
pub open spec fn first_stop(evs: Seq<Event>) -> int
    decreases evs.len(),
{
    if evs.len() == 0 {
        0
    } else if terminal_event(evs[0]) {
        0
    } else {
        1 + first_stop(evs.drop_first())
    }
}

/// Unrolling one appended event of the query fold.
pub proof fn lemma_query_fold_snoc(q: Seq<char>, evs: Seq<Event>, e: Event)
    ensures
        query_fold(q, evs.push(e)) == q_step(query_fold(q, evs), e),
    decreases evs.len(),
{
    reveal_with_fuel(query_fold, 3);
    if evs.len() == 0 {
        assert(evs.push(e)[0] == e);
        assert(evs.push(e).drop_first() =~= Seq::<Event>::empty());
    } else {
        assert(evs.push(e)[0] == evs[0]);
        assert(evs.push(e).drop_first() =~= evs.drop_first().push(e));
        lemma_query_fold_snoc(q_step(q, evs[0]), evs.drop_first(), e);
    }
}

/// Unrolling one appended event of the cursor fold.
pub proof fn lemma_cursor_fold_snoc(cur: int, k: int, evs: Seq<Event>, e: Event)
    ensures
        cursor_fold(cur, k, evs.push(e)) == c_step(cursor_fold(cur, k, evs), k, e),
    decreases evs.len(),
{
    reveal_with_fuel(cursor_fold, 3);
    if evs.len() == 0 {
        assert(evs.push(e)[0] == e);
        assert(evs.push(e).drop_first() =~= Seq::<Event>::empty());
    } else {
        assert(evs.push(e)[0] == evs[0]);
        assert(evs.push(e).drop_first() =~= evs.drop_first().push(e));
        lemma_cursor_fold_snoc(c_step(cur, k, evs[0]), k, evs.drop_first(), e);
    }
}

/// The folded cursor never leaves the window.
pub proof fn lemma_cursor_fold_range(cur: int, k: int, evs: Seq<Event>)
    requires
        0 <= cur < k,
    ensures
        0 <= cursor_fold(cur, k, evs) < k,
    decreases evs.len(),
{
    if evs.len() > 0 {
        lemma_cursor_fold_range(c_step(cur, k, evs[0]), k, evs.drop_first());
    }
}

/// Where the first stop lies: everything before it is a non-terminal event,
/// and the event there, if any, is terminal.
pub proof fn lemma_first_stop_charn(evs: Seq<Event>)
    ensures
        0 <= first_stop(evs) <= evs.len(),
        forall|j: int| 0 <= j < first_stop(evs) ==> !terminal_event(#[trigger] evs[j]),
        first_stop(evs) < evs.len() ==> terminal_event(evs[first_stop(evs)]),
    decreases evs.len(),
{
    if evs.len() > 0 && !terminal_event(evs[0]) {
        lemma_first_stop_charn(evs.drop_first());
        assert forall|j: int| 0 <= j < first_stop(evs) implies !terminal_event(
            #[trigger] evs[j],
        ) by {
            if j > 0 {
                assert(!terminal_event(evs.drop_first()[j - 1]));
            }
        }
    }
}

/// The default pre-warm candidates: the twenty-six single-letter queries of
/// the lower-case alphabet, listed in alphabet order — so the reverse-order
/// pick of `QueryCache::pick_prewarm` warms them from `z` down to `a`.
pub fn default_prewarm() -> (r: Vec<String>)
    ensures
        r@.len() == 26,
        forall|j: int|
            0 <= j < 26 ==> (#[trigger] r@[j])@ == "abcdefghijklmnopqrstuvwxyz"@.subrange(j, j + 1),
        forall|j: int| 0 <= j < r@.len() ==> (#[trigger] r@[j])@.len() > 0,
{
    let alphabet = "abcdefghijklmnopqrstuvwxyz";
    proof {
        reveal_strlit("abcdefghijklmnopqrstuvwxyz");
    }
    let mut out: Vec<String> = Vec::new();
    let mut i: usize = 0;
    while i < 26
        invariant
            i <= 26,
            alphabet@ == "abcdefghijklmnopqrstuvwxyz"@,
            alphabet@.len() == 26,
            out@.len() == i,
            forall|j: int|
                0 <= j < i ==> (#[trigger] out@[j])@ == "abcdefghijklmnopqrstuvwxyz"@.subrange(
                    j,
                    j + 1,
                ),
        decreases 26 - i,
    {
        let one = alphabet.substring_char(i, i + 1);
        out.push(one.to_owned());
        i += 1;
    }
    out
}

/// Folding a concatenation of event scripts folds them in turn.
pub proof fn lemma_query_fold_concat(q: Seq<char>, a: Seq<Event>, b: Seq<Event>)
    ensures
        query_fold(q, a + b) == query_fold(query_fold(q, a), b),
    decreases a.len(),
{
    if a.len() == 0 {
        assert(a + b =~= b);
    } else {
        assert((a + b)[0] == a[0]);
        assert((a + b).drop_first() =~= a.drop_first() + b);
        lemma_query_fold_concat(q_step(q, a[0]), a.drop_first(), b);
    }
}

/// Typing only characters grows the query by one character per event.
proof fn lemma_query_fold_chars(q: Seq<char>, evs: Seq<Event>)
    requires
        forall|j: int| 0 <= j < evs.len() ==> (#[trigger] evs[j]) is Char,
    ensures
        query_fold(q, evs).len() == q.len() + evs.len(),
    decreases evs.len(),
{
    if evs.len() > 0 {
        assert(evs[0] is Char);
        lemma_query_fold_chars(q_step(q, evs[0]), evs.drop_first());
    }
}

/// Erasing only, no more times than the query is long, shrinks it by one
/// character per event.
proof fn lemma_query_fold_deletes(q: Seq<char>, evs: Seq<Event>)
    requires
        forall|j: int| 0 <= j < evs.len() ==> (#[trigger] evs[j]) is Backspace || evs[j] is Delete,
        evs.len() <= q.len(),
    ensures
        query_fold(q, evs).len() == q.len() - evs.len(),
    decreases evs.len(),
{
    if evs.len() > 0 {
        assert(evs[0] is Backspace || evs[0] is Delete);
        lemma_query_fold_deletes(q_step(q, evs[0]), evs.drop_first());
    }
}

/// The backspace round trip: a script that types `n` characters and then
/// erases `n` times leaves the query empty again — so, by the contracts of
/// `Controller::step` and `Controller::visible`, the controller is back at
/// the empty-query identity view exactly.
pub proof fn lemma_backspace_round_trip(evs: Seq<Event>, n: int)
    requires
        0 <= n,
        evs.len() == 2 * n,
        forall|j: int| 0 <= j < n ==> (#[trigger] evs[j]) is Char,
        forall|j: int| n <= j < 2 * n ==> (#[trigger] evs[j]) is Backspace || evs[j] is Delete,
    ensures
        query_fold(Seq::empty(), evs) == Seq::<char>::empty(),
{
    let a = evs.take(n);
    let b = evs.skip(n);
    assert(evs =~= a + b);
    lemma_query_fold_concat(Seq::empty(), a, b);
    assert forall|j: int| 0 <= j < a.len() implies (#[trigger] a[j]) is Char by {
        assert(a[j] == evs[j]);
    }
    assert forall|j: int| 0 <= j < b.len() implies (#[trigger] b[j]) is Backspace || b[j]
        is Delete by {
        assert(b[j] == evs[j + n]);
    }
    lemma_query_fold_chars(Seq::empty(), a);
    lemma_query_fold_deletes(query_fold(Seq::empty(), a), b);
    assert(query_fold(Seq::empty(), evs) =~= Seq::<char>::empty());
}

/// The selection controller: owns the query text, the selection cursor, the
/// item store and the query cache, and consumes input events one at a time.
pub struct Controller {
    pub table: Table,
    pub ranker: Ranker,
    pub cache: QueryCache,
    pub query: String,
    pub cursor: usize,
    pub prewarm: Vec<String>,
}

impl Controller {
    /// The window height: the capacity of every ranked window and the
    /// modulus of the cursor.
    pub open spec fn k(self) -> int {
        self.ranker.window_height as int
    }

    /// Controller well-formedness: a positive window, a cursor inside it, a
    /// well-formed cache, a cache entry for the current query whenever the
    /// query is non-empty, and no empty pre-warm candidate.
    pub open spec fn wf(self) -> bool {
        &&& self.ranker.window_height >= 1
        &&& self.cursor < self.k()
        &&& self.cache.wf(self.table.texts(), self.k())
        &&& self.query@.len() > 0 ==> self.cache.has_key(self.query@)
        &&& forall|j: int| 0 <= j < self.prewarm@.len() ==> (#[trigger] self.prewarm@[j])@.len() > 0
    }

    /// `key` is the pre-warm choice in state `s`: a candidate query not yet
    /// cached whose later candidates (in list order) are all cached already —
    /// that is, the latest uncached candidate in reverse list order.
    pub open spec fn prewarm_pick(s: Controller, key: Seq<char>) -> bool {
        exists|j: int|
            {
                &&& 0 <= j < s.prewarm@.len()
                &&& (#[trigger] s.prewarm@[j])@ == key
                &&& !s.cache.has_key(key)
                &&& forall|j2: int| j < j2 < s.prewarm@.len() ==> s.cache.has_key(s.prewarm@[j2]@)
            }
    }

    /// What Enter resolves to in state `s`: the item under the cursor of the
    /// current visible window, clamped to the last filled row, or nothing
    /// when the window is empty.
    pub open spec fn spec_selection(s: Controller) -> Option<usize> {
        if s.query@.len() == 0 {
            let count = capped(s.table.texts().len() as int, s.k());
            if count == 0 {
                None
            } else if (s.cursor as int) < count {
                Some(s.cursor)
            } else {
                Some((count - 1) as usize)
            }
        } else {
            let es = s.cache.value_at(s.query@);
            if es.len() == 0 {
                None
            } else if (s.cursor as int) < es.len() {
                Some(es[s.cursor as int].index)
            } else {
                Some(es[es.len() - 1].index)
            }
        }
    }

    pub fn new(table: Table, window_height: usize, prewarm: Vec<String>) -> (r: Controller)
        requires
            window_height >= 1,
            forall|j: int| 0 <= j < prewarm@.len() ==> (#[trigger] prewarm@[j])@.len() > 0,
        ensures
            r.wf(),
            r.table == table,
            r.ranker.window_height == window_height,
            r.query@.len() == 0,
            r.cursor == 0,
            r.cache.entries@.len() == 0,
            r.prewarm == prewarm,
    {
        Controller {
            table,
            ranker: Ranker::new(window_height),
            cache: QueryCache::new(),
            query: String::new(),
            cursor: 0,
            prewarm,
        }
    }

    /// The window to draw right now: the unfiltered head of the store for an
    /// empty query, and the cached ranking for the current query otherwise.
    pub fn visible(&self) -> (r: ResultSet)
        requires
            self.wf(),
        ensures
            self.query@.len() == 0 ==> identity_view(self.table.texts(), self.k(), r.entries@),
            self.query@.len() > 0 ==> entries_equal(r.entries@, self.cache.value_at(self.query@))
                && valid_ranking(self.table.texts(), self.query@, self.k(), r.entries@),
    {
        if self.query.as_str().is_empty() {
            identity_result(&self.table, self.ranker.window_height)
        } else {
            let rs = self.cache.lookup(&self.query).unwrap();
            let r = rs.snapshot();
            proof {
                let jq = choose|j: int|
                    0 <= j < self.cache.entries@.len() && (#[trigger] self.cache.entries@[j]).0@
                        == self.query@;
                self.cache.lemma_value_at(self.query@, jq);
                lemma_entries_equal_ranking(
                    self.table.texts(),
                    self.query@,
                    self.k(),
                    self.cache.entries@[jq].1.entries@,
                    r.entries@,
                );
            }
            r
        }
    }

    /// Consumes one input event, per the transition table: characters and
    /// deletions edit the query and re-rank (through the cache), Up and Down
    /// move the cursor with wraparound, Enter resolves the selection, Esc
    /// cancels, the idle tick warms the cache, and anything else is ignored.
    /// Cache entries are only ever added, never changed or dropped.
    pub fn step(&mut self, e: &Event) -> (r: StepResult)
        requires
            old(self).wf(),
        ensures
            final(self).wf(),
            final(self).table == old(self).table,
            final(self).ranker == old(self).ranker,
            final(self).prewarm == old(self).prewarm,
            old(self).cache.entries@.is_prefix_of(final(self).cache.entries@),
            match e {
                Event::Char(c) => {
                    &&& final(self).query@ == old(self).query@.push(*c)
                    &&& final(self).cursor == old(self).cursor
                    &&& r is Pending
                },
                Event::Backspace | Event::Delete => {
                    &&& final(self).query@ == (if old(self).query@.len() > 0 {
                        old(self).query@.drop_last()
                    } else {
                        old(self).query@
                    })
                    &&& final(self).cursor == old(self).cursor
                    &&& r is Pending
                },
                Event::Up => {
                    &&& final(self).query == old(self).query
                    &&& final(self).cache == old(self).cache
                    &&& final(self).cursor == (if old(self).cursor == 0 {
                        (old(self).k() - 1) as usize
                    } else {
                        (old(self).cursor - 1) as usize
                    })
                    &&& r is Pending
                },
                Event::Down => {
                    &&& final(self).query == old(self).query
                    &&& final(self).cache == old(self).cache
                    &&& final(self).cursor == (if old(self).cursor as int == old(self).k() - 1 {
                        0usize
                    } else {
                        (old(self).cursor + 1) as usize
                    })
                    &&& r is Pending
                },
                Event::Enter => {
                    &&& *final(self) == *old(self)
                    &&& r == StepResult::Finished(Controller::spec_selection(*old(self)))
                },
                Event::Esc => {
                    &&& *final(self) == *old(self)
                    &&& r == StepResult::Finished(None::<usize>)
                },
                Event::Tick => {
                    &&& final(self).query == old(self).query
                    &&& final(self).cursor == old(self).cursor
                    &&& final(self).cache.entries@.len() <= old(self).cache.entries@.len() + 1
                    &&& final(self).cache.entries@.len() == old(self).cache.entries@.len() + 1
                        ==> Controller::prewarm_pick(*old(self), final(self).cache.entries@.last().0@)
                    &&& r is Pending
                },
                Event::Other => {
                    &&& *final(self) == *old(self)
                    &&& r is Pending
                },
            },
    {
        match e {
            Event::Char(c) => {
                push_char(&mut self.query, *c);
                let _ = self.cache.get_or_compute(&self.table, &self.ranker, &self.query);
                StepResult::Pending
            },
            Event::Backspace | Event::Delete => {
                let _ = pop_char(&mut self.query);
                let _ = self.cache.get_or_compute(&self.table, &self.ranker, &self.query);
                StepResult::Pending
            },
            Event::Up => {
                if self.cursor == 0 {
                    self.cursor = self.ranker.window_height - 1;
                } else {
                    self.cursor = self.cursor - 1;
                }
                StepResult::Pending
            },
            Event::Down => {
                if self.cursor == self.ranker.window_height - 1 {
                    self.cursor = 0;
                } else {
                    self.cursor = self.cursor + 1;
                }
                StepResult::Pending
            },
            Event::Enter => {
                let vis = self.visible();
                let m = vis.entries.len();
                if m == 0 {
                    StepResult::Finished(None)
                } else {
                    let pos = if self.cursor < m {
                        self.cursor
                    } else {
                        m - 1
                    };
                    StepResult::Finished(Some(vis.entries[pos].index))
                }
            },
            Event::Esc => StepResult::Finished(None),
            Event::Tick => {
                match self.cache.pick_prewarm(&self.prewarm) {
                    Some(j) => {
                        let _ = self.cache.get_or_compute(
                            &self.table,
                            &self.ranker,
                            &self.prewarm[j],
                        );
                        proof {
                            assert(self.cache.entries@.last().0@ == old(self).prewarm@[
                                j as int]@);
                            assert(Controller::prewarm_pick(
                                *old(self),
                                self.cache.entries@.last().0@,
                            ));
                        }
                    },
                    None => {},
                }
                StepResult::Pending
            },
            Event::Other => StepResult::Pending,
        }
    }
}

} // verus!
