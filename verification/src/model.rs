use vstd::prelude::*;
use crate::scorer::fuzzy_result;
use crate::scorer::score_all;

verus! {

/// One candidate item: an opaque value with a stable display text. Items are
/// built once, at session start, and never change afterwards.
pub struct Row {
    pub text: String,
}

impl Row {
    pub fn new(s: &str) -> (r: Row)
        ensures
            r.text@ == s@,
    {
        Row { text: s.to_owned() }
    }
}

/// The item store: the immutable, ordered sequence of candidate items the
/// session ranks and selects from. An item's identity is its position here.
pub struct Table {
    pub rows: Vec<Row>,
}

impl Table {
    /// The display texts of the items, in store order: the sequence every
    /// ranking contract is stated over.
    pub open spec fn texts(self) -> Seq<Seq<char>> {
        self.rows@.map_values(|r: Row| r.text@)
    }

    pub fn new(rows: &[&str]) -> (t: Table)
        ensures
            t.texts().len() == rows@.len(),
            forall|i: int| 0 <= i < rows@.len() ==> t.texts()[i] == rows@[i]@,
    {
        let mut out: Vec<Row> = Vec::new();
        let n = rows.len();
        let mut i: usize = 0;
        while i < n
            invariant
                i <= n,
                n == rows@.len(),
                out@.len() == i,
                forall|j: int| 0 <= j < i ==> out@[j].text@ == rows@[j]@,
            decreases n - i,
        {
            out.push(Row::new(rows[i]));
            i += 1;
        }
        Table { rows: out }
    }

    /// The number of items in the store.
    pub fn len(&self) -> (n: usize)
        ensures
            n == self.texts().len(),
    {
        self.rows.len()
    }
}

/// One ranked entry: the store position of an item, its relevance (`None`
/// stands for "unscored", used by the unfiltered empty-query view), the
/// length of its display text, and the matched character positions.
pub struct RankedRowIndex {
    pub index: usize,
    pub score: Option<i64>,
    pub len: usize,
    pub matched: Vec<usize>,
}

/// The bounded best-of collection a ranking pass produces: at most
/// `window_height` entries, ordered by the ranking rule.
pub struct ResultSet {
    pub entries: Vec<RankedRowIndex>,
}

/// The total ranking order over scored items, on raw (score, display length,
/// store index) triples: higher score first; on equal scores the shorter
/// display text wins; on equal lengths the earlier store position wins.
pub open spec fn rank_lt(s1: i64, l1: int, i1: int, s2: i64, l2: int, i2: int) -> bool {
    ||| s1 > s2
    ||| (s1 == s2 && l1 < l2)
    ||| (s1 == s2 && l1 == l2 && i1 < i2)
}

/// Whether the query matches the item at store position `i`.
pub open spec fn item_matches(items: Seq<Seq<char>>, q: Seq<char>, i: int) -> bool {
    fuzzy_result(items[i], q) is Some
}

/// The score of the (matching) item at store position `i`.
pub open spec fn spec_score(items: Seq<Seq<char>>, q: Seq<char>, i: int) -> i64 {
    (fuzzy_result(items[i], q)->0).0
}

/// The matched character positions of the (matching) item at store position `i`.
pub open spec fn spec_matched(items: Seq<Seq<char>>, q: Seq<char>, i: int) -> Seq<usize> {
    (fuzzy_result(items[i], q)->0).1
}

/// `e` is exactly the ranked entry that scoring item `e.index` against `q`
/// produces: its score, matched positions and display length all agree with
/// the item store and the matcher.
pub open spec fn entry_for(items: Seq<Seq<char>>, q: Seq<char>, e: RankedRowIndex) -> bool {
    &&& 0 <= (e.index as int) < items.len()
    &&& item_matches(items, q, e.index as int)
    &&& e.score == Some(spec_score(items, q, e.index as int))
    &&& e.matched.deep_view() == spec_matched(items, q, e.index as int)
    &&& e.len == items[e.index as int].len()
}

/// The ranking order lifted to entries (both must be scored).
pub open spec fn entry_lt(a: RankedRowIndex, b: RankedRowIndex) -> bool {
    &&& a.score is Some
    &&& b.score is Some
    &&& rank_lt(
        a.score->0,
        a.len as int,
        a.index as int,
        b.score->0,
        b.len as int,
        b.index as int,
    )
}

/// Entry `a` ranks strictly before the entry that item `i` would produce.
pub open spec fn entry_beats_index(
    items: Seq<Seq<char>>,
    q: Seq<char>,
    a: RankedRowIndex,
    i: int,
) -> bool {
    &&& a.score is Some
    &&& rank_lt(
        a.score->0,
        a.len as int,
        a.index as int,
        spec_score(items, q, i),
        items[i].len() as int,
        i,
    )
}

/// Some entry of `es` is for the item at store position `i`.
pub open spec fn has_index(es: Seq<RankedRowIndex>, i: int) -> bool {
    exists|j: int| 0 <= j < es.len() && (#[trigger] es[j]).index as int == i
}

/// `a` capped at `k`.
pub open spec fn capped(a: int, k: int) -> int {
    if a <= k {
        a
    } else {
        k
    }
}

/// What a ranking pass over `items` with query `q` and capacity `k` must
/// return: the top `k` matching items under the total ranking order.
/// The entries are genuine (each one scored from its item), strictly ordered
/// by the ranking rule, one per item, and complete: a matching item is absent
/// only when the set is full and every present entry ranks before it.
/// These clauses determine the sequence uniquely (`lemma_ranking_unique`).
pub open spec fn valid_ranking(
    items: Seq<Seq<char>>,
    q: Seq<char>,
    k: int,
    es: Seq<RankedRowIndex>,
) -> bool {
    &&& es.len() <= k
    &&& forall|j: int| 0 <= j < es.len() ==> entry_for(items, q, #[trigger] es[j])
    &&& forall|j1: int, j2: int|
        0 <= j1 < j2 < es.len() ==> entry_lt(#[trigger] es[j1], #[trigger] es[j2])
    &&& forall|j1: int, j2: int|
        0 <= j1 < j2 < es.len() ==> (#[trigger] es[j1]).index != (#[trigger] es[j2]).index
    &&& forall|i: int|
        0 <= i < items.len() && #[trigger] item_matches(items, q, i) && !has_index(es, i) ==> es.len()
            == k && (forall|j: int|
            0 <= j < es.len() ==> entry_beats_index(items, q, #[trigger] es[j], i))
}

/// The unfiltered view an empty query yields: the first `k` items of the
/// store in their original order, unscored and without matched positions.
pub open spec fn identity_view(items: Seq<Seq<char>>, k: int, es: Seq<RankedRowIndex>) -> bool {
    &&& es.len() == capped(items.len() as int, k)
    &&& forall|j: int|
        0 <= j < es.len() ==> (#[trigger] es[j]).index as int == j && es[j].score is None
            && es[j].len == items[j].len() && es[j].matched.deep_view().len() == 0
}

/// The two entry sequences hold the same ranking data at every position:
/// the same item, score, display length and matched positions.
pub open spec fn entries_equal(a: Seq<RankedRowIndex>, b: Seq<RankedRowIndex>) -> bool {
    &&& a.len() == b.len()
    &&& forall|j: int|
        0 <= j < a.len() ==> (#[trigger] a[j]).index == b[j].index && a[j].score == b[j].score
            && a[j].len == b[j].len && a[j].matched.deep_view() == b[j].matched.deep_view()
}

/// A valid ranking stays valid across an `entries_equal` copy: every clause
/// of `valid_ranking` reads only the data that the copy preserves.
pub proof fn lemma_entries_equal_ranking(
    items: Seq<Seq<char>>,
    q: Seq<char>,
    k: int,
    a: Seq<RankedRowIndex>,
    b: Seq<RankedRowIndex>,
)
    requires
        valid_ranking(items, q, k, a),
        entries_equal(a, b),
    ensures
        valid_ranking(items, q, k, b),
{
    assert forall|j: int| 0 <= j < b.len() implies entry_for(items, q, #[trigger] b[j]) by {
        assert(entry_for(items, q, a[j]));
    }
    assert forall|j1: int, j2: int| 0 <= j1 < j2 < b.len() implies entry_lt(
        #[trigger] b[j1],
        #[trigger] b[j2],
    ) by {
        assert(entry_lt(a[j1], a[j2]));
    }
    assert forall|i: int|
        0 <= i < items.len() && #[trigger] item_matches(items, q, i) && !has_index(
            b,
            i,
        ) implies b.len() == k && (forall|j: int|
        0 <= j < b.len() ==> entry_beats_index(items, q, #[trigger] b[j], i)) by {
        if has_index(a, i) {
            let j = choose|j: int| 0 <= j < a.len() && (#[trigger] a[j]).index as int == i;
            assert(b[j].index as int == i);
            assert(has_index(b, i));
        }
        assert forall|j: int| 0 <= j < b.len() implies entry_beats_index(
            items,
            q,
            #[trigger] b[j],
            i,
        ) by {
            assert(entry_beats_index(items, q, a[j], i));
        }
    }
}

impl RankedRowIndex {
    /// An equal copy of the entry.
    pub fn duplicate(&self) -> (r: RankedRowIndex)
        ensures
            r.index == self.index,
            r.score == self.score,
            r.len == self.len,
            r.matched.deep_view() == self.matched.deep_view(),
    {
        let m = self.matched.clone();
        proof {
            assert(m@ =~= self.matched@);
            assert(m.deep_view() =~= self.matched.deep_view());
        }
        RankedRowIndex { index: self.index, score: self.score, len: self.len, matched: m }
    }
}

impl ResultSet {
    /// An `entries_equal` copy of the whole result set, handed out so the
    /// stored original stays untouched in the cache.
    pub fn snapshot(&self) -> (r: ResultSet)
        ensures
            entries_equal(r.entries@, self.entries@),
    {
        let mut out: Vec<RankedRowIndex> = Vec::new();
        let n = self.entries.len();
        let mut j: usize = 0;
        while j < n
            invariant
                j <= n,
                n == self.entries@.len(),
                out@.len() == j,
                forall|p: int|
                    0 <= p < j ==> (#[trigger] out@[p]).index == self.entries@[p].index
                        && out@[p].score == self.entries@[p].score && out@[p].len
                        == self.entries@[p].len && out@[p].matched.deep_view()
                        == self.entries@[p].matched.deep_view(),
            decreases n - j,
        {
            out.push(self.entries[j].duplicate());
            j += 1;
        }
        ResultSet { entries: out }
    }
}

/// Ranking-order comparison of two scored entries.
fn entry_before(a: &RankedRowIndex, b: &RankedRowIndex) -> (r: bool)
    requires
        a.score is Some,
        b.score is Some,
    ensures
        r == entry_lt(*a, *b),
{
    let sa = a.score.unwrap();
    let sb = b.score.unwrap();
    if sa != sb {
        sa > sb
    } else if a.len != b.len {
        a.len < b.len
    } else {
        a.index < b.index
    }
}

/// The constructive description of a successful bounded insertion: `e` went
/// in at position `p`, between the entries that rank before it and those that
/// rank after it, and the result was capped at `k` entries.
pub open spec fn insert_outcome(
    pre: Seq<RankedRowIndex>,
    e: RankedRowIndex,
    k: int,
    post: Seq<RankedRowIndex>,
    p: int,
) -> bool {
    &&& 0 <= p <= pre.len()
    &&& forall|j: int| 0 <= j < p ==> entry_lt(#[trigger] pre[j], e)
    &&& forall|j: int| p <= j < pre.len() ==> entry_lt(e, #[trigger] pre[j])
    &&& post == pre.insert(p, e).take(capped(pre.len() as int + 1, k))
}

/// Inserts `e` into the sorted bounded vector `es`, keeping the order and
/// dropping the worst entry once more than `k` are held. The new entry is
/// rejected outright when the vector is full of better entries.
fn insert_bounded(es: &mut Vec<RankedRowIndex>, e: RankedRowIndex, k: usize)
    requires
        k >= 1,
        old(es)@.len() <= k,
        e.score is Some,
        forall|j: int| 0 <= j < old(es)@.len() ==> (#[trigger] old(es)@[j]).score is Some,
        forall|j1: int, j2: int|
            0 <= j1 < j2 < old(es)@.len() ==> entry_lt(#[trigger] old(es)@[j1], #[trigger] old(es)@[j2]),
        forall|j: int| 0 <= j < old(es)@.len() ==> (#[trigger] old(es)@[j]).index != e.index,
    ensures
        final(es)@.len() == capped(old(es)@.len() as int + 1, k as int),
        forall|j1: int, j2: int|
            0 <= j1 < j2 < final(es)@.len() ==> entry_lt(
                #[trigger] final(es)@[j1],
                #[trigger] final(es)@[j2],
            ),
        forall|j: int|
            0 <= j < final(es)@.len() ==> old(es)@.contains(#[trigger] final(es)@[j])
                || final(es)@[j] == e,
        ({
            &&& final(es)@ == old(es)@
            &&& old(es)@.len() == k
            &&& forall|j: int| 0 <= j < old(es)@.len() ==> entry_lt(#[trigger] old(es)@[j], e)
        }) || (exists|p: int| #[trigger] insert_outcome(old(es)@, e, k as int, final(es)@, p)),
{
    let ghost pre = es@;
    let mut p: usize = 0;
    let n = es.len();
    while p < n && entry_before(&es[p], &e)
        invariant
            p <= n,
            n == es@.len(),
            es@ == pre,
            e.score is Some,
            forall|j: int| 0 <= j < es@.len() ==> (#[trigger] es@[j]).score is Some,
            forall|j: int| 0 <= j < p ==> entry_lt(#[trigger] es@[j], e),
        decreases n - p,
    {
        p += 1;
    }
    proof {
        // Beyond the found position every held entry ranks after `e`: the one
        // at `p` by totality of the order (the indices differ), the rest by
        // the sortedness of `es`.
        if p < pre.len() {
            assert(!entry_lt(pre[p as int], e));
            assert(entry_lt(e, pre[p as int]));
            assert forall|j: int| p <= j < pre.len() implies entry_lt(e, #[trigger] pre[j]) by {
                if j > p {
                    assert(entry_lt(pre[p as int], pre[j]));
                }
            }
        }
    }
    if p >= k {
        // The vector holds `k` better entries: `e` is dropped.
        return ;
    }
    proof {
        pre.insert_ensures(p as int, e);
    }
    es.insert(p, e);
    if es.len() > k {
        es.pop();
        proof {
            let inserted = pre.insert(p as int, e);
            assert(es@ =~= inserted.take(k as int));
        }
    } else {
        proof {
            let inserted = pre.insert(p as int, e);
            assert(es@ =~= inserted.take(capped(pre.len() as int + 1, k as int)));
        }
    }
    proof {
        let inserted = pre.insert(p as int, e);
        let m = capped(pre.len() as int + 1, k as int);
        assert(es@ == inserted.take(m));
        assert(insert_outcome(pre, e, k as int, es@, p as int));
        assert forall|j1: int, j2: int| 0 <= j1 < j2 < es@.len() implies entry_lt(
            #[trigger] es@[j1],
            #[trigger] es@[j2],
        ) by {
            lemma_inserted_sorted(pre, e, p as int, j1, j2);
        }
        assert forall|j: int| 0 <= j < es@.len() implies pre.contains(#[trigger] es@[j]) || es@[j]
            == e by {
            if j < p {
                assert(es@[j] == pre[j]);
                assert(pre.contains(pre[j]));
            } else if j > p {
                assert(es@[j] == pre[j - 1]);
                assert(pre.contains(pre[j - 1]));
            }
        }
    }
}

/// The ranking engine: scores every item of a store against a query, with a
/// parallel fan-out across the items, and folds the matching ones into a
/// `ResultSet` bounded by the window height.
pub struct Ranker {
    pub window_height: usize,
}

impl Ranker {
    pub fn new(window_height: usize) -> (r: Ranker)
        ensures
            r.window_height == window_height,
    {
        Ranker { window_height }
    }

    /// Scores every item against `query` and returns the best matches, at
    /// most `window_height` of them, under the ranking rule. The contract
    /// pins the result down to one sequence (`lemma_ranking_unique`), so the
    /// outcome cannot depend on how the scoring work was partitioned.
    pub fn rank_all(&self, table: &Table, query: &str) -> (r: ResultSet)
        requires
            self.window_height >= 1,
            query@.len() > 0,
        ensures
            valid_ranking(table.texts(), query@, self.window_height as int, r.entries@),
    {
        let ghost items = table.texts();
        let ghost q = query@;
        let k = self.window_height;
        let mut scored = score_all(&table.rows, query);
        let mut es: Vec<RankedRowIndex> = Vec::new();
        let mut i: usize = scored.len();
        while i > 0
            invariant
                k == self.window_height,
                k >= 1,
                items == table.texts(),
                q == query@,
                items.len() == table.rows@.len(),
                scored@.len() == i,
                i <= items.len(),
                forall|j: int|
                    0 <= j < i ==> (#[trigger] scored@[j]).deep_view() == fuzzy_result(
                        items[j],
                        q,
                    ),
                es@.len() <= k,
                forall|j: int| 0 <= j < es@.len() ==> entry_for(items, q, #[trigger] es@[j]),
                forall|j: int| 0 <= j < es@.len() ==> i <= (#[trigger] es@[j]).index as int,
                forall|j1: int, j2: int|
                    0 <= j1 < j2 < es@.len() ==> entry_lt(#[trigger] es@[j1], #[trigger] es@[j2]),
                forall|t: int|
                    i <= t < items.len() && #[trigger] item_matches(items, q, t) && !has_index(
                        es@,
                        t,
                    ) ==> es@.len() == k && (forall|j: int|
                        0 <= j < es@.len() ==> entry_beats_index(items, q, #[trigger] es@[j], t)),
            decreases i,
        {
            i -= 1;
            let sc = scored.pop().unwrap();
            match sc {
                None => {
                    proof {
                        assert(fuzzy_result(items[i as int], q) is None);
                    }
                },
                Some(pair) => {
                    let ghost pre_es = es@;
                    let tl = table.rows[i].text.as_str().unicode_len();
                    let (s, mv) = pair;
                    let ghost mvv = mv.deep_view();
                    let e = RankedRowIndex { index: i, score: Some(s), len: tl, matched: mv };
                    proof {
                        assert(fuzzy_result(items[i as int], q) == Some((s, mvv)));
                        assert(entry_for(items, q, e));
                    }
                    insert_bounded(&mut es, e, k);
                    proof {
                        lemma_rank_step(items, q, k as int, pre_es, e, es@, i as int);
                    }
                },
            }
        }
        proof {
            assert forall|j1: int, j2: int|
                0 <= j1 < j2 < es@.len() implies (#[trigger] es@[j1]).index
                != (#[trigger] es@[j2]).index by {
                assert(entry_lt(es@[j1], es@[j2]));
            }
        }
        ResultSet { entries: es }
    }
}

/// One folding step of the ranking pass preserves its invariants: after the
/// bounded insertion of the freshly scored entry `e` for item `i`, the held
/// entries are still genuine, still cover every matching item of the widened
/// range, and any matching item left out is beaten by all of them.
proof fn lemma_rank_step(
    items: Seq<Seq<char>>,
    q: Seq<char>,
    k: int,
    pre: Seq<RankedRowIndex>,
    e: RankedRowIndex,
    post: Seq<RankedRowIndex>,
    i: int,
)
    requires
        k >= 1,
        0 <= i < items.len(),
        entry_for(items, q, e),
        e.index as int == i,
        pre.len() <= k,
        forall|j: int| 0 <= j < pre.len() ==> entry_for(items, q, #[trigger] pre[j]),
        forall|j: int| 0 <= j < pre.len() ==> i + 1 <= (#[trigger] pre[j]).index as int,
        forall|j1: int, j2: int|
            0 <= j1 < j2 < pre.len() ==> entry_lt(#[trigger] pre[j1], #[trigger] pre[j2]),
        forall|t: int|
            i + 1 <= t < items.len() && #[trigger] item_matches(items, q, t) && !has_index(pre, t)
                ==> pre.len() == k && (forall|j: int|
                0 <= j < pre.len() ==> entry_beats_index(items, q, #[trigger] pre[j], t)),
        // what the bounded insertion ensured
        post.len() == capped(pre.len() as int + 1, k),
        forall|j1: int, j2: int|
            0 <= j1 < j2 < post.len() ==> entry_lt(#[trigger] post[j1], #[trigger] post[j2]),
        forall|j: int| 0 <= j < post.len() ==> pre.contains(#[trigger] post[j]) || post[j] == e,
        ({
            &&& post == pre
            &&& pre.len() == k
            &&& forall|j: int| 0 <= j < pre.len() ==> entry_lt(#[trigger] pre[j], e)
        }) || (exists|p: int| #[trigger] insert_outcome(pre, e, k, post, p)),
    ensures
        post.len() <= k,
        forall|j: int| 0 <= j < post.len() ==> entry_for(items, q, #[trigger] post[j]),
        forall|j: int| 0 <= j < post.len() ==> i <= (#[trigger] post[j]).index as int,
        forall|t: int|
            i <= t < items.len() && #[trigger] item_matches(items, q, t) && !has_index(post, t)
                ==> post.len() == k && (forall|j: int|
                0 <= j < post.len() ==> entry_beats_index(items, q, #[trigger] post[j], t)),
{
    // Genuineness and the index bound carry over: every held entry is either
    // an old one or `e` itself.
    assert forall|j: int| 0 <= j < post.len() implies entry_for(items, q, #[trigger] post[j]) && i
        <= post[j].index as int by {
        if post[j] != e {
            assert(pre.contains(post[j]));
            let j2 = choose|j2: int| 0 <= j2 < pre.len() && pre[j2] == post[j];
            assert(entry_for(items, q, pre[j2]));
        }
    }
    assert forall|t: int|
        i <= t < items.len() && #[trigger] item_matches(items, q, t) && !has_index(
            post,
            t,
        ) implies post.len() == k && (forall|j: int|
        0 <= j < post.len() ==> entry_beats_index(items, q, #[trigger] post[j], t)) by {
        if exists|p: int| insert_outcome(pre, e, k, post, p) {
            let p = choose|p: int| #[trigger] insert_outcome(pre, e, k, post, p);
            pre.insert_ensures(p, e);
            let inserted = pre.insert(p, e);
            let m = capped(pre.len() as int + 1, k);
            lemma_rank_step_inserted(items, q, k, pre, e, post, i, t, p);
        } else {
            // `e` was rejected: the vector already held `k` better entries.
            assert(post == pre);
            if t == i {
                assert forall|j: int| 0 <= j < post.len() implies entry_beats_index(
                    items,
                    q,
                    #[trigger] post[j],
                    t,
                ) by {
                    assert(entry_lt(pre[j], e));
                }
            }
        }
    }
}

/// The completeness argument for one folding step, in the case where the
/// bounded insertion really did insert `e` at some position `p`.
proof fn lemma_rank_step_inserted(
    items: Seq<Seq<char>>,
    q: Seq<char>,
    k: int,
    pre: Seq<RankedRowIndex>,
    e: RankedRowIndex,
    post: Seq<RankedRowIndex>,
    i: int,
    t: int,
    p: int,
)
    requires
        k >= 1,
        0 <= i < items.len(),
        entry_for(items, q, e),
        e.index as int == i,
        pre.len() <= k,
        forall|j: int| 0 <= j < pre.len() ==> entry_for(items, q, #[trigger] pre[j]),
        forall|j: int| 0 <= j < pre.len() ==> i + 1 <= (#[trigger] pre[j]).index as int,
        forall|j1: int, j2: int|
            0 <= j1 < j2 < pre.len() ==> entry_lt(#[trigger] pre[j1], #[trigger] pre[j2]),
        forall|t2: int|
            i + 1 <= t2 < items.len() && #[trigger] item_matches(items, q, t2) && !has_index(
                pre,
                t2,
            ) ==> pre.len() == k && (forall|j: int|
                0 <= j < pre.len() ==> entry_beats_index(items, q, #[trigger] pre[j], t2)),
        insert_outcome(pre, e, k, post, p),
        i <= t < items.len(),
        item_matches(items, q, t),
        !has_index(post, t),
    ensures
        post.len() == k,
        forall|j: int| 0 <= j < post.len() ==> entry_beats_index(items, q, #[trigger] post[j], t),
{
    pre.insert_ensures(p, e);
    let inserted = pre.insert(p, e);
    let m = capped(pre.len() as int + 1, k);
    assert(post == inserted.take(m));
    assert(post.len() == m);
    assert(forall|j: int| 0 <= j < m ==> #[trigger] post[j] == inserted[j]);
    if t == i {
        // `e` itself is the entry for `t`; it is absent from `post`, which can
        // only happen when it was pushed off the end of a full vector.
        if p < m {
            assert(post[p] == e);
            assert((post[p]).index as int == t);
            assert(has_index(post, t));
        }
        assert(p >= m);
        assert(pre.len() == k);
        assert(p == k);
        assert forall|j: int| 0 <= j < post.len() implies entry_beats_index(
            items,
            q,
            #[trigger] post[j],
            t,
        ) by {
            assert(post[j] == inserted[j]);
            assert(inserted[j] == pre[j]);
            assert(entry_lt(pre[j], e));
        }
    } else {
        // `t` is an older item. Either its entry was just pushed off the end,
        // or it had already been left out of the full vector.
        if has_index(pre, t) {
            let jt = choose|jt: int| 0 <= jt < pre.len() && (#[trigger] pre[jt]).index as int == t;
            let d = pre[jt];
            assert(entry_for(items, q, d));
            // Every position of `pre` except the last survives into `post`.
            if jt < p {
                assert(inserted[jt] == pre[jt]);
                if jt < m {
                    assert(post[jt] == pre[jt]);
                    assert((post[jt]).index as int == t);
                    assert(has_index(post, t));
                }
                assert(jt >= m);
                assert(false);
            } else {
                assert(inserted[jt + 1] == pre[jt]);
                if jt + 1 < m {
                    assert(post[jt + 1] == pre[jt]);
                    assert((post[jt + 1]).index as int == t);
                    assert(has_index(post, t));
                    assert(false);
                }
                // So the dropped entry is the old last one, and the vector was full.
                assert(jt + 1 >= m);
                assert(pre.len() == k);
                assert(m == k);
                assert(jt == k - 1);
                assert(p <= k - 1);
                assert forall|j: int| 0 <= j < post.len() implies entry_beats_index(
                    items,
                    q,
                    #[trigger] post[j],
                    t,
                ) by {
                    assert(post[j] == inserted[j]);
                    if j < p {
                        assert(inserted[j] == pre[j]);
                        if j < jt {
                            assert(entry_lt(pre[j], d));
                        } else {
                            assert(j == jt);
                            assert(false);
                        }
                    } else if j == p {
                        assert(inserted[j] == e);
                        assert(entry_lt(e, pre[jt]));
                    } else {
                        assert(inserted[j] == pre[j - 1]);
                        assert(j - 1 < jt);
                        assert(entry_lt(pre[j - 1], d));
                    }
                }
            }
        } else {
            // Already left out before this step: the vector was full and every
            // old entry beat `t`; the new entry `e` beats `t` through the old
            // entry it displaced.
            assert(pre.len() == k && (forall|j: int|
                0 <= j < pre.len() ==> entry_beats_index(items, q, #[trigger] pre[j], t)));
            assert(m == k);
            assert forall|j: int| 0 <= j < post.len() implies entry_beats_index(
                items,
                q,
                #[trigger] post[j],
                t,
            ) by {
                assert(post[j] == inserted[j]);
                if j < p {
                    assert(inserted[j] == pre[j]);
                } else if j == p {
                    assert(inserted[j] == e);
                    assert(p < m);
                    assert(p < pre.len());
                    assert(entry_lt(e, pre[p]));
                    assert(entry_beats_index(items, q, pre[p], t));
                } else {
                    assert(inserted[j] == pre[j - 1]);
                }
            }
        }
    }
}

/// The ordering invariant of a valid ranking, read entry against next
/// entry: scores never increase down the window; on equal scores the
/// display lengths never decrease; and on equal scores and lengths the
/// original store order is kept.
pub proof fn lemma_ordering_invariant(
    items: Seq<Seq<char>>,
    q: Seq<char>,
    k: int,
    es: Seq<RankedRowIndex>,
    j: int,
)
    requires
        valid_ranking(items, q, k, es),
        0 <= j,
        j + 1 < es.len(),
    ensures
        es[j].score->0 >= es[j + 1].score->0,
        es[j].score->0 == es[j + 1].score->0 ==> es[j].len <= es[j + 1].len,
        es[j].score->0 == es[j + 1].score->0 && es[j].len == es[j + 1].len ==> es[j].index < es[j
            + 1].index,
{
    assert(entry_lt(es[j], es[j + 1]));
}

/// The store indices named by a sequence of ranked entries.
pub open spec fn index_seq(es: Seq<RankedRowIndex>) -> Seq<int> {
    Seq::new(es.len(), |j: int| es[j].index as int)
}

/// An index present in one valid ranking is present in the other: were it
/// missing, a counting argument hands us an index the two rankings each
/// claim to beat the other on, which the total order forbids.
proof fn lemma_index_present(
    items: Seq<Seq<char>>,
    q: Seq<char>,
    k: int,
    r1: Seq<RankedRowIndex>,
    r2: Seq<RankedRowIndex>,
    i: int,
)
    requires
        valid_ranking(items, q, k, r1),
        valid_ranking(items, q, k, r2),
        has_index(r1, i),
    ensures
        has_index(r2, i),
{
    broadcast use vstd::seq_lib::group_seq_properties;

    if !has_index(r2, i) {
        let j1 = choose|j: int| 0 <= j < r1.len() && (#[trigger] r1[j]).index as int == i;
        let e1 = r1[j1];
        assert(entry_for(items, q, e1));
        assert(item_matches(items, q, i));
        assert(r2.len() == k);
        let idx1 = index_seq(r1);
        let idx2 = index_seq(r2);
        assert(idx1.no_duplicates());
        assert(idx2.no_duplicates());
        idx1.unique_seq_to_set();
        idx2.unique_seq_to_set();
        let s1 = idx1.to_set();
        let s2 = idx2.to_set();
        assert(idx1[j1] == i);
        assert(idx1.contains(i));
        assert(s1.contains(i));
        let small = s1.remove(i);
        assert(small.len() == r1.len() - 1);
        if s2.subset_of(small) {
            vstd::set_lib::lemma_len_subset(s2, small);
            assert(k <= r1.len() - 1);
            assert(r1.len() <= k);
        }
        let t = choose|t: int| s2.contains(t) && !small.contains(t);
        if t == i {
            assert(idx2.contains(i));
            let jw = choose|jw: int| 0 <= jw < idx2.len() && idx2[jw] == i;
            assert(r2[jw].index as int == i);
            assert(has_index(r2, i));
        }
        assert(!s1.contains(t));
        // `t` is ranked in r2 but not in r1; each ranking therefore claims
        // to beat the other's index, which the strict total order cannot
        // allow.
        let jt = choose|jw: int| 0 <= jw < idx2.len() && idx2[jw] == t;
        let f = r2[jt];
        assert(f.index as int == t);
        assert(entry_for(items, q, f));
        assert(item_matches(items, q, t));
        if has_index(r1, t) {
            let jw = choose|jw: int| 0 <= jw < r1.len() && (#[trigger] r1[jw]).index as int == t;
            assert(idx1[jw] == t);
            assert(s1.contains(t));
        }
        assert(entry_beats_index(items, q, e1, t));
        assert(entry_beats_index(items, q, f, i));
    }
}

/// Two valid rankings agree on the index at position `j` once they agree on
/// all earlier positions: the strict order pins each position down.
proof fn lemma_position_agrees(
    items: Seq<Seq<char>>,
    q: Seq<char>,
    k: int,
    r1: Seq<RankedRowIndex>,
    r2: Seq<RankedRowIndex>,
    j: int,
)
    requires
        valid_ranking(items, q, k, r1),
        valid_ranking(items, q, k, r2),
        r1.len() == r2.len(),
        0 <= j < r1.len(),
        forall|j2: int| 0 <= j2 < j ==> (#[trigger] r1[j2]).index == r2[j2].index,
    ensures
        r1[j].index == r2[j].index,
{
    let i1 = r1[j].index as int;
    let i2 = r2[j].index as int;
    if i1 != i2 {
        assert(has_index(r1, i1));
        if !has_index(r2, i1) {
            lemma_index_present(items, q, k, r1, r2, i1);
        }
        let p = choose|p: int| 0 <= p < r2.len() && (#[trigger] r2[p]).index as int == i1;
        assert(p != j);
        if p < j {
            assert(r1[p].index == r2[p].index);
            assert(r1[p].index as int == i1);
        }
        assert(p > j);
        assert(has_index(r2, i2));
        if !has_index(r1, i2) {
            lemma_index_present(items, q, k, r2, r1, i2);
        }
        let p2 = choose|p2: int| 0 <= p2 < r1.len() && (#[trigger] r1[p2]).index as int == i2;
        assert(p2 != j);
        if p2 < j {
            assert(r1[p2].index == r2[p2].index);
            assert(r2[p2].index as int == i2);
        }
        assert(p2 > j);
        // Each ranking now places the other's index strictly later, so the
        // order runs both ways between the two items at once.
        assert(entry_lt(r2[j], r2[p]));
        assert(entry_lt(r1[j], r1[p2]));
        assert(entry_for(items, q, r1[j]));
        assert(entry_for(items, q, r2[j]));
        assert(entry_for(items, q, r1[p2]));
        assert(entry_for(items, q, r2[p]));
    }
}

/// Two valid rankings agree on every position below `j`.
proof fn lemma_positions_agree_up_to(
    items: Seq<Seq<char>>,
    q: Seq<char>,
    k: int,
    r1: Seq<RankedRowIndex>,
    r2: Seq<RankedRowIndex>,
    j: int,
)
    requires
        valid_ranking(items, q, k, r1),
        valid_ranking(items, q, k, r2),
        r1.len() == r2.len(),
        0 <= j <= r1.len(),
    ensures
        forall|j2: int| 0 <= j2 < j ==> (#[trigger] r1[j2]).index == r2[j2].index,
    decreases j,
{
    if j > 0 {
        lemma_positions_agree_up_to(items, q, k, r1, r2, j - 1);
        lemma_position_agrees(items, q, k, r1, r2, j - 1);
    }
}

/// Determinism of ranking: for a fixed item store, query and capacity, any
/// two sequences that satisfy `valid_ranking` have the same length and the
/// same entry — index, score, display length and matched positions — at
/// every position. The content and order of a ranking pass therefore depend
/// on nothing but the store and the query.
pub proof fn lemma_ranking_unique(
    items: Seq<Seq<char>>,
    q: Seq<char>,
    k: int,
    r1: Seq<RankedRowIndex>,
    r2: Seq<RankedRowIndex>,
)
    requires
        valid_ranking(items, q, k, r1),
        valid_ranking(items, q, k, r2),
    ensures
        r1.len() == r2.len(),
        forall|j: int|
            0 <= j < r1.len() ==> (#[trigger] r1[j]).index == r2[j].index && r1[j].score
                == r2[j].score && r1[j].len == r2[j].len && r1[j].matched.deep_view()
                == r2[j].matched.deep_view(),
{
    broadcast use vstd::seq_lib::group_seq_properties;

    if r1.len() != r2.len() {
        let (a, b): (Seq<RankedRowIndex>, Seq<RankedRowIndex>) = if r1.len() < r2.len() {
            (r1, r2)
        } else {
            (r2, r1)
        };
        // The longer ranking holds an index the shorter one lacks.
        let idxa = index_seq(a);
        let idxb = index_seq(b);
        assert(idxa.no_duplicates());
        assert(idxb.no_duplicates());
        idxa.unique_seq_to_set();
        idxb.unique_seq_to_set();
        if idxb.to_set().subset_of(idxa.to_set()) {
            vstd::set_lib::lemma_len_subset(idxb.to_set(), idxa.to_set());
        }
        let t = choose|t: int| idxb.to_set().contains(t) && !idxa.to_set().contains(t);
        let jt = choose|jw: int| 0 <= jw < idxb.len() && idxb[jw] == t;
        assert(b[jt].index as int == t);
        assert(has_index(b, t));
        if has_index(a, t) {
            let jw = choose|jw: int| 0 <= jw < a.len() && (#[trigger] a[jw]).index as int == t;
            assert(idxa[jw] == t);
            assert(idxa.to_set().contains(t));
        }
        lemma_index_present(items, q, k, b, a, t);
    }
    lemma_positions_agree_up_to(items, q, k, r1, r2, r1.len() as int);
    assert forall|j: int|
        0 <= j < r1.len() implies (#[trigger] r1[j]).index == r2[j].index && r1[j].score
        == r2[j].score && r1[j].len == r2[j].len && r1[j].matched.deep_view()
        == r2[j].matched.deep_view() by {
        assert(entry_for(items, q, r1[j]));
        assert(entry_for(items, q, r2[j]));
    }
}

/// Order is kept at any two positions of a capped insertion into a sorted
/// vector, given that everything before `p` ranks before `e` and everything
/// from `p` on ranks after it.
proof fn lemma_inserted_sorted(pre: Seq<RankedRowIndex>, e: RankedRowIndex, p: int, j1: int, j2: int)
    requires
        0 <= p <= pre.len(),
        forall|j1: int, j2: int|
            0 <= j1 < j2 < pre.len() ==> entry_lt(#[trigger] pre[j1], #[trigger] pre[j2]),
        forall|j: int| 0 <= j < p ==> entry_lt(#[trigger] pre[j], e),
        forall|j: int| p <= j < pre.len() ==> entry_lt(e, #[trigger] pre[j]),
        0 <= j1 < j2 < pre.insert(p, e).len(),
    ensures
        entry_lt(pre.insert(p, e)[j1], pre.insert(p, e)[j2]),
{
    pre.insert_ensures(p, e);
}

} // verus!

