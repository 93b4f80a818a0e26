use vstd::prelude::*;

pub mod cache;
pub mod control;
pub mod model;
pub mod render;
pub mod scorer;
pub mod session;
pub mod text;

verus! {

use crate::control::Controller;
use crate::control::Event;
use crate::control::StepResult;
use crate::control::cursor_fold;
use crate::control::default_prewarm;
use crate::control::first_stop;
use crate::control::lemma_cursor_fold_range;
use crate::control::lemma_cursor_fold_snoc;
use crate::control::lemma_first_stop_charn;
use crate::control::lemma_query_fold_snoc;
use crate::control::query_fold;
use crate::control::terminal_event;
use crate::model::RankedRowIndex;
use crate::model::Table;
use crate::model::capped;
use crate::model::lemma_ranking_unique;
use crate::model::valid_ranking;
use crate::render::DrawOp;
use crate::render::Renderer;
use crate::render::frame_op;
use crate::render::prompt_ops;
use crate::session::Session;
use crate::session::TermState;
use crate::session::apply_ops;
use crate::session::lemma_apply_concat;

/// The display texts of the input items, in their given order.
pub open spec fn item_texts(input: Seq<&str>) -> Seq<Seq<char>> {
    input.map_values(|s: &str| s@)
}

/// How many events a run processes: everything up to and including the
/// first terminal event, or the whole script when it holds none.
pub open spec fn processed_count(evs: Seq<Event>) -> int {
    if first_stop(evs) < evs.len() {
        first_stop(evs) + 1
    } else {
        evs.len() as int
    }
}

/// One full rendered frame over a window of height `wh`: the exact shape
/// `Renderer::render` emits — the four prompt instructions first, showing
/// exactly the query `q` after the fixed picker prompt, then the header and
/// the `wh` rows, and nothing that touches raw mode, mouse capture or the
/// viewport size.
pub open spec fn full_frame(wh: int, header: Option<String>, q: Seq<char>, ops: Seq<DrawOp>) -> bool {
    let hlen: int = if header is Some {
        2
    } else {
        0
    };
    &&& ops.len() == 4 + hlen + 3 * wh + 2
    &&& prompt_ops("> "@, q, ops.subrange(0, 4))
    &&& forall|j: int| 0 <= j < ops.len() ==> frame_op(#[trigger] ops[j])
}

/// One decomposition of a run's instruction stream: the session setup, an
/// initial frame, one further frame after every processed event — each
/// frame's prompt line showing the query as of that moment — and the
/// restoration sequence at the end.
pub open spec fn run_ops_parts(
    wh: int,
    header: Option<String>,
    evs: Seq<Event>,
    ops: Seq<DrawOp>,
    enter_part: Seq<DrawOp>,
    frames: Seq<Seq<DrawOp>>,
    exit_part: Seq<DrawOp>,
) -> bool {
    &&& ops == enter_part + frames.flatten() + exit_part
    &&& frames.len() == 1 + processed_count(evs)
    &&& forall|t: int|
        0 <= t < frames.len() ==> full_frame(
            wh,
            header,
            query_fold(Seq::empty(), evs.take(t)),
            #[trigger] frames[t],
        )
}

/// The render cadence of a run: its instruction stream holds one full
/// rendered frame at session start and one after every processed event,
/// between the session setup and the restoration sequence.
pub open spec fn run_ops_shape(
    wh: int,
    header: Option<String>,
    evs: Seq<Event>,
    ops: Seq<DrawOp>,
) -> bool {
    exists|enter_part: Seq<DrawOp>, frames: Seq<Seq<DrawOp>>, exit_part: Seq<DrawOp>|
        #[trigger] run_ops_parts(wh, header, evs, ops, enter_part, frames, exit_part)
}

/// What a finished run returns, given the item texts, the window height and
/// the event script. Nothing comes back when the script runs out or ends in
/// Esc. On Enter, the item under the (clamped) cursor of the window current
/// at that moment comes back: the head of the store for an empty query; for
/// a non-empty query, the entry of any valid ranking — they all agree — or
/// nothing when the query matched no item at all.
pub open spec fn run_result_ok(
    items: Seq<Seq<char>>,
    k: int,
    evs: Seq<Event>,
    out: Option<String>,
) -> bool {
    let stop = first_stop(evs);
    let q = query_fold(Seq::empty(), evs.take(stop));
    let cur = cursor_fold(0, k, evs.take(stop));
    if stop == evs.len() || evs[stop] is Esc {
        out is None
    } else if q.len() == 0 {
        let count = capped(items.len() as int, k);
        if count == 0 {
            out is None
        } else {
            let pos = if cur < count {
                cur
            } else {
                count - 1
            };
            (out matches Some(s) && s@ == items[pos])
        }
    } else {
        &&& exists|es: Seq<RankedRowIndex>| #[trigger] valid_ranking(items, q, k, es)
        &&& forall|es: Seq<RankedRowIndex>|
            #[trigger] valid_ranking(items, q, k, es) ==> (if es.len() == 0 {
                out is None
            } else {
                let pos = if cur < es.len() {
                    cur
                } else {
                    es.len() - 1
                };
                (out matches Some(s) && s@ == items[es[pos].index as int])
            })
    }
}

/// The store-index form of `run_result_ok`, kept as the interactive loop's
/// invariant while the selection is still a bare index.
spec fn run_sel_ok(items: Seq<Seq<char>>, k: int, evs: Seq<Event>, sel: Option<usize>) -> bool {
    let stop = first_stop(evs);
    let q = query_fold(Seq::empty(), evs.take(stop));
    let cur = cursor_fold(0, k, evs.take(stop));
    if stop == evs.len() || evs[stop] is Esc {
        sel is None
    } else if q.len() == 0 {
        let count = capped(items.len() as int, k);
        if count == 0 {
            sel is None
        } else {
            sel == (if cur < count {
                Some(cur as usize)
            } else {
                Some((count - 1) as usize)
            })
        }
    } else {
        &&& exists|es: Seq<RankedRowIndex>| #[trigger] valid_ranking(items, q, k, es)
        &&& forall|es: Seq<RankedRowIndex>|
            #[trigger] valid_ranking(items, q, k, es) ==> (if es.len() == 0 {
                sel is None
            } else {
                let pos = if cur < es.len() {
                    cur
                } else {
                    es.len() - 1
                };
                sel == Some(es[pos].index)
            })
    }
}

/// An interactive fuzzy picker: candidate items are ranked against the query
/// the user types, the best few are shown in a window of `window_height`
/// rows, and the item under the selection cursor is returned on confirmation.
pub struct Picker {
    pub window_height: u16,
}

impl Default for Picker {
    fn default() -> (r: Picker)
        ensures
            r.window_height == 5,
    {
        Picker { window_height: 5 }
    }
}

impl Picker {
    /// Runs one interactive session over an already-read event script: feeds
    /// the events to the selection controller one at a time until the first
    /// Enter or Esc (or the script's end), rendering a frame after every
    /// event, and returns the selected item's text together with the full
    /// draw-instruction sequence of the session. Whatever the script did,
    /// the instructions end with the viewport back at its starting size and
    /// raw mode and mouse capture off.
    pub fn run(
        &self,
        input: &[&str],
        header: Option<String>,
        cols: u16,
        rows: u16,
        cursor_row: u16,
        events: &Vec<Event>,
    ) -> (r: (Option<String>, Vec<DrawOp>))
        requires
            1 <= self.window_height <= 0xFFFD,
            events@.len() < usize::MAX - 3,
        ensures
            run_result_ok(item_texts(input@), self.window_height as int, events@, r.0),
            run_ops_shape(self.window_height as int, header, events@, r.1@),
            forall|s: TermState|
                apply_ops(s, r.1@) == (TermState { cols, rows, raw: false, mouse: false }),
    {
        let ghost items = item_texts(input@);
        let ghost k = self.window_height as int;
        let ghost hdr = header;
        let table = Table::new(input);
        proof {
            assert(table.texts() =~~= items);
        }
        let (sess, mut ops) = Session::enter(
            cols,
            rows,
            cursor_row,
            self.window_height,
            header.is_some(),
        );
        let renderer = Renderer::new(self.window_height as usize, header, cols as usize);
        let mut c = Controller::new(table, self.window_height as usize, default_prewarm());
        proof {
            reveal_strlit("> ");
        }
        let ghost enter_part = ops@;
        let ghost mut frames: Seq<Seq<DrawOp>> = Seq::empty();
        {
            let vis = c.visible();
            let mut frame = renderer.render(&c.query, &c.table, &vis, c.cursor);
            proof {
                assert(events@.take(0) =~= Seq::<Event>::empty());
                assert(query_fold(Seq::empty(), Seq::<Event>::empty()) == Seq::<char>::empty());
                assert(c.query@ =~= Seq::<char>::empty());
                assert(full_frame(k, renderer.header, c.query@, frame@));
                frames = frames.push(frame@);
                Seq::<Seq<DrawOp>>::empty().lemma_flatten_push(frame@);
                assert(Seq::<Seq<DrawOp>>::empty().flatten() =~= Seq::<DrawOp>::empty());
            }
            ops.append(&mut frame);
            proof {
                assert(ops@ =~= enter_part + frames.flatten());
            }
        }
        let n = events.len();
        let mut i: usize = 0;
        let mut selection: Option<usize> = None;
        let mut finished = false;
        while i < n && !finished
            invariant
                n == events@.len(),
                n < usize::MAX - 3,
                i <= n,
                c.wf(),
                c.table.texts() == items,
                c.ranker.window_height as int == k,
                renderer.wf(),
                renderer.window_height == c.ranker.window_height,
                renderer.prompt.prompt_text@.len() == 2,
                1 <= k,
                c.query@.len() <= i,
                !finished ==> selection is None,
                !finished ==> (forall|j: int|
                    0 <= j < i ==> !terminal_event(#[trigger] events@[j])),
                !finished ==> c.query@ == query_fold(Seq::empty(), events@.take(i as int)),
                !finished ==> c.cursor as int == cursor_fold(0, k, events@.take(i as int)),
                finished ==> run_sel_ok(items, k, events@, selection),
                finished ==> (selection matches Some(ix) ==> ix < items.len()),
                finished ==> 1 <= i && first_stop(events@) == i - 1,
                renderer.header == hdr,
                renderer.prompt.prompt_text@ == "> "@,
                frames.len() == 1 + i,
                ops@ == enter_part + frames.flatten(),
                forall|t: int|
                    0 <= t < frames.len() ==> full_frame(
                        k,
                        renderer.header,
                        query_fold(Seq::empty(), events@.take(t)),
                        #[trigger] frames[t],
                    ),
            decreases n - i,
        {
            let ghost pre = c;
            let res = c.step(&events[i]);
            proof {
                assert(events@.take(i as int + 1) =~= events@.take(i as int).push(
                    events@[i as int],
                ));
                lemma_query_fold_snoc(Seq::empty(), events@.take(i as int), events@[i as int]);
                lemma_cursor_fold_snoc(0, k, events@.take(i as int), events@[i as int]);
                lemma_first_stop_charn(events@);
            }
            match res {
                StepResult::Finished(s) => {
                    selection = s;
                    finished = true;
                    proof {
                        // The step just taken sat at the first terminal event
                        // of the script, so the folded query and cursor are
                        // the ones the selection was resolved against.
                        let stop = first_stop(events@);
                        assert(terminal_event(events@[i as int]));
                        if stop < i {
                            assert(terminal_event(events@[stop]));
                        }
                        assert(stop == i);
                        let q = query_fold(Seq::empty(), events@.take(stop));
                        let cur = cursor_fold(0, k, events@.take(stop));
                        assert(pre.query@ == q);
                        assert(pre.cursor as int == cur);
                        match events@[i as int] {
                            Event::Esc => {},
                            Event::Enter => {
                                if q.len() > 0 {
                                    let jq = choose|j: int|
                                        0 <= j < pre.cache.entries@.len() && (
                                        #[trigger] pre.cache.entries@[j]).0@ == q;
                                    pre.cache.lemma_value_at(q, jq);
                                    let stored = pre.cache.value_at(q);
                                    assert(valid_ranking(items, q, k, stored));
                                    assert forall|es: Seq<RankedRowIndex>|
                                        #[trigger] valid_ranking(items, q, k, es) implies (if es.len() == 0 {
                                        selection is None
                                    } else {
                                        let pos = if cur < es.len() {
                                            cur
                                        } else {
                                            es.len() - 1
                                        };
                                        selection == Some(es[pos].index)
                                    }) by {
                                        lemma_ranking_unique(items, q, k, es, stored);
                                    }
                                }
                            },
                            _ => {},
                        }
                    }
                },
                StepResult::Pending => {},
            }
            let vis = c.visible();
            let mut frame = renderer.render(&c.query, &c.table, &vis, c.cursor);
            proof {
                // Whether or not this event finished the session, the frame
                // just rendered shows the query as folded over the processed
                // script, a terminal event leaving it unchanged.
                assert(c.query@ == query_fold(Seq::empty(), events@.take(i as int + 1)));
                let old_frames = frames;
                frames = frames.push(frame@);
                old_frames.lemma_flatten_push(frame@);
            }
            ops.append(&mut frame);
            proof {
                assert(ops@ =~= enter_part + frames.flatten());
            }
            i += 1;
        }
        proof {
            if !finished {
                lemma_first_stop_charn(events@);
                let stop = first_stop(events@);
                if stop < events@.len() {
                    assert(terminal_event(events@[stop]));
                }
                assert(stop == events@.len());
            }
        }
        let mut exit = sess.exit_ops();
        let ghost pre_exit = ops@;
        let ghost exit_seq = exit@;
        ops.append(&mut exit);
        proof {
            assert forall|s: TermState|
                apply_ops(s, ops@) == (TermState { cols, rows, raw: false, mouse: false }) by {
                lemma_apply_concat(s, pre_exit, exit_seq);
            }
            lemma_first_stop_charn(events@);
            if !finished {
                let stop = first_stop(events@);
                if stop < events@.len() {
                    assert(terminal_event(events@[stop]));
                }
                assert(stop == events@.len());
            }
            assert(frames.len() == 1 + processed_count(events@));
            assert(ops@ =~= enter_part + frames.flatten() + exit_seq);
            assert(run_ops_parts(k, hdr, events@, ops@, enter_part, frames, exit_seq));
        }
        let out: Option<String> = match selection {
            Some(ix) => Some(c.table.rows[ix].text.clone()),
            None => None,
        };
        proof {
            assert(run_sel_ok(items, k, events@, selection));
            lemma_first_stop_charn(events@);
            let stop = first_stop(events@);
            let q = query_fold(Seq::empty(), events@.take(stop));
            let cur = cursor_fold(0, k, events@.take(stop));
            lemma_cursor_fold_range(0, k, events@.take(stop));
            if !(stop == events@.len() || events@[stop] is Esc) && q.len() > 0 {
                assert forall|es: Seq<RankedRowIndex>|
                    #[trigger] valid_ranking(items, q, k, es) implies (if es.len() == 0 {
                    out is None
                } else {
                    let pos = if cur < es.len() {
                        cur
                    } else {
                        es.len() - 1
                    };
                    (out matches Some(s) && s@ == items[es[pos].index as int])
                }) by {
                    if es.len() > 0 {
                        let pos = if cur < es.len() {
                            cur
                        } else {
                            es.len() - 1
                        };
                        assert(selection == Some(es[pos].index));
                    }
                }
            }
        }
        (out, ops)
    }
}

/// A callback interface for consumers that want to observe query edits; the
/// picker's own controller implements it by re-ranking against the new
/// query.
pub trait Handler {
    /// Whether the handler is in a state fit to take updates.
    spec fn ready(&self) -> bool;

    /// The handler has taken note of query text `q`: it holds `q` as its
    /// current query and has a ranking ready for it.
    spec fn noted(&self, q: Seq<char>) -> bool;

    /// Takes note of the query's new text and re-ranks for it.
    fn update(&mut self, query: &str)
        requires
            old(self).ready(),
        ensures
            final(self).ready(),
            final(self).noted(query@),
    ;
}

impl Handler for Controller {
    open spec fn ready(&self) -> bool {
        self.wf()
    }

    open spec fn noted(&self, q: Seq<char>) -> bool {
        &&& self.query@ == q
        &&& q.len() > 0 ==> self.cache.has_key(q)
    }

    fn update(&mut self, query: &str) {
        self.query = String::from_str(query);
        let _ = self.cache.get_or_compute(&self.table, &self.ranker, &self.query);
    }
}

} // verus!
