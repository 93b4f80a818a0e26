use vstd::prelude::*;
use crate::render::DrawOp;
use crate::render::frame_op;

verus! {

/// The slice of terminal state the session is answerable for: the viewport
/// size, the raw input mode and the mouse capture.
#[derive(Clone, Copy, PartialEq, Eq, Structural, Debug)]
pub struct TermState {
    pub cols: u16,
    pub rows: u16,
    pub raw: bool,
    pub mouse: bool,
}

/// How one draw instruction changes the tracked terminal state.
pub open spec fn apply_op(s: TermState, op: DrawOp) -> TermState {
    match op {
        DrawOp::EnableRawMode => TermState {
            cols: s.cols,
            rows: s.rows,
            raw: true,
            mouse: s.mouse,
        },
        DrawOp::DisableRawMode => TermState {
            cols: s.cols,
            rows: s.rows,
            raw: false,
            mouse: s.mouse,
        },
        DrawOp::EnableMouseCapture => TermState {
            cols: s.cols,
            rows: s.rows,
            raw: s.raw,
            mouse: true,
        },
        DrawOp::DisableMouseCapture => TermState {
            cols: s.cols,
            rows: s.rows,
            raw: s.raw,
            mouse: false,
        },
        DrawOp::SetSize(c, r) => TermState { cols: c, rows: r, raw: s.raw, mouse: s.mouse },
        _ => s,
    }
}

/// The tracked terminal state after a whole instruction sequence.
pub open spec fn apply_ops(s: TermState, ops: Seq<DrawOp>) -> TermState
    decreases ops.len(),
{
    if ops.len() == 0 {
        s
    } else {
        apply_op(apply_ops(s, ops.drop_last()), ops.last())
    }
}

/// Unrolling one appended instruction.
pub proof fn lemma_apply_push(s: TermState, ops: Seq<DrawOp>, op: DrawOp)
    ensures
        apply_ops(s, ops.push(op)) == apply_op(apply_ops(s, ops), op),
{
    assert(ops.push(op).drop_last() =~= ops);
    assert(ops.push(op).last() == op);
}

/// Applying a concatenation is applying both halves in turn.
pub proof fn lemma_apply_concat(s: TermState, a: Seq<DrawOp>, b: Seq<DrawOp>)
    ensures
        apply_ops(s, a + b) == apply_ops(apply_ops(s, a), b),
    decreases b.len(),
{
    if b.len() == 0 {
        assert(a + b =~= a);
    } else {
        assert((a + b).drop_last() =~= a + b.drop_last());
        lemma_apply_concat(s, a, b.drop_last());
        assert((a + b).last() == b.last());
    }
}

/// Frame instructions leave the tracked terminal state untouched.
pub proof fn lemma_frame_ops_fix(s: TermState, ops: Seq<DrawOp>)
    requires
        forall|j: int| 0 <= j < ops.len() ==> frame_op(#[trigger] ops[j]),
    ensures
        apply_ops(s, ops) == s,
    decreases ops.len(),
{
    if ops.len() > 0 {
        lemma_frame_ops_fix(s, ops.drop_last());
        assert(frame_op(ops[ops.len() - 1]));
    }
}

/// The restoration law of a scoped session: whatever instruction sequence
/// ran before it, a restoration sequence that always ends at the saved state
/// leaves the terminal there.
pub proof fn lemma_session_restores(
    start: TermState,
    pre: Seq<DrawOp>,
    exit: Seq<DrawOp>,
    target: TermState,
)
    requires
        forall|s: TermState| apply_ops(s, exit) == target,
    ensures
        apply_ops(start, pre + exit) == target,
{
    lemma_apply_concat(start, pre, exit);
}

/// The setup instructions a session entry emits: raw mode on; when the
/// picker would not fit below the cursor, a scroll up by its total height
/// with the cursor moved up the same amount, before anything is drawn; then
/// mouse capture on, the cursor at the start of the line, and the redraw
/// anchor saved.
pub open spec fn enter_ops_spec(scroll: bool, fh: u16) -> Seq<DrawOp> {
    if scroll {
        seq![
            DrawOp::EnableRawMode,
            DrawOp::ScrollUp(fh),
            DrawOp::MoveUp(fh),
            DrawOp::EnableMouseCapture,
            DrawOp::MoveToColumn(1),
            DrawOp::SavePosition,
        ]
    } else {
        seq![
            DrawOp::EnableRawMode,
            DrawOp::EnableMouseCapture,
            DrawOp::MoveToColumn(1),
            DrawOp::SavePosition,
        ]
    }
}

/// The scoped terminal session: captures the pre-session viewport on entry
/// and computes the setup and restoration instruction sequences. However the
/// session ends, the restoration sequence puts the viewport back at its
/// saved size and switches raw mode and mouse capture off.
pub struct Session {
    pub saved_cols: u16,
    pub saved_rows: u16,
    pub total_height: u16,
}

impl Session {
    /// Computes the setup instructions: raw mode on, a scroll to make room
    /// when the picker would not fit below the cursor, mouse capture on, and
    /// the redraw anchor saved at the start of the line.
    pub fn enter(cols: u16, rows: u16, cursor_row: u16, window_height: u16, header: bool) -> (r: (
        Session,
        Vec<DrawOp>,
    ))
        requires
            window_height + 2 <= u16::MAX,
        ensures
            r.0.saved_cols == cols,
            r.0.saved_rows == rows,
            r.0.total_height == (if header {
                window_height + 1
            } else {
                window_height + 2
            }),
            r.1@ == enter_ops_spec(
                cursor_row as int + r.0.total_height as int > rows as int,
                r.0.total_height,
            ),
            forall|s: TermState|
                apply_ops(s, r.1@) == (TermState {
                    cols: s.cols,
                    rows: s.rows,
                    raw: true,
                    mouse: true,
                }),
    {
        let fh = if header {
            window_height + 1
        } else {
            window_height + 2
        };
        let mut ops: Vec<DrawOp> = Vec::new();
        ops.push(DrawOp::EnableRawMode);
        if (cursor_row as u32) + (fh as u32) > (rows as u32) {
            ops.push(DrawOp::ScrollUp(fh));
            ops.push(DrawOp::MoveUp(fh));
        }
        let ghost head = ops@;
        ops.push(DrawOp::EnableMouseCapture);
        ops.push(DrawOp::MoveToColumn(1));
        ops.push(DrawOp::SavePosition);
        proof {
            assert(ops@ =~= enter_ops_spec(cursor_row as int + fh as int > rows as int, fh));
        }
        proof {
            assert forall|s: TermState|
                apply_ops(s, ops@) == (TermState {
                    cols: s.cols,
                    rows: s.rows,
                    raw: true,
                    mouse: true,
                }) by {
                let e0 = Seq::<DrawOp>::empty();
                let o1 = e0.push(DrawOp::EnableRawMode);
                lemma_apply_push(s, e0, DrawOp::EnableRawMode);
                assert(apply_ops(s, e0) == s);
                if head.len() == 3 {
                    let o2 = o1.push(DrawOp::ScrollUp(fh));
                    let o3 = o2.push(DrawOp::MoveUp(fh));
                    lemma_apply_push(s, o1, DrawOp::ScrollUp(fh));
                    lemma_apply_push(s, o2, DrawOp::MoveUp(fh));
                    assert(head == o3);
                } else {
                    assert(head == o1);
                }
                lemma_apply_push(s, head, DrawOp::EnableMouseCapture);
                lemma_apply_push(s, head.push(DrawOp::EnableMouseCapture), DrawOp::MoveToColumn(1));
                lemma_apply_push(
                    s,
                    head.push(DrawOp::EnableMouseCapture).push(DrawOp::MoveToColumn(1)),
                    DrawOp::SavePosition,
                );
            }
        }
        (Session { saved_cols: cols, saved_rows: rows, total_height: fh }, ops)
    }

    /// Computes the restoration instructions: back to the anchor, every
    /// picker line cleared, the viewport put back at its saved size, mouse
    /// capture off, the residue under the anchor cleared, raw mode off.
    pub fn exit_ops(&self) -> (r: Vec<DrawOp>)
        ensures
            forall|s: TermState|
                apply_ops(s, r@) == (TermState {
                    cols: self.saved_cols,
                    rows: self.saved_rows,
                    raw: false,
                    mouse: false,
                }),
    {
        let mut ops: Vec<DrawOp> = Vec::new();
        ops.push(DrawOp::RestorePosition);
        let mut i: u16 = 0;
        while i < self.total_height
            invariant
                forall|j: int| 0 <= j < ops@.len() ==> frame_op(#[trigger] ops@[j]),
            decreases self.total_height - i,
        {
            ops.push(DrawOp::MoveToNextLine);
            ops.push(DrawOp::ClearUntilNewLine);
            i += 1;
        }
        let ghost head = ops@;
        ops.push(DrawOp::SetSize(self.saved_cols, self.saved_rows));
        ops.push(DrawOp::DisableMouseCapture);
        ops.push(DrawOp::RestorePosition);
        ops.push(DrawOp::ClearUntilNewLine);
        ops.push(DrawOp::DisableRawMode);
        proof {
            let target = TermState {
                cols: self.saved_cols,
                rows: self.saved_rows,
                raw: false,
                mouse: false,
            };
            assert forall|s: TermState| apply_ops(s, ops@) == target by {
                lemma_frame_ops_fix(s, head);
                let h1 = head.push(DrawOp::SetSize(self.saved_cols, self.saved_rows));
                let h2 = h1.push(DrawOp::DisableMouseCapture);
                let h3 = h2.push(DrawOp::RestorePosition);
                let h4 = h3.push(DrawOp::ClearUntilNewLine);
                lemma_apply_push(s, head, DrawOp::SetSize(self.saved_cols, self.saved_rows));
                lemma_apply_push(s, h1, DrawOp::DisableMouseCapture);
                lemma_apply_push(s, h2, DrawOp::RestorePosition);
                lemma_apply_push(s, h3, DrawOp::ClearUntilNewLine);
                lemma_apply_push(s, h4, DrawOp::DisableRawMode);
            }
        }
        ops
    }
}

/// Replays an instruction sequence against a terminal-state value: the
/// executable mirror of `apply_ops`, used to drive a terminal stub and to
/// check session plans end to end.
pub fn apply_all(start: TermState, ops: &Vec<DrawOp>) -> (r: TermState)
    ensures
        r == apply_ops(start, ops@),
{
    let mut st = start;
    let n = ops.len();
    let mut i: usize = 0;
    while i < n
        invariant
            i <= n,
            n == ops@.len(),
            st == apply_ops(start, ops@.take(i as int)),
        decreases n - i,
    {
        let op = &ops[i];
        let next = match op {
            DrawOp::EnableRawMode => TermState {
                cols: st.cols,
                rows: st.rows,
                raw: true,
                mouse: st.mouse,
            },
            DrawOp::DisableRawMode => TermState {
                cols: st.cols,
                rows: st.rows,
                raw: false,
                mouse: st.mouse,
            },
            DrawOp::EnableMouseCapture => TermState {
                cols: st.cols,
                rows: st.rows,
                raw: st.raw,
                mouse: true,
            },
            DrawOp::DisableMouseCapture => TermState {
                cols: st.cols,
                rows: st.rows,
                raw: st.raw,
                mouse: false,
            },
            DrawOp::SetSize(c, r2) => TermState {
                cols: *c,
                rows: *r2,
                raw: st.raw,
                mouse: st.mouse,
            },
            _ => st,
        };
        proof {
            assert(ops@.take(i as int + 1).drop_last() =~= ops@.take(i as int));
            assert(ops@.take(i as int + 1).last() == ops@[i as int]);
        }
        st = next;
        i += 1;
    }
    proof {
        assert(ops@.take(n as int) =~= ops@);
    }
    st
}

} // verus!
