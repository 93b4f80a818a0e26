use vstd::prelude::*;
use crate::model::RankedRowIndex;
use crate::model::ResultSet;
use crate::model::Table;
use crate::text::truncate_text;
use crate::text::truncated;

verus! {

/// One terminal draw instruction. The renderer only ever produces these
/// values; an unverified shell translates each one into the corresponding
/// terminal-driver call. A `Row` carries everything a driver needs to draw
/// one filled list row: its 1-based number, whether the selection cursor is
/// on it, its (width-truncated) display text, and the matched character
/// positions for highlighting.
pub enum DrawOp {
    EnableRawMode,
    DisableRawMode,
    EnableMouseCapture,
    DisableMouseCapture,
    ScrollUp(u16),
    MoveUp(u16),
    MoveToColumn(u16),
    SavePosition,
    RestorePosition,
    MoveToNextLine,
    MoveRight(usize),
    ClearUntilNewLine,
    SetSize(u16, u16),
    Print(String),
    PrintStyled(String),
    Row { number: usize, selected: bool, text: String, matched: Vec<usize> },
    BlankRow,
}

/// The instructions a frame render may emit: none of them touches the raw
/// mode, the mouse capture or the viewport size.
pub open spec fn frame_op(op: DrawOp) -> bool {
    match op {
        DrawOp::EnableRawMode => false,
        DrawOp::DisableRawMode => false,
        DrawOp::EnableMouseCapture => false,
        DrawOp::DisableMouseCapture => false,
        DrawOp::ScrollUp(_) => false,
        DrawOp::MoveUp(_) => false,
        DrawOp::SetSize(_, _) => false,
        _ => true,
    }
}

/// The prompt line: reset to the anchor, clear it, draw the styled prompt
/// label and then the raw query text.
pub open spec fn prompt_ops(prompt: Seq<char>, query: Seq<char>, ops: Seq<DrawOp>) -> bool {
    &&& ops.len() == 4
    &&& ops[0] == DrawOp::RestorePosition
    &&& ops[1] == DrawOp::ClearUntilNewLine
    &&& (ops[2] matches DrawOp::PrintStyled(s) && s@ == prompt)
    &&& (ops[3] matches DrawOp::Print(s) && s@ == query)
}

/// The optional header line, width-truncated.
pub open spec fn header_ops(header: Option<String>, width: nat, ops: Seq<DrawOp>) -> bool {
    match header {
        None => ops.len() == 0,
        Some(h) => {
            &&& ops.len() == 2
            &&& ops[0] == DrawOp::MoveToNextLine
            &&& (ops[1] matches DrawOp::Print(s) && s@ == truncated(h@, width))
        },
    }
}

/// The list window: exactly `height` rows, each first moved to and cleared;
/// row `y` then shows entry `y` — its 1-based number, whether the cursor is
/// on it, its truncated display text and its matched positions — and rows
/// past the last entry stay blank.
pub open spec fn list_ops(
    items: Seq<Seq<char>>,
    entries: Seq<RankedRowIndex>,
    cursor: int,
    height: int,
    width: nat,
    ops: Seq<DrawOp>,
) -> bool {
    &&& ops.len() == 3 * height
    &&& forall|y: int|
        0 <= y < height ==> #[trigger] ops[3 * y] == DrawOp::MoveToNextLine && ops[3 * y + 1]
            == DrawOp::ClearUntilNewLine
    &&& forall|y: int|
        0 <= y < entries.len() && y < height ==> (#[trigger] ops[3 * y + 2] matches DrawOp::Row {
            number,
            selected,
            text,
            matched,
        } && number == y + 1 && selected == (y == cursor) && text@ == truncated(
            items[entries[y].index as int],
            width,
        ) && matched.deep_view() == entries[y].matched.deep_view())
    &&& forall|y: int| entries.len() <= y < height ==> #[trigger] ops[3 * y + 2] == DrawOp::BlankRow
}

/// The prompt state: the fixed label drawn before the query text.
pub struct Prompt {
    pub prompt_text: String,
}

impl Prompt {
    /// Draws the prompt line.
    pub fn render(&self, query: &String) -> (r: Vec<DrawOp>)
        ensures
            prompt_ops(self.prompt_text@, query@, r@),
            forall|j: int| 0 <= j < r@.len() ==> frame_op(#[trigger] r@[j]),
    {
        let mut ops: Vec<DrawOp> = Vec::new();
        ops.push(DrawOp::RestorePosition);
        ops.push(DrawOp::ClearUntilNewLine);
        ops.push(DrawOp::PrintStyled(self.prompt_text.clone()));
        ops.push(DrawOp::Print(query.clone()));
        ops
    }
}

/// The list state: how many rows the window holds.
pub struct List {
    pub height: usize,
}

impl List {
    /// Draws the `height` rows of the ranked window.
    pub fn render(&self, table: &Table, rs: &ResultSet, cursor: usize, width: usize) -> (r: Vec<
        DrawOp,
    >)
        requires
            self.height <= 0xFFFF,
            rs.entries@.len() <= self.height,
            forall|j: int|
                0 <= j < rs.entries@.len() ==> (#[trigger] rs.entries@[j]).index
                    < table.rows@.len(),
        ensures
            list_ops(table.texts(), rs.entries@, cursor as int, self.height as int, width as nat, r@),
            forall|j: int| 0 <= j < r@.len() ==> frame_op(#[trigger] r@[j]),
    {
        let mut ops: Vec<DrawOp> = Vec::new();
        let filled = rs.entries.len();
        let mut y: usize = 0;
        while y < self.height
            invariant
                y <= self.height,
                self.height <= 0xFFFF,
                filled == rs.entries@.len(),
                filled <= self.height,
                forall|j: int|
                    0 <= j < rs.entries@.len() ==> (#[trigger] rs.entries@[j]).index
                        < table.rows@.len(),
                ops@.len() == 3 * y,
                forall|y2: int|
                    0 <= y2 < y ==> #[trigger] ops@[3 * y2] == DrawOp::MoveToNextLine && ops@[3 * y2
                        + 1] == DrawOp::ClearUntilNewLine,
                forall|y2: int|
                    0 <= y2 < y && y2 < filled ==> (#[trigger] ops@[3 * y2 + 2]
                        matches DrawOp::Row { number, selected, text, matched } && number == y2 + 1
                        && selected == (y2 == cursor as int) && text@ == truncated(
                        table.texts()[rs.entries@[y2].index as int],
                        width as nat,
                    ) && matched.deep_view() == rs.entries@[y2].matched.deep_view()),
                forall|y2: int|
                    filled <= y2 < y ==> #[trigger] ops@[3 * y2 + 2] == DrawOp::BlankRow,
                forall|j: int| 0 <= j < ops@.len() ==> frame_op(#[trigger] ops@[j]),
            decreases self.height - y,
        {
            ops.push(DrawOp::MoveToNextLine);
            ops.push(DrawOp::ClearUntilNewLine);
            if y < filled {
                let entry = &rs.entries[y];
                let text = truncate_text(&table.rows[entry.index].text, width);
                let matched = entry.matched.clone();
                proof {
                    assert(matched@ =~= rs.entries@[y as int].matched@);
                    assert(matched.deep_view() =~= rs.entries@[y as int].matched.deep_view());
                }
                ops.push(
                    DrawOp::Row { number: y + 1, selected: y == cursor, text, matched },
                );
            } else {
                ops.push(DrawOp::BlankRow);
            }
            y += 1;
        }
        ops
    }
}

/// The renderer: a pure function from the prompt state, the header and the
/// current ranked window to the draw instructions of one full frame. Equal
/// inputs give equal instructions, clause by clause.
pub struct Renderer {
    pub prompt: Prompt,
    pub list: List,
    pub window_height: usize,
    pub header: Option<String>,
    pub width: usize,
}

impl Renderer {
    /// The renderer's own shape invariant.
    pub open spec fn wf(self) -> bool {
        &&& self.list.height == self.window_height
        &&& self.window_height <= 0xFFFF
    }

    pub fn new(window_height: usize, header: Option<String>, width: usize) -> (r: Renderer)
        requires
            window_height <= 0xFFFF,
        ensures
            r.wf(),
            r.window_height == window_height,
            r.header == header,
            r.width == width,
            r.prompt.prompt_text@ == "> "@,
    {
        Renderer {
            prompt: Prompt { prompt_text: String::from_str("> ") },
            list: List { height: window_height },
            window_height,
            header,
            width,
        }
    }

    /// Draws one whole frame: the prompt line, the optional header, the list
    /// window, and finally the cursor put back after the query text.
    pub fn render(&self, query: &String, table: &Table, rs: &ResultSet, cursor: usize) -> (r: Vec<
        DrawOp,
    >)
        requires
            self.wf(),
            rs.entries@.len() <= self.window_height,
            forall|j: int|
                0 <= j < rs.entries@.len() ==> (#[trigger] rs.entries@[j]).index
                    < table.rows@.len(),
            self.prompt.prompt_text@.len() + query@.len() < usize::MAX,
        ensures
            ({
                let hlen: int = if self.header is Some {
                    2
                } else {
                    0
                };
                let total = 4 + hlen + 3 * self.window_height + 2;
                &&& r@.len() == total
                &&& prompt_ops(self.prompt.prompt_text@, query@, r@.subrange(0, 4))
                &&& header_ops(self.header, self.width as nat, r@.subrange(4, 4 + hlen))
                &&& list_ops(
                    table.texts(),
                    rs.entries@,
                    cursor as int,
                    self.window_height as int,
                    self.width as nat,
                    r@.subrange(4 + hlen, total - 2),
                )
                &&& r@[total - 2] == DrawOp::RestorePosition
                &&& (r@[total - 1] matches DrawOp::MoveRight(n) && n
                    == self.prompt.prompt_text@.len() + query@.len())
            }),
            forall|j: int| 0 <= j < r@.len() ==> frame_op(#[trigger] r@[j]),
    {
        let mut ops = self.prompt.render(query);
        let ghost p_part = ops@;
        match &self.header {
            Some(h) => {
                ops.push(DrawOp::MoveToNextLine);
                ops.push(DrawOp::Print(truncate_text(h, self.width)));
            },
            None => {},
        }
        let ghost ph_part = ops@;
        let mut lops = self.list.render(table, rs, cursor, self.width);
        let ghost l_part = lops@;
        ops.append(&mut lops);
        ops.push(DrawOp::RestorePosition);
        let plen = self.prompt.prompt_text.as_str().unicode_len();
        let qlen = query.as_str().unicode_len();
        ops.push(DrawOp::MoveRight(plen + qlen));
        proof {
            let hlen: int = if self.header is Some {
                2
            } else {
                0
            };
            let total = 4 + hlen + 3 * self.window_height + 2;
            assert(ph_part == p_part + ph_part.subrange(4, 4 + hlen));
            assert(ops@.subrange(0, 4) =~= p_part);
            assert(ops@.subrange(4, 4 + hlen) =~= ph_part.subrange(4, 4 + hlen));
            assert(ops@.subrange(4 + hlen, total - 2) =~= l_part);
            if self.header is Some {
                assert(header_ops(self.header, self.width as nat, ph_part.subrange(4, 4 + hlen)));
            }
        }
        ops
    }
}

} // verus!
