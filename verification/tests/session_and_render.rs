use picky::Picker;
use picky::control::Event;
use picky::model::Ranker;
use picky::model::Table;
use picky::render::DrawOp;
use picky::render::Renderer;
use picky::session::Session;
use picky::session::TermState;
use picky::session::apply_all;
use picky::text::truncate_text;

const ITEMS: [&str; 5] = ["cat", "dog", "fish", "bear", "soup"];

fn start_state() -> TermState {
    TermState { cols: 80, rows: 24, raw: false, mouse: false }
}

#[test]
fn default_picker_shows_five_rows() {
    let p = Picker::default();
    assert_eq!(p.window_height, 5);
}

#[test]
fn escape_returns_nothing_and_restores_the_viewport() {
    let p = Picker { window_height: 3 };
    let events = vec![Event::Char('s'), Event::Up, Event::Esc, Event::Char('x')];
    let (out, ops) = p.run(&ITEMS, None, 80, 24, 10, &events);
    assert!(out.is_none());
    let end = apply_all(start_state(), &ops);
    assert_eq!(end, start_state());
}

#[test]
fn enter_without_matches_returns_nothing_and_restores() {
    let p = Picker { window_height: 3 };
    let events = vec![
        Event::Char('z'),
        Event::Char('q'),
        Event::Char('j'),
        Event::Enter,
    ];
    let (out, ops) = p.run(&ITEMS, None, 80, 24, 10, &events);
    assert!(out.is_none());
    let end = apply_all(start_state(), &ops);
    assert_eq!(end, start_state());
}

#[test]
fn enter_on_empty_query_picks_the_row_under_the_cursor() {
    let p = Picker { window_height: 3 };
    let events = vec![Event::Down, Event::Enter];
    let (out, _) = p.run(&ITEMS, None, 80, 24, 10, &events);
    assert_eq!(out.as_deref(), Some("dog"));
}

#[test]
fn typed_query_selects_the_best_match() {
    let p = Picker { window_height: 3 };
    let events = vec![Event::Char('s'), Event::Char('o'), Event::Enter];
    let (out, _) = p.run(&ITEMS, None, 80, 24, 10, &events);
    assert_eq!(out.as_deref(), Some("soup"));
}

#[test]
fn exhausted_script_returns_nothing() {
    let p = Picker { window_height: 3 };
    let events = vec![Event::Char('s'), Event::Down];
    let (out, ops) = p.run(&ITEMS, None, 80, 24, 10, &events);
    assert!(out.is_none());
    let end = apply_all(start_state(), &ops);
    assert_eq!(end, start_state());
}

#[test]
fn session_enter_and_exit_bracket_the_terminal_state() {
    let (sess, enter_ops) = Session::enter(80, 24, 22, 3, false);
    let mid = apply_all(start_state(), &enter_ops);
    assert!(mid.raw);
    assert!(mid.mouse);
    assert_eq!(mid.cols, 80);
    assert_eq!(mid.rows, 24);
    let exit_ops = sess.exit_ops();
    let end = apply_all(mid, &exit_ops);
    assert_eq!(end, start_state());
}

#[test]
fn session_enter_scrolls_only_when_the_picker_would_not_fit() {
    // Cursor near the bottom: the window of 3 plus two chrome lines does not
    // fit below row 22 of 24, so the viewport scrolls up by that height.
    let (_, ops) = Session::enter(80, 24, 22, 3, false);
    assert_eq!(ops.len(), 6);
    assert!(matches!(ops[0], DrawOp::EnableRawMode));
    assert!(matches!(ops[1], DrawOp::ScrollUp(5)));
    assert!(matches!(ops[2], DrawOp::MoveUp(5)));
    assert!(matches!(ops[3], DrawOp::EnableMouseCapture));
    assert!(matches!(ops[4], DrawOp::MoveToColumn(1)));
    assert!(matches!(ops[5], DrawOp::SavePosition));
    // Cursor at the top: everything fits, nothing scrolls.
    let (_, ops) = Session::enter(80, 24, 0, 3, false);
    assert_eq!(ops.len(), 4);
    assert!(matches!(ops[0], DrawOp::EnableRawMode));
    assert!(matches!(ops[1], DrawOp::EnableMouseCapture));
}

#[test]
fn session_exit_restores_even_a_resized_viewport() {
    let (sess, _) = Session::enter(80, 24, 0, 3, true);
    let resized = TermState { cols: 120, rows: 40, raw: true, mouse: true };
    let end = apply_all(resized, &sess.exit_ops());
    assert_eq!(end, start_state());
}

#[test]
fn frame_has_prompt_rows_and_cursor_return() {
    let table = Table::new(&ITEMS);
    let ranker = Ranker::new(3);
    let rs = ranker.rank_all(&table, "s");
    let renderer = Renderer::new(3, None, 80);
    let query = String::from("s");
    let ops = renderer.render(&query, &table, &rs, 0);
    assert_eq!(ops.len(), 4 + 9 + 2);
    assert!(matches!(ops[0], DrawOp::RestorePosition));
    assert!(matches!(ops[1], DrawOp::ClearUntilNewLine));
    match &ops[2] {
        DrawOp::PrintStyled(s) => assert_eq!(s, "> "),
        other => panic!("expected the styled prompt, got {:?}", display_kind(other)),
    }
    match &ops[3] {
        DrawOp::Print(s) => assert_eq!(s, "s"),
        other => panic!("expected the query text, got {:?}", display_kind(other)),
    }
    match &ops[6] {
        DrawOp::Row { number, selected, text, matched } => {
            assert_eq!(*number, 1);
            assert!(*selected);
            assert!(text.contains('s'));
            assert!(!matched.is_empty());
        },
        other => panic!("expected a filled row, got {:?}", display_kind(other)),
    }
    assert!(matches!(ops[13], DrawOp::RestorePosition));
    match &ops[14] {
        DrawOp::MoveRight(n) => assert_eq!(*n, 3),
        other => panic!("expected the cursor return, got {:?}", display_kind(other)),
    }
}

#[test]
fn header_is_drawn_truncated() {
    let table = Table::new(&ITEMS);
    let ranker = Ranker::new(2);
    let rs = ranker.rank_all(&table, "s");
    let renderer = Renderer::new(2, Some(String::from("a very long header line")), 10);
    let query = String::from("s");
    let ops = renderer.render(&query, &table, &rs, 0);
    assert_eq!(ops.len(), 4 + 2 + 6 + 2);
    assert!(matches!(ops[4], DrawOp::MoveToNextLine));
    match &ops[5] {
        DrawOp::Print(s) => assert_eq!(s, "a very ..."),
        other => panic!("expected the header, got {:?}", display_kind(other)),
    }
}

#[test]
fn rows_past_the_entries_render_blank() {
    let table = Table::new(&ITEMS);
    let ranker = Ranker::new(3);
    let rs = ranker.rank_all(&table, "ca");
    assert_eq!(rs.entries.len(), 1);
    let renderer = Renderer::new(3, None, 80);
    let query = String::from("ca");
    let ops = renderer.render(&query, &table, &rs, 0);
    assert!(matches!(ops[6], DrawOp::Row { .. }));
    assert!(matches!(ops[9], DrawOp::BlankRow));
    assert!(matches!(ops[12], DrawOp::BlankRow));
}

#[test]
fn truncation_keeps_short_text_and_marks_long_text() {
    assert_eq!(truncate_text(&String::from("soup"), 10), "soup");
    assert_eq!(truncate_text(&String::from("hello world"), 8), "hello...");
    assert_eq!(truncate_text(&String::from("hello"), 2), "he");
    assert_eq!(truncate_text(&String::from("abcd"), 4), "abcd");
    assert_eq!(truncate_text(&String::from("abcde"), 4), "a...");
}

fn display_kind(op: &DrawOp) -> &'static str {
    match op {
        DrawOp::EnableRawMode => "EnableRawMode",
        DrawOp::DisableRawMode => "DisableRawMode",
        DrawOp::EnableMouseCapture => "EnableMouseCapture",
        DrawOp::DisableMouseCapture => "DisableMouseCapture",
        DrawOp::ScrollUp(_) => "ScrollUp",
        DrawOp::MoveUp(_) => "MoveUp",
        DrawOp::MoveToColumn(_) => "MoveToColumn",
        DrawOp::SavePosition => "SavePosition",
        DrawOp::RestorePosition => "RestorePosition",
        DrawOp::MoveToNextLine => "MoveToNextLine",
        DrawOp::MoveRight(_) => "MoveRight",
        DrawOp::ClearUntilNewLine => "ClearUntilNewLine",
        DrawOp::SetSize(_, _) => "SetSize",
        DrawOp::Print(_) => "Print",
        DrawOp::PrintStyled(_) => "PrintStyled",
        DrawOp::Row { .. } => "Row",
        DrawOp::BlankRow => "BlankRow",
    }
}
