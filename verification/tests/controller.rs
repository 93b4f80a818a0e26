use picky::Handler;
use picky::cache::QueryCache;
use picky::control::Controller;
use picky::control::Event;
use picky::control::StepResult;
use picky::control::default_prewarm;
use picky::model::Ranker;
use picky::model::Table;

fn sample_controller(window_height: usize) -> Controller {
    let table = Table::new(&["cat", "dog", "fish", "bear", "soup"]);
    Controller::new(table, window_height, default_prewarm())
}

#[test]
fn cursor_wraps_up_from_zero() {
    let mut c = sample_controller(3);
    assert_eq!(c.cursor, 0);
    let r = c.step(&Event::Up);
    assert!(matches!(r, StepResult::Pending));
    assert_eq!(c.cursor, 2);
}

#[test]
fn cursor_wraps_down_from_last_row() {
    let mut c = sample_controller(3);
    c.step(&Event::Down);
    c.step(&Event::Down);
    assert_eq!(c.cursor, 2);
    c.step(&Event::Down);
    assert_eq!(c.cursor, 0);
}

#[test]
fn cursor_wraps_for_single_row_window() {
    let mut c = sample_controller(1);
    c.step(&Event::Up);
    assert_eq!(c.cursor, 0);
    c.step(&Event::Down);
    assert_eq!(c.cursor, 0);
}

#[test]
fn empty_query_shows_store_head_in_order() {
    let c = sample_controller(3);
    let vis = c.visible();
    assert_eq!(vis.entries.len(), 3);
    for (j, e) in vis.entries.iter().enumerate() {
        assert_eq!(e.index, j);
        assert!(e.score.is_none());
        assert!(e.matched.is_empty());
    }
}

#[test]
fn fully_backspaced_query_restores_identity_view() {
    let mut c = sample_controller(3);
    c.step(&Event::Char('x'));
    c.step(&Event::Char('y'));
    c.step(&Event::Backspace);
    c.step(&Event::Backspace);
    assert_eq!(c.query, "");
    let vis = c.visible();
    assert_eq!(vis.entries.len(), 3);
    for (j, e) in vis.entries.iter().enumerate() {
        assert_eq!(e.index, j);
        assert!(e.score.is_none());
        assert!(e.matched.is_empty());
    }
}

#[test]
fn backspace_on_empty_query_is_a_no_op() {
    let mut c = sample_controller(3);
    let r = c.step(&Event::Backspace);
    assert!(matches!(r, StepResult::Pending));
    assert_eq!(c.query, "");
}

#[test]
fn enter_on_empty_window_gives_no_result() {
    let mut c = sample_controller(3);
    c.step(&Event::Char('z'));
    c.step(&Event::Char('q'));
    c.step(&Event::Char('j'));
    let r = c.step(&Event::Enter);
    match r {
        StepResult::Finished(sel) => assert!(sel.is_none()),
        StepResult::Pending => panic!("Enter must finish the session"),
    }
}

#[test]
fn esc_cancels_with_no_result() {
    let mut c = sample_controller(3);
    c.step(&Event::Char('s'));
    let r = c.step(&Event::Esc);
    match r {
        StepResult::Finished(sel) => assert!(sel.is_none()),
        StepResult::Pending => panic!("Esc must finish the session"),
    }
}

#[test]
fn enter_selects_item_under_cursor() {
    let mut c = sample_controller(3);
    c.step(&Event::Down);
    let r = c.step(&Event::Enter);
    match r {
        StepResult::Finished(sel) => assert_eq!(sel, Some(1)),
        StepResult::Pending => panic!("Enter must finish the session"),
    }
}

#[test]
fn mouse_like_events_are_ignored() {
    let mut c = sample_controller(3);
    let r = c.step(&Event::Other);
    assert!(matches!(r, StepResult::Pending));
    assert_eq!(c.query, "");
    assert_eq!(c.cursor, 0);
}

#[test]
fn cache_returns_stable_results_without_recomputing() {
    let table = Table::new(&["cat", "dog", "fish", "bear", "soup"]);
    let ranker = Ranker::new(3);
    let mut cache = QueryCache::new();
    let q = String::from("s");
    let a = cache.get_or_compute(&table, &ranker, &q);
    let stored = cache.entries.len();
    let b = cache.get_or_compute(&table, &ranker, &q);
    assert_eq!(cache.entries.len(), stored);
    assert_eq!(a.entries.len(), b.entries.len());
    for (ea, eb) in a.entries.iter().zip(b.entries.iter()) {
        assert_eq!(ea.index, eb.index);
        assert_eq!(ea.score, eb.score);
        assert_eq!(ea.len, eb.len);
        assert_eq!(ea.matched, eb.matched);
    }
}

#[test]
fn empty_query_never_touches_the_cache() {
    let table = Table::new(&["cat", "dog"]);
    let ranker = Ranker::new(3);
    let mut cache = QueryCache::new();
    let q = String::new();
    let rs = cache.get_or_compute(&table, &ranker, &q);
    assert_eq!(cache.entries.len(), 0);
    assert_eq!(rs.entries.len(), 2);
    assert_eq!(rs.entries[0].index, 0);
    assert_eq!(rs.entries[1].index, 1);
    assert!(rs.entries[0].score.is_none());
}

#[test]
fn idle_ticks_warm_the_cache_in_reverse_alphabet_order() {
    let mut c = sample_controller(3);
    assert_eq!(c.cache.entries.len(), 0);
    c.step(&Event::Tick);
    assert_eq!(c.cache.entries.len(), 1);
    assert_eq!(c.cache.entries[0].0, "z");
    c.step(&Event::Tick);
    assert_eq!(c.cache.entries.len(), 2);
    assert_eq!(c.cache.entries[1].0, "y");
}

#[test]
fn an_idle_tick_runs_at_most_one_speculative_computation() {
    let mut c = sample_controller(3);
    for tick in 1..=3 {
        let before = c.cache.entries.len();
        c.step(&Event::Tick);
        assert_eq!(c.cache.entries.len(), before + 1);
        assert_eq!(c.cache.entries.len(), tick);
    }
    assert_eq!(c.query, "");
    assert_eq!(c.cursor, 0);
}

#[test]
fn prewarm_picks_the_latest_uncached_candidate() {
    let table = Table::new(&["cat"]);
    let ranker = Ranker::new(2);
    let mut cache = QueryCache::new();
    let candidates = vec![String::from("a"), String::from("b"), String::from("c")];
    assert_eq!(cache.pick_prewarm(&candidates), Some(2));
    let _ = cache.get_or_compute(&table, &ranker, &candidates[2]);
    assert_eq!(cache.pick_prewarm(&candidates), Some(1));
    let _ = cache.get_or_compute(&table, &ranker, &candidates[1]);
    let _ = cache.get_or_compute(&table, &ranker, &candidates[0]);
    assert_eq!(cache.pick_prewarm(&candidates), None);
}

#[test]
fn handler_update_reranks_for_the_new_query() {
    let mut c = sample_controller(3);
    c.update("so");
    assert_eq!(c.query, "so");
    let vis = c.visible();
    assert!(!vis.entries.is_empty());
    assert_eq!(c.table.rows[vis.entries[0].index].text, "soup");
}
