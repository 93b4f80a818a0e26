use picky::model::Ranker;
use picky::model::Table;

fn sample_table() -> Table {
    Table::new(&["cat", "dog", "fish", "bear", "soup"])
}

#[test]
fn ranking_is_deterministic() {
    let table = sample_table();
    let ranker = Ranker::new(3);
    let a = ranker.rank_all(&table, "s");
    let b = ranker.rank_all(&table, "s");
    assert_eq!(a.entries.len(), b.entries.len());
    for (ea, eb) in a.entries.iter().zip(b.entries.iter()) {
        assert_eq!(ea.index, eb.index);
        assert_eq!(ea.score, eb.score);
        assert_eq!(ea.len, eb.len);
        assert_eq!(ea.matched, eb.matched);
    }
}

#[test]
fn ranking_obeys_ordering_rule() {
    let table = sample_table();
    let ranker = Ranker::new(5);
    let rs = ranker.rank_all(&table, "s");
    for w in rs.entries.windows(2) {
        let a = &w[0];
        let b = &w[1];
        let sa = a.score.unwrap();
        let sb = b.score.unwrap();
        assert!(sa >= sb);
        if sa == sb {
            assert!(a.len <= b.len);
            if a.len == b.len {
                assert!(a.index < b.index);
            }
        }
    }
}

#[test]
fn single_s_query_keeps_only_matching_items() {
    let table = sample_table();
    let ranker = Ranker::new(3);
    let rs = ranker.rank_all(&table, "s");
    assert!(rs.entries.len() <= 3);
    assert!(!rs.entries.is_empty());
    let mut texts: Vec<String> = Vec::new();
    for e in rs.entries.iter() {
        let text = &table.rows[e.index].text;
        assert!(text.contains('s'));
        texts.push(text.clone());
    }
    assert!(texts.iter().any(|t| t == "soup"));
}

#[test]
fn exact_prefix_query_matches_with_positions() {
    let table = sample_table();
    let ranker = Ranker::new(3);
    let rs = ranker.rank_all(&table, "ca");
    assert_eq!(rs.entries.len(), 1);
    let e = &rs.entries[0];
    assert_eq!(e.index, 0);
    assert_eq!(table.rows[e.index].text, "cat");
    assert_eq!(e.len, 3);
    assert_eq!(e.matched, vec![0, 1]);
    assert!(e.score.is_some());
}

#[test]
fn unmatched_query_yields_empty_result() {
    let table = sample_table();
    let ranker = Ranker::new(3);
    let rs = ranker.rank_all(&table, "zqj");
    assert!(rs.entries.is_empty());
}

#[test]
fn capacity_caps_the_result() {
    let table = Table::new(&["as", "bs", "cs", "ds", "es", "fs"]);
    let ranker = Ranker::new(2);
    let rs = ranker.rank_all(&table, "s");
    assert_eq!(rs.entries.len(), 2);
}

#[test]
fn single_s_query_scores_exactly_the_items_containing_s() {
    let table = sample_table();
    let ranker = Ranker::new(3);
    let rs = ranker.rank_all(&table, "s");
    let mut found: Vec<usize> = rs.entries.iter().map(|e| e.index).collect();
    found.sort();
    assert_eq!(found, vec![2, 4]);
}

#[test]
fn table_keeps_store_order() {
    let table = sample_table();
    assert_eq!(table.len(), 5);
    assert_eq!(table.rows[0].text, "cat");
    assert_eq!(table.rows[4].text, "soup");
}
