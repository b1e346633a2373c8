//! Tests of the bounded selector and the scalar selection drivers over
//! plain score keys.
use latus::selector::Selector;
use latus::table::{select_bottom_k, select_top_k};

#[test]
fn top_k_exact() {
    let scores: Vec<u32> = vec![5, 1, 9, 7];
    let r = select_top_k(&scores, 2);
    assert_eq!(r, vec![(9, 2), (7, 3)]);
}

#[test]
fn bottom_k_exact() {
    let scores: Vec<u32> = vec![5, 1, 9, 7];
    let r = select_bottom_k(&scores, 2);
    assert_eq!(r, vec![(1, 1), (5, 0)]);
}

#[test]
fn k_zero_returns_empty() {
    let scores: Vec<u32> = vec![5, 1, 9];
    assert_eq!(select_top_k(&scores, 0), vec![]);
    assert_eq!(select_bottom_k(&scores, 0), vec![]);
}

#[test]
fn k_beyond_count_returns_all_sorted() {
    let scores: Vec<u32> = vec![5, 1, 9, 7];
    let top = select_top_k(&scores, 10);
    assert_eq!(top, vec![(9, 2), (7, 3), (5, 0), (1, 1)]);
    let bottom = select_bottom_k(&scores, 10);
    assert_eq!(bottom, vec![(1, 1), (5, 0), (7, 3), (9, 2)]);
}

#[test]
fn empty_scores_give_empty_result() {
    let scores: Vec<u32> = vec![];
    assert_eq!(select_top_k(&scores, 4), vec![]);
    assert_eq!(select_bottom_k(&scores, 4), vec![]);
}

#[test]
fn tie_break_is_deterministic() {
    // Candidates are ordered lexicographically by (score, id): among equal
    // scores, bottom-k keeps and lists the smallest ids first, top-k keeps
    // the largest ids and lists them first.
    let scores: Vec<u32> = vec![4, 4, 4];
    assert_eq!(select_bottom_k(&scores, 2), vec![(4, 0), (4, 1)]);
    assert_eq!(select_top_k(&scores, 2), vec![(4, 2), (4, 1)]);
}

#[test]
fn selector_streams_and_drains() {
    let mut sel = Selector::new(2, true);
    sel.push(3, 0);
    sel.push(8, 1);
    sel.push(5, 2);
    sel.push(1, 3);
    let r = sel.drain_sorted();
    assert_eq!(r, vec![(8, 1), (5, 2)]);

    let mut sel = Selector::new(3, false);
    sel.push(3, 0);
    sel.push(8, 1);
    sel.push(5, 2);
    sel.push(1, 3);
    let r = sel.drain_sorted();
    assert_eq!(r, vec![(1, 3), (3, 0), (5, 2)]);
}

#[test]
fn selector_keeps_best_across_many_pushes() {
    let mut sel = Selector::new(4, true);
    let mut i: usize = 0;
    while i < 100 {
        // a shuffled-ish stream: 0, 37, 74, 11, 48, ... (mod 100)
        let s = ((i * 37) % 100) as u32;
        sel.push(s, i);
        i += 1;
    }
    let r = sel.drain_sorted();
    let keys: Vec<u32> = r.iter().map(|p| p.0).collect();
    assert_eq!(keys, vec![99, 98, 97, 96]);
}
