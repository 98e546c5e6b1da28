use spellcast::board::{Board, Step};
use spellcast::collector::{SortedWordVec, MAX_SOLUTIONS};
use spellcast::word::Word;

/// A one-step word on tile `index` of a board whose gem bonus makes its sorting score `score`.
fn ranked(index: i8, score: u16) -> Word {
    let mut board = Board::parse("a!a!a!a!a!a!a!a!a!a!a!a!a!a!a!a!a!a!a!a!a!a!a!a!a!").unwrap();
    board.gem_bonus = score - 1;
    Word::new(vec![Step::Normal { index }], &board)
}

fn keys(c: &SortedWordVec) -> Vec<(u32, i8)> {
    c.words().iter().map(|w| (w.sorting_score, w.steps[0].index())).collect()
}

#[test]
fn new_collector_is_empty_with_default_limit() {
    let c = SortedWordVec::new();
    assert_eq!(c.len(), 0);
    assert_eq!(c.limit(), MAX_SOLUTIONS);
    assert_eq!(MAX_SOLUTIONS, 256);
}

#[test]
fn push_keeps_descending_order() {
    let mut c = SortedWordVec::new();
    for (i, s) in [5u16, 9, 1, 7, 3].iter().enumerate() {
        c.push(ranked(i as i8, *s));
    }
    assert_eq!(keys(&c), vec![(9, 1), (7, 3), (5, 0), (3, 4), (1, 2)]);
}

#[test]
fn equal_scores_keep_push_order() {
    let mut c = SortedWordVec::new();
    c.push(ranked(0, 4));
    c.push(ranked(1, 4));
    c.push(ranked(2, 6));
    c.push(ranked(3, 4));
    assert_eq!(keys(&c), vec![(6, 2), (4, 0), (4, 1), (4, 3)]);
}

#[test]
fn limit_is_never_exceeded() {
    let mut c = SortedWordVec::with_limit(3);
    for i in 0..20i8 {
        c.push(ranked(i % 25, (i as u16 * 7) % 11 + 1));
        assert!(c.len() <= 3);
        let k = keys(&c);
        for pair in k.windows(2) {
            assert!(pair[0].0 >= pair[1].0);
        }
    }
    assert_eq!(keys(&c).iter().map(|k| k.0).collect::<Vec<_>>(), vec![11, 11, 10]);
}

#[test]
fn default_limit_drops_the_lowest() {
    let mut c = SortedWordVec::new();
    for i in 0..300u16 {
        c.push(ranked((i % 25) as i8, i + 1));
    }
    assert_eq!(c.len(), 256);
    let v = c.into_vec();
    assert_eq!(v[0].sorting_score, 300);
    assert_eq!(v[255].sorting_score, 45);
}

#[test]
fn zero_limit_holds_nothing() {
    let mut c = SortedWordVec::with_limit(0);
    c.push(ranked(0, 3));
    assert_eq!(c.len(), 0);
}

#[test]
fn merging_capped_collectors_matches_one_collector() {
    let scores_a = [3u16, 8, 8, 1, 6];
    let scores_b = [8u16, 2, 9, 6, 6, 4];
    let mut a = SortedWordVec::with_limit(4);
    let mut b = SortedWordVec::with_limit(4);
    let mut all = SortedWordVec::with_limit(4);
    for (i, s) in scores_a.iter().enumerate() {
        a.push(ranked(i as i8, *s));
        all.push(ranked(i as i8, *s));
    }
    for (i, s) in scores_b.iter().enumerate() {
        b.push(ranked(10 + i as i8, *s));
        all.push(ranked(10 + i as i8, *s));
    }
    a.absorb(b);
    assert_eq!(keys(&a), keys(&all));
    assert_eq!(keys(&a), vec![(9, 12), (8, 1), (8, 2), (8, 10)]);
}
