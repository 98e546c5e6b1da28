use spellcast::board::{Board, Step};
use spellcast::word::Word;

fn normal(indices: &[i8]) -> Vec<Step> {
    indices.iter().map(|&index| Step::Normal { index }).collect()
}

#[test]
fn tripled_letter_doubled_word_scores_24() {
    let mut board = Board::default();
    board.tiles[0].letter = 'm';
    board.tiles[0].letter_multiplier = 3;
    board.tiles[0].word_multiplier = 2;
    let w = Word::new(normal(&[0, 1, 2]), &board);
    assert_eq!(w.score, 24);
    assert_eq!(w.sorting_score, 24);
}

#[test]
fn score_of_short_word_has_no_bonus() {
    let mut board = Board::parse("maexxxxxxxxxxxxxxxxxxxxxx").unwrap();
    board.tiles[0].letter_multiplier = 3;
    board.tiles[0].word_multiplier = 2;
    let w = Word::new(normal(&[0, 1, 2]), &board);
    assert_eq!(w.score, (4 * 3 + 1 + 1) * 2);
    assert_eq!(w.gems_collected, 0);
    assert_eq!(w.swaps_used, 0);
}

#[test]
fn six_steps_earn_length_bonus() {
    let board = Board::parse("aaaaaaaaaaaaaaaaaaaaaaaaa").unwrap();
    let five = Word::new(normal(&[0, 1, 2, 3, 4]), &board);
    let six = Word::new(normal(&[0, 1, 2, 3, 4, 9]), &board);
    assert_eq!(five.score, 5);
    assert_eq!(six.score, 6 + 10);
}

#[test]
fn word_multiplier_is_the_largest_not_the_product() {
    let board = Board::parse("a$a$aaaaaaaaaaaaaaaaaaaaaaa").unwrap();
    let w = Word::new(normal(&[0, 1, 2]), &board);
    assert_eq!(w.score, 3 * 2);
}

#[test]
fn gems_swaps_and_sorting_score() {
    let mut board = Board::parse("a!b!cdefghijklmnopqrstuvwxy").unwrap();
    board.gem_bonus = 100;
    let steps = vec![
        Step::Normal { index: 0 },
        Step::Swap { index: 1, new_letter: 'z' },
        Step::Normal { index: 2 },
    ];
    let w = Word::new(steps, &board);
    assert_eq!(w.score, 1 + 8 + 5);
    assert_eq!(w.gems_collected, 2);
    assert_eq!(w.swaps_used, 1);
    assert_eq!(w.sorting_score, 14 + 200);
}

#[test]
fn word_spells_and_marks_swaps() {
    let board = Board::parse("catxxxxxxxxxxxxxxxxxxxxxx").unwrap();
    let steps = vec![
        Step::Normal { index: 0 },
        Step::Swap { index: 1, new_letter: 'o' },
        Step::Normal { index: 2 },
    ];
    let w = Word::new(steps, &board);
    assert_eq!(w.word(&board), "cot");
    assert_eq!(w.formatted(&board), "c\x1b[31mo\x1b[0mt");
}
