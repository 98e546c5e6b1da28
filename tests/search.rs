use spellcast::board::{Board, Step};
use spellcast::dictionary::load_dictionary_tree;
use spellcast::driver::{chunk_size, initial_calls, run_calls, solver_wrapper, SolveError, MAX_SWAPS};
use spellcast::word::Word;

fn spelled(words: &[Word], board: &Board) -> Vec<String> {
    words.iter().map(|w| w.word(board)).collect()
}

#[test]
fn all_vowel_board_finds_nothing() {
    let board = Board::parse("aeiouaeiouaeiouaeiouaeiou").unwrap();
    let dict = load_dictionary_tree("tea\nsea\nzoo\nbee\n".to_string());
    let (words, back) = solver_wrapper(board, 0, 1, &dict).unwrap();
    assert!(words.is_empty());
    assert_eq!(back.tiles[0].letter, 'a');
}

#[test]
fn finds_every_path_of_a_word() {
    let board = Board::parse("catzzzzzzzzzzzzzzzzzzzzzz").unwrap();
    let dict = load_dictionary_tree("cat\nact\n".to_string());
    let (words, board) = solver_wrapper(board, 0, 1, &dict).unwrap();
    assert_eq!(spelled(&words, &board), vec!["cat".to_string()]);
    let w = &words[0];
    let idx: Vec<i8> = w.steps.iter().map(|s| s.index()).collect();
    assert_eq!(idx, vec![0, 1, 2]);
    assert_eq!(w.score, 5 + 1 + 2);
    assert_eq!(w.swaps_used, 0);
}

#[test]
fn word_and_prefix_are_both_found() {
    let board = Board::parse("carts zzzzz zzzzz zzzzz zzzzz").unwrap();
    let dict = load_dictionary_tree("car\ncart\ncarts\n".to_string());
    let (words, board) = solver_wrapper(board, 0, 1, &dict).unwrap();
    let mut found = spelled(&words, &board);
    found.sort();
    assert_eq!(found, vec!["car".to_string(), "cart".to_string(), "carts".to_string()]);
    assert_eq!(words[0].word(&board), "carts");
}

#[test]
fn frozen_tiles_are_never_used() {
    let board = Board::parse("ca#tzzzzzzzzzzzzzzzzzzzzzz").unwrap();
    let dict = load_dictionary_tree("cat\n".to_string());
    let (words, _) = solver_wrapper(board, 0, 1, &dict).unwrap();
    assert!(words.is_empty());
    let board = Board::parse("ca#tzzzzzzzzzzzzzzzzzzzzzz").unwrap();
    let (words, _) = solver_wrapper(board, 1, 1, &dict).unwrap();
    for w in &words {
        assert!(w.steps.iter().all(|s| s.index() != 1));
    }
}

#[test]
fn tiles_are_not_reused() {
    let board = Board::parse("aazzzzzzzzzzzzzzzzzzzzzzz").unwrap();
    let dict = load_dictionary_tree("aaa\n".to_string());
    let (words, _) = solver_wrapper(board, 0, 1, &dict).unwrap();
    assert!(words.is_empty());
}

#[test]
fn swap_to_missing_letter() {
    let board = Board::parse("cazzzzzzzzzzzzzzzzzzzzzzz").unwrap();
    let dict = load_dictionary_tree("cat\n".to_string());
    let (words, board) = solver_wrapper(board, 1, 1, &dict).unwrap();
    assert_eq!(words.len(), 4);
    for w in &words {
        assert_eq!(w.swaps_used, 1);
        assert_eq!(w.word(&board), "cat");
        match w.steps[2] {
            Step::Swap { index, new_letter } => {
                assert_eq!(new_letter, 't');
                assert_ne!(board.tiles[index as usize].letter, 't');
            }
            Step::Normal { .. } => panic!("expected a swap"),
        }
    }
    let mut ends: Vec<i8> = words.iter().map(|w| w.steps[2].index()).collect();
    ends.sort();
    assert_eq!(ends, vec![2, 5, 6, 7]);
}

#[test]
fn no_swaps_without_budget() {
    let board = Board::parse("cazzzzzzzzzzzzzzzzzzzzzzz").unwrap();
    let dict = load_dictionary_tree("cat\n".to_string());
    let (words, _) = solver_wrapper(board, 0, 1, &dict).unwrap();
    assert!(words.is_empty());
}

#[test]
fn too_many_swaps_are_refused() {
    let board = Board::parse("catzzzzzzzzzzzzzzzzzzzzzz").unwrap();
    let dict = load_dictionary_tree("cat\n".to_string());
    assert_eq!(MAX_SWAPS, 3);
    assert_eq!(solver_wrapper(board, 4, 1, &dict).err(), Some(SolveError::TooManySwaps));
}

#[test]
fn worker_count_does_not_change_results() {
    let text = "tea\nten\nnet\nnets\nsent\nstone\nnotes\nonset\ntones\nseat\neats\neast\nsate\netas\nteas\nants\ntans\nrats\nstar\narts\ntars\nrate\ntear\n";
    let dict = load_dictionary_tree(text.to_string());
    let board_text = "stone arets notes eastr tanes";
    let one = solver_wrapper(Board::parse(board_text).unwrap(), 1, 1, &dict).unwrap().0;
    let four = solver_wrapper(Board::parse(board_text).unwrap(), 1, 4, &dict).unwrap().0;
    assert!(!one.is_empty());
    assert_eq!(one.len(), four.len());
    for (a, b) in one.iter().zip(four.iter()) {
        assert_eq!(a.steps, b.steps);
        assert_eq!(a.score, b.score);
        assert_eq!(a.sorting_score, b.sorting_score);
    }
    for pair in one.windows(2) {
        assert!(pair[0].sorting_score >= pair[1].sorting_score);
    }
}

#[test]
fn chunks_merge_like_one_run() {
    let dict = load_dictionary_tree("tea\nten\nnet\nnets\nsent\nstone\n".to_string());
    let board = Board::parse("stonestonestonestonestone").unwrap();
    let calls = initial_calls(&board, 1, &dict);
    let whole = run_calls(&board, &dict, &calls, 0, calls.len());
    let size = chunk_size(calls.len(), 3);
    let mut merged = run_calls(&board, &dict, &calls, 0, size);
    merged.absorb(run_calls(&board, &dict, &calls, size, 2 * size));
    merged.absorb(run_calls(&board, &dict, &calls, 2 * size, calls.len()));
    let a: Vec<_> = whole.words().iter().map(|w| (w.steps.clone(), w.sorting_score)).collect();
    let b: Vec<_> = merged.words().iter().map(|w| (w.steps.clone(), w.sorting_score)).collect();
    assert_eq!(a, b);
}

#[test]
fn initial_calls_cover_tiles_and_letters() {
    let board = Board::parse("ca#tzzzzzzzzzzzzzzzzzzzzzz").unwrap();
    let dict = load_dictionary_tree("cat\nact\nzoo\n".to_string());
    let none = initial_calls(&board, 0, &dict);
    assert_eq!(none.len(), 1 + 22);
    assert!(none.iter().all(|c| matches!(c.step, Step::Normal { .. })));
    let some = initial_calls(&board, 2, &dict);
    assert_eq!(some.len(), 24 * 3);
    for c in &some {
        let swapped = matches!(c.step, Step::Swap { .. });
        assert_eq!(c.swaps, if swapped { 1 } else { 2 });
        assert_ne!(c.step.index(), 1);
    }
}

#[test]
fn chunk_size_rounds_up() {
    assert_eq!(chunk_size(10, 3), 4);
    assert_eq!(chunk_size(9, 3), 3);
    assert_eq!(chunk_size(0, 4), 0);
    assert_eq!(chunk_size(1, 4), 1);
    assert_eq!(chunk_size(7, 1), 7);
}
