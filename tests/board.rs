use spellcast::board::{get_letter_points, Board, ParseBoardError, Step, Tile};

const PLAIN: &str = "abcdefghijklmnopqrstuvwxy";

#[test]
fn letter_points_follow_table() {
    for c in ['a', 'e', 'i', 'o'] {
        assert_eq!(get_letter_points(c), 1);
    }
    for c in ['n', 'r', 's', 't'] {
        assert_eq!(get_letter_points(c), 2);
    }
    for c in ['d', 'g', 'l'] {
        assert_eq!(get_letter_points(c), 3);
    }
    for c in ['b', 'h', 'p', 'm', 'u', 'y'] {
        assert_eq!(get_letter_points(c), 4);
    }
    for c in ['c', 'f', 'v', 'w'] {
        assert_eq!(get_letter_points(c), 5);
    }
    assert_eq!(get_letter_points('k'), 6);
    assert_eq!(get_letter_points('j'), 7);
    assert_eq!(get_letter_points('x'), 7);
    assert_eq!(get_letter_points('q'), 8);
    assert_eq!(get_letter_points('z'), 8);
    assert_eq!(get_letter_points('?'), 0);
    assert_eq!(get_letter_points('A'), 0);
}

#[test]
fn empty_tile_has_no_modifiers() {
    let t = Tile::empty('q');
    assert_eq!(t.letter, 'q');
    assert_eq!(t.letter_multiplier, 1);
    assert_eq!(t.word_multiplier, 1);
    assert!(!t.gem);
    assert!(!t.frozen);
}

#[test]
fn parse_25_letters_in_row_major_order() {
    let board = Board::parse(PLAIN).unwrap();
    for (i, c) in PLAIN.chars().enumerate() {
        assert_eq!(board.tiles[i].letter, c);
        assert_eq!(board.tiles[i].letter_multiplier, 1);
        assert_eq!(board.tiles[i].word_multiplier, 1);
    }
    assert_eq!(board.gem_bonus, 0);
}

#[test]
fn parse_reads_modifiers_of_previous_letter() {
    let board = Board::parse("a$b+c*d!e#fghijklmnopqrstuvwxy").unwrap();
    assert_eq!(board.tiles[0].word_multiplier, 2);
    assert_eq!(board.tiles[1].letter_multiplier, 2);
    assert_eq!(board.tiles[2].letter_multiplier, 3);
    assert!(board.tiles[3].gem);
    assert!(board.tiles[4].frozen);
    assert!(!board.tiles[5].frozen);
    assert_eq!(board.tiles[5].letter, 'f');
}

#[test]
fn parse_ignores_decoration_and_leading_modifiers() {
    let text = "$#1 abcde\n2 fghij\n3 klmno\n4 pqrst\n5 uvwxy\n  1 2 3 4 5";
    let board = Board::parse(text).unwrap();
    assert_eq!(board.tiles[0].letter, 'a');
    assert_eq!(board.tiles[0].word_multiplier, 1);
    assert!(!board.tiles[0].frozen);
    assert_eq!(board.tiles[24].letter, 'y');
}

#[test]
fn parse_is_case_insensitive() {
    let board = Board::parse("ABCDEfghijKLMNOpqrstUVWXY").unwrap();
    assert_eq!(board.tiles[0].letter, 'a');
    assert_eq!(board.tiles[4].letter, 'e');
    assert_eq!(board.tiles[24].letter, 'y');
}

#[test]
fn parse_lowercase_leaves_capitals_out() {
    assert_eq!(Board::parse_lowercase("ABCDEfghijklmnopqrstuvwxy").err(), Some(ParseBoardError {}));
}

#[test]
fn parse_rejects_too_few_letters() {
    assert_eq!(Board::parse("abcdefghijklmnopqrstuvwx").err(), Some(ParseBoardError {}));
    assert_eq!(Board::parse("").err(), Some(ParseBoardError {}));
}

#[test]
fn parse_rejects_too_many_letters() {
    assert_eq!(Board::parse("abcdefghijklmnopqrstuvwxyz").err(), Some(ParseBoardError {}));
}

#[test]
fn from_str_matches_parse() {
    let board: Board = PLAIN.parse().unwrap();
    assert_eq!(board.tiles[7].letter, 'h');
    assert!("abc".parse::<Board>().is_err());
}

#[test]
fn default_board_is_unset() {
    let board = Board::default();
    for t in board.tiles.iter() {
        assert_eq!(t.letter, '?');
        assert_eq!(t.letter_multiplier, 1);
    }
    assert_eq!(board.gem_bonus, 0);
}

#[test]
fn step_index_and_letter() {
    let board = Board::parse(PLAIN).unwrap();
    let n = Step::Normal { index: 7 };
    let s = Step::Swap { index: 7, new_letter: 'z' };
    assert_eq!(n.index(), 7);
    assert_eq!(s.index(), 7);
    assert_eq!(n.letter(&board), 'h');
    assert_eq!(s.letter(&board), 'z');
}
