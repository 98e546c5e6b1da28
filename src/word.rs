use vstd::prelude::*;
use crate::board::{Board, Step, get_letter_points, letter_value, on_board};

verus! {

/// Points of one step: the letter's value times its tile's letter multiplier.
pub open spec fn step_points(board: Board, s: Step) -> int {
    letter_value(s.letter_on(board)) * board.tiles@[s.at()].letter_multiplier
}

/// Sum of the step points of a path.
pub open spec fn raw_points(board: Board, steps: Seq<Step>) -> int
    decreases steps.len(),
{
    if steps.len() == 0 {
        0
    } else {
        raw_points(board, steps.drop_last()) + step_points(board, steps.last())
    }
}

/// The largest word multiplier among the tiles of a path, and 1 for no tile.
pub open spec fn top_word_multiplier(board: Board, steps: Seq<Step>) -> int
    decreases steps.len(),
{
    if steps.len() == 0 {
        1
    } else {
        let m = top_word_multiplier(board, steps.drop_last());
        let w = board.tiles@[steps.last().at()].word_multiplier as int;
        if w > m {
            w
        } else {
            m
        }
    }
}

/// Number of gem tiles a path touches.
pub open spec fn gem_count(board: Board, steps: Seq<Step>) -> int
    decreases steps.len(),
{
    if steps.len() == 0 {
        0
    } else {
        gem_count(board, steps.drop_last()) + if board.tiles@[steps.last().at()].gem {
            1int
        } else {
            0int
        }
    }
}

/// Number of swap steps in a path.
pub open spec fn swap_count(steps: Seq<Step>) -> int
    decreases steps.len(),
{
    if steps.len() == 0 {
        0
    } else {
        swap_count(steps.drop_last()) + if steps.last() is Swap {
            1int
        } else {
            0int
        }
    }
}

/// Extra points for a path of six steps or more.
pub open spec fn length_bonus(steps: Seq<Step>) -> int {
    if steps.len() >= 6 {
        10
    } else {
        0
    }
}

/// The score of a path: its raw points times its top word multiplier, plus the length bonus.
pub open spec fn word_score(board: Board, steps: Seq<Step>) -> int {
    raw_points(board, steps) * top_word_multiplier(board, steps) + length_bonus(steps)
}

/// The ranking key of a path: its score plus its gems valued at the board's gem bonus.
pub open spec fn ranking_score(board: Board, steps: Seq<Step>) -> int {
    word_score(board, steps) + gem_count(board, steps) * board.gem_bonus
}

/// The word that a path spells.
pub open spec fn spelled(board: Board, steps: Seq<Step>) -> Seq<char> {
    steps.map_values(|s: Step| s.letter_on(board))
}

/// The escape sequence that starts red text, then `c`, then the sequence that resets the colour.
pub open spec fn marked(c: char) -> Seq<char> {
    seq!['\x1b', '[', '3', '1', 'm', c, '\x1b', '[', '0', 'm']
}

/// The word of a path with each swapped letter shown in red.
pub open spec fn shown(board: Board, steps: Seq<Step>) -> Seq<char>
    decreases steps.len(),
{
    if steps.len() == 0 {
        Seq::empty()
    } else {
        let s = steps.last();
        shown(board, steps.drop_last()) + if s is Swap {
            marked(s.letter_on(board))
        } else {
            seq![s.letter_on(board)]
        }
    }
}

/// The path a word is made of, and what it is worth.
pub struct Word {
    pub gems_collected: u8,
    pub score: u16,
    pub sorting_score: u32,
    pub steps: Vec<Step>,
    pub swaps_used: u8,
}

impl Word {
    /// The word holds exactly the path `steps` with the metadata computed from `board`.
    pub open spec fn scores(self, board: Board, steps: Seq<Step>) -> bool {
        &&& self.steps@ == steps
        &&& self.score == word_score(board, steps)
        &&& self.gems_collected == gem_count(board, steps)
        &&& self.swaps_used == swap_count(steps)
        &&& self.sorting_score == ranking_score(board, steps)
    }
}

/// Relies on `String::push`: the character is appended to the end of the text.
#[verifier::external_body]
fn push_char(s: &mut String, c: char)
    ensures
        final(s)@ == old(s)@.push(c),
{
    s.push(c)
}


/// Bounds on the path metadata that keep it within its integer types.
proof fn lemma_bounds(board: Board, steps: Seq<Step>)
    requires
        board.wf(),
        on_board(steps),
    ensures
        0 <= raw_points(board, steps) <= 24 * steps.len(),
        1 <= top_word_multiplier(board, steps) <= 3,
        0 <= gem_count(board, steps) <= steps.len(),
        0 <= swap_count(steps) <= steps.len(),
    decreases steps.len(),
{
    if steps.len() > 0 {
        let init = steps.drop_last();
        assert(on_board(init)) by {
            assert forall|i: int| 0 <= i < init.len() implies 0 <= #[trigger] init[i].at() < 25 by {
                assert(init[i] == steps[i]);
            }
        }
        lemma_bounds(board, init);
        let s = steps.last();
        assert(0 <= steps[steps.len() - 1].at() < 25);
        assert(board.tiles@[s.at()].wf());
        assert(letter_value(s.letter_on(board)) <= 8);
        let lm = board.tiles@[s.at()].letter_multiplier as int;
        assert(0 <= letter_value(s.letter_on(board)) * lm <= 24) by (nonlinear_arith)
            requires
                letter_value(s.letter_on(board)) <= 8,
                1 <= lm <= 3,
        ;
    }
}

impl Word {
    /// Computes the score and the metadata of a path. The score is the sum of each step's letter
    /// value times its tile's letter multiplier, times the largest word multiplier met, plus 10
    /// for a path of six steps or more.
    pub fn new(steps: Vec<Step>, board: &Board) -> (w: Word)
        requires
            board.wf(),
            on_board(steps@),
            steps@.len() <= 25,
        ensures
            w.scores(*board, steps@),
            steps@.len() >= 6 ==> w.score == raw_points(*board, steps@) * top_word_multiplier(
                *board,
                steps@,
            ) + 10,
            steps@.len() < 6 ==> w.score == raw_points(*board, steps@) * top_word_multiplier(
                *board,
                steps@,
            ),
    {
        let mut gems_collected: u8 = 0;
        let mut score: u16 = 0;
        let mut swaps_used: u8 = 0;
        let mut word_multiplier: u16 = 1;
        let mut i: usize = 0;
        while i < steps.len()
            invariant
                board.wf(),
                on_board(steps@),
                steps@.len() <= 25,
                i <= steps@.len(),
                score == raw_points(*board, steps@.take(i as int)),
                word_multiplier == top_word_multiplier(*board, steps@.take(i as int)),
                gems_collected == gem_count(*board, steps@.take(i as int)),
                swaps_used == swap_count(steps@.take(i as int)),
            decreases steps@.len() - i,
        {
            let ghost before = steps@.take(i as int);
            let ghost after = steps@.take(i as int + 1);
            assert(after.drop_last() == before);
            assert(after.last() == steps@[i as int]);
            assert(on_board(after)) by {
                assert forall|j: int| 0 <= j < after.len() implies 0 <= #[trigger] after[j].at()
                    < 25 by {
                    assert(after[j] == steps@[j]);
                }
            }
            proof {
                lemma_bounds(*board, after);
            }
            let step = &steps[i];
            let tile = &board.tiles[step.index() as usize];
            assert(board.tiles@[step.at()].wf());
            let points = get_letter_points(step.letter(board));
            assert(points * tile.letter_multiplier <= 24) by (nonlinear_arith)
                requires
                    points <= 8,
                    tile.letter_multiplier <= 3,
            ;
            score = score + (points * tile.letter_multiplier) as u16;
            if tile.word_multiplier as u16 > word_multiplier {
                word_multiplier = tile.word_multiplier as u16;
            }
            if tile.gem {
                gems_collected = gems_collected + 1;
            }
            if matches!(step, Step::Swap { .. }) {
                swaps_used = swaps_used + 1;
            }
            i = i + 1;
        }
        assert(steps@.take(steps@.len() as int) == steps@);
        proof {
            lemma_bounds(*board, steps@);
        }
        assert(score * word_multiplier <= 1800) by (nonlinear_arith)
            requires
                score <= 600,
                word_multiplier <= 3,
        ;
        score = score * word_multiplier;
        if steps.len() >= 6 {
            score = score + 10;
        }
        assert(gems_collected * board.gem_bonus <= 25 * 65535) by (nonlinear_arith)
            requires
                gems_collected <= 25,
        ;
        let sorting_score = score as u32 + gems_collected as u32 * board.gem_bonus as u32;
        Word { gems_collected, score, sorting_score, steps, swaps_used }
    }

    /// Returns the word that the path spells.
    pub fn word(&self, board: &Board) -> (r: String)
        requires
            on_board(self.steps@),
        ensures
            r@ == spelled(*board, self.steps@),
    {
        let mut buf = String::new();
        let mut i: usize = 0;
        while i < self.steps.len()
            invariant
                on_board(self.steps@),
                i <= self.steps@.len(),
                buf@ == spelled(*board, self.steps@.take(i as int)),
            decreases self.steps@.len() - i,
        {
            let c = self.steps[i].letter(board);
            push_char(&mut buf, c);
            assert(spelled(*board, self.steps@.take(i as int + 1)) == spelled(
                *board,
                self.steps@.take(i as int),
            ).push(c));
            i = i + 1;
        }
        assert(self.steps@.take(self.steps@.len() as int) == self.steps@);
        buf
    }

    /// Returns the word that the path spells with each swapped letter in red.
    pub fn formatted(&self, board: &Board) -> (r: String)
        requires
            on_board(self.steps@),
        ensures
            r@ == shown(*board, self.steps@),
    {
        let mut buf = String::new();
        let mut i: usize = 0;
        while i < self.steps.len()
            invariant
                on_board(self.steps@),
                i <= self.steps@.len(),
                buf@ == shown(*board, self.steps@.take(i as int)),
            decreases self.steps@.len() - i,
        {
            let ghost upto = self.steps@.take(i as int + 1);
            assert(upto.drop_last() == self.steps@.take(i as int));
            let step = &self.steps[i];
            let c = step.letter(board);
            match step {
                Step::Normal { .. } => {
                    push_char(&mut buf, c);
                },
                Step::Swap { .. } => {
                    push_char(&mut buf, '\x1b');
                    push_char(&mut buf, '[');
                    push_char(&mut buf, '3');
                    push_char(&mut buf, '1');
                    push_char(&mut buf, 'm');
                    push_char(&mut buf, c);
                    push_char(&mut buf, '\x1b');
                    push_char(&mut buf, '[');
                    push_char(&mut buf, '0');
                    push_char(&mut buf, 'm');
                },
            }
            assert(buf@ == shown(*board, upto));
            i = i + 1;
        }
        assert(self.steps@.take(self.steps@.len() as int) == self.steps@);
        buf
    }
}

} // verus!
