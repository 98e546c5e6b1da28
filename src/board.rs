use vstd::prelude::*;

verus! {

/// Points that a letter is worth before any multiplier.
pub open spec fn letter_value(c: char) -> nat {
    if c == 'a' || c == 'e' || c == 'i' || c == 'o' {
        1
    } else if c == 'n' || c == 'r' || c == 's' || c == 't' {
        2
    } else if c == 'd' || c == 'g' || c == 'l' {
        3
    } else if c == 'b' || c == 'h' || c == 'p' || c == 'm' || c == 'u' || c == 'y' {
        4
    } else if c == 'c' || c == 'f' || c == 'v' || c == 'w' {
        5
    } else if c == 'k' {
        6
    } else if c == 'j' || c == 'x' {
        7
    } else if c == 'q' || c == 'z' {
        8
    } else {
        0
    }
}

/// Returns the points given for a letter.
pub fn get_letter_points(letter: char) -> (r: u8)
    ensures
        r == letter_value(letter),
        r <= 8,
{
    match letter {
        'a' | 'e' | 'i' | 'o' => 1,
        'n' | 'r' | 's' | 't' => 2,
        'd' | 'g' | 'l' => 3,
        'b' | 'h' | 'p' | 'm' | 'u' | 'y' => 4,
        'c' | 'f' | 'v' | 'w' => 5,
        'k' => 6,
        'j' | 'x' => 7,
        'q' | 'z' => 8,
        _ => 0,
    }
}


/// One cell of the board.
#[derive(Clone, Copy, Debug)]
pub struct Tile {
    pub letter: char,
    pub letter_multiplier: u8,
    pub word_multiplier: u8,
    pub gem: bool,
    pub frozen: bool,
}

/// A tile showing `c` with no multiplier, no gem and not frozen.
pub open spec fn plain_tile(c: char) -> Tile {
    Tile { letter: c, letter_multiplier: 1, word_multiplier: 1, gem: false, frozen: false }
}

impl Tile {
    /// Both multipliers lie in 1..=3.
    pub open spec fn wf(&self) -> bool {
        1 <= self.letter_multiplier <= 3 && 1 <= self.word_multiplier <= 3
    }

    /// Returns a tile with `letter` and no special property.
    pub fn empty(letter: char) -> (t: Tile)
        ensures
            t == plain_tile(letter),
    {
        Tile { letter, letter_multiplier: 1, word_multiplier: 1, gem: false, frozen: false }
    }
}

/// The 5x5 grid of tiles in row-major order (index = row * 5 + column).
#[derive(Clone, Copy, Debug)]
pub struct Board {
    pub tiles: [Tile; 25],
    /// Ranking value of one collected gem; it never enters the raw score.
    pub gem_bonus: u16,
}

impl Board {
    /// Every tile has its multipliers in 1..=3.
    pub open spec fn wf(&self) -> bool {
        forall|i: int| 0 <= i < 25 ==> (#[trigger] self.tiles[i]).wf()
    }
}

impl Default for Board {
    fn default() -> (b: Board)
        ensures
            forall|i: int| 0 <= i < 25 ==> b.tiles[i] == plain_tile('?'),
            b.gem_bonus == 0,
            b.wf(),
    {
        Board { tiles: [Tile::empty('?'); 25], gem_bonus: 0 }
    }
}

/// The error of `Board::parse`: the text did not hold exactly 25 letters.
#[derive(Clone, Copy, Debug, PartialEq, Eq, Structural)]
pub struct ParseBoardError {}

/// Whether `c` starts a new tile.
pub open spec fn is_tile_letter(c: char) -> bool {
    'a' <= c <= 'z'
}

/// What a modifier character does to the tile it follows.
pub open spec fn modified(t: Tile, c: char) -> Tile {
    if c == '$' {
        Tile { word_multiplier: 2, ..t }
    } else if c == '+' {
        Tile { letter_multiplier: 2, ..t }
    } else if c == '*' {
        Tile { letter_multiplier: 3, ..t }
    } else if c == '!' {
        Tile { gem: true, ..t }
    } else if c == '#' {
        Tile { frozen: true, ..t }
    } else {
        t
    }
}

/// The tiles that a lowercase board text describes: each letter opens a tile, each modifier
/// character changes the last tile, and anything else (or a modifier before any letter) is ignored.
pub open spec fn tiles_of(text: Seq<char>) -> Seq<Tile>
    decreases text.len(),
{
    if text.len() == 0 {
        Seq::empty()
    } else {
        let prev = tiles_of(text.drop_last());
        let c = text.last();
        if is_tile_letter(c) {
            prev.push(plain_tile(c))
        } else if prev.len() == 0 {
            prev
        } else {
            prev.update(prev.len() - 1, modified(prev.last(), c))
        }
    }
}

/// The letters of `text` that open tiles, in order.
pub open spec fn tile_letters(text: Seq<char>) -> Seq<char>
    decreases text.len(),
{
    if text.len() == 0 {
        Seq::empty()
    } else if is_tile_letter(text.last()) {
        tile_letters(text.drop_last()).push(text.last())
    } else {
        tile_letters(text.drop_last())
    }
}

/// What `str::to_lowercase` returns for a text.
pub uninterp spec fn lower_of(s: Seq<char>) -> Seq<char>;

/// Relies on `str::to_lowercase`, whose result depends on the characters alone.
#[verifier::external_body]
fn lowercase(s: &str) -> (r: String)
    ensures
        r@ == lower_of(s@),
{
    s.to_lowercase()
}

/// Each tile of a board text is a tile letter with multipliers in 1..=3, and the tiles are the
/// text's letters in the order they come.
pub proof fn lemma_tiles_of(text: Seq<char>)
    ensures
        tiles_of(text).len() == tile_letters(text).len(),
        forall|i: int|
            0 <= i < tiles_of(text).len() ==> (#[trigger] tiles_of(text)[i]).letter
                == tile_letters(text)[i],
        forall|i: int| 0 <= i < tiles_of(text).len() ==> (#[trigger] tiles_of(text)[i]).wf(),
    decreases text.len(),
{
    if text.len() > 0 {
        lemma_tiles_of(text.drop_last());
    }
}

impl Board {
    /// Parses a board text that is already in lowercase.
    pub fn parse_lowercase(text: &str) -> (r: Result<Board, ParseBoardError>)
        ensures
            r is Ok <==> tiles_of(text@).len() == 25,
            r is Ok <==> tile_letters(text@).len() == 25,
            r is Ok ==> r->Ok_0.tiles@ == tiles_of(text@) && r->Ok_0.gem_bonus == 0
                && r->Ok_0.wf(),
            r is Ok ==> forall|i: int| 0 <= i < 25 ==> r->Ok_0.tiles@[i].letter == tile_letters(text@)[i],
            r is Err ==> r == Err::<Board, ParseBoardError>(ParseBoardError {}),
    {
        let mut tiles: Vec<Tile> = Vec::new();
        let ghost mut seen: Seq<char> = Seq::empty();
        for c in it: text.chars()
            invariant
                seen == it.seq().take(it.index() as int),
                tiles@ == tiles_of(seen),
                it.seq() == text@,
        {
            proof {
                assert(seen.push(c) == it.seq().take(it.index() + 1));
                assert(seen.push(c).drop_last() == seen);
            }
            if 'a' <= c && c <= 'z' {
                tiles.push(Tile::empty(c));
            } else if tiles.len() > 0 {
                let last = tiles.len() - 1;
                let mut t = tiles[last];
                if c == '$' {
                    t.word_multiplier = 2;
                } else if c == '+' {
                    t.letter_multiplier = 2;
                } else if c == '*' {
                    t.letter_multiplier = 3;
                } else if c == '!' {
                    t.gem = true;
                } else if c == '#' {
                    t.frozen = true;
                }
                tiles.set(last, t);
            }
            proof {
                seen = seen.push(c);
            }
        }
        proof {
            assert(seen == text@);
            lemma_tiles_of(text@);
        }
        if tiles.len() != 25 {
            return Err(ParseBoardError {});
        }
        let mut grid = [Tile::empty('?'); 25];
        let mut i: usize = 0;
        while i < 25
            invariant
                i <= 25,
                tiles@.len() == 25,
                forall|j: int| 0 <= j < i ==> grid@[j] == tiles@[j],
            decreases 25 - i,
        {
            grid[i] = tiles[i];
            i += 1;
        }
        assert(grid@ == tiles@);
        Ok(Board { tiles: grid, gem_bonus: 0 })
    }

    /// Parses a board text: letters are read without regard to case, `$` after a letter doubles the
    /// word, `+` / `*` double / triple the letter, `!` puts a gem on it and `#` freezes it; any other
    /// character is ignored. Fails unless the text holds exactly 25 letters.
    pub fn parse(text: &str) -> (r: Result<Board, ParseBoardError>)
        ensures
            r is Ok <==> tiles_of(lower_of(text@)).len() == 25,
            r is Ok <==> tile_letters(lower_of(text@)).len() == 25,
            r is Ok ==> r->Ok_0.tiles@ == tiles_of(lower_of(text@)) && r->Ok_0.gem_bonus == 0
                && r->Ok_0.wf(),
            r is Ok ==> forall|i: int|
                0 <= i < 25 ==> r->Ok_0.tiles@[i].letter == tile_letters(lower_of(text@))[i],
            r is Err ==> r == Err::<Board, ParseBoardError>(ParseBoardError {}),
    {
        let lowered = lowercase(text);
        Board::parse_lowercase(lowered.as_str())
    }
}

impl core::str::FromStr for Board {
    type Err = ParseBoardError;

    fn from_str(s: &str) -> Result<Board, ParseBoardError> {
        Board::parse(s)
    }
}


/// One move of a path: use the tile at `index` as it is, or swap its letter to `new_letter` first.
#[derive(Clone, Copy, Debug, PartialEq, Eq, Structural)]
pub enum Step {
    Normal { index: i8 },
    Swap { index: i8, new_letter: char },
}

impl Step {
    /// The board position the step uses.
    pub open spec fn at(self) -> int {
        match self {
            Step::Normal { index } => index as int,
            Step::Swap { index, .. } => index as int,
        }
    }

    /// The letter the step contributes to the word.
    pub open spec fn letter_on(self, board: Board) -> char {
        match self {
            Step::Normal { index } => board.tiles@[index as int].letter,
            Step::Swap { new_letter, .. } => new_letter,
        }
    }

    /// Returns the board position of the step.
    pub fn index(&self) -> (r: i8)
        ensures
            r == self.at(),
    {
        match self {
            Step::Normal { index } => *index,
            Step::Swap { index, .. } => *index,
        }
    }

    /// Returns the letter of the step: the tile's own for `Normal`, the new one for `Swap`.
    pub fn letter(&self, board: &Board) -> (r: char)
        requires
            0 <= self.at() < 25,
        ensures
            r == self.letter_on(*board),
    {
        match self {
            Step::Normal { index } => board.tiles[*index as usize].letter,
            Step::Swap { new_letter, .. } => *new_letter,
        }
    }
}

/// Every step of `steps` names a board position.
pub open spec fn on_board(steps: Seq<Step>) -> bool {
    forall|i: int| 0 <= i < steps.len() ==> 0 <= #[trigger] steps[i].at() < 25
}

} // verus!
