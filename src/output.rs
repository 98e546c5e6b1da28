use vstd::prelude::*;

verus! {

/// How results are shown.
#[derive(Clone, Copy, Debug, PartialEq, Eq, Structural)]
pub enum OutputFormat {
    /// The order of the steps drawn on the board.
    Board,
    /// JSON, for programs.
    JSON,
    /// Each word compactly on a line of its own.
    Simple,
}

/// Whether two texts hold the same characters.
fn same_text(a: &str, b: &str) -> (r: bool)
    ensures
        r == (a@ == b@),
{
    let n = a.unicode_len();
    if n != b.unicode_len() {
        return false;
    }
    let mut i: usize = 0;
    while i < n
        invariant
            n == a@.len(),
            n == b@.len(),
            i <= n,
            forall|j: int| 0 <= j < i ==> a@[j] == b@[j],
        decreases n - i,
    {
        if a.get_char(i) != b.get_char(i) {
            return false;
        }
        i = i + 1;
    }
    assert(a@ =~= b@);
    true
}

impl OutputFormat {
    /// Returns whether the format is meant for people: every format but `JSON`.
    pub fn is_for_humans(&self) -> (r: bool)
        ensures
            r == !(*self is JSON),
    {
        !matches!(self, OutputFormat::JSON)
    }

    /// Reads a format from its name: `board`, `json` or `simple`.
    pub fn from_arg_value(value: &str) -> (r: Result<OutputFormat, String>)
        ensures
            r == Ok::<OutputFormat, String>(OutputFormat::Board) <==> value@ == "board"@,
            r == Ok::<OutputFormat, String>(OutputFormat::JSON) <==> value@ == "json"@,
            r == Ok::<OutputFormat, String>(OutputFormat::Simple) <==> value@ == "simple"@,
            r is Err ==> r->Err_0@ == "Expected board/json/simple"@,
    {
        proof {
            reveal_strlit("board");
            reveal_strlit("json");
            reveal_strlit("simple");
            assert("board"@.len() == 5 && "json"@.len() == 4 && "simple"@.len() == 6);
        }
        if same_text(value, "board") {
            Ok(OutputFormat::Board)
        } else if same_text(value, "json") {
            Ok(OutputFormat::JSON)
        } else if same_text(value, "simple") {
            Ok(OutputFormat::Simple)
        } else {
            Err(String::from_str("Expected board/json/simple"))
        }
    }
}

} // verus!
