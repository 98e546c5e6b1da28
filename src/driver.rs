use vstd::prelude::*;
use crate::board::{Board, Step};
use crate::collector::{
    MAX_SOLUTIONS, SortedWordVec, lemma_merge_into, lemma_pushed_all_concat, lemma_pushes_stay_bounded,
    pushed_all,
};
use crate::dictionary::{Node, accepts, keys_distinct, spells, wf_forest};
use crate::search::{
    allowed, extends, lemma_swap_count_concat, path_ok, playable_path, solver, step_fits, swap_cost,
};
use crate::word::{Word, spelled, swap_count};

verus! {

/// One search to start: the first step, the position of the dictionary's top-level child that its
/// letter leads to, and the swaps left after it.
#[derive(Clone, Copy, Debug, PartialEq, Eq, Structural)]
pub struct Call {
    pub step: Step,
    pub child: usize,
    pub swaps: u8,
}

/// The paths a call finds: those that begin with its step and go on from its child.
pub open spec fn from_call(board: Board, kids: Seq<(char, Node)>, c: Call, p: Seq<Step>) -> bool {
    extends(board, seq![c.step], kids[c.child as int].1, c.swaps as int, p)
}

/// A call starts where the board allows and under the child of its step's letter.
pub open spec fn call_fits(board: Board, kids: Seq<(char, Node)>, c: Call) -> bool {
    &&& 0 <= c.child < kids.len()
    &&& kids[c.child as int].0 == c.step.letter_on(board)
    &&& allowed(board, c.step)
}

/// Every call fits, and no two calls start with the same step.
pub open spec fn calls_fit(board: Board, kids: Seq<(char, Node)>, calls: Seq<Call>) -> bool {
    &&& forall|i: int| 0 <= i < calls.len() ==> call_fits(board, kids, #[trigger] calls[i])
    &&& forall|i: int, j: int| 0 <= i < j < calls.len() ==> (#[trigger] calls[i]).step != (#[trigger] calls[j]).step
}

/// The calls for a swap budget: they fit, each leaves the budget less its step's cost, and every
/// allowed first step within the budget whose letter starts a dictionary word has a call.
pub open spec fn calls_cover(board: Board, kids: Seq<(char, Node)>, swaps: int, calls: Seq<Call>) -> bool {
    &&& calls_fit(board, kids, calls)
    &&& forall|i: int| 0 <= i < calls.len() ==> (#[trigger] calls[i]).swaps == swaps - swap_cost(calls[i].step)
    &&& forall|s: Step, k: int|
        #![trigger allowed(board, s), kids[k]]
        allowed(board, s) && swap_cost(s) <= swaps && 0 <= k < kids.len() && kids[k].0
            == s.letter_on(board) ==> exists|i: int| 0 <= i < calls.len() && (#[trigger] calls[i]).step == s
}

/// `found` holds, once each and scored, exactly the paths that the calls find.
pub open spec fn found_by(board: Board, kids: Seq<(char, Node)>, calls: Seq<Call>, found: Seq<Word>) -> bool {
    &&& forall|i: int|
        0 <= i < found.len() ==> (#[trigger] found[i]).scores(board, found[i].steps@) && exists|j: int|
            0 <= j < calls.len() && from_call(board, kids, #[trigger] calls[j], found[i].steps@)
    &&& forall|i: int, j: int|
        0 <= i < j < found.len() ==> (#[trigger] found[i]).steps@ != (#[trigger] found[j]).steps@
    &&& forall|p: Seq<Step>, j: int|
        0 <= j < calls.len() && #[trigger] from_call(board, kids, calls[j], p) ==> exists|i: int|
            0 <= i < found.len() && (#[trigger] found[i]).steps@ == p
}

/// `found` holds, once each and scored, every word playable on the board with the dictionary and
/// the swap budget.
pub open spec fn all_words(board: Board, kids: Seq<(char, Node)>, swaps: int, found: Seq<Word>) -> bool {
    &&& forall|i: int|
        0 <= i < found.len() ==> (#[trigger] found[i]).scores(board, found[i].steps@) && playable_path(
            board,
            kids,
            swaps,
            found[i].steps@,
        )
    &&& forall|i: int, j: int|
        0 <= i < j < found.len() ==> (#[trigger] found[i]).steps@ != (#[trigger] found[j]).steps@
    &&& forall|p: Seq<Step>|
        #[trigger] playable_path(board, kids, swaps, p) ==> exists|i: int|
            0 <= i < found.len() && (#[trigger] found[i]).steps@ == p
}

/// A path a call finds begins with the call's step.
proof fn lemma_from_call_first(board: Board, kids: Seq<(char, Node)>, c: Call, p: Seq<Step>)
    requires
        from_call(board, kids, c, p),
    ensures
        p.len() >= 1,
        p[0] == c.step,
{
    assert(p[0] == p.take(1)[0]);
}

/// Two sets of calls with different first steps find disjoint paths, and together what both found.
proof fn lemma_found_by_concat(
    board: Board,
    kids: Seq<(char, Node)>,
    a: Seq<Call>,
    fa: Seq<Word>,
    b: Seq<Call>,
    fb: Seq<Word>,
)
    requires
        found_by(board, kids, a, fa),
        found_by(board, kids, b, fb),
        forall|i: int, j: int| 0 <= i < a.len() && 0 <= j < b.len() ==> (#[trigger] a[i]).step != (#[trigger] b[j]).step,
    ensures
        found_by(board, kids, a + b, fa + fb),
{
    let calls = a + b;
    let found = fa + fb;
    assert forall|i: int| 0 <= i < found.len() implies (#[trigger] found[i]).scores(
        board,
        found[i].steps@,
    ) && exists|j: int| 0 <= j < calls.len() && from_call(board, kids, #[trigger] calls[j], found[i].steps@) by {
        if i < fa.len() {
            assert(found[i] == fa[i]);
            let j = choose|j: int| 0 <= j < a.len() && from_call(board, kids, #[trigger] a[j], fa[i].steps@);
            assert(calls[j] == a[j]);
        } else {
            assert(found[i] == fb[i - fa.len()]);
            let j = choose|j: int| 0 <= j < b.len() && from_call(board, kids, #[trigger] b[j], fb[i - fa.len()].steps@);
            assert(calls[a.len() + j] == b[j]);
        }
    }
    assert forall|i: int, j: int| 0 <= i < j < found.len() implies (#[trigger] found[i]).steps@
        != (#[trigger] found[j]).steps@ by {
        if i < fa.len() && j >= fa.len() {
            assert(found[i] == fa[i]);
            assert(found[j] == fb[j - fa.len()]);
            let x = choose|x: int| 0 <= x < a.len() && from_call(board, kids, #[trigger] a[x], fa[i].steps@);
            let y = choose|y: int| 0 <= y < b.len() && from_call(board, kids, #[trigger] b[y], fb[j - fa.len()].steps@);
            lemma_from_call_first(board, kids, a[x], fa[i].steps@);
            lemma_from_call_first(board, kids, b[y], fb[j - fa.len()].steps@);
        } else if i < fa.len() {
            assert(found[i] == fa[i] && found[j] == fa[j]);
        } else {
            assert(found[i] == fb[i - fa.len()] && found[j] == fb[j - fa.len()]);
        }
    }
    assert forall|p: Seq<Step>, j: int| 0 <= j < calls.len() && #[trigger] from_call(board, kids, calls[j], p)
        implies exists|i: int| 0 <= i < found.len() && (#[trigger] found[i]).steps@ == p by {
        if j < a.len() {
            assert(calls[j] == a[j]);
            let i = choose|i: int| 0 <= i < fa.len() && (#[trigger] fa[i]).steps@ == p;
            assert(found[i] == fa[i]);
        } else {
            assert(calls[j] == b[j - a.len()]);
            let i = choose|i: int| 0 <= i < fb.len() && (#[trigger] fb[i]).steps@ == p;
            assert(found[fa.len() + i] == fb[i]);
        }
    }
    assert(found_by(board, kids, calls, found));
}

/// Calls that cover a swap budget find exactly the playable words.
proof fn lemma_cover_all(board: Board, kids: Seq<(char, Node)>, swaps: int, calls: Seq<Call>, found: Seq<Word>)
    requires
        wf_forest(kids),
        calls_cover(board, kids, swaps, calls),
        found_by(board, kids, calls, found),
    ensures
        all_words(board, kids, swaps, found),
{
    assert forall|c: Call, p: Seq<Step>|
        0 <= c.child < kids.len() && kids[c.child as int].0 == c.step.letter_on(board) && c.swaps == swaps
            - swap_cost(c.step) && allowed(board, c.step) && p.len() >= 1 && p[0] == c.step implies (#[trigger] from_call(
        board,
        kids,
        c,
        p,
    ) <==> playable_path(board, kids, swaps, p)) by {
        lemma_first_step(board, kids, swaps, c, p);
    }
    assert forall|i: int| 0 <= i < found.len() implies (#[trigger] found[i]).scores(
        board,
        found[i].steps@,
    ) && playable_path(board, kids, swaps, found[i].steps@) by {
        let j = choose|j: int| 0 <= j < calls.len() && from_call(board, kids, #[trigger] calls[j], found[i].steps@);
        assert(call_fits(board, kids, calls[j]));
        lemma_from_call_first(board, kids, calls[j], found[i].steps@);
    }
    assert forall|p: Seq<Step>| #[trigger] playable_path(board, kids, swaps, p) implies exists|i: int|
        0 <= i < found.len() && (#[trigger] found[i]).steps@ == p by {
        let s = p[0];
        assert(step_fits(board, p, 0));
        let w = spelled(board, p);
        assert(w[0] == s.letter_on(board));
        let k = choose|k: int| 0 <= k < kids.len() && (#[trigger] kids[k]).0 == w[0] && accepts(kids[k].1, w.drop_first());
        assert(swap_cost(s) <= swaps) by {
            assert(p =~= seq![s] + p.skip(1));
            lemma_swap_count_concat(seq![s], p.skip(1));
            assert(seq![s].drop_last() =~= Seq::<Step>::empty());
            assert(swap_count(Seq::<Step>::empty()) == 0);
            assert(seq![s].last() == s);
        }
        let j = choose|j: int| 0 <= j < calls.len() && (#[trigger] calls[j]).step == s;
        assert(call_fits(board, kids, calls[j]));
        assert(from_call(board, kids, calls[j], p));
    }
}

/// A path that begins with a call's step is found by the call exactly when it is playable.
proof fn lemma_first_step(board: Board, kids: Seq<(char, Node)>, swaps: int, c: Call, p: Seq<Step>)
    requires
        wf_forest(kids),
        0 <= c.child < kids.len(),
        kids[c.child as int].0 == c.step.letter_on(board),
        allowed(board, c.step),
        c.swaps == swaps - swap_cost(c.step),
        p.len() >= 1,
        p[0] == c.step,
    ensures
        from_call(board, kids, c, p) <==> playable_path(board, kids, swaps, p),
{
    let s = c.step;
    let rest = p.skip(1);
    assert(p.take(1) =~= seq![s]);
    assert(p =~= seq![s] + rest);
    lemma_swap_count_concat(seq![s], rest);
    assert(seq![s].drop_last() =~= Seq::<Step>::empty());
    assert(swap_count(Seq::<Step>::empty()) == 0);
    assert(seq![s].last() == s);
    let w = spelled(board, p);
    assert(w[0] == s.letter_on(board));
    assert(w.drop_first() =~= spelled(board, rest));
    if spells(kids, w) {
        let k = choose|k: int| 0 <= k < kids.len() && (#[trigger] kids[k]).0 == w[0] && accepts(kids[k].1, w.drop_first());
        if k != c.child {
            if k < c.child {
                assert(kids[k].0 != kids[c.child as int].0);
            } else {
                assert(kids[c.child as int].0 != kids[k].0);
            }
        }
    }
    if accepts(kids[c.child as int].1, spelled(board, rest)) {
        assert(spells(kids, w));
    }
    assert(path_ok(board, p, 0) <==> step_fits(board, p, 0) && path_ok(board, p, 1)) by {
        if step_fits(board, p, 0) && path_ok(board, p, 1) {
            assert forall|i: int| 0 <= i < p.len() implies #[trigger] step_fits(board, p, i) by {
                if i > 0 {
                    assert(step_fits(board, p, i));
                }
            }
        }
    }
}


/// Returns the letter of child `k`.
fn key_at(kids: &Vec<(char, Node)>, k: usize) -> (c: char)
    requires
        k < kids@.len(),
    ensures
        c == kids@[k as int].0,
{
    kids[k].0
}

/// Lists the searches to start: for each tile that is not frozen, in board order, and each
/// top-level child of the dictionary, in order, one call that uses the tile as it is if its letter
/// is the child's, or else, with a swap in the budget, one that swaps it to the child's letter.
#[verifier::spinoff_prover]
pub fn initial_calls(board: &Board, swaps: u8, dictionary: &Vec<(char, Node)>) -> (r: Vec<Call>)
    requires
        wf_forest(dictionary@),
    ensures
        calls_cover(*board, dictionary@, swaps as int, r@),
{
    let ghost kids = dictionary@;
    let mut calls: Vec<Call> = Vec::new();
    let mut index: i8 = 0;
    while index < 25
        invariant
            0 <= index <= 25,
            kids == dictionary@,
            keys_distinct(kids),
            calls_fit(*board, kids, calls@),
            forall|i: int| 0 <= i < calls@.len() ==> (#[trigger] calls@[i]).swaps == swaps - swap_cost(calls@[i].step),
            forall|i: int| 0 <= i < calls@.len() ==> (#[trigger] calls@[i]).step.at() < index,
            forall|s: Step, k: int|
                #![trigger allowed(*board, s), kids[k]]
                allowed(*board, s) && swap_cost(s) <= swaps && 0 <= k < kids.len() && kids[k].0
                    == s.letter_on(*board) && s.at() < index ==> exists|i: int|
                    0 <= i < calls@.len() && (#[trigger] calls@[i]).step == s,
        decreases 25 - index,
    {
        let tile = board.tiles[index as usize];
        if !tile.frozen {
            let mut k: usize = 0;
            while k < dictionary.len()
                invariant
                    0 <= index < 25,
                    k <= kids.len(),
                    kids == dictionary@,
                    keys_distinct(kids),
                    tile == board.tiles@[index as int],
                    !tile.frozen,
                    calls_fit(*board, kids, calls@),
                    forall|i: int| 0 <= i < calls@.len() ==> (#[trigger] calls@[i]).swaps == swaps - swap_cost(calls@[i].step),
                    forall|i: int|
                        0 <= i < calls@.len() ==> (#[trigger] calls@[i]).step.at() < index || (calls@[i].step.at()
                            == index && calls@[i].child < k),
                    forall|s: Step, j: int|
                        #![trigger allowed(*board, s), kids[j]]
                        allowed(*board, s) && swap_cost(s) <= swaps && 0 <= j < kids.len() && kids[j].0
                            == s.letter_on(*board) && (s.at() < index || (s.at() == index && j < k)) ==> exists|i: int|
                            0 <= i < calls@.len() && (#[trigger] calls@[i]).step == s,
                decreases kids.len() - k,
            {
                let letter = key_at(dictionary, k);
                let ghost before = calls@;
                if letter == tile.letter || swaps > 0 {
                    let call = if letter == tile.letter {
                        Call { step: Step::Normal { index }, child: k, swaps }
                    } else {
                        Call { step: Step::Swap { index, new_letter: letter }, child: k, swaps: swaps - 1 }
                    };
                    calls.push(call);
                    assert(calls@.len() == before.len() + 1);
                    assert(calls@ == before.push(call));
                    assert forall|i: int, j: int| 0 <= i < j < calls@.len() implies (#[trigger] calls@[i]).step
                        != (#[trigger] calls@[j]).step by {
                        if j == before.len() {
                            assert(calls@[i] == before[i]);
                            if calls@[i].step == call.step {
                                assert(kids[calls@[i].child as int].0 == kids[k as int].0);
                            }
                        } else {
                            assert(calls@[i] == before[i] && calls@[j] == before[j]);
                        }
                    }
                    assert forall|i: int| 0 <= i < calls@.len() implies call_fits(*board, kids, #[trigger] calls@[i]) by {
                        if i < before.len() {
                            assert(calls@[i] == before[i]);
                        }
                    }
                }
                assert forall|s: Step, j: int|
                    #![trigger allowed(*board, s), kids[j]]
                    allowed(*board, s) && swap_cost(s) <= swaps && 0 <= j < kids.len() && kids[j].0 == s.letter_on(*board)
                        && (s.at() < index || (s.at() == index && j < k + 1)) implies exists|i: int|
                        0 <= i < calls@.len() && (#[trigger] calls@[i]).step == s by {
                    if s.at() < index || j < k {
                        let i = choose|i: int| 0 <= i < before.len() && (#[trigger] before[i]).step == s;
                        assert(calls@[i] == before[i]);
                    } else {
                        assert(calls@[before.len() as int].step == s);
                    }
                }
                k = k + 1;
            }
        }
        index = index + 1;
    }
    calls
}

/// Runs the calls `calls[lo..hi]` one after the other into one fresh collector of
/// `MAX_SOLUTIONS` words: the work of one worker.
pub fn run_calls(board: &Board, dictionary: &Vec<(char, Node)>, calls: &Vec<Call>, lo: usize, hi: usize) -> (r: SortedWordVec)
    requires
        board.wf(),
        wf_forest(dictionary@),
        calls_fit(*board, dictionary@, calls@),
        lo <= hi <= calls@.len(),
    ensures
        r.wf(),
        r.cap() == MAX_SOLUTIONS,
        exists|f: Seq<Word>|
            found_by(*board, dictionary@, calls@.subrange(lo as int, hi as int), f) && r@ == pushed_all(
                Seq::empty(),
                f,
                MAX_SOLUTIONS as nat,
            ),
{
    let ghost kids = dictionary@;
    let mut words = SortedWordVec::new();
    let ghost mut found: Seq<Word> = Seq::empty();
    let mut i = lo;
    while i < hi
        invariant
            lo <= i <= hi <= calls@.len(),
            board.wf(),
            kids == dictionary@,
            wf_forest(kids),
            calls_fit(*board, kids, calls@),
            words.wf(),
            words.cap() == MAX_SOLUTIONS,
            words@ == pushed_all(Seq::empty(), found, MAX_SOLUTIONS as nat),
            found_by(*board, kids, calls@.subrange(lo as int, i as int), found),
        decreases hi - i,
    {
        let call = calls[i];
        assert(call_fits(*board, kids, calls@[i as int]));
        let mut steps: Vec<Step> = Vec::new();
        steps.push(call.step);
        assert(path_ok(*board, steps@, 0)) by {
            assert(steps@ == seq![call.step]);
            assert(step_fits(*board, steps@, 0));
        }
        let ghost w0 = words@;
        let sub = solver(board, &mut steps, &dictionary[call.child].1, call.swaps, &mut words);
        proof {
            let sf = sub@;
            let one = seq![call];
            assert(steps@ == seq![call.step]);
            assert(found_by(*board, kids, one, sf)) by {
                assert forall|x: int| 0 <= x < sf.len() implies (#[trigger] sf[x]).scores(*board, sf[x].steps@)
                    && exists|j: int| 0 <= j < one.len() && from_call(*board, kids, #[trigger] one[j], sf[x].steps@) by {
                    assert(from_call(*board, kids, one[0], sf[x].steps@));
                }
                assert forall|p: Seq<Step>, j: int| 0 <= j < one.len() && #[trigger] from_call(*board, kids, one[j], p)
                    implies exists|x: int| 0 <= x < sf.len() && (#[trigger] sf[x]).steps@ == p by {
                    assert(one[j] == call);
                }
            }
            let done = calls@.subrange(lo as int, i as int);
            assert forall|a: int, b: int| 0 <= a < done.len() && 0 <= b < one.len() implies (#[trigger] done[a]).step
                != (#[trigger] one[b]).step by {
                assert(done[a] == calls@[lo + a]);
            }
            lemma_found_by_concat(*board, kids, done, found, one, sf);
            assert(calls@.subrange(lo as int, i + 1) =~= done + one);
            lemma_pushed_all_concat(Seq::empty(), found, sf, MAX_SOLUTIONS as nat);
            found = found + sf;
        }
        i = i + 1;
    }
    words
}


/// The most swaps a solve may use.
pub const MAX_SWAPS: u8 = 3;

/// Why a solve was refused.
#[derive(Clone, Copy, Debug, PartialEq, Eq, Structural)]
pub enum SolveError {
    /// The swap budget is above `MAX_SWAPS`.
    TooManySwaps,
}

/// How many calls each of `workers` workers takes: the number of calls divided by the number of
/// workers, rounded up.
pub fn chunk_size(n: usize, workers: usize) -> (r: usize)
    requires
        workers >= 1,
    ensures
        r == n / workers + if n % workers == 0 {
            0usize
        } else {
            1usize
        },
        n > 0 ==> r >= 1,
{
    let q = n / workers;
    if n % workers == 0 {
        assert(n > 0 ==> q >= 1) by (nonlinear_arith)
            requires
                workers >= 1,
                q == n / workers,
                n % workers == 0,
        ;
        q
    } else {
        assert(q < usize::MAX) by (nonlinear_arith)
            requires
                workers >= 1,
                q == n / workers,
                n % workers != 0,
        ;
        q + 1
    }
}

/// Solves a board: finds every word that can be played on it with the dictionary whose top-level
/// children are `dictionary` and at most `swaps` swaps, and returns the best `MAX_SOLUTIONS` of them,
/// best first, together with the board. The searches to start are split into contiguous chunks,
/// one per worker (`thread_count`, at least one), each chunk filling a collector of its own, and
/// the collectors are merged in chunk order. Refuses a swap budget above `MAX_SWAPS`.
pub fn solver_wrapper(board: Board, swaps: u8, thread_count: u8, dictionary: &Vec<(char, Node)>) -> (r: Result<(Vec<Word>, Board), SolveError>)
    requires
        board.wf(),
        wf_forest(dictionary@),
    ensures
        r is Err <==> swaps > MAX_SWAPS,
        r is Err ==> r == Err::<(Vec<Word>, Board), SolveError>(SolveError::TooManySwaps),
        r is Ok ==> r->Ok_0.1 == board && exists|f: Seq<Word>|
            all_words(board, dictionary@, swaps as int, f) && r->Ok_0.0@ == pushed_all(
                Seq::empty(),
                f,
                MAX_SOLUTIONS as nat,
            ),
{
    if swaps > MAX_SWAPS {
        return Err(SolveError::TooManySwaps);
    }
    let ghost kids = dictionary@;
    let calls = initial_calls(&board, swaps, dictionary);
    let workers: usize = if thread_count <= 1 {
        1
    } else {
        thread_count as usize
    };
    let size = chunk_size(calls.len(), workers);
    let mut words = SortedWordVec::new();
    let ghost mut found: Seq<Word> = Seq::empty();
    let mut lo: usize = 0;
    assert(calls@.subrange(0, 0) =~= Seq::<Call>::empty());
    while lo < calls.len()
        invariant
            lo <= calls@.len(),
            calls.len() > 0 ==> size >= 1,
            board.wf(),
            kids == dictionary@,
            wf_forest(kids),
            calls_cover(board, kids, swaps as int, calls@),
            words.wf(),
            words.cap() == MAX_SOLUTIONS,
            words@ == pushed_all(Seq::empty(), found, MAX_SOLUTIONS as nat),
            found_by(board, kids, calls@.subrange(0, lo as int), found),
        decreases calls@.len() - lo,
    {
        let hi = if calls.len() - lo <= size {
            calls.len()
        } else {
            lo + size
        };
        let part = run_calls(&board, dictionary, &calls, lo, hi);
        let ghost before = words@;
        let ghost part_words = part@;
        words.absorb(part);
        proof {
            let f = choose|f: Seq<Word>|
                found_by(board, kids, calls@.subrange(lo as int, hi as int), f) && part_words == pushed_all(
                    Seq::empty(),
                    f,
                    MAX_SOLUTIONS as nat,
                );
            lemma_pushes_stay_bounded(Seq::empty(), found, MAX_SOLUTIONS as nat);
            lemma_merge_into(before, f, MAX_SOLUTIONS as nat);
            lemma_pushed_all_concat(Seq::empty(), found, f, MAX_SOLUTIONS as nat);
            let done = calls@.subrange(0, lo as int);
            let next = calls@.subrange(lo as int, hi as int);
            assert forall|a: int, b: int| 0 <= a < done.len() && 0 <= b < next.len() implies (#[trigger] done[a]).step
                != (#[trigger] next[b]).step by {
                assert(done[a] == calls@[a]);
                assert(next[b] == calls@[lo + b]);
            }
            lemma_found_by_concat(board, kids, done, found, next, f);
            assert(calls@.subrange(0, hi as int) =~= done + next);
            found = found + f;
        }
        lo = hi;
    }
    proof {
        assert(calls@.subrange(0, calls@.len() as int) =~= calls@);
        lemma_cover_all(board, kids, swaps as int, calls@, found);
    }
    Ok((words.into_vec(), board))
}

} // verus!
