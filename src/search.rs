use vstd::prelude::*;
use vstd::set_lib::{lemma_int_range, lemma_len_subset, set_int_range};
use crate::board::{Board, Step};
use crate::collector::{SortedWordVec, lemma_pushed_all_concat, pushed_all};
use crate::dictionary::{Node, accepts, children, keys_distinct, spells, wf_node};
use crate::word::{Word, spelled, swap_count};

verus! {

/// Whether board positions `a` and `b` are distinct and a king's move apart.
pub open spec fn adjacent(a: int, b: int) -> bool {
    &&& a != b
    &&& -1 <= b % 5 - a % 5 <= 1
    &&& -1 <= b / 5 - a / 5 <= 1
}

/// A step the board allows: on the board, on a tile that is not frozen, and swapping only to a
/// letter other than the tile's own.
pub open spec fn allowed(board: Board, s: Step) -> bool {
    &&& 0 <= s.at() < 25
    &&& !board.tiles@[s.at()].frozen
    &&& (s matches Step::Swap { new_letter, .. } ==> new_letter != board.tiles@[s.at()].letter)
}

/// Step `i` of `p` is allowed, uses a tile no earlier step used, and neighbours the step before.
pub open spec fn step_fits(board: Board, p: Seq<Step>, i: int) -> bool {
    &&& allowed(board, p[i])
    &&& forall|j: int| 0 <= j < i ==> #[trigger] p[j].at() != p[i].at()
    &&& i > 0 ==> adjacent(p[i - 1].at(), p[i].at())
}

/// Every step of `p` from position `from` on fits.
pub open spec fn path_ok(board: Board, p: Seq<Step>, from: int) -> bool {
    forall|i: int| from <= i < p.len() ==> #[trigger] step_fits(board, p, i)
}

/// `p` continues the path `steps` on the board with at most `swaps` more swaps, and the letters of
/// its new steps lead from `node` to the end of a word.
pub open spec fn extends(board: Board, steps: Seq<Step>, node: Node, swaps: int, p: Seq<Step>) -> bool {
    &&& steps.len() <= p.len()
    &&& p.take(steps.len() as int) == steps
    &&& path_ok(board, p, steps.len() as int)
    &&& swap_count(p.skip(steps.len() as int)) <= swaps
    &&& accepts(node, spelled(board, p.skip(steps.len() as int)))
}

/// `p` is a word that can be played on the board with at most `swaps` swaps, given the dictionary
/// tree whose top-level children are `kids`.
pub open spec fn playable_path(board: Board, kids: Seq<(char, Node)>, swaps: int, p: Seq<Step>) -> bool {
    &&& p.len() >= 1
    &&& path_ok(board, p, 0)
    &&& swap_count(p) <= swaps
    &&& spells(kids, spelled(board, p))
}

/// The swap budget one step uses.
pub open spec fn swap_cost(s: Step) -> int {
    if s is Swap {
        1
    } else {
        0
    }
}

pub(crate) proof fn lemma_swap_count_concat(a: Seq<Step>, b: Seq<Step>)
    ensures
        swap_count(a + b) == swap_count(a) + swap_count(b),
        swap_count(b) >= 0,
    decreases b.len(),
{
    if b.len() == 0 {
        assert(a + b =~= a);
    } else {
        assert((a + b).drop_last() =~= a + b.drop_last());
        lemma_swap_count_concat(a, b.drop_last());
    }
}

/// A path whose steps all fit uses each tile at most once, so it has at most 25 steps.
proof fn lemma_path_len(board: Board, p: Seq<Step>)
    requires
        path_ok(board, p, 0),
    ensures
        p.len() <= 25,
{
    let at = p.map_values(|s: Step| s.at());
    assert(at.no_duplicates()) by {
        assert forall|i: int, j: int| 0 <= i < at.len() && 0 <= j < at.len() && i != j implies at[i]
            != at[j] by {
            if i < j {
                assert(step_fits(board, p, j));
                assert(p[i].at() != p[j].at());
            } else {
                assert(step_fits(board, p, i));
                assert(p[j].at() != p[i].at());
            }
        }
    }
    at.unique_seq_to_set();
    assert(at.to_set().subset_of(set_int_range(0, 25))) by {
        assert forall|x: int| at.to_set().contains(x) implies set_int_range(0, 25).contains(x) by {
            let i = choose|i: int| 0 <= i < at.len() && at[i] == x;
            assert(step_fits(board, p, i));
        }
    }
    lemma_int_range(0, 25);
    lemma_len_subset(at.to_set(), set_int_range(0, 25));
}

/// Extending a path by its next step: `p` continues `steps` from `node` exactly when its next step
/// fits and `p` continues the longer path from the child under that step's letter, with the swap
/// budget that remains.
proof fn lemma_extends_step(
    board: Board,
    steps: Seq<Step>,
    node: Node,
    swaps: int,
    p: Seq<Step>,
    k: int,
)
    requires
        keys_distinct(children(node)),
        steps.len() < p.len(),
        p.take(steps.len() as int) == steps,
        0 <= k < children(node).len(),
        children(node)[k].0 == p[steps.len() as int].letter_on(board),
    ensures
        extends(board, steps, node, swaps, p) <==> step_fits(board, p, steps.len() as int) && extends(
            board,
            steps.push(p[steps.len() as int]),
            children(node)[k].1,
            swaps - swap_cost(p[steps.len() as int]),
            p,
        ),
{
    let n = steps.len() as int;
    let s = p[n];
    let tail = p.skip(n);
    let rest = p.skip(n + 1);
    assert(p.take(n + 1) =~= steps.push(s));
    assert(tail =~= seq![s] + rest);
    lemma_swap_count_concat(seq![s], rest);
    assert(seq![s].drop_last() =~= Seq::<Step>::empty());
    assert(swap_count(Seq::<Step>::empty()) == 0);
    assert(seq![s].last() == s);
    assert(swap_count(seq![s]) == swap_cost(s));
    let w = spelled(board, tail);
    assert(w.len() > 0);
    assert(w[0] == s.letter_on(board));
    assert(w.drop_first() =~= spelled(board, rest));
    if accepts(node, w) {
        let j = choose|j: int|
            0 <= j < children(node).len() && (#[trigger] children(node)[j]).0 == w[0] && accepts(
                children(node)[j].1,
                w.drop_first(),
            );
        if j != k {
            if j < k {
                assert(children(node)[j].0 != children(node)[k].0);
            } else {
                assert(children(node)[k].0 != children(node)[j].0);
            }
        }
    }
    if accepts(children(node)[k].1, spelled(board, rest)) {
        assert(accepts(node, w));
    }
    assert(path_ok(board, p, n) <==> step_fits(board, p, n) && path_ok(board, p, n + 1)) by {
        if step_fits(board, p, n) && path_ok(board, p, n + 1) {
            assert forall|i: int| n <= i < p.len() implies #[trigger] step_fits(board, p, i) by {
                if i > n {
                    assert(step_fits(board, p, i));
                }
            }
        }
    }
}

/// A continuation with a new step needs a child under that step's letter.
proof fn lemma_extends_needs_child(board: Board, steps: Seq<Step>, node: Node, swaps: int, p: Seq<Step>)
    requires
        extends(board, steps, node, swaps, p),
        steps.len() < p.len(),
    ensures
        exists|k: int|
            0 <= k < children(node).len() && (#[trigger] children(node)[k]).0 == p[steps.len() as int].letter_on(
                board,
            ),
{
    let n = steps.len() as int;
    let w = spelled(board, p.skip(n));
    assert(w[0] == p[n].letter_on(board));
}


/// Which of the nine king-move directions leads from position `from` to position `to`:
/// three times the column offset plus the row offset, each shifted by one.
pub open spec fn direction(from: int, to: int) -> int {
    3 * (to % 5 - from % 5 + 1) + (to / 5 - from / 5 + 1)
}

/// The next step of `p` after its first `n` steps goes in a direction before `d`, or in direction
/// `d` with the letter of one of the first `k` children.
spec fn covered(board: Board, n: int, kids: Seq<(char, Node)>, d: int, k: int, p: Seq<Step>) -> bool {
    &&& n < p.len()
    &&& {
        let dir = direction(p[n - 1].at(), p[n].at());
        ||| dir < d
        ||| dir == d && exists|j: int|
            0 <= j < k && (#[trigger] kids[j]).0 == p[n].letter_on(board)
    }
}

/// What the search from a path has found so far: words for paths that continue `start` from
/// `node`, each either `start` itself or covered, no path twice, every such path there, and the
/// collector grown by exactly these words.
spec fn found_so_far(
    board: Board,
    start: Seq<Step>,
    node: Node,
    swaps: int,
    kids: Seq<(char, Node)>,
    d: int,
    k: int,
    found: Seq<Word>,
) -> bool {
    let n = start.len() as int;
    &&& forall|i: int|
        0 <= i < found.len() ==> (#[trigger] found[i]).scores(board, found[i].steps@) && extends(
            board,
            start,
            node,
            swaps,
            found[i].steps@,
        ) && (found[i].steps@.len() == n || covered(board, n, kids, d, k, found[i].steps@))
    &&& forall|i: int, j: int|
        0 <= i < j < found.len() ==> (#[trigger] found[i]).steps@ != (#[trigger] found[j]).steps@
    &&& forall|p: Seq<Step>|
        #[trigger] extends(board, start, node, swaps, p) && (p.len() == n || covered(
            board,
            n,
            kids,
            d,
            k,
            p,
        )) ==> exists|i: int| 0 <= i < found.len() && (#[trigger] found[i]).steps@ == p
}

/// Returns a copy of a path.
fn copy_steps(steps: &Vec<Step>) -> (r: Vec<Step>)
    ensures
        r@ == steps@,
{
    let mut r: Vec<Step> = Vec::new();
    let mut i: usize = 0;
    while i < steps.len()
        invariant
            i <= steps@.len(),
            r@ == steps@.take(i as int),
        decreases steps@.len() - i,
    {
        r.push(steps[i]);
        i = i + 1;
        assert(r@ =~= steps@.take(i as int));
    }
    assert(steps@.take(steps@.len() as int) =~= steps@);
    r
}

/// Whether one of the steps uses board position `at`.
fn used(steps: &Vec<Step>, at: i8) -> (r: bool)
    ensures
        r <==> exists|j: int| 0 <= j < steps@.len() && (#[trigger] steps@[j]).at() == at,
{
    let mut i: usize = 0;
    while i < steps.len()
        invariant
            i <= steps@.len(),
            forall|j: int| 0 <= j < i ==> (#[trigger] steps@[j]).at() != at,
        decreases steps@.len() - i,
    {
        if steps[i].index() == at {
            return true;
        }
        i = i + 1;
    }
    false
}


/// Moving from one letter to the next, or from one direction to the next, covers no new path when
/// no continuing path goes there.
proof fn lemma_cover_step(
    board: Board,
    start: Seq<Step>,
    node: Node,
    swaps: int,
    kids: Seq<(char, Node)>,
    d: int,
    k: int,
    d2: int,
    k2: int,
    found: Seq<Word>,
)
    requires
        found_so_far(board, start, node, swaps, kids, d, k, found),
        start.len() >= 1,
        kids == children(node),
        (d2 == d && k2 == k + 1) || (d2 == d + 1 && k2 == 0 && k == 0) || (d2 == d + 1 && k2 == 0
            && k == kids.len()),
        forall|p: Seq<Step>|
            #[trigger] extends(board, start, node, swaps, p) && covered(
                board,
                start.len() as int,
                kids,
                d2,
                k2,
                p,
            ) ==> covered(board, start.len() as int, kids, d, k, p),
    ensures
        found_so_far(board, start, node, swaps, kids, d2, k2, found),
{
    let n = start.len() as int;
    assert forall|i: int| 0 <= i < found.len() && found[i].steps@.len() != n implies covered(
        board,
        n,
        kids,
        d2,
        k2,
        (#[trigger] found[i]).steps@,
    ) by {
        let p = found[i].steps@;
        assert(covered(board, n, kids, d, k, p));
        if d2 == d && k2 == k + 1 && direction(p[n - 1].at(), p[n].at()) == d {
            let j = choose|j: int| 0 <= j < k && (#[trigger] kids[j]).0 == p[n].letter_on(board);
            assert(0 <= j < k2);
        }
    }
}

/// The column of the position one king's move from `last` in direction `d`.
spec fn toward_col(last: int, d: int) -> int {
    last % 5 + d / 3 - 1
}

/// The row of the position one king's move from `last` in direction `d`.
spec fn toward_row(last: int, d: int) -> int {
    last / 5 + d % 3 - 1
}

/// The direction from a position to a neighbour says where the neighbour lies.
proof fn lemma_direction(last: int, at: int)
    requires
        0 <= last < 25,
        0 <= at < 25,
        adjacent(last, at),
    ensures
        0 <= direction(last, at) < 9,
        direction(last, at) != 4,
        at % 5 == toward_col(last, direction(last, at)),
        at / 5 == toward_row(last, direction(last, at)),
        at == toward_row(last, direction(last, at)) * 5 + toward_col(last, direction(last, at)),
{
    lemma_pos(last);
    lemma_pos(at);
    let cd = at % 5 - last % 5;
    let rd = at / 5 - last / 5;
    let d = direction(last, at);
    assert(d == 3 * (cd + 1) + (rd + 1));
    assert(d / 3 == cd + 1 && d % 3 == rd + 1) by {
        assert(-1 <= cd <= 1 && -1 <= rd <= 1);
        if cd == -1 {
            assert(d == rd + 1);
        } else if cd == 0 {
            assert(d == 3 + rd + 1);
        } else {
            assert(d == 6 + rd + 1);
        }
    }
}

/// The neighbour in direction `d` of the last step, when on the board, not frozen and not used
/// yet, extends a fitting path to a fitting path.
proof fn lemma_extend_path(board: Board, start: Seq<Step>, d: int, s: Step)
    requires
        start.len() >= 1,
        path_ok(board, start, 0),
        0 <= d < 9,
        !(d / 3 - 1 == 0 && d % 3 - 1 == 0),
        0 <= toward_col(start.last().at(), d) <= 4,
        0 <= toward_row(start.last().at(), d) <= 4,
        s.at() == toward_row(start.last().at(), d) * 5 + toward_col(start.last().at(), d),
        allowed(board, s),
        forall|j: int| 0 <= j < start.len() ==> (#[trigger] start[j]).at() != s.at(),
    ensures
        path_ok(board, start.push(s), 0),
        step_fits(board, start.push(s), start.len() as int),
{
    let n = start.len() as int;
    let ext = start.push(s);
    let last = start.last().at();
    assert(step_fits(board, start, n - 1));
    lemma_pos(last);
    let c = toward_col(last, d);
    let r = toward_row(last, d);
    assert((r * 5 + c) % 5 == c && (r * 5 + c) / 5 == r);
    assert(adjacent(last, s.at()));
    assert forall|i: int| 0 <= i < ext.len() implies #[trigger] step_fits(board, ext, i) by {
        if i < n {
            assert(step_fits(board, start, i));
            assert(ext[i] == start[i]);
            if i > 0 {
                assert(ext[i - 1] == start[i - 1]);
            }
            assert forall|j: int| 0 <= j < i implies #[trigger] ext[j].at() != ext[i].at() by {
                assert(ext[j] == start[j]);
            }
        } else {
            assert(ext[n - 1] == start[n - 1]);
            assert forall|j: int| 0 <= j < i implies #[trigger] ext[j].at() != ext[i].at() by {
                assert(ext[j] == start[j]);
            }
        }
    }
}

/// The first `n` steps of a path that continues `start` are those of `start`.
proof fn lemma_prefix_steps(start: Seq<Step>, p: Seq<Step>)
    requires
        start.len() <= p.len(),
        p.take(start.len() as int) == start,
    ensures
        forall|j: int| 0 <= j < start.len() ==> #[trigger] p[j] == start[j],
{
    assert forall|j: int| 0 <= j < start.len() implies #[trigger] p[j] == start[j] by {
        assert(p[j] == p.take(start.len() as int)[j]);
    }
}

/// A direction whose neighbour is off the board, frozen or already used holds no continuation.
proof fn lemma_skip_direction(
    board: Board,
    start: Seq<Step>,
    node: Node,
    swaps: int,
    kids: Seq<(char, Node)>,
    d: int,
    found: Seq<Word>,
)
    requires
        start.len() >= 1,
        0 <= start.last().at() < 25,
        kids == children(node),
        0 <= d < 9,
        found_so_far(board, start, node, swaps, kids, d, 0, found),
        ({
            let c = toward_col(start.last().at(), d);
            let r = toward_row(start.last().at(), d);
            ||| (d / 3 - 1 == 0 && d % 3 - 1 == 0)
            ||| c < 0 || c > 4 || r < 0 || r > 4
            ||| board.tiles@[r * 5 + c].frozen
            ||| exists|j: int| 0 <= j < start.len() && (#[trigger] start[j]).at() == r * 5 + c
        }),
    ensures
        found_so_far(board, start, node, swaps, kids, d + 1, 0, found),
{
    let n = start.len() as int;
    assert forall|p: Seq<Step>| #[trigger] extends(board, start, node, swaps, p) && covered(
        board,
        n,
        kids,
        d + 1,
        0,
        p,
    ) implies covered(board, n, kids, d, 0, p) by {
        lemma_prefix_steps(start, p);
        assert(step_fits(board, p, n));
        lemma_direction(p[n - 1].at(), p[n].at());
        if direction(p[n - 1].at(), p[n].at()) == d {
            let c = toward_col(start.last().at(), d);
            let r = toward_row(start.last().at(), d);
            if exists|j: int| 0 <= j < start.len() && (#[trigger] start[j]).at() == r * 5 + c {
                let j = choose|j: int| 0 <= j < start.len() && (#[trigger] start[j]).at() == r * 5 + c;
                assert(p[j] == start[j]);
            }
        }
    }
    lemma_cover_step(board, start, node, swaps, kids, d, 0, d + 1, 0, found);
}

/// Once every child has been tried in direction `d`, the search moves on to the next direction.
proof fn lemma_direction_done(
    board: Board,
    start: Seq<Step>,
    node: Node,
    swaps: int,
    kids: Seq<(char, Node)>,
    d: int,
    found: Seq<Word>,
)
    requires
        start.len() >= 1,
        kids == children(node),
        found_so_far(board, start, node, swaps, kids, d, kids.len() as int, found),
    ensures
        found_so_far(board, start, node, swaps, kids, d + 1, 0, found),
{
    let n = start.len() as int;
    assert forall|p: Seq<Step>| #[trigger] extends(board, start, node, swaps, p) && covered(
        board,
        n,
        kids,
        d + 1,
        0,
        p,
    ) implies covered(board, n, kids, d, kids.len() as int, p) by {
        lemma_extends_needs_child(board, start, node, swaps, p);
    }
    lemma_cover_step(board, start, node, swaps, kids, d, kids.len() as int, d + 1, 0, found);
}

/// With no swap left, a child whose letter differs from the neighbour's tile holds no continuation.
proof fn lemma_skip_letter(
    board: Board,
    start: Seq<Step>,
    node: Node,
    kids: Seq<(char, Node)>,
    d: int,
    k: int,
    found: Seq<Word>,
)
    requires
        start.len() >= 1,
        0 <= start.last().at() < 25,
        kids == children(node),
        keys_distinct(kids),
        0 <= k < kids.len(),
        0 <= d < 9,
        0 <= toward_col(start.last().at(), d) <= 4,
        0 <= toward_row(start.last().at(), d) <= 4,
        kids[k].0 != board.tiles@[toward_row(start.last().at(), d) * 5 + toward_col(
            start.last().at(),
            d,
        )].letter,
        found_so_far(board, start, node, 0, kids, d, k, found),
    ensures
        found_so_far(board, start, node, 0, kids, d, k + 1, found),
{
    let n = start.len() as int;
    assert forall|p: Seq<Step>| #[trigger] extends(board, start, node, 0, p) && covered(
        board,
        n,
        kids,
        d,
        k + 1,
        p,
    ) implies covered(board, n, kids, d, k, p) by {
        if !covered(board, n, kids, d, k, p) {
            lemma_prefix_steps(start, p);
            assert(step_fits(board, p, n));
            lemma_direction(p[n - 1].at(), p[n].at());
            assert(kids[k].0 == p[n].letter_on(board));
            lemma_extends_step(board, start, node, 0, p, k);
            lemma_swap_count_concat(Seq::<Step>::empty(), p.skip(n + 1));
        }
    }
    lemma_cover_step(board, start, node, 0, kids, d, k, d, k + 1, found);
}

/// The step into the neighbour in direction `d` under the letter of child `k`: the tile as it is
/// when the letters agree, else a swap to the child's letter.
spec fn step_toward(board: Board, last: int, d: int, c: char) -> Step {
    let ni = toward_row(last, d) * 5 + toward_col(last, d);
    if c == board.tiles@[ni].letter {
        Step::Normal { index: ni as i8 }
    } else {
        Step::Swap { index: ni as i8, new_letter: c }
    }
}

/// After the search under child `k` in direction `d`, the words it found join the others.
proof fn lemma_child_searched(
    board: Board,
    start: Seq<Step>,
    node: Node,
    swaps: int,
    kids: Seq<(char, Node)>,
    d: int,
    k: int,
    left: int,
    old_found: Seq<Word>,
    sf: Seq<Word>,
)
    requires
        start.len() >= 1,
        0 <= start.last().at() < 25,
        kids == children(node),
        keys_distinct(kids),
        0 <= k < kids.len(),
        0 <= d < 9,
        0 <= toward_col(start.last().at(), d) <= 4,
        0 <= toward_row(start.last().at(), d) <= 4,
        step_fits(board, start.push(step_toward(board, start.last().at(), d, kids[k].0)), start.len() as int),
        left == swaps - swap_cost(step_toward(board, start.last().at(), d, kids[k].0)),
        found_so_far(board, start, node, swaps, kids, d, k, old_found),
        forall|i: int|
            0 <= i < sf.len() ==> (#[trigger] sf[i]).scores(board, sf[i].steps@) && extends(
                board,
                start.push(step_toward(board, start.last().at(), d, kids[k].0)),
                kids[k].1,
                left,
                sf[i].steps@,
            ),
        forall|i: int, j: int| 0 <= i < j < sf.len() ==> (#[trigger] sf[i]).steps@ != (#[trigger] sf[j]).steps@,
        forall|p: Seq<Step>|
            #[trigger] extends(board, start.push(step_toward(board, start.last().at(), d, kids[k].0)), kids[k].1, left, p)
                ==> exists|i: int| 0 <= i < sf.len() && (#[trigger] sf[i]).steps@ == p,
    ensures
        found_so_far(board, start, node, swaps, kids, d, k + 1, old_found + sf),
{
    let n = start.len() as int;
    let last = start.last().at();
    let s = step_toward(board, last, d, kids[k].0);
    let ext = start.push(s);
    let ni = toward_row(last, d) * 5 + toward_col(last, d);
    let found = old_found + sf;
    lemma_pos(last);
    assert(ni % 5 == toward_col(last, d) && ni / 5 == toward_row(last, d));
    assert(s.at() == ni);
    assert(s.letter_on(board) == kids[k].0);
    assert(ext.take(n) =~= start);
    assert(ext[n] == s);
    assert(ext[n - 1] == start[n - 1]);
    assert(direction(last, ni) == d);
    assert forall|q: Seq<Step>| #[trigger] extends(board, ext, kids[k].1, left, q) implies q.len() > n
        && q[n] == s && extends(board, start, node, swaps, q) && covered(board, n, kids, d, k + 1, q)
        && !covered(board, n, kids, d, k, q) by {
        assert(q.take(n + 1) == ext);
        assert(q[n] == q.take(n + 1)[n]);
        assert(q.take(n) =~= ext.take(n));
        assert(q[n - 1] == q.take(n + 1)[n - 1]);
        assert(step_fits(board, q, n)) by {
            assert forall|j: int| 0 <= j < n implies #[trigger] q[j].at() != q[n].at() by {
                assert(q[j] == q.take(n + 1)[j]);
                assert(ext[j].at() != ext[n].at());
            }
        }
        lemma_extends_step(board, start, node, swaps, q, k);
        if exists|j: int| 0 <= j < k && (#[trigger] kids[j]).0 == q[n].letter_on(board) {
            let j = choose|j: int| 0 <= j < k && (#[trigger] kids[j]).0 == q[n].letter_on(board);
            assert(kids[j].0 != kids[k].0);
        }
    }
    assert forall|i: int| 0 <= i < found.len() implies (#[trigger] found[i]).scores(
        board,
        found[i].steps@,
    ) && extends(board, start, node, swaps, found[i].steps@) && (found[i].steps@.len() == n
        || covered(board, n, kids, d, k + 1, found[i].steps@)) by {
        if i >= old_found.len() {
            assert(found[i] == sf[i - old_found.len()]);
        } else {
            assert(found[i] == old_found[i]);
            let p = found[i].steps@;
            if p.len() != n && direction(p[n - 1].at(), p[n].at()) == d {
                let j = choose|j: int| 0 <= j < k && (#[trigger] kids[j]).0 == p[n].letter_on(board);
                assert(0 <= j < k + 1);
            }
        }
    }
    assert forall|i: int, j: int| 0 <= i < j < found.len() implies (#[trigger] found[i]).steps@
        != (#[trigger] found[j]).steps@ by {
        if j >= old_found.len() && i < old_found.len() {
            assert(found[i] == old_found[i]);
            assert(found[j] == sf[j - old_found.len()]);
            let p = found[i].steps@;
            let q = found[j].steps@;
            assert(extends(board, ext, kids[k].1, left, q));
            if p.len() != n {
                assert(covered(board, n, kids, d, k, p));
            }
        } else if j >= old_found.len() {
            assert(found[i] == sf[i - old_found.len()]);
            assert(found[j] == sf[j - old_found.len()]);
        } else {
            assert(found[i] == old_found[i]);
            assert(found[j] == old_found[j]);
        }
    }
    assert forall|p: Seq<Step>| #[trigger] extends(board, start, node, swaps, p) && (p.len() == n
        || covered(board, n, kids, d, k + 1, p)) implies exists|i: int|
        0 <= i < found.len() && (#[trigger] found[i]).steps@ == p by {
        if p.len() == n || covered(board, n, kids, d, k, p) {
            let i = choose|i: int| 0 <= i < old_found.len() && (#[trigger] old_found[i]).steps@ == p;
            assert(found[i] == old_found[i]);
        } else {
            lemma_prefix_steps(start, p);
            assert(p[n - 1] == start[n - 1]);
            assert(kids[k].0 == p[n].letter_on(board));
            lemma_extends_step(board, start, node, swaps, p, k);
            assert(step_fits(board, p, n));
            lemma_direction(last, p[n].at());
            assert(p[n].at() == ni);
            assert(p[n] == s);
            assert(p.take(n + 1) =~= ext);
            let i = choose|i: int| 0 <= i < sf.len() && (#[trigger] sf[i]).steps@ == p;
            assert(found[old_found.len() + i] == sf[i]);
        }
    }
}

/// Searches the board from the path `steps`, whose letters lead to `node` in the dictionary tree,
/// with `swaps` swaps left. Pushes into `words` a word for `steps` itself if `node` ends a word,
/// then, in turn, for each of the eight neighbours of the last step that is not frozen and not on
/// the path yet, and each child of `node`: searches on with the neighbour as it is if its letter is
/// the child's, or else, with a swap left, swapped to the child's letter. Returns the words pushed,
/// in order: one for every continuation, none twice.
pub(crate) fn solver(board: &Board, steps: &mut Vec<Step>, node: &Node, swaps: u8, words: &mut SortedWordVec) -> (found: Ghost<Seq<Word>>)
    requires
        board.wf(),
        wf_node(*node),
        old(steps)@.len() >= 1,
        path_ok(*board, old(steps)@, 0),
        old(words).wf(),
    ensures
        final(steps)@ == old(steps)@,
        final(words).cap() == old(words).cap(),
        final(words).wf(),
        final(words)@ == pushed_all(old(words)@, found@, old(words).cap()),
        forall|i: int|
            0 <= i < found@.len() ==> (#[trigger] found@[i]).scores(*board, found@[i].steps@) && extends(
                *board,
                old(steps)@,
                *node,
                swaps as int,
                found@[i].steps@,
            ),
        forall|i: int, j: int|
            0 <= i < j < found@.len() ==> (#[trigger] found@[i]).steps@ != (#[trigger] found@[j]).steps@,
        forall|p: Seq<Step>|
            #[trigger] extends(*board, old(steps)@, *node, swaps as int, p) ==> exists|i: int|
                0 <= i < found@.len() && (#[trigger] found@[i]).steps@ == p,
    decreases *node,
{
    let ghost start = steps@;
    let ghost n = start.len() as int;
    let ghost cap = words.cap();
    let ghost words0 = words@;
    let ghost mut found: Seq<Word> = Seq::empty();
    proof {
        lemma_start_found(*board, start, *node, swaps as int);
    }
    let kids: &Vec<(char, Node)> = match node {
        Node::Word => {
            let w = Word::new(copy_steps(steps), board);
            proof {
                found = seq![w];
                lemma_word_leaf(*board, start, *node, swaps as int, found);
            }
            words.push(w);
            assert(found.drop_last() =~= Seq::<Word>::empty());
            assert(pushed_all(words0, Seq::<Word>::empty(), cap) == words0);
            return Ghost(found);
        },
        Node::Both { next_letters } => {
            let w = Word::new(copy_steps(steps), board);
            proof {
                found = seq![w];
            }
            words.push(w);
            assert(found.drop_last() =~= Seq::<Word>::empty());
            assert(pushed_all(words0, Seq::<Word>::empty(), cap) == words0);
            next_letters
        },
        Node::Prefix { next_letters } => next_letters,
    };
    proof {
        lemma_first_found(*board, start, *node, swaps as int, kids@, found);
    }
    let last = steps[steps.len() - 1].index();
    let x = last % 5;
    let y = last / 5;
    let mut d: i8 = 0;
    while d < 9
        invariant
            0 <= d <= 9,
            steps@ == start,
            n == start.len(),
            1 <= n <= 25,
            path_ok(*board, start, 0),
            board.wf(),
            kids@ == children(*node),
            keys_distinct(kids@),
            forall|j: int| 0 <= j < kids@.len() ==> wf_node(#[trigger] kids@[j].1),
            last == start.last().at(),
            0 <= last < 25,
            x == last % 5,
            y == last / 5,
            words.wf(),
            words.cap() == cap,
            words@ == pushed_all(words0, found, cap),
            found_so_far(*board, start, *node, swaps as int, kids@, d as int, 0, found),
        decreases 9 - d,
    {
        let dx = d / 3 - 1;
        let dy = d % 3 - 1;
        let nx = x + dx;
        let ny = y + dy;
        let mut searched = false;
        if !(dx == 0 && dy == 0) && 0 <= nx && nx <= 4 && 0 <= ny && ny <= 4 {
            let ni = ny * 5 + nx;
            let tile = board.tiles[ni as usize];
            if !tile.frozen && !used(steps, ni) {
                searched = true;
                let mut k: usize = 0;
                while k < kids.len()
                    invariant
                        0 <= d < 9,
                        k <= kids@.len(),
                        steps@ == start,
                        n == start.len(),
                        1 <= n <= 25,
                        path_ok(*board, start, 0),
                        board.wf(),
                        kids@ == children(*node),
                        keys_distinct(kids@),
                        forall|j: int| 0 <= j < kids@.len() ==> wf_node(#[trigger] kids@[j].1),
                        last == start.last().at(),
                        0 <= last < 25,
                        nx == toward_col(last as int, d as int),
                        ny == toward_row(last as int, d as int),
                        0 <= nx <= 4,
                        0 <= ny <= 4,
                        ni == ny * 5 + nx,
                        !(d / 3 - 1 == 0 && d % 3 - 1 == 0),
                        tile == board.tiles@[ni as int],
                        !tile.frozen,
                        forall|j: int| 0 <= j < n ==> (#[trigger] start[j]).at() != ni,
                        words.wf(),
                        words.cap() == cap,
                        words@ == pushed_all(words0, found, cap),
                        found_so_far(*board, start, *node, swaps as int, kids@, d as int, k as int, found),
                    decreases kids@.len() - k,
                {
                    let letter = kids[k].0;
                    let sub = &kids[k].1;
                    if letter == tile.letter || swaps > 0 {
                        let step = if letter == tile.letter {
                            Step::Normal { index: ni }
                        } else {
                            Step::Swap { index: ni, new_letter: letter }
                        };
                        let left = if letter == tile.letter {
                            swaps
                        } else {
                            swaps - 1
                        };
                        proof {
                            assert(step == step_toward(*board, last as int, d as int, letter));
                            lemma_extend_path(*board, start, d as int, step);
                        }
                        steps.push(step);
                        let sub_found = solver(board, steps, sub, left, words);
                        steps.pop();
                        proof {
                            lemma_pushed_all_concat(words0, found, sub_found@, cap);
                            lemma_child_searched(
                                *board,
                                start,
                                *node,
                                swaps as int,
                                kids@,
                                d as int,
                                k as int,
                                left as int,
                                found,
                                sub_found@,
                            );
                            found = found + sub_found@;
                        }
                    } else {
                        proof {
                            lemma_skip_letter(*board, start, *node, kids@, d as int, k as int, found);
                        }
                    }
                    k = k + 1;
                }
                proof {
                    lemma_direction_done(*board, start, *node, swaps as int, kids@, d as int, found);
                }
            }
        }
        if !searched {
            proof {
                lemma_skip_direction(*board, start, *node, swaps as int, kids@, d as int, found);
            }
        }
        d = d + 1;
    }
    proof {
        lemma_all_directions(*board, start, *node, swaps as int, kids@, found);
    }
    Ghost(found)
}

/// The path itself is a continuation exactly when its node ends a word, and every step of it is on
/// the board.
proof fn lemma_start_found(board: Board, start: Seq<Step>, node: Node, swaps: int)
    requires
        path_ok(board, start, 0),
        swaps >= 0,
    ensures
        extends(board, start, node, swaps, start) <==> (node is Word || node is Both),
        start.len() <= 25,
        forall|i: int| 0 <= i < start.len() ==> 0 <= #[trigger] start[i].at() < 25,
{
    lemma_path_len(board, start);
    assert forall|i: int| 0 <= i < start.len() implies 0 <= #[trigger] start[i].at() < 25 by {
        assert(step_fits(board, start, i));
    }
    let n = start.len() as int;
    assert(start.skip(n) =~= Seq::<Step>::empty());
    assert(spelled(board, Seq::<Step>::empty()) =~= Seq::<char>::empty());
    assert(start.take(n) =~= start);
    assert(swap_count(Seq::<Step>::empty()) == 0);
}

/// From a `Word` node the only continuation is the path itself.
proof fn lemma_word_leaf(board: Board, start: Seq<Step>, node: Node, swaps: int, found: Seq<Word>)
    requires
        node is Word,
        extends(board, start, node, swaps, start),
        found.len() == 1,
        found[0].steps@ == start,
    ensures
        forall|p: Seq<Step>|
            #[trigger] extends(board, start, node, swaps, p) ==> exists|i: int|
                0 <= i < found.len() && (#[trigger] found[i]).steps@ == p,
{
    assert forall|p: Seq<Step>| #[trigger] extends(board, start, node, swaps, p) implies exists|i: int|
        0 <= i < found.len() && (#[trigger] found[i]).steps@ == p by {
        if p.len() > start.len() {
            lemma_extends_needs_child(board, start, node, swaps, p);
        }
        assert(p =~= start);
        assert(found[0].steps@ == p);
    }
}

/// Before any neighbour is tried, what was found is the path itself if it ends a word.
proof fn lemma_first_found(
    board: Board,
    start: Seq<Step>,
    node: Node,
    swaps: int,
    kids: Seq<(char, Node)>,
    found: Seq<Word>,
)
    requires
        start.len() >= 1,
        path_ok(board, start, 0),
        extends(board, start, node, swaps, start) <==> found.len() == 1,
        found.len() <= 1,
        found.len() == 1 ==> found[0].scores(board, start),
    ensures
        found_so_far(board, start, node, swaps, kids, 0, 0, found),
{
    let n = start.len() as int;
    assert forall|p: Seq<Step>| #[trigger] extends(board, start, node, swaps, p) && (p.len() == n
        || covered(board, n, kids, 0, 0, p)) implies exists|i: int|
        0 <= i < found.len() && (#[trigger] found[i]).steps@ == p by {
        if p.len() > n {
            lemma_prefix_steps(start, p);
            assert(step_fits(board, p, n));
        } else {
            assert(p =~= start);
            assert(found[0].steps@ == p);
        }
    }
}

/// Once all nine directions are done, every continuation has been found.
proof fn lemma_all_directions(
    board: Board,
    start: Seq<Step>,
    node: Node,
    swaps: int,
    kids: Seq<(char, Node)>,
    found: Seq<Word>,
)
    requires
        start.len() >= 1,
        path_ok(board, start, 0),
        found_so_far(board, start, node, swaps, kids, 9, 0, found),
    ensures
        forall|p: Seq<Step>|
            #[trigger] extends(board, start, node, swaps, p) ==> exists|i: int|
                0 <= i < found.len() && (#[trigger] found[i]).steps@ == p,
{
    let n = start.len() as int;
    assert forall|p: Seq<Step>| #[trigger] extends(board, start, node, swaps, p) implies exists|i: int|
        0 <= i < found.len() && (#[trigger] found[i]).steps@ == p by {
        if p.len() > n {
            assert(step_fits(board, p, n));
            lemma_prefix_steps(start, p);
            assert(0 <= p[n - 1].at() < 25) by {
                assert(step_fits(board, start, n - 1));
            }
            lemma_direction(p[n - 1].at(), p[n].at());
            assert(covered(board, n, kids, 9, 0, p));
        }
    }
}

/// A board position is its row times five plus its column.
proof fn lemma_pos(a: int)
    requires
        0 <= a < 25,
    ensures
        a == (a / 5) * 5 + a % 5,
        0 <= a % 5 < 5,
        0 <= a / 5 < 5,
{
}

} // verus!
