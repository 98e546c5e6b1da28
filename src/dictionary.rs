use vstd::prelude::*;

verus! {

/// A node of the dictionary tree.
pub enum Node {
    /// The letters so far begin a longer word but are no word themselves.
    Prefix { next_letters: Vec<(char, Node)> },
    /// The letters so far are a word, and no longer word begins with them.
    Word,
    /// The letters so far are a word and also begin a longer one.
    Both { next_letters: Vec<(char, Node)> },
}

/// The children of a node, each under the letter that leads to it.
pub open spec fn children(n: Node) -> Seq<(char, Node)> {
    match n {
        Node::Prefix { next_letters } => next_letters@,
        Node::Word => Seq::empty(),
        Node::Both { next_letters } => next_letters@,
    }
}

/// Whether the letters that lead to `n` form a word.
pub open spec fn ends_word(n: Node) -> bool {
    n is Word || n is Both
}

/// Whether the letters `w`, read from `n`, lead to the end of a word.
pub open spec fn accepts(n: Node, w: Seq<char>) -> bool
    decreases w.len(),
{
    if w.len() == 0 {
        ends_word(n)
    } else {
        exists|k: int|
            0 <= k < children(n).len() && (#[trigger] children(n)[k]).0 == w[0] && accepts(
                children(n)[k].1,
                w.drop_first(),
            )
    }
}

/// Whether the tree whose top-level children are `kids` holds the word `w`.
pub open spec fn spells(kids: Seq<(char, Node)>, w: Seq<char>) -> bool {
    w.len() > 0 && exists|k: int|
        0 <= k < kids.len() && (#[trigger] kids[k]).0 == w[0] && accepts(kids[k].1, w.drop_first())
}

/// No two children share a letter.
pub open spec fn keys_distinct(kids: Seq<(char, Node)>) -> bool {
    forall|i: int, j: int| 0 <= i < j < kids.len() ==> (#[trigger] kids[i]).0 != (#[trigger] kids[j]).0
}

/// Every `Prefix` or `Both` node below has a child, and no node has two children under one letter.
pub open spec fn wf_node(n: Node) -> bool
    decreases n,
{
    match n {
        Node::Word => true,
        Node::Prefix { next_letters } => next_letters@.len() > 0 && keys_distinct(next_letters@)
            && forall|k: int| 0 <= k < next_letters@.len() ==> wf_node(#[trigger] next_letters@[k].1),
        Node::Both { next_letters } => next_letters@.len() > 0 && keys_distinct(next_letters@)
            && forall|k: int| 0 <= k < next_letters@.len() ==> wf_node(#[trigger] next_letters@[k].1),
    }
}

/// The top-level children of a well-formed tree.
pub open spec fn wf_forest(kids: Seq<(char, Node)>) -> bool {
    keys_distinct(kids) && forall|k: int| 0 <= k < kids.len() ==> wf_node(#[trigger] kids[k].1)
}


/// The node reached from `n` by taking, at each level, the child at the next position of `path`.
pub open spec fn descend(n: Node, path: Seq<int>) -> Option<Node>
    decreases path.len(),
{
    if path.len() == 0 {
        Some(n)
    } else if 0 <= path[0] < children(n).len() {
        descend(children(n)[path[0]].1, path.drop_first())
    } else {
        None
    }
}

proof fn lemma_descend_wf(n: Node, path: Seq<int>)
    requires
        wf_node(n),
        descend(n, path) is Some,
    ensures
        wf_node(descend(n, path)->0),
    decreases path.len(),
{
    if path.len() > 0 {
        lemma_descend_wf(children(n)[path[0]].1, path.drop_first());
    }
}

/// A well-formed node leads to the end of some word.
proof fn lemma_leads_to_word(n: Node)
    requires
        wf_node(n),
    ensures
        exists|w: Seq<char>| accepts(n, w),
    decreases n,
{
    match n {
        Node::Word => {
            assert(accepts(n, Seq::empty()));
        },
        Node::Prefix { next_letters } => {
            let (c, m) = next_letters@[0];
            assert(wf_node(next_letters@[0].1));
            lemma_leads_to_word(m);
            let w = choose|w: Seq<char>| accepts(m, w);
            let full = seq![c] + w;
            assert(full.drop_first() =~= w);
            assert(children(n)[0] == (c, m));
            assert(accepts(n, full));
        },
        Node::Both { next_letters } => {
            assert(accepts(n, Seq::empty()));
        },
    }
}

/// No dead ends: in a well-formed tree, every node reached by following children that is a
/// `Prefix` or `Both` node has at least one child, and some chain of children from it ends a word.
pub proof fn lemma_no_dead_ends(kids: Seq<(char, Node)>, k: int, path: Seq<int>)
    requires
        wf_forest(kids),
        0 <= k < kids.len(),
        descend(kids[k].1, path) is Some,
    ensures
        ({
            let m = descend(kids[k].1, path)->0;
            &&& (m is Prefix || m is Both) ==> children(m).len() > 0
            &&& exists|w: Seq<char>| accepts(m, w)
        }),
{
    assert(wf_node(kids[k].1));
    lemma_descend_wf(kids[k].1, path);
    lemma_leads_to_word(descend(kids[k].1, path)->0);
}

/// A tree that holds a word has a child.
proof fn lemma_spells_nonempty(kids: Seq<(char, Node)>, w: Seq<char>)
    requires
        spells(kids, w),
    ensures
        kids.len() > 0,
{
}

/// A nonempty sequence is a suffix of `w` when its first letter and the rest match.
proof fn lemma_first_rest(q: Seq<char>, w: Seq<char>, i: int)
    requires
        0 <= i < w.len(),
        q.len() > 0,
        q[0] == w[i],
        q.drop_first() == w.skip(i + 1),
    ensures
        q == w.skip(i),
{
    assert(w.skip(i + 1).len() == w.len() - i - 1);
    assert(w.skip(i).len() == w.len() - i);
    assert(q.drop_first().len() == q.len() - 1);
    assert(q.len() == w.skip(i).len());
    assert forall|j: int| 0 <= j < q.len() implies q[j] == w.skip(i)[j] by {
        if j > 0 {
            assert(q[j] == q.drop_first()[j - 1]);
        }
    }
    assert(q =~= w.skip(i));
}

/// Returns the position of the child under `c`, or `kids.len()` if there is none.
fn find_child(kids: &Vec<(char, Node)>, c: char) -> (k: usize)
    ensures
        k <= kids@.len(),
        k < kids@.len() ==> kids@[k as int].0 == c,
        forall|j: int| 0 <= j < k ==> (#[trigger] kids@[j]).0 != c,
{
    let mut k: usize = 0;
    while k < kids.len()
        invariant
            k <= kids@.len(),
            forall|j: int| 0 <= j < k ==> (#[trigger] kids@[j]).0 != c,
        decreases kids@.len() - k,
    {
        if kids[k].0 == c {
            return k;
        }
        k = k + 1;
    }
    k
}

/// Adds the letters of `w` from position `i` on as a word of the tree whose children are `kids`.
fn insert_word(kids: &mut Vec<(char, Node)>, w: &Vec<char>, i: usize)
    requires
        i < w@.len(),
        wf_forest(old(kids)@),
    ensures
        wf_forest(final(kids)@),
        forall|q: Seq<char>|
            #[trigger] spells(final(kids)@, q) <==> spells(old(kids)@, q) || q == w@.skip(i as int),
    decreases w@.len() - i,
{
    let ghost rest = w@.skip(i as int + 1);
    assert(w@.skip(i as int).drop_first() =~= rest);
    assert(w@.skip(i as int)[0] == w@[i as int]);
    let c = w[i];
    let last = i == w.len() - 1;
    let k = find_child(kids, c);
    if k < kids.len() {
        let ghost before = kids@;
        let (letter, child) = kids.remove(k);
        let ghost old_child = child;
        assert(wf_node(old_child));
        let child2 = match child {
            Node::Word => {
                if last {
                    Node::Word
                } else {
                    let mut v: Vec<(char, Node)> = Vec::new();
                    insert_word(&mut v, w, i + 1);
                    proof {
                        lemma_spells_nonempty(v@, rest);
                    }
                    Node::Both { next_letters: v }
                }
            },
            Node::Prefix { next_letters } => {
                let mut v = next_letters;
                assert(wf_forest(v@) && v@.len() > 0);
                if last {
                    Node::Both { next_letters: v }
                } else {
                    insert_word(&mut v, w, i + 1);
                    proof {
                        lemma_spells_nonempty(v@, rest);
                    }
                    Node::Prefix { next_letters: v }
                }
            },
            Node::Both { next_letters } => {
                let mut v = next_letters;
                assert(wf_forest(v@) && v@.len() > 0);
                if !last {
                    insert_word(&mut v, w, i + 1);
                    proof {
                        lemma_spells_nonempty(v@, rest);
                    }
                }
                Node::Both { next_letters: v }
            },
        };
        assert(wf_node(child2));
        assert forall|q: Seq<char>| #[trigger] accepts(child2, q) <==> accepts(old_child, q) || q
            == rest by {
            if q.len() == 0 {
                if last {
                    assert(rest.len() == 0);
                    assert(q =~= rest);
                } else {
                    assert(q != rest);
                }
            } else {
                if last {
                    assert(q != rest);
                }
                if !last {
                    assert(accepts(child2, q) == spells(children(child2), q));
                    assert(accepts(old_child, q) == spells(children(old_child), q));
                } else {
                    assert(children(child2) == children(old_child));
                }
            }
        }
        kids.insert(k, (letter, child2));
        assert(kids@ == before.update(k as int, (c, child2)));
        assert forall|q: Seq<char>| #[trigger] spells(kids@, q) <==> spells(before, q) || q == w@.skip(
            i as int,
        ) by {
            if spells(kids@, q) {
                let j = choose|j: int|
                    0 <= j < kids@.len() && (#[trigger] kids@[j]).0 == q[0] && accepts(
                        kids@[j].1,
                        q.drop_first(),
                    );
                if j != k {
                    assert(before[j] == kids@[j]);
                } else if accepts(old_child, q.drop_first()) {
                    assert(before[j] == (c, old_child));
                } else {
                    lemma_first_rest(q, w@, i as int);
                }
            }
            if spells(before, q) {
                let j = choose|j: int|
                    0 <= j < before.len() && (#[trigger] before[j]).0 == q[0] && accepts(
                        before[j].1,
                        q.drop_first(),
                    );
                if j != k {
                    assert(before[j] == kids@[j]);
                } else {
                    assert(kids@[j] == (c, child2));
                }
            }
            if q == w@.skip(i as int) {
                assert(kids@[k as int] == (c, child2));
                assert(accepts(child2, q.drop_first()));
            }
        }
        assert(keys_distinct(kids@)) by {
            assert forall|a: int, b: int| 0 <= a < b < kids@.len() implies (#[trigger] kids@[a]).0
                != (#[trigger] kids@[b]).0 by {
                assert(before[a].0 != before[b].0);
            }
        }
        assert forall|j: int| 0 <= j < kids@.len() implies wf_node(#[trigger] kids@[j].1) by {
            if j != k {
                assert(kids@[j] == before[j]);
            }
        }
    } else {
        let fresh = if last {
            Node::Word
        } else {
            let mut v: Vec<(char, Node)> = Vec::new();
            insert_word(&mut v, w, i + 1);
            proof {
                lemma_spells_nonempty(v@, rest);
            }
            Node::Prefix { next_letters: v }
        };
        assert forall|q: Seq<char>| #[trigger] accepts(fresh, q) <==> q == rest by {
            if q.len() == 0 {
                if last {
                    assert(q =~= rest);
                }
            } else {
                if !last {
                    assert(accepts(fresh, q) == spells(children(fresh), q));
                }
            }
        }
        let ghost before = kids@;
        kids.push((c, fresh));
        assert forall|q: Seq<char>| #[trigger] spells(kids@, q) <==> spells(before, q) || q == w@.skip(
            i as int,
        ) by {
            if spells(kids@, q) {
                let j = choose|j: int|
                    0 <= j < kids@.len() && (#[trigger] kids@[j]).0 == q[0] && accepts(
                        kids@[j].1,
                        q.drop_first(),
                    );
                if j < before.len() {
                    assert(before[j] == kids@[j]);
                } else {
                    lemma_first_rest(q, w@, i as int);
                }
            }
            if spells(before, q) {
                let j = choose|j: int|
                    0 <= j < before.len() && (#[trigger] before[j]).0 == q[0] && accepts(
                        before[j].1,
                        q.drop_first(),
                    );
                assert(before[j] == kids@[j]);
            }
            if q == w@.skip(i as int) {
                assert(kids@[before.len() as int] == (c, fresh));
                assert(accepts(fresh, q.drop_first()));
            }
        }
        assert(keys_distinct(kids@)) by {
            assert forall|a: int, b: int| 0 <= a < b < kids@.len() implies (#[trigger] kids@[a]).0
                != (#[trigger] kids@[b]).0 by {
                if b < before.len() {
                    assert(before[a].0 != before[b].0);
                } else {
                    assert(kids@[a] == before[a]);
                }
            }
        }
        assert forall|j: int| 0 <= j < kids@.len() implies wf_node(#[trigger] kids@[j].1) by {
            if j < before.len() {
                assert(kids@[j] == before[j]);
            }
        }
    }
}


/// `text[a..b]` is a whole line: it starts the text or follows a newline, it ends the text or
/// stands before a newline, and holds no newline.
pub open spec fn line_at(text: Seq<char>, a: int, b: int) -> bool {
    &&& 0 <= a <= b <= text.len()
    &&& (a == 0 || text[a - 1] == '\n')
    &&& (b == text.len() || text[b] == '\n')
    &&& forall|j: int| a <= j < b ==> text[j] != '\n'
}

/// The entry that the line `text[a..b]` holds: the line without the carriage return that may
/// stand before its newline.
pub open spec fn entry(text: Seq<char>, a: int, b: int) -> Seq<char> {
    if b < text.len() && b > a && text[b - 1] == '\r' {
        text.subrange(a, b - 1)
    } else {
        text.subrange(a, b)
    }
}

/// Whether a word has a length that can be played: 3 to 25 letters.
pub open spec fn playable(w: Seq<char>) -> bool {
    3 <= w.len() <= 25
}

/// Whether some line of `text` ending before position `end` holds the playable word `w`.
pub open spec fn listed_before(text: Seq<char>, end: int, w: Seq<char>) -> bool {
    playable(w) && exists|a: int, b: int| #[trigger] line_at(text, a, b) && b < end && entry(text, a, b) == w
}

/// Whether some line of `text` holds the playable word `w`.
pub open spec fn listed(text: Seq<char>, w: Seq<char>) -> bool {
    playable(w) && exists|a: int, b: int| #[trigger] line_at(text, a, b) && entry(text, a, b) == w
}

/// A line that ends at or after `start`, where `start` begins a line with no newline up to `end`,
/// is the line `text[start..b]`.
proof fn lemma_line_from(text: Seq<char>, start: int, end: int, a: int, b: int)
    requires
        0 <= start <= end <= text.len(),
        start == 0 || text[start - 1] == '\n',
        forall|j: int| start <= j < end ==> text[j] != '\n',
        line_at(text, a, b),
        start <= b,
        b <= end,
    ensures
        a == start,
{
    if a < start {
        assert(text[start - 1] == '\n');
    } else if a > start {
        assert(text[a - 1] == '\n');
    }
}

/// Parses a text of words, one per line, into the children of the root of a dictionary tree.
/// Lines are split as `str::lines` splits them; entries shorter than 3 or longer than 25
/// characters are left out, and an entry listed twice is held once.
pub fn load_dictionary_tree(string: String) -> (r: Vec<(char, Node)>)
    ensures
        wf_forest(r@),
        forall|w: Seq<char>| #[trigger] spells(r@, w) <==> listed(string@, w),
{
    let ghost text = string@;
    let mut root: Vec<(char, Node)> = Vec::new();
    let mut line: Vec<char> = Vec::new();
    let ghost mut start: int = 0;
    for c in it: string.as_str().chars()
        invariant
            it.seq() == text,
            0 <= start <= it.index() <= text.len(),
            line@ == text.subrange(start, it.index() as int),
            start == 0 || text[start - 1] == '\n',
            forall|j: int| start <= j < it.index() ==> text[j] != '\n',
            wf_forest(root@),
            forall|w: Seq<char>| #[trigger] spells(root@, w) <==> listed_before(text, start, w),
    {
        let ghost idx = it.index() as int;
        if c == '\n' {
            let mut word = line;
            line = Vec::new();
            let n = word.len();
            if n > 0 && word[n - 1] == '\r' {
                word.pop();
            }
            assert(line_at(text, start, idx));
            assert(word@ == entry(text, start, idx));
            let ghost before = root@;
            if 3 <= word.len() && word.len() <= 25 {
                insert_word(&mut root, &word, 0);
                assert(word@.skip(0) == word@);
            }
            assert forall|w: Seq<char>| #[trigger] spells(root@, w) <==> listed_before(
                text,
                idx + 1,
                w,
            ) by {
                if listed_before(text, idx + 1, w) {
                    let (a, b) = choose|a: int, b: int|
                        #[trigger] line_at(text, a, b) && b < idx + 1 && entry(text, a, b) == w;
                    if b >= start {
                        lemma_line_from(text, start, idx, a, b);
                        if b < idx {
                            assert(text[b] == '\n');
                        }
                    } else {
                        assert(listed_before(text, start, w));
                    }
                }
                if spells(before, w) {
                    assert(listed_before(text, start, w));
                    let (a, b) = choose|a: int, b: int|
                        #[trigger] line_at(text, a, b) && b < start && entry(text, a, b) == w;
                    assert(line_at(text, a, b) && b < idx + 1);
                }
                if w == word@ && playable(w) {
                    assert(line_at(text, start, idx) && idx < idx + 1);
                }
            }
            proof {
                start = idx + 1;
            }
        } else {
            line.push(c);
        }
        assert(text.subrange(start, idx + 1) == line@) by {
            if start <= idx {
                assert(text.subrange(start, idx + 1) =~= text.subrange(start, idx).push(c));
            } else {
                assert(text.subrange(start, idx + 1) =~= Seq::<char>::empty());
            }
        }
    }
    let ghost before = root@;
    let n = line.len();
    assert(line_at(text, start, text.len() as int));
    assert(line@ == entry(text, start, text.len() as int));
    if 3 <= n && n <= 25 {
        insert_word(&mut root, &line, 0);
        assert(line@.skip(0) == line@);
    }
    assert forall|w: Seq<char>| #[trigger] spells(root@, w) <==> listed(text, w) by {
        if listed(text, w) {
            let (a, b) = choose|a: int, b: int| #[trigger] line_at(text, a, b) && entry(text, a, b) == w;
            if b >= start {
                lemma_line_from(text, start, text.len() as int, a, b);
            } else {
                assert(listed_before(text, start, w));
            }
        }
        if spells(before, w) {
            assert(listed_before(text, start, w));
        }
        if w == line@ && playable(w) {
            assert(line_at(text, start, text.len() as int));
        }
    }
    root
}

} // verus!
