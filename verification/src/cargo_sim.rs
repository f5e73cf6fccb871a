//! Cargo rearrangement simulator.
//!
//! A fixed-column text diagram describes labeled stacks of one-character
//! items; a list of instructions `move <count> from <src> to <dst>` is then
//! applied under one of two movement policies, and the answer is the string
//! of topmost items.  Stacks are kept top-of-stack first; instruction
//! indices are 1-based as written.

use vstd::prelude::*;
use crate::text::{
    digits_value, is_number, pieces_of, split_lines, split_on, split_tokens, chars_of, lines_of,
    parse_number, string_from_chars, views_of,
};

verus! {

// ---------------------------------------------------------------------------
// Diagram model
// ---------------------------------------------------------------------------
/// In a diagram row, the item of stack `k` (0-based) sits at character
/// position `4*k + 1`.
pub open spec fn cell(row: Seq<char>, k: int) -> char {
    row[4 * k + 1]
}

/// Stack `k` has an item drawn in this row: the position exists and is not
/// blank.
pub open spec fn has_cell(row: Seq<char>, k: int) -> bool {
    0 <= k && 4 * k + 1 < row.len() && cell(row, k) != ' '
}

/// How many stack columns this row covers, one column per 4 characters.
pub open spec fn row_columns(row: Seq<char>) -> int {
    if row.len() < 2 {
        0
    } else {
        (row.len() - 2) / 4 + 1
    }
}

/// Number of stacks drawn over a sequence of rows: the widest row decides.
pub open spec fn stack_count(rows: Seq<Seq<char>>) -> int
    decreases rows.len(),
{
    if rows.len() == 0 {
        0
    } else {
        let rest = stack_count(rows.drop_last());
        let c = row_columns(rows.last());
        if c > rest {
            c
        } else {
            rest
        }
    }
}

/// Stack `k` read off the rows, top-of-stack first: each row from the top
/// of the diagram down contributes its item for column `k`, if any.
pub open spec fn stack_of(rows: Seq<Seq<char>>, k: int) -> Seq<char>
    decreases rows.len(),
{
    if rows.len() == 0 {
        Seq::empty()
    } else {
        let above = stack_of(rows.drop_last(), k);
        if has_cell(rows.last(), k) {
            above.push(cell(rows.last(), k))
        } else {
            above
        }
    }
}

/// The item rows of a diagram: all its lines but the trailing stack-index
/// row, which is discarded.
pub open spec fn diagram_rows(s: Seq<char>) -> Seq<Seq<char>> {
    let lines = split_lines(s);
    if lines.len() == 0 {
        lines
    } else {
        lines.drop_last()
    }
}

/// The layout drawn by a diagram: one stack per column, top-first.
pub open spec fn parsed_stacks(s: Seq<char>) -> Seq<Seq<char>> {
    Seq::new(stack_count(diagram_rows(s)) as nat, |k: int| stack_of(diagram_rows(s), k))
}

/// View of each stack of a layout vector.
pub open spec fn stack_views(stacks: Seq<Vec<char>>) -> Seq<Seq<char>> {
    stacks.map_values(|st: Vec<char>| st@)
}

pub proof fn lemma_stack_count_nonneg(rows: Seq<Seq<char>>)
    ensures
        stack_count(rows) >= 0,
    decreases rows.len(),
{
    if rows.len() > 0 {
        lemma_stack_count_nonneg(rows.drop_last());
    }
}

/// A column at or past the row's width has no item in that row.
pub proof fn lemma_no_cell_past_width(row: Seq<char>, k: int)
    requires
        k >= row_columns(row),
        k >= 0,
    ensures
        !has_cell(row, k),
{
    if row.len() >= 2 {
        assert(4 * ((row.len() - 2) / 4) + (row.len() - 2) % 4 == row.len() - 2);
    }
}

/// A column at or past the widest row is an empty stack.
pub proof fn lemma_stack_of_past_count(rows: Seq<Seq<char>>, k: int)
    requires
        k >= stack_count(rows),
        k >= 0,
    ensures
        stack_of(rows, k) == Seq::<char>::empty(),
    decreases rows.len(),
{
    if rows.len() > 0 {
        lemma_stack_of_past_count(rows.drop_last(), k);
        lemma_no_cell_past_width(rows.last(), k);
    }
}

// ---------------------------------------------------------------------------
// Diagram parser
// ---------------------------------------------------------------------------
/// Parses a stack diagram.  Every line but the last is an item row; the
/// character at position `1 + 4*k` of a row, when present and not blank, is
/// an item of stack `k`.  Rows are read from the top of the diagram down,
/// so each stack comes out top-of-stack first.
pub fn parse_cargo(cargo_schema: &str) -> (stacks: Vec<Vec<char>>)
    ensures
        stack_views(stacks@) == parsed_stacks(cargo_schema@),
{
    let lines = lines_of(cargo_schema);
    let ghost rows = diagram_rows(cargo_schema@);
    let mut stacks: Vec<Vec<char>> = Vec::new();
    if lines.len() == 0 {
        assert(stack_views(stacks@) =~= parsed_stacks(cargo_schema@));
        return stacks;
    }
    let m = lines.len() - 1;
    proof {
        assert(rows =~= views_of(lines@).drop_last());
        assert(rows.len() == m);
    }
    assert(rows.take(0) =~= Seq::<Seq<char>>::empty());
    for i in 0..m
        invariant
            m + 1 == lines@.len(),
            rows == diagram_rows(cargo_schema@),
            rows.len() == m,
            forall|j: int| 0 <= j < m ==> rows[j] == #[trigger] lines@[j]@,
            stacks@.len() == stack_count(rows.take(i as int)),
            forall|q: int|
                0 <= q < stacks@.len() ==> #[trigger] stacks@[q]@ == stack_of(
                    rows.take(i as int),
                    q,
                ),
    {
        let row = chars_of(lines[i]);
        let ghost prev = rows.take(i as int);
        let ghost cur = rows.take(i + 1);
        proof {
            assert(cur.drop_last() =~= prev);
            assert(cur.last() == rows[i as int]);
            lemma_stack_count_nonneg(prev);
        }
        let cols: usize = if row.len() < 2 {
            0
        } else {
            (row.len() - 2) / 4 + 1
        };
        assert(cols == row_columns(rows[i as int]));
        for k in 0..cols
            invariant
                i < m,
                rows.len() == m,
                cur == rows.take(i + 1),
                cur.len() == i + 1,
                prev == rows.take(i as int),
                cur.drop_last() == prev,
                cur.last() == rows[i as int],
                row@ == rows[i as int],
                cols == row_columns(rows[i as int]),
                k <= cols,
                stacks@.len() == if k > stack_count(prev) {
                    k as int
                } else {
                    stack_count(prev)
                },
                forall|q: int|
                    0 <= q < k && q < stacks@.len() ==> #[trigger] stacks@[q]@ == stack_of(cur, q),
                forall|q: int|
                    k <= q < stacks@.len() ==> #[trigger] stacks@[q]@ == stack_of(prev, q),
        {
            let rl = row.len();
            proof {
                assert(4 * ((rl - 2) / 4) <= rl - 2);
                assert(4 * (k as int) + 1 < rl);
            }
            let pos = 4 * k + 1;
            let c = row[pos];
            let ghost before = stacks@;
            proof {
                assert(cell(cur.last(), k as int) == c);
                assert(has_cell(cur.last(), k as int) == (c != ' '));
            }
            if k < stacks.len() {
                if c != ' ' {
                    stacks[k].push(c);
                }
            } else {
                proof {
                    lemma_stack_of_past_count(prev, k as int);
                }
                if c != ' ' {
                    let mut fresh: Vec<char> = Vec::new();
                    fresh.push(c);
                    stacks.push(fresh);
                } else {
                    stacks.push(Vec::new());
                }
            }
            proof {
                assert(before[k as int]@ == stack_of(prev, k as int) || stack_of(prev, k as int)
                    == Seq::<char>::empty());
                if c != ' ' {
                    assert(stacks@[k as int]@ =~= stack_of(prev, k as int).push(c));
                } else {
                    assert(stacks@[k as int]@ =~= stack_of(prev, k as int));
                }
                assert(stacks@[k as int]@ == stack_of(cur, k as int));
                assert(forall|q: int|
                    0 <= q < stacks@.len() && q != k ==> #[trigger] stacks@[q]@ == before[q]@);
            }
        }
        proof {
            lemma_stack_count_nonneg(prev);
            assert(stacks@.len() == stack_count(cur));
            assert forall|q: int| 0 <= q < stacks@.len() implies #[trigger] stacks@[q]@
                == stack_of(cur, q) by {
                if q >= cols {
                    lemma_no_cell_past_width(rows[i as int], q);
                }
            }
        }
    }
    proof {
        assert(rows.take(m as int) =~= rows);
        lemma_stack_count_nonneg(rows);
        assert(stack_views(stacks@) =~= parsed_stacks(cargo_schema@));
    }
    stacks
}

// ---------------------------------------------------------------------------
// Instruction parser
// ---------------------------------------------------------------------------
/// A well-formed instruction line: `move <count> from <src> to <dst>`, the
/// three fields decimal numbers that fit in `usize`.
pub open spec fn wf_move_line(s: Seq<char>) -> bool {
    let parts = split_on(s, ' ');
    &&& parts.len() == 6
    &&& parts[0] == seq!['m', 'o', 'v', 'e']
    &&& parts[2] == seq!['f', 'r', 'o', 'm']
    &&& parts[4] == seq!['t', 'o']
    &&& is_number(parts[1]) && digits_value(parts[1]) <= usize::MAX
    &&& is_number(parts[3]) && digits_value(parts[3]) <= usize::MAX
    &&& is_number(parts[5]) && digits_value(parts[5]) <= usize::MAX
}

/// The `<count>` field of an instruction line.
pub open spec fn move_count(s: Seq<char>) -> int {
    digits_value(split_on(s, ' ')[1])
}

/// The `<src>` field of an instruction line, 1-based as written.
pub open spec fn move_src(s: Seq<char>) -> int {
    digits_value(split_on(s, ' ')[3])
}

/// The `<dst>` field of an instruction line, 1-based as written.
pub open spec fn move_dst(s: Seq<char>) -> int {
    digits_value(split_on(s, ' ')[5])
}

/// Parses one instruction line into the triple `[count, src, dst]`, the
/// stack indices 1-based as written.
pub fn parse_move(cargo_move: &str) -> (r: Vec<usize>)
    requires
        wf_move_line(cargo_move@),
    ensures
        r@.len() == 3,
        r@[0] == move_count(cargo_move@),
        r@[1] == move_src(cargo_move@),
        r@[2] == move_dst(cargo_move@),
{
    let v = chars_of(cargo_move);
    let toks = split_tokens(&v, ' ');
    let ghost parts = split_on(cargo_move@, ' ');
    proof {
        assert(toks@.len() == pieces_of(v@, toks@).len());
        assert(v@.subrange(toks@[1].0 as int, toks@[1].1 as int) == parts[1]);
        assert(v@.subrange(toks@[3].0 as int, toks@[3].1 as int) == parts[3]);
        assert(v@.subrange(toks@[5].0 as int, toks@[5].1 as int) == parts[5]);
    }
    let t1 = toks[1];
    let t3 = toks[3];
    let t5 = toks[5];
    let count = parse_number(&v, t1.0, t1.1);
    let src = parse_number(&v, t3.0, t3.1);
    let dst = parse_number(&v, t5.0, t5.1);
    let mut r: Vec<usize> = Vec::new();
    r.push(count as usize);
    r.push(src as usize);
    r.push(dst as usize);
    r
}

// ---------------------------------------------------------------------------
// Movement policies
// ---------------------------------------------------------------------------
/// The instruction triple `[count, from, to]` (1-based indices) may be
/// applied: both stacks exist, they differ, and the source holds at least
/// `count` items.
pub open spec fn valid_move(stacks: Seq<Seq<char>>, count: int, from1: int, to1: int) -> bool {
    &&& 1 <= from1 <= stacks.len()
    &&& 1 <= to1 <= stacks.len()
    &&& from1 != to1
    &&& 0 <= count <= stacks[from1 - 1].len()
}

/// Effect of the single-item policy (0-based indices): the moved block
/// lands on the destination in reversed order.
pub open spec fn apply_single(stacks: Seq<Seq<char>>, count: int, from: int, to: int) -> Seq<
    Seq<char>,
> {
    stacks.update(from, stacks[from].skip(count)).update(
        to,
        stacks[from].take(count).reverse() + stacks[to],
    )
}

/// Effect of the block policy (0-based indices): the moved block lands on
/// the destination in its original order.
pub open spec fn apply_block(stacks: Seq<Seq<char>>, count: int, from: int, to: int) -> Seq<
    Seq<char>,
> {
    stacks.update(from, stacks[from].skip(count)).update(
        to,
        stacks[from].take(count) + stacks[to],
    )
}

/// Moves items one at a time: each item is popped off the top of the
/// source stack and pushed onto the top of the destination stack.
pub struct MovablePart1;

/// Moves the top `count` items as one block, keeping their order.
pub struct MovablePart2;

impl MovablePart1 {
    pub fn move_cargo(&self, cargo_stack: &mut Vec<Vec<char>>, cargo_move: Vec<usize>)
        requires
            cargo_move@.len() == 3,
            valid_move(
                stack_views(old(cargo_stack)@),
                cargo_move@[0] as int,
                cargo_move@[1] as int,
                cargo_move@[2] as int,
            ),
        ensures
            stack_views(final(cargo_stack)@) == apply_single(
                stack_views(old(cargo_stack)@),
                cargo_move@[0] as int,
                cargo_move@[1] as int - 1,
                cargo_move@[2] as int - 1,
            ),
    {
        let ghost s0 = stack_views(old(cargo_stack)@);
        let count = cargo_move[0];
        let from = cargo_move[1] - 1;
        let to = cargo_move[2] - 1;
        assert(cargo_stack@[from as int]@ =~= s0[from as int].skip(0));
        assert(cargo_stack@[to as int]@ =~= s0[from as int].take(0).reverse() + s0[to as int]);
        for j in 0..count
            invariant
                count == cargo_move@[0],
                from == cargo_move@[1] - 1,
                to == cargo_move@[2] - 1,
                valid_move(s0, count as int, from as int + 1, to as int + 1),
                cargo_stack@.len() == s0.len(),
                s0 == stack_views(old(cargo_stack)@),
                cargo_stack@[from as int]@ == s0[from as int].skip(j as int),
                cargo_stack@[to as int]@ == s0[from as int].take(j as int).reverse() + s0[to
                    as int],
                forall|q: int|
                    0 <= q < s0.len() && q != from as int && q != to as int
                        ==> #[trigger] cargo_stack@[q]@ == s0[q],
        {
            let c = cargo_stack[from].remove(0);
            proof {
                assert(c == s0[from as int][j as int]);
                assert(cargo_stack@[from as int]@ =~= s0[from as int].skip(j as int + 1));
            }
            cargo_stack[to].insert(0, c);
            proof {
                assert(cargo_stack@[to as int]@ =~= s0[from as int].take(j as int + 1).reverse()
                    + s0[to as int]);
            }
        }
        proof {
            assert(stack_views(cargo_stack@) =~= apply_single(
                s0,
                count as int,
                from as int,
                to as int,
            ));
        }
    }
}

impl MovablePart2 {
    pub fn move_cargo(&self, cargo_stack: &mut Vec<Vec<char>>, cargo_move: Vec<usize>)
        requires
            cargo_move@.len() == 3,
            valid_move(
                stack_views(old(cargo_stack)@),
                cargo_move@[0] as int,
                cargo_move@[1] as int,
                cargo_move@[2] as int,
            ),
        ensures
            stack_views(final(cargo_stack)@) == apply_block(
                stack_views(old(cargo_stack)@),
                cargo_move@[0] as int,
                cargo_move@[1] as int - 1,
                cargo_move@[2] as int - 1,
            ),
    {
        let ghost s0 = stack_views(old(cargo_stack)@);
        let count = cargo_move[0];
        let from = cargo_move[1] - 1;
        let to = cargo_move[2] - 1;
        let mut block: Vec<char> = Vec::new();
        assert(cargo_stack@[from as int]@ =~= s0[from as int].skip(0));
        assert(block@ =~= s0[from as int].take(0));
        for j in 0..count
            invariant
                count == cargo_move@[0],
                from == cargo_move@[1] - 1,
                to == cargo_move@[2] - 1,
                valid_move(s0, count as int, from as int + 1, to as int + 1),
                cargo_stack@.len() == s0.len(),
                block@ == s0[from as int].take(j as int),
                cargo_stack@[from as int]@ == s0[from as int].skip(j as int),
                forall|q: int|
                    0 <= q < s0.len() && q != from as int ==> #[trigger] cargo_stack@[q]@ == s0[q],
        {
            let c = cargo_stack[from].remove(0);
            proof {
                assert(c == s0[from as int][j as int]);
                assert(cargo_stack@[from as int]@ =~= s0[from as int].skip(j as int + 1));
            }
            block.push(c);
            proof {
                assert(block@ =~= s0[from as int].take(j as int + 1));
            }
        }
        assert(cargo_stack@[to as int]@ =~= s0[from as int].take(count as int).skip(count as int)
            + s0[to as int]);
        let mut j = count;
        while j > 0
            invariant
                count == cargo_move@[0],
                from == cargo_move@[1] - 1,
                to == cargo_move@[2] - 1,
                valid_move(s0, count as int, from as int + 1, to as int + 1),
                cargo_stack@.len() == s0.len(),
                j <= count,
                block@ == s0[from as int].take(count as int),
                cargo_stack@[from as int]@ == s0[from as int].skip(count as int),
                cargo_stack@[to as int]@ == s0[from as int].take(count as int).skip(j as int)
                    + s0[to as int],
                forall|q: int|
                    0 <= q < s0.len() && q != from as int && q != to as int
                        ==> #[trigger] cargo_stack@[q]@ == s0[q],
            decreases j,
        {
            j -= 1;
            let c = block[j];
            cargo_stack[to].insert(0, c);
            proof {
                assert(cargo_stack@[to as int]@ =~= s0[from as int].take(count as int).skip(
                    j as int,
                ) + s0[to as int]);
            }
        }
        proof {
            assert(s0[from as int].take(count as int).skip(0) =~= s0[from as int].take(
                count as int,
            ));
            assert(stack_views(cargo_stack@) =~= apply_block(
                s0,
                count as int,
                from as int,
                to as int,
            ));
        }
    }
}

/// The movement policy an instruction is applied under.
#[derive(Clone, Copy)]
pub enum Movable {
    Part1,
    Part2,
}

/// Effect of applying one instruction (1-based indices) under a policy.
pub open spec fn apply_move(
    policy: Movable,
    stacks: Seq<Seq<char>>,
    count: int,
    from1: int,
    to1: int,
) -> Seq<Seq<char>> {
    match policy {
        Movable::Part1 => apply_single(stacks, count, from1 - 1, to1 - 1),
        Movable::Part2 => apply_block(stacks, count, from1 - 1, to1 - 1),
    }
}

impl Movable {
    /// Applies one parsed instruction triple `[count, from, to]` under this
    /// policy.
    pub fn move_cargo(&self, cargo_stack: &mut Vec<Vec<char>>, cargo_move: Vec<usize>)
        requires
            cargo_move@.len() == 3,
            valid_move(
                stack_views(old(cargo_stack)@),
                cargo_move@[0] as int,
                cargo_move@[1] as int,
                cargo_move@[2] as int,
            ),
        ensures
            stack_views(final(cargo_stack)@) == apply_move(
                *self,
                stack_views(old(cargo_stack)@),
                cargo_move@[0] as int,
                cargo_move@[1] as int,
                cargo_move@[2] as int,
            ),
    {
        match self {
            Movable::Part1 => (MovablePart1 {}).move_cargo(cargo_stack, cargo_move),
            Movable::Part2 => (MovablePart2 {}).move_cargo(cargo_stack, cargo_move),
        }
    }
}

// ---------------------------------------------------------------------------
// Replaying an instruction list
// ---------------------------------------------------------------------------
/// The layout after the instruction lines are applied in order.
pub open spec fn replay(policy: Movable, stacks: Seq<Seq<char>>, moves: Seq<Seq<char>>) -> Seq<
    Seq<char>,
>
    decreases moves.len(),
{
    if moves.len() == 0 {
        stacks
    } else {
        let before = replay(policy, stacks, moves.drop_last());
        let m = moves.last();
        apply_move(policy, before, move_count(m), move_src(m), move_dst(m))
    }
}

/// Every instruction line is well formed and applies to the layout it
/// meets: its stacks exist and its source holds enough items.
pub open spec fn valid_replay(policy: Movable, stacks: Seq<Seq<char>>, moves: Seq<Seq<char>>) -> bool
    decreases moves.len(),
{
    if moves.len() == 0 {
        true
    } else {
        let before = replay(policy, stacks, moves.drop_last());
        let m = moves.last();
        &&& valid_replay(policy, stacks, moves.drop_last())
        &&& wf_move_line(m)
        &&& valid_move(before, move_count(m), move_src(m), move_dst(m))
    }
}

/// A valid replay is valid on every prefix of its instruction list.
pub proof fn lemma_valid_replay_take(
    policy: Movable,
    stacks: Seq<Seq<char>>,
    moves: Seq<Seq<char>>,
    i: int,
)
    requires
        valid_replay(policy, stacks, moves),
        0 <= i <= moves.len(),
    ensures
        valid_replay(policy, stacks, moves.take(i)),
    decreases moves.len(),
{
    if i == moves.len() {
        assert(moves.take(i) =~= moves);
    } else {
        assert(moves.drop_last().take(i) =~= moves.take(i));
        lemma_valid_replay_take(policy, stacks, moves.drop_last(), i);
    }
}

/// Top item of every stack, in stack order.
pub open spec fn tops(stacks: Seq<Seq<char>>) -> Seq<char> {
    Seq::new(stacks.len(), |k: int| stacks[k][0])
}

/// No stack is empty.
pub open spec fn all_nonempty(stacks: Seq<Seq<char>>) -> bool {
    forall|k: int| 0 <= k < stacks.len() ==> #[trigger] stacks[k].len() > 0
}

// ---------------------------------------------------------------------------
// Simulation driver
// ---------------------------------------------------------------------------
/// Parses the diagram, applies every instruction line in order under the
/// given policy, and returns the top item of every stack, concatenated in
/// ascending stack order.
pub fn rearrange_cargo(cargo_schema: &str, cargo_moves: &str, movable: Movable) -> (tops_line:
    String)
    requires
        valid_replay(movable, parsed_stacks(cargo_schema@), split_lines(cargo_moves@)),
        all_nonempty(
            replay(movable, parsed_stacks(cargo_schema@), split_lines(cargo_moves@)),
        ),
    ensures
        tops_line@ == tops(
            replay(movable, parsed_stacks(cargo_schema@), split_lines(cargo_moves@)),
        ),
{
    let ghost start = parsed_stacks(cargo_schema@);
    let ghost all_moves = split_lines(cargo_moves@);
    let mut cargo_stack = parse_cargo(cargo_schema);
    let move_lines = lines_of(cargo_moves);
    let n = move_lines.len();
    assert(views_of(move_lines@).take(0) =~= Seq::<Seq<char>>::empty());
    for i in 0..n
        invariant
            n == move_lines@.len(),
            views_of(move_lines@) == all_moves,
            valid_replay(movable, start, all_moves),
            stack_views(cargo_stack@) == replay(movable, start, all_moves.take(i as int)),
    {
        let ghost prefix = all_moves.take(i as int);
        let ghost line = all_moves[i as int];
        proof {
            lemma_valid_replay_take(movable, start, all_moves, i + 1);
            assert(all_moves.take(i + 1).drop_last() =~= prefix);
            assert(all_moves.take(i + 1).last() == line);
        }
        let mv = parse_move(move_lines[i]);
        movable.move_cargo(&mut cargo_stack, mv);
    }
    proof {
        assert(all_moves.take(n as int) =~= all_moves);
    }
    let ghost outcome = replay(movable, start, all_moves);
    let mut out: Vec<char> = Vec::new();
    let m = cargo_stack.len();
    assert(out@ =~= tops(outcome).take(0));
    for k in 0..m
        invariant
            m == cargo_stack@.len(),
            stack_views(cargo_stack@) == outcome,
            all_nonempty(outcome),
            out@ == tops(outcome).take(k as int),
    {
        proof {
            assert(cargo_stack@[k as int]@ == outcome[k as int]);
            assert(outcome[k as int].len() > 0);
        }
        let top = cargo_stack[k][0];
        out.push(top);
        assert(out@ =~= tops(outcome).take(k as int + 1));
    }
    assert(out@ =~= tops(outcome));
    string_from_chars(&out)
}

// ---------------------------------------------------------------------------
// Laws of the simulation
// ---------------------------------------------------------------------------
/// Total number of items across all stacks.
pub open spec fn total_items(stacks: Seq<Seq<char>>) -> int
    decreases stacks.len(),
{
    if stacks.len() == 0 {
        0
    } else {
        total_items(stacks.drop_last()) + stacks.last().len()
    }
}

/// Replacing one stack changes the total by the difference in that stack's
/// size.
pub proof fn lemma_total_items_update(stacks: Seq<Seq<char>>, i: int, v: Seq<char>)
    requires
        0 <= i < stacks.len(),
    ensures
        total_items(stacks.update(i, v)) == total_items(stacks) - stacks[i].len() + v.len(),
    decreases stacks.len(),
{
    let upd = stacks.update(i, v);
    if i == stacks.len() - 1 {
        assert(upd.drop_last() =~= stacks.drop_last());
        assert(upd.last() == v);
    } else {
        assert(upd.drop_last() =~= stacks.drop_last().update(i, v));
        assert(upd.last() == stacks.last());
        lemma_total_items_update(stacks.drop_last(), i, v);
    }
}

/// Conservation law: applying one instruction, under either policy, keeps
/// the total item count across all stacks unchanged.  Items are moved,
/// never created or destroyed.
pub proof fn lemma_move_conserves_items(
    policy: Movable,
    stacks: Seq<Seq<char>>,
    count: int,
    from1: int,
    to1: int,
)
    requires
        valid_move(stacks, count, from1, to1),
    ensures
        total_items(apply_move(policy, stacks, count, from1, to1)) == total_items(stacks),
{
    let from = from1 - 1;
    let to = to1 - 1;
    let shrunk = stacks.update(from, stacks[from].skip(count));
    let landed = match policy {
        Movable::Part1 => stacks[from].take(count).reverse() + stacks[to],
        Movable::Part2 => stacks[from].take(count) + stacks[to],
    };
    lemma_total_items_update(stacks, from, stacks[from].skip(count));
    lemma_total_items_update(shrunk, to, landed);
}

/// Singleton law: moving a single item is the same under both policies;
/// reversing a one-item block changes nothing.
pub proof fn lemma_policies_agree_on_one(stacks: Seq<Seq<char>>, from1: int, to1: int)
    requires
        valid_move(stacks, 1, from1, to1),
    ensures
        apply_move(Movable::Part1, stacks, 1, from1, to1) == apply_move(
            Movable::Part2,
            stacks,
            1,
            from1,
            to1,
        ),
{
    let from = from1 - 1;
    assert(stacks[from].take(1).reverse() =~= stacks[from].take(1));
}

/// Round-trip law: under the single-item policy, moving `count` items from
/// one stack to another and then moving `count` items back restores the
/// original layout exactly; the second reversal undoes the first.
pub proof fn lemma_single_item_round_trip(
    stacks: Seq<Seq<char>>,
    count: int,
    from1: int,
    to1: int,
)
    requires
        valid_move(stacks, count, from1, to1),
    ensures
        valid_move(apply_move(Movable::Part1, stacks, count, from1, to1), count, to1, from1),
        apply_move(
            Movable::Part1,
            apply_move(Movable::Part1, stacks, count, from1, to1),
            count,
            to1,
            from1,
        ) == stacks,
{
    let from = from1 - 1;
    let to = to1 - 1;
    let mid = apply_move(Movable::Part1, stacks, count, from1, to1);
    let moved = stacks[from].take(count).reverse();
    assert(mid[to] == moved + stacks[to]);
    assert(mid[from] == stacks[from].skip(count));
    assert(mid[to].len() >= count);
    let back = apply_move(Movable::Part1, mid, count, to1, from1);
    assert(mid[to].take(count) =~= moved);
    assert(mid[to].skip(count) =~= stacks[to]);
    assert(moved.reverse() =~= stacks[from].take(count));
    assert(moved.reverse() + mid[from] =~= stacks[from]);
    assert(back =~= stacks);
}

} // verus!
