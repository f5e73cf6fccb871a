use puzzle_solvers::cargo_sim::{parse_cargo, parse_move, rearrange_cargo, Movable, MovablePart1,
    MovablePart2};

const DIAGRAM: &str = "    [D]\n[N] [C]\n[Z] [M] [P]\n 1   2   3";
const MOVES: &str =
    "move 1 from 2 to 1\nmove 3 from 1 to 3\nmove 2 from 2 to 1\nmove 1 from 1 to 2";

#[test]
fn parse_move_as_vec_of_numbers() {
    const DATA: &str = "move 10 from 14 to 3";

    assert_eq!(vec![10, 14, 3], parse_move(DATA));
}

#[test]
fn parse_canonical_diagram() {
    assert_eq!(
        vec![vec!['N', 'Z'], vec!['D', 'C', 'M'], vec!['P']],
        parse_cargo(DIAGRAM)
    );
}

#[test]
fn diagram_with_blank_columns_keeps_empty_stacks() {
    let stacks = parse_cargo("[A]     [B]\n 1   2   3");
    assert_eq!(vec![vec!['A'], vec![], vec!['B']], stacks);
}

#[test]
fn rearrange_single_item_policy() {
    assert_eq!("CMZ", rearrange_cargo(DIAGRAM, MOVES, Movable::Part1));
}

#[test]
fn rearrange_block_policy() {
    assert_eq!("MCD", rearrange_cargo(DIAGRAM, MOVES, Movable::Part2));
}

#[test]
fn single_item_policy_reverses_block() {
    let mut stacks = vec![vec!['a', 'b', 'c'], vec!['x']];
    MovablePart1.move_cargo(&mut stacks, vec![2, 1, 2]);
    assert_eq!(vec![vec!['c'], vec!['b', 'a', 'x']], stacks);
}

#[test]
fn block_policy_preserves_block() {
    let mut stacks = vec![vec!['a', 'b', 'c'], vec!['x']];
    MovablePart2.move_cargo(&mut stacks, vec![2, 1, 2]);
    assert_eq!(vec![vec!['c'], vec!['a', 'b', 'x']], stacks);
}

#[test]
fn one_instruction_conserves_item_count() {
    let mut stacks = vec![vec!['a', 'b'], vec!['c']];
    let before: usize = stacks.iter().map(|s| s.len()).sum();
    MovablePart1.move_cargo(&mut stacks, vec![1, 1, 2]);
    let after: usize = stacks.iter().map(|s| s.len()).sum();
    assert_eq!(before, after);

    let mut stacks = vec![vec!['a', 'b'], vec!['c']];
    MovablePart2.move_cargo(&mut stacks, vec![2, 1, 2]);
    let after_block: usize = stacks.iter().map(|s| s.len()).sum();
    assert_eq!(before, after_block);
}

#[test]
fn policies_agree_on_single_item_moves() {
    let mut one_at_a_time = vec![vec!['a', 'b'], vec!['c']];
    let mut as_block = one_at_a_time.clone();
    MovablePart1.move_cargo(&mut one_at_a_time, vec![1, 1, 2]);
    MovablePart2.move_cargo(&mut as_block, vec![1, 1, 2]);
    assert_eq!(one_at_a_time, as_block);
}

#[test]
fn moving_a_block_there_and_back_restores_order() {
    let original = vec![vec!['a', 'b', 'c'], vec!['x']];
    let mut stacks = original.clone();
    MovablePart1.move_cargo(&mut stacks, vec![2, 1, 2]);
    MovablePart1.move_cargo(&mut stacks, vec![2, 2, 1]);
    assert_eq!(original, stacks);
}
