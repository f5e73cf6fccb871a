use puzzle_solvers::calories::{calorie_totals, part_1, part_2, sort_descending};

const DATA: &str = "1000\n2000\n3000\n\n4000\n\n5000\n6000\n\n7000\n8000\n9000\n\n10000";

#[test]
fn totals_per_group() {
    assert_eq!(
        vec![6000, 4000, 11000, 24000, 10000],
        calorie_totals(DATA)
    );
}

#[test]
fn empty_input_is_one_empty_group() {
    assert_eq!(vec![0], calorie_totals(""));
}

#[test]
fn blank_line_opens_a_new_group() {
    assert_eq!(vec![3, 0, 7], calorie_totals("1\n2\n\n\n7"));
}

#[test]
fn sorts_largest_first() {
    let sorted = sort_descending(&vec![6000, 4000, 11000, 24000, 10000]);
    assert_eq!(vec![24000, 11000, 10000, 6000, 4000], sorted);
}

#[test]
fn top_one_and_top_three() {
    let totals = calorie_totals(DATA);
    let sorted = sort_descending(&totals);
    assert_eq!(24000, part_1(&sorted));
    assert_eq!(45000, part_2(&sorted));
}

#[test]
fn top_three_of_a_short_list() {
    assert_eq!(5, part_2(&vec![5]));
    assert_eq!(9, part_2(&vec![4, 5]));
}
