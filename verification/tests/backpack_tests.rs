use puzzle_solvers::backpack::{find_duplicate_in_group, find_duplicates, part_1_sum, part_2_sum,
    split_into_compartments, sum};

#[test]
fn split_input_line_in_half() {
    const DATA: &str = "vJrwpWtwJgWrhcsFMMfFFhFp";
    let (left, right) = split_into_compartments(DATA);
    assert_eq!("vJrwpWtwJgWr", left);
    assert_eq!("hcsFMMfFFhFp", right);
}

#[test]
fn empty_vector_when_no_duplicates() {
    let (left, right) = ("a", "b");
    let duplicates = find_duplicates(left, right);
    assert!(duplicates.is_empty());
}

#[test]
fn list_of_duplicates() {
    let (left, right) = ("abc", "cbe");
    let duplicates = find_duplicates(left, right);
    assert_eq!(vec!['b', 'c'], duplicates);
}

#[test]
fn list_of_duplicates_contains_unique_values() {
    let (left, right) = ("abcbbbb", "cbebbcc");
    let duplicates = find_duplicates(left, right);
    assert_eq!(vec!['b', 'c'], duplicates);
}

#[test]
fn sum_chars() {
    assert_eq!(1, sum(vec!['a']));
    assert_eq!(26, sum(vec!['z']));
    assert_eq!(27, sum(vec!['A']));
    assert_eq!(52, sum(vec!['Z']));
    assert_eq!(53, sum(vec!['Z', 'a']));
}

#[test]
fn sum_of_duplicates_part_1() {
    const DATA: &str = "vJrwpWtwJgWrhcsFMMfFFhFp
jqHRNqRjqzjGDLGLrsFMfFZSrLrFZsSL
PmmdzqPrVvPwwTWBwg
wMqvLMZHhHMvwLHjbvcjnnSBnvTQFn
ttgJtRGJQctTZtZT
CrZsJsPPZsGzwwsLwLmpwMDw";

    assert_eq!(157, part_1_sum(DATA.to_string()));
}

#[test]
fn find_duplicate_in_a_group() {
    let group1: Vec<&str> = vec![
        "vJrwpWtwJgWrhcsFMMfFFhFp",
        "jqHRNqRjqzjGDLGLrsFMfFZSrLrFZsSL",
        "PmmdzqPrVvPwwTWBwg",
    ];
    let group2: Vec<&str> = vec![
        "wMqvLMZHhHMvwLHjbvcjnnSBnvTQFn",
        "ttgJtRGJQctTZtZT",
        "CrZsJsPPZsGzwwsLwLmpwMDw",
    ];

    assert_eq!(vec!['r'], find_duplicate_in_group(group1));
    assert_eq!(vec!['Z'], find_duplicate_in_group(group2));
}

#[test]
fn sum_of_duplicates_in_group_part_2() {
    const DATA: &str = "vJrwpWtwJgWrhcsFMMfFFhFp
jqHRNqRjqzjGDLGLrsFMfFZSrLrFZsSL
PmmdzqPrVvPwwTWBwg
wMqvLMZHhHMvwLHjbvcjnnSBnvTQFn
ttgJtRGJQctTZtZT
CrZsJsPPZsGzwwsLwLmpwMDw";

    assert_eq!(70, part_2_sum(DATA.to_string()));
}

#[test]
fn non_letters_score_nothing() {
    assert_eq!(0, sum(vec!['0', '-', ' ']));
}
