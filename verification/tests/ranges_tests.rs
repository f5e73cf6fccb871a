use puzzle_solvers::ranges::{count_overlapses, range_from, OverlapPart1, OverlapPart2, Ranger};

#[test]
fn true_when_overlap_fully() {
    let range1 = 1..10;
    let range2 = 5..7;

    assert!(OverlapPart1.overlap(&range1, &range2));
    assert!(!OverlapPart1.overlap(&range2, &range1));
}

#[test]
fn one_element_range_overlap_fully() {
    let range1 = 1..2;
    let range2 = 1..10;

    assert!(!OverlapPart1.overlap(&range1, &range2));
    assert!(OverlapPart1.overlap(&range2, &range1));
}

#[test]
fn should_create_ranges() {
    const DATA1: &str = "1-1";
    const DATA2: &str = "1-10";
    assert_eq!(1..2, range_from(DATA1));
    assert_eq!(1..11, range_from(DATA2));
}

#[test]
fn part_1_count_overlapses() {
    const DATA: &str = "2-4,6-8
2-3,4-5
5-7,7-9
2-8,3-7
6-6,4-6
2-6,4-8
";

    assert_eq!(2, count_overlapses(DATA, Ranger::Part1));
}

#[test]
fn should_overlap_partialy() {
    let range1 = 1..10;
    let range2 = 8..15;

    assert!(OverlapPart2.overlap(&range1, &range2));
    assert!(OverlapPart2.overlap(&range2, &range1));
}

#[test]
fn part_2_count_overlapses() {
    const DATA: &str = "2-4,6-8
2-3,4-5
5-7,7-9
2-8,3-7
6-6,4-6
2-6,4-8
";

    assert_eq!(4, count_overlapses(DATA, Ranger::Part2));
}

#[test]
fn disjoint_ranges_do_not_overlap() {
    let range1 = 1..3;
    let range2 = 5..7;

    assert!(!OverlapPart2.overlap(&range1, &range2));
    assert!(!OverlapPart2.overlap(&range2, &range1));
}
