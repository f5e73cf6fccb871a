use puzzle_solvers::datastream::find_index;

#[test]
fn should_find_index_offset_4() {
    const DATA1: &str = "bvwbjplbgvbhsrlpgdmjqwftvncz";
    const DATA2: &str = "nppdvjthqldpwncqszvftbrmjlhg";
    const DATA3: &str = "nznrnfrfntjfmvfwmzdfjlvtqnbhcprsg";
    const DATA4: &str = "zcfzfwzzqfrljwzlrfnpqdbhtmscgvjw";

    assert_eq!(5, find_index(DATA1.to_string(), 4));
    assert_eq!(6, find_index(DATA2.to_string(), 4));
    assert_eq!(10, find_index(DATA3.to_string(), 4));
    assert_eq!(11, find_index(DATA4.to_string(), 4));
}

#[test]
fn should_find_index_offset_14() {
    const DATA1: &str = "bvwbjplbgvbhsrlpgdmjqwftvncz";
    const DATA2: &str = "nppdvjthqldpwncqszvftbrmjlhg";
    const DATA3: &str = "nznrnfrfntjfmvfwmzdfjlvtqnbhcprsg";
    const DATA4: &str = "zcfzfwzzqfrljwzlrfnpqdbhtmscgvjw";

    assert_eq!(23, find_index(DATA1.to_string(), 14));
    assert_eq!(23, find_index(DATA2.to_string(), 14));
    assert_eq!(29, find_index(DATA3.to_string(), 14));
    assert_eq!(26, find_index(DATA4.to_string(), 14));
}

#[test]
fn marker_at_the_very_start() {
    assert_eq!(4, find_index("abcd".to_string(), 4));
}
