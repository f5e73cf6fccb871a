use puzzle_solvers::hand_game::{battle, calculate_result, score_collector, BattleResult,
    HandGesture, LogParser, Scorer};

#[test]
fn rock_defeats_scissors() {
    assert_eq!(
        BattleResult::Win,
        battle(HandGesture::Scissors, HandGesture::Rock)
    );

    assert_eq!(
        BattleResult::Lose,
        battle(HandGesture::Rock, HandGesture::Scissors)
    );

    assert_eq!(
        BattleResult::Draw,
        battle(HandGesture::Rock, HandGesture::Rock)
    );
}

#[test]
fn scissors_defeats_paper() {
    assert_eq!(
        BattleResult::Win,
        battle(HandGesture::Paper, HandGesture::Scissors)
    );

    assert_eq!(
        BattleResult::Lose,
        battle(HandGesture::Scissors, HandGesture::Paper)
    );

    assert_eq!(
        BattleResult::Draw,
        battle(HandGesture::Scissors, HandGesture::Scissors)
    );
}

#[test]
fn paper_defeats_rock() {
    assert_eq!(
        BattleResult::Win,
        battle(HandGesture::Rock, HandGesture::Paper)
    );

    assert_eq!(
        BattleResult::Lose,
        battle(HandGesture::Paper, HandGesture::Rock)
    );

    assert_eq!(
        BattleResult::Draw,
        battle(HandGesture::Paper, HandGesture::Paper)
    );
}

#[test]
fn sum_all_scores() {
    assert_eq!(1, score_collector(vec![Scorer::Gesture(HandGesture::Rock)]));
    assert_eq!(2, score_collector(vec![Scorer::Gesture(HandGesture::Paper)]));
    assert_eq!(3, score_collector(vec![Scorer::Gesture(HandGesture::Scissors)]));

    assert_eq!(6, score_collector(vec![Scorer::Outcome(BattleResult::Win)]));
    assert_eq!(3, score_collector(vec![Scorer::Outcome(BattleResult::Draw)]));
    assert_eq!(0, score_collector(vec![Scorer::Outcome(BattleResult::Lose)]));

    assert_eq!(
        15,
        score_collector(vec![
            Scorer::Gesture(HandGesture::Rock),
            Scorer::Gesture(HandGesture::Paper),
            Scorer::Gesture(HandGesture::Scissors),
            Scorer::Outcome(BattleResult::Win),
            Scorer::Outcome(BattleResult::Lose),
            Scorer::Outcome(BattleResult::Draw),
        ])
    )
}

#[test]
fn part1_should_be_15() {
    const DATA: &str = "A Y\nB X\nC Z";
    assert_eq!(15, calculate_result(DATA, LogParser::Part1));
}

#[test]
fn calculate_hand_gesture_when_enemy_choose_rock() {
    assert_eq!(
        HandGesture::Paper,
        BattleResult::Win.when_enemy(HandGesture::Rock)
    );

    assert_eq!(
        HandGesture::Rock,
        BattleResult::Draw.when_enemy(HandGesture::Rock)
    );

    assert_eq!(
        HandGesture::Scissors,
        BattleResult::Lose.when_enemy(HandGesture::Rock)
    );
}

#[test]
fn calculate_hand_gesture_when_enemy_choose_paper() {
    assert_eq!(
        HandGesture::Scissors,
        BattleResult::Win.when_enemy(HandGesture::Paper)
    );

    assert_eq!(
        HandGesture::Paper,
        BattleResult::Draw.when_enemy(HandGesture::Paper)
    );

    assert_eq!(
        HandGesture::Rock,
        BattleResult::Lose.when_enemy(HandGesture::Paper)
    );
}

#[test]
fn calculate_hand_gesture_when_enemy_choose_scissors() {
    assert_eq!(
        HandGesture::Rock,
        BattleResult::Win.when_enemy(HandGesture::Scissors)
    );

    assert_eq!(
        HandGesture::Scissors,
        BattleResult::Draw.when_enemy(HandGesture::Scissors)
    );

    assert_eq!(
        HandGesture::Paper,
        BattleResult::Lose.when_enemy(HandGesture::Scissors)
    );
}

#[test]
fn part_2_should_be_12() {
    const DATA: &str = "A Y\nB X\nC Z";
    assert_eq!(12, calculate_result(DATA, LogParser::Part2));
}

#[test]
fn letter_codes_parse() {
    assert_eq!(HandGesture::Rock, HandGesture::from("A"));
    assert_eq!(HandGesture::Paper, HandGesture::from("B"));
    assert_eq!(HandGesture::Scissors, HandGesture::from("C"));
    assert_eq!(HandGesture::Rock, HandGesture::from("X"));
    assert_eq!(BattleResult::Lose, BattleResult::from("X"));
    assert_eq!(BattleResult::Draw, BattleResult::from("Y"));
    assert_eq!(BattleResult::Win, BattleResult::from("Z"));
}

#[test]
fn gesture_and_outcome_scores() {
    assert_eq!(1, HandGesture::Rock.score());
    assert_eq!(2, HandGesture::Paper.score());
    assert_eq!(3, HandGesture::Scissors.score());
    assert_eq!(0, BattleResult::Lose.score());
    assert_eq!(3, BattleResult::Draw.score());
    assert_eq!(6, BattleResult::Win.score());
}
