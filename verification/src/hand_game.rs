//! A scored hand-gesture game.
//!
//! Each line of a battle log names the enemy's gesture and either the
//! player's gesture or the desired outcome.  A round scores the value of
//! the player's gesture plus the value of the round's outcome; the answer
//! is the sum over all rounds.

use vstd::prelude::*;
use crate::text::{split_lines, split_on, chars_of, lemma_split_lines_count, lines_of, pieces_of,
    split_tokens, views_of};

verus! {

#[derive(Clone, Copy, Debug, PartialEq, Eq, Structural)]
pub enum HandGesture {
    Rock,
    Scissors,
    Paper,
}

#[derive(Clone, Copy, Debug, PartialEq, Eq, Structural)]
pub enum BattleResult {
    Win,
    Draw,
    Lose,
}

// ---------------------------------------------------------------------------
// Game rules
// ---------------------------------------------------------------------------
/// The gesture that `g` defeats.
pub open spec fn defeats(g: HandGesture) -> HandGesture {
    match g {
        HandGesture::Rock => HandGesture::Scissors,
        HandGesture::Scissors => HandGesture::Paper,
        HandGesture::Paper => HandGesture::Rock,
    }
}

/// The gesture that defeats `g`.
pub open spec fn defeated_by(g: HandGesture) -> HandGesture {
    match g {
        HandGesture::Rock => HandGesture::Paper,
        HandGesture::Scissors => HandGesture::Rock,
        HandGesture::Paper => HandGesture::Scissors,
    }
}

/// The round's outcome for the player: win when the player's gesture
/// defeats the enemy's, draw on equal gestures, loss otherwise.
pub open spec fn spec_battle(enemy: HandGesture, you: HandGesture) -> BattleResult {
    if you == enemy {
        BattleResult::Draw
    } else if defeats(you) == enemy {
        BattleResult::Win
    } else {
        BattleResult::Lose
    }
}

/// The gesture the player must choose against `enemy` to reach outcome `r`.
pub open spec fn response_to(r: BattleResult, enemy: HandGesture) -> HandGesture {
    match r {
        BattleResult::Win => defeated_by(enemy),
        BattleResult::Draw => enemy,
        BattleResult::Lose => defeats(enemy),
    }
}

/// Score of a gesture: rock 1, paper 2, scissors 3.
pub open spec fn gesture_score(g: HandGesture) -> int {
    match g {
        HandGesture::Rock => 1,
        HandGesture::Paper => 2,
        HandGesture::Scissors => 3,
    }
}

/// Score of an outcome: loss 0, draw 3, win 6.
pub open spec fn outcome_score(r: BattleResult) -> int {
    match r {
        BattleResult::Lose => 0,
        BattleResult::Draw => 3,
        BattleResult::Win => 6,
    }
}

/// Decides one round: who wins, given both gestures.
pub fn battle(enemy: HandGesture, you: HandGesture) -> (r: BattleResult)
    ensures
        r == spec_battle(enemy, you),
{
    match enemy {
        HandGesture::Scissors => match you {
            HandGesture::Rock => BattleResult::Win,
            HandGesture::Scissors => BattleResult::Draw,
            HandGesture::Paper => BattleResult::Lose,
        },
        HandGesture::Rock => match you {
            HandGesture::Rock => BattleResult::Draw,
            HandGesture::Scissors => BattleResult::Lose,
            HandGesture::Paper => BattleResult::Win,
        },
        HandGesture::Paper => match you {
            HandGesture::Rock => BattleResult::Lose,
            HandGesture::Scissors => BattleResult::Win,
            HandGesture::Paper => BattleResult::Draw,
        },
    }
}

// ---------------------------------------------------------------------------
// Letter codes
// ---------------------------------------------------------------------------
/// A letter naming a gesture: the enemy's `A`/`B`/`C` or the player's
/// `X`/`Y`/`Z`.
pub open spec fn is_gesture_char(c: char) -> bool {
    c == 'A' || c == 'B' || c == 'C' || c == 'X' || c == 'Y' || c == 'Z'
}

/// The gesture a letter names.
pub open spec fn gesture_of_char(c: char) -> HandGesture {
    if c == 'A' || c == 'X' {
        HandGesture::Rock
    } else if c == 'B' || c == 'Y' {
        HandGesture::Paper
    } else {
        HandGesture::Scissors
    }
}

/// A letter naming an outcome: `X` lose, `Y` draw, `Z` win.
pub open spec fn is_outcome_char(c: char) -> bool {
    c == 'X' || c == 'Y' || c == 'Z'
}

/// The outcome a letter names.
pub open spec fn outcome_of_char(c: char) -> BattleResult {
    if c == 'X' {
        BattleResult::Lose
    } else if c == 'Y' {
        BattleResult::Draw
    } else {
        BattleResult::Win
    }
}

/// A one-letter gesture token.
pub open spec fn is_gesture_token(s: Seq<char>) -> bool {
    s.len() == 1 && is_gesture_char(s[0])
}

/// A one-letter outcome token.
pub open spec fn is_outcome_token(s: Seq<char>) -> bool {
    s.len() == 1 && is_outcome_char(s[0])
}

fn gesture_from_char(c: char) -> (g: HandGesture)
    requires
        is_gesture_char(c),
    ensures
        g == gesture_of_char(c),
{
    if c == 'A' || c == 'X' {
        HandGesture::Rock
    } else if c == 'B' || c == 'Y' {
        HandGesture::Paper
    } else {
        HandGesture::Scissors
    }
}

fn outcome_from_char(c: char) -> (r: BattleResult)
    requires
        is_outcome_char(c),
    ensures
        r == outcome_of_char(c),
{
    if c == 'X' {
        BattleResult::Lose
    } else if c == 'Y' {
        BattleResult::Draw
    } else {
        BattleResult::Win
    }
}

impl HandGesture {
    /// Reads a one-letter gesture code.
    pub fn from(c: &str) -> (g: HandGesture)
        requires
            is_gesture_token(c@),
        ensures
            g == gesture_of_char(c@[0]),
    {
        gesture_from_char(c.get_char(0))
    }

    /// Score of this gesture.
    pub fn score(&self) -> (r: u32)
        ensures
            r == gesture_score(*self),
    {
        match self {
            HandGesture::Rock => 1,
            HandGesture::Paper => 2,
            HandGesture::Scissors => 3,
        }
    }
}

impl BattleResult {
    /// Reads a one-letter outcome code.
    pub fn from(c: &str) -> (r: BattleResult)
        requires
            is_outcome_token(c@),
        ensures
            r == outcome_of_char(c@[0]),
    {
        outcome_from_char(c.get_char(0))
    }

    /// The gesture to choose against `enemy` so that the round ends with
    /// this outcome.
    pub fn when_enemy(&self, enemy: HandGesture) -> (g: HandGesture)
        ensures
            g == response_to(*self, enemy),
            spec_battle(enemy, g) == *self,
    {
        match self {
            BattleResult::Win => match enemy {
                HandGesture::Rock => HandGesture::Paper,
                HandGesture::Paper => HandGesture::Scissors,
                HandGesture::Scissors => HandGesture::Rock,
            },
            BattleResult::Draw => match enemy {
                HandGesture::Rock => HandGesture::Rock,
                HandGesture::Paper => HandGesture::Paper,
                HandGesture::Scissors => HandGesture::Scissors,
            },
            BattleResult::Lose => match enemy {
                HandGesture::Rock => HandGesture::Scissors,
                HandGesture::Paper => HandGesture::Rock,
                HandGesture::Scissors => HandGesture::Paper,
            },
        }
    }

    /// Score of this outcome.
    pub fn score(&self) -> (r: u32)
        ensures
            r == outcome_score(*self),
    {
        match self {
            BattleResult::Lose => 0,
            BattleResult::Draw => 3,
            BattleResult::Win => 6,
        }
    }
}

// ---------------------------------------------------------------------------
// Scoring
// ---------------------------------------------------------------------------
/// Anything worth points in a round: a gesture or an outcome.
#[derive(Clone, Copy, Debug, PartialEq, Eq, Structural)]
pub enum Scorer {
    Gesture(HandGesture),
    Outcome(BattleResult),
}

/// Score of one scorable item.
pub open spec fn item_score(s: Scorer) -> int {
    match s {
        Scorer::Gesture(g) => gesture_score(g),
        Scorer::Outcome(r) => outcome_score(r),
    }
}

/// Sum of the scores of a list of items.
pub open spec fn scores_sum(items: Seq<Scorer>) -> int
    decreases items.len(),
{
    if items.len() == 0 {
        0
    } else {
        scores_sum(items.drop_last()) + item_score(items.last())
    }
}

/// Every item scores between 0 and 6, so a list scores between 0 and six
/// times its length.
pub proof fn lemma_scores_sum_bounds(items: Seq<Scorer>)
    ensures
        0 <= scores_sum(items) <= 6 * items.len(),
    decreases items.len(),
{
    if items.len() > 0 {
        lemma_scores_sum_bounds(items.drop_last());
    }
}

impl Scorer {
    /// Score of this item.
    pub fn score(&self) -> (r: u32)
        ensures
            r == item_score(*self),
    {
        match self {
            Scorer::Gesture(g) => g.score(),
            Scorer::Outcome(o) => o.score(),
        }
    }
}

/// Adds up the scores of a list of scorable items.
pub fn score_collector(scores: Vec<Scorer>) -> (r: u32)
    requires
        scores_sum(scores@) <= u32::MAX,
    ensures
        r == scores_sum(scores@),
{
    let mut sum: u32 = 0;
    let n = scores.len();
    assert(scores@.take(0) =~= Seq::<Scorer>::empty());
    for i in 0..n
        invariant
            n == scores@.len(),
            scores_sum(scores@) <= u32::MAX,
            sum == scores_sum(scores@.take(i as int)),
    {
        proof {
            assert(scores@.take(i + 1).drop_last() =~= scores@.take(i as int));
            assert(scores@.take(i + 1).last() == scores@[i as int]);
            lemma_scores_sum_bounds(scores@.take(i + 1));
            lemma_scores_sum_tail_le(scores@, i + 1);
        }
        let s = scores[i].score();
        sum = sum + s;
    }
    assert(scores@.take(n as int) =~= scores@);
    sum
}

/// A prefix of a score list never outscores the whole list.
pub proof fn lemma_scores_sum_tail_le(items: Seq<Scorer>, k: int)
    requires
        0 <= k <= items.len(),
    ensures
        scores_sum(items.take(k)) <= scores_sum(items),
    decreases items.len(),
{
    if k == items.len() {
        assert(items.take(k) =~= items);
    } else {
        assert(items.drop_last().take(k) =~= items.take(k));
        lemma_scores_sum_tail_le(items.drop_last(), k);
        lemma_scores_sum_bounds(items);
        lemma_scores_sum_bounds(items.drop_last());
        assert(item_score(items.last()) >= 0) by {
            lemma_scores_sum_bounds(seq![items.last()]);
        }
    }
}

// ---------------------------------------------------------------------------
// Log parsing
// ---------------------------------------------------------------------------
/// How a log line is read: the second letter is the player's gesture, or
/// the round's desired outcome.
#[derive(Clone, Copy, Debug, PartialEq, Eq, Structural)]
pub enum LogParser {
    Part1,
    Part2,
}

/// A well-formed log line for the given reading: two space-separated
/// one-letter tokens (anything after the second is ignored).
pub open spec fn wf_battle_line(p: LogParser, s: Seq<char>) -> bool {
    let parts = split_on(s, ' ');
    &&& parts.len() >= 2
    &&& is_gesture_token(parts[0])
    &&& match p {
        LogParser::Part1 => is_gesture_token(parts[1]),
        LogParser::Part2 => is_outcome_token(parts[1]),
    }
}

/// The two gestures a log line stands for: the enemy's, and the player's,
/// which under `Part2` is derived from the desired outcome.
pub open spec fn parsed_log(p: LogParser, s: Seq<char>) -> (HandGesture, HandGesture) {
    let parts = split_on(s, ' ');
    let enemy = gesture_of_char(parts[0][0]);
    match p {
        LogParser::Part1 => (enemy, gesture_of_char(parts[1][0])),
        LogParser::Part2 => (enemy, response_to(outcome_of_char(parts[1][0]), enemy)),
    }
}

impl LogParser {
    /// Reads one log line as a pair (enemy gesture, player gesture).
    pub fn parse_log(&self, log: &str) -> (r: (HandGesture, HandGesture))
        requires
            wf_battle_line(*self, log@),
        ensures
            r == parsed_log(*self, log@),
    {
        let v = chars_of(log);
        let toks = split_tokens(&v, ' ');
        let ghost parts = split_on(log@, ' ');
        proof {
            assert(toks@.len() == pieces_of(v@, toks@).len());
            assert(v@.subrange(toks@[0].0 as int, toks@[0].1 as int) == parts[0]);
            assert(v@.subrange(toks@[1].0 as int, toks@[1].1 as int) == parts[1]);
            assert(parts[0][0] == v@[toks@[0].0 as int]);
            assert(parts[1][0] == v@[toks@[1].0 as int]);
        }
        let t0 = toks[0];
        let t1 = toks[1];
        let enemy = gesture_from_char(v[t0.0]);
        match self {
            LogParser::Part1 => (enemy, gesture_from_char(v[t1.0])),
            LogParser::Part2 => {
                let outcome = outcome_from_char(v[t1.0]);
                (enemy, outcome.when_enemy(enemy))
            },
        }
    }
}

/// Points scored by one log line: outcome score plus gesture score.
pub open spec fn line_score(p: LogParser, s: Seq<char>) -> int {
    let (enemy, you) = parsed_log(p, s);
    outcome_score(spec_battle(enemy, you)) + gesture_score(you)
}

/// Points scored by a whole log, line by line.
pub open spec fn total_score(p: LogParser, lines: Seq<Seq<char>>) -> int
    decreases lines.len(),
{
    if lines.len() == 0 {
        0
    } else {
        total_score(p, lines.drop_last()) + line_score(p, lines.last())
    }
}

/// Every line of the log is well formed.
pub open spec fn wf_battle_log(p: LogParser, lines: Seq<Seq<char>>) -> bool {
    forall|i: int| 0 <= i < lines.len() ==> wf_battle_line(p, #[trigger] lines[i])
}

/// A line scores between 1 and 9, so a log scores at most nine points per
/// line.
pub proof fn lemma_total_score_bounds(p: LogParser, lines: Seq<Seq<char>>)
    requires
        wf_battle_log(p, lines),
    ensures
        0 <= total_score(p, lines) <= 9 * lines.len(),
    decreases lines.len(),
{
    if lines.len() > 0 {
        assert(wf_battle_log(p, lines.drop_last()));
        lemma_total_score_bounds(p, lines.drop_last());
    }
}

/// Scores a whole battle log under the given reading of its lines.
pub fn calculate_result(battle_log: &str, parser: LogParser) -> (r: u32)
    requires
        wf_battle_log(parser, split_lines(battle_log@)),
        battle_log@.len() <= 0x0FFF_FFFF,
    ensures
        r == total_score(parser, split_lines(battle_log@)),
{
    let ghost all = split_lines(battle_log@);
    proof {
        lemma_split_lines_count(battle_log@);
    }
    let lines = lines_of(battle_log);
    let n = lines.len();
    let mut sum: u32 = 0;
    assert(all.take(0) =~= Seq::<Seq<char>>::empty());
    for i in 0..n
        invariant
            n == lines@.len(),
            views_of(lines@) == all,
            all.len() <= 0x0FFF_FFFF,
            wf_battle_log(parser, all),
            sum == total_score(parser, all.take(i as int)),
            sum <= 9 * i,
    {
        proof {
            assert(lines@[i as int]@ == all[i as int]);
        }
        let (enemy, you) = parser.parse_log(lines[i]);
        let outcome = battle(enemy, you);
        let mut items: Vec<Scorer> = Vec::new();
        items.push(Scorer::Outcome(outcome));
        items.push(Scorer::Gesture(you));
        proof {
            let line = all[i as int];
            assert(enemy == parsed_log(parser, line).0);
            assert(you == parsed_log(parser, line).1);
            assert(items@.drop_last() =~= seq![Scorer::Outcome(outcome)]);
            assert(seq![Scorer::Outcome(outcome)].drop_last() =~= Seq::<Scorer>::empty());
            assert(scores_sum(Seq::<Scorer>::empty()) == 0);
            assert(scores_sum(seq![Scorer::Outcome(outcome)]) == outcome_score(outcome));
            assert(scores_sum(items@) == outcome_score(outcome) + gesture_score(you));
            assert(line_score(parser, line) == outcome_score(spec_battle(enemy, you))
                + gesture_score(you));
            assert(scores_sum(items@) == line_score(parser, all[i as int]));
        }
        let line_sum = score_collector(items);
        proof {
            assert(all.take(i + 1).drop_last() =~= all.take(i as int));
            assert(all.take(i + 1).last() == all[i as int]);
        }
        sum = sum + line_sum;
    }
    assert(all.take(n as int) =~= all);
    sum
}

} // verus!
