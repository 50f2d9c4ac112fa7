use ranking::leaderboard::{calculate_rankings, LeaderboardGroup, RankingError, XpEntry};
use ranking::xp_calculator::XpCalculator;

fn group(gamemode: i16, user_ids: Vec<i32>) -> LeaderboardGroup {
    LeaderboardGroup { gamemode, user_ids }
}

fn listed(entries: &Vec<XpEntry>) -> Vec<(i16, i32, i32)> {
    entries.iter().map(|entry| (entry.gamemode, entry.user_id, entry.xp)).collect()
}

#[test]
fn no_leaderboards_give_no_totals() {
    let run = calculate_rankings(&XpCalculator::new(), &Vec::new()).unwrap();
    assert_eq!(run.runs_processed, 0);
    assert_eq!(run.totals.len(), 0);
    assert!(run.totals.entries().is_empty());
    assert_eq!(run.totals.get(1, 1), None);
}

#[test]
fn single_competitor_earns_nothing() {
    let calculator = XpCalculator::new();
    let run = calculate_rankings(&calculator, &vec![group(1, vec![7])]).unwrap();
    assert_eq!(run.runs_processed, 0);
    assert_eq!(run.totals.len(), 0);
    assert_eq!(run.totals.get(1, 7), None);

    let with = calculate_rankings(
        &calculator,
        &vec![group(1, vec![3, 4]), group(1, vec![7]), group(2, vec![]), group(1, vec![4, 3])],
    )
    .unwrap();
    let without =
        calculate_rankings(&calculator, &vec![group(1, vec![3, 4]), group(1, vec![4, 3])]).unwrap();
    assert_eq!(listed(with.totals.entries()), listed(without.totals.entries()));
    assert_eq!(with.runs_processed, without.runs_processed);
    assert_eq!(with.totals.get(1, 7), None);
}

#[test]
fn one_leaderboard_awards_every_position() {
    let run = calculate_rankings(&XpCalculator::new(), &vec![group(3, vec![50, 40, 30, 20, 10])])
        .unwrap();
    assert_eq!(run.runs_processed, 5);
    assert_eq!(
        listed(run.totals.entries()),
        vec![(3, 50, 520), (3, 40, 420), (3, 30, 394), (3, 20, 369), (3, 10, 344)]
    );
    assert_eq!(run.totals.get(3, 30), Some(394));
    assert_eq!(run.totals.get(3, 60), None);
    assert_eq!(run.totals.get(2, 30), None);
}

#[test]
fn awards_of_two_leaderboards_add_up_in_one_entry() {
    let calculator = XpCalculator::new();
    let groups = vec![group(1, vec![7, 8]), group(1, vec![9, 7, 8])];
    let run = calculate_rankings(&calculator, &groups).unwrap();
    let first = calculator.get_rank_xp_for_rank(1, 2).rank_xp;
    let second = calculator.get_rank_xp_for_rank(2, 3).rank_xp;
    assert_eq!(first, 520);
    assert_eq!(second, 420);
    assert_eq!(run.totals.get(1, 7), Some(940));
    assert_eq!(run.totals.get(1, 8), Some(420 + 394));
    assert_eq!(run.totals.get(1, 9), Some(520));
    assert_eq!(run.totals.len(), 3);
    assert_eq!(run.runs_processed, 5);
    let sevens = run.totals.entries().iter().filter(|entry| entry.user_id == 7).count();
    assert_eq!(sevens, 1);
}

#[test]
fn game_modes_are_kept_apart() {
    let groups = vec![group(1, vec![7, 8]), group(2, vec![7, 8]), group(-1, vec![8, 7])];
    let run = calculate_rankings(&XpCalculator::new(), &groups).unwrap();
    assert_eq!(
        listed(run.totals.entries()),
        vec![(1, 7, 520), (1, 8, 420), (2, 7, 520), (2, 8, 420), (-1, 8, 520), (-1, 7, 420)]
    );
    assert_eq!(run.totals.get(-1, 7), Some(420));
    assert_eq!(run.runs_processed, 6);
}

#[test]
fn totals_do_not_depend_on_the_order_of_leaderboards() {
    let calculator = XpCalculator::new();
    let a = group(1, (1..=150).collect());
    let b = group(1, (100..=120).rev().collect());
    let c = group(2, vec![5, 1]);
    let one = calculate_rankings(&calculator, &vec![a.clone(), b.clone(), c.clone()]).unwrap();
    let other = calculate_rankings(&calculator, &vec![c, b, a]).unwrap();
    let mut left = listed(one.totals.entries());
    let mut right = listed(other.totals.entries());
    left.sort();
    right.sort();
    assert_eq!(left, right);
    assert_eq!(one.runs_processed, 173);
    assert_eq!(other.runs_processed, 173);
}

#[test]
fn totals_are_the_sums_of_the_scored_awards() {
    let calculator = XpCalculator::new();
    let groups = vec![
        group(1, (1..=120).collect()),
        group(1, (60..=200).rev().collect()),
        group(1, vec![3]),
        group(4, (1..=12).collect()),
    ];
    let run = calculate_rankings(&calculator, &groups).unwrap();
    let mut expected: std::collections::HashMap<(i16, i32), i32> = std::collections::HashMap::new();
    let mut pairs = 0;
    for leaderboard in &groups {
        let completions = leaderboard.user_ids.len() as i32;
        if completions < 2 {
            continue;
        }
        for (index, user_id) in leaderboard.user_ids.iter().enumerate() {
            let gain = calculator.get_rank_xp_for_rank(index as i32 + 1, completions);
            *expected.entry((leaderboard.gamemode, *user_id)).or_insert(0) += gain.rank_xp;
            pairs += 1;
        }
    }
    assert_eq!(run.runs_processed, pairs);
    assert_eq!(run.totals.len(), expected.len());
    for entry in run.totals.entries() {
        assert_eq!(expected.get(&(entry.gamemode, entry.user_id)), Some(&entry.xp));
        assert_eq!(run.totals.get(entry.gamemode, entry.user_id), Some(entry.xp));
    }
}

#[test]
fn a_competitor_listed_twice_is_awarded_twice() {
    let run = calculate_rankings(&XpCalculator::new(), &vec![group(1, vec![7, 7])]).unwrap();
    assert_eq!(listed(run.totals.entries()), vec![(1, 7, 940)]);
    assert_eq!(run.runs_processed, 2);
}

#[test]
fn extreme_keys_have_entries_of_their_own() {
    let groups = vec![
        group(i16::MIN, vec![i32::MIN, i32::MAX]),
        group(i16::MAX, vec![i32::MAX, i32::MIN]),
        group(0, vec![0, -1]),
        group(-1, vec![0, 1]),
    ];
    let run = calculate_rankings(&XpCalculator::new(), &groups).unwrap();
    assert_eq!(run.totals.len(), 8);
    assert_eq!(run.totals.get(i16::MIN, i32::MIN), Some(520));
    assert_eq!(run.totals.get(i16::MIN, i32::MAX), Some(420));
    assert_eq!(run.totals.get(i16::MAX, i32::MAX), Some(520));
    assert_eq!(run.totals.get(i16::MAX, i32::MIN), Some(420));
    assert_eq!(run.totals.get(0, -1), Some(420));
    assert_eq!(run.totals.get(-1, 0), Some(520));
    assert_eq!(run.totals.get(0, 1), None);
}

#[test]
fn a_total_beyond_the_word_fails_the_run() {
    // 940 points for each of 2284557 leaderboards leave 67 points of room,
    // which rank 11 of 100 fills to the last point
    let calculator = XpCalculator::new();
    let mut groups: Vec<LeaderboardGroup> = Vec::new();
    for _ in 0..2_284_557 {
        groups.push(group(1, vec![7, 7]));
    }
    let mut hundred: Vec<i32> = (1_000..1_100).collect();
    hundred[10] = 7;
    groups.push(group(1, hundred));
    let run = calculate_rankings(&calculator, &groups).unwrap();
    assert_eq!(run.totals.get(1, 7), Some(i32::MAX));
    assert_eq!(run.runs_processed, 4_569_214);
    assert_eq!(run.totals.len(), 100);

    groups.push(group(2, vec![7, 8]));
    assert!(calculate_rankings(&calculator, &groups).is_ok());
    groups.push(group(1, vec![8, 9, 10, 7]));
    assert!(matches!(calculate_rankings(&calculator, &groups), Err(RankingError::XpOverflow)));
    groups.push(group(1, vec![8, 9]));
    assert!(matches!(calculate_rankings(&calculator, &groups), Err(RankingError::XpOverflow)));
}
