use ranking::group_tier::{GroupTier, Ratio};
use ranking::xp_calculator::XpCalculator;

fn ratio(num: u32, den: u32) -> Ratio {
    Ratio { num, den }
}

fn halves() -> Vec<Ratio> {
    vec![ratio(1, 2); 10]
}

fn tier(point_pct: Ratio, scale_factor: Ratio, exponent: Ratio, min_size: i32) -> GroupTier {
    GroupTier { point_pct, scale_factor, exponent, min_size }
}

#[test]
fn the_parameters_in_use_can_be_given_by_hand() {
    let percentages = vec![
        ratio(1, 1),
        ratio(4, 5),
        ratio(3, 4),
        ratio(7, 10),
        ratio(13, 20),
        ratio(3, 5),
        ratio(11, 20),
        ratio(1, 2),
        ratio(9, 20),
        ratio(2, 5),
    ];
    let tiers = vec![
        tier(ratio(1, 10), ratio(3, 20), ratio(1, 2), 20),
        tier(ratio(1, 20), ratio(2, 10), ratio(2, 5), 30),
        tier(ratio(1, 40), ratio(1, 4), ratio(3, 10), 40),
    ];
    let made = XpCalculator::with_parameters(1000, 50, 500, percentages, tiers).unwrap();
    let usual = XpCalculator::new();
    for completions in [2, 100, 19_600, 299_109, 1_000_000] {
        assert_eq!(made.group_sizes(completions), usual.group_sizes(completions));
        let mut rank = 1;
        while rank <= completions {
            assert_eq!(
                format!("{:?}", made.get_rank_xp_for_rank(rank, completions)),
                format!("{:?}", usual.get_rank_xp_for_rank(rank, completions))
            );
            rank += 1 + rank / 20;
        }
    }
}

#[test]
fn one_tier_of_half_the_field() {
    let tiers = vec![tier(ratio(1, 3), ratio(1, 2), ratio(1, 1), 0)];
    let calculator = XpCalculator::with_parameters(100, 0, 1000, halves(), tiers).unwrap();
    assert_eq!(calculator.group_sizes(100), vec![50]);
    assert_eq!(calculator.group_sizes(101), vec![50]);
    assert_eq!(calculator.group_sizes(1), vec![0]);

    let first = calculator.get_rank_xp_for_rank(1, 100);
    assert_eq!((first.formula, first.top10, first.rank_xp), (100, 500, 600));
    let third = calculator.get_rank_xp_for_rank(3, 100);
    assert_eq!((third.formula, third.top10, third.rank_xp), (34, 500, 534));

    let inside = calculator.get_rank_xp_for_rank(60, 100);
    assert_eq!(inside.group.group_num, 1);
    assert_eq!(inside.group.group_xp, 334);
    assert_eq!(inside.formula, 2);
    assert_eq!(inside.rank_xp, 336);

    let outside = calculator.get_rank_xp_for_rank(61, 100);
    assert_eq!(outside.group.group_num, -1);
    assert_eq!(outside.group.group_xp, 0);
    assert_eq!(outside.rank_xp, 2);
}

#[test]
fn no_tiers_leave_base_points_behind_the_leading_ranks() {
    let calculator = XpCalculator::with_parameters(1000, 50, 500, halves(), Vec::new()).unwrap();
    assert!(calculator.group_sizes(500).is_empty());
    for rank in [11, 12, 100, 500] {
        let gain = calculator.get_rank_xp_for_rank(rank, 500);
        assert_eq!(gain.group.group_num, -1);
        assert_eq!(gain.rank_xp, gain.formula);
    }
    assert_eq!(calculator.get_rank_xp_for_rank(10, 500).top10, 250);
}

#[test]
fn any_number_of_tiers_is_walked_in_order() {
    let tiers = vec![
        tier(ratio(1, 1), ratio(0, 1), ratio(1, 1), 1),
        tier(ratio(1, 2), ratio(0, 1), ratio(1, 1), 0),
        tier(ratio(1, 4), ratio(0, 1), ratio(1, 1), 2),
        tier(ratio(1, 8), ratio(1, 10), ratio(1, 1), 1),
        tier(ratio(0, 1), ratio(1, 1), ratio(1, 1), -5),
    ];
    let calculator = XpCalculator::with_parameters(0, 0, 800, halves(), tiers).unwrap();
    assert_eq!(calculator.group_sizes(40), vec![1, 0, 2, 4, 40]);
    let expected = [(11, 1, 800), (12, 3, 200), (13, 3, 200), (14, 4, 100), (17, 4, 100), (18, 5, 0)];
    for (rank, group_num, group_xp) in expected {
        let gain = calculator.get_rank_xp_for_rank(rank, 40);
        assert_eq!(gain.group.group_num, group_num);
        assert_eq!(gain.group.group_xp, group_xp);
        assert_eq!(gain.formula, 0);
        assert_eq!(gain.rank_xp, group_xp);
    }
}

#[test]
fn roots_are_rounded_down_exactly() {
    let tiers = vec![
        tier(ratio(1, 1), ratio(1, 1), ratio(1, 3), 0),
        tier(ratio(1, 1), ratio(1, 1), ratio(1, 2), 0),
        tier(ratio(1, 1), ratio(2, 3), ratio(3, 4), 0),
    ];
    let calculator = XpCalculator::with_parameters(1000, 50, 500, halves(), tiers).unwrap();
    assert_eq!(calculator.group_sizes(26), vec![2, 5, 7]);
    assert_eq!(calculator.group_sizes(27), vec![3, 5, 7]);
    assert_eq!(calculator.group_sizes(999_999), vec![99, 999, 21_081]);
    assert_eq!(calculator.group_sizes(1_000_000), vec![100, 1000, 21_081]);
    assert_eq!(calculator.group_sizes(2_146_689_000), vec![1290, 46_332, 6_648_682]);
    assert_eq!(calculator.group_sizes(2_146_688_999), vec![1289, 46_332, 6_648_682]);
    assert_eq!(calculator.group_sizes(i32::MAX), vec![1290, 46_340, 6_650_528]);
}

#[test]
fn parameters_out_of_range_are_refused() {
    let fine = || vec![tier(ratio(1, 10), ratio(3, 20), ratio(1, 2), 20)];
    assert!(XpCalculator::with_parameters(1000, 50, 500, halves(), fine()).is_some());
    assert!(XpCalculator::with_parameters(0, 0, 0, halves(), fine()).is_some());
    assert!(XpCalculator::with_parameters(i32::MAX - 500, i32::MAX, 500, halves(), fine()).is_some());

    assert!(XpCalculator::with_parameters(-1, 50, 500, halves(), fine()).is_none());
    assert!(XpCalculator::with_parameters(1000, -1, 500, halves(), fine()).is_none());
    assert!(XpCalculator::with_parameters(1000, 50, -1, halves(), fine()).is_none());
    assert!(XpCalculator::with_parameters(i32::MAX - 499, 50, 500, halves(), fine()).is_none());
    assert!(XpCalculator::with_parameters(1000, 50, 500, vec![ratio(1, 2); 9], fine()).is_none());
    assert!(XpCalculator::with_parameters(1000, 50, 500, vec![ratio(1, 2); 11], fine()).is_none());

    let mut zero_denominator = halves();
    zero_denominator[4] = ratio(0, 0);
    assert!(XpCalculator::with_parameters(1000, 50, 500, zero_denominator, fine()).is_none());
    let mut more_than_all = halves();
    more_than_all[9] = ratio(3, 2);
    assert!(XpCalculator::with_parameters(1000, 50, 500, more_than_all, fine()).is_none());

    let refused = [
        tier(ratio(2, 1), ratio(3, 20), ratio(1, 2), 20),
        tier(ratio(1, 0), ratio(3, 20), ratio(1, 2), 20),
        tier(ratio(1, 10), ratio(21, 20), ratio(1, 2), 20),
        tier(ratio(1, 10), ratio(3, 0), ratio(1, 2), 20),
        tier(ratio(1, 10), ratio(3, 20), ratio(3, 2), 20),
        tier(ratio(1, 10), ratio(3, 20), ratio(0, 0), 20),
        // powers beyond 128 bits
        tier(ratio(1, 10), ratio(1, 1), ratio(5, 5), 20),
        tier(ratio(1, 10), ratio(16, 16), ratio(4, 4), 20),
        tier(ratio(1, 10), ratio(25, 100), ratio(3, 10), 40),
        tier(ratio(1, 10), ratio(15, 100), ratio(5, 10), 20),
    ];
    for tier in refused {
        assert!(XpCalculator::with_parameters(1000, 50, 500, halves(), vec![fine()[0], tier]).is_none());
    }
    let accepted = [
        tier(ratio(0, 1), ratio(0, 7), ratio(0, 9), i32::MIN),
        tier(ratio(1, 1), ratio(1, 1), ratio(4, 4), i32::MAX),
        tier(ratio(1, 10), ratio(0, 16), ratio(5, 5), 20),
        tier(ratio(1, 10), ratio(1, 4), ratio(3, 10), 40),
    ];
    for tier in accepted {
        assert!(XpCalculator::with_parameters(1000, 50, 500, halves(), vec![tier]).is_some());
    }
}

#[test]
fn a_tier_as_wide_as_the_field() {
    let tiers = vec![
        tier(ratio(1, 4), ratio(1, 1), ratio(1, 1), 0),
        tier(ratio(1, 2), ratio(1, 1), ratio(1, 1), 0),
    ];
    let calculator = XpCalculator::with_parameters(1000, 50, 500, halves(), tiers).unwrap();
    assert_eq!(calculator.group_sizes(1), vec![1, 1]);
    assert_eq!(calculator.group_sizes(12), vec![12, 12]);
    assert_eq!(calculator.group_sizes(i32::MAX), vec![i32::MAX, i32::MAX]);
    assert_eq!(calculator.get_rank_xp_for_rank(11, 12).group.group_num, 1);
    assert_eq!(calculator.get_rank_xp_for_rank(12, 12).group.group_num, 1);
    assert_eq!(calculator.get_rank_xp_for_rank(34, 34).group.group_num, 1);
    let last = calculator.get_rank_xp_for_rank(i32::MAX, i32::MAX);
    assert_eq!(last.group.group_num, 1);
    assert_eq!(last.group.group_xp, 125);
    assert_eq!(last.rank_xp, 126);
}
