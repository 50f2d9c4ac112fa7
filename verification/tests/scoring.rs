use ranking::xp_calculator::{XpCalculator, NO_GROUP, TOP_RANKS};

const TOP_BONUS: [i32; 10] = [500, 400, 375, 350, 325, 300, 275, 250, 225, 200];

fn ceil_quotient(a: i64, b: i64) -> i32 {
    ((a + b - 1) / b) as i32
}

#[test]
fn first_of_two_earns_base_and_full_bonus() {
    let gain = XpCalculator::new().get_rank_xp_for_rank(1, 2);
    assert_eq!(gain.formula, 20);
    assert_eq!(gain.top10, 500);
    assert_eq!(gain.rank_xp, 520);
    assert_eq!(gain.group.group_num, -1);
    assert_eq!(gain.group.group_xp, 0);
}

#[test]
fn tenth_of_fifty_earns_last_top_bonus() {
    let gain = XpCalculator::new().get_rank_xp_for_rank(10, 50);
    assert_eq!(gain.formula, 17);
    assert_eq!(gain.top10, 200);
    assert_eq!(gain.rank_xp, 217);
    assert_eq!(gain.group.group_num, -1);
    assert_eq!(gain.group.group_xp, 0);
}

#[test]
fn eleventh_of_hundred_is_in_first_tier() {
    let calculator = XpCalculator::new();
    assert_eq!(calculator.group_sizes(100), vec![20, 30, 40]);
    let gain = calculator.get_rank_xp_for_rank(11, 100);
    assert_eq!(gain.group.group_xp, 50);
    assert_eq!(gain.formula, 17);
    assert_eq!(gain.rank_xp, 67);
    assert_eq!(gain.group.group_num, 1);
    assert_eq!(gain.top10, 0);
}

#[test]
fn rank_beyond_all_tiers_earns_base_points_only() {
    let calculator = XpCalculator::new();
    assert_eq!(calculator.group_sizes(200), vec![20, 30, 40]);
    for rank in [101, 102, 150, 200] {
        let gain = calculator.get_rank_xp_for_rank(rank, 200);
        assert_eq!(gain.group.group_num, -1);
        assert_eq!(gain.group.group_xp, 0);
        assert_eq!(gain.top10, 0);
        assert_eq!(gain.rank_xp, gain.formula);
        assert_eq!(gain.formula, ceil_quotient(1000, rank as i64 + 50));
    }
    assert_eq!(calculator.get_rank_xp_for_rank(150, 200).rank_xp, 5);
}

#[test]
fn tier_windows_on_a_small_field() {
    let calculator = XpCalculator::new();
    let expected = [
        (11, 1, 50, 67),
        (30, 1, 50, 63),
        (31, 2, 25, 38),
        (60, 2, 25, 35),
        (61, 3, 13, 23),
        (100, 3, 13, 20),
        (101, -1, 0, 7),
    ];
    for (rank, group_num, group_xp, rank_xp) in expected {
        let gain = calculator.get_rank_xp_for_rank(rank, 200);
        assert_eq!(gain.group.group_num, group_num);
        assert_eq!(gain.group.group_xp, group_xp);
        assert_eq!(gain.rank_xp, rank_xp);
        assert_eq!(gain.top10, 0);
    }
}

#[test]
fn leading_ranks_earn_their_share_and_no_tier() {
    let calculator = XpCalculator::new();
    for completions in [10, 11, 50, 101, 20_000, 1_000_000, i32::MAX] {
        for rank in 1..=TOP_RANKS {
            let gain = calculator.get_rank_xp_for_rank(rank, completions);
            assert_eq!(gain.group.group_num, NO_GROUP);
            assert_eq!(gain.group.group_xp, 0);
            assert_eq!(gain.top10, TOP_BONUS[(rank - 1) as usize]);
            assert_eq!(gain.rank_xp, gain.formula + gain.top10);
        }
    }
    for rank in 1..=9 {
        let gain = calculator.get_rank_xp_for_rank(rank, rank);
        assert_eq!(gain.top10, TOP_BONUS[(rank - 1) as usize]);
        assert_eq!(gain.group.group_num, NO_GROUP);
    }
}

#[test]
fn top_bonus_is_the_rounded_up_share() {
    let percentages = [1.0, 0.8, 0.75, 0.7, 0.65, 0.6, 0.55, 0.5, 0.45, 0.4];
    let calculator = XpCalculator::new();
    for rank in 1..=10 {
        let share = (percentages[rank - 1] * 500.0_f64).ceil() as i32;
        assert_eq!(calculator.get_rank_xp_for_rank(rank as i32, 10).top10, share);
    }
}

#[test]
fn trailing_ranks_earn_no_top_bonus() {
    let calculator = XpCalculator::new();
    for completions in [11, 100, 101, 5_000, 19_600, 300_000] {
        let mut rank = 11;
        while rank <= completions {
            let gain = calculator.get_rank_xp_for_rank(rank, completions);
            assert_eq!(gain.top10, 0);
            assert_eq!(gain.rank_xp, gain.formula + gain.group.group_xp);
            if gain.group.group_num == NO_GROUP {
                assert_eq!(gain.group.group_xp, 0);
            } else {
                assert!(gain.group.group_num >= 1 && gain.group.group_num <= 3);
                assert_eq!(gain.group.group_xp, [50, 25, 13][(gain.group.group_num - 1) as usize]);
            }
            rank += 1 + rank / 50;
        }
    }
}

#[test]
fn base_points_never_grow_with_the_rank() {
    let calculator = XpCalculator::new();
    let completions = 5_000;
    let mut previous = calculator.get_rank_xp_for_rank(1, completions).formula;
    for rank in 2..=completions {
        let formula = calculator.get_rank_xp_for_rank(rank, completions).formula;
        assert!(formula <= previous);
        previous = formula;
    }
    assert_eq!(previous, 1);
}

#[test]
fn base_points_are_the_ceiling_of_the_curve() {
    let calculator = XpCalculator::new();
    for (rank, points) in [(1, 20), (2, 20), (3, 19), (10, 17), (11, 17), (50, 10), (950, 1), (951, 1)] {
        assert_eq!(calculator.get_rank_xp_for_rank(rank, 1_000).formula, points);
    }
    for rank in 1..=2_000 {
        let float = (1000.0_f64 / (rank as f64 + 50.0)).ceil() as i32;
        assert_eq!(calculator.get_rank_xp_for_rank(rank, 2_000).formula, float);
    }
    let last = calculator.get_rank_xp_for_rank(i32::MAX, i32::MAX);
    assert_eq!(last.formula, 1);
    assert_eq!(last.rank_xp, 1);
}

#[test]
fn base_points_do_not_depend_on_the_field() {
    let calculator = XpCalculator::new();
    for rank in [1, 5, 10, 11, 40, 99] {
        let small = calculator.get_rank_xp_for_rank(rank, 100).formula;
        let large = calculator.get_rank_xp_for_rank(rank, 2_000_000).formula;
        assert_eq!(small, large);
    }
}

#[test]
fn scoring_twice_gives_the_same_award() {
    let calculator = XpCalculator::new();
    let other = XpCalculator::default();
    let copy = calculator.clone();
    for (rank, completions) in [(1, 2), (10, 50), (11, 100), (150, 200), (4_000, 1_000_000)] {
        let first = calculator.get_rank_xp_for_rank(rank, completions);
        let second = calculator.get_rank_xp_for_rank(rank, completions);
        assert_eq!(format!("{:?}", first), format!("{:?}", second));
        assert_eq!(
            format!("{:?}", first),
            format!("{:?}", other.get_rank_xp_for_rank(rank, completions))
        );
        assert_eq!(
            format!("{:?}", first),
            format!("{:?}", copy.get_rank_xp_for_rank(rank, completions))
        );
    }
}

#[test]
fn tier_sizes_grow_with_the_field() {
    let calculator = XpCalculator::new();
    assert_eq!(calculator.group_sizes(1), vec![20, 30, 40]);
    assert_eq!(calculator.group_sizes(2), vec![20, 30, 40]);
    assert_eq!(calculator.group_sizes(19_599), vec![20, 30, 40]);
    assert_eq!(calculator.group_sizes(19_600), vec![21, 30, 40]);
    assert_eq!(calculator.group_sizes(299_108), vec![82, 30, 40]);
    assert_eq!(calculator.group_sizes(299_109), vec![82, 31, 40]);
    assert_eq!(calculator.group_sizes(1_000_000), vec![150, 50, 40]);
    assert_eq!(calculator.group_sizes(24_144_200), vec![737, 179, 40]);
    assert_eq!(calculator.group_sizes(24_144_201), vec![737, 179, 41]);
    assert_eq!(calculator.group_sizes(i32::MAX), vec![6951, 1080, 157]);
}

#[test]
fn tier_sizes_are_exact_at_whole_powers() {
    let calculator = XpCalculator::new();
    // 0.25 * (6^10)^0.3 = 0.25 * 6^3 = 54 and 0.25 * (2^30)^0.3 = 0.25 * 2^9 = 128
    assert_eq!(calculator.group_sizes(60_466_176), vec![1166, 259, 54]);
    assert_eq!(calculator.group_sizes(60_466_175), vec![1166, 259, 53]);
    assert_eq!(calculator.group_sizes(1_073_741_824), vec![4915, 819, 128]);
    assert_eq!(calculator.group_sizes(1_073_741_823), vec![4915, 819, 127]);
    // 0.2 * (15^5)^0.4 = 0.2 * 15^2 = 45 and 0.15 * (400 * 49)^0.5 = 0.15 * 140 = 21
    assert_eq!(calculator.group_sizes(759_375)[1], 45);
    assert_eq!(calculator.group_sizes(759_374)[1], 44);
}

#[test]
fn tier_sizes_follow_the_scaled_power() {
    let scale = [0.15_f64, 0.2, 0.25];
    let exponent = [0.5_f64, 0.4, 0.3];
    let least = [20.0_f64, 30.0, 40.0];
    let calculator = XpCalculator::new();
    let mut fields: Vec<i32> = (1..=2_000).collect();
    let mut field = 2_000;
    while field < 5_000_000 {
        fields.push(field);
        field += 1 + field / 97;
    }
    for around in [19_600, 25_600, 299_109, 759_375, 1_000_000] {
        for field in around - 3..=around + 3 {
            fields.push(field);
        }
    }
    for field in fields {
        let sizes = calculator.group_sizes(field);
        assert_eq!(sizes.len(), 3);
        for tier in 0..3 {
            let float = (scale[tier] * (field as f64).powf(exponent[tier])).max(least[tier]) as i32;
            assert_eq!(sizes[tier], float);
        }
    }
}

#[test]
fn tiers_widen_on_a_large_field() {
    let calculator = XpCalculator::new();
    let completions = 1_000_000;
    // tiers of 150, 50 and 40 ranks behind the first ten
    let expected = [
        (11, 1),
        (160, 1),
        (161, 2),
        (210, 2),
        (211, 3),
        (250, 3),
        (251, -1),
        (1_000_000, -1),
    ];
    for (rank, group_num) in expected {
        assert_eq!(calculator.get_rank_xp_for_rank(rank, completions).group.group_num, group_num);
    }
}
