//! The scoring function: a rank on a leaderboard and the size of the field
//! give an XP award made of base points, a bonus for the leading ranks, and
//! a tier bonus for the ranks behind them.

use crate::arith::{
    ceil_div, ceil_div_i64, lemma_ceil_div_antitone, lemma_ceil_div_bounds,
    lemma_ceil_div_is_least, lemma_ceil_div_unique,
};
use crate::group_tier::{GroupTier, Ratio};
use vstd::arithmetic::power::{lemma1_pow, pow};
use vstd::prelude::*;

verus! {

/// The number of leading ranks that earn the top bonus.
pub const TOP_RANKS: i32 = 10;

/// The tier number recorded when no tier bonus was awarded.
pub const NO_GROUP: i32 = -1;

/// The tier bonus of one award.
#[derive(Debug, Clone, Copy)]
pub struct GroupXpGain {
    /// Points of the tier bonus; zero without a tier.
    pub group_xp: i32,
    /// The tier, counted from one; [`NO_GROUP`] without a tier.
    pub group_num: i32,
}

/// The award for one rank, with its components.
#[derive(Debug, Clone, Copy)]
pub struct RankXpGain {
    /// The whole award: the sum of the components.
    pub rank_xp: i32,
    /// The tier bonus.
    pub group: GroupXpGain,
    /// Base points.
    pub formula: i32,
    /// The bonus for a leading rank; zero behind them.
    pub top10: i32,
}

/// An award as mathematical integers.
pub struct XpBreakdown {
    pub total_xp: int,
    pub formula_points: int,
    pub top10_points: int,
    pub group_tier: int,
    pub group_points: int,
}

impl View for RankXpGain {
    type V = XpBreakdown;

    open spec fn view(&self) -> XpBreakdown {
        XpBreakdown {
            total_xp: self.rank_xp as int,
            formula_points: self.formula as int,
            top10_points: self.top10 as int,
            group_tier: self.group.group_num as int,
            group_points: self.group.group_xp as int,
        }
    }
}

/// The parameters of the scoring function.
pub struct ScoringConfig {
    /// Numerator of the base curve.
    pub formula_a: int,
    /// Offset added to the rank in the base curve's denominator.
    pub formula_b: int,
    /// The world-record point budget that the bonuses are shares of.
    pub wr_points: int,
    /// Share of the budget for each leading rank, best rank first.
    pub rank_percentages: Seq<Ratio>,
    /// The tiers behind the leading ranks, in order.
    pub group_tiers: Seq<GroupTier>,
}

impl ScoringConfig {
    /// The parameters are non-negative, every award fits a signed 32-bit
    /// word, there is a share for each leading rank, and every tier is
    /// valid.
    pub open spec fn valid(self) -> bool {
        &&& 0 <= self.formula_a
        &&& 0 <= self.formula_b <= i32::MAX
        &&& 0 <= self.wr_points
        &&& self.formula_a + self.wr_points <= i32::MAX
        &&& self.rank_percentages.len() == TOP_RANKS
        &&& forall|i: int|
            0 <= i < self.rank_percentages.len() ==> (#[trigger] self.rank_percentages[i]).proper()
        &&& self.group_tiers.len() < i32::MAX
        &&& forall|i: int|
            0 <= i < self.group_tiers.len() ==> (#[trigger] self.group_tiers[i]).valid()
    }

    /// Base points: `ceil(formula_a / (rank + formula_b))`.
    pub open spec fn formula_points(self, rank: int) -> int {
        ceil_div(self.formula_a, rank + self.formula_b)
    }

    /// A share of the budget, rounded up: `ceil(pct * wr_points)`.
    pub open spec fn share(self, pct: Ratio) -> int {
        ceil_div(pct.num * self.wr_points, pct.den as int)
    }

    /// The bonus of a leading rank.
    pub open spec fn top10_points(self, rank: int) -> int {
        self.share(self.rank_percentages[rank - 1])
    }

    /// The first rank of tier `i` (counted from zero) on a field of `n`:
    /// the tiers follow the leading ranks without gaps.  With `i` the number
    /// of tiers, the first rank beyond all of them.
    pub open spec fn tier_start(self, n: int, i: int) -> int
        decreases i,
    {
        if i <= 0 {
            TOP_RANKS + 1
        } else {
            self.tier_start(n, i - 1) + self.group_tiers[i - 1].size(n)
        }
    }

    /// The first tier, from tier `from` on, that ends behind `rank`; the
    /// number of tiers if there is none.
    pub open spec fn tier_from(self, rank: int, n: int, from: int) -> int
        decreases self.group_tiers.len() - from,
    {
        if from >= self.group_tiers.len() {
            self.group_tiers.len() as int
        } else if rank < self.tier_start(n, from + 1) {
            from
        } else {
            self.tier_from(rank, n, from + 1)
        }
    }

    /// The tier that holds `rank`; the number of tiers if none does.
    pub open spec fn tier_of(self, rank: int, n: int) -> int {
        self.tier_from(rank, n, 0)
    }

    /// The award for `rank` on a field of `n` competitors.
    pub open spec fn breakdown(self, rank: int, n: int) -> XpBreakdown {
        let formula = self.formula_points(rank);
        let tier = self.tier_of(rank, n);
        if rank <= TOP_RANKS {
            XpBreakdown {
                total_xp: formula + self.top10_points(rank),
                formula_points: formula,
                top10_points: self.top10_points(rank),
                group_tier: NO_GROUP as int,
                group_points: 0,
            }
        } else if tier < self.group_tiers.len() {
            XpBreakdown {
                total_xp: formula + self.share(self.group_tiers[tier].point_pct),
                formula_points: formula,
                top10_points: 0,
                group_tier: tier + 1,
                group_points: self.share(self.group_tiers[tier].point_pct),
            }
        } else {
            XpBreakdown {
                total_xp: formula,
                formula_points: formula,
                top10_points: 0,
                group_tier: NO_GROUP as int,
                group_points: 0,
            }
        }
    }

    /// Base points lie between zero and `formula_a`.
    pub proof fn lemma_formula_points_bounds(self, rank: int)
        requires
            self.valid(),
            rank >= 1,
        ensures
            0 <= self.formula_points(rank) <= self.formula_a,
    {
        lemma_ceil_div_bounds(self.formula_a, rank + self.formula_b);
    }

    /// A share of the budget lies between zero and the budget.
    pub proof fn lemma_share_bounds(self, pct: Ratio)
        requires
            self.wr_points >= 0,
            pct.proper(),
        ensures
            0 <= self.share(pct) <= self.wr_points,
    {
        let a = pct.num * self.wr_points;
        let d = pct.den as int;
        let w = self.wr_points;
        let s = self.share(pct);
        lemma_ceil_div_is_least(a, d);
        assert(0 <= s <= w) by (nonlinear_arith)
            requires
                a == pct.num * w,
                0 <= pct.num <= d,
                d > 0,
                w >= 0,
                s * d >= a,
                (s - 1) * d < a,
        ;
    }

    /// The tiers lie one behind the other: a later tier never starts before
    /// an earlier one.
    pub proof fn lemma_tier_start_monotone(self, n: int, i: int, j: int)
        requires
            self.valid(),
            n >= 1,
            0 <= i <= j <= self.group_tiers.len(),
        ensures
            TOP_RANKS + 1 <= self.tier_start(n, i) <= self.tier_start(n, j),
        decreases j,
    {
        if j > 0 {
            self.group_tiers[j - 1].lemma_size_bounds(n);
            if i < j {
                self.lemma_tier_start_monotone(n, i, j - 1);
            } else {
                self.lemma_tier_start_monotone(n, i - 1, j - 1);
            }
        }
    }

    proof fn lemma_tier_from_window(self, rank: int, n: int, from: int)
        requires
            self.valid(),
            n >= 1,
            0 <= from <= self.group_tiers.len(),
            self.tier_start(n, from) <= rank,
        ensures
            from <= self.tier_from(rank, n, from) <= self.group_tiers.len(),
            self.tier_start(n, self.tier_from(rank, n, from)) <= rank,
            self.tier_from(rank, n, from) < self.group_tiers.len() ==> rank < self.tier_start(
                n,
                self.tier_from(rank, n, from) + 1,
            ),
        decreases self.group_tiers.len() - from,
    {
        if from < self.group_tiers.len() && rank >= self.tier_start(n, from + 1) {
            self.lemma_tier_from_window(rank, n, from + 1);
        }
    }

    /// Behind the leading ranks, the tier that holds a rank is the one whose
    /// window of ranks contains it, and a rank is in no tier exactly when it
    /// lies beyond the last window.
    pub proof fn lemma_tier_of_window(self, rank: int, n: int)
        requires
            self.valid(),
            n >= 1,
            rank > TOP_RANKS,
        ensures
            0 <= self.tier_of(rank, n) <= self.group_tiers.len(),
            self.tier_start(n, self.tier_of(rank, n)) <= rank,
            self.tier_of(rank, n) < self.group_tiers.len() ==> rank < self.tier_start(
                n,
                self.tier_of(rank, n) + 1,
            ),
            forall|t: int|
                0 <= t < self.group_tiers.len() && self.tier_start(n, t) <= rank
                    < #[trigger] self.tier_start(n, t + 1) ==> self.tier_of(rank, n) == t,
    {
        self.lemma_tier_from_window(rank, n, 0);
        let found = self.tier_of(rank, n);
        assert forall|t: int|
            0 <= t < self.group_tiers.len() && self.tier_start(n, t) <= rank
                < #[trigger] self.tier_start(n, t + 1) implies found == t by {
            if found < t {
                self.lemma_tier_start_monotone(n, found + 1, t);
            } else if t < found {
                self.lemma_tier_start_monotone(n, t + 1, found);
            }
        }
    }

    /// Every component of an award is non-negative, the award is the sum of
    /// its components, and it fits a signed 32-bit word.
    pub proof fn lemma_breakdown_bounds(self, rank: int, n: int)
        requires
            self.valid(),
            1 <= rank <= n,
        ensures
            0 <= self.breakdown(rank, n).formula_points <= self.formula_a,
            0 <= self.breakdown(rank, n).top10_points <= self.wr_points,
            0 <= self.breakdown(rank, n).group_points <= self.wr_points,
            self.breakdown(rank, n).total_xp == self.breakdown(rank, n).formula_points
                + self.breakdown(rank, n).top10_points + self.breakdown(rank, n).group_points,
            0 <= self.breakdown(rank, n).total_xp <= self.formula_a + self.wr_points,
            self.breakdown(rank, n).total_xp <= i32::MAX,
    {
        self.lemma_formula_points_bounds(rank);
        if rank <= TOP_RANKS {
            self.lemma_share_bounds(self.rank_percentages[rank - 1]);
        } else {
            self.lemma_tier_of_window(rank, n);
            let tier = self.tier_of(rank, n);
            if tier < self.group_tiers.len() {
                self.lemma_share_bounds(self.group_tiers[tier].point_pct);
            }
        }
    }
}

impl ScoringConfig {
    /// A leading rank earns base points and its share of the budget,
    /// `ceil(rank_percentages[rank - 1] * wr_points)`, and never a tier
    /// bonus, whatever the size of the field.
    pub proof fn lemma_leading_rank_award(self, rank: int, n: int)
        requires
            self.valid(),
            1 <= rank <= TOP_RANKS,
            rank <= n,
        ensures
            self.breakdown(rank, n).group_tier == NO_GROUP,
            self.breakdown(rank, n).group_points == 0,
            self.breakdown(rank, n).top10_points == ceil_div(
                self.rank_percentages[rank - 1].num * self.wr_points,
                self.rank_percentages[rank - 1].den as int,
            ),
            self.breakdown(rank, n).total_xp == self.breakdown(rank, n).formula_points
                + self.breakdown(rank, n).top10_points,
    {
    }

    /// Behind the leading ranks there is no top bonus: the award is base
    /// points plus the tier bonus, which is zero where no tier holds the
    /// rank.
    pub proof fn lemma_trailing_rank_award(self, rank: int, n: int)
        requires
            self.valid(),
            TOP_RANKS < rank <= n,
        ensures
            self.breakdown(rank, n).top10_points == 0,
            self.breakdown(rank, n).total_xp == self.breakdown(rank, n).formula_points
                + self.breakdown(rank, n).group_points,
            self.breakdown(rank, n).group_points >= 0,
            self.breakdown(rank, n).group_tier == NO_GROUP ==> self.breakdown(
                rank,
                n,
            ).group_points == 0,
    {
        self.lemma_breakdown_bounds(rank, n);
        self.lemma_tier_of_window(rank, n);
    }

    /// Behind the leading ranks, the recorded tier is the one whose window
    /// `tier_start(t - 1) <= rank < tier_start(t)` holds the rank, with the
    /// share of that tier as the bonus.
    pub proof fn lemma_rank_in_tier(self, rank: int, n: int, t: int)
        requires
            self.valid(),
            TOP_RANKS < rank <= n,
            1 <= t <= self.group_tiers.len(),
            self.tier_start(n, t - 1) <= rank < self.tier_start(n, t),
        ensures
            self.breakdown(rank, n).group_tier == t,
            self.breakdown(rank, n).group_points == ceil_div(
                self.group_tiers[t - 1].point_pct.num * self.wr_points,
                self.group_tiers[t - 1].point_pct.den as int,
            ),
    {
        self.lemma_tier_of_window(rank, n);
        assert(self.tier_start(n, (t - 1) + 1) == self.tier_start(n, t));
    }

    /// A rank beyond the last tier earns base points only.
    pub proof fn lemma_rank_beyond_tiers(self, rank: int, n: int)
        requires
            self.valid(),
            TOP_RANKS < rank <= n,
            self.tier_start(n, self.group_tiers.len() as int) <= rank,
        ensures
            self.breakdown(rank, n).group_tier == NO_GROUP,
            self.breakdown(rank, n).group_points == 0,
            self.breakdown(rank, n).top10_points == 0,
            self.breakdown(rank, n).total_xp == self.breakdown(rank, n).formula_points,
    {
        self.lemma_tier_of_window(rank, n);
        let tier = self.tier_of(rank, n);
        if tier < self.group_tiers.len() {
            self.lemma_tier_start_monotone(n, tier + 1, self.group_tiers.len() as int);
        }
    }

    /// A recorded tier is a valid tier number, and no tier is recorded
    /// exactly when the rank is a leading one or lies beyond the last tier.
    pub proof fn lemma_group_tier_range(self, rank: int, n: int)
        requires
            self.valid(),
            1 <= rank <= n,
        ensures
            self.breakdown(rank, n).group_tier == NO_GROUP || 1 <= self.breakdown(
                rank,
                n,
            ).group_tier <= self.group_tiers.len(),
            self.breakdown(rank, n).group_tier == NO_GROUP <==> (rank <= TOP_RANKS
                || self.tier_start(n, self.group_tiers.len() as int) <= rank),
    {
        if rank > TOP_RANKS {
            self.lemma_tier_of_window(rank, n);
            let tier = self.tier_of(rank, n);
            if tier < self.group_tiers.len() {
                self.lemma_tier_start_monotone(n, tier + 1, self.group_tiers.len() as int);
            }
        }
    }

    /// The top bonus and the tier bonus exclude each other.
    pub proof fn lemma_bonuses_exclusive(self, rank: int, n: int)
        requires
            self.valid(),
            1 <= rank <= n,
        ensures
            self.breakdown(rank, n).top10_points == 0 || self.breakdown(rank, n).group_points
                == 0,
    {
    }

    /// Base points never grow as the rank gets worse, whatever the field.
    pub proof fn lemma_formula_points_monotone(self, better: int, worse: int, n: int)
        requires
            self.valid(),
            1 <= better <= worse <= n,
        ensures
            self.formula_points(worse) <= self.formula_points(better),
            self.breakdown(worse, n).formula_points <= self.breakdown(better, n).formula_points,
    {
        lemma_ceil_div_antitone(self.formula_a, better + self.formula_b, worse + self.formula_b);
    }

    /// Base points are the least number of points whose product with
    /// `rank + formula_b` reaches `formula_a`.
    pub proof fn lemma_formula_points_is_ceiling(self, rank: int, points: int)
        requires
            self.valid(),
            rank >= 1,
        ensures
            points == self.formula_points(rank) <==> (points - 1) * (rank + self.formula_b)
                < self.formula_a <= points * (rank + self.formula_b),
    {
        lemma_ceil_div_is_least(self.formula_a, rank + self.formula_b);
        if (points - 1) * (rank + self.formula_b) < self.formula_a <= points * (rank
            + self.formula_b) {
            lemma_ceil_div_unique(self.formula_a, rank + self.formula_b, points);
        }
    }
}

/// Scoring is a function of the parameters, the rank and the field alone:
/// two awards for the same input are the same value.
pub proof fn lemma_scoring_deterministic(
    first: RankXpGain,
    second: RankXpGain,
    config: ScoringConfig,
    rank: int,
    n: int,
)
    requires
        first@ == config.breakdown(rank, n),
        second@ == config.breakdown(rank, n),
    ensures
        first == second,
{
}

/// The parameters made of the given values.
pub open spec fn config_of(
    formula_a: i32,
    formula_b: i32,
    wr_points: i32,
    rank_percentages: Seq<Ratio>,
    group_tiers: Seq<GroupTier>,
) -> ScoringConfig {
    ScoringConfig {
        formula_a: formula_a as int,
        formula_b: formula_b as int,
        wr_points: wr_points as int,
        rank_percentages,
        group_tiers,
    }
}

/// The parameters in use: base curve `1000 / (rank + 50)`, a budget of 500
/// points, shares from 100% for the first rank down to 40% for the tenth,
/// and three tiers of 10%, 5% and 2.5% of the budget, sized
/// `0.15 * n^0.5`, `0.2 * n^0.4` and `0.25 * n^0.3` with at least 20, 30
/// and 40 ranks.
pub open spec fn default_config() -> ScoringConfig {
    ScoringConfig {
        formula_a: 1000,
        formula_b: 50,
        wr_points: 500,
        rank_percentages: seq![
            Ratio { num: 100, den: 100 },
            Ratio { num: 80, den: 100 },
            Ratio { num: 75, den: 100 },
            Ratio { num: 70, den: 100 },
            Ratio { num: 65, den: 100 },
            Ratio { num: 60, den: 100 },
            Ratio { num: 55, den: 100 },
            Ratio { num: 50, den: 100 },
            Ratio { num: 45, den: 100 },
            Ratio { num: 40, den: 100 },
        ],
        group_tiers: seq![
            GroupTier {
                point_pct: Ratio { num: 100, den: 1000 },
                scale_factor: Ratio { num: 3, den: 20 },
                exponent: Ratio { num: 1, den: 2 },
                min_size: 20,
            },
            GroupTier {
                point_pct: Ratio { num: 50, den: 1000 },
                scale_factor: Ratio { num: 1, den: 5 },
                exponent: Ratio { num: 2, den: 5 },
                min_size: 30,
            },
            GroupTier {
                point_pct: Ratio { num: 25, den: 1000 },
                scale_factor: Ratio { num: 1, den: 4 },
                exponent: Ratio { num: 3, den: 10 },
                min_size: 40,
            },
        ],
    }
}

/// The parameters in use are valid.
pub proof fn lemma_default_config_valid()
    ensures
        default_config().valid(),
{
    let c = default_config();
    let max = i32::MAX as int;
    assert(pow(3, 2) == 9 && pow(max, 1) == max && pow(max, 2) == max * max && pow(max, 3) == max
        * (max * max)) by {
        reveal_with_fuel(pow, 4);
    }
    lemma1_pow(5);
    lemma1_pow(10);
    assert(c.group_tiers[0].valid());
    assert(c.group_tiers[1].valid());
    assert(c.group_tiers[2].valid());
}

/// With the parameters in use, the leading ranks earn 500, 400, 375, 350,
/// 325, 300, 275, 250, 225 and 200 points of top bonus.
pub proof fn lemma_default_top_bonus(rank: int)
    requires
        1 <= rank <= TOP_RANKS,
    ensures
        default_config().top10_points(rank) == seq![
            500int,
            400,
            375,
            350,
            325,
            300,
            275,
            250,
            225,
            200,
        ][rank - 1],
{
}

/// With the parameters in use, the three tiers award 50, 25 and 13 points.
pub proof fn lemma_default_group_bonus()
    ensures
        default_config().share(default_config().group_tiers[0].point_pct) == 50,
        default_config().share(default_config().group_tiers[1].point_pct) == 25,
        default_config().share(default_config().group_tiers[2].point_pct) == 13,
{
}

/// With the parameters in use, on a field of fewer than 19600 competitors
/// every tier has its least size: the tiers are the ranks 11 to 30, 31 to 60
/// and 61 to 100.
pub proof fn lemma_default_small_field_tiers(n: int)
    requires
        1 <= n < 19600,
    ensures
        default_config().tier_start(n, 0) == 11,
        default_config().tier_start(n, 1) == 31,
        default_config().tier_start(n, 2) == 61,
        default_config().tier_start(n, 3) == 101,
{
    let c = default_config();
    lemma_default_config_valid();
    let t0 = c.group_tiers[0];
    let t1 = c.group_tiers[1];
    let t2 = c.group_tiers[2];
    assert(pow(3, 2) == 9 && pow(n, 1) == n && pow(n, 2) == n * n && pow(n, 3) == n * (n * n)
        && pow(420, 2) == 176400 && pow(155, 5) == 89466096875 && pow(164, 10)
        == 14074678408802364030976) by {
        reveal_with_fuel(pow, 11);
    }
    lemma1_pow(5);
    lemma1_pow(10);
    assert(n * n < 384160000 && n * (n * n) < 7529536000000) by (nonlinear_arith)
        requires
            1 <= n < 19600,
    ;
    assert(21 * 20 == 420 && 31 * 5 == 155 && 41 * 4 == 164);
    assert(!t0.reaches(n, 21));
    assert(!t1.reaches(n, 31));
    assert(!t2.reaches(n, 41));
    t0.lemma_size_at_least(n, 21);
    t1.lemma_size_at_least(n, 31);
    t2.lemma_size_at_least(n, 41);
    t0.lemma_size_bounds(n);
    t1.lemma_size_bounds(n);
    t2.lemma_size_bounds(n);
    reveal_with_fuel(ScoringConfig::tier_start, 4);
}

/// The scoring function with its parameters.
pub struct XpCalculator {
    formula_a: i32,
    formula_b: i32,
    wr_points: i32,
    rank_percentages: Vec<Ratio>,
    group_tiers: Vec<GroupTier>,
}

impl View for XpCalculator {
    type V = ScoringConfig;

    closed spec fn view(&self) -> ScoringConfig {
        ScoringConfig {
            formula_a: self.formula_a as int,
            formula_b: self.formula_b as int,
            wr_points: self.wr_points as int,
            rank_percentages: self.rank_percentages@,
            group_tiers: self.group_tiers@,
        }
    }
}

impl Default for XpCalculator {
    fn default() -> (calculator: Self)
        ensures
            calculator@ == default_config(),
    {
        let rank_percentages: Vec<Ratio> = vec![
            Ratio { num: 100, den: 100 },
            Ratio { num: 80, den: 100 },
            Ratio { num: 75, den: 100 },
            Ratio { num: 70, den: 100 },
            Ratio { num: 65, den: 100 },
            Ratio { num: 60, den: 100 },
            Ratio { num: 55, den: 100 },
            Ratio { num: 50, den: 100 },
            Ratio { num: 45, den: 100 },
            Ratio { num: 40, den: 100 },
        ];
        let group_tiers: Vec<GroupTier> = vec![
            GroupTier {
                point_pct: Ratio { num: 100, den: 1000 },
                scale_factor: Ratio { num: 3, den: 20 },
                exponent: Ratio { num: 1, den: 2 },
                min_size: 20,
            },
            GroupTier {
                point_pct: Ratio { num: 50, den: 1000 },
                scale_factor: Ratio { num: 1, den: 5 },
                exponent: Ratio { num: 2, den: 5 },
                min_size: 30,
            },
            GroupTier {
                point_pct: Ratio { num: 25, den: 1000 },
                scale_factor: Ratio { num: 1, den: 4 },
                exponent: Ratio { num: 3, den: 10 },
                min_size: 40,
            },
        ];
        proof {
            lemma_default_config_valid();
            assert(rank_percentages@ =~= default_config().rank_percentages);
            assert(group_tiers@ =~= default_config().group_tiers);
        }
        XpCalculator { formula_a: 1000, formula_b: 50, wr_points: 500, rank_percentages, group_tiers }
    }
}

impl Clone for XpCalculator {
    fn clone(&self) -> (calculator: Self)
        ensures
            calculator@ == self@,
    {
        proof {
            use_type_invariant(self);
        }
        let mut rank_percentages: Vec<Ratio> = Vec::new();
        let mut i: usize = 0;
        while i < self.rank_percentages.len()
            invariant
                i <= self.rank_percentages.len(),
                rank_percentages@ == self.rank_percentages@.take(i as int),
            decreases self.rank_percentages.len() - i,
        {
            rank_percentages.push(self.rank_percentages[i]);
            i = i + 1;
            assert(rank_percentages@ =~= self.rank_percentages@.take(i as int));
        }
        let mut group_tiers: Vec<GroupTier> = Vec::new();
        let mut j: usize = 0;
        while j < self.group_tiers.len()
            invariant
                j <= self.group_tiers.len(),
                group_tiers@ == self.group_tiers@.take(j as int),
            decreases self.group_tiers.len() - j,
        {
            group_tiers.push(self.group_tiers[j]);
            j = j + 1;
            assert(group_tiers@ =~= self.group_tiers@.take(j as int));
        }
        assert(rank_percentages@ =~= self.rank_percentages@);
        assert(group_tiers@ =~= self.group_tiers@);
        XpCalculator {
            formula_a: self.formula_a,
            formula_b: self.formula_b,
            wr_points: self.wr_points,
            rank_percentages,
            group_tiers,
        }
    }
}

impl XpCalculator {
    /// Holds of every calculator: its parameters are valid.
    #[verifier::type_invariant]
    pub open spec fn well_formed(self) -> bool {
        self@.valid()
    }

    /// The scoring function with parameters of the caller's choice, where
    /// they are valid; nothing where they are not.
    pub fn with_parameters(
        formula_a: i32,
        formula_b: i32,
        wr_points: i32,
        rank_percentages: Vec<Ratio>,
        group_tiers: Vec<GroupTier>,
    ) -> (calculator: Option<Self>)
        ensures
            calculator is Some <==> config_of(
                formula_a,
                formula_b,
                wr_points,
                rank_percentages@,
                group_tiers@,
            ).valid(),
            calculator matches Some(made) ==> made@ == config_of(
                formula_a,
                formula_b,
                wr_points,
                rank_percentages@,
                group_tiers@,
            ),
    {
        if formula_a < 0 || formula_b < 0 || wr_points < 0 || formula_a > i32::MAX - wr_points {
            return None;
        }
        if rank_percentages.len() != TOP_RANKS as usize || group_tiers.len() >= i32::MAX as usize {
            return None;
        }
        let mut i: usize = 0;
        while i < rank_percentages.len()
            invariant
                i <= rank_percentages.len(),
                forall|j: int| 0 <= j < i ==> (#[trigger] rank_percentages@[j]).proper(),
            decreases rank_percentages.len() - i,
        {
            if !rank_percentages[i].is_proper() {
                return None;
            }
            i = i + 1;
        }
        let mut t: usize = 0;
        while t < group_tiers.len()
            invariant
                t <= group_tiers.len(),
                forall|j: int| 0 <= j < t ==> (#[trigger] group_tiers@[j]).valid(),
            decreases group_tiers.len() - t,
        {
            if !group_tiers[t].is_valid() {
                return None;
            }
            t = t + 1;
        }
        Some(XpCalculator { formula_a, formula_b, wr_points, rank_percentages, group_tiers })
    }

    /// The scoring function with the parameters in use.
    pub fn new() -> (calculator: Self)
        ensures
            calculator@ == default_config(),
    {
        Self::default()
    }

    /// `ceil(pct * wr_points)`.
    fn share_of(&self, pct: Ratio) -> (points: i32)
        requires
            pct.proper(),
        ensures
            points == self@.share(pct),
    {
        proof {
            use_type_invariant(self);
            self@.lemma_share_bounds(pct);
            let num = pct.num as int;
            let w = self.wr_points as int;
            assert(0 <= num * w <= 0x7fff_ffff_ffff_ffff) by (nonlinear_arith)
                requires
                    0 <= num <= 0xffff_ffff,
                    0 <= w <= 0x7fff_ffff,
            ;
        }
        let points: i64 = ceil_div_i64(pct.num as i64 * self.wr_points as i64, pct.den as i64);
        points as i32
    }

    /// The sizes of the tiers on a field of `completions` competitors, in
    /// the order of the tiers.
    pub fn group_sizes(&self, completions: i32) -> (sizes: Vec<i32>)
        requires
            completions >= 1,
        ensures
            sizes@.len() == self@.group_tiers.len(),
            forall|i: int|
                0 <= i < sizes@.len() ==> sizes@[i] == (#[trigger] self@.group_tiers[i]).size(
                    completions as int,
                ),
    {
        proof {
            use_type_invariant(self);
        }
        let mut sizes: Vec<i32> = Vec::new();
        let mut i: usize = 0;
        while i < self.group_tiers.len()
            invariant
                self@.valid(),
                completions >= 1,
                i <= self.group_tiers.len(),
                sizes@.len() == i,
                forall|j: int|
                    0 <= j < i ==> sizes@[j] == (#[trigger] self@.group_tiers[j]).size(
                        completions as int,
                    ),
            decreases self.group_tiers.len() - i,
        {
            let size: i32 = self.group_tiers[i].size_for(completions);
            sizes.push(size);
            i = i + 1;
        }
        sizes
    }

    /// The award for `rank` on a leaderboard of `completions` competitors.
    pub fn get_rank_xp_for_rank(&self, rank: i32, completions: i32) -> (gain: RankXpGain)
        requires
            1 <= rank <= completions,
        ensures
            gain@ == self@.breakdown(rank as int, completions as int),
    {
        let sizes: Vec<i32> = if rank <= TOP_RANKS {
            Vec::new()
        } else {
            self.group_sizes(completions)
        };
        self.rank_xp_within(rank, completions, &sizes)
    }

    /// The award for `rank`, with the sizes of the tiers at hand.  The
    /// sizes are read only behind the leading ranks.
    pub(crate) fn rank_xp_within(&self, rank: i32, completions: i32, sizes: &Vec<i32>) -> (gain:
        RankXpGain)
        requires
            1 <= rank <= completions,
            rank > TOP_RANKS ==> {
                &&& sizes@.len() == self@.group_tiers.len()
                &&& forall|i: int|
                    0 <= i < sizes@.len() ==> sizes@[i] == (#[trigger] self@.group_tiers[i]).size(
                        completions as int,
                    )
            },
        ensures
            gain@ == self@.breakdown(rank as int, completions as int),
    {
        let ghost c = self@;
        let ghost n = completions as int;
        proof {
            use_type_invariant(self);
            c.lemma_breakdown_bounds(rank as int, n);
        }
        let formula: i32 = ceil_div_i64(
            self.formula_a as i64,
            rank as i64 + self.formula_b as i64,
        ) as i32;
        if rank <= TOP_RANKS {
            let top10: i32 = self.share_of(self.rank_percentages[(rank - 1) as usize]);
            return RankXpGain {
                rank_xp: formula + top10,
                group: GroupXpGain { group_xp: 0, group_num: NO_GROUP },
                formula,
                top10,
            };
        }
        let mut rank_offset: i64 = TOP_RANKS as i64 + 1;
        let mut i: usize = 0;
        while i < sizes.len()
            invariant
                c == self@,
                c.valid(),
                n == completions as int,
                TOP_RANKS < rank <= completions,
                i <= sizes@.len() == c.group_tiers.len(),
                forall|j: int|
                    0 <= j < sizes@.len() ==> sizes@[j] == (#[trigger] c.group_tiers[j]).size(n),
                rank_offset == c.tier_start(n, i as int),
                rank_offset <= rank,
                c.tier_of(rank as int, n) == c.tier_from(rank as int, n, i as int),
                formula == c.formula_points(rank as int),
                c.breakdown(rank as int, n).total_xp <= i32::MAX,
            decreases sizes@.len() - i,
        {
            proof {
                c.group_tiers[i as int].lemma_size_bounds(n);
                assert(c.tier_start(n, i + 1) == rank_offset + sizes@[i as int]);
            }
            if (rank as i64) < rank_offset + sizes[i] as i64 {
                let group_xp: i32 = self.share_of(self.group_tiers[i].point_pct);
                return RankXpGain {
                    rank_xp: formula + group_xp,
                    group: GroupXpGain { group_xp, group_num: (i + 1) as i32 },
                    formula,
                    top10: 0,
                };
            }
            rank_offset = rank_offset + sizes[i] as i64;
            i = i + 1;
        }
        RankXpGain {
            rank_xp: formula,
            group: GroupXpGain { group_xp: 0, group_num: NO_GROUP },
            formula,
            top10: 0,
        }
    }
}

} // verus!
