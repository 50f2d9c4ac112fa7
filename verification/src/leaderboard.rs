//! Folding leaderboards into XP totals per game mode and competitor.
//!
//! Every position of every contested leaderboard earns an award; the total
//! of a competitor under a game mode is the sum of the awards earned under
//! it.

use crate::xp_calculator::{ScoringConfig, XpCalculator};
use std::collections::HashMap;
use vstd::prelude::*;

verus! {

/// One ranked competition: the competitors in the order of their ranks, best
/// first, under a game mode.
#[derive(Debug, Clone)]
pub struct LeaderboardGroup {
    pub gamemode: i16,
    pub user_ids: Vec<i32>,
}

/// The XP that one position of one leaderboard earns.
pub struct Award {
    pub gamemode: i16,
    pub user_id: i32,
    pub xp: int,
}

impl Award {
    /// The award went to `user_id` under `gamemode`.
    pub open spec fn is_for(self, gamemode: i16, user_id: i32) -> bool {
        self.gamemode == gamemode && self.user_id == user_id
    }
}

/// The awards of one leaderboard, by position: none for an uncontested
/// leaderboard of fewer than two competitors, else the award for rank
/// `p + 1` on a field of the leaderboard's length to the competitor at
/// position `p`.
pub open spec fn group_awards(config: ScoringConfig, gamemode: i16, user_ids: Seq<i32>) -> Seq<
    Award,
> {
    if user_ids.len() < 2 {
        Seq::empty()
    } else {
        Seq::new(
            user_ids.len(),
            |p: int|
                Award {
                    gamemode,
                    user_id: user_ids[p],
                    xp: config.breakdown(p + 1, user_ids.len() as int).total_xp,
                },
        )
    }
}

/// The awards of a run, leaderboard after leaderboard.
pub open spec fn all_awards(config: ScoringConfig, groups: Seq<LeaderboardGroup>) -> Seq<Award>
    decreases groups.len(),
{
    if groups.len() == 0 {
        Seq::empty()
    } else {
        all_awards(config, groups.drop_last()) + group_awards(
            config,
            groups.last().gamemode,
            groups.last().user_ids@,
        )
    }
}

/// The sum of the awards that went to `user_id` under `gamemode`.
pub open spec fn total_for(awards: Seq<Award>, gamemode: i16, user_id: i32) -> int
    decreases awards.len(),
{
    if awards.len() == 0 {
        0
    } else if awards.last().is_for(gamemode, user_id) {
        total_for(awards.drop_last(), gamemode, user_id) + awards.last().xp
    } else {
        total_for(awards.drop_last(), gamemode, user_id)
    }
}

/// Some award went to `user_id` under `gamemode`.
pub open spec fn awarded(awards: Seq<Award>, gamemode: i16, user_id: i32) -> bool {
    exists|i: int| 0 <= i < awards.len() && (#[trigger] awards[i]).is_for(gamemode, user_id)
}

/// The totals of a run: an entry for each game mode and competitor that
/// earned an award, holding the sum of those awards.
pub open spec fn tally(awards: Seq<Award>) -> Map<(i16, i32), int> {
    Map::new(
        |key: (i16, i32)| awarded(awards, key.0, key.1),
        |key: (i16, i32)| total_for(awards, key.0, key.1),
    )
}

/// What a competitor has under a game mode so far: zero without an entry.
pub open spec fn total_so_far(totals: Map<(i16, i32), int>, key: (i16, i32)) -> int {
    if totals.contains_key(key) {
        totals[key]
    } else {
        0
    }
}

/// The game modes and competitors of a run, each once, in the order in
/// which they first earned an award.
pub open spec fn first_awarded(awards: Seq<Award>) -> Seq<(i16, i32)>
    decreases awards.len(),
{
    if awards.len() == 0 {
        Seq::empty()
    } else if awarded(awards.drop_last(), awards.last().gamemode, awards.last().user_id) {
        first_awarded(awards.drop_last())
    } else {
        first_awarded(awards.drop_last()).push((awards.last().gamemode, awards.last().user_id))
    }
}

/// No award is negative.
pub open spec fn non_negative(awards: Seq<Award>) -> bool {
    forall|i: int| 0 <= i < awards.len() ==> (#[trigger] awards[i]).xp >= 0
}

/// Some total exceeds what a signed 32-bit word holds.
pub open spec fn overflows(awards: Seq<Award>) -> bool {
    exists|gamemode: i16, user_id: i32| #[trigger]
        total_for(awards, gamemode, user_id) > i32::MAX
}

/// Totals add up over runs put one after the other.
pub proof fn lemma_total_for_concat(
    first: Seq<Award>,
    second: Seq<Award>,
    gamemode: i16,
    user_id: i32,
)
    ensures
        total_for(first + second, gamemode, user_id) == total_for(first, gamemode, user_id)
            + total_for(second, gamemode, user_id),
    decreases second.len(),
{
    if second.len() == 0 {
        assert(first + second =~= first);
    } else {
        assert((first + second).drop_last() =~= first + second.drop_last());
        assert((first + second).last() == second.last());
        lemma_total_for_concat(first, second.drop_last(), gamemode, user_id);
    }
}

/// Without an award there is no total; with non-negative awards no total
/// is negative.
pub proof fn lemma_total_for_bounds(awards: Seq<Award>, gamemode: i16, user_id: i32)
    ensures
        !awarded(awards, gamemode, user_id) ==> total_for(awards, gamemode, user_id) == 0,
        non_negative(awards) ==> total_for(awards, gamemode, user_id) >= 0,
    decreases awards.len(),
{
    if awards.len() > 0 {
        let rest = awards.drop_last();
        lemma_total_for_bounds(rest, gamemode, user_id);
        if !awarded(awards, gamemode, user_id) {
            assert(!awards[awards.len() - 1].is_for(gamemode, user_id));
            if awarded(rest, gamemode, user_id) {
                let i = choose|i: int|
                    0 <= i < rest.len() && (#[trigger] rest[i]).is_for(gamemode, user_id);
                assert(awards[i].is_for(gamemode, user_id));
            }
        }
        if non_negative(awards) {
            assert(awards[awards.len() - 1].xp >= 0);
            assert forall|i: int| 0 <= i < rest.len() implies (#[trigger] rest[i]).xp >= 0 by {
                assert(awards[i].xp >= 0);
            }
        }
    }
}

/// Where exactly one award went to a competitor under a game mode, that
/// award is the total.
pub proof fn lemma_total_for_single(awards: Seq<Award>, at: int, gamemode: i16, user_id: i32)
    requires
        0 <= at < awards.len(),
        awards[at].is_for(gamemode, user_id),
        forall|i: int|
            0 <= i < awards.len() && i != at ==> !(#[trigger] awards[i]).is_for(gamemode, user_id),
    ensures
        total_for(awards, gamemode, user_id) == awards[at].xp,
    decreases awards.len(),
{
    let rest = awards.drop_last();
    if at == awards.len() - 1 {
        assert(!awarded(rest, gamemode, user_id)) by {
            if awarded(rest, gamemode, user_id) {
                let i = choose|i: int|
                    0 <= i < rest.len() && (#[trigger] rest[i]).is_for(gamemode, user_id);
                assert(awards[i].is_for(gamemode, user_id));
            }
        }
        lemma_total_for_bounds(rest, gamemode, user_id);
    } else {
        assert(!awards[awards.len() - 1].is_for(gamemode, user_id));
        assert(rest[at] == awards[at]);
        assert forall|i: int| 0 <= i < rest.len() && i != at implies !(#[trigger] rest[i]).is_for(
            gamemode,
            user_id,
        ) by {
            assert(rest[i] == awards[i]);
        }
        lemma_total_for_single(rest, at, gamemode, user_id);
    }
}

/// One more award adds to the entry of its competitor, which starts from
/// zero where there was none, and leaves every other entry as it was.
pub proof fn lemma_tally_push(awards: Seq<Award>, award: Award)
    ensures
        tally(awards.push(award)) == tally(awards).insert(
            (award.gamemode, award.user_id),
            total_for(awards, award.gamemode, award.user_id) + award.xp,
        ),
        tally(awards).contains_key((award.gamemode, award.user_id)) ==> tally(awards)[(
            award.gamemode,
            award.user_id,
        )] == total_for(awards, award.gamemode, award.user_id),
        !tally(awards).contains_key((award.gamemode, award.user_id)) ==> total_for(
            awards,
            award.gamemode,
            award.user_id,
        ) == 0,
{
    let more = awards.push(award);
    let key = (award.gamemode, award.user_id);
    let expected = tally(awards).insert(
        key,
        total_for(awards, award.gamemode, award.user_id) + award.xp,
    );
    assert(more.drop_last() =~= awards);
    assert(more.last() == award);
    lemma_total_for_bounds(awards, award.gamemode, award.user_id);
    assert forall|k: (i16, i32)| tally(more).contains_key(k) <==> expected.contains_key(k) by {
        if awarded(more, k.0, k.1) {
            let i = choose|i: int| 0 <= i < more.len() && (#[trigger] more[i]).is_for(k.0, k.1);
            if i < awards.len() {
                assert(awards[i].is_for(k.0, k.1));
            }
        }
        if awarded(awards, k.0, k.1) {
            let i = choose|i: int|
                0 <= i < awards.len() && (#[trigger] awards[i]).is_for(k.0, k.1);
            assert(more[i].is_for(k.0, k.1));
        }
        if k == key {
            assert(more[awards.len() as int].is_for(k.0, k.1));
        }
    }
    assert(tally(more) =~= expected);
}

/// The awards of leaderboards put one after the other are the awards of
/// the parts, one after the other.
pub proof fn lemma_all_awards_concat(
    config: ScoringConfig,
    first: Seq<LeaderboardGroup>,
    second: Seq<LeaderboardGroup>,
)
    ensures
        all_awards(config, first + second) == all_awards(config, first) + all_awards(
            config,
            second,
        ),
    decreases second.len(),
{
    if second.len() == 0 {
        assert(first + second =~= first);
        assert(all_awards(config, first) + Seq::<Award>::empty() =~= all_awards(config, first));
    } else {
        assert((first + second).drop_last() =~= first + second.drop_last());
        assert((first + second).last() == second.last());
        lemma_all_awards_concat(config, first, second.drop_last());
        let last = group_awards(config, second.last().gamemode, second.last().user_ids@);
        assert((all_awards(config, first) + all_awards(config, second.drop_last())) + last =~= all_awards(
            config,
            first,
        ) + (all_awards(config, second.drop_last()) + last));
    }
}

/// The awards of one leaderboard are non-negative.
pub proof fn lemma_group_awards_non_negative(
    config: ScoringConfig,
    gamemode: i16,
    user_ids: Seq<i32>,
)
    requires
        config.valid(),
    ensures
        non_negative(group_awards(config, gamemode, user_ids)),
{
    let awards = group_awards(config, gamemode, user_ids);
    assert forall|i: int| 0 <= i < awards.len() implies (#[trigger] awards[i]).xp >= 0 by {
        config.lemma_breakdown_bounds(i + 1, user_ids.len() as int);
    }
}

/// The awards of a run are non-negative.
pub proof fn lemma_all_awards_non_negative(config: ScoringConfig, groups: Seq<LeaderboardGroup>)
    requires
        config.valid(),
    ensures
        non_negative(all_awards(config, groups)),
    decreases groups.len(),
{
    if groups.len() > 0 {
        lemma_all_awards_non_negative(config, groups.drop_last());
        lemma_group_awards_non_negative(config, groups.last().gamemode, groups.last().user_ids@);
    }
}

/// The entry of a competitor in the totals of a run is the sum of the
/// awards that went to that competitor; without an award there is no entry.
pub proof fn lemma_tally_entry(awards: Seq<Award>, gamemode: i16, user_id: i32)
    ensures
        tally(awards).contains_key((gamemode, user_id)) <==> awarded(awards, gamemode, user_id),
        total_so_far(tally(awards), (gamemode, user_id)) == total_for(awards, gamemode, user_id),
{
    lemma_total_for_bounds(awards, gamemode, user_id);
}

/// Some award of the two runs went to a competitor exactly when some award
/// of one of them did.
pub proof fn lemma_awarded_concat(
    first: Seq<Award>,
    second: Seq<Award>,
    gamemode: i16,
    user_id: i32,
)
    ensures
        awarded(first + second, gamemode, user_id) <==> awarded(first, gamemode, user_id)
            || awarded(second, gamemode, user_id),
{
    let both = first + second;
    if awarded(both, gamemode, user_id) {
        let i = choose|i: int| 0 <= i < both.len() && (#[trigger] both[i]).is_for(gamemode, user_id);
        if i < first.len() {
            assert(first[i].is_for(gamemode, user_id));
        } else {
            assert(second[i - first.len()].is_for(gamemode, user_id));
        }
    }
    if awarded(first, gamemode, user_id) {
        let i = choose|i: int|
            0 <= i < first.len() && (#[trigger] first[i]).is_for(gamemode, user_id);
        assert(both[i].is_for(gamemode, user_id));
    }
    if awarded(second, gamemode, user_id) {
        let i = choose|i: int|
            0 <= i < second.len() && (#[trigger] second[i]).is_for(gamemode, user_id);
        assert(both[i + first.len()].is_for(gamemode, user_id));
    }
}

/// A leaderboard of fewer than two competitors contributes nothing: the
/// totals of a run are the same with and without it, wherever it stands,
/// and a run of that leaderboard alone has no entry.
pub proof fn lemma_uncontested_group_awards_nothing(
    config: ScoringConfig,
    before: Seq<LeaderboardGroup>,
    group: LeaderboardGroup,
    after: Seq<LeaderboardGroup>,
)
    requires
        group.user_ids@.len() < 2,
    ensures
        all_awards(config, seq![group]) == Seq::<Award>::empty(),
        tally(all_awards(config, seq![group])) == Map::<(i16, i32), int>::empty(),
        all_awards(config, before.push(group) + after) == all_awards(config, before + after),
        tally(all_awards(config, before.push(group) + after)) == tally(
            all_awards(config, before + after),
        ),
{
    let alone = seq![group];
    assert(alone.drop_last() =~= Seq::<LeaderboardGroup>::empty());
    assert(alone.last() == group);
    assert(all_awards(config, alone.drop_last()) =~= Seq::<Award>::empty());
    assert(all_awards(config, alone) =~= Seq::<Award>::empty());
    assert(tally(Seq::<Award>::empty()) =~= Map::<(i16, i32), int>::empty());
    assert(before.push(group) =~= before + alone);
    lemma_all_awards_concat(config, before, alone);
    lemma_all_awards_concat(config, before + alone, after);
    lemma_all_awards_concat(config, before, after);
    assert(all_awards(config, before) + Seq::<Award>::empty() =~= all_awards(config, before));
}

/// What a competitor earns under a game mode over two runs is the sum of
/// what the competitor earns in each, and the order of the runs does not
/// matter.
pub proof fn lemma_totals_add_up(
    config: ScoringConfig,
    first: Seq<LeaderboardGroup>,
    second: Seq<LeaderboardGroup>,
    gamemode: i16,
    user_id: i32,
)
    ensures
        total_so_far(tally(all_awards(config, first + second)), (gamemode, user_id))
            == total_so_far(tally(all_awards(config, first)), (gamemode, user_id)) + total_so_far(
            tally(all_awards(config, second)),
            (gamemode, user_id),
        ),
        tally(all_awards(config, first + second)).contains_key((gamemode, user_id)) <==> tally(
            all_awards(config, first),
        ).contains_key((gamemode, user_id)) || tally(all_awards(config, second)).contains_key(
            (gamemode, user_id),
        ),
        total_so_far(tally(all_awards(config, first + second)), (gamemode, user_id))
            == total_so_far(tally(all_awards(config, second + first)), (gamemode, user_id)),
{
    let a = all_awards(config, first);
    let b = all_awards(config, second);
    lemma_all_awards_concat(config, first, second);
    lemma_all_awards_concat(config, second, first);
    lemma_total_for_concat(a, b, gamemode, user_id);
    lemma_total_for_concat(b, a, gamemode, user_id);
    lemma_awarded_concat(a, b, gamemode, user_id);
    lemma_tally_entry(a, gamemode, user_id);
    lemma_tally_entry(b, gamemode, user_id);
    lemma_tally_entry(a + b, gamemode, user_id);
    lemma_tally_entry(b + a, gamemode, user_id);
}

/// The totals of a run do not depend on the order of its leaderboards.
pub proof fn lemma_totals_ignore_order(
    config: ScoringConfig,
    first: Seq<LeaderboardGroup>,
    second: Seq<LeaderboardGroup>,
)
    ensures
        tally(all_awards(config, first + second)) == tally(all_awards(config, second + first)),
{
    let a = all_awards(config, first);
    let b = all_awards(config, second);
    lemma_all_awards_concat(config, first, second);
    lemma_all_awards_concat(config, second, first);
    assert forall|key: (i16, i32)| #[trigger]
        tally(a + b).dom().contains(key) == tally(b + a).dom().contains(key) by {
        lemma_awarded_concat(a, b, key.0, key.1);
        lemma_awarded_concat(b, a, key.0, key.1);
    }
    assert forall|key: (i16, i32)| #[trigger]
        tally(a + b).dom().contains(key) implies tally(a + b)[key] == tally(b + a)[key] by {
        lemma_total_for_concat(a, b, key.0, key.1);
        lemma_total_for_concat(b, a, key.0, key.1);
    }
    assert(tally(a + b) =~= tally(b + a));
}

/// A competitor who stands once on each of two contested leaderboards of
/// one game mode has one entry in their totals: the sum of the two awards.
pub proof fn lemma_two_leaderboards_one_entry(
    config: ScoringConfig,
    first: LeaderboardGroup,
    second: LeaderboardGroup,
    p: int,
    q: int,
)
    requires
        first.gamemode == second.gamemode,
        first.user_ids@.len() >= 2,
        second.user_ids@.len() >= 2,
        0 <= p < first.user_ids@.len(),
        0 <= q < second.user_ids@.len(),
        first.user_ids@[p] == second.user_ids@[q],
        forall|i: int|
            0 <= i < first.user_ids@.len() && i != p ==> first.user_ids@[i] != first.user_ids@[p],
        forall|j: int|
            0 <= j < second.user_ids@.len() && j != q ==> second.user_ids@[j]
                != second.user_ids@[q],
    ensures
        tally(all_awards(config, seq![first, second])).contains_key(
            (first.gamemode, first.user_ids@[p]),
        ),
        tally(all_awards(config, seq![first, second]))[(first.gamemode, first.user_ids@[p])]
            == config.breakdown(p + 1, first.user_ids@.len() as int).total_xp + config.breakdown(
            q + 1,
            second.user_ids@.len() as int,
        ).total_xp,
{
    let gamemode = first.gamemode;
    let user_id = first.user_ids@[p];
    let a = group_awards(config, first.gamemode, first.user_ids@);
    let b = group_awards(config, second.gamemode, second.user_ids@);
    let both = seq![first, second];
    assert(both.drop_last() =~= seq![first]);
    assert(seq![first].drop_last() =~= Seq::<LeaderboardGroup>::empty());
    assert(all_awards(config, seq![first]) =~= a) by {
        assert(all_awards(config, Seq::<LeaderboardGroup>::empty()) =~= Seq::<Award>::empty());
        assert(seq![first].last() == first);
    }
    assert(all_awards(config, both) =~= a + b) by {
        assert(both.last() == second);
    }
    assert(a[p].is_for(gamemode, user_id));
    assert(b[q].is_for(gamemode, user_id));
    lemma_total_for_single(a, p, gamemode, user_id);
    lemma_total_for_single(b, q, gamemode, user_id);
    lemma_total_for_concat(a, b, gamemode, user_id);
    assert((a + b)[p].is_for(gamemode, user_id));
}

/// One entry of the totals: what a competitor earned under a game mode.
#[derive(Debug, Clone, Copy)]
pub struct XpEntry {
    pub gamemode: i16,
    pub user_id: i32,
    pub xp: i32,
}

impl XpEntry {
    /// The game mode and the competitor that the entry belongs to.
    pub open spec fn key(self) -> (i16, i32) {
        (self.gamemode, self.user_id)
    }
}

/// The game mode and competitor of each entry of a listing.
pub open spec fn keys_of(listing: Seq<XpEntry>) -> Seq<(i16, i32)> {
    Seq::new(listing.len(), |i: int| listing[i].key())
}

/// The listing holds each entry of the totals exactly once, with its total.
pub open spec fn describes(listing: Seq<XpEntry>, totals: Map<(i16, i32), int>) -> bool {
    &&& forall|i: int|
        0 <= i < listing.len() ==> totals.contains_key((#[trigger] listing[i]).key())
            && totals[listing[i].key()] == listing[i].xp
    &&& forall|i: int, j: int|
        0 <= i < j < listing.len() ==> (#[trigger] listing[i]).key() != (#[trigger] listing[j]).key()
    &&& forall|key: (i16, i32)| #[trigger]
        totals.contains_key(key) ==> exists|i: int|
            0 <= i < listing.len() && (#[trigger] listing[i]).key() == key
}

/// A listing has as many entries as the totals that it describes.
pub proof fn lemma_described_count(listing: Seq<XpEntry>, totals: Map<(i16, i32), int>)
    requires
        describes(listing, totals),
    ensures
        totals.dom().finite(),
        totals.dom().len() == listing.len(),
{
    let keys = keys_of(listing);
    assert(keys.no_duplicates()) by {
        assert forall|i: int, j: int| 0 <= i < keys.len() && 0 <= j < keys.len() && i != j implies keys[i]
            != keys[j] by {
            if i < j {
                assert(listing[i].key() != listing[j].key());
            } else {
                assert(listing[j].key() != listing[i].key());
            }
        }
    }
    assert(keys.to_set() =~= totals.dom()) by {
        assert forall|key: (i16, i32)| keys.to_set().contains(key) == totals.dom().contains(
            key,
        ) by {
            if keys.to_set().contains(key) {
                let i = choose|i: int| 0 <= i < keys.len() && keys[i] == key;
                assert(totals.contains_key(listing[i].key()));
            }
            if totals.contains_key(key) {
                let i = choose|i: int|
                    0 <= i < listing.len() && (#[trigger] listing[i]).key() == key;
                assert(keys[i] == key);
            }
        }
    }
    keys.unique_seq_to_set();
}

/// The listing of a run is settled by its awards: each game mode and
/// competitor once, in the order of their first awards, with the sum of their
/// awards.
pub proof fn lemma_listing_determined(
    first: Seq<XpEntry>,
    second: Seq<XpEntry>,
    awards: Seq<Award>,
)
    requires
        keys_of(first) == first_awarded(awards),
        describes(first, tally(awards)),
        keys_of(second) == first_awarded(awards),
        describes(second, tally(awards)),
    ensures
        first == second,
        forall|i: int|
            0 <= i < first.len() ==> (#[trigger] first[i]).xp == total_for(
                awards,
                first[i].gamemode,
                first[i].user_id,
            ),
{
    assert(first.len() == keys_of(first).len());
    assert(second.len() == keys_of(second).len());
    assert forall|i: int| 0 <= i < first.len() implies first[i] == second[i] by {
        assert(first[i].key() == keys_of(first)[i]);
        assert(second[i].key() == keys_of(second)[i]);
        assert(tally(awards)[first[i].key()] == first[i].xp);
        assert(tally(awards)[second[i].key()] == second[i].xp);
    }
    assert(first =~= second);
    assert forall|i: int| 0 <= i < first.len() implies (#[trigger] first[i]).xp == total_for(
        awards,
        first[i].gamemode,
        first[i].user_id,
    ) by {
        assert(tally(awards)[first[i].key()] == first[i].xp);
    }
}

/// The number under which the index files a game mode and a competitor: one
/// number for each pair.
spec fn slot_of(key: (i16, i32)) -> u64 {
    ((key.0 + 0x8000) * 0x1_0000_0000 + (key.1 + 0x8000_0000)) as u64
}

fn slot(gamemode: i16, user_id: i32) -> (number: u64)
    ensures
        number == slot_of((gamemode, user_id)),
{
    let high: u64 = (gamemode as i64 + 0x8000) as u64;
    let low: u64 = (user_id as i64 + 0x8000_0000) as u64;
    high * 0x1_0000_0000 + low
}

proof fn lemma_slot_of_injective(first: (i16, i32), second: (i16, i32))
    requires
        slot_of(first) == slot_of(second),
    ensures
        first == second,
{
}

/// The index files every entry under its slot, and nothing else.
spec fn indexed(entries: Seq<XpEntry>, index: Map<u64, usize>) -> bool {
    &&& forall|i: int|
        0 <= i < entries.len() ==> index.contains_key(slot_of((#[trigger] entries[i]).key()))
            && index[slot_of(entries[i].key())] == i
    &&& forall|number: u64| #[trigger]
        index.contains_key(number) ==> index[number] < entries.len() && slot_of(
            entries[index[number] as int].key(),
        ) == number
}

/// The totals that indexed entries stand for.
spec fn totals_of(entries: Seq<XpEntry>, index: Map<u64, usize>) -> Map<(i16, i32), int> {
    Map::new(
        |key: (i16, i32)| index.contains_key(slot_of(key)),
        |key: (i16, i32)| entries[index[slot_of(key)] as int].xp as int,
    )
}

proof fn lemma_indexed_describes(entries: Seq<XpEntry>, index: Map<u64, usize>)
    requires
        indexed(entries, index),
    ensures
        describes(entries, totals_of(entries, index)),
{
    let totals = totals_of(entries, index);
    assert forall|i: int, j: int| 0 <= i < j < entries.len() implies (#[trigger] entries[i]).key()
        != (#[trigger] entries[j]).key() by {
        assert(index[slot_of(entries[i].key())] == i);
        assert(index[slot_of(entries[j].key())] == j);
    }
    assert forall|key: (i16, i32)| #[trigger] totals.contains_key(key) implies exists|i: int|
        0 <= i < entries.len() && (#[trigger] entries[i]).key() == key by {
        let i = index[slot_of(key)] as int;
        lemma_slot_of_injective(entries[i].key(), key);
    }
}

/// Adds an award to the entry of its competitor, which is made where there
/// was none.  Nothing changes where the entry would leave the signed 32-bit
/// range.
fn add_award(
    entries: &mut Vec<XpEntry>,
    index: &mut HashMap<u64, usize>,
    gamemode: i16,
    user_id: i32,
    xp: i32,
) -> (fits: bool)
    requires
        indexed(old(entries)@, old(index)@),
        xp >= 0,
    ensures
        indexed(final(entries)@, final(index)@),
        fits <==> total_so_far(totals_of(old(entries)@, old(index)@), (gamemode, user_id)) + xp
            <= i32::MAX,
        fits ==> totals_of(final(entries)@, final(index)@) == totals_of(
            old(entries)@,
            old(index)@,
        ).insert(
            (gamemode, user_id),
            total_so_far(totals_of(old(entries)@, old(index)@), (gamemode, user_id)) + xp,
        ),
        fits ==> keys_of(final(entries)@) == if totals_of(old(entries)@, old(index)@).contains_key(
            (gamemode, user_id),
        ) {
            keys_of(old(entries)@)
        } else {
            keys_of(old(entries)@).push((gamemode, user_id))
        },
        !fits ==> final(entries)@ == old(entries)@ && final(index)@ == old(index)@,
{
    broadcast use vstd::std_specs::hash::group_hash_axioms;

    let ghost key = (gamemode, user_id);
    let ghost before = totals_of(entries@, index@);
    let number: u64 = slot(gamemode, user_id);
    let found: Option<usize> = match index.get(&number) {
        Some(at) => Some(*at),
        None => None,
    };
    match found {
        Some(at) => {
            let entry: XpEntry = entries[at];
            proof {
                lemma_slot_of_injective(entry.key(), key);
            }
            if entry.xp > i32::MAX - xp {
                return false;
            }
            entries.set(at, XpEntry { gamemode, user_id, xp: entry.xp + xp });
            proof {
                assert forall|other: (i16, i32)| #[trigger]
                    before.contains_key(other) && other != key implies index@[slot_of(other)]
                    != at by {
                    if index@[slot_of(other)] == at {
                        lemma_slot_of_injective(old(entries)@[at as int].key(), other);
                    }
                }
                assert(totals_of(entries@, index@) =~= before.insert(
                    key,
                    total_so_far(before, key) + xp,
                ));
                assert(keys_of(entries@) =~= keys_of(old(entries)@));
            }
            true
        },
        None => {
            let at: usize = entries.len();
            index.insert(number, at);
            entries.push(XpEntry { gamemode, user_id, xp });
            proof {
                assert forall|other: (i16, i32)| #[trigger]
                    before.contains_key(other) implies other != key && index@[slot_of(other)]
                    != at by {
                    if other != key {
                        if slot_of(other) == number {
                            lemma_slot_of_injective(other, key);
                        }
                    }
                }
                assert(totals_of(entries@, index@) =~= before.insert(
                    key,
                    total_so_far(before, key) + xp,
                ));
                assert(keys_of(entries@) =~= keys_of(old(entries)@).push(key));
            }
            true
        },
    }
}

/// XP totals per game mode and competitor.
pub struct AggregateXp {
    entries: Vec<XpEntry>,
    index: HashMap<u64, usize>,
}

impl View for AggregateXp {
    type V = Map<(i16, i32), int>;

    closed spec fn view(&self) -> Map<(i16, i32), int> {
        totals_of(self.entries@, self.index@)
    }
}

impl AggregateXp {
    #[verifier::type_invariant]
    spec fn well_formed(self) -> bool {
        indexed(self.entries@, self.index@)
    }

    /// The entries in the order in which their competitors first earned an
    /// award.
    pub closed spec fn listing(&self) -> Seq<XpEntry> {
        self.entries@
    }

    /// The number of entries.
    pub fn len(&self) -> (count: usize)
        ensures
            count == self@.dom().len(),
            count == self.listing().len(),
            describes(self.listing(), self@),
    {
        proof {
            use_type_invariant(self);
            lemma_indexed_describes(self.entries@, self.index@);
            lemma_described_count(self.entries@, self@);
        }
        self.entries.len()
    }

    /// The entries, each game mode and competitor once.
    pub fn entries(&self) -> (entries: &Vec<XpEntry>)
        ensures
            entries@ == self.listing(),
            describes(self.listing(), self@),
    {
        proof {
            use_type_invariant(self);
            lemma_indexed_describes(self.entries@, self.index@);
        }
        &self.entries
    }

    /// What `user_id` earned under `gamemode`, if anything.
    pub fn get(&self, gamemode: i16, user_id: i32) -> (total: Option<i32>)
        ensures
            match total {
                Some(xp) => self@.contains_key((gamemode, user_id)) && self@[(gamemode, user_id)]
                    == xp,
                None => !self@.contains_key((gamemode, user_id)),
            },
    {
        broadcast use vstd::std_specs::hash::group_hash_axioms;

        proof {
            use_type_invariant(self);
        }
        let number: u64 = slot(gamemode, user_id);
        match self.index.get(&number) {
            Some(at) => Some(self.entries[*at].xp),
            None => None,
        }
    }
}

/// Why a run gave no totals.
#[derive(Debug, Clone, Copy, PartialEq, Eq)]
pub enum RankingError {
    /// A leaderboard holds more competitors than a rank can count.
    FieldTooLarge,
    /// A total would leave the signed 32-bit range.
    XpOverflow,
}

/// The outcome of a run.
pub struct RankingRun {
    /// The totals per game mode and competitor.
    pub totals: AggregateXp,
    /// The number of awards that went into the totals.
    pub runs_processed: u128,
}

/// Some leaderboard holds more competitors than a signed 32-bit rank counts.
pub open spec fn too_large(groups: Seq<LeaderboardGroup>) -> bool {
    exists|g: int| 0 <= g < groups.len() && (#[trigger] groups[g]).user_ids@.len() > i32::MAX
}

proof fn lemma_all_awards_step(config: ScoringConfig, groups: Seq<LeaderboardGroup>, g: int)
    requires
        0 <= g < groups.len(),
    ensures
        all_awards(config, groups.take(g + 1)) == all_awards(config, groups.take(g))
            + group_awards(config, groups[g].gamemode, groups[g].user_ids@),
{
    assert(groups.take(g + 1).drop_last() =~= groups.take(g));
    assert(groups.take(g + 1).last() == groups[g]);
}

/// A total that overflows after some of the awards of a run overflows
/// after all of them.
proof fn lemma_overflow_persists(
    config: ScoringConfig,
    groups: Seq<LeaderboardGroup>,
    g: int,
    p: int,
    gamemode: i16,
    user_id: i32,
)
    requires
        config.valid(),
        0 <= g < groups.len(),
        0 <= p <= group_awards(config, groups[g].gamemode, groups[g].user_ids@).len(),
        total_for(
            all_awards(config, groups.take(g)) + group_awards(
                config,
                groups[g].gamemode,
                groups[g].user_ids@,
            ).take(p),
            gamemode,
            user_id,
        ) > i32::MAX,
    ensures
        overflows(all_awards(config, groups)),
{
    let before = all_awards(config, groups.take(g));
    let group = group_awards(config, groups[g].gamemode, groups[g].user_ids@);
    let after = all_awards(config, groups.skip(g + 1));
    // The run is: the leaderboards before, this one, and those after.
    assert(groups =~= groups.take(g + 1) + groups.skip(g + 1));
    lemma_all_awards_concat(config, groups.take(g + 1), groups.skip(g + 1));
    lemma_all_awards_step(config, groups, g);
    assert(group =~= group.take(p) + group.skip(p));
    lemma_total_for_concat(before, group.take(p), gamemode, user_id);
    lemma_total_for_concat(before, group, gamemode, user_id);
    lemma_total_for_concat(group.take(p), group.skip(p), gamemode, user_id);
    lemma_total_for_concat(before + group, after, gamemode, user_id);
    // What follows adds nothing negative.
    lemma_group_awards_non_negative(config, groups[g].gamemode, groups[g].user_ids@);
    assert(non_negative(group.skip(p))) by {
        assert forall|i: int| 0 <= i < group.skip(p).len() implies (#[trigger] group.skip(
            p,
        )[i]).xp >= 0 by {
            assert(group[i + p].xp >= 0);
        }
    }
    lemma_all_awards_non_negative(config, groups.skip(g + 1));
    lemma_total_for_bounds(group.skip(p), gamemode, user_id);
    lemma_total_for_bounds(after, gamemode, user_id);
    assert(total_for(all_awards(config, groups), gamemode, user_id) > i32::MAX);
}

/// Totals held in signed 32-bit entries do not overflow.
proof fn lemma_tally_fits(awards: Seq<Award>, totals: AggregateXp)
    requires
        totals@ == tally(awards),
    ensures
        !overflows(awards),
{
    assert forall|gamemode: i16, user_id: i32| #[trigger]
        total_for(awards, gamemode, user_id) <= i32::MAX by {
        lemma_total_for_bounds(awards, gamemode, user_id);
        if awarded(awards, gamemode, user_id) {
            assert(tally(awards).contains_key((gamemode, user_id)));
            assert(totals@[(gamemode, user_id)] == total_for(awards, gamemode, user_id));
        }
    }
}

/// Scores every position of every contested leaderboard and sums the awards
/// per game mode and competitor.  A leaderboard of fewer than two
/// competitors earns nothing.
///
/// The run fails as a whole, without totals, where a leaderboard is too
/// large for its ranks to be counted or where a total would overflow.
pub fn calculate_rankings(calculator: &XpCalculator, groups: &Vec<LeaderboardGroup>) -> (result:
    Result<RankingRun, RankingError>)
    ensures
        match result {
            Ok(run) => {
                &&& !too_large(groups@)
                &&& !overflows(all_awards(calculator@, groups@))
                &&& run.totals@ == tally(all_awards(calculator@, groups@))
                &&& run.runs_processed == all_awards(calculator@, groups@).len()
                &&& describes(run.totals.listing(), run.totals@)
                &&& keys_of(run.totals.listing()) == first_awarded(
                    all_awards(calculator@, groups@),
                )
            },
            Err(RankingError::FieldTooLarge) => too_large(groups@),
            Err(RankingError::XpOverflow) => !too_large(groups@) && overflows(
                all_awards(calculator@, groups@),
            ),
        },
{
    let ghost config = calculator@;
    proof {
        use_type_invariant(calculator);
    }
    let mut g: usize = 0;
    while g < groups.len()
        invariant
            g <= groups.len(),
            forall|h: int| 0 <= h < g ==> (#[trigger] groups@[h]).user_ids@.len() <= i32::MAX,
        decreases groups.len() - g,
    {
        if groups[g].user_ids.len() > i32::MAX as usize {
            return Err(RankingError::FieldTooLarge);
        }
        g = g + 1;
    }
    let mut entries: Vec<XpEntry> = Vec::new();
    let mut index: HashMap<u64, usize> = HashMap::new();
    let mut runs_processed: u128 = 0;
    let ghost mut done: Seq<Award> = Seq::empty();
    proof {
        assert(groups@.take(0) =~= Seq::<LeaderboardGroup>::empty());
        assert(totals_of(entries@, index@) =~= tally(done));
        assert(keys_of(entries@) =~= first_awarded(done));
    }
    g = 0;
    while g < groups.len()
        invariant
            config == calculator@,
            config.valid(),
            g <= groups.len(),
            !too_large(groups@),
            indexed(entries@, index@),
            done == all_awards(config, groups@.take(g as int)),
            totals_of(entries@, index@) == tally(done),
            keys_of(entries@) == first_awarded(done),
            runs_processed == done.len(),
            runs_processed <= g * 0x8000_0000,
        decreases groups.len() - g,
    {
        let group: &LeaderboardGroup = &groups[g];
        let count: usize = group.user_ids.len();
        let ghost awards = group_awards(config, group.gamemode, group.user_ids@);
        let ghost before = done;
        proof {
            lemma_all_awards_step(config, groups@, g as int);
            assert(awards.take(0) =~= Seq::<Award>::empty());
            assert(before + awards.take(0) =~= before);
        }
        if count >= 2 {
            let completions: i32 = count as i32;
            let sizes: Vec<i32> = calculator.group_sizes(completions);
            let mut p: usize = 0;
            while p < count
                invariant
                    config == calculator@,
                    config.valid(),
                    g < groups.len(),
                    group == groups@[g as int],
                    count == group.user_ids@.len(),
                    2 <= count <= i32::MAX,
                    completions == count,
                    !too_large(groups@),
                    awards == group_awards(config, group.gamemode, group.user_ids@),
                    before == all_awards(config, groups@.take(g as int)),
                    sizes@.len() == config.group_tiers.len(),
                    forall|i: int|
                        0 <= i < sizes@.len() ==> sizes@[i] == (#[trigger] config.group_tiers[i]).size(
                            completions as int,
                        ),
                    p <= count,
                    indexed(entries@, index@),
                    done == before + awards.take(p as int),
                    totals_of(entries@, index@) == tally(done),
                    keys_of(entries@) == first_awarded(done),
                    runs_processed == done.len(),
                    runs_processed <= g * 0x8000_0000 + p,
                decreases count - p,
            {
                let rank: i32 = (p + 1) as i32;
                let gain = calculator.rank_xp_within(rank, completions, &sizes);
                let user_id: i32 = group.user_ids[p];
                let ghost award = awards[p as int];
                proof {
                    config.lemma_breakdown_bounds(rank as int, completions as int);
                    lemma_tally_push(done, award);
                    assert(done.push(award).drop_last() =~= done);
                    assert(awards.take(p + 1) =~= awards.take(p as int).push(award));
                    assert(before + awards.take(p + 1) =~= done.push(award));
                }
                let fits: bool = add_award(
                    &mut entries,
                    &mut index,
                    group.gamemode,
                    user_id,
                    gain.rank_xp,
                );
                if !fits {
                    proof {
                        assert(total_for(done.push(award), award.gamemode, award.user_id)
                            > i32::MAX) by {
                            assert(done.push(award).drop_last() =~= done);
                        }
                        lemma_overflow_persists(
                            config,
                            groups@,
                            g as int,
                            p + 1,
                            award.gamemode,
                            award.user_id,
                        );
                    }
                    return Err(RankingError::XpOverflow);
                }
                proof {
                    done = done.push(award);
                }
                runs_processed = runs_processed + 1;
                p = p + 1;
            }
            proof {
                assert(awards.take(count as int) =~= awards);
            }
        } else {
            proof {
                assert(awards =~= Seq::<Award>::empty());
                assert(before + awards =~= before);
            }
        }
        proof {
            assert(g * 0x8000_0000 + count <= (g + 1) * 0x8000_0000) by (nonlinear_arith)
                requires
                    count <= 0x8000_0000,
                    g >= 0,
            ;
        }
        g = g + 1;
    }
    proof {
        assert(groups@.take(groups@.len() as int) =~= groups@);
        lemma_indexed_describes(entries@, index@);
    }
    let totals = AggregateXp { entries, index };
    proof {
        lemma_tally_fits(done, totals);
    }
    Ok(RankingRun { totals, runs_processed })
}

} // verus!
