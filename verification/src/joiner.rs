//! Joining the roles: the lineups that can be formed from one combination
//! per role without using a player twice.

use crate::combinatorics::rows;
use crate::duos::{all_distinct, append_ids, duo_ids, Duo, PlayerId};
use crate::lineup::{copy_duos, lineup_views, Lineup, LineupView};
use crate::sequences::{lemma_flat_map_contains, lemma_flat_map_member, lemma_flat_map_of_nothing};
use vstd::prelude::*;

verus! {

/// A damage combination and a support combination, as sequences.
pub type RolePair = (Seq<Duo>, Seq<Duo>);

/// The pairs of a vector, each by the views of its two combinations.
pub open spec fn pair_views(pairs: Vec<(Vec<Duo>, Vec<Duo>)>) -> Seq<RolePair> {
    Seq::new(pairs@.len(), |i: int| (pairs@[i].0@, pairs@[i].1@))
}

/// Pairs a support combination with the given damage combination.
pub open spec fn paired_with(damage: Seq<Duo>) -> spec_fn(Seq<Duo>) -> RolePair {
    |support: Seq<Duo>| (damage, support)
}

/// Pairs a damage combination with each support combination, in order.
pub open spec fn pairs_of_damage(supports: Seq<Seq<Duo>>) -> spec_fn(Seq<Duo>) -> Seq<RolePair> {
    |damage: Seq<Duo>| supports.map_values(paired_with(damage))
}

/// Every damage combination with every support combination: the pairs of the
/// first damage combination in the order of `supports`, then those of the
/// second, and so on.
pub open spec fn all_pairs(damage: Seq<Seq<Duo>>, supports: Seq<Seq<Duo>>) -> Seq<RolePair> {
    damage.flat_map(pairs_of_damage(supports))
}

/// No player occurs twice in the pair.
pub open spec fn pair_is_disjoint() -> spec_fn(RolePair) -> bool {
    |pair: RolePair| (duo_ids(pair.0) + duo_ids(pair.1)).no_duplicates()
}

/// The pairs of a damage and a support combination that share no player, in
/// the order of `all_pairs`.
pub open spec fn disjoint_pairs(damage: Seq<Seq<Duo>>, supports: Seq<Seq<Duo>>) -> Seq<RolePair> {
    all_pairs(damage, supports).filter(pair_is_disjoint())
}

/// Completes a pair to a lineup with the given tank combination.
pub open spec fn lineup_with(tanks: Seq<Duo>) -> spec_fn(RolePair) -> LineupView {
    |pair: RolePair| LineupView { tanks: tanks, damage: pair.0, supports: pair.1 }
}

/// `LineupView::is_disjoint` as a predicate to filter by.
pub open spec fn lineup_is_disjoint() -> spec_fn(LineupView) -> bool {
    |lineup: LineupView| lineup.is_disjoint()
}

/// The disjoint lineups that a tank combination forms with the pairs, in the
/// order of the pairs.
pub open spec fn lineups_of_tank(pairs: Seq<RolePair>) -> spec_fn(Seq<Duo>) -> Seq<LineupView> {
    |tanks: Seq<Duo>| pairs.map_values(lineup_with(tanks)).filter(lineup_is_disjoint())
}

/// The disjoint lineups that the tank combinations form with the pairs: those
/// of the first tank combination, then those of the second, and so on.
pub open spec fn tanks_joined(tanks: Seq<Seq<Duo>>, pairs: Seq<RolePair>) -> Seq<LineupView> {
    tanks.flat_map(lineups_of_tank(pairs))
}

/// Every lineup of one combination per role in which no player occurs twice.
/// The lineups come in lexicographic order of the places that their tank,
/// damage and support combinations have in the three lists.
pub open spec fn matchups(
    tanks: Seq<Seq<Duo>>,
    damage: Seq<Seq<Duo>>,
    supports: Seq<Seq<Duo>>,
) -> Seq<LineupView> {
    tanks_joined(tanks, all_pairs(damage, supports))
}

/// A lineup without a repeated player has a damage and support pair without
/// one.
proof fn lemma_disjoint_lineup_has_disjoint_pair(tanks: Seq<Duo>, pair: RolePair)
    requires
        lineup_is_disjoint()(lineup_with(tanks)(pair)),
    ensures
        pair_is_disjoint()(pair),
{
    let whole = duo_ids(tanks) + duo_ids(pair.0) + duo_ids(pair.1);
    let part = duo_ids(pair.0) + duo_ids(pair.1);
    let shift = duo_ids(tanks).len() as int;
    assert forall|i: int, j: int| 0 <= i < part.len() && 0 <= j < part.len() && i != j implies part[i]
        != part[j] by {
        assert(part[i] == whole[shift + i]);
        assert(part[j] == whole[shift + j]);
    }
}

/// Joining the tanks with the pairs that share no player finds the same
/// lineups as joining them with all pairs.
proof fn lemma_disjoint_pairs_suffice(pairs: Seq<RolePair>, tanks: Seq<Duo>)
    ensures
        lineups_of_tank(pairs.filter(pair_is_disjoint()))(tanks) == lineups_of_tank(pairs)(tanks),
    decreases pairs.len(),
{
    let p = pair_is_disjoint();
    let f = lineup_with(tanks);
    let q = lineup_is_disjoint();
    if pairs.len() == 0 {
        assert(pairs.filter(p) =~= pairs) by {
            reveal(Seq::filter);
        }
    } else {
        let init = pairs.drop_last();
        let last = pairs.last();
        lemma_disjoint_pairs_suffice(init, tanks);
        assert(pairs =~= init.push(last));
        init.lemma_filter_push(last, p);
        init.lemma_push_map_commute(f, last);
        init.map_values(f).lemma_filter_push(f(last), q);
        if p(last) {
            init.filter(p).lemma_push_map_commute(f, last);
            init.filter(p).map_values(f).lemma_filter_push(f(last), q);
        } else {
            if q(f(last)) {
                lemma_disjoint_lineup_has_disjoint_pair(tanks, last);
            }
        }
    }
}

/// The damage and support combinations that can stand in one lineup.
pub fn pair_damage_support(damage: &Vec<Vec<Duo>>, supports: &Vec<Vec<Duo>>) -> (pairs: Vec<
    (Vec<Duo>, Vec<Duo>),
>)
    ensures
        pair_views(pairs) == disjoint_pairs(rows(*damage), rows(*supports)),
{
    let ghost d = rows(*damage);
    let ghost s = rows(*supports);
    let ghost p = pair_is_disjoint();
    let mut pairs: Vec<(Vec<Duo>, Vec<Duo>)> = Vec::new();
    let mut i: usize = 0;
    proof {
        assert(all_pairs(d.take(0), s) =~= Seq::<RolePair>::empty());
        assert(all_pairs(d.take(0), s).filter(p) =~= Seq::<RolePair>::empty()) by {
            reveal(Seq::filter);
        }
        assert(pair_views(pairs) =~= Seq::<RolePair>::empty());
    }
    while i < damage.len()
        invariant
            i <= damage.len(),
            d == rows(*damage),
            s == rows(*supports),
            p == pair_is_disjoint(),
            pair_views(pairs) == all_pairs(d.take(i as int), s).filter(p),
        decreases damage.len() - i,
    {
        let ghost done = all_pairs(d.take(i as int), s).filter(p);
        let ghost row = s.map_values(paired_with(d[i as int]));
        let mut j: usize = 0;
        proof {
            assert(row.take(0).filter(p) =~= Seq::<RolePair>::empty()) by {
                reveal(Seq::filter);
            }
            assert(pair_views(pairs) =~= done + row.take(0).filter(p));
        }
        while j < supports.len()
            invariant
                i < damage.len(),
                j <= supports.len(),
                d == rows(*damage),
                s == rows(*supports),
                p == pair_is_disjoint(),
                row == s.map_values(paired_with(d[i as int])),
                pair_views(pairs) == done + row.take(j as int).filter(p),
            decreases supports.len() - j,
        {
            let mut ids: Vec<PlayerId> = Vec::new();
            append_ids(&damage[i], &mut ids);
            append_ids(&supports[j], &mut ids);
            let keep = all_distinct(&ids);
            proof {
                assert(row[j as int] == (damage[i as int]@, supports[j as int]@));
                assert(ids@ =~= duo_ids(row[j as int].0) + duo_ids(row[j as int].1));
                row.lemma_take_succ_push(j as int);
                row.take(j as int).lemma_filter_push(row[j as int], p);
            }
            let ghost before = pair_views(pairs);
            if keep {
                pairs.push((copy_duos(&damage[i]), copy_duos(&supports[j])));
                proof {
                    assert(pair_views(pairs) =~= before.push(row[j as int]));
                    assert(done + row.take(j as int).filter(p).push(row[j as int]) =~= (done
                        + row.take(j as int).filter(p)).push(row[j as int]));
                }
            }
            j += 1;
        }
        proof {
            assert(row.take(supports.len() as int) =~= row);
            d.lemma_flat_map_take_append(pairs_of_damage(s), i as int);
            Seq::filter_distributes_over_add(all_pairs(d.take(i as int), s), row, p);
        }
        i += 1;
    }
    proof {
        assert(d.take(damage.len() as int) =~= d);
    }
    pairs
}

/// The lineups that the tank combinations form with the pairs without using
/// a player twice.
pub fn join_tanks(tanks: &Vec<Vec<Duo>>, pairs: &Vec<(Vec<Duo>, Vec<Duo>)>) -> (lineups: Vec<Lineup>)
    ensures
        lineup_views(lineups) == tanks_joined(rows(*tanks), pair_views(*pairs)),
        forall|k: int| 0 <= k < lineups.len() ==> (#[trigger] lineups[k])@.is_disjoint(),
        forall|k: int|
            0 <= k < lineups.len() ==> rows(*tanks).contains((#[trigger] lineups[k])@.tanks)
                && pair_views(*pairs).contains((lineups[k]@.damage, lineups[k]@.supports)),
{
    let ghost t = rows(*tanks);
    let ghost x = pair_views(*pairs);
    let ghost q = lineup_is_disjoint();
    let mut lineups: Vec<Lineup> = Vec::new();
    let mut i: usize = 0;
    proof {
        assert(tanks_joined(t.take(0), x) =~= Seq::<LineupView>::empty());
        assert(lineup_views(lineups) =~= Seq::<LineupView>::empty());
    }
    while i < tanks.len()
        invariant
            i <= tanks.len(),
            t == rows(*tanks),
            x == pair_views(*pairs),
            q == lineup_is_disjoint(),
            lineup_views(lineups) == tanks_joined(t.take(i as int), x),
            forall|k: int| 0 <= k < lineups.len() ==> (#[trigger] lineups[k])@.is_disjoint(),
            forall|k: int|
                0 <= k < lineups.len() ==> t.contains((#[trigger] lineups[k])@.tanks) && x.contains(
                    (lineups[k]@.damage, lineups[k]@.supports),
                ),
        decreases tanks.len() - i,
    {
        let ghost done = tanks_joined(t.take(i as int), x);
        let ghost row = x.map_values(lineup_with(t[i as int]));
        let mut j: usize = 0;
        proof {
            assert(row.take(0).filter(q) =~= Seq::<LineupView>::empty()) by {
                reveal(Seq::filter);
            }
            assert(lineup_views(lineups) =~= done + row.take(0).filter(q));
        }
        while j < pairs.len()
            invariant
                i < tanks.len(),
                j <= pairs.len(),
                t == rows(*tanks),
                x == pair_views(*pairs),
                q == lineup_is_disjoint(),
                row == x.map_values(lineup_with(t[i as int])),
                lineup_views(lineups) == done + row.take(j as int).filter(q),
                forall|k: int| 0 <= k < lineups.len() ==> (#[trigger] lineups[k])@.is_disjoint(),
                forall|k: int|
                    0 <= k < lineups.len() ==> t.contains((#[trigger] lineups[k])@.tanks)
                        && x.contains((lineups[k]@.damage, lineups[k]@.supports)),
            decreases pairs.len() - j,
        {
            let mut ids: Vec<PlayerId> = Vec::new();
            append_ids(&tanks[i], &mut ids);
            append_ids(&pairs[j].0, &mut ids);
            append_ids(&pairs[j].1, &mut ids);
            let keep = all_distinct(&ids);
            proof {
                assert(x[j as int] == (pairs[j as int].0@, pairs[j as int].1@));
                assert(row[j as int] == LineupView {
                    tanks: tanks[i as int]@,
                    damage: pairs[j as int].0@,
                    supports: pairs[j as int].1@,
                });
                assert(ids@ =~= row[j as int].player_ids());
                row.lemma_take_succ_push(j as int);
                row.take(j as int).lemma_filter_push(row[j as int], q);
            }
            let ghost before = lineup_views(lineups);
            if keep {
                let lineup = Lineup {
                    tanks: copy_duos(&tanks[i]),
                    damage: copy_duos(&pairs[j].0),
                    supports: copy_duos(&pairs[j].1),
                };
                lineups.push(lineup);
                proof {
                    assert(lineup_views(lineups) =~= before.push(row[j as int]));
                    assert(done + row.take(j as int).filter(q).push(row[j as int]) =~= (done
                        + row.take(j as int).filter(q)).push(row[j as int]));
                    assert(t[i as int] == tanks[i as int]@);
                }
            }
            j += 1;
        }
        proof {
            assert(row.take(pairs.len() as int) =~= row);
            t.lemma_flat_map_take_append(lineups_of_tank(x), i as int);
        }
        i += 1;
    }
    proof {
        assert(t.take(tanks.len() as int) =~= t);
    }
    lineups
}

/// A pair stems from the two lists it was formed from.
pub proof fn lemma_pair_members(damage: Seq<Seq<Duo>>, supports: Seq<Seq<Duo>>, pair: RolePair)
    requires
        all_pairs(damage, supports).contains(pair),
    ensures
        damage.contains(pair.0),
        supports.contains(pair.1),
{
    let at = lemma_flat_map_member(damage, pairs_of_damage(supports), pair);
    let row = supports.map_values(paired_with(damage[at]));
    let k = choose|k: int| 0 <= k < row.len() && row[k] == pair;
    assert(supports[k] == pair.1);
}

/// The tank combinations find the same lineups with the pairs that share no
/// player as with all pairs.
pub proof fn lemma_join_with_disjoint_pairs(tanks: Seq<Seq<Duo>>, pairs: Seq<RolePair>)
    ensures
        tanks_joined(tanks, pairs.filter(pair_is_disjoint())) == tanks_joined(tanks, pairs),
{
    let narrow = lineups_of_tank(pairs.filter(pair_is_disjoint()));
    let wide = lineups_of_tank(pairs);
    assert forall|i: int| 0 <= i < tanks.len() implies narrow(tanks[i]) == wide(tanks[i]) by {
        lemma_disjoint_pairs_suffice(pairs, tanks[i]);
    }
    assert(tanks.map_values(narrow) =~= tanks.map_values(wide));
}

/// Where a role has no combination, there is no lineup.
pub proof fn lemma_no_combination_no_matchup(
    tanks: Seq<Seq<Duo>>,
    damage: Seq<Seq<Duo>>,
    supports: Seq<Seq<Duo>>,
)
    requires
        tanks.len() == 0 || damage.len() == 0 || supports.len() == 0,
    ensures
        matchups(tanks, damage, supports).len() == 0,
{
    let pairs = all_pairs(damage, supports);
    if tanks.len() > 0 {
        lemma_flat_map_of_nothing(damage, pairs_of_damage(supports));
        assert forall|i: int| 0 <= i < tanks.len() implies (#[trigger] lineups_of_tank(pairs)(
            tanks[i],
        )).len() == 0 by {
            pairs.map_values(lineup_with(tanks[i])).lemma_filter_len(lineup_is_disjoint());
        }
    }
    lemma_flat_map_of_nothing(tanks, lineups_of_tank(pairs));
}

/// Every lineup of one tank, one damage and one support combination in which
/// no player occurs twice.
///
/// The damage and support combinations are paired first, and a tank
/// combination is only tried with the pairs that share no player.
pub fn join_roles(
    tanks: &Vec<Vec<Duo>>,
    damage: &Vec<Vec<Duo>>,
    supports: &Vec<Vec<Duo>>,
) -> (lineups: Vec<Lineup>)
    ensures
        lineup_views(lineups) == matchups(rows(*tanks), rows(*damage), rows(*supports)),
        forall|k: int| 0 <= k < lineups.len() ==> (#[trigger] lineups[k])@.is_disjoint(),
        forall|k: int|
            0 <= k < lineups.len() ==> {
                &&& rows(*tanks).contains((#[trigger] lineups[k])@.tanks)
                &&& rows(*damage).contains(lineups[k]@.damage)
                &&& rows(*supports).contains(lineups[k]@.supports)
            },
{
    let pairs = pair_damage_support(damage, supports);
    let lineups = join_tanks(tanks, &pairs);
    proof {
        let every = all_pairs(rows(*damage), rows(*supports));
        lemma_join_with_disjoint_pairs(rows(*tanks), every);
        assert forall|k: int| 0 <= k < lineups.len() implies {
            &&& rows(*damage).contains((#[trigger] lineups[k])@.damage)
            &&& rows(*supports).contains(lineups[k]@.supports)
        } by {
            let pair = (lineups[k]@.damage, lineups[k]@.supports);
            every.lemma_filter_contains_rev(pair_is_disjoint(), pair);
            lemma_pair_members(rows(*damage), rows(*supports), pair);
        }
    }
    lineups
}

/// Every lineup of one combination per role in which no player occurs twice
/// is among the matchups.
pub proof fn lemma_matchups_complete(
    tanks: Seq<Seq<Duo>>,
    damage: Seq<Seq<Duo>>,
    supports: Seq<Seq<Duo>>,
    t: int,
    d: int,
    s: int,
)
    requires
        0 <= t < tanks.len(),
        0 <= d < damage.len(),
        0 <= s < supports.len(),
        (LineupView { tanks: tanks[t], damage: damage[d], supports: supports[s] }).is_disjoint(),
    ensures
        matchups(tanks, damage, supports).contains(
            LineupView { tanks: tanks[t], damage: damage[d], supports: supports[s] },
        ),
{
    let pairs = all_pairs(damage, supports);
    let pair = (damage[d], supports[s]);
    let lineup = LineupView { tanks: tanks[t], damage: damage[d], supports: supports[s] };
    let row = supports.map_values(paired_with(damage[d]));
    assert(row[s] == pair);
    lemma_flat_map_contains(damage, pairs_of_damage(supports), d, pair);
    let at = choose|at: int| 0 <= at < pairs.len() && pairs[at] == pair;
    let formed = pairs.map_values(lineup_with(tanks[t]));
    assert(formed[at] == lineup);
    formed.lemma_filter_contains(lineup_is_disjoint(), at);
    lemma_flat_map_contains(tanks, lineups_of_tank(pairs), t, lineup);
}

/// Every matchup is a lineup of one combination per role in which no player
/// occurs twice.
pub proof fn lemma_matchups_sound(
    tanks: Seq<Seq<Duo>>,
    damage: Seq<Seq<Duo>>,
    supports: Seq<Seq<Duo>>,
    lineup: LineupView,
)
    requires
        matchups(tanks, damage, supports).contains(lineup),
    ensures
        tanks.contains(lineup.tanks),
        damage.contains(lineup.damage),
        supports.contains(lineup.supports),
        lineup.is_disjoint(),
{
    let pairs = all_pairs(damage, supports);
    let t = lemma_flat_map_member(tanks, lineups_of_tank(pairs), lineup);
    let formed = pairs.map_values(lineup_with(tanks[t]));
    let kept = formed.filter(lineup_is_disjoint());
    let k = choose|k: int| 0 <= k < kept.len() && kept[k] == lineup;
    formed.lemma_filter_pred(lineup_is_disjoint(), k);
    formed.lemma_filter_contains_rev(lineup_is_disjoint(), lineup);
    let at = choose|at: int| 0 <= at < formed.len() && formed[at] == lineup;
    assert(pairs.contains(pairs[at]));
    lemma_pair_members(damage, supports, pairs[at]);
}

} // verus!
