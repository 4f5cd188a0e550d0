//! One team: an ordered line of creatures, the first of which fights.

use vstd::prelude::*;
use crate::animal::{creature, roster, Animal, Creature};

verus! {

/// `team` has a creature with `id`.
pub open spec fn holds(team: Seq<Creature>, id: u128) -> bool {
    exists|i: int| 0 <= i < team.len() && (#[trigger] team[i]).id == id
}

/// The creature at `i` is the first of `team` with `id`.
pub open spec fn stands_first(team: Seq<Creature>, id: u128, i: int) -> bool {
    &&& 0 <= i < team.len()
    &&& team[i].id == id
    &&& forall|j: int| 0 <= j < i ==> (#[trigger] team[j]).id != id
}

/// Where the first creature with `id` stands in `team`, if there is one.
pub open spec fn first_at(team: Seq<Creature>, id: u128) -> Option<int> {
    if exists|i: int| stands_first(team, id, i) {
        Some(choose|i: int| stands_first(team, id, i))
    } else {
        None
    }
}

/// The test that every creature but those with `id` passes.
pub open spec fn not_id(id: u128) -> spec_fn(Creature) -> bool {
    |c: Creature| c.id != id
}

/// The test that a creature passes unless its identifier is among `ids`.
pub open spec fn not_among(ids: Seq<u128>) -> spec_fn(Creature) -> bool {
    |c: Creature| !ids.contains(c.id)
}

/// The test that the defeated creatures pass.
pub open spec fn is_defeated() -> spec_fn(Creature) -> bool {
    |c: Creature| c.defeated()
}

/// The test that the creatures still in the battle pass.
pub open spec fn is_standing() -> spec_fn(Creature) -> bool {
    |c: Creature| !c.defeated()
}

/// The identifiers of the creatures of `team`, in order.
pub open spec fn ids_of(team: Seq<Creature>) -> Seq<u128> {
    Seq::new(team.len(), |i: int| team[i].id)
}

/// The identifiers of the defeated creatures of `team`, in the order in which
/// they stand.
pub open spec fn defeated_ids(team: Seq<Creature>) -> Seq<u128> {
    ids_of(team.filter(is_defeated()))
}

/// `after` is `before` with some creatures taken out: what is left stands in
/// the order it stood in, whatever became of its health.
pub open spec fn keeps_order(before: Seq<Creature>, after: Seq<Creature>) -> bool {
    exists|from: Seq<int>| comes_from(before, after, from)
}

/// `from` says for each creature of `after` where it stood in `before`.
pub open spec fn comes_from(before: Seq<Creature>, after: Seq<Creature>, from: Seq<int>) -> bool {
    &&& from.len() == after.len()
    &&& forall|k: int|
        0 <= k < after.len() ==> 0 <= #[trigger] from[k] < before.len() && after[k].alike(
            before[from[k]],
        )
    &&& forall|k: int, l: int| 0 <= k < l < after.len() ==> #[trigger] from[k] < #[trigger] from[l]
}

/// The first creature with an identifier is found where the function says,
/// and nowhere if the team has none.
pub proof fn lemma_first_at(team: Seq<Creature>, id: u128)
    ensures
        match first_at(team, id) {
            Some(i) => stands_first(team, id, i),
            None => !holds(team, id),
        },
        forall|i: int| stands_first(team, id, i) ==> first_at(team, id) == Some(i),
    decreases team.len(),
{
    if holds(team, id) {
        let w = choose|i: int| 0 <= i < team.len() && (#[trigger] team[i]).id == id;
        lemma_least(team, id, w);
    }
    assert forall|i: int| stands_first(team, id, i) implies first_at(team, id) == Some(i) by {
        let c = choose|i: int| stands_first(team, id, i);
        assert(stands_first(team, id, c));
        if c < i {
            assert(team[c].id != id);
        }
        if i < c {
            assert(team[i].id != id);
        }
    }
}

/// Below any place that holds `id` there is a first one.
proof fn lemma_least(team: Seq<Creature>, id: u128, w: int)
    requires
        0 <= w < team.len(),
        team[w].id == id,
    ensures
        exists|i: int| stands_first(team, id, i),
    decreases w,
{
    if exists|j: int| 0 <= j < w && (#[trigger] team[j]).id == id {
        let j = choose|j: int| 0 <= j < w && (#[trigger] team[j]).id == id;
        lemma_least(team, id, j);
    } else {
        assert(stands_first(team, id, w));
    }
}

/// Putting a creature at the end of a line and then testing every creature is
/// testing the line first and the newcomer after it.
pub proof fn lemma_filter_push(team: Seq<Creature>, c: Creature, test: spec_fn(Creature) -> bool)
    ensures
        team.push(c).filter(test) == if test(c) {
            team.filter(test).push(c)
        } else {
            team.filter(test)
        },
{
    reveal(Seq::filter);
    assert(team.push(c).drop_last() =~= team);
}

/// Testing twice in a row is testing once for both.
pub proof fn lemma_filter_twice(
    team: Seq<Creature>,
    first: spec_fn(Creature) -> bool,
    second: spec_fn(Creature) -> bool,
    both: spec_fn(Creature) -> bool,
)
    requires
        forall|c: Creature| #[trigger] both(c) == (first(c) && second(c)),
    ensures
        team.filter(first).filter(second) == team.filter(both),
    decreases team.len(),
{
    reveal(Seq::filter);
    if team.len() > 0 {
        let rest = team.drop_last();
        let c = team.last();
        lemma_filter_twice(rest, first, second, both);
        assert(team =~= rest.push(c));
        lemma_filter_push(rest, c, first);
        lemma_filter_push(rest, c, both);
        if first(c) {
            lemma_filter_push(rest.filter(first), c, second);
        }
    } else {
        assert(team.filter(first) =~= team);
    }
}

/// A test that every creature of the line passes takes nothing out.
pub proof fn lemma_filter_all(team: Seq<Creature>, test: spec_fn(Creature) -> bool)
    requires
        forall|i: int| 0 <= i < team.len() ==> test(#[trigger] team[i]),
    ensures
        team.filter(test) == team,
    decreases team.len(),
{
    reveal(Seq::filter);
    if team.len() > 0 {
        let rest = team.drop_last();
        lemma_filter_all(rest, test);
        assert(team =~= rest.push(team.last()));
    }
}

/// What a test lets through are the creatures of the line that pass it, each
/// once and in the order of the line: the result says where each one stood.
pub proof fn lemma_filter_from(team: Seq<Creature>, test: spec_fn(Creature) -> bool) -> (from: Seq<int>)
    ensures
        from.len() == team.filter(test).len(),
        forall|k: int|
            0 <= k < from.len() ==> 0 <= #[trigger] from[k] < team.len() && team.filter(test)[k]
                == team[from[k]] && test(team[from[k]]),
        forall|k: int, l: int| 0 <= k < l < from.len() ==> #[trigger] from[k] < #[trigger] from[l],
        forall|i: int|
            0 <= i < team.len() && test(#[trigger] team[i]) ==> exists|k: int|
                0 <= k < from.len() && #[trigger] from[k] == i,
        comes_from(team, team.filter(test), from),
    decreases team.len(),
{
    reveal(Seq::filter);
    if team.len() == 0 {
        Seq::<int>::empty()
    } else {
        let rest = team.drop_last();
        let c = team.last();
        let before = lemma_filter_from(rest, test);
        assert(team =~= rest.push(c));
        lemma_filter_push(rest, c, test);
        let from = if test(c) {
            before.push(team.len() - 1)
        } else {
            before
        };
        assert forall|i: int| 0 <= i < team.len() && test(#[trigger] team[i]) implies exists|
            k: int,
        |
            0 <= k < from.len() && #[trigger] from[k] == i by {
            if i < rest.len() {
                assert(test(rest[i]));
                let k = choose|k: int| 0 <= k < before.len() && #[trigger] before[k] == i;
                assert(from[k] == i);
            } else {
                assert(from[from.len() - 1] == i);
            }
        }
        from
    }
}

/// Looks for the first member of `team` with `id`.
pub fn find(team: &Vec<(u128, Animal)>, id: u128) -> (found: Option<usize>)
    ensures
        match found {
            Some(i) => first_at(roster(team@), id) == Some(i as int),
            None => first_at(roster(team@), id).is_none(),
        },
{
    let mut i: usize = 0;
    while i < team.len()
        invariant
            i <= team@.len(),
            forall|j: int| 0 <= j < i ==> (#[trigger] roster(team@)[j]).id != id,
        decreases team@.len() - i,
    {
        if team[i].0 == id {
            proof {
                assert(stands_first(roster(team@), id, i as int));
                lemma_first_at(roster(team@), id);
            }
            return Some(i);
        }
        i += 1;
    }
    proof {
        lemma_first_at(roster(team@), id);
    }
    None
}

/// Takes every member with `id` out of `team`. The others stay as they are
/// and in their order; a team without such a member is left alone.
pub fn discard(team: &mut Vec<(u128, Animal)>, id: u128)
    ensures
        roster(final(team)@) == roster(old(team)@).filter(not_id(id)),
{
    let mut kept: Vec<(u128, Animal)> = Vec::new();
    let mut i: usize = 0;
    proof {
        reveal(Seq::filter);
        assert(roster(team@).take(0) =~= Seq::<Creature>::empty());
        assert(roster(kept@) =~= Seq::<Creature>::empty());
    }
    while i < team.len()
        invariant
            i <= team@.len(),
            roster(kept@) == roster(team@).take(i as int).filter(not_id(id)),
        decreases team@.len() - i,
    {
        let member = team[i];
        proof {
            let line = roster(team@);
            assert(line.take(i + 1) =~= line.take(i as int).push(creature(member)));
            lemma_filter_push(line.take(i as int), creature(member), not_id(id));
            assert(roster(kept@.push(member)) =~= roster(kept@).push(creature(member)));
        }
        if member.0 != id {
            kept.push(member);
        }
        i += 1;
    }
    proof {
        assert(roster(team@).take(i as int) =~= roster(team@));
    }
    *team = kept;
}

} // verus!
