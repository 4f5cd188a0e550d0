//! What holds of every battle, proved from the definitions of the rounds.

use vstd::prelude::*;
use crate::animal::{creature, roster, Animal, Creature};
use crate::roster::{
    comes_from, defeated_ids, first_at, holds, is_defeated, is_standing, keeps_order,
    lemma_filter_all, lemma_filter_from, lemma_filter_twice, lemma_first_at, not_among, not_id,
    stands_first,
};
use crate::scene::{lemma_sweep_settles, Event, Scene, SceneView, Side, State};

verus! {

/// Two teams with the same creatures have the same members: the model leaves
/// nothing of an animal out.
pub proof fn roster_is_faithful(one: Seq<(u128, Animal)>, other: Seq<(u128, Animal)>)
    requires
        roster(one) == roster(other),
    ensures
        one == other,
{
    assert(one.len() == roster(one).len());
    assert(other.len() == roster(other).len());
    assert forall|i: int| 0 <= i < one.len() implies one[i] == other[i] by {
        let (a, b) = (one[i], other[i]);
        assert(roster(one)[i] == creature(a));
        assert(roster(other)[i] == creature(b));
        assert(a.0 == b.0);
        assert(a.1.class.icon == b.1.class.icon);
        assert(a.1.class == b.1.class);
        assert(a.1.health == b.1.health);
        assert(a.1.attack == b.1.attack);
        assert(a.1 == b.1);
    }
    assert(one =~= other);
}

/// A battle in which both teams have a member is going on, whoever the
/// members are; and it is going on in no other case.
pub proof fn battling_iff_both_teams_stand(scene: SceneView)
    ensures
        scene.state() == State::Battling <==> scene.left.len() > 0 && scene.right.len() > 0,
        scene.state() == (State::Finished { winner: Some(Side::Left) }) <==> scene.left.len() > 0
            && scene.right.len() == 0,
        scene.state() == (State::Finished { winner: Some(Side::Right) }) <==> scene.left.len()
            == 0 && scene.right.len() > 0,
        scene.state() == (State::Finished { winner: None }) <==> scene.left.len() == 0
            && scene.right.len() == 0,
{
}

/// A round has one outcome. Two battles with the same members in the same
/// order have the same members in the same order after a round, down to the
/// last number.
pub proof fn round_is_deterministic(one: Scene, other: Scene, one_after: Scene, other_after: Scene)
    requires
        one.team1@ == other.team1@,
        one.team2@ == other.team2@,
        one_after@ == one@.after_round(),
        other_after@ == other@.after_round(),
    ensures
        one_after.team1@ == other_after.team1@,
        one_after.team2@ == other_after.team2@,
{
    roster_is_faithful(one_after.team1@, other_after.team1@);
    roster_is_faithful(one_after.team2@, other_after.team2@);
}

/// A blow changes nobody's place or identifier, and no health but that of
/// the creature it lands on.
pub proof fn hurt_keeps_places(scene: SceneView, id: u128, amount: int)
    ensures
        scene.hurt(id, amount).left.len() == scene.left.len(),
        scene.hurt(id, amount).right.len() == scene.right.len(),
        forall|i: int|
            0 <= i < scene.left.len() ==> (#[trigger] scene.hurt(id, amount).left[i]).alike(
                scene.left[i],
            ),
        forall|i: int|
            0 <= i < scene.right.len() ==> (#[trigger] scene.hurt(id, amount).right[i]).alike(
                scene.right[i],
            ),
        forall|other: u128| #[trigger]
            scene.hurt(id, amount).holder(other) == scene.holder(other),
        scene.well_formed() ==> scene.hurt(id, amount).well_formed(),
{
    let after = scene.hurt(id, amount);
    lemma_first_at(scene.left, id);
    lemma_first_at(scene.right, id);
    assert forall|other: u128| #[trigger] after.holder(other) == scene.holder(other) by {
        same_ids_same_place(scene.left, after.left, other);
        same_ids_same_place(scene.right, after.right, other);
    }
    if scene.well_formed() {
        assert forall|i: int, j: int| 0 <= i < j < after.all().len() implies (
        #[trigger] after.all()[i]).id != (#[trigger] after.all()[j]).id by {
            assert(after.all()[i].id == scene.all()[i].id);
            assert(after.all()[j].id == scene.all()[j].id);
        }
    }
}

/// Where an identifier is first found depends on the identifiers alone.
proof fn same_ids_same_place(one: Seq<Creature>, other: Seq<Creature>, id: u128)
    requires
        one.len() == other.len(),
        forall|i: int| 0 <= i < one.len() ==> (#[trigger] one[i]).id == other[i].id,
    ensures
        first_at(one, id) == first_at(other, id),
{
    lemma_first_at(one, id);
    lemma_first_at(other, id);
    match first_at(one, id) {
        Some(i) => {
            assert forall|j: int| 0 <= j < i implies (#[trigger] other[j]).id != id by {
                assert(one[j].id != id);
            }
            assert(stands_first(other, id, i));
        },
        None => {
            if holds(other, id) {
                let i = choose|i: int| 0 <= i < other.len() && (#[trigger] other[i]).id == id;
                assert(one[i].id == id);
            }
        },
    }
}

/// Where each of the two at the front can be felled by the other's blow,
/// both are gone after the round: nothing on the field bears the identifier of
/// either. The blows fall at once: that the left one is struck first does not
/// spare the right one.
pub proof fn mutual_kill(scene: SceneView)
    requires
        scene.state() == State::Battling,
        scene.well_formed(),
        scene.left[0].attack >= scene.right[0].health,
        scene.right[0].attack >= scene.left[0].health,
    ensures
        !holds(scene.after_round().left, scene.left[0].id),
        !holds(scene.after_round().right, scene.left[0].id),
        !holds(scene.after_round().left, scene.right[0].id),
        !holds(scene.after_round().right, scene.right[0].id),
        scene.after_round().lookup(scene.left[0].id).is_none(),
        scene.after_round().lookup(scene.right[0].id).is_none(),
{
    let l = scene.left[0];
    let r = scene.right[0];
    let struck = scene.exchange();
    exchange_lands(scene);
    let ids = struck.fallen();
    lemma_listed(struck, Side::Left, 0);
    lemma_listed(struck, Side::Right, 0);
    let after = scene.after_round();
    let from_left = lemma_filter_from(struck.left, not_among(ids));
    let from_right = lemma_filter_from(struck.right, not_among(ids));
    assert forall|k: int| 0 <= k < after.left.len() implies (#[trigger] after.left[k]).id != l.id
        && after.left[k].id != r.id by {
        assert(not_among(ids)(struck.left[from_left[k]]));
    }
    assert forall|k: int| 0 <= k < after.right.len() implies (#[trigger] after.right[k]).id
        != l.id && after.right[k].id != r.id by {
        assert(not_among(ids)(struck.right[from_right[k]]));
    }
    lemma_first_at(after.left, l.id);
    lemma_first_at(after.right, l.id);
    lemma_first_at(after.left, r.id);
    lemma_first_at(after.right, r.id);
}

/// In a battle whose creatures all differ, the exchange of blows takes from
/// the one at the front of each team the attack of the one at the front of
/// the other, and leaves everybody else as they were.
pub proof fn exchange_lands(scene: SceneView)
    requires
        scene.state() == State::Battling,
        scene.well_formed(),
    ensures
        scene.exchange().left == scene.left.update(
            0,
            scene.left[0].struck(scene.right[0].attack),
        ),
        scene.exchange().right == scene.right.update(
            0,
            scene.right[0].struck(scene.left[0].attack),
        ),
        scene.exchange().well_formed(),
{
    let l = scene.left[0];
    let r = scene.right[0];
    assert(stands_first(scene.left, l.id, 0));
    lemma_first_at(scene.left, l.id);
    let once = scene.hurt(l.id, r.attack);
    hurt_keeps_places(scene, l.id, r.attack);
    hurt_keeps_places(once, r.id, l.attack);
    lemma_first_at(scene.left, r.id);
    if holds(scene.left, r.id) {
        let i = choose|i: int| 0 <= i < scene.left.len() && (#[trigger] scene.left[i]).id == r.id;
        assert(scene.all()[i].id == r.id);
        assert(scene.all()[scene.left.len() as int].id == r.id);
    }
    assert(stands_first(scene.right, r.id, 0));
    lemma_first_at(scene.right, r.id);
    assert(once.holder(r.id) == scene.holder(r.id));
}

/// The identifier of a defeated creature is among those of the fallen.
proof fn lemma_listed(scene: SceneView, side: Side, i: int)
    requires
        side == Side::Left ==> 0 <= i < scene.left.len() && scene.left[i].defeated(),
        side == Side::Right ==> 0 <= i < scene.right.len() && scene.right[i].defeated(),
    ensures
        side == Side::Left ==> scene.fallen().contains(scene.left[i].id),
        side == Side::Right ==> scene.fallen().contains(scene.right[i].id),
{
    let left = defeated_ids(scene.left);
    let right = defeated_ids(scene.right);
    match side {
        Side::Left => {
            let from = lemma_filter_from(scene.left, is_defeated());
            let k = choose|k: int| 0 <= k < from.len() && #[trigger] from[k] == i;
            assert(left[k] == scene.left[i].id);
            assert(scene.fallen()[k] == scene.left[i].id);
        },
        Side::Right => {
            let from = lemma_filter_from(scene.right, is_defeated());
            let k = choose|k: int| 0 <= k < from.len() && #[trigger] from[k] == i;
            assert(right[k] == scene.right[i].id);
            assert(scene.fallen()[left.len() + k] == scene.right[i].id);
        },
    }
}

/// Taking out what bears an identifier a second time changes nothing.
pub proof fn removal_is_idempotent(scene: SceneView, id: u128)
    ensures
        scene.bury(id).bury(id) == scene.bury(id),
        scene.apply(Event::Kill(id)).apply(Event::Kill(id)) == scene.apply(Event::Kill(id)),
{
    lemma_filter_twice(scene.left, not_id(id), not_id(id), not_id(id));
    lemma_filter_twice(scene.right, not_id(id), not_id(id), not_id(id));
}

/// Taking out what bears an identifier that nobody bears changes nothing.
pub proof fn removal_of_absent_is_noop(scene: SceneView, id: u128)
    requires
        scene.lookup(id).is_none(),
    ensures
        scene.bury(id) == scene,
{
    lemma_first_at(scene.left, id);
    lemma_first_at(scene.right, id);
    lemma_filter_all(scene.left, not_id(id));
    lemma_filter_all(scene.right, not_id(id));
}

/// A blow at an identifier that nobody bears changes nothing.
pub proof fn blow_at_absent_is_noop(scene: SceneView, id: u128, amount: int)
    requires
        scene.lookup(id).is_none(),
    ensures
        scene.hurt(id, amount) == scene,
{
}

/// No event moves a creature past another: those that are left in a team
/// after it stand in the order in which they stood before.
pub proof fn event_keeps_order(scene: SceneView, event: Event)
    ensures
        keeps_order(scene.left, scene.apply(event).left),
        keeps_order(scene.right, scene.apply(event).right),
        scene.well_formed() ==> scene.apply(event).well_formed(),
{
    match event {
        Event::Damage(id, amount) => {
            hurt_keeps_places(scene, id, amount as int);
            let after = scene.hurt(id, amount as int);
            assert(comes_from(scene.left, after.left, Seq::new(scene.left.len(), |i: int| i)));
            assert(comes_from(scene.right, after.right, Seq::new(scene.right.len(), |i: int| i)));
        },
        Event::Kill(id) => {
            filter_keeps_field(scene, not_id(id));
        },
    }
}

/// No event puts a creature on the field. So a battle that is over stays
/// over: an empty team is empty after any event.
pub proof fn finished_is_final(scene: SceneView, event: Event)
    ensures
        scene.apply(event).left.len() <= scene.left.len(),
        scene.apply(event).right.len() <= scene.right.len(),
        scene.state() != State::Battling ==> scene.apply(event).state() != State::Battling,
{
    event_keeps_order(scene, event);
    let after = scene.apply(event);
    let from_left = choose|from: Seq<int>| comes_from(scene.left, after.left, from);
    let from_right = choose|from: Seq<int>| comes_from(scene.right, after.right, from);
    if from_left.len() > 0 {
        climbs(from_left, from_left.len() - 1);
    }
    if from_right.len() > 0 {
        climbs(from_right, from_right.len() - 1);
    }
}

/// Putting both teams through a test leaves each in its order, and leaves all
/// creatures different if they were.
proof fn filter_keeps_field(scene: SceneView, test: spec_fn(Creature) -> bool)
    ensures
        keeps_order(scene.left, scene.left.filter(test)),
        keeps_order(scene.right, scene.right.filter(test)),
        scene.well_formed() ==> (SceneView {
            left: scene.left.filter(test),
            right: scene.right.filter(test),
        }).well_formed(),
{
    let from_left = lemma_filter_from(scene.left, test);
    let from_right = lemma_filter_from(scene.right, test);
    let after = SceneView { left: scene.left.filter(test), right: scene.right.filter(test) };
    if scene.well_formed() {
        let n = after.left.len() as int;
        let m = scene.left.len() as int;
        assert forall|i: int, j: int| 0 <= i < j < after.all().len() implies (
        #[trigger] after.all()[i]).id != (#[trigger] after.all()[j]).id by {
            let a = if i < n {
                from_left[i]
            } else {
                m + from_right[i - n]
            };
            let b = if j < n {
                from_left[j]
            } else {
                m + from_right[j - n]
            };
            assert(after.all()[i] == scene.all()[a]);
            assert(after.all()[j] == scene.all()[b]);
            assert(a < b);
        }
    }
}

/// A round moves no creature past another: the survivors of a team stand in
/// the order in which they stood before the round. And if all creatures
/// differed before the round, they do after it.
pub proof fn round_keeps_order(scene: SceneView)
    requires
        scene.state() == State::Battling,
    ensures
        keeps_order(scene.left, scene.after_round().left),
        keeps_order(scene.right, scene.after_round().right),
        scene.after_round().left.len() <= scene.left.len(),
        scene.after_round().right.len() <= scene.right.len(),
        scene.well_formed() ==> scene.after_round().well_formed(),
{
    let l = scene.left[0];
    let r = scene.right[0];
    let once = scene.hurt(l.id, r.attack);
    let struck = scene.exchange();
    hurt_keeps_places(scene, l.id, r.attack);
    hurt_keeps_places(once, r.id, l.attack);
    let test = not_among(struck.fallen());
    filter_keeps_field(struck, test);
    let from_left = lemma_filter_from(struck.left, test);
    let from_right = lemma_filter_from(struck.right, test);
    assert(comes_from(scene.left, scene.after_round().left, from_left)) by {
        assert forall|k: int| 0 <= k < from_left.len() implies (
        #[trigger] scene.after_round().left[k]).alike(scene.left[from_left[k]]) by {
            assert(struck.left[from_left[k]].alike(once.left[from_left[k]]));
            assert(once.left[from_left[k]].alike(scene.left[from_left[k]]));
        }
    }
    assert(comes_from(scene.right, scene.after_round().right, from_right)) by {
        assert forall|k: int| 0 <= k < from_right.len() implies (
        #[trigger] scene.after_round().right[k]).alike(scene.right[from_right[k]]) by {
            assert(struck.right[from_right[k]].alike(once.right[from_right[k]]));
            assert(once.right[from_right[k]].alike(scene.right[from_right[k]]));
        }
    }
    if from_left.len() > 0 {
        climbs(from_left, from_left.len() - 1);
    }
    if from_right.len() > 0 {
        climbs(from_right, from_right.len() - 1);
    }
}

/// Places that grow from one to the next, none below zero, are each at least
/// as far along as their number.
proof fn climbs(from: Seq<int>, k: int)
    requires
        0 <= k < from.len(),
        forall|i: int| 0 <= i < from.len() ==> 0 <= #[trigger] from[i],
        forall|i: int, j: int| 0 <= i < j < from.len() ==> #[trigger] from[i] < #[trigger] from[j],
    ensures
        k <= from[k],
    decreases k,
{
    if k > 0 {
        climbs(from, k - 1);
    }
}

/// In a battle whose creatures all differ, those that leave after the blows
/// are those without health, and nobody else: the survivors are the creatures
/// with health left, as the blows left them.
pub proof fn sweep_takes_the_defeated(scene: SceneView)
    requires
        scene.well_formed(),
    ensures
        scene.sweep().left == scene.left.filter(is_standing()),
        scene.sweep().right == scene.right.filter(is_standing()),
{
    let ids = scene.fallen();
    let from_left = lemma_filter_from(scene.left, is_defeated());
    let from_right = lemma_filter_from(scene.right, is_defeated());
    let n = scene.left.len() as int;
    assert forall|i: int| 0 <= i < scene.all().len() implies (not_among(ids)(
        #[trigger] scene.all()[i],
    ) <==> is_standing()(scene.all()[i])) by {
        let c = scene.all()[i];
        if c.defeated() {
            if i < n {
                lemma_listed(scene, Side::Left, i);
            } else {
                lemma_listed(scene, Side::Right, i - n);
            }
        } else if ids.contains(c.id) {
            let k = choose|k: int| 0 <= k < ids.len() && ids[k] == c.id;
            let j = if k < from_left.len() {
                from_left[k]
            } else {
                n + from_right[k - from_left.len()]
            };
            assert(scene.all()[j].id == c.id);
            assert(scene.all()[j].defeated());
            assert(i != j);
            if i < j {
                assert(scene.all()[i].id != scene.all()[j].id);
            } else {
                assert(scene.all()[j].id != scene.all()[i].id);
            }
        }
    }
    assert forall|i: int| 0 <= i < scene.left.len() implies (not_among(ids)(
        #[trigger] scene.left[i],
    ) <==> is_standing()(scene.left[i])) by {
        assert(scene.all()[i] == scene.left[i]);
    }
    assert forall|i: int| 0 <= i < scene.right.len() implies (not_among(ids)(
        #[trigger] scene.right[i],
    ) <==> is_standing()(scene.right[i])) by {
        assert(scene.all()[n + i] == scene.right[i]);
    }
    same_test_same_rest(scene.left, not_among(ids), is_standing());
    same_test_same_rest(scene.right, not_among(ids), is_standing());
}

/// Two tests that agree on every creature of a line let the same through.
proof fn same_test_same_rest(
    team: Seq<Creature>,
    one: spec_fn(Creature) -> bool,
    other: spec_fn(Creature) -> bool,
)
    requires
        forall|i: int| 0 <= i < team.len() ==> (one(#[trigger] team[i]) <==> other(team[i])),
    ensures
        team.filter(one) == team.filter(other),
    decreases team.len(),
{
    reveal(Seq::filter);
    if team.len() > 0 {
        same_test_same_rest(team.drop_last(), one, other);
    }
}

/// A round is settled after the removals that follow the blows: nobody who is
/// left on the field is defeated, so that there is nothing to remove in a
/// further wave, and removing again would change nothing.
pub proof fn round_settles(scene: SceneView)
    requires
        scene.state() == State::Battling,
    ensures
        scene.after_round().fallen().len() == 0,
        scene.after_round().sweep() == scene.after_round(),
{
    lemma_sweep_settles(scene.exchange());
}

} // verus!
