//! The battle: two teams, the rounds they fight, and who has won.

use vstd::prelude::*;
use crate::animal::{creature, roster, Animal, Creature};
use crate::roster::{
    defeated_ids, discard, find, first_at, is_defeated, lemma_filter_all, lemma_filter_from,
    lemma_filter_push, lemma_filter_twice, not_among, not_id,
};

verus! {

/// One of the two teams.
#[derive(Clone, Copy, PartialEq, Eq, Debug, Structural)]
pub enum Side {
    Left,
    Right,
}

/// Whether the battle goes on, and who has won it if it does not.
#[derive(Clone, Copy, PartialEq, Eq, Debug, Structural)]
pub enum State {
    /// Both teams still have a member.
    Battling,
    /// A team is empty. The winner is the team that is not; where both are
    /// empty there is none.
    Finished { winner: Option<Side> },
}

/// Something that happens to one animal while a round is settled.
#[derive(Clone, Copy, PartialEq, Eq, Debug)]
pub enum Event {
    /// The animal with this identifier loses so much health.
    Damage(u128, i32),
    /// The animal with this identifier leaves its team.
    Kill(u128),
}

/// The two teams of a battle. The first member of each is the one that fights.
#[derive(Clone, Debug)]
pub struct Scene {
    pub team1: Vec<(u128, Animal)>,
    pub team2: Vec<(u128, Animal)>,
}

/// A battle as the contracts see it: the creatures of the left team and of
/// the right team, each in its order.
pub struct SceneView {
    pub left: Seq<Creature>,
    pub right: Seq<Creature>,
}

impl View for Scene {
    type V = SceneView;

    open spec fn view(&self) -> SceneView {
        SceneView { left: roster(self.team1@), right: roster(self.team2@) }
    }
}

impl SceneView {
    /// The state of the battle, which depends on nothing but which teams are
    /// empty.
    pub open spec fn state(self) -> State {
        if self.left.len() > 0 && self.right.len() > 0 {
            State::Battling
        } else if self.left.len() > 0 {
            State::Finished { winner: Some(Side::Left) }
        } else if self.right.len() > 0 {
            State::Finished { winner: Some(Side::Right) }
        } else {
            State::Finished { winner: None }
        }
    }

    /// Every creature on the field has an identifier of its own.
    pub open spec fn well_formed(self) -> bool {
        forall|i: int, j: int|
            0 <= i < j < self.all().len() ==> (#[trigger] self.all()[i]).id != (
            #[trigger] self.all()[j]).id
    }

    /// Both teams in one line, the left team first.
    pub open spec fn all(self) -> Seq<Creature> {
        self.left + self.right
    }

    /// The team and the place of the first creature with `id`. The left team
    /// is searched before the right one.
    pub open spec fn holder(self, id: u128) -> Option<(Side, int)> {
        match first_at(self.left, id) {
            Some(i) => Some((Side::Left, i)),
            None => match first_at(self.right, id) {
                Some(i) => Some((Side::Right, i)),
                None => None,
            },
        }
    }

    /// The creature with `id`, if a team has one.
    pub open spec fn lookup(self, id: u128) -> Option<Creature> {
        match self.holder(id) {
            Some((Side::Left, i)) => Some(self.left[i]),
            Some((Side::Right, i)) => Some(self.right[i]),
            None => None,
        }
    }

    /// The battle after the creature with `id` has lost `amount` of health.
    /// Nothing happens where no team has such a creature.
    pub open spec fn hurt(self, id: u128, amount: int) -> SceneView {
        match self.holder(id) {
            Some((Side::Left, i)) => SceneView {
                left: self.left.update(i, self.left[i].struck(amount)),
                right: self.right,
            },
            Some((Side::Right, i)) => SceneView {
                left: self.left,
                right: self.right.update(i, self.right[i].struck(amount)),
            },
            None => self,
        }
    }

    /// The battle after whatever has `id` was taken out of both teams.
    pub open spec fn bury(self, id: u128) -> SceneView {
        SceneView { left: self.left.filter(not_id(id)), right: self.right.filter(not_id(id)) }
    }

    /// The battle after one event.
    pub open spec fn apply(self, event: Event) -> SceneView {
        match event {
            Event::Damage(id, amount) => self.hurt(id, amount as int),
            Event::Kill(id) => self.bury(id),
        }
    }

    /// The health that the blow leaves is one that an animal can have.
    pub open spec fn hurt_fits(self, id: u128, amount: int) -> bool {
        match self.lookup(id) {
            Some(c) => i32::MIN <= c.health - amount <= i32::MAX,
            None => true,
        }
    }

    /// The event can be carried out on animals as they are stored.
    pub open spec fn admits(self, event: Event) -> bool {
        match event {
            Event::Damage(id, amount) => self.hurt_fits(id, amount as int),
            Event::Kill(_) => true,
        }
    }

    /// The battle after the events were carried out one after the other.
    pub open spec fn apply_all(self, events: Seq<Event>) -> SceneView
        decreases events.len(),
    {
        if events.len() == 0 {
            self
        } else {
            self.apply_all(events.drop_last()).apply(events.last())
        }
    }

    /// Each of the events can be carried out when its turn comes.
    pub open spec fn admits_all(self, events: Seq<Event>) -> bool
        decreases events.len(),
    {
        if events.len() == 0 {
            true
        } else {
            &&& self.admits_all(events.drop_last())
            &&& self.apply_all(events.drop_last()).admits(events.last())
        }
    }

    /// The identifiers of the defeated creatures: those of the left team in
    /// their order, then those of the right team in theirs.
    pub open spec fn fallen(self) -> Seq<u128> {
        defeated_ids(self.left) + defeated_ids(self.right)
    }

    /// The battle after the two at the front have struck each other. Both
    /// blows have the strength that the attackers had before the round: the
    /// left one is hit first, and what hits the right one is not weakened by
    /// that.
    pub open spec fn exchange(self) -> SceneView
        recommends
            self.state() == State::Battling,
    {
        self.hurt(self.left[0].id, self.right[0].attack).hurt(
            self.right[0].id,
            self.left[0].attack,
        )
    }

    /// The battle after everything that bears the identifier of a defeated
    /// creature has left its team.
    pub open spec fn sweep(self) -> SceneView {
        SceneView {
            left: self.left.filter(not_among(self.fallen())),
            right: self.right.filter(not_among(self.fallen())),
        }
    }

    /// The battle after one round: the exchange of blows, then the removal of
    /// the defeated.
    pub open spec fn after_round(self) -> SceneView
        recommends
            self.state() == State::Battling,
    {
        self.exchange().sweep()
    }

    /// Both blows of the round leave a health that an animal can have.
    pub open spec fn round_fits(self) -> bool
        recommends
            self.state() == State::Battling,
    {
        &&& self.hurt_fits(self.left[0].id, self.right[0].attack)
        &&& self.hurt(self.left[0].id, self.right[0].attack).hurt_fits(
            self.right[0].id,
            self.left[0].attack,
        )
    }
}

/// A removal for each of the identifiers, in their order.
pub open spec fn kills(ids: Seq<u128>) -> Seq<Event> {
    Seq::new(ids.len(), |i: int| Event::Kill(ids[i]))
}

impl Scene {
    /// Says whether the battle goes on and, if not, who has won. Nothing is
    /// remembered between calls: the answer is read off the teams as they are.
    pub fn get_state(&self) -> (state: State)
        ensures
            state == self@.state(),
            state == State::Battling <==> self.team1@.len() > 0 && self.team2@.len() > 0,
    {
        match (self.team1.len() > 0, self.team2.len() > 0) {
            (true, true) => State::Battling,
            (true, false) => State::Finished { winner: Some(Side::Left) },
            (false, true) => State::Finished { winner: Some(Side::Right) },
            (false, false) => State::Finished { winner: None },
        }
    }

    /// Hands out the first animal with `id`, looking through the left team and
    /// then the right one. What the caller does to the animal is done to the
    /// team's member; nothing else in the scene changes.
    pub fn animal_by_id(&mut self, id: u128) -> (found: Option<&mut Animal>)
        ensures
            match (found, old(self)@.holder(id)) {
                (Some(animal), Some((Side::Left, i))) => {
                    &&& *animal == old(self).team1@[i].1
                    &&& final(self).team1@ == old(self).team1@.update(i, (id, *final(animal)))
                    &&& final(self).team2@ == old(self).team2@
                },
                (Some(animal), Some((Side::Right, i))) => {
                    &&& *animal == old(self).team2@[i].1
                    &&& final(self).team1@ == old(self).team1@
                    &&& final(self).team2@ == old(self).team2@.update(i, (id, *final(animal)))
                },
                (None, None) => *final(self) == *old(self),
                _ => false,
            },
    {
        proof {
            crate::roster::lemma_first_at(roster(self.team1@), id);
            crate::roster::lemma_first_at(roster(self.team2@), id);
        }
        match find(&self.team1, id) {
            Some(i) => Some(&mut self.team1[i].1),
            None => match find(&self.team2, id) {
                Some(i) => Some(&mut self.team2[i].1),
                None => None,
            },
        }
    }

    /// Carries out one event: a blow lands on the animal it names, if that
    /// animal is still there, and a removal takes it out of its team.
    pub fn run_event(&mut self, event: Event)
        requires
            old(self)@.admits(event),
        ensures
            final(self)@ == old(self)@.apply(event),
            old(self)@.well_formed() ==> final(self)@.well_formed(),
    {
        proof {
            crate::guarantees::event_keeps_order(self@, event);
        }
        match event {
            Event::Damage(id, amount) => {
                proof {
                    crate::roster::lemma_first_at(roster(self.team1@), id);
                    crate::roster::lemma_first_at(roster(self.team2@), id);
                }
                if let Some(animal) = self.animal_by_id(id) {
                    animal.health -= amount;
                }
                assert(self@.left =~= old(self)@.hurt(id, amount as int).left);
                assert(self@.right =~= old(self)@.hurt(id, amount as int).right);
            },
            Event::Kill(id) => {
                discard(&mut self.team1, id);
                discard(&mut self.team2, id);
            },
        }
    }

    /// Says whether a round can be fought: the battle goes on, and neither of
    /// the two blows of the round leaves a health too low or too high for an
    /// animal to have.
    pub fn can_step(&self) -> (ok: bool)
        ensures
            ok == (self@.state() == State::Battling && self@.round_fits()),
    {
        if self.team1.len() == 0 || self.team2.len() == 0 {
            return false;
        }
        let left = self.team1[0];
        let right = self.team2[0];
        proof {
            assert(crate::roster::stands_first(self@.left, left.0, 0));
            crate::roster::lemma_first_at(self@.left, left.0);
            crate::roster::lemma_first_at(self@.left, right.0);
            crate::roster::lemma_first_at(self@.right, right.0);
            assert(crate::roster::stands_first(self@.right, right.0, 0));
            let once = self@.hurt(left.0, right.1.attack as int);
            crate::guarantees::hurt_keeps_places(self@, left.0, right.1.attack as int);
            assert(once.holder(right.0) == self@.holder(right.0));
        }
        match left.1.health.checked_sub(right.1.attack) {
            None => false,
            Some(health) => {
                let target = match find(&self.team1, right.0) {
                    Some(0) => health,
                    Some(i) => self.team1[i].1.health,
                    None => right.1.health,
                };
                target.checked_sub(left.1.attack).is_some()
            },
        }
    }

    /// Fights one round. The two animals at the front strike each other, each
    /// with the attack it had when the round began. Then the round is settled
    /// in waves: the events that are waiting are carried out in their order,
    /// after which both teams are looked through, the left one first, and a
    /// removal is put on the queue for every animal found without health. The
    /// round ends when a wave leaves nothing to do.
    ///
    /// A round can only be fought while the battle goes on.
    pub fn run_step(&mut self)
        requires
            old(self)@.state() == State::Battling,
            old(self)@.round_fits(),
        ensures
            final(self)@ == old(self)@.after_round(),
            old(self)@.well_formed() ==> final(self)@.well_formed(),
    {
        proof {
            crate::guarantees::round_keeps_order(self@);
        }
        let first = Event::Damage(self.team1[0].0, self.team2[0].1.attack);
        let second = Event::Damage(self.team2[0].0, self.team1[0].1.attack);
        let mut event_queue: Vec<Event> = Vec::new();
        event_queue.push(first);
        event_queue.push(second);
        let ghost start = self@;
        let ghost mut wave: int = 0;
        proof {
            assert(event_queue@ =~= seq![first, second]);
        }
        while event_queue.len() > 0
            invariant
                0 <= wave <= 2,
                wave == 0 ==> {
                    &&& self@ == start
                    &&& start.state() == State::Battling
                    &&& start.round_fits()
                    &&& first == Event::Damage(old(self).team1@[0].0, old(self).team2@[0].1.attack)
                    &&& second == Event::Damage(
                        old(self).team2@[0].0,
                        old(self).team1@[0].1.attack,
                    )
                    &&& event_queue@ == seq![first, second]
                },
                wave == 1 ==> self@ == start.exchange() && event_queue@ == kills(self@.fallen()),
                wave == 2 ==> self@ == start.after_round() && event_queue@.len() == 0,
                start == old(self)@,
            decreases 2 - wave,
        {
            let events = event_queue;
            event_queue = Vec::new();
            proof {
                if wave == 0 {
                    lemma_apply_pair(start, first, second);
                } else {
                    lemma_apply_kills(self@, self@.fallen());
                    lemma_sweep_settles(self@);
                }
            }
            let ghost before = self@;
            let mut i: usize = 0;
            while i < events.len()
                invariant
                    i <= events@.len(),
                    before.admits_all(events@),
                    self@ == before.apply_all(events@.take(i as int)),
                decreases events@.len() - i,
            {
                proof {
                    lemma_admits_prefix(before, events@, i + 1);
                    assert(events@.take(i + 1).drop_last() =~= events@.take(i as int));
                }
                self.run_event(events[i]);
                i += 1;
            }
            proof {
                assert(events@.take(i as int) =~= events@);
            }
            enqueue_defeated(&self.team1, &mut event_queue);
            enqueue_defeated(&self.team2, &mut event_queue);
            proof {
                let left = kills(defeated_ids(self@.left));
                let right = kills(defeated_ids(self@.right));
                assert(event_queue@ =~= kills(self@.fallen())) by {
                    assert(Seq::<Event>::empty() + left =~= left);
                    assert(left + right =~= kills(self@.fallen()));
                }
                wave = wave + 1;
            }
        }
        proof {
            if wave == 1 {
                assert(self@.fallen().len() == kills(self@.fallen()).len());
                lemma_filter_all(self@.left, not_among(self@.fallen()));
                lemma_filter_all(self@.right, not_among(self@.fallen()));
            }
        }
    }
}

/// Puts a removal on the queue for each member of `team` that is defeated, in
/// the order of the team.
fn enqueue_defeated(team: &Vec<(u128, Animal)>, queue: &mut Vec<Event>)
    ensures
        final(queue)@ == old(queue)@ + kills(defeated_ids(roster(team@))),
{
    let mut i: usize = 0;
    proof {
        reveal(Seq::filter);
        assert(roster(team@).take(0) =~= Seq::<Creature>::empty());
        assert(queue@ =~= old(queue)@ + kills(defeated_ids(roster(team@).take(0))));
    }
    while i < team.len()
        invariant
            i <= team@.len(),
            queue@ == old(queue)@ + kills(defeated_ids(roster(team@).take(i as int))),
        decreases team@.len() - i,
    {
        proof {
            let line = roster(team@);
            let c = creature(team@[i as int]);
            assert(line.take(i + 1) =~= line.take(i as int).push(c));
            lemma_filter_push(line.take(i as int), c, is_defeated());
            let seen = defeated_ids(line.take(i as int));
            if c.defeated() {
                assert(defeated_ids(line.take(i + 1)) =~= seen.push(c.id));
                assert(kills(seen.push(c.id)) =~= kills(seen).push(Event::Kill(c.id)));
                assert(old(queue)@ + kills(seen).push(Event::Kill(c.id)) =~= (old(queue)@ + kills(
                    seen,
                )).push(Event::Kill(c.id)));
            }
        }
        if team[i].1.health <= 0 {
            queue.push(Event::Kill(team[i].0));
        }
        i += 1;
    }
    proof {
        assert(roster(team@).take(i as int) =~= roster(team@));
    }
}

/// Two events in a row are carried out as the first and then the second.
proof fn lemma_apply_pair(scene: SceneView, first: Event, second: Event)
    ensures
        scene.apply_all(seq![first, second]) == scene.apply(first).apply(second),
        scene.admits_all(seq![first, second]) == (scene.admits(first) && scene.apply(
            first,
        ).admits(second)),
{
    let both = seq![first, second];
    let one = both.drop_last();
    assert(one =~= seq![first]);
    assert(one.drop_last() =~= Seq::<Event>::empty());
    assert(one.last() == first);
    assert(both.last() == second);
    assert(scene.apply_all(one.drop_last()) == scene);
    assert(scene.admits_all(one.drop_last()));
    assert(scene.apply_all(one) == scene.apply(first));
    assert(scene.admits_all(one) == scene.admits(first));
}

/// Events that can all be carried out can be carried out up to any point.
proof fn lemma_admits_prefix(scene: SceneView, events: Seq<Event>, k: int)
    requires
        scene.admits_all(events),
        0 <= k <= events.len(),
    ensures
        scene.admits_all(events.take(k)),
    decreases events.len(),
{
    if k == events.len() {
        assert(events.take(k) =~= events);
    } else {
        lemma_admits_prefix(scene, events.drop_last(), k);
        assert(events.drop_last().take(k) =~= events.take(k));
    }
}

/// Removals can always be carried out, and together they take out whatever
/// bears one of their identifiers.
proof fn lemma_apply_kills(scene: SceneView, ids: Seq<u128>)
    ensures
        scene.admits_all(kills(ids)),
        scene.apply_all(kills(ids)) == (SceneView {
            left: scene.left.filter(not_among(ids)),
            right: scene.right.filter(not_among(ids)),
        }),
    decreases ids.len(),
{
    if ids.len() == 0 {
        lemma_filter_all(scene.left, not_among(ids));
        lemma_filter_all(scene.right, not_among(ids));
    } else {
        let rest = ids.drop_last();
        let id = ids.last();
        lemma_apply_kills(scene, rest);
        assert(kills(ids).drop_last() =~= kills(rest));
        assert(kills(ids).last() == Event::Kill(id));
        assert forall|c: Creature| #[trigger]
            not_among(ids)(c) == (not_among(rest)(c) && not_id(id)(c)) by {
            if rest.contains(c.id) {
                let i = choose|i: int| 0 <= i < rest.len() && rest[i] == c.id;
                assert(ids[i] == c.id);
            }
            if ids.contains(c.id) {
                let i = choose|i: int| 0 <= i < ids.len() && ids[i] == c.id;
                if i < rest.len() {
                    assert(rest[i] == c.id);
                }
            }
            if c.id == id {
                assert(ids[ids.len() - 1] == c.id);
            }
        }
        lemma_filter_twice(scene.left, not_among(rest), not_id(id), not_among(ids));
        lemma_filter_twice(scene.right, not_among(rest), not_id(id), not_among(ids));
    }
}

/// The identifier of every defeated creature of a team is among those of its
/// defeated.
proof fn lemma_defeated_listed(team: Seq<Creature>, i: int)
    requires
        0 <= i < team.len(),
        team[i].defeated(),
    ensures
        defeated_ids(team).contains(team[i].id),
{
    let from = lemma_filter_from(team, is_defeated());
    let k = choose|k: int| 0 <= k < from.len() && #[trigger] from[k] == i;
    assert(defeated_ids(team)[k] == team[i].id);
}

/// What has passed a test that no defeated creature passes holds no defeated
/// creature.
proof fn lemma_none_defeated(team: Seq<Creature>, test: spec_fn(Creature) -> bool)
    requires
        forall|i: int| 0 <= i < team.len() && (#[trigger] team[i]).defeated() ==> !test(team[i]),
    ensures
        defeated_ids(team.filter(test)).len() == 0,
{
    let kept = team.filter(test);
    let from = lemma_filter_from(team, test);
    let gone = lemma_filter_from(kept, is_defeated());
    if gone.len() > 0 {
        let k = gone[0];
        assert(kept[k] == team[from[k]]);
        assert(team[from[k]].defeated());
    }
}

/// Once the defeated have been taken out, nobody on the field is defeated.
pub proof fn lemma_sweep_settles(scene: SceneView)
    ensures
        scene.sweep().fallen().len() == 0,
        scene.sweep().sweep() == scene.sweep(),
{
    let ids = scene.fallen();
    assert forall|i: int| 0 <= i < scene.left.len() && (#[trigger] scene.left[i]).defeated()
        implies !not_among(ids)(scene.left[i]) by {
        lemma_defeated_listed(scene.left, i);
        let k = choose|k: int|
            0 <= k < defeated_ids(scene.left).len() && defeated_ids(scene.left)[k]
                == scene.left[i].id;
        assert(ids[k] == scene.left[i].id);
    }
    assert forall|i: int| 0 <= i < scene.right.len() && (#[trigger] scene.right[i]).defeated()
        implies !not_among(ids)(scene.right[i]) by {
        lemma_defeated_listed(scene.right, i);
        let k = choose|k: int|
            0 <= k < defeated_ids(scene.right).len() && defeated_ids(scene.right)[k]
                == scene.right[i].id;
        assert(ids[defeated_ids(scene.left).len() + k] == scene.right[i].id);
    }
    lemma_none_defeated(scene.left, not_among(ids));
    lemma_none_defeated(scene.right, not_among(ids));
    let swept = scene.sweep();
    assert(swept.fallen() =~= Seq::<u128>::empty());
    lemma_filter_all(swept.left, not_among(swept.fallen()));
    lemma_filter_all(swept.right, not_among(swept.fallen()));
}

} // verus!
