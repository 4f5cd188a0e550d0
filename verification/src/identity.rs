//! Identifiers: where they come from, and scenes in which each animal has one
//! of its own.

use vstd::prelude::*;
use crate::animal::{roster, Animal};
use crate::roster::{find, holds, lemma_first_at, stands_first};
use crate::scene::{Scene, SceneView, Side};

verus! {

/// The identifier has the marks of one that was drawn at random: the four
/// bits that say how it was made hold 4, and the two bits above the
/// sixty-second hold binary 10.
pub open spec fn is_random_id(id: u128) -> bool {
    id & 0x0000_0000_0000_f000_c000_0000_0000_0000 == 0x0000_0000_0000_4000_8000_0000_0000_0000
}

/// A new identifier: `uuid::Uuid::new_v4`, read as a number by
/// `Uuid::as_u128`.
///
/// Not proved. The crate draws 128 bits from the operating system, then
/// clears and sets the six bits that mark a random identifier, which is all
/// that is claimed here; that two draws differ is likely and not promised.
/// The call panics where the system hands out no random bytes.
#[verifier::external_body]
fn fresh_id() -> (id: u128)
    ensures
        is_random_id(id),
{
    uuid::Uuid::new_v4().as_u128()
}

/// Gives each animal a freshly drawn identifier, in the order of the animals.
/// The identifiers are whatever was drawn: nothing says that they differ,
/// which is for `Scene::new` to find out.
pub fn enlist(animals: Vec<Animal>) -> (team: Vec<(u128, Animal)>)
    ensures
        team@.len() == animals@.len(),
        forall|i: int|
            0 <= i < team@.len() ==> (#[trigger] team@[i]).1 == animals@[i] && is_random_id(
                team@[i].0,
            ),
{
    let mut team: Vec<(u128, Animal)> = Vec::new();
    let mut i: usize = 0;
    while i < animals.len()
        invariant
            i <= animals@.len(),
            team@.len() == i,
            forall|k: int|
                0 <= k < i ==> (#[trigger] team@[k]).1 == animals@[k] && is_random_id(team@[k].0),
        decreases animals@.len() - i,
    {
        let id = fresh_id();
        team.push((id, animals[i]));
        i += 1;
    }
    team
}

impl SceneView {
    /// Every creature is the first to be found under its identifier.
    pub open spec fn unmistakable(self) -> bool {
        &&& forall|i: int|
            0 <= i < self.left.len() ==> self.holder((#[trigger] self.left[i]).id) == Some(
                (Side::Left, i),
            )
        &&& forall|i: int|
            0 <= i < self.right.len() ==> self.holder((#[trigger] self.right[i]).id) == Some(
                (Side::Right, i),
            )
    }

    /// The creatures all differ exactly if each is the first to be found under
    /// its identifier.
    pub proof fn lemma_unmistakable(self)
        ensures
            self.unmistakable() == self.well_formed(),
    {
        let n = self.left.len() as int;
        if self.well_formed() {
            assert forall|i: int| 0 <= i < self.left.len() implies self.holder(
                (#[trigger] self.left[i]).id,
            ) == Some((Side::Left, i)) by {
                let id = self.left[i].id;
                assert forall|j: int| 0 <= j < i implies (#[trigger] self.left[j]).id != id by {
                    assert(self.all()[j].id != self.all()[i].id);
                }
                assert(stands_first(self.left, id, i));
                lemma_first_at(self.left, id);
            }
            assert forall|i: int| 0 <= i < self.right.len() implies self.holder(
                (#[trigger] self.right[i]).id,
            ) == Some((Side::Right, i)) by {
                let id = self.right[i].id;
                assert(self.all()[n + i].id == id);
                assert forall|j: int| 0 <= j < i implies (#[trigger] self.right[j]).id != id by {
                    assert(self.all()[n + j].id != self.all()[n + i].id);
                }
                assert(stands_first(self.right, id, i));
                lemma_first_at(self.right, id);
                lemma_first_at(self.left, id);
                if holds(self.left, id) {
                    let j = choose|j: int| 0 <= j < n && (#[trigger] self.left[j]).id == id;
                    assert(self.all()[j].id != self.all()[n + i].id);
                }
            }
        }
        if self.unmistakable() {
            assert forall|i: int, j: int| 0 <= i < j < self.all().len() implies (
            #[trigger] self.all()[i]).id != (#[trigger] self.all()[j]).id by {
                if j < n {
                    let id = self.left[j].id;
                    lemma_first_at(self.left, id);
                    assert(self.holder(id) == Some((Side::Left, j)));
                    assert(self.left[i].id != id);
                } else {
                    let id = self.right[j - n].id;
                    lemma_first_at(self.left, id);
                    lemma_first_at(self.right, id);
                    assert(self.holder(id) == Some((Side::Right, j - n)));
                    if i < n {
                        assert(self.left[i].id != id);
                    } else {
                        assert(self.right[i - n].id != id);
                    }
                }
            }
        }
    }
}

impl Scene {
    /// Puts two teams on the field, if each animal has an identifier of its
    /// own. Teams in which an identifier occurs twice, in one of them or
    /// across the two, make no scene.
    pub fn new(team1: Vec<(u128, Animal)>, team2: Vec<(u128, Animal)>) -> (made: Option<Scene>)
        ensures
            made.is_some() == (SceneView {
                left: roster(team1@),
                right: roster(team2@),
            }).well_formed(),
            made matches Some(scene) ==> scene.team1@ == team1@ && scene.team2@ == team2@,
    {
        let scene = Scene { team1, team2 };
        if scene.is_well_formed() {
            Some(scene)
        } else {
            None
        }
    }

    /// Says whether each animal of the scene has an identifier of its own.
    pub fn is_well_formed(&self) -> (ok: bool)
        ensures
            ok == self@.well_formed(),
    {
        proof {
            self@.lemma_unmistakable();
        }
        let mut i: usize = 0;
        while i < self.team1.len()
            invariant
                i <= self.team1@.len(),
                self@.unmistakable() == self@.well_formed(),
                forall|k: int|
                    0 <= k < i ==> self@.holder((#[trigger] self@.left[k]).id) == Some(
                        (Side::Left, k),
                    ),
            decreases self.team1@.len() - i,
        {
            match find(&self.team1, self.team1[i].0) {
                Some(k) => {
                    if k != i {
                        assert(self@.holder(self@.left[i as int].id) != Some(
                            (Side::Left, i as int),
                        ));
                        return false;
                    }
                },
                None => {
                    assert(self@.holder(self@.left[i as int].id) != Some((Side::Left, i as int)));
                    return false;
                },
            }
            i += 1;
        }
        let mut j: usize = 0;
        while j < self.team2.len()
            invariant
                j <= self.team2@.len(),
                self@.unmistakable() == self@.well_formed(),
                forall|k: int|
                    0 <= k < self.team1@.len() ==> self@.holder((#[trigger] self@.left[k]).id)
                        == Some((Side::Left, k)),
                forall|k: int|
                    0 <= k < j ==> self@.holder((#[trigger] self@.right[k]).id) == Some(
                        (Side::Right, k),
                    ),
            decreases self.team2@.len() - j,
        {
            let id = self.team2[j].0;
            if find(&self.team1, id).is_some() {
                assert(self@.holder(self@.right[j as int].id) != Some((Side::Right, j as int)));
                return false;
            }
            match find(&self.team2, id) {
                Some(k) => {
                    if k != j {
                        assert(self@.holder(self@.right[j as int].id) != Some(
                            (Side::Right, j as int),
                        ));
                        return false;
                    }
                },
                None => {
                    assert(self@.holder(self@.right[j as int].id) != Some(
                        (Side::Right, j as int),
                    ));
                    return false;
                },
            }
            j += 1;
        }
        true
    }
}

} // verus!
