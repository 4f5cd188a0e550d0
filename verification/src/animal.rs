//! Animals and their mathematical model.

use vstd::prelude::*;

verus! {

/// The kind of an animal: what it is drawn as. It has no bearing on a battle.
#[derive(Clone, Copy, Debug, PartialEq, Eq)]
pub struct AnimalClass {
    pub icon: char,
}

/// An animal with the two numbers that a battle works on.
#[derive(Clone, Copy, Debug, PartialEq, Eq)]
pub struct Animal {
    pub class: AnimalClass,
    /// What is left of its health. It may fall below zero while a round is
    /// being settled.
    pub health: i32,
    /// The damage it deals with each blow.
    pub attack: i32,
}

/// An animal on the field, as the contracts see it: who it is, what it looks
/// like, and its two numbers as unbounded integers.
pub struct Creature {
    pub id: u128,
    pub icon: char,
    pub health: int,
    pub attack: int,
}

impl Creature {
    /// The creature is out of the battle.
    pub open spec fn defeated(self) -> bool {
        self.health <= 0
    }

    /// The same creature, whatever its health.
    pub open spec fn alike(self, other: Creature) -> bool {
        self.id == other.id && self.icon == other.icon && self.attack == other.attack
    }

    /// The creature after a blow of `amount`; nothing stops at zero.
    pub open spec fn struck(self, amount: int) -> Creature {
        Creature { health: self.health - amount, ..self }
    }
}

/// The creature that a team's entry stands for.
pub open spec fn creature(member: (u128, Animal)) -> Creature {
    Creature {
        id: member.0,
        icon: member.1.class.icon,
        health: member.1.health as int,
        attack: member.1.attack as int,
    }
}

/// The creatures that a team's entries stand for, in the same order.
pub open spec fn roster(team: Seq<(u128, Animal)>) -> Seq<Creature> {
    Seq::new(team.len(), |i: int| creature(team[i]))
}

/// What `beastiary` lists: icon, health and attack of each animal.
pub open spec fn beasts() -> Seq<(char, int, int)> {
    seq![
        ('\u{1F41F}', 2, 2),
        ('\u{1F41C}', 1, 2),
        ('\u{1F416}', 1, 4),
        ('\u{1F40E}', 1, 2),
        ('\u{1F986}', 3, 2),
        ('\u{1F9A6}', 1, 2),
        ('\u{1F9AB}', 1, 2),
        ('\u{1F99F}', 2, 2),
        ('\u{1F997}', 2, 1),
        ('?', 99, 99),
    ]
}

/// Icon, health and attack of an animal.
pub open spec fn traits(animal: Animal) -> (char, int, int) {
    (animal.class.icon, animal.health as int, animal.attack as int)
}

/// The animals that the game knows, in the order in which teams are drawn
/// from them: fish, ant, pig, horse, duck, otter, beaver, mosquito, cricket and
/// one that nobody has seen.
pub fn beastiary() -> (animals: Vec<Animal>)
    ensures
        animals@.len() == beasts().len(),
        forall|i: int| 0 <= i < animals@.len() ==> traits(#[trigger] animals@[i]) == beasts()[i],
{
    let mut animals: Vec<Animal> = Vec::new();
    animals.push(Animal { class: AnimalClass { icon: '\u{1F41F}' }, health: 2, attack: 2 });
    animals.push(Animal { class: AnimalClass { icon: '\u{1F41C}' }, health: 1, attack: 2 });
    animals.push(Animal { class: AnimalClass { icon: '\u{1F416}' }, health: 1, attack: 4 });
    animals.push(Animal { class: AnimalClass { icon: '\u{1F40E}' }, health: 1, attack: 2 });
    animals.push(Animal { class: AnimalClass { icon: '\u{1F986}' }, health: 3, attack: 2 });
    animals.push(Animal { class: AnimalClass { icon: '\u{1F9A6}' }, health: 1, attack: 2 });
    animals.push(Animal { class: AnimalClass { icon: '\u{1F9AB}' }, health: 1, attack: 2 });
    animals.push(Animal { class: AnimalClass { icon: '\u{1F99F}' }, health: 2, attack: 2 });
    animals.push(Animal { class: AnimalClass { icon: '\u{1F997}' }, health: 2, attack: 1 });
    animals.push(Animal { class: AnimalClass { icon: '?' }, health: 99, attack: 99 });
    animals
}

} // verus!
