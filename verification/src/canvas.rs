//! Where the animals of a scene are drawn: the middle of the canvas, the left
//! team to the left of it and the right team to the right, and under each
//! animal its health and its attack.

use vstd::prelude::*;
use crate::animal::Animal;
use crate::scene::{Scene, Side};

verus! {

/// What is drawn in one place.
#[derive(Clone, Copy, PartialEq, Eq, Debug)]
pub enum Glyph {
    /// The animal itself.
    Icon(char),
    /// Its health, with a heart behind the number.
    Health(i32),
    /// Its attack, with two swords behind the number.
    Attack(i32),
}

/// Something to draw, and the column and the row where it begins. Columns
/// and rows are counted from one.
#[derive(Clone, Copy, PartialEq, Eq, Debug)]
pub struct Cell {
    pub x: u16,
    pub y: u16,
    pub glyph: Glyph,
}

/// A cell with its place as unbounded integers.
pub struct Spot {
    pub x: int,
    pub y: int,
    pub glyph: Glyph,
}

impl View for Cell {
    type V = Spot;

    open spec fn view(&self) -> Spot {
        Spot { x: self.x as int, y: self.y as int, glyph: self.glyph }
    }
}

/// The spots of the cells, in order.
pub open spec fn spots(cells: Seq<Cell>) -> Seq<Spot> {
    Seq::new(cells.len(), |i: int| cells[i]@)
}

/// The column in the middle, between the two teams.
pub open spec fn middle() -> int {
    29
}

/// The row on which the animals stand.
pub open spec fn ground() -> int {
    9
}

/// The column of the animal at place `ix` of its team: four columns from
/// the middle for the one at the front, and five more for each one behind it.
pub open spec fn column(side: Side, ix: int) -> int {
    match side {
        Side::Left => middle() - 4 - ix * 5,
        Side::Right => middle() + 4 + ix * 5,
    }
}

/// How far to the left a number begins, so that a number of two digits sits
/// under its animal.
pub open spec fn indent(value: int) -> int {
    if value < 10 {
        0
    } else {
        1
    }
}

/// The three spots of an animal drawn at column `x` and row `y`: the icon,
/// the health one row below, the attack two rows below.
pub open spec fn animal_spots(x: int, y: int, animal: Animal) -> Seq<Spot> {
    seq![
        Spot { x: x, y: y, glyph: Glyph::Icon(animal.class.icon) },
        Spot { x: x - indent(animal.health as int), y: y + 1, glyph: Glyph::Health(animal.health) },
        Spot { x: x - indent(animal.attack as int), y: y + 2, glyph: Glyph::Attack(animal.attack) },
    ]
}

/// The three spots of the animal are columns and rows that can be counted.
pub open spec fn animal_fits(x: int, y: int, animal: Animal) -> bool {
    &&& 0 <= x - indent(animal.health as int)
    &&& 0 <= x - indent(animal.attack as int)
    &&& x <= u16::MAX
    &&& 0 <= y
    &&& y + 2 <= u16::MAX
}

/// The spots of a team, from the animal at the front to the last.
pub open spec fn team_spots(side: Side, team: Seq<(u128, Animal)>) -> Seq<Spot>
    decreases team.len(),
{
    if team.len() == 0 {
        Seq::empty()
    } else {
        team_spots(side, team.drop_last()) + animal_spots(
            column(side, team.len() - 1),
            ground(),
            team.last().1,
        )
    }
}

/// Every animal of the team has its three spots on the canvas.
pub open spec fn team_fits(side: Side, team: Seq<(u128, Animal)>) -> bool {
    forall|ix: int|
        0 <= ix < team.len() ==> animal_fits(column(side, ix), ground(), (#[trigger] team[ix]).1)
}

/// Adds the three cells of an animal to those that are there.
fn push_animal(cells: &mut Vec<Cell>, x: u16, y: u16, animal: &Animal)
    requires
        animal_fits(x as int, y as int, *animal),
    ensures
        spots(final(cells)@) == spots(old(cells)@) + animal_spots(x as int, y as int, *animal),
{
    let below_health: u16 = if animal.health < 10 {
        0
    } else {
        1
    };
    let below_attack: u16 = if animal.attack < 10 {
        0
    } else {
        1
    };
    cells.push(Cell { x, y, glyph: Glyph::Icon(animal.class.icon) });
    cells.push(Cell { x: x - below_health, y: y + 1, glyph: Glyph::Health(animal.health) });
    cells.push(Cell { x: x - below_attack, y: y + 2, glyph: Glyph::Attack(animal.attack) });
    assert(spots(cells@) =~= spots(old(cells)@) + animal_spots(x as int, y as int, *animal));
}

/// The cells of one animal drawn at column `x` and row `y`.
pub fn render_animal(x: u16, y: u16, animal: &Animal) -> (cells: Vec<Cell>)
    requires
        animal_fits(x as int, y as int, *animal),
    ensures
        spots(cells@) == animal_spots(x as int, y as int, *animal),
{
    let mut cells: Vec<Cell> = Vec::new();
    push_animal(&mut cells, x, y, animal);
    assert(spots(Seq::<Cell>::empty()) + animal_spots(x as int, y as int, *animal)
        =~= animal_spots(x as int, y as int, *animal));
    cells
}

/// Adds the cells of a team to those that are there.
fn push_team(cells: &mut Vec<Cell>, side: Side, team: &Vec<(u128, Animal)>)
    requires
        team_fits(side, team@),
    ensures
        spots(final(cells)@) == spots(old(cells)@) + team_spots(side, team@),
{
    let mut ix: usize = 0;
    assert(team@.take(0) =~= Seq::<(u128, Animal)>::empty());
    assert(spots(cells@) =~= spots(old(cells)@) + team_spots(side, team@.take(0)));
    while ix < team.len()
        invariant
            ix <= team@.len(),
            team_fits(side, team@),
            spots(cells@) == spots(old(cells)@) + team_spots(side, team@.take(ix as int)),
        decreases team@.len() - ix,
    {
        let animal = &team[ix].1;
        assert(animal_fits(column(side, ix as int), ground(), team@[ix as int].1));
        let x: u16 = match side {
            Side::Left => 29 - 4 - (ix as u16) * 5,
            Side::Right => 29 + 4 + (ix as u16) * 5,
        };
        let ghost before = cells@;
        push_animal(cells, x, 9, animal);
        proof {
            let seen = team@.take(ix + 1);
            assert(seen.drop_last() =~= team@.take(ix as int));
            assert(seen.last() == team@[ix as int]);
            assert(spots(cells@) =~= spots(old(cells)@) + team_spots(side, seen));
        }
        ix += 1;
    }
    assert(team@.take(ix as int) =~= team@);
}

/// The cells of both teams: those of the right team, from its front to its
/// end, and then those of the left team in the same way.
pub fn render_teams(scene: &Scene) -> (cells: Vec<Cell>)
    requires
        team_fits(Side::Left, scene.team1@),
        team_fits(Side::Right, scene.team2@),
    ensures
        spots(cells@) == team_spots(Side::Right, scene.team2@) + team_spots(
            Side::Left,
            scene.team1@,
        ),
{
    let mut cells: Vec<Cell> = Vec::new();
    push_team(&mut cells, Side::Right, &scene.team2);
    push_team(&mut cells, Side::Left, &scene.team1);
    assert(spots(cells@) =~= team_spots(Side::Right, scene.team2@) + team_spots(
        Side::Left,
        scene.team1@,
    ));
    cells
}

/// Says whether every animal of the team has its three spots on the canvas.
fn team_can_render(side: Side, team: &Vec<(u128, Animal)>) -> (ok: bool)
    ensures
        ok == team_fits(side, team@),
{
    let mut ix: usize = 0;
    while ix < team.len()
        invariant
            ix <= team@.len(),
            forall|k: int|
                0 <= k < ix ==> animal_fits(column(side, k), ground(), (#[trigger] team@[k]).1),
        decreases team@.len() - ix,
    {
        let animal = &team[ix].1;
        let wide = animal.health >= 10 || animal.attack >= 10;
        let fits = match side {
            Side::Left => ix < 5 || (ix == 5 && !wide),
            Side::Right => ix <= 13100,
        };
        if !fits {
            assert(!animal_fits(column(side, ix as int), ground(), team@[ix as int].1));
            return false;
        }
        ix += 1;
    }
    true
}

/// Says whether every animal of the scene has its three spots on the canvas.
/// That holds of a left team of up to five animals, of a sixth whose numbers
/// have one digit, and of a right team of up to 13101.
pub fn can_render(scene: &Scene) -> (ok: bool)
    ensures
        ok == (team_fits(Side::Left, scene.team1@) && team_fits(Side::Right, scene.team2@)),
{
    team_can_render(Side::Left, &scene.team1) && team_can_render(Side::Right, &scene.team2)
}

} // verus!
