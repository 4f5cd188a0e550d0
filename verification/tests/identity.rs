use silly_animals::animal::{beastiary, Animal, AnimalClass};
use silly_animals::identity::enlist;
use silly_animals::scene::Scene;

fn plain(health: i32) -> Animal {
    Animal { class: AnimalClass { icon: 'x' }, health, attack: 1 }
}

#[test]
fn enlisted_animals_keep_their_order_and_numbers() {
    let team = enlist(beastiary());
    let animals: Vec<Animal> = team.iter().map(|member| member.1).collect();
    assert_eq!(animals, beastiary());
    assert!(enlist(vec![]).is_empty());
}

#[test]
fn drawn_identifiers_are_random_ones() {
    let team = enlist(beastiary());
    assert_eq!(team.len(), 10);
    for (id, _) in team.iter() {
        assert_eq!(id & 0x0000_0000_0000_f000_c000_0000_0000_0000, 0x0000_0000_0000_4000_8000_0000_0000_0000);
        let read_back = uuid::Uuid::from_u128(*id);
        assert_eq!(read_back.get_version_num(), 4);
        assert_eq!(read_back.as_u128(), *id);
    }
}

#[test]
fn drawn_identifiers_make_a_scene() {
    let left = enlist(beastiary());
    let right = enlist(beastiary());
    let first = left[0].0;
    assert!(left.iter().skip(1).all(|member| member.0 != first));
    let scene = Scene::new(left.clone(), right.clone()).unwrap();
    assert!(scene.is_well_formed());
    assert_eq!(scene.team1, left);
    assert_eq!(scene.team2, right);
}

#[test]
fn scene_is_made_of_the_teams_as_given() {
    let scene = Scene::new(vec![(3, plain(1)), (1, plain(2))], vec![(2, plain(3))]).unwrap();
    assert_eq!(scene.team1, vec![(3, plain(1)), (1, plain(2))]);
    assert_eq!(scene.team2, vec![(2, plain(3))]);
    let empty = Scene::new(vec![], vec![]).unwrap();
    assert!(empty.team1.is_empty() && empty.team2.is_empty());
}

#[test]
fn no_scene_with_an_identifier_twice() {
    assert!(Scene::new(vec![(1, plain(1)), (1, plain(2))], vec![(2, plain(3))]).is_none());
    assert!(Scene::new(vec![(1, plain(1))], vec![(2, plain(3)), (4, plain(3)), (2, plain(3))]).is_none());
    assert!(Scene::new(vec![(1, plain(1)), (5, plain(1))], vec![(2, plain(3)), (5, plain(3))]).is_none());
    assert!(Scene::new(vec![(1, plain(1)), (5, plain(1))], vec![(2, plain(3)), (6, plain(3))]).is_some());
}

#[test]
fn well_formed_is_about_identifiers_only() {
    let same_animals = Scene { team1: vec![(1, plain(1)), (2, plain(1))], team2: vec![(3, plain(1))] };
    assert!(same_animals.is_well_formed());
    let across = Scene { team1: vec![(1, plain(1))], team2: vec![(1, plain(2))] };
    assert!(!across.is_well_formed());
    let within_right = Scene { team1: vec![], team2: vec![(4, plain(1)), (4, plain(2))] };
    assert!(!within_right.is_well_formed());
}
