use silly_animals::animal::{beastiary, Animal, AnimalClass};
use silly_animals::scene::{Event, Scene, Side, State};

fn animal(icon: char, health: i32, attack: i32) -> Animal {
    Animal { class: AnimalClass { icon }, health, attack }
}

fn scene(left: Vec<(u128, Animal)>, right: Vec<(u128, Animal)>) -> Scene {
    Scene { team1: left, team2: right }
}

fn ids(team: &Vec<(u128, Animal)>) -> Vec<u128> {
    team.iter().map(|member| member.0).collect()
}

fn healths(team: &Vec<(u128, Animal)>) -> Vec<i32> {
    team.iter().map(|member| member.1.health).collect()
}

#[test]
fn both_teams_standing_is_battling() {
    let s = scene(vec![(1, animal('a', 1, 1))], vec![(2, animal('b', 1, 1))]);
    assert_eq!(s.get_state(), State::Battling);
    let big = scene(
        vec![(1, animal('a', -3, 0)), (2, animal('b', 7, 7))],
        vec![(3, animal('c', 0, 0))],
    );
    assert_eq!(big.get_state(), State::Battling);
}

#[test]
fn empty_right_team_means_left_wins() {
    let s = scene(vec![(1, animal('a', 1, 1))], vec![]);
    assert_eq!(s.get_state(), State::Finished { winner: Some(Side::Left) });
}

#[test]
fn empty_left_team_means_right_wins() {
    let s = scene(vec![], vec![(2, animal('b', 1, 1))]);
    assert_eq!(s.get_state(), State::Finished { winner: Some(Side::Right) });
}

#[test]
fn two_empty_teams_are_a_draw() {
    let s = scene(vec![], vec![]);
    assert_eq!(s.get_state(), State::Finished { winner: None });
}

#[test]
fn state_follows_the_teams_without_being_stored() {
    let mut s = scene(vec![(1, animal('a', 1, 1))], vec![(2, animal('b', 1, 1))]);
    assert_eq!(s.get_state(), State::Battling);
    s.team2.clear();
    assert_eq!(s.get_state(), State::Finished { winner: Some(Side::Left) });
    s.team1.clear();
    assert_eq!(s.get_state(), State::Finished { winner: None });
}

#[test]
fn round_with_two_kills_is_a_draw() {
    let mut s = scene(vec![(1, animal('a', 2, 2))], vec![(2, animal('b', 1, 4))]);
    assert!(s.can_step());
    s.run_step();
    assert!(s.team1.is_empty());
    assert!(s.team2.is_empty());
    assert_eq!(s.get_state(), State::Finished { winner: None });
}

#[test]
fn blows_of_the_drawn_round_go_below_zero() {
    let mut s = scene(vec![(1, animal('a', 2, 2))], vec![(2, animal('b', 1, 4))]);
    s.run_event(Event::Damage(2, 2));
    s.run_event(Event::Damage(1, 4));
    assert_eq!(healths(&s.team2), vec![-1]);
    assert_eq!(healths(&s.team1), vec![-2]);
    assert_eq!(s.get_state(), State::Battling);
}

#[test]
fn round_with_one_kill_is_won_by_the_survivor() {
    let mut s = scene(vec![(1, animal('a', 3, 1))], vec![(2, animal('b', 1, 1))]);
    assert!(s.can_step());
    s.run_step();
    assert_eq!(ids(&s.team1), vec![1]);
    assert_eq!(healths(&s.team1), vec![2]);
    assert_eq!(s.team1[0].1.attack, 1);
    assert_eq!(s.team1[0].1.class.icon, 'a');
    assert!(s.team2.is_empty());
    assert_eq!(s.get_state(), State::Finished { winner: Some(Side::Left) });
}

#[test]
fn right_team_can_win_too() {
    let mut s = scene(vec![(1, animal('a', 1, 1))], vec![(2, animal('b', 5, 1))]);
    s.run_step();
    assert!(s.team1.is_empty());
    assert_eq!(healths(&s.team2), vec![4]);
    assert_eq!(s.get_state(), State::Finished { winner: Some(Side::Right) });
}

#[test]
fn round_without_a_kill_changes_the_two_at_the_front_only() {
    let mut s = scene(
        vec![(1, animal('a', 10, 3)), (2, animal('b', 4, 9))],
        vec![(3, animal('c', 8, 2)), (4, animal('d', 6, 9))],
    );
    s.run_step();
    assert_eq!(ids(&s.team1), vec![1, 2]);
    assert_eq!(ids(&s.team2), vec![3, 4]);
    assert_eq!(healths(&s.team1), vec![8, 4]);
    assert_eq!(healths(&s.team2), vec![5, 6]);
    assert_eq!(s.get_state(), State::Battling);
}

#[test]
fn same_start_gives_same_round() {
    let start = scene(
        vec![(10, animal('a', 2, 2)), (11, animal('b', 1, 2)), (12, animal('c', 1, 4))],
        vec![(20, animal('d', 1, 2)), (21, animal('e', 2, 2))],
    );
    let mut one = start.clone();
    let mut other = start.clone();
    one.run_step();
    other.run_step();
    assert_eq!(one.team1, other.team1);
    assert_eq!(one.team2, other.team2);
    assert_eq!(ids(&one.team1), vec![11, 12]);
    assert_eq!(healths(&one.team1), vec![1, 1]);
    assert_eq!(ids(&one.team2), vec![21]);
    assert_eq!(healths(&one.team2), vec![2]);
    one.run_step();
    other.run_step();
    assert_eq!(one.team1, other.team1);
    assert_eq!(one.team2, other.team2);
}

#[test]
fn each_of_the_front_two_can_fell_the_other() {
    let mut s = scene(
        vec![(1, animal('a', 3, 5)), (2, animal('b', 9, 9))],
        vec![(3, animal('c', 5, 3)), (4, animal('d', 9, 9))],
    );
    s.run_step();
    assert_eq!(ids(&s.team1), vec![2]);
    assert_eq!(ids(&s.team2), vec![4]);
    assert_eq!(healths(&s.team1), vec![9]);
    assert_eq!(healths(&s.team2), vec![9]);
}

#[test]
fn removal_keeps_the_order_of_the_rest() {
    let mut s = scene(
        vec![(1, animal('a', 1, 1)), (2, animal('b', 2, 1)), (3, animal('c', 3, 1)), (4, animal('d', 4, 1))],
        vec![(5, animal('e', 5, 1)), (6, animal('f', 6, 1)), (7, animal('g', 7, 1))],
    );
    s.run_event(Event::Kill(2));
    assert_eq!(ids(&s.team1), vec![1, 3, 4]);
    assert_eq!(ids(&s.team2), vec![5, 6, 7]);
    s.run_event(Event::Kill(5));
    assert_eq!(ids(&s.team1), vec![1, 3, 4]);
    assert_eq!(ids(&s.team2), vec![6, 7]);
    s.run_event(Event::Kill(4));
    assert_eq!(ids(&s.team1), vec![1, 3]);
    assert_eq!(healths(&s.team1), vec![1, 3]);
    assert_eq!(healths(&s.team2), vec![6, 7]);
}

#[test]
fn round_keeps_the_order_of_the_survivors() {
    let mut s = scene(
        vec![(1, animal('a', 1, 1)), (2, animal('b', 0, 1)), (3, animal('c', 3, 1)), (4, animal('d', -2, 1)), (5, animal('e', 4, 1))],
        vec![(6, animal('f', 9, 1)), (7, animal('g', 0, 1)), (8, animal('h', 2, 1))],
    );
    s.run_step();
    assert_eq!(ids(&s.team1), vec![3, 5]);
    assert_eq!(ids(&s.team2), vec![6, 8]);
    assert_eq!(healths(&s.team2), vec![8, 2]);
}

#[test]
fn removing_twice_is_removing_once() {
    let start = scene(
        vec![(1, animal('a', 1, 1)), (2, animal('b', 2, 1))],
        vec![(3, animal('c', 3, 1))],
    );
    let mut once = start.clone();
    once.run_event(Event::Kill(1));
    let mut twice = start.clone();
    twice.run_event(Event::Kill(1));
    twice.run_event(Event::Kill(1));
    assert_eq!(once.team1, twice.team1);
    assert_eq!(once.team2, twice.team2);
    assert_eq!(ids(&twice.team1), vec![2]);
    assert_eq!(ids(&twice.team2), vec![3]);
}

#[test]
fn removing_an_absent_identifier_changes_nothing() {
    let start = scene(vec![(1, animal('a', 1, 1))], vec![(3, animal('c', 3, 1))]);
    let mut s = start.clone();
    s.run_event(Event::Kill(9));
    assert_eq!(s.team1, start.team1);
    assert_eq!(s.team2, start.team2);
}

#[test]
fn removal_looks_through_both_teams() {
    let mut s = scene(
        vec![(1, animal('a', 1, 1)), (7, animal('b', 2, 1)), (7, animal('c', 2, 1))],
        vec![(7, animal('d', 3, 1)), (2, animal('e', 3, 1))],
    );
    s.run_event(Event::Kill(7));
    assert_eq!(ids(&s.team1), vec![1]);
    assert_eq!(ids(&s.team2), vec![2]);
}

#[test]
fn blow_at_an_absent_identifier_changes_nothing() {
    let start = scene(vec![(1, animal('a', 1, 1))], vec![(3, animal('c', 3, 1))]);
    let mut s = start.clone();
    assert!(s.animal_by_id(9).is_none());
    s.run_event(Event::Damage(9, 5));
    assert_eq!(s.team1, start.team1);
    assert_eq!(s.team2, start.team2);
}

#[test]
fn blow_lands_on_the_named_animal_in_either_team() {
    let mut s = scene(
        vec![(1, animal('a', 5, 1)), (2, animal('b', 6, 1))],
        vec![(3, animal('c', 7, 1)), (4, animal('d', 8, 1))],
    );
    s.run_event(Event::Damage(2, 4));
    s.run_event(Event::Damage(4, 10));
    assert_eq!(healths(&s.team1), vec![5, 2]);
    assert_eq!(healths(&s.team2), vec![7, -2]);
    s.run_event(Event::Damage(4, -3));
    assert_eq!(healths(&s.team2), vec![7, 1]);
}

#[test]
fn lookup_hands_out_the_member_itself() {
    let mut s = scene(
        vec![(1, animal('a', 5, 1)), (2, animal('b', 6, 2))],
        vec![(3, animal('c', 7, 3))],
    );
    {
        let found = s.animal_by_id(3).unwrap();
        assert_eq!(*found, animal('c', 7, 3));
        found.health = 70;
    }
    {
        let found = s.animal_by_id(2).unwrap();
        assert_eq!(*found, animal('b', 6, 2));
        found.attack = 20;
    }
    assert_eq!(s.team1, vec![(1, animal('a', 5, 1)), (2, animal('b', 6, 20))]);
    assert_eq!(s.team2, vec![(3, animal('c', 70, 3))]);
}

#[test]
fn lookup_prefers_the_left_team_and_the_front() {
    let mut s = scene(
        vec![(1, animal('a', 5, 1)), (4, animal('b', 6, 2)), (4, animal('c', 7, 3))],
        vec![(4, animal('d', 8, 4))],
    );
    assert_eq!(s.animal_by_id(4).unwrap().class.icon, 'b');
    s.team1.remove(1);
    assert_eq!(s.animal_by_id(4).unwrap().class.icon, 'c');
    s.team1.remove(1);
    assert_eq!(s.animal_by_id(4).unwrap().class.icon, 'd');
}

#[test]
fn deaths_in_a_chain_end_the_round() {
    let mut s = scene(
        vec![(1, animal('a', 1, 9)), (2, animal('b', 1, 9)), (3, animal('c', 1, 9))],
        vec![(4, animal('d', 1, 9)), (5, animal('e', 1, 9)), (6, animal('f', 1, 9))],
    );
    let mut rounds = 0;
    while s.get_state() == State::Battling {
        assert!(s.can_step());
        s.run_step();
        rounds += 1;
        assert_eq!(s.team1.len(), 3 - rounds);
        assert_eq!(s.team2.len(), 3 - rounds);
    }
    assert_eq!(rounds, 3);
    assert_eq!(s.get_state(), State::Finished { winner: None });
}

#[test]
fn everybody_without_health_leaves_in_one_round() {
    let mut s = scene(
        vec![(1, animal('a', 1, 1)), (2, animal('b', 0, 1)), (3, animal('c', -5, 1))],
        vec![(4, animal('d', 1, 1)), (5, animal('e', 0, 1)), (6, animal('f', -1, 1))],
    );
    s.run_step();
    assert!(s.team1.is_empty());
    assert!(s.team2.is_empty());
}

#[test]
fn attack_is_taken_as_it_was_before_the_round() {
    let mut s = scene(vec![(1, animal('a', 1, 7))], vec![(2, animal('b', 10, 100))]);
    s.run_step();
    assert!(s.team1.is_empty());
    assert_eq!(healths(&s.team2), vec![3]);
}

#[test]
fn negative_attack_heals() {
    let mut s = scene(vec![(1, animal('a', 1, -2))], vec![(2, animal('b', 1, -3))]);
    s.run_step();
    assert_eq!(healths(&s.team1), vec![4]);
    assert_eq!(healths(&s.team2), vec![3]);
}

#[test]
fn a_shared_identifier_takes_both_blows_and_both_bearers() {
    let mut s = scene(
        vec![(1, animal('a', 10, 3)), (8, animal('b', 5, 5))],
        vec![(1, animal('c', 10, 4)), (9, animal('d', 5, 5))],
    );
    assert!(!s.is_well_formed());
    s.run_step();
    assert_eq!(ids(&s.team1), vec![1, 8]);
    assert_eq!(healths(&s.team1), vec![3, 5]);
    assert_eq!(healths(&s.team2), vec![10, 5]);
    let mut t = scene(
        vec![(1, animal('a', 7, 3)), (8, animal('b', 5, 5))],
        vec![(1, animal('c', 10, 4)), (9, animal('d', 5, 5))],
    );
    t.run_step();
    assert_eq!(ids(&t.team1), vec![8]);
    assert_eq!(ids(&t.team2), vec![9]);
}

#[test]
fn no_round_once_the_battle_is_over() {
    assert!(!scene(vec![], vec![(2, animal('b', 1, 1))]).can_step());
    assert!(!scene(vec![(1, animal('a', 1, 1))], vec![]).can_step());
    assert!(!scene(vec![], vec![]).can_step());
}

#[test]
fn no_round_where_a_health_would_not_fit() {
    assert!(!scene(vec![(1, animal('a', i32::MIN, 1))], vec![(2, animal('b', 1, 1))]).can_step());
    assert!(!scene(vec![(1, animal('a', 1, 1))], vec![(2, animal('b', i32::MIN, 1))]).can_step());
    assert!(!scene(vec![(1, animal('a', i32::MAX, 1))], vec![(2, animal('b', 1, -1))]).can_step());
    assert!(scene(vec![(1, animal('a', i32::MIN + 1, 1))], vec![(2, animal('b', 1, 1))]).can_step());
    assert!(scene(vec![(1, animal('a', i32::MAX, 1))], vec![(2, animal('b', 1, 0))]).can_step());
    assert!(!scene(
        vec![(1, animal('a', i32::MIN + 3, 2)), (5, animal('z', i32::MIN, 0))],
        vec![(1, animal('b', 1, 2))],
    ).can_step());
    assert!(scene(
        vec![(1, animal('a', i32::MIN + 4, 2)), (5, animal('z', i32::MIN, 0))],
        vec![(1, animal('b', 1, 2))],
    ).can_step());
    assert!(!scene(
        vec![(1, animal('a', 0, 1)), (5, animal('z', i32::MIN, 0))],
        vec![(5, animal('b', 1, 0))],
    ).can_step());
}

#[test]
fn health_at_the_lowest_value_is_reached_exactly() {
    let mut s = scene(vec![(1, animal('a', i32::MIN + 1, 0))], vec![(2, animal('b', 5, 1))]);
    assert!(s.can_step());
    s.run_event(Event::Damage(1, 1));
    assert_eq!(healths(&s.team1), vec![i32::MIN]);
}

#[test]
fn beastiary_lists_the_ten_animals() {
    let expected = vec![
        animal('\u{1F41F}', 2, 2),
        animal('\u{1F41C}', 1, 2),
        animal('\u{1F416}', 1, 4),
        animal('\u{1F40E}', 1, 2),
        animal('\u{1F986}', 3, 2),
        animal('\u{1F9A6}', 1, 2),
        animal('\u{1F9AB}', 1, 2),
        animal('\u{1F99F}', 2, 2),
        animal('\u{1F997}', 2, 1),
        animal('?', 99, 99),
    ];
    assert_eq!(beastiary(), expected);
    assert_eq!(beastiary(), beastiary());
}

#[test]
fn battle_of_the_first_five_against_the_last_five() {
    let left: Vec<(u128, Animal)> =
        beastiary().into_iter().take(5).enumerate().map(|(i, a)| (i as u128, a)).collect();
    let right: Vec<(u128, Animal)> =
        beastiary().into_iter().skip(5).enumerate().map(|(i, a)| (5 + i as u128, a)).collect();
    let mut s = Scene::new(left, right).unwrap();
    let mut rounds = 0;
    while s.get_state() == State::Battling {
        assert!(s.can_step());
        assert!(s.is_well_formed());
        s.run_step();
        rounds += 1;
    }
    // Fish and otter fall together, then ant and beaver, pig and mosquito,
    // horse and cricket; the duck falls to the first blow of the last animal.
    assert_eq!(rounds, 5);
    assert!(s.team1.is_empty());
    assert_eq!(ids(&s.team2), vec![9]);
    assert_eq!(healths(&s.team2), vec![97]);
    assert_eq!(s.get_state(), State::Finished { winner: Some(Side::Right) });
}
