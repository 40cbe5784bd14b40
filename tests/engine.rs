use eclipse_sim::{
    enhance_roll, roll_hits, simulate_battle, simulate_n_battles, simulate_round, AttackPool,
    BattleResult, DieRoller, Fleet, HitGraph, ReplayDice, RngState, Ship, ShipType, StdRngState, WasmFleet, CRITICAL_HIT,
    CRITICAL_MISS,
};
use rand::rngs::StdRng;
use rand::SeedableRng;

fn ship(hull: i32, initiative: i32, shield: i32, computer: i32, w1: i32, w2: i32) -> Ship {
    Ship::new(hull, initiative, shield, computer, w1, w2, ShipType::Cruiser)
}

#[test]
fn enhanced_rolls_follow_the_dice_rules() {
    assert_eq!(enhance_roll(6, -100), CRITICAL_HIT);
    assert_eq!(enhance_roll(1, 100), CRITICAL_MISS);
    assert_eq!(enhance_roll(3, 2), 5);
    assert_eq!(enhance_roll(5, -7), -2);
}

#[test]
fn hits_need_shield_plus_six() {
    assert!(roll_hits(7, 1));
    assert!(!roll_hits(6, 1));
    assert!(roll_hits(6, 0));
    assert!(roll_hits(CRITICAL_HIT, i32::MAX));
    assert!(!roll_hits(CRITICAL_MISS, i32::MIN));
}

#[test]
fn damage_index_is_scaled_by_six() {
    assert_eq!(ship(1, 0, 0, -3, 2, 1).get_damage_index(), 9);
    assert_eq!(ship(1, 0, 0, 4, 2, 1).get_damage_index(), 18);
    assert_eq!(ship(1, 0, 0, 0, 2, 0).get_damage_index(), 12);
    assert!(ship(3, 0, 0, 0, 4, 0).ranks_at_least_exec(&ship(1, 0, 0, 0, 2, 0)));
    assert!(ship(1, 0, 0, 0, 2, 0).ranks_at_least_exec(&ship(3, 0, 0, 0, 2, 0)));
    assert!(!ship(3, 0, 0, 0, 2, 0).ranks_at_least_exec(&ship(1, 0, 0, 0, 2, 0)));
}

#[test]
fn clone_keeps_every_field() {
    let s = Ship::new(4, 3, 2, 1, 5, 6, ShipType::Starbase);
    assert_eq!(s.clone(), s);
}

#[test]
fn fleet_sorts_by_initiative_stably() {
    let fleet = Fleet::new(vec![
        ship(10, 1, 0, 0, 1, 0),
        ship(11, 5, 0, 0, 1, 0),
        ship(12, 3, 0, 0, 1, 0),
        ship(13, 5, 0, 0, 1, 0),
    ]);
    let hulls: Vec<i32> = (0..fleet.len()).map(|i| fleet.ship(i).hull).collect();
    assert_eq!(hulls, vec![11, 13, 12, 10]);
    let wasm = WasmFleet::new(vec![ship(1, 0, 0, 0, 1, 0), ship(2, 9, 0, 0, 1, 0)]);
    assert_eq!(wasm.ships().len(), 2);
    let fleet = wasm.into_fleet();
    assert_eq!(fleet.ship(0).hull, 2);
}

#[test]
fn liveness_queries_skip_destroyed_ships() {
    let fleet = Fleet::new(vec![ship(-1, 4, 0, 0, 1, 0), ship(0, 2, 0, 0, 1, 0), ship(3, 1, 0, 0, 1, 0)]);
    assert!(fleet.has_ships_left());
    assert_eq!(fleet.num_ships(), 2);
    let order: Vec<(usize, i32)> = fleet.get_attack_order().iter().map(|x| (x.index, x.initiative)).collect();
    assert_eq!(order, vec![(1, 2), (2, 1)]);
    let order: Vec<usize> = fleet.get_attack_order_max_init(1).iter().map(|x| x.index).collect();
    assert_eq!(order, vec![2]);
    let dead = Fleet::new(vec![ship(-1, 0, 0, 0, 1, 0)]);
    assert!(!dead.has_ships_left());
    assert_eq!(dead.num_ships(), 0);
    let copy = fleet.clone();
    assert_eq!(copy.num_ships(), 2);
}

#[test]
fn second_weapon_rolls_a_second_die() {
    let mut dice = ReplayDice::new(vec![3, 4, 5]);
    let mut pool = AttackPool::new();
    pool.add_ship(ship(1, 0, 0, 2, 4, 3), &mut dice);
    assert_eq!(pool.rolls().len(), 2);
    assert_eq!(pool.rolls()[0].damage, 4);
    assert_eq!(pool.rolls()[0].hit_dc, 5);
    assert_eq!(pool.rolls()[1].damage, 3);
    assert_eq!(pool.rolls()[1].hit_dc, 6);
    pool.add_ship(ship(1, 0, 0, 2, 2, 0), &mut dice);
    assert_eq!(pool.rolls().len(), 3);
    assert_eq!(pool.rolls()[2].hit_dc, 7);
}

#[test]
fn totals_and_rolls_attacking_a_ship() {
    let mut g = HitGraph::new(3, 2);
    g.add_edge(0, 0, 2);
    g.add_edge(0, 1, 2);
    g.add_edge(1, 0, 3);
    g.add_edge(2, 1, 1);
    assert!(g.has_active_edges());
    assert_eq!(g.total_possible_damage_per_ship(), vec![5, 3]);
    assert_eq!(g.get_total_possible_damage_to_ship(1), 3);
    g.deactivate_all_rolls_attacking(0);
    let active: Vec<bool> = g.edges.iter().map(|e| e.active).collect();
    assert_eq!(active, vec![false, false, false, true]);
    assert_eq!(g.total_possible_damage_per_ship(), vec![0, 1]);
    g.deactivate_all_edges_to_ship(1);
    assert!(!g.has_active_edges());
}

#[test]
fn kill_spends_largest_rolls_first() {
    let mut g = HitGraph::new(3, 2);
    g.add_edge(0, 0, 1);
    g.add_edge(1, 0, 3);
    g.add_edge(1, 1, 5);
    g.add_edge(2, 0, 2);
    g.deactivate_all_rolls_attacking_max_dmg(0, 3);
    let active: Vec<bool> = g.edges.iter().map(|e| e.active).collect();
    assert_eq!(active, vec![true, false, false, true]);
    assert_eq!(g.get_total_possible_damage_to_ship(0), 3);
    let mut g = HitGraph::new(3, 2);
    g.add_edge(0, 0, 1);
    g.add_edge(1, 0, 3);
    g.add_edge(1, 1, 5);
    g.add_edge(2, 0, 2);
    g.deactivate_all_rolls_attacking_max_dmg(0, 6);
    assert!(!g.has_active_edges());
    let mut g = HitGraph::new(2, 1);
    g.add_edge(0, 0, 2);
    g.add_edge(1, 0, 2);
    g.deactivate_all_edges_from_attack_roll(1);
    let active: Vec<bool> = g.edges.iter().map(|e| e.active).collect();
    assert_eq!(active, vec![true, false]);
}

#[test]
fn exact_kill_spends_every_roll_with_an_edge_into_the_ship() {
    let mut g = HitGraph::new(2, 2);
    g.add_edge(1, 0, 3);
    g.deactivate_all_edges_to_ship(0);
    g.add_edge(0, 0, 5);
    g.add_edge(1, 1, 3);
    g.deactivate_all_rolls_attacking_max_dmg(0, 5);
    let active: Vec<bool> = g.edges.iter().map(|e| e.active).collect();
    assert_eq!(active, vec![false, false, false]);
    assert_eq!(g.total_possible_damage_per_ship(), vec![0, 0]);
}

#[test]
fn kill_prefers_highest_damage_index() {
    let mut dice = ReplayDice::new(vec![6]);
    let mut pool = AttackPool::new();
    pool.add_ship(ship(0, 0, 0, 0, 1, 0), &mut dice);
    let mut target = Fleet::new(vec![ship(0, 0, 0, 0, 1, 0), ship(0, 0, 0, 0, 4, 0)]);
    pool.attack_fleet(&mut target);
    assert_eq!(target.ship(0).hull, 0);
    assert_eq!(target.ship(1).hull, -1);
}

#[test]
fn kill_prefers_lowest_hull_on_equal_index() {
    let mut dice = ReplayDice::new(vec![6]);
    let mut pool = AttackPool::new();
    pool.add_ship(ship(0, 0, 0, 0, 5, 0), &mut dice);
    let mut target = Fleet::new(vec![ship(3, 0, 0, 0, 2, 0), ship(1, 0, 0, 0, 2, 0)]);
    pool.attack_fleet(&mut target);
    assert_eq!(target.ship(0).hull, 3);
    assert_eq!(target.ship(1).hull, -1);
}

#[test]
fn damage_lands_when_nothing_can_be_killed() {
    let mut dice = ReplayDice::new(vec![6]);
    let mut pool = AttackPool::new();
    pool.add_ship(ship(0, 0, 0, 0, 2, 0), &mut dice);
    let mut target = Fleet::new(vec![ship(5, 0, 0, 0, 1, 0), ship(5, 0, 0, 0, 3, 0)]);
    pool.attack_fleet(&mut target);
    assert_eq!(target.ship(0).hull, 5);
    assert_eq!(target.ship(1).hull, 3);
}

#[test]
fn overkill_is_retargeted() {
    let mut dice = ReplayDice::new(vec![6]);
    let mut pool = AttackPool::new();
    pool.add_ship(ship(0, 0, 0, 0, 3, 0), &mut dice);
    pool.add_ship(ship(0, 0, 0, 0, 3, 0), &mut dice);
    let mut target = Fleet::new(vec![ship(1, 0, 0, 0, 5, 0), ship(2, 0, 0, 0, 1, 0)]);
    pool.attack_fleet(&mut target);
    assert_eq!(target.ship(0).hull, -1);
    assert_eq!(target.ship(1).hull, -1);
}

#[test]
fn misses_leave_the_target_alone() {
    let mut dice = ReplayDice::new(vec![1, 2]);
    let mut pool = AttackPool::new();
    pool.add_ship(ship(0, 0, 0, 3, 9, 9), &mut dice);
    let mut target = Fleet::new(vec![ship(0, 0, 0, 0, 1, 0)]);
    pool.attack_fleet(&mut target);
    assert_eq!(target.ship(0).hull, 0);
}

#[test]
fn defender_acts_first_on_equal_initiative() {
    let mut dice = ReplayDice::new(vec![6]);
    let mut attacker = Fleet::new(vec![ship(0, 1, 0, 0, 1, 0)]);
    let mut defender = Fleet::new(vec![ship(0, 1, 0, 0, 1, 0)]);
    simulate_round(&mut attacker, &mut defender, &mut dice);
    assert!(!attacker.has_ships_left());
    assert!(defender.has_ships_left());
    assert_eq!(dice.rolls_made(), 1);
}

#[test]
fn higher_initiative_acts_first() {
    let mut dice = ReplayDice::new(vec![6]);
    let mut attacker = Fleet::new(vec![ship(0, 2, 0, 0, 1, 0)]);
    let mut defender = Fleet::new(vec![ship(0, 1, 0, 0, 1, 0)]);
    let result = simulate_battle(&mut attacker, &mut defender, &mut dice);
    assert_eq!(result, BattleResult::AttackerWins);
    assert!(attacker.has_ships_left());
    assert_eq!(dice.rolls_made(), 1);
}

#[test]
fn a_round_lets_every_initiative_act_once() {
    let mut dice = ReplayDice::new(vec![2]);
    let mut attacker = Fleet::new(vec![ship(0, 3, 0, 0, 1, 0), ship(0, 1, 0, 0, 1, 0)]);
    let mut defender = Fleet::new(vec![ship(0, 2, 0, 0, 1, 1), ship(0, 0, 0, 0, 1, 0)]);
    simulate_round(&mut attacker, &mut defender, &mut dice);
    assert_eq!(dice.rolls_made(), 5);
    assert_eq!(attacker.num_ships(), 2);
    assert_eq!(defender.num_ships(), 2);
}

#[test]
fn battles_report_the_survivor_or_a_draw() {
    let mut dice = ReplayDice::new(vec![6]);
    let mut attacker = Fleet::new(vec![ship(-1, 0, 0, 0, 1, 0)]);
    let mut defender = Fleet::new(vec![ship(-1, 0, 0, 0, 1, 0)]);
    assert_eq!(simulate_battle(&mut attacker, &mut defender, &mut dice), BattleResult::Draw);
    let mut attacker = Fleet::new(vec![ship(-1, 0, 0, 0, 1, 0)]);
    let mut defender = Fleet::new(vec![ship(0, 0, 0, 0, 1, 0)]);
    assert_eq!(simulate_battle(&mut attacker, &mut defender, &mut dice), BattleResult::DefenderWins);
    let mut attacker = Fleet::new(vec![ship(0, 0, 0, 0, 1, 0)]);
    let mut defender = Fleet::new(vec![ship(0, 0, 0, 0, 1, 0)]);
    assert_eq!(simulate_battle(&mut attacker, &mut defender, &mut dice), BattleResult::DefenderWins);
    assert_eq!(dice.rolls_made(), 1);
}

#[test]
fn n_battles_count_defender_wins() {
    let attacker = Fleet::new(vec![ship(0, 2, 0, 0, 1, 0)]);
    let defender = Fleet::new(vec![ship(0, 1, 0, 0, 1, 0)]);
    let mut dice = ReplayDice::new(vec![6]);
    assert_eq!(simulate_n_battles(&attacker, &defender, &mut dice, 3), 0);
    assert_eq!(simulate_n_battles(&defender, &attacker, &mut dice, 3), 3);
    assert!(attacker.has_ships_left());
}

#[test]
fn scenario_a_attacker_is_not_beaten() {
    let mut attacker = Fleet::new(vec![Ship::new(0, 10, 0, 5, 2, 0, ShipType::Interceptor)]);
    let mut defender = Fleet::new(vec![Ship::new(0, 0, 0, 5, 2, 0, ShipType::Interceptor)]);
    let mut rng = StdRngState::new(StdRng::seed_from_u64(0));
    let result = simulate_battle(&mut attacker, &mut defender, &mut rng);
    assert_ne!(result, BattleResult::DefenderWins);
    assert!(!defender.has_ships_left());
}

#[test]
fn scenario_b_seeded_trials_repeat() {
    let proto = Ship::new(2, 0, 1, 1, 2, 0, ShipType::Interceptor);
    let proto_def = Ship::new(3, 0, 1, 1, 2, 0, ShipType::Interceptor);
    let attacker = Fleet::new(vec![proto; 20]);
    let defender = Fleet::new(vec![proto_def; 20]);
    let n = 200;
    let mut rng = StdRngState::new(StdRng::seed_from_u64(3));
    let first = simulate_n_battles(&attacker, &defender, &mut rng, n);
    let mut rng = StdRngState::new(StdRng::seed_from_u64(3));
    let second = simulate_n_battles(&attacker, &defender, &mut rng, n);
    assert_eq!(first, second);
    assert!(first <= n);
    assert!(first > 0);
}

#[test]
fn scenario_b_recorded_defender_wins() {
    let proto = Ship::new(2, 0, 1, 1, 2, 0, ShipType::Interceptor);
    let proto_def = Ship::new(3, 0, 1, 1, 2, 0, ShipType::Interceptor);
    let attacker = Fleet::new(vec![proto; 20]);
    let defender = Fleet::new(vec![proto_def; 20]);
    let mut rng = StdRngState::new(StdRng::seed_from_u64(3));
    let wins = simulate_n_battles(&attacker, &defender, &mut rng, 1000);
    assert_eq!(wins, 626);
}

#[test]
fn same_seed_same_battle() {
    let proto = Ship::new(2, 1, 0, 1, 2, 1, ShipType::Cruiser);
    let proto_def = Ship::new(3, 1, 1, 0, 2, 0, ShipType::Dreadnought);
    let mut a1 = Fleet::new(vec![proto; 4]);
    let mut d1 = Fleet::new(vec![proto_def; 3]);
    let mut a2 = a1.clone();
    let mut d2 = d1.clone();
    let r1 = simulate_battle(&mut a1, &mut d1, &mut RngState::new(11));
    let r2 = simulate_battle(&mut a2, &mut d2, &mut RngState::new(11));
    assert_eq!(r1, r2);
    for i in 0..a1.len() {
        assert_eq!(a1.ship(i), a2.ship(i));
    }
    for i in 0..d1.len() {
        assert_eq!(d1.ship(i), d2.ship(i));
    }
}

#[test]
fn seeded_generators_roll_six_sided_dice() {
    let mut a = RngState::new(7);
    let mut b = RngState::new(7);
    let xs: Vec<i32> = (0..200).map(|_| a.roll_die()).collect();
    let ys: Vec<i32> = (0..200).map(|_| b.roll_die()).collect();
    assert_eq!(xs, ys);
    assert!(xs.iter().all(|&x| (1..=6).contains(&x)));
    for face in 1..=6 {
        assert!(xs.contains(&face));
    }
    let mut s = StdRngState::new(StdRng::seed_from_u64(5));
    let zs: Vec<i32> = (0..200).map(|_| s.roll_die()).collect();
    assert!(zs.iter().all(|&x| (1..=6).contains(&x)));
    assert!(zs.contains(&1) && zs.contains(&6));
}

#[test]
fn hull_stays_at_zero_or_above_until_destroyed() {
    let mut rng = StdRngState::new(StdRng::seed_from_u64(9));
    for _ in 0..20 {
        let mut attacker = Fleet::new(vec![Ship::new(4, 1, 0, 1, 1, 1, ShipType::Cruiser); 3]);
        let mut defender = Fleet::new(vec![Ship::new(5, 2, 1, 0, 2, 0, ShipType::Starbase); 2]);
        simulate_round(&mut attacker, &mut defender, &mut rng);
        for i in 0..attacker.len() {
            let h = attacker.ship(i).hull;
            assert!(h == -1 || (0..=4).contains(&h));
        }
        for i in 0..defender.len() {
            let h = defender.ship(i).hull;
            assert!(h == -1 || (0..=5).contains(&h));
        }
    }
}
