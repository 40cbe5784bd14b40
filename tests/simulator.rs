use eclipse_sim::{simulate_battle, simulate_round, BattleResult, Fleet, Ship, ShipType, StdRngState};
use rand::rngs::StdRng;
use rand::SeedableRng;

#[test]
pub fn test_fleet_attack() {
    let mut attacker = Fleet::new(vec![Ship {
        hull: 0,
        initiative: 10,
        shield: 0,
        computer: 5,
        weapon_1_dmg: 2,
        weapon_2_dmg: 0,
        ship_type: ShipType::Interceptor,
    }]);
    let mut defender = Fleet::new(vec![Ship {
        hull: 0,
        initiative: 0,
        shield: 0,
        computer: 5,
        weapon_1_dmg: 2,
        weapon_2_dmg: 0,
        ship_type: ShipType::Interceptor,
    }]);
    let mut seeded_rng = StdRngState::new(StdRng::seed_from_u64(0));
    while attacker.has_ships_left() && defender.has_ships_left() {
        simulate_round(&mut attacker, &mut defender, &mut seeded_rng);
    }
    assert!(!defender.has_ships_left());
}

#[test]
pub fn test2() {
    let mut rng = StdRngState::new(StdRng::seed_from_u64(0));
    let attacker_fleet = Fleet::new(vec![
        Ship {
            hull: 1,
            initiative: 1,
            shield: 0,
            computer: 1,
            weapon_1_dmg: 2,
            weapon_2_dmg: 0,
            ship_type: ShipType::Interceptor,
        },
        Ship {
            hull: 2,
            initiative: 1,
            shield: 0,
            computer: 1,
            weapon_1_dmg: 2,
            weapon_2_dmg: 0,
            ship_type: ShipType::Interceptor,
        },
    ]);
    let defender_fleet = Fleet::new(vec![Ship {
        hull: 2,
        initiative: 1,
        shield: 0,
        computer: 0,
        weapon_1_dmg: 2,
        weapon_2_dmg: 0,
        ship_type: ShipType::Interceptor,
    }]);
    let mut defender_wins = 0;
    for _ in 0..10 {
        let result = simulate_battle(
            &mut attacker_fleet.clone(),
            &mut defender_fleet.clone(),
            &mut rng,
        );
        if result == BattleResult::DefenderWins {
            defender_wins += 1;
        }
    }
    println!("Result: {:?}", (defender_wins as f32) / (1000.0));
}

#[test]
pub fn test_hull_effect() {
    let mut rng = StdRngState::new(StdRng::seed_from_u64(3));
    let ship_proto = Ship {
        hull: 2,
        initiative: 0,
        shield: 1,
        computer: 1,
        weapon_1_dmg: 2,
        weapon_2_dmg: 0,
        ship_type: ShipType::Interceptor,
    };
    let ship_proto_def = Ship {
        hull: 3,
        initiative: 0,
        shield: 1,
        computer: 1,
        weapon_1_dmg: 2,
        weapon_2_dmg: 0,
        ship_type: ShipType::Interceptor,
    };
    let attacker_fleet = Fleet::new(vec![ship_proto.clone(); 5]);
    let defender_fleet = Fleet::new(vec![ship_proto_def.clone(); 5]);
    let mut defender_wins = 0;
    let n = 1;
    for _ in 0..n {
        let result = simulate_battle(
            &mut attacker_fleet.clone(),
            &mut defender_fleet.clone(),
            &mut rng,
        );
        if result == BattleResult::DefenderWins {
            defender_wins += 1;
        }
    }
    println!("Result: {:?}", (defender_wins as f32) / (n as f32));
}
