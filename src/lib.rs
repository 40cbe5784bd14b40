//! Turn-based fleet combat resolution: initiative-ordered simultaneous
//! attacks, a six-sided dice model and greedy damage allocation.

mod attack_pool;
mod battle;
mod dice;
mod fleet;
mod hit_graph;
mod ship;

pub use attack_pool::{lemma_hits_make_edges, AttackPool, AttackRoll};
pub use battle::{
    lemma_battle_deterministic, lemma_battle_hulls, lemma_draw_only_without_ships,
    lemma_round_hulls, lemma_round_is_bounded, simulate_battle, simulate_n_battles,
    simulate_round, BattleResult, MAX_ROUNDS,
};
pub use dice::{
    enhance_roll, lemma_critical_rolls, roll_hits, DieRoller, ReplayDice, RngState, StdRngState, CRITICAL_HIT,
    CRITICAL_MISS,
};
pub use fleet::{lemma_sort_by_initiative, Fleet, InitiativeIndex, WasmFleet};
pub use hit_graph::{
    lemma_overkill_conservation, lemma_resolve_hulls, HitEdge, HitGraph, DAMAGE_CAP,
};
pub use ship::{Ship, ShipType, DESTROYED};
