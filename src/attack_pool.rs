use vstd::prelude::*;
use crate::dice::{all_die_values, enhance_roll, enhanced_roll, hits, roll_hits, DieRoller};
use crate::fleet::Fleet;
use crate::hit_graph::{
    active_count, capped, fleet_hull_law, is_target, lemma_resolve_hulls, lemma_damage_step_decreases, lemma_kill_step_decreases,
    lemma_target, lemma_total_witness, resolve, target, target_upto, total_to, HitEdge, HitGraph,
};
use crate::ship::{Ship, DESTROYED};

verus! {

/// One weapon shot: its damage and its enhanced roll.
#[derive(Clone, Copy, Debug, PartialEq, Eq, Structural)]
pub struct AttackRoll {
    pub damage: i32,
    pub hit_dc: i64,
}

/// Dice a ship rolls when it attacks: one per weapon it carries.
pub open spec fn dice_per_ship(s: Ship) -> nat {
    if s.weapon_2_dmg > 0 {
        2
    } else {
        1
    }
}

/// The attack rolls of ship `s` for the natural results `dice`.
pub open spec fn rolls_of_ship(s: Ship, dice: Seq<int>) -> Seq<AttackRoll> {
    let first = AttackRoll {
        damage: s.weapon_1_dmg,
        hit_dc: enhanced_roll(dice[0], s.computer as int) as i64,
    };
    if s.weapon_2_dmg > 0 {
        seq![
            first,
            AttackRoll {
                damage: s.weapon_2_dmg,
                hit_dc: enhanced_roll(dice[1], s.computer as int) as i64,
            },
        ]
    } else {
        seq![first]
    }
}

/// Edges from roll `i` to each of the first `n` ships that it hits and
/// that are alive.
pub open spec fn roll_edges(roll: AttackRoll, i: int, ships: Seq<Ship>, n: int) -> Seq<HitEdge>
    decreases n,
{
    if n <= 0 {
        Seq::empty()
    } else {
        let rest = roll_edges(roll, i, ships, n - 1);
        if hits(roll.hit_dc as int, ships[n - 1].shield as int) && ships[n - 1].is_alive() {
            rest.push(
                HitEdge { from: i as usize, to: (n - 1) as usize, damage: roll.damage as u32, active: true },
            )
        } else {
            rest
        }
    }
}

/// The edges of the first `m` rolls, roll by roll.
pub open spec fn edges_upto(rolls: Seq<AttackRoll>, ships: Seq<Ship>, m: int) -> Seq<HitEdge>
    decreases m,
{
    if m <= 0 {
        Seq::empty()
    } else {
        edges_upto(rolls, ships, m - 1) + roll_edges(rolls[m - 1], m - 1, ships, ships.len() as int)
    }
}

/// The hit graph of `rolls` against `ships`.
pub open spec fn build_edges(rolls: Seq<AttackRoll>, ships: Seq<Ship>) -> Seq<HitEdge> {
    edges_upto(rolls, ships, rolls.len() as int)
}

/// The fleet after the rolls have been allocated to it.
pub open spec fn attack_result(rolls: Seq<AttackRoll>, ships: Seq<Ship>) -> Seq<Ship> {
    resolve(build_edges(rolls, ships), ships)
}

/// The attack rolls of ships that act at the same time.
pub struct AttackPool {
    enhanced_rolls: Vec<AttackRoll>,
}

impl View for AttackPool {
    type V = Seq<AttackRoll>;

    closed spec fn view(&self) -> Seq<AttackRoll> {
        self.enhanced_rolls@
    }
}

impl AttackPool {
    pub fn new() -> (r: AttackPool)
        ensures
            r@ == Seq::<AttackRoll>::empty(),
    {
        AttackPool { enhanced_rolls: Vec::new() }
    }

    pub fn rolls(&self) -> (r: &Vec<AttackRoll>)
        ensures
            r@ == self@,
    {
        &self.enhanced_rolls
    }

    /// Rolls the dice of `ship`, one per weapon, and adds its attack rolls.
    /// Returns the natural results drawn.
    pub fn add_ship<R: DieRoller>(&mut self, ship: Ship, rng: &mut R) -> (dice: Ghost<Seq<int>>)
        ensures
            dice@.len() == dice_per_ship(ship),
            all_die_values(dice@),
            final(self)@ == old(self)@ + rolls_of_ship(ship, dice@),
            final(self)@.len() == old(self)@.len() + dice_per_ship(ship),
            final(rng).drawn() == old(rng).drawn() + dice@,
    {
        let n1 = rng.roll_die();
        let r1 = enhance_roll(n1, ship.computer);
        self.enhanced_rolls.push(AttackRoll { damage: ship.weapon_1_dmg, hit_dc: r1 });
        if ship.weapon_2_dmg > 0 {
            let n2 = rng.roll_die();
            let r2 = enhance_roll(n2, ship.computer);
            self.enhanced_rolls.push(AttackRoll { damage: ship.weapon_2_dmg, hit_dc: r2 });
            let ghost dice = seq![n1 as int, n2 as int];
            assert(rng.drawn() =~= old(rng).drawn() + dice);
            assert(self.enhanced_rolls@ =~= old(self)@ + rolls_of_ship(ship, dice));
            Ghost(dice)
        } else {
            let ghost dice = seq![n1 as int];
            assert(rng.drawn() =~= old(rng).drawn() + dice);
            assert(self.enhanced_rolls@ =~= old(self)@ + rolls_of_ship(ship, dice));
            Ghost(dice)
        }
    }

    /// Builds the hit graph of the pool against `fleet`.
    fn build_graph(&self, fleet: &Fleet) -> (g: HitGraph)
        ensures
            g.wf(),
            g.edges@ == build_edges(self@, fleet@),
            g.num_attack_rolls == self@.len(),
            g.num_ships == fleet@.len(),
    {
        let ghost rolls = self.enhanced_rolls@;
        let ghost ships = fleet@;
        let mut graph = HitGraph::new(self.enhanced_rolls.len(), fleet.len());
        let mut i: usize = 0;
        while i < self.enhanced_rolls.len()
            invariant
                rolls == self@,
                ships == fleet@,
                i <= rolls.len(),
                graph.wf(),
                graph.num_attack_rolls == rolls.len(),
                graph.num_ships == ships.len(),
                graph.edges@ == edges_upto(rolls, ships, i as int),
            decreases rolls.len() - i,
        {
            let roll = self.enhanced_rolls[i];
            let mut j: usize = 0;
            while j < fleet.len()
                invariant
                    rolls == self@,
                    ships == fleet@,
                    i < rolls.len(),
                    roll == rolls[i as int],
                    j <= ships.len(),
                    graph.wf(),
                    graph.num_attack_rolls == rolls.len(),
                    graph.num_ships == ships.len(),
                    graph.edges@ == edges_upto(rolls, ships, i as int) + roll_edges(
                        roll,
                        i as int,
                        ships,
                        j as int,
                    ),
                decreases ships.len() - j,
            {
                let ship = fleet.ship(j);
                if roll_hits(roll.hit_dc, ship.shield) && ship.hull >= 0 {
                    graph.add_edge(i, j, roll.damage as u32);
                    assert(graph.edges@ =~= edges_upto(rolls, ships, i as int) + roll_edges(
                        roll,
                        i as int,
                        ships,
                        j + 1,
                    ));
                }
                j += 1;
            }
            i += 1;
        }
        graph
    }

    /// Among the ships of `fleet`, the highest-ranking target (the last one
    /// on ties): one that the active edges destroy (`kill`) or damage.
    fn select_target(fleet: &Fleet, graph: &HitGraph, total: &Vec<u64>, kill: bool) -> (r: Option<
        usize,
    >)
        requires
            total@.len() == fleet@.len(),
            forall|j: int|
                0 <= j < fleet@.len() ==> total@[j] == capped(total_to(graph.edges@, j)),
        ensures
            match r {
                Some(k) => target(graph.edges@, fleet@, kill) == k as int,
                None => target(graph.edges@, fleet@, kill) == -1,
            },
    {
        let ghost edges = graph.edges@;
        let ghost ships = fleet@;
        let mut best: Option<usize> = None;
        let mut j: usize = 0;
        while j < fleet.len()
            invariant
                edges == graph.edges@,
                ships == fleet@,
                j <= ships.len(),
                total@.len() == ships.len(),
                forall|x: int| 0 <= x < ships.len() ==> total@[x] == capped(total_to(edges, x)),
                match best {
                    Some(b) => target_upto(edges, ships, kill, j as int) == b as int,
                    None => target_upto(edges, ships, kill, j as int) == -1,
                },
            decreases ships.len() - j,
        {
            proof {
                lemma_target(edges, ships, kill, j as int);
                lemma_total_witness(edges, j as int);
            }
            let ship = fleet.ship(j);
            let t = total[j];
            let candidate = ship.hull >= 0 && if kill {
                t > ship.hull as u64
            } else {
                t > 0
            };
            assert(candidate == is_target(edges, ships, j as int, kill));
            if candidate {
                match best {
                    None => {
                        best = Some(j);
                    },
                    Some(b) => {
                        let other = fleet.ship(b);
                        if ship.ranks_at_least_exec(&other) {
                            best = Some(j);
                        }
                    },
                }
            }
            j += 1;
        }
        best
    }

    /// Allocates the pool's rolls to `fleet`: while some roll can still hit,
    /// destroy the best ship that can be destroyed, spending just enough
    /// whole rolls on it; else damage the best ship that can be hit and
    /// spend every roll that reaches it.
    pub fn attack_fleet(&self, fleet: &mut Fleet)
        ensures
            final(fleet)@ == attack_result(self@, old(fleet)@),
            fleet_hull_law(old(fleet)@, final(fleet)@),
    {
        proof {
            lemma_resolve_hulls(build_edges(self@, fleet@), fleet@);
        }
        let mut graph = self.build_graph(fleet);
        let ghost ships0 = fleet@;
        let ghost edges0 = graph.edges@;
        while graph.has_active_edges()
            invariant
                graph.wf(),
                graph.num_ships == fleet@.len(),
                fleet@.len() == ships0.len(),
                resolve(graph.edges@, fleet@) == resolve(edges0, ships0),
            ensures
                resolve(graph.edges@, fleet@) == fleet@,
                resolve(graph.edges@, fleet@) == resolve(edges0, ships0),
            decreases active_count(graph.edges@),
        {
            let ghost edges = graph.edges@;
            let ghost ships = fleet@;
            let total = graph.total_possible_damage_per_ship();
            proof {
                lemma_target(edges, ships, true, ships.len() as int);
                lemma_target(edges, ships, false, ships.len() as int);
            }
            match Self::select_target(fleet, &graph, &total, true) {
                Some(k) => {
                    let hull = fleet.ship(k).hull;
                    proof {
                        lemma_kill_step_decreases(edges, k as int, hull + 1);
                    }
                    graph.deactivate_all_rolls_attacking_max_dmg(k, hull as u64 + 1);
                    graph.deactivate_all_edges_to_ship(k);
                    fleet.set_hull(k, DESTROYED);
                },
                None => {
                    match Self::select_target(fleet, &graph, &total, false) {
                        Some(t) => {
                            let hull = fleet.ship(t).hull;
                            let damage = graph.get_total_possible_damage_to_ship(t);
                            proof {
                                assert(!is_target(edges, ships, t as int, true));
                                lemma_damage_step_decreases(edges, t as int);
                            }
                            fleet.set_hull(t, hull - damage as i32);
                            graph.deactivate_all_rolls_attacking(t);
                        },
                        None => {
                            break ;
                        },
                    }
                },
            }
        }
    }
}

/// `e` is an active edge from an existing roll to an existing living ship
/// that the roll hits, carrying the roll's damage.
pub open spec fn is_hit_edge(e: HitEdge, rolls: Seq<AttackRoll>, ships: Seq<Ship>) -> bool {
    0 <= e.from < rolls.len() && 0 <= e.to < ships.len() && e.active && e.damage == rolls[e.from as int].damage as u32
        && hits(rolls[e.from as int].hit_dc as int, ships[e.to as int].shield as int)
        && ships[e.to as int].is_alive()
}

proof fn lemma_roll_edges(rolls: Seq<AttackRoll>, i: int, ships: Seq<Ship>, n: int)
    requires
        0 <= i < rolls.len() <= usize::MAX,
        0 <= n <= ships.len() <= usize::MAX,
    ensures
        forall|w: int|
            0 <= w < roll_edges(rolls[i], i, ships, n).len() ==> #[trigger] roll_edges(rolls[i], i, ships, n)[w].from == i
                && roll_edges(rolls[i], i, ships, n)[w].to < n && is_hit_edge(
                roll_edges(rolls[i], i, ships, n)[w],
                rolls,
                ships,
            ),
        forall|j: int|
            0 <= j < n && hits(rolls[i].hit_dc as int, ships[j].shield as int) && #[trigger] ships[j].is_alive()
                ==> exists|w: int|
                0 <= w < roll_edges(rolls[i], i, ships, n).len() && roll_edges(rolls[i], i, ships, n)[w].to
                    == j,
    decreases n,
{
    if n > 0 {
        lemma_roll_edges(rolls, i, ships, n - 1);
        let prev = roll_edges(rolls[i], i, ships, n - 1);
        let cur = roll_edges(rolls[i], i, ships, n);
        assert forall|j: int|
            0 <= j < n && hits(rolls[i].hit_dc as int, ships[j].shield as int) && #[trigger] ships[j].is_alive()
                implies exists|w: int| 0 <= w < cur.len() && cur[w].to == j by {
            if j < n - 1 {
                let w = choose|w: int| 0 <= w < prev.len() && prev[w].to == j;
                assert(cur[w] == prev[w]);
            } else {
                assert(cur[cur.len() - 1].to == j);
            }
        }
        assert forall|w: int| 0 <= w < cur.len() implies #[trigger] cur[w].from == i && cur[w].to < n
            && is_hit_edge(cur[w], rolls, ships) by {
            if w < prev.len() {
                assert(prev[w].from == i);
                assert(cur[w] == prev[w]);
            } else {
                assert(hits(rolls[i].hit_dc as int, ships[n - 1].shield as int) && ships[n - 1].is_alive());
                assert(cur[w] == HitEdge {
                    from: i as usize,
                    to: (n - 1) as usize,
                    damage: rolls[i].damage as u32,
                    active: true,
                });
                assert(cur[w].from as int == i);
                assert(cur[w].to as int == n - 1);
            }
        }
    }
}

proof fn lemma_edges_upto(rolls: Seq<AttackRoll>, ships: Seq<Ship>, m: int)
    requires
        0 <= m <= rolls.len() <= usize::MAX,
        ships.len() <= usize::MAX,
    ensures
        forall|w: int|
            0 <= w < edges_upto(rolls, ships, m).len() ==> #[trigger] edges_upto(rolls, ships, m)[w].from < m
                && is_hit_edge(edges_upto(rolls, ships, m)[w], rolls, ships),
        forall|i: int, j: int|
            0 <= i < m && 0 <= j < ships.len() && #[trigger] hits(rolls[i].hit_dc as int, ships[j].shield as int)
                && #[trigger] ships[j].is_alive() ==> exists|w: int|
                0 <= w < edges_upto(rolls, ships, m).len() && edges_upto(rolls, ships, m)[w].from == i
                    && edges_upto(rolls, ships, m)[w].to == j,
    decreases m,
{
    if m > 0 {
        lemma_edges_upto(rolls, ships, m - 1);
        lemma_roll_edges(rolls, m - 1, ships, ships.len() as int);
        let prev = edges_upto(rolls, ships, m - 1);
        let last = roll_edges(rolls[m - 1], m - 1, ships, ships.len() as int);
        let cur = edges_upto(rolls, ships, m);
        assert(cur == prev + last);
        assert forall|w: int| 0 <= w < cur.len() implies #[trigger] cur[w].from < m && is_hit_edge(
            cur[w],
            rolls,
            ships,
        ) by {
            if w < prev.len() {
                assert(cur[w] == prev[w]);
            } else {
                assert(cur[w] == last[w - prev.len()]);
            }
        }
        assert forall|i: int, j: int|
            0 <= i < m && 0 <= j < ships.len() && #[trigger] hits(rolls[i].hit_dc as int, ships[j].shield as int)
                && #[trigger] ships[j].is_alive() implies exists|w: int|
                0 <= w < cur.len() && cur[w].from == i && cur[w].to == j by {
            if i < m - 1 {
                let w = choose|w: int| 0 <= w < prev.len() && prev[w].from == i && prev[w].to == j;
                assert(cur[w] == prev[w]);
            } else {
                let w = choose|w: int| 0 <= w < last.len() && last[w].to == j;
                assert(cur[prev.len() + w] == last[w]);
                assert(last[w].from == i);
            }
        }
    }
}

/// The hit-threshold law in the hit graph: roll `i` has an edge to ship
/// `j`, carrying the roll's damage, exactly when the ship is alive and the
/// roll reaches its shield plus six.
pub proof fn lemma_hits_make_edges(rolls: Seq<AttackRoll>, ships: Seq<Ship>)
    requires
        rolls.len() <= usize::MAX,
        ships.len() <= usize::MAX,
    ensures
        forall|w: int|
            0 <= w < build_edges(rolls, ships).len() ==> is_hit_edge(
                #[trigger] build_edges(rolls, ships)[w],
                rolls,
                ships,
            ),
        forall|i: int, j: int|
            0 <= i < rolls.len() && 0 <= j < ships.len() && #[trigger] hits(
                rolls[i].hit_dc as int,
                ships[j].shield as int,
            ) && #[trigger] ships[j].is_alive() ==> exists|w: int|
                0 <= w < build_edges(rolls, ships).len() && build_edges(rolls, ships)[w].from == i
                    && build_edges(rolls, ships)[w].to == j,
{
    let m = rolls.len() as int;
    lemma_edges_upto(rolls, ships, m);
    assert forall|i: int, j: int|
        0 <= i < rolls.len() && 0 <= j < ships.len() && #[trigger] hits(
            rolls[i].hit_dc as int,
            ships[j].shield as int,
        ) && #[trigger] ships[j].is_alive() implies exists|w: int|
            0 <= w < build_edges(rolls, ships).len() && build_edges(rolls, ships)[w].from == i
                && build_edges(rolls, ships)[w].to == j by {
        let w = choose|w: int|
            0 <= w < edges_upto(rolls, ships, m).len() && edges_upto(rolls, ships, m)[w].from == i
                && edges_upto(rolls, ships, m)[w].to == j;
        assert(build_edges(rolls, ships)[w].from == i);
    }
}

} // verus!
