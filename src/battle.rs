use vstd::prelude::*;
use crate::attack_pool::{
    attack_result, build_edges, dice_per_ship, rolls_of_ship, AttackPool, AttackRoll,
};
use crate::dice::{all_die_values, is_die_value, DieRoller};
use crate::fleet::{attack_order, has_alive, lists_order, order_upto, Fleet};
use crate::hit_graph::{fleet_hull_law, hull_law, lemma_resolve_hulls};
use crate::ship::Ship;

verus! {

/// How a battle ended.
#[derive(Clone, Copy, Debug, PartialEq, Eq, Structural)]
pub enum BattleResult {
    AttackerWins,
    DefenderWins,
    Draw,
}

/// A ship of initiative `init` joins a step whose bound is `bound`: above
/// it for the attacker (`strict`), at or above it for the defender.
pub open spec fn joins(init: int, bound: int, strict: bool) -> bool {
    if strict {
        init > bound
    } else {
        init >= bound
    }
}

/// From position `k` on, how far the ships of `order` keep joining.
pub open spec fn group_end(ships: Seq<Ship>, order: Seq<int>, bound: int, strict: bool, k: int) -> int
    decreases order.len() - k,
{
    if k < 0 || k >= order.len() {
        k
    } else if joins(ships[order[k]].initiative as int, bound, strict) {
        group_end(ships, order, bound, strict, k + 1)
    } else {
        k
    }
}

/// Dice that the ships at `idx` roll together.
pub open spec fn pool_dice(ships: Seq<Ship>, idx: Seq<int>) -> nat
    decreases idx.len(),
{
    if idx.len() == 0 {
        0
    } else {
        pool_dice(ships, idx.drop_last()) + dice_per_ship(ships[idx.last()])
    }
}

/// The attack rolls of the ships at `idx`, in that order, for the natural
/// results `dice`, each ship using the next ones.
pub open spec fn pool_rolls(ships: Seq<Ship>, idx: Seq<int>, dice: Seq<int>) -> Seq<AttackRoll>
    decreases idx.len(),
{
    if idx.len() == 0 {
        Seq::empty()
    } else {
        pool_rolls(ships, idx.drop_last(), dice) + rolls_of_ship(
            ships[idx.last()],
            dice.skip(pool_dice(ships, idx.drop_last()) as int),
        )
    }
}

/// One simultaneous attack: the ships of `acting` whose turn it is (best
/// initiative `best`, the other side's best `bound`) roll `dice` and
/// attack `target`. Gives the new target fleet, the acting side's next best
/// initiative (`-1` if none) and the number of dice used.
pub open spec fn attack_step(
    acting: Seq<Ship>,
    target: Seq<Ship>,
    best: int,
    bound: int,
    strict: bool,
    dice: Seq<int>,
) -> (Seq<Ship>, int, nat) {
    let order = attack_order(acting, best);
    let g = group_end(acting, order, bound, strict, 0);
    let group = order.take(g);
    let next = if g < order.len() {
        acting[order[g]].initiative as int
    } else {
        -1
    };
    (
        attack_result(pool_rolls(acting, group, dice), target),
        next,
        pool_dice(acting, group),
    )
}

pub open spec fn init_measure(b: int) -> nat {
    if b >= 0 {
        (b + 1) as nat
    } else {
        0
    }
}

/// Both fleets have living ships and one side has not acted yet.
pub open spec fn round_goes_on(a: Seq<Ship>, d: Seq<Ship>, ba: int, bd: int) -> bool {
    has_alive(a) && has_alive(d) && (ba >= 0 || bd >= 0)
}

/// The rest of a round, from best initiatives `ba` (attacker) and `bd`
/// (defender) on: the side with the higher one acts, the defender on
/// ties. Gives both fleets and the number of dice used.
pub open spec fn round_from(a: Seq<Ship>, d: Seq<Ship>, ba: int, bd: int, dice: Seq<int>) -> (
    Seq<Ship>,
    Seq<Ship>,
    nat,
)
    decreases init_measure(ba) + init_measure(bd),
    via round_from_decreases
{
    if round_goes_on(a, d, ba, bd) {
        if ba > bd {
            let s = attack_step(a, d, ba, bd, true, dice);
            let r = round_from(a, s.0, s.1, bd, dice.skip(s.2 as int));
            (r.0, r.1, s.2 + r.2)
        } else {
            let s = attack_step(d, a, bd, ba, false, dice);
            let r = round_from(s.0, d, ba, s.1, dice.skip(s.2 as int));
            (r.0, r.1, s.2 + r.2)
        }
    } else {
        (a, d, 0)
    }
}

/// Number of simultaneous attacks in the rest of a round (see `round_from`).
pub open spec fn round_steps(a: Seq<Ship>, d: Seq<Ship>, ba: int, bd: int, dice: Seq<int>) -> nat
    decreases init_measure(ba) + init_measure(bd),
    via round_steps_decreases
{
    if round_goes_on(a, d, ba, bd) {
        if ba > bd {
            let s = attack_step(a, d, ba, bd, true, dice);
            1 + round_steps(a, s.0, s.1, bd, dice.skip(s.2 as int))
        } else {
            let s = attack_step(d, a, bd, ba, false, dice);
            1 + round_steps(s.0, d, ba, s.1, dice.skip(s.2 as int))
        }
    } else {
        0
    }
}

/// Number of ships, living or not, of initiative at most `b`.
pub open spec fn count_at_most(ships: Seq<Ship>, b: int) -> nat
    decreases ships.len(),
{
    if ships.len() == 0 {
        0
    } else {
        count_at_most(ships.drop_last(), b) + if ships.last().initiative <= b {
            1nat
        } else {
            0nat
        }
    }
}

/// Ships still to act: those of initiative at most `b`, none once `b` is
/// negative.
pub open spec fn to_act(ships: Seq<Ship>, b: int) -> nat {
    if b >= 0 {
        count_at_most(ships, b)
    } else {
        0
    }
}

/// `b` is negative or the initiative of a ship of the fleet.
pub open spec fn is_init_of(ships: Seq<Ship>, b: int) -> bool {
    b < 0 || exists|i: int| 0 <= i < ships.len() && ships[i].initiative == b
}

/// The highest initiative among the living ships (the first in fleet order).
pub open spec fn first_init(ships: Seq<Ship>) -> int {
    ships[attack_order(ships, i32::MAX as int)[0]].initiative as int
}

/// One round: both sides act in initiative order until all have acted or
/// a fleet is wiped out. Gives both fleets and the number of dice used.
pub open spec fn round(a: Seq<Ship>, d: Seq<Ship>, dice: Seq<int>) -> (Seq<Ship>, Seq<Ship>, nat) {
    if has_alive(a) && has_alive(d) {
        round_from(a, d, first_init(a), first_init(d), dice)
    } else {
        (a, d, 0)
    }
}

pub proof fn lemma_group_end(ships: Seq<Ship>, order: Seq<int>, bound: int, strict: bool, k: int)
    requires
        0 <= k <= order.len(),
    ensures
        k <= group_end(ships, order, bound, strict, k) <= order.len(),
        group_end(ships, order, bound, strict, k) < order.len() ==> !joins(
            ships[order[group_end(ships, order, bound, strict, k)]].initiative as int,
            bound,
            strict,
        ),
    decreases order.len() - k,
{
    if k < order.len() && joins(ships[order[k]].initiative as int, bound, strict) {
        lemma_group_end(ships, order, bound, strict, k + 1);
    }
}

/// The acting side's next best initiative is below its current one.
pub proof fn lemma_step_next(
    acting: Seq<Ship>,
    target: Seq<Ship>,
    best: int,
    bound: int,
    strict: bool,
    dice: Seq<int>,
)
    requires
        best >= 0,
        strict ==> bound < best,
        !strict ==> bound <= best,
    ensures
        init_measure(attack_step(acting, target, best, bound, strict, dice).1) < init_measure(best),
{
    let order = attack_order(acting, best);
    lemma_group_end(acting, order, bound, strict, 0);
}

#[via_fn]
proof fn round_from_decreases(a: Seq<Ship>, d: Seq<Ship>, ba: int, bd: int, dice: Seq<int>) {
    if round_goes_on(a, d, ba, bd) {
        if ba > bd {
            lemma_step_next(a, d, ba, bd, true, dice);
        } else {
            lemma_step_next(d, a, bd, ba, false, dice);
        }
    }
}

/// The rolls of a pool depend on the dice it uses and on no later ones.
pub proof fn lemma_pool_prefix(ships: Seq<Ship>, idx: Seq<int>, dice: Seq<int>, extra: Seq<int>)
    requires
        pool_dice(ships, idx) <= dice.len(),
    ensures
        pool_rolls(ships, idx, dice + extra) == pool_rolls(ships, idx, dice),
    decreases idx.len(),
{
    if idx.len() > 0 {
        let pre = idx.drop_last();
        let p = pool_dice(ships, pre) as int;
        lemma_pool_prefix(ships, pre, dice, extra);
        let s = ships[idx.last()];
        assert((dice + extra).skip(p)[0] == dice.skip(p)[0]);
        if s.weapon_2_dmg > 0 {
            assert((dice + extra).skip(p)[1] == dice.skip(p)[1]);
        }
        assert(rolls_of_ship(s, (dice + extra).skip(p)) == rolls_of_ship(s, dice.skip(p)));
    }
}

/// A step depends on the dice it uses and on no later ones.
pub proof fn lemma_step_prefix(
    acting: Seq<Ship>,
    target: Seq<Ship>,
    best: int,
    bound: int,
    strict: bool,
    dice: Seq<int>,
    extra: Seq<int>,
)
    requires
        attack_step(acting, target, best, bound, strict, dice).2 == dice.len(),
    ensures
        attack_step(acting, target, best, bound, strict, dice + extra) == attack_step(
            acting,
            target,
            best,
            bound,
            strict,
            dice,
        ),
{
    let order = attack_order(acting, best);
    let g = group_end(acting, order, bound, strict, 0);
    lemma_pool_prefix(acting, order.take(g), dice, extra);
}

/// The attack order lists living ships of the fleet whose initiative is at
/// most `max_init`.
pub proof fn lemma_order_bounds(ships: Seq<Ship>, max_init: int, n: int)
    requires
        0 <= n <= ships.len(),
    ensures
        forall|k: int|
            0 <= k < order_upto(ships, max_init, n).len() ==> 0 <= #[trigger] order_upto(
                ships,
                max_init,
                n,
            )[k] < n && ships[order_upto(ships, max_init, n)[k]].is_alive()
                && ships[order_upto(ships, max_init, n)[k]].initiative <= max_init,
    decreases n,
{
    if n > 0 {
        lemma_order_bounds(ships, max_init, n - 1);
    }
}

/// A fleet with a living ship has a nonempty attack order.
pub proof fn lemma_order_nonempty(ships: Seq<Ship>, max_init: int, n: int)
    requires
        0 <= n <= ships.len(),
        exists|i: int| 0 <= i < n && ships[i].is_alive() && ships[i].initiative <= max_init,
    ensures
        order_upto(ships, max_init, n).len() > 0,
    decreases n,
{
    if !(ships[n - 1].is_alive() && ships[n - 1].initiative <= max_init) {
        let i = choose|i: int| 0 <= i < n && ships[i].is_alive() && ships[i].initiative <= max_init;
        assert(i < n - 1);
        lemma_order_nonempty(ships, max_init, n - 1);
    }
}

fn joins_exec(init: i32, bound: i32, strict: bool) -> (r: bool)
    ensures
        r == joins(init as int, bound as int, strict),
{
    if strict {
        init > bound
    } else {
        init >= bound
    }
}

/// One simultaneous attack of the ships of `acting` on `target` (see
/// `attack_step`). Returns the acting side's next best initiative and the
/// dice drawn.
fn simulate_step<R: DieRoller>(
    acting: &Fleet,
    target: &mut Fleet,
    best: i32,
    bound: i32,
    strict: bool,
    rng: &mut R,
) -> (res: (i32, Ghost<Seq<int>>))
    ensures
        all_die_values(res.1@),
        attack_step(acting@, old(target)@, best as int, bound as int, strict, res.1@) == (
            final(target)@,
            res.0 as int,
            res.1@.len(),
        ),
        final(rng).drawn() == old(rng).drawn() + res.1@,
{
    let ghost ships = acting@;
    let ghost o = attack_order(ships, best as int);
    let order = acting.get_attack_order_max_init(best);
    let mut pool = AttackPool::new();
    let mut pos: usize = 0;
    let ghost mut drawn: Seq<int> = Seq::empty();
    proof {
        lemma_group_end(ships, o, bound as int, strict, 0);
        lemma_order_bounds(ships, best as int, ships.len() as int);
        assert(old(rng).drawn() + drawn =~= old(rng).drawn());
    }
    while pos < order.len() && joins_exec(order[pos].initiative, bound, strict)
        invariant
            ships == acting@,
            lists_order(order@, ships, o),
            pos <= o.len(),
            forall|k: int| 0 <= k < o.len() ==> 0 <= #[trigger] o[k] < ships.len(),
            pool@ == pool_rolls(ships, o.take(pos as int), drawn),
            drawn.len() == pool_dice(ships, o.take(pos as int)),
            all_die_values(drawn),
            rng.drawn() == old(rng).drawn() + drawn,
            group_end(ships, o, bound as int, strict, pos as int) == group_end(
                ships,
                o,
                bound as int,
                strict,
                0,
            ),
        decreases o.len() - pos,
    {
        let index = order[pos].index;
        let ship = acting.ship(index);
        let d = pool.add_ship(ship, rng);
        proof {
            let pre = o.take(pos as int);
            let idx = o.take(pos + 1);
            assert(idx.drop_last() =~= pre);
            lemma_pool_prefix(ships, pre, drawn, d@);
            assert((drawn + d@).skip(drawn.len() as int) =~= d@);
            assert forall|k: int| 0 <= k < drawn.len() + d@.len() implies is_die_value(
                #[trigger] (drawn + d@)[k],
            ) by {
                if k >= drawn.len() {
                    assert((drawn + d@)[k] == d@[k - drawn.len()]);
                }
            }
            assert(old(rng).drawn() + (drawn + d@) =~= (old(rng).drawn() + drawn) + d@);
            drawn = drawn + d@;
        }
        pos += 1;
    }
    let next = if pos < order.len() {
        order[pos].initiative
    } else {
        -1
    };
    pool.attack_fleet(target);
    (next, Ghost(drawn))
}

/// Plays one round (see `round`) and returns the dice drawn.
fn play_round<R: DieRoller>(attacker: &mut Fleet, defender: &mut Fleet, rng: &mut R) -> (dice:
    Ghost<Seq<int>>)
    ensures
        all_die_values(dice@),
        round(old(attacker)@, old(defender)@, dice@) == (final(attacker)@, final(defender)@, dice@.len()),
        !has_alive(old(attacker)@) || !has_alive(old(defender)@) ==> *final(rng) == *old(rng),
        final(rng).drawn() == old(rng).drawn() + dice@,
{
    if !attacker.has_ships_left() || !defender.has_ships_left() {
        assert(rng.drawn() =~= old(rng).drawn() + Seq::<int>::empty());
        return Ghost(Seq::empty());
    }
    let ghost a0 = attacker@;
    let ghost d0 = defender@;
    let attack_order_now = attacker.get_attack_order();
    let defend_order_now = defender.get_attack_order();
    proof {
        let i = choose|i: int| 0 <= i < a0.len() && a0[i].is_alive();
        assert(a0[i].initiative <= i32::MAX);
        lemma_order_nonempty(a0, i32::MAX as int, a0.len() as int);
        let i = choose|i: int| 0 <= i < d0.len() && d0[i].is_alive();
        assert(d0[i].initiative <= i32::MAX);
        lemma_order_nonempty(d0, i32::MAX as int, d0.len() as int);
    }
    let mut best_attack_init = attack_order_now[0].initiative;
    let mut best_defend_init = defend_order_now[0].initiative;
    let ghost ba0 = best_attack_init as int;
    let ghost bd0 = best_defend_init as int;
    let ghost mut drawn: Seq<int> = Seq::empty();
    proof {
        assert(old(rng).drawn() + drawn =~= old(rng).drawn());
        assert forall|rest: Seq<int>| #[trigger] round_from(a0, d0, ba0, bd0, drawn + rest) == {
            let r = round_from(a0, d0, ba0, bd0, rest);
            (r.0, r.1, drawn.len() + r.2)
        } by {
            assert(drawn + rest =~= rest);
        }
    }
    while attacker.has_ships_left() && defender.has_ships_left() && (best_attack_init >= 0
        || best_defend_init >= 0)
        invariant
            all_die_values(drawn),
            rng.drawn() == old(rng).drawn() + drawn,
            forall|rest: Seq<int>| #[trigger] round_from(a0, d0, ba0, bd0, drawn + rest) == {
                let r = round_from(
                    attacker@,
                    defender@,
                    best_attack_init as int,
                    best_defend_init as int,
                    rest,
                );
                (r.0, r.1, drawn.len() + r.2)
            },
        decreases init_measure(best_attack_init as int) + init_measure(best_defend_init as int),
    {
        let ghost a = attacker@;
        let ghost d = defender@;
        let ghost ba = best_attack_init as int;
        let ghost bd = best_defend_init as int;
        let ghost before = drawn;
        if best_attack_init > best_defend_init {
            let (next, dd) = simulate_step(attacker, defender, best_attack_init, best_defend_init, true, rng);
            proof {
                lemma_step_next(a, d, ba, bd, true, dd@);
                assert forall|rest: Seq<int>| #[trigger] round_from(a0, d0, ba0, bd0, (before + dd@) + rest)
                    == {
                    let r = round_from(attacker@, defender@, next as int, bd, rest);
                    (r.0, r.1, (before + dd@).len() + r.2)
                } by {
                    lemma_step_prefix(a, d, ba, bd, true, dd@, rest);
                    assert((before + dd@) + rest =~= before + (dd@ + rest));
                    assert((dd@ + rest).skip(dd@.len() as int) =~= rest);
                    assert(round_from(a0, d0, ba0, bd0, before + (dd@ + rest)) == {
                        let r = round_from(a, d, ba, bd, dd@ + rest);
                        (r.0, r.1, before.len() + r.2)
                    });
                }
                assert forall|k: int| 0 <= k < before.len() + dd@.len() implies is_die_value(
                    #[trigger] (before + dd@)[k],
                ) by {
                    if k >= before.len() {
                        assert((before + dd@)[k] == dd@[k - before.len()]);
                    }
                }
                assert(old(rng).drawn() + (before + dd@) =~= (old(rng).drawn() + before) + dd@);
                drawn = before + dd@;
            }
            best_attack_init = next;
        } else {
            let (next, dd) = simulate_step(defender, attacker, best_defend_init, best_attack_init, false, rng);
            proof {
                lemma_step_next(d, a, bd, ba, false, dd@);
                assert forall|rest: Seq<int>| #[trigger] round_from(a0, d0, ba0, bd0, (before + dd@) + rest)
                    == {
                    let r = round_from(attacker@, defender@, ba, next as int, rest);
                    (r.0, r.1, (before + dd@).len() + r.2)
                } by {
                    lemma_step_prefix(d, a, bd, ba, false, dd@, rest);
                    assert((before + dd@) + rest =~= before + (dd@ + rest));
                    assert((dd@ + rest).skip(dd@.len() as int) =~= rest);
                    assert(round_from(a0, d0, ba0, bd0, before + (dd@ + rest)) == {
                        let r = round_from(a, d, ba, bd, dd@ + rest);
                        (r.0, r.1, before.len() + r.2)
                    });
                }
                assert forall|k: int| 0 <= k < before.len() + dd@.len() implies is_die_value(
                    #[trigger] (before + dd@)[k],
                ) by {
                    if k >= before.len() {
                        assert((before + dd@)[k] == dd@[k - before.len()]);
                    }
                }
                assert(old(rng).drawn() + (before + dd@) =~= (old(rng).drawn() + before) + dd@);
                drawn = before + dd@;
            }
            best_defend_init = next;
        }
    }
    proof {
        assert(!round_goes_on(attacker@, defender@, best_attack_init as int, best_defend_init as int));
        let empty = Seq::<int>::empty();
        assert(drawn + empty =~= drawn);
        assert(round_from(a0, d0, ba0, bd0, drawn + empty) == {
            let r = round_from(attacker@, defender@, best_attack_init as int, best_defend_init as int, empty);
            (r.0, r.1, drawn.len() + r.2)
        });
    }
    Ghost(drawn)
}

/// Plays one round in place: the side with the higher best initiative acts
/// first, the defender on ties, until every ship has acted or a fleet is
/// wiped out. The fleets end as `round` gives them, for the dice drawn.
pub fn simulate_round<R: DieRoller>(attacker: &mut Fleet, defender: &mut Fleet, rng: &mut R)
    ensures
        exists|dice: Seq<int>|
            all_die_values(dice) && final(rng).drawn() == old(rng).drawn() + dice && #[trigger] round(
                old(attacker)@,
                old(defender)@,
                dice,
            ) == (final(attacker)@, final(defender)@, dice.len()),
        fleet_hull_law(old(attacker)@, final(attacker)@),
        fleet_hull_law(old(defender)@, final(defender)@),
        !has_alive(old(attacker)@) || !has_alive(old(defender)@) ==> *final(rng) == *old(rng),
{
    let dice = play_round(attacker, defender, rng);
    assert(round(old(attacker)@, old(defender)@, dice@) == (attacker@, defender@, dice@.len()));
    proof {
        lemma_round_hulls(old(attacker)@, old(defender)@, dice@);
    }
}

/// Rounds a battle plays at most; no battle in practice comes near it.
pub const MAX_ROUNDS: u64 = 0xFFFF_FFFF_FFFF_FFFF;

/// The outcome read off the fleets at the end of a battle.
pub open spec fn outcome(a: Seq<Ship>, d: Seq<Ship>) -> BattleResult {
    if !has_alive(a) && !has_alive(d) {
        BattleResult::Draw
    } else if !has_alive(a) {
        BattleResult::DefenderWins
    } else {
        BattleResult::AttackerWins
    }
}

/// The fleets after the rounds whose dice are `rounds`, in order.
pub open spec fn play(a: Seq<Ship>, d: Seq<Ship>, rounds: Seq<Seq<int>>) -> (Seq<Ship>, Seq<Ship>)
    decreases rounds.len(),
{
    if rounds.len() == 0 {
        (a, d)
    } else {
        let p = play(a, d, rounds.drop_last());
        let r = round(p.0, p.1, rounds.last());
        (r.0, r.1)
    }
}

/// `rounds` holds the dice of a battle's rounds: each round starts with
/// living ships on both sides and uses exactly its dice, and every die
/// shows one to six.
pub open spec fn is_battle(a: Seq<Ship>, d: Seq<Ship>, rounds: Seq<Seq<int>>) -> bool {
    forall|i: int|
        0 <= i < rounds.len() ==> all_die_values(#[trigger] rounds[i]) && ({
            let p = play(a, d, rounds.take(i));
            has_alive(p.0) && has_alive(p.1) && round(p.0, p.1, rounds[i]).2 == rounds[i].len()
        })
}

/// A battle from fleets `a` and `d` that played the rounds of `rounds` can
/// stop there with `result`: a fleet is wiped out (or the round limit is
/// reached), and `result` is read off the fleets.
#[verifier::opaque]
pub open spec fn battle_ends(a: Seq<Ship>, d: Seq<Ship>, rounds: Seq<Seq<int>>, result: BattleResult) -> bool {
    let p = play(a, d, rounds);
    is_battle(a, d, rounds) && (!has_alive(p.0) || !has_alive(p.1) || rounds.len() == MAX_ROUNDS)
        && result == outcome(p.0, p.1)
}

/// Plays rounds until a fleet is wiped out (or the round limit is reached)
/// and reports who won.
pub fn simulate_battle<R: DieRoller>(attacker: &mut Fleet, defender: &mut Fleet, rng: &mut R) -> (r:
    BattleResult)
    ensures
        exists|rounds: Seq<Seq<int>>|
            battle_ends(old(attacker)@, old(defender)@, rounds, r) && #[trigger] play(
                old(attacker)@,
                old(defender)@,
                rounds,
            ) == (final(attacker)@, final(defender)@) && final(rng).drawn() == old(rng).drawn()
                + joined(rounds),
        fleet_hull_law(old(attacker)@, final(attacker)@),
        fleet_hull_law(old(defender)@, final(defender)@),
        !has_alive(old(attacker)@) || !has_alive(old(defender)@) ==> *final(rng) == *old(rng),
        r == BattleResult::Draw <==> !has_alive(old(attacker)@) && !has_alive(old(defender)@),
{
    let ghost a0 = attacker@;
    let ghost d0 = defender@;
    let ghost mut hist: Seq<Seq<int>> = Seq::empty();
    let mut played: u64 = 0;
    proof {
        assert(old(rng).drawn() + joined(hist) =~= old(rng).drawn());
    }
    while played < MAX_ROUNDS && attacker.has_ships_left() && defender.has_ships_left()
        invariant
            is_battle(a0, d0, hist),
            play(a0, d0, hist) == (attacker@, defender@),
            hist.len() == played,
            played == 0 ==> *rng == *old(rng),
            rng.drawn() == old(rng).drawn() + joined(hist),
            played > 0 ==> has_alive(a0) && has_alive(d0),
        decreases MAX_ROUNDS - played,
    {
        let ghost before = hist;
        let dice = play_round(attacker, defender, rng);
        proof {
            hist = before.push(dice@);
            assert(hist.drop_last() =~= before);
            assert(old(rng).drawn() + joined(hist) =~= (old(rng).drawn() + joined(before)) + dice@);
            assert forall|i: int| 0 <= i < hist.len() implies all_die_values(#[trigger] hist[i]) && ({
                let p = play(a0, d0, hist.take(i));
                has_alive(p.0) && has_alive(p.1) && round(p.0, p.1, hist[i]).2 == hist[i].len()
            }) by {
                if i < before.len() {
                    assert(hist.take(i) =~= before.take(i));
                    assert(hist[i] == before[i]);
                } else {
                    assert(hist.take(i) =~= before);
                }
            }
        }
        played += 1;
    }
    let a_left = attacker.has_ships_left();
    let d_left = defender.has_ships_left();
    proof {
        reveal(battle_ends);
        lemma_battle_hulls(a0, d0, hist);
    }
    let result = if !a_left && !d_left {
        BattleResult::Draw
    } else if !a_left {
        BattleResult::DefenderWins
    } else {
        BattleResult::AttackerWins
    };
    proof {
        if result == BattleResult::Draw {
            assert(battle_ends(a0, d0, hist, result));
            lemma_draw_only_without_ships(a0, d0, hist);
        }
    }
    result
}

/// The dice of the rounds, one round after the other.
pub open spec fn joined(rounds: Seq<Seq<int>>) -> Seq<int>
    decreases rounds.len(),
{
    if rounds.len() == 0 {
        Seq::empty()
    } else {
        joined(rounds.drop_last()) + rounds.last()
    }
}

/// The dice of the battles, one battle after the other.
pub open spec fn joined_battles(battles: Seq<Seq<Seq<int>>>) -> Seq<int>
    decreases battles.len(),
{
    if battles.len() == 0 {
        Seq::empty()
    } else {
        joined_battles(battles.drop_last()) + joined(battles.last())
    }
}

/// Number of `DefenderWins` among `results`.
pub open spec fn defender_wins(results: Seq<BattleResult>) -> nat
    decreases results.len(),
{
    if results.len() == 0 {
        0
    } else {
        defender_wins(results.drop_last()) + if results.last() == BattleResult::DefenderWins {
            1nat
        } else {
            0nat
        }
    }
}

/// Plays `n` battles, each on fresh copies of the two fleets, drawing dice
/// from `rng` one battle after the other, and returns how many the
/// defender won.
pub fn simulate_n_battles<R: DieRoller>(attacker: &Fleet, defender: &Fleet, rng: &mut R, n: usize) -> (r:
    usize)
    ensures
        exists|results: Seq<BattleResult>, battles: Seq<Seq<Seq<int>>>|
            results.len() == n && battles.len() == n && #[trigger] defender_wins(results) == r
                && final(rng).drawn() == old(rng).drawn() + #[trigger] joined_battles(battles) && forall|i: int|
                0 <= i < n ==> battle_ends(
                    attacker@,
                    defender@,
                    #[trigger] battles[i],
                    results[i],
                ),
{
    let ghost mut results: Seq<BattleResult> = Seq::empty();
    let ghost mut battles: Seq<Seq<Seq<int>>> = Seq::empty();
    let mut wins: usize = 0;
    let mut i: usize = 0;
    proof {
        assert(old(rng).drawn() + joined_battles(battles) =~= old(rng).drawn());
    }
    while i < n
        invariant
            i <= n,
            results.len() == i,
            battles.len() == i,
            defender_wins(results) == wins,
            wins <= i,
            rng.drawn() == old(rng).drawn() + joined_battles(battles),
            forall|k: int|
                0 <= k < i ==> battle_ends(attacker@, defender@, #[trigger] battles[k], results[k]),
        decreases n - i,
    {
        let mut a = attacker.clone();
        let mut d = defender.clone();
        let ghost pre = rng.drawn();
        let result = simulate_battle(&mut a, &mut d, rng);
        proof {
            let rounds = choose|rounds: Seq<Seq<int>>|
                battle_ends(attacker@, defender@, rounds, result) && #[trigger] play(
                    attacker@,
                    defender@,
                    rounds,
                ) == (a@, d@) && rng.drawn() == pre + joined(rounds);
            let before = results;
            let before_b = battles;
            results = before.push(result);
            battles = before_b.push(rounds);
            assert(results.drop_last() =~= before);
            assert(battles.drop_last() =~= before_b);
            assert(old(rng).drawn() + joined_battles(battles) =~= (old(rng).drawn() + joined_battles(
                before_b,
            )) + joined(rounds));
            assert forall|k: int| 0 <= k < i + 1 implies battle_ends(
                attacker@,
                defender@,
                #[trigger] battles[k],
                results[k],
            ) by {
                if k < i {
                    assert(results[k] == before[k]);
                    assert(battles[k] == before_b[k]);
                }
            }
        }
        if result == BattleResult::DefenderWins {
            wins += 1;
        }
        i += 1;
    }
    proof {
        assert(defender_wins(results) == wins);
    }
    wins
}

/// Determinism: two battles from the same fleets that drew the same dice in
/// every round end with the same fleets and the same result.
pub proof fn lemma_battle_deterministic(
    a1: Seq<Ship>,
    d1: Seq<Ship>,
    rounds1: Seq<Seq<int>>,
    r1: BattleResult,
    a2: Seq<Ship>,
    d2: Seq<Ship>,
    rounds2: Seq<Seq<int>>,
    r2: BattleResult,
)
    requires
        a1 == a2,
        d1 == d2,
        rounds1 == rounds2,
        battle_ends(a1, d1, rounds1, r1),
        battle_ends(a2, d2, rounds2, r2),
    ensures
        play(a1, d1, rounds1) == play(a2, d2, rounds2),
        r1 == r2,
{
    reveal(battle_ends);
}

proof fn lemma_fleet_hull_law_trans(a: Seq<Ship>, b: Seq<Ship>, c: Seq<Ship>)
    requires
        fleet_hull_law(a, b),
        fleet_hull_law(b, c),
    ensures
        fleet_hull_law(a, c),
{
    assert forall|j: int| 0 <= j < a.len() implies hull_law(a[j], #[trigger] c[j]) by {
        assert(hull_law(a[j], b[j]));
        assert(hull_law(b[j], c[j]));
    }
}

proof fn lemma_round_from_hulls(a: Seq<Ship>, d: Seq<Ship>, ba: int, bd: int, dice: Seq<int>)
    ensures
        fleet_hull_law(a, round_from(a, d, ba, bd, dice).0),
        fleet_hull_law(d, round_from(a, d, ba, bd, dice).1),
    decreases init_measure(ba) + init_measure(bd),
{
    if round_goes_on(a, d, ba, bd) {
        if ba > bd {
            lemma_step_next(a, d, ba, bd, true, dice);
            let st = attack_step(a, d, ba, bd, true, dice);
            let o = attack_order(a, ba);
            let g = group_end(a, o, bd, true, 0);
            lemma_resolve_hulls(
                build_edges(pool_rolls(a, o.take(g), dice), d),
                d,
            );
            lemma_round_from_hulls(a, st.0, st.1, bd, dice.skip(st.2 as int));
            lemma_fleet_hull_law_trans(d, st.0, round_from(a, st.0, st.1, bd, dice.skip(st.2 as int)).1);
        } else {
            lemma_step_next(d, a, bd, ba, false, dice);
            let st = attack_step(d, a, bd, ba, false, dice);
            let o = attack_order(d, bd);
            let g = group_end(d, o, ba, false, 0);
            lemma_resolve_hulls(
                build_edges(pool_rolls(d, o.take(g), dice), a),
                a,
            );
            lemma_round_from_hulls(st.0, d, ba, st.1, dice.skip(st.2 as int));
            lemma_fleet_hull_law_trans(a, st.0, round_from(st.0, d, ba, st.1, dice.skip(st.2 as int)).0);
        }
    }
}

/// The hull sentinel law over a round: every ship ends the round unchanged,
/// damaged but at `hull >= 0`, or destroyed at exactly `-1`.
pub proof fn lemma_round_hulls(a: Seq<Ship>, d: Seq<Ship>, dice: Seq<int>)
    ensures
        fleet_hull_law(a, round(a, d, dice).0),
        fleet_hull_law(d, round(a, d, dice).1),
{
    if has_alive(a) && has_alive(d) {
        lemma_round_from_hulls(a, d, first_init(a), first_init(d), dice);
    }
}

/// The hull sentinel law over a whole battle: after any rounds, every ship
/// is unchanged, damaged but at `hull >= 0`, or destroyed at exactly `-1`,
/// and nothing but hulls has changed.
pub proof fn lemma_battle_hulls(a: Seq<Ship>, d: Seq<Ship>, rounds: Seq<Seq<int>>)
    ensures
        fleet_hull_law(a, play(a, d, rounds).0),
        fleet_hull_law(d, play(a, d, rounds).1),
    decreases rounds.len(),
{
    if rounds.len() > 0 {
        let p = play(a, d, rounds.drop_last());
        lemma_battle_hulls(a, d, rounds.drop_last());
        lemma_round_hulls(p.0, p.1, rounds.last());
        let r = round(p.0, p.1, rounds.last());
        lemma_fleet_hull_law_trans(a, p.0, r.0);
        lemma_fleet_hull_law_trans(d, p.1, r.1);
    }
}

#[via_fn]
proof fn round_steps_decreases(a: Seq<Ship>, d: Seq<Ship>, ba: int, bd: int, dice: Seq<int>) {
    if round_goes_on(a, d, ba, bd) {
        if ba > bd {
            lemma_step_next(a, d, ba, bd, true, dice);
        } else {
            lemma_step_next(d, a, bd, ba, false, dice);
        }
    }
}

proof fn lemma_count_at_most(ships: Seq<Ship>, b1: int, b2: int, i: int)
    requires
        b1 < b2,
        0 <= i < ships.len(),
        ships[i].initiative == b2,
    ensures
        count_at_most(ships, b1) < count_at_most(ships, b2),
        count_at_most(ships, b2) <= ships.len(),
    decreases ships.len(),
{
    lemma_count_le_len(ships.drop_last(), b1);
    if i < ships.len() - 1 {
        lemma_count_at_most(ships.drop_last(), b1, b2, i);
    } else {
        lemma_count_mono(ships.drop_last(), b1, b2);
        lemma_count_le_len(ships.drop_last(), b2);
    }
}

proof fn lemma_count_mono(ships: Seq<Ship>, b1: int, b2: int)
    requires
        b1 <= b2,
    ensures
        count_at_most(ships, b1) <= count_at_most(ships, b2),
    decreases ships.len(),
{
    if ships.len() > 0 {
        lemma_count_mono(ships.drop_last(), b1, b2);
    }
}

proof fn lemma_count_le_len(ships: Seq<Ship>, b: int)
    ensures
        count_at_most(ships, b) <= ships.len(),
    decreases ships.len(),
{
    if ships.len() > 0 {
        lemma_count_le_len(ships.drop_last(), b);
    }
}

/// Damage changes no initiative.
proof fn lemma_hull_law_keeps_initiatives(before: Seq<Ship>, after: Seq<Ship>, b: int)
    requires
        fleet_hull_law(before, after),
    ensures
        count_at_most(after, b) == count_at_most(before, b),
        is_init_of(before, b) ==> is_init_of(after, b),
    decreases before.len(),
{
    if before.len() > 0 {
        let n = before.len() - 1;
        assert(fleet_hull_law(before.drop_last(), after.drop_last())) by {
            assert forall|j: int| 0 <= j < n implies hull_law(
                before.drop_last()[j],
                #[trigger] after.drop_last()[j],
            ) by {
                assert(hull_law(before[j], after[j]));
            }
        }
        lemma_hull_law_keeps_initiatives(before.drop_last(), after.drop_last(), b);
        assert(hull_law(before[n], after[n]));
    }
    if b >= 0 && is_init_of(before, b) {
        let i = choose|i: int| 0 <= i < before.len() && before[i].initiative == b;
        assert(hull_law(before[i], after[i]));
        assert(after[i].initiative == b);
    }
}

/// The acting side's next best initiative is that of one of its ships, and
/// fewer of its ships are left to act.
proof fn lemma_step_progress(
    acting: Seq<Ship>,
    target: Seq<Ship>,
    best: int,
    bound: int,
    strict: bool,
    dice: Seq<int>,
)
    requires
        best >= 0,
        strict ==> bound < best,
        !strict ==> bound <= best,
        is_init_of(acting, best),
    ensures
        is_init_of(acting, attack_step(acting, target, best, bound, strict, dice).1),
        to_act(acting, attack_step(acting, target, best, bound, strict, dice).1) < to_act(
            acting,
            best,
        ),
        fleet_hull_law(target, attack_step(acting, target, best, bound, strict, dice).0),
{
    let o = attack_order(acting, best);
    let g = group_end(acting, o, bound, strict, 0);
    lemma_group_end(acting, o, bound, strict, 0);
    lemma_order_bounds(acting, best, acting.len() as int);
    lemma_step_next(acting, target, best, bound, strict, dice);
    let i = choose|i: int| 0 <= i < acting.len() && acting[i].initiative == best;
    let next = attack_step(acting, target, best, bound, strict, dice).1;
    if g < o.len() {
        assert(0 <= o[g] < acting.len());
        assert(acting[o[g]].initiative as int == next);
    }
    if next >= 0 {
        lemma_count_at_most(acting, next, best, i);
    } else {
        lemma_count_at_most(acting, -1, best, i);
    }
    lemma_resolve_hulls(build_edges(pool_rolls(acting, o.take(g), dice), target), target);
}

proof fn lemma_round_steps_bound(a: Seq<Ship>, d: Seq<Ship>, ba: int, bd: int, dice: Seq<int>)
    requires
        is_init_of(a, ba),
        is_init_of(d, bd),
    ensures
        round_steps(a, d, ba, bd, dice) <= to_act(a, ba) + to_act(d, bd),
    decreases init_measure(ba) + init_measure(bd),
{
    if round_goes_on(a, d, ba, bd) {
        if ba > bd {
            lemma_step_next(a, d, ba, bd, true, dice);
            lemma_step_progress(a, d, ba, bd, true, dice);
            let st = attack_step(a, d, ba, bd, true, dice);
            lemma_hull_law_keeps_initiatives(d, st.0, bd);
            lemma_round_steps_bound(a, st.0, st.1, bd, dice.skip(st.2 as int));
        } else {
            lemma_step_next(d, a, bd, ba, false, dice);
            lemma_step_progress(d, a, bd, ba, false, dice);
            let st = attack_step(d, a, bd, ba, false, dice);
            lemma_hull_law_keeps_initiatives(a, st.0, ba);
            lemma_round_steps_bound(st.0, d, ba, st.1, dice.skip(st.2 as int));
        }
    }
}

/// A round ends after at most as many simultaneous attacks as the two
/// fleets hold ships, whatever the dice.
pub proof fn lemma_round_is_bounded(a: Seq<Ship>, d: Seq<Ship>, dice: Seq<int>)
    requires
        has_alive(a),
        has_alive(d),
    ensures
        round_steps(a, d, first_init(a), first_init(d), dice) <= a.len() + d.len(),
{
    let ia = choose|i: int| 0 <= i < a.len() && a[i].is_alive();
    assert(a[ia].initiative <= i32::MAX);
    lemma_order_nonempty(a, i32::MAX as int, a.len() as int);
    lemma_order_bounds(a, i32::MAX as int, a.len() as int);
    let id = choose|i: int| 0 <= i < d.len() && d[i].is_alive();
    assert(d[id].initiative <= i32::MAX);
    lemma_order_nonempty(d, i32::MAX as int, d.len() as int);
    lemma_order_bounds(d, i32::MAX as int, d.len() as int);
    let oa = attack_order(a, i32::MAX as int);
    let od = attack_order(d, i32::MAX as int);
    assert(0 <= oa[0] < a.len());
    assert(0 <= od[0] < d.len());
    assert(a[oa[0]].initiative == first_init(a));
    assert(d[od[0]].initiative == first_init(d));
    lemma_count_le_len(a, first_init(a));
    lemma_count_le_len(d, first_init(d));
    lemma_round_steps_bound(a, d, first_init(a), first_init(d), dice);
}

proof fn lemma_round_from_keeps_a_side(a: Seq<Ship>, d: Seq<Ship>, ba: int, bd: int, dice: Seq<int>)
    requires
        has_alive(a) || has_alive(d),
    ensures
        has_alive(round_from(a, d, ba, bd, dice).0) || has_alive(round_from(a, d, ba, bd, dice).1),
    decreases init_measure(ba) + init_measure(bd),
{
    if round_goes_on(a, d, ba, bd) {
        if ba > bd {
            lemma_step_next(a, d, ba, bd, true, dice);
            let st = attack_step(a, d, ba, bd, true, dice);
            lemma_round_from_keeps_a_side(a, st.0, st.1, bd, dice.skip(st.2 as int));
        } else {
            lemma_step_next(d, a, bd, ba, false, dice);
            let st = attack_step(d, a, bd, ba, false, dice);
            lemma_round_from_keeps_a_side(st.0, d, ba, st.1, dice.skip(st.2 as int));
        }
    }
}

proof fn lemma_play_keeps_a_side(a: Seq<Ship>, d: Seq<Ship>, rounds: Seq<Seq<int>>)
    requires
        has_alive(a) || has_alive(d),
    ensures
        has_alive(play(a, d, rounds).0) || has_alive(play(a, d, rounds).1),
    decreases rounds.len(),
{
    if rounds.len() > 0 {
        lemma_play_keeps_a_side(a, d, rounds.drop_last());
        let p = play(a, d, rounds.drop_last());
        if has_alive(p.0) && has_alive(p.1) {
            lemma_round_from_keeps_a_side(p.0, p.1, first_init(p.0), first_init(p.1), rounds.last());
        }
    }
}

/// A side only ever damages the other one, so a fleet that acts keeps its
/// living ships through its own attack: a battle ends in a draw only when
/// neither fleet had a living ship to begin with.
pub proof fn lemma_draw_only_without_ships(a: Seq<Ship>, d: Seq<Ship>, rounds: Seq<Seq<int>>)
    requires
        battle_ends(a, d, rounds, BattleResult::Draw),
    ensures
        !has_alive(a),
        !has_alive(d),
{
    reveal(battle_ends);
    if has_alive(a) || has_alive(d) {
        lemma_play_keeps_a_side(a, d, rounds);
    }
}

} // verus!
