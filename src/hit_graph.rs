use vstd::prelude::*;
use crate::ship::Ship;
use itertools::Itertools;

verus! {

/// One possible hit: attack roll `from` can hit ship `to` for `damage`.
/// Spent or pointless edges are switched off rather than removed.
#[derive(Clone, Copy, Debug, PartialEq, Eq, Structural)]
pub struct HitEdge {
    pub from: usize,
    pub to: usize,
    pub damage: u32,
    pub active: bool,
}

/// The edge, switched off.
pub open spec fn edge_off(e: HitEdge) -> HitEdge {
    HitEdge { active: false, ..e }
}

/// The edge is active and points at ship `j`.
pub open spec fn counts_to(e: HitEdge, j: int) -> bool {
    e.active && e.to == j
}

/// Sum of the damage of the active edges into ship `j`.
pub open spec fn total_to(edges: Seq<HitEdge>, j: int) -> int
    decreases edges.len(),
{
    if edges.len() == 0 {
        0
    } else {
        total_to(edges.drop_last(), j) + if counts_to(edges.last(), j) {
            edges.last().damage as int
        } else {
            0
        }
    }
}

/// Number of active edges.
pub open spec fn active_count(edges: Seq<HitEdge>) -> nat
    decreases edges.len(),
{
    if edges.len() == 0 {
        0
    } else {
        active_count(edges.drop_last()) + if edges.last().active {
            1nat
        } else {
            0nat
        }
    }
}

/// Number of active edges into ship `j`.
pub open spec fn active_to(edges: Seq<HitEdge>, j: int) -> nat
    decreases edges.len(),
{
    if edges.len() == 0 {
        0
    } else {
        active_to(edges.drop_last(), j) + if counts_to(edges.last(), j) {
            1nat
        } else {
            0nat
        }
    }
}

/// Every edge of attack roll `r` switched off.
pub open spec fn off_from(edges: Seq<HitEdge>, r: int) -> Seq<HitEdge> {
    edges.map_values(|e: HitEdge| if e.from == r { edge_off(e) } else { e })
}

/// Every edge into ship `j` switched off.
pub open spec fn off_to(edges: Seq<HitEdge>, j: int) -> Seq<HitEdge> {
    edges.map_values(|e: HitEdge| if e.to == j { edge_off(e) } else { e })
}

/// Attack roll `r` has an edge, active or not, into ship `j`.
pub open spec fn attacks(edges: Seq<HitEdge>, r: int, j: int) -> bool {
    exists|k: int| 0 <= k < edges.len() && edges[k].from == r && edges[k].to == j
}

/// Every edge of every roll that has an edge, active or not, into ship `j`
/// switched off.
pub open spec fn off_attackers(edges: Seq<HitEdge>, j: int) -> Seq<HitEdge> {
    edges.map_values(
        |e: HitEdge|
            if attacks(edges, e.from as int, j) {
                edge_off(e)
            } else {
                e
            },
    )
}

/// `e2` is `e1` with some edges switched off.
pub open spec fn deactivated(e2: Seq<HitEdge>, e1: Seq<HitEdge>) -> bool {
    e2.len() == e1.len() && forall|k: int|
        0 <= k < e1.len() ==> (#[trigger] e2[k] == e1[k] || e2[k] == edge_off(e1[k]))
}

/// Among the first `n` edges, the active edge into `j` with the largest
/// damage, the last one on ties; `-1` if there is none.
pub open spec fn best_edge_upto(edges: Seq<HitEdge>, j: int, n: int) -> int
    decreases n,
{
    if n <= 0 {
        -1
    } else {
        let b = best_edge_upto(edges, j, n - 1);
        if counts_to(edges[n - 1], j) && (b < 0 || edges[n - 1].damage >= edges[b].damage) {
            n - 1
        } else {
            b
        }
    }
}

pub open spec fn best_edge(edges: Seq<HitEdge>, j: int) -> int {
    best_edge_upto(edges, j, edges.len() as int)
}

/// Greedy spending of whole attack rolls on ship `j`, largest hit first,
/// until `need` damage has been set aside.
pub open spec fn spend(edges: Seq<HitEdge>, j: int, need: int) -> Seq<HitEdge>
    decreases active_to(edges, j),
    via spend_decreases
{
    if need <= 0 {
        edges
    } else {
        let b = best_edge(edges, j);
        if b < 0 {
            edges
        } else {
            spend(off_from(edges, edges[b].from as int), j, need - edges[b].damage)
        }
    }
}

/// The rolls spent to destroy ship `j`, which takes `need` damage: every
/// roll with an edge into it when its active edges hold exactly `need`,
/// else the greedy choice.
pub open spec fn kill_spend(edges: Seq<HitEdge>, j: int, need: int) -> Seq<HitEdge> {
    if total_to(edges, j) == need {
        off_attackers(edges, j)
    } else {
        spend(edges, j, need)
    }
}

/// Ship `j` is alive and can be destroyed (`kill`) or damaged (`!kill`)
/// by the active edges.
pub open spec fn is_target(edges: Seq<HitEdge>, ships: Seq<Ship>, j: int, kill: bool) -> bool {
    ships[j].hull >= 0 && if kill {
        total_to(edges, j) > ships[j].hull
    } else {
        total_to(edges, j) > 0
    }
}

/// Among the first `n` ships, the target that ranks highest, the last one
/// on ties; `-1` if there is none.
pub open spec fn target_upto(edges: Seq<HitEdge>, ships: Seq<Ship>, kill: bool, n: int) -> int
    decreases n,
{
    if n <= 0 {
        -1
    } else {
        let b = target_upto(edges, ships, kill, n - 1);
        if is_target(edges, ships, n - 1, kill) && (b < 0 || ships[n - 1].ranks_at_least(
            ships[b],
        )) {
            n - 1
        } else {
            b
        }
    }
}

pub open spec fn target(edges: Seq<HitEdge>, ships: Seq<Ship>, kill: bool) -> int {
    target_upto(edges, ships, kill, ships.len() as int)
}

/// The greedy allocation of the active edges to the ships: destroy the best
/// ship that can be destroyed, else damage the best ship that can be hit,
/// and repeat while edges are active.
pub open spec fn resolve(edges: Seq<HitEdge>, ships: Seq<Ship>) -> Seq<Ship>
    decreases active_count(edges),
    via resolve_decreases
{
    if active_count(edges) == 0 {
        ships
    } else {
        let k = target(edges, ships, true);
        if k >= 0 {
            resolve(
                off_to(kill_spend(edges, k, ships[k].hull + 1), k),
                ships.update(k, ships[k].with_hull(-1)),
            )
        } else {
            let t = target(edges, ships, false);
            if t >= 0 {
                resolve(
                    off_attackers(edges, t),
                    ships.update(t, ships[t].with_hull(ships[t].hull - total_to(edges, t))),
                )
            } else {
                ships
            }
        }
    }
}

pub proof fn lemma_deactivated_counts(e2: Seq<HitEdge>, e1: Seq<HitEdge>, j: int)
    requires
        deactivated(e2, e1),
    ensures
        active_count(e2) <= active_count(e1),
        active_to(e2, j) <= active_to(e1, j),
        (exists|k: int| 0 <= k < e1.len() && e1[k].active && !e2[k].active) ==> active_count(e2)
            < active_count(e1),
        (exists|k: int| 0 <= k < e1.len() && counts_to(e1[k], j) && !e2[k].active) ==> active_to(
            e2,
            j,
        ) < active_to(e1, j),
    decreases e1.len(),
{
    if e1.len() > 0 {
        let n = e1.len() - 1;
        assert(deactivated(e2.drop_last(), e1.drop_last())) by {
            assert forall|k: int| 0 <= k < n implies #[trigger] e2.drop_last()[k] == e1.drop_last()[k]
                || e2.drop_last()[k] == edge_off(e1.drop_last()[k]) by {
                assert(e2[k] == e1[k] || e2[k] == edge_off(e1[k]));
            }
        }
        lemma_deactivated_counts(e2.drop_last(), e1.drop_last(), j);
        assert(e2[n] == e1[n] || e2[n] == edge_off(e1[n]));
        if exists|k: int| 0 <= k < e1.len() && e1[k].active && !e2[k].active {
            let k = choose|k: int| 0 <= k < e1.len() && e1[k].active && !e2[k].active;
            if k < n {
                assert(e1.drop_last()[k].active && !e2.drop_last()[k].active);
            }
        }
        if exists|k: int| 0 <= k < e1.len() && counts_to(e1[k], j) && !e2[k].active {
            let k = choose|k: int| 0 <= k < e1.len() && counts_to(e1[k], j) && !e2[k].active;
            if k < n {
                assert(counts_to(e1.drop_last()[k], j) && !e2.drop_last()[k].active);
            }
        }
    }
}

pub proof fn lemma_deactivated_trans(e3: Seq<HitEdge>, e2: Seq<HitEdge>, e1: Seq<HitEdge>)
    requires
        deactivated(e3, e2),
        deactivated(e2, e1),
    ensures
        deactivated(e3, e1),
{
    assert forall|k: int| 0 <= k < e1.len() implies #[trigger] e3[k] == e1[k] || e3[k] == edge_off(
        e1[k],
    ) by {
        assert(e3[k] == e2[k] || e3[k] == edge_off(e2[k]));
        assert(e2[k] == e1[k] || e2[k] == edge_off(e1[k]));
    }
}

pub proof fn lemma_off_deactivated(edges: Seq<HitEdge>, x: int)
    ensures
        deactivated(off_from(edges, x), edges),
        deactivated(off_to(edges, x), edges),
        deactivated(off_attackers(edges, x), edges),
{
}

/// The total is never negative, and a positive total comes from an active
/// edge into the ship.
pub proof fn lemma_total_witness(edges: Seq<HitEdge>, j: int)
    ensures
        total_to(edges, j) >= 0,
        total_to(edges, j) > 0 ==> exists|k: int| 0 <= k < edges.len() && counts_to(edges[k], j),
    decreases edges.len(),
{
    if edges.len() > 0 {
        lemma_total_witness(edges.drop_last(), j);
        if total_to(edges.drop_last(), j) > 0 {
            let k = choose|k: int|
                0 <= k < edges.drop_last().len() && counts_to(edges.drop_last()[k], j);
            assert(counts_to(edges[k], j));
        } else if total_to(edges, j) > 0 {
            assert(counts_to(edges[edges.len() - 1], j));
        }
    }
}

pub proof fn lemma_active_witness(edges: Seq<HitEdge>)
    ensures
        active_count(edges) > 0 <==> exists|k: int| 0 <= k < edges.len() && edges[k].active,
    decreases edges.len(),
{
    if edges.len() > 0 {
        lemma_active_witness(edges.drop_last());
        if exists|k: int| 0 <= k < edges.len() && edges[k].active {
            let k = choose|k: int| 0 <= k < edges.len() && edges[k].active;
            if k < edges.len() - 1 {
                assert(edges.drop_last()[k].active);
            }
        }
        if active_count(edges.drop_last()) > 0 {
            let k = choose|k: int| 0 <= k < edges.drop_last().len() && edges.drop_last()[k].active;
            assert(edges[k].active);
        }
    }
}

pub proof fn lemma_best_edge(edges: Seq<HitEdge>, j: int, n: int)
    requires
        0 <= n <= edges.len(),
    ensures
        best_edge_upto(edges, j, n) == -1 || (0 <= best_edge_upto(edges, j, n) < n && counts_to(
            edges[best_edge_upto(edges, j, n)],
            j,
        )),
    decreases n,
{
    if n > 0 {
        lemma_best_edge(edges, j, n - 1);
    }
}

pub proof fn lemma_target(edges: Seq<HitEdge>, ships: Seq<Ship>, kill: bool, n: int)
    requires
        0 <= n <= ships.len(),
    ensures
        target_upto(edges, ships, kill, n) == -1 || (0 <= target_upto(edges, ships, kill, n) < n
            && is_target(edges, ships, target_upto(edges, ships, kill, n), kill)),
        target_upto(edges, ships, kill, n) == -1 ==> forall|j: int|
            0 <= j < n ==> !is_target(edges, ships, j, kill),
    decreases n,
{
    if n > 0 {
        lemma_target(edges, ships, kill, n - 1);
    }
}

#[via_fn]
proof fn spend_decreases(edges: Seq<HitEdge>, j: int, need: int) {
    if need > 0 {
        let b = best_edge(edges, j);
        lemma_best_edge(edges, j, edges.len() as int);
        if b >= 0 {
            let e2 = off_from(edges, edges[b].from as int);
            lemma_off_deactivated(edges, edges[b].from as int);
            assert(counts_to(edges[b], j) && !e2[b].active);
            lemma_deactivated_counts(e2, edges, j);
        }
    }
}

pub proof fn lemma_spend_deactivated(edges: Seq<HitEdge>, j: int, need: int)
    ensures
        deactivated(spend(edges, j, need), edges),
    decreases active_to(edges, j),
{
    if need > 0 {
        let b = best_edge(edges, j);
        if b >= 0 {
            lemma_best_edge(edges, j, edges.len() as int);
            let e2 = off_from(edges, edges[b].from as int);
            lemma_off_deactivated(edges, edges[b].from as int);
            assert(counts_to(edges[b], j) && !e2[b].active);
            lemma_deactivated_counts(e2, edges, j);
            lemma_spend_deactivated(e2, j, need - edges[b].damage);
            lemma_deactivated_trans(spend(e2, j, need - edges[b].damage), e2, edges);
        }
    }
}

/// A kill step switches off at least one active edge.
pub proof fn lemma_kill_step_decreases(edges: Seq<HitEdge>, k: int, need: int)
    requires
        total_to(edges, k) > 0,
    ensures
        active_count(off_to(kill_spend(edges, k, need), k)) < active_count(edges),
{
    let e1 = kill_spend(edges, k, need);
    lemma_off_deactivated(edges, k);
    lemma_spend_deactivated(edges, k, need);
    let e2 = off_to(e1, k);
    lemma_off_deactivated(e1, k);
    lemma_deactivated_trans(e2, e1, edges);
    lemma_total_witness(edges, k);
    let w = choose|w: int| 0 <= w < edges.len() && counts_to(edges[w], k);
    assert(!e2[w].active);
    lemma_deactivated_counts(e2, edges, k);
}

/// A damage step switches off at least one active edge.
pub proof fn lemma_damage_step_decreases(edges: Seq<HitEdge>, t: int)
    requires
        total_to(edges, t) > 0,
    ensures
        active_count(off_attackers(edges, t)) < active_count(edges),
{
    let e2 = off_attackers(edges, t);
    lemma_off_deactivated(edges, t);
    lemma_total_witness(edges, t);
    let w = choose|w: int| 0 <= w < edges.len() && counts_to(edges[w], t);
    assert(attacks(edges, edges[w].from as int, t));
    assert(!e2[w].active);
    lemma_deactivated_counts(e2, edges, t);
}

#[via_fn]
proof fn resolve_decreases(edges: Seq<HitEdge>, ships: Seq<Ship>) {
    if active_count(edges) > 0 {
        let k = target(edges, ships, true);
        lemma_target(edges, ships, true, ships.len() as int);
        if k >= 0 {
            lemma_kill_step_decreases(edges, k, ships[k].hull + 1);
        } else {
            let t = target(edges, ships, false);
            lemma_target(edges, ships, false, ships.len() as int);
            if t >= 0 {
                lemma_damage_step_decreases(edges, t);
            }
        }
    }
}


/// What an allocation may do to a ship: leave it as it is, lower its hull
/// without going below zero, or destroy it (hull `-1`).
pub open spec fn hull_law(before: Ship, after: Ship) -> bool {
    after == before || after == before.with_hull(-1) || (after == before.with_hull(after.hull as int)
        && 0 <= after.hull < before.hull)
}

/// Every ship of `after` is its counterpart in `before`, left alone,
/// damaged down to no less than zero, or destroyed at `-1`.
pub open spec fn fleet_hull_law(before: Seq<Ship>, after: Seq<Ship>) -> bool {
    after.len() == before.len() && forall|j: int|
        0 <= j < before.len() ==> hull_law(before[j], #[trigger] after[j])
}

proof fn lemma_hull_law_trans(a: Ship, b: Ship, c: Ship)
    requires
        hull_law(a, b),
        hull_law(b, c),
    ensures
        hull_law(a, c),
{
}

/// The hull sentinel law: after the allocation every ship is unchanged,
/// damaged but at `hull >= 0`, or destroyed at exactly `-1`; nothing but
/// hulls changes.
pub proof fn lemma_resolve_hulls(edges: Seq<HitEdge>, ships: Seq<Ship>)
    ensures
        resolve(edges, ships).len() == ships.len(),
        forall|j: int| 0 <= j < ships.len() ==> hull_law(ships[j], #[trigger] resolve(edges, ships)[j]),
    decreases active_count(edges),
{
    if active_count(edges) > 0 {
        let k = target(edges, ships, true);
        lemma_target(edges, ships, true, ships.len() as int);
        if k >= 0 {
            lemma_kill_step_decreases(edges, k, ships[k].hull + 1);
            let e2 = off_to(kill_spend(edges, k, ships[k].hull + 1), k);
            let s2 = ships.update(k, ships[k].with_hull(-1));
            lemma_resolve_hulls(e2, s2);
            assert forall|j: int| 0 <= j < ships.len() implies hull_law(
                ships[j],
                #[trigger] resolve(edges, ships)[j],
            ) by {
                assert(hull_law(ships[j], s2[j]));
                assert(hull_law(s2[j], resolve(e2, s2)[j]));
                lemma_hull_law_trans(ships[j], s2[j], resolve(e2, s2)[j]);
            }
        } else {
            let t = target(edges, ships, false);
            lemma_target(edges, ships, false, ships.len() as int);
            if t >= 0 {
                lemma_damage_step_decreases(edges, t);
                assert(!is_target(edges, ships, t, true));
                let e2 = off_attackers(edges, t);
                let s2 = ships.update(t, ships[t].with_hull(ships[t].hull - total_to(edges, t)));
                lemma_resolve_hulls(e2, s2);
                assert forall|j: int| 0 <= j < ships.len() implies hull_law(
                    ships[j],
                    #[trigger] resolve(edges, ships)[j],
                ) by {
                    assert(hull_law(ships[j], s2[j]));
                    assert(hull_law(s2[j], resolve(e2, s2)[j]));
                    lemma_hull_law_trans(ships[j], s2[j], resolve(e2, s2)[j]);
                }
            }
        }
    }
}

pub proof fn lemma_deactivated_total(e2: Seq<HitEdge>, e1: Seq<HitEdge>, j: int, w: int)
    requires
        deactivated(e2, e1),
    ensures
        total_to(e2, j) <= total_to(e1, j),
        0 <= w < e1.len() && counts_to(e1[w], j) && !e2[w].active ==> total_to(e2, j) <= total_to(
            e1,
            j,
        ) - e1[w].damage,
    decreases e1.len(),
{
    if e1.len() > 0 {
        let n = e1.len() - 1;
        assert(deactivated(e2.drop_last(), e1.drop_last())) by {
            assert forall|k: int| 0 <= k < n implies #[trigger] e2.drop_last()[k] == e1.drop_last()[k]
                || e2.drop_last()[k] == edge_off(e1.drop_last()[k]) by {
                assert(e2[k] == e1[k] || e2[k] == edge_off(e1[k]));
            }
        }
        lemma_deactivated_total(e2.drop_last(), e1.drop_last(), j, w);
        assert(e2[n] == e1[n] || e2[n] == edge_off(e1[n]));
    }
}

/// Greedy spending sets aside at least `need` damage, or everything there
/// is, and spends only rolls whose active edge into ship `k` it spends.
proof fn lemma_spend_amount(edges: Seq<HitEdge>, k: int, need: int)
    ensures
        total_to(spend(edges, k, need), k) >= 0,
        total_to(edges, k) - total_to(spend(edges, k, need), k) >= if need <= total_to(edges, k) {
            need
        } else {
            total_to(edges, k)
        },
        forall|w: int|
            0 <= w < edges.len() && edges[w].active && !(#[trigger] spend(edges, k, need)[w]).active
                ==> exists|x: int|
                0 <= x < edges.len() && edges[x].from == edges[w].from && counts_to(edges[x], k)
                    && !spend(edges, k, need)[x].active,
    decreases active_to(edges, k),
{
    lemma_total_witness(edges, k);
    lemma_total_witness(spend(edges, k, need), k);
    lemma_spend_deactivated(edges, k, need);
    if need > 0 {
        let b = best_edge(edges, k);
        lemma_best_edge(edges, k, edges.len() as int);
        if b >= 0 {
            let r = edges[b].from as int;
            let e2 = off_from(edges, r);
            lemma_off_deactivated(edges, r);
            assert(counts_to(edges[b], k) && !e2[b].active);
            lemma_deactivated_counts(e2, edges, k);
            lemma_deactivated_total(e2, edges, k, b);
            lemma_spend_amount(e2, k, need - edges[b].damage);
            lemma_total_witness(e2, k);
            let e3 = spend(e2, k, need - edges[b].damage);
            lemma_spend_deactivated(e2, k, need - edges[b].damage);
            assert forall|w: int|
                0 <= w < edges.len() && edges[w].active && !(#[trigger] spend(edges, k, need)[w]).active
                    implies exists|x: int|
                    0 <= x < edges.len() && edges[x].from == edges[w].from && counts_to(edges[x], k)
                        && !spend(edges, k, need)[x].active by {
                if e2[w].active {
                    let x = choose|x: int|
                        0 <= x < e2.len() && e2[x].from == e2[w].from && counts_to(e2[x], k)
                            && !e3[x].active;
                    assert(edges[x].from == edges[w].from && counts_to(edges[x], k) && !e3[x].active);
                } else {
                    assert(e3[b] == e2[b] || e3[b] == edge_off(e2[b]));
                    assert(edges[b].from == edges[w].from && counts_to(edges[b], k) && !e3[b].active);
                }
            }
        } else {
            if total_to(edges, k) > 0 {
                let w = choose|w: int| 0 <= w < edges.len() && counts_to(edges[w], k);
                lemma_best_edge_none(edges, k, edges.len() as int, w);
            }
        }
    }
}

proof fn lemma_best_edge_none(edges: Seq<HitEdge>, j: int, n: int, w: int)
    requires
        0 <= w < n <= edges.len(),
        counts_to(edges[w], j),
    ensures
        best_edge_upto(edges, j, n) >= 0,
    decreases n,
{
    if w < n - 1 {
        lemma_best_edge_none(edges, j, n - 1, w);
    }
}

/// Greedy spending spends whole rolls: once a roll's active edge into ship
/// `k` is spent, every edge of that roll is off.
proof fn lemma_spend_whole_rolls(edges: Seq<HitEdge>, k: int, need: int)
    ensures
        forall|w: int, x: int|
            #![trigger spend(edges, k, need)[w], spend(edges, k, need)[x]]
            0 <= w < edges.len() && 0 <= x < edges.len() && edges[x].from == edges[w].from
                && counts_to(edges[x], k) && !spend(edges, k, need)[x].active ==> !spend(
                edges,
                k,
                need,
            )[w].active,
    decreases active_to(edges, k),
{
    if need > 0 {
        let b = best_edge(edges, k);
        lemma_best_edge(edges, k, edges.len() as int);
        if b >= 0 {
            let r = edges[b].from as int;
            let e2 = off_from(edges, r);
            lemma_off_deactivated(edges, r);
            assert(counts_to(edges[b], k) && !e2[b].active);
            lemma_deactivated_counts(e2, edges, k);
            lemma_spend_whole_rolls(e2, k, need - edges[b].damage);
            lemma_spend_deactivated(e2, k, need - edges[b].damage);
            let e3 = spend(e2, k, need - edges[b].damage);
            assert forall|w: int, x: int|
                #![trigger spend(edges, k, need)[w], spend(edges, k, need)[x]]
                0 <= w < edges.len() && 0 <= x < edges.len() && edges[x].from == edges[w].from
                    && counts_to(edges[x], k) && !spend(edges, k, need)[x].active implies !spend(
                    edges,
                    k,
                    need,
                )[w].active by {
                assert(e3[w] == e2[w] || e3[w] == edge_off(e2[w]));
                if e2[x].active {
                    assert(e2[x].from == e2[w].from && counts_to(e2[x], k) && !e3[x].active);
                    assert(!e3[w].active);
                } else {
                    assert(edges[x].from == r);
                    assert(!e2[w].active);
                }
            }
        }
    }
}

/// A roll whose active edge into ship `k` is no longer active in `after`:
/// it was spent on `k`.
pub open spec fn spent_on(edges: Seq<HitEdge>, after: Seq<HitEdge>, k: int, r: int) -> bool {
    exists|x: int|
        0 <= x < edges.len() && edges[x].from == r && counts_to(edges[x], k) && !(#[trigger] after[x]).active
}

/// A roll whose edge into ship `k` is off has all of its edges off: the
/// rolls spent so far were spent whole.
pub open spec fn spent_whole(edges: Seq<HitEdge>, k: int) -> bool {
    forall|x: int, w: int|
        0 <= x < edges.len() && 0 <= w < edges.len() && edges[x].to == k && !edges[x].active
            && #[trigger] edges[w].from == #[trigger] edges[x].from ==> !edges[w].active
}

/// Overkill conservation: destroying ship `k`, which takes `need` damage,
/// sets aside rolls worth at least `need` against it. Only whole rolls are
/// spent, and only rolls that fed `k` through an active edge: a spent roll
/// loses every edge, and every other roll keeps all of its edges as they
/// were, so the rolls the kill did not need stay available against other
/// targets. Clearing the edges into the destroyed ship touches no other
/// edge. This holds where the rolls spent so far were spent whole.
pub proof fn lemma_overkill_conservation(edges: Seq<HitEdge>, k: int, need: int)
    requires
        0 < need <= total_to(edges, k),
        spent_whole(edges, k),
    ensures
        deactivated(kill_spend(edges, k, need), edges),
        total_to(edges, k) - total_to(kill_spend(edges, k, need), k) >= need,
        forall|w: int|
            0 <= w < edges.len() && spent_on(edges, kill_spend(edges, k, need), k, edges[w].from as int)
                ==> !(#[trigger] kill_spend(edges, k, need)[w]).active,
        forall|w: int|
            0 <= w < edges.len() && !spent_on(edges, kill_spend(edges, k, need), k, edges[w].from as int)
                ==> #[trigger] kill_spend(edges, k, need)[w] == edges[w],
        forall|w: int|
            0 <= w < edges.len() && edges[w].to != k ==> #[trigger] off_to(
                kill_spend(edges, k, need),
                k,
            )[w] == kill_spend(edges, k, need)[w],
{
    let e1 = kill_spend(edges, k, need);
    lemma_off_deactivated(edges, k);
    lemma_spend_deactivated(edges, k, need);
    if total_to(edges, k) == need {
        lemma_total_witness(e1, k);
        if total_to(e1, k) > 0 {
            let w = choose|w: int| 0 <= w < e1.len() && counts_to(e1[w], k);
            assert(attacks(edges, edges[w].from as int, k));
        }
        assert forall|w: int|
            0 <= w < edges.len() && spent_on(edges, e1, k, edges[w].from as int)
                implies !(#[trigger] e1[w]).active by {
            let x = choose|x: int|
                0 <= x < edges.len() && edges[x].from == edges[w].from && counts_to(edges[x], k)
                    && !(#[trigger] e1[x]).active;
            assert(attacks(edges, edges[w].from as int, k));
        }
        assert forall|w: int|
            0 <= w < edges.len() && !spent_on(edges, e1, k, edges[w].from as int)
                implies #[trigger] e1[w] == edges[w] by {
            if attacks(edges, edges[w].from as int, k) {
                let x = choose|x: int|
                    0 <= x < edges.len() && edges[x].from == edges[w].from && edges[x].to == k;
                assert(!e1[x].active);
                if edges[x].active {
                    assert(spent_on(edges, e1, k, edges[w].from as int));
                } else {
                    assert(edges[w].from == edges[x].from);
                    assert(!edges[w].active);
                    assert(e1[w] == edge_off(edges[w]));
                }
            }
        }
    } else {
        lemma_spend_amount(edges, k, need);
        lemma_spend_whole_rolls(edges, k, need);
        assert forall|w: int|
            0 <= w < edges.len() && spent_on(edges, e1, k, edges[w].from as int)
                implies !(#[trigger] e1[w]).active by {
            let x = choose|x: int|
                0 <= x < edges.len() && edges[x].from == edges[w].from && counts_to(edges[x], k)
                    && !(#[trigger] e1[x]).active;
            assert(!spend(edges, k, need)[x].active);
        }
        assert forall|w: int|
            0 <= w < edges.len() && !spent_on(edges, e1, k, edges[w].from as int)
                implies #[trigger] e1[w] == edges[w] by {
            assert(e1[w] == edges[w] || e1[w] == edge_off(edges[w]));
            if edges[w].active && !e1[w].active {
                let x = choose|x: int|
                    0 <= x < edges.len() && edges[x].from == edges[w].from && counts_to(edges[x], k)
                        && !spend(edges, k, need)[x].active;
                assert(spent_on(edges, e1, k, edges[w].from as int));
            }
        }
    }
}

/// Damage sums saturate here; no sum of hull values reaches it.
pub const DAMAGE_CAP: u64 = 0xFFFF_FFFF_FFFF_FFFF;

pub open spec fn capped(x: int) -> int {
    if x > DAMAGE_CAP as int {
        DAMAGE_CAP as int
    } else {
        x
    }
}

/// Relies on itertools' `Itertools::unique`: each value once, in the order
/// of its first occurrence.
#[verifier::external_body]
fn unique_indices(v: Vec<usize>) -> (r: Vec<usize>)
    ensures
        r@.no_duplicates(),
        forall|x: usize| r@.contains(x) <==> v@.contains(x),
{
    v.into_iter().unique().collect()
}

/// Which attack roll can hit which ship, and for how much damage.
pub struct HitGraph {
    pub edges: Vec<HitEdge>,
    pub num_attack_rolls: usize,
    pub num_ships: usize,
}

impl HitGraph {
    /// Every edge joins an existing roll to an existing ship.
    pub open spec fn wf(&self) -> bool {
        forall|k: int|
            0 <= k < self.edges@.len() ==> (#[trigger] self.edges@[k]).to < self.num_ships
                && self.edges@[k].from < self.num_attack_rolls
    }

    pub open spec fn same_shape(&self, other: &HitGraph) -> bool {
        self.num_attack_rolls == other.num_attack_rolls && self.num_ships == other.num_ships
            && self.edges@.len() == other.edges@.len()
    }

    pub fn new(num_attack_rolls: usize, num_ships: usize) -> (r: HitGraph)
        ensures
            r.edges@ == Seq::<HitEdge>::empty(),
            r.num_attack_rolls == num_attack_rolls,
            r.num_ships == num_ships,
            r.wf(),
    {
        HitGraph { edges: Vec::new(), num_attack_rolls, num_ships }
    }

    pub fn add_edge(&mut self, from: usize, to: usize, damage: u32)
        requires
            old(self).wf(),
            from < old(self).num_attack_rolls,
            to < old(self).num_ships,
        ensures
            final(self).edges@ == old(self).edges@.push(
                HitEdge { from, to, damage, active: true },
            ),
            final(self).num_attack_rolls == old(self).num_attack_rolls,
            final(self).num_ships == old(self).num_ships,
            final(self).wf(),
    {
        self.edges.push(HitEdge { from, to, damage, active: true });
    }

    pub fn has_active_edges(&self) -> (r: bool)
        ensures
            r == (active_count(self.edges@) > 0),
    {
        proof {
            lemma_active_witness(self.edges@);
        }
        let mut k: usize = 0;
        while k < self.edges.len()
            invariant
                k <= self.edges@.len(),
                forall|x: int| 0 <= x < k ==> !(#[trigger] self.edges@[x]).active,
            decreases self.edges@.len() - k,
        {
            if self.edges[k].active {
                proof {
                    lemma_active_witness(self.edges@);
                    assert(self.edges@[k as int].active);
                }
                return true;
            }
            k += 1;
        }
        false
    }

    /// The capped damage total of the active edges into each ship.
    pub fn total_possible_damage_per_ship(&self) -> (r: Vec<u64>)
        requires
            self.wf(),
        ensures
            r@.len() == self.num_ships,
            forall|j: int| 0 <= j < self.num_ships ==> r@[j] == capped(total_to(self.edges@, j)),
    {
        let mut total: Vec<u64> = Vec::new();
        let mut j: usize = 0;
        while j < self.num_ships
            invariant
                j <= self.num_ships,
                total@.len() == j,
                forall|x: int| 0 <= x < j ==> total@[x] == 0,
            decreases self.num_ships - j,
        {
            total.push(0);
            j += 1;
        }
        let mut k: usize = 0;
        while k < self.edges.len()
            invariant
                self.wf(),
                k <= self.edges@.len(),
                total@.len() == self.num_ships,
                forall|x: int|
                    0 <= x < self.num_ships ==> total@[x] == capped(
                        total_to(#[trigger] self.edges@.take(k as int), x),
                    ),
            decreases self.edges@.len() - k,
        {
            let e = self.edges[k];
            let ghost before = total@;
            proof {
                assert(self.edges@.take(k + 1).drop_last() =~= self.edges@.take(k as int));
            }
            if e.active {
                let t = total[e.to];
                let d = e.damage as u64;
                let nt = if t > DAMAGE_CAP - d {
                    DAMAGE_CAP
                } else {
                    t + d
                };
                total.set(e.to, nt);
            }
            proof {
                assert forall|x: int| 0 <= x < self.num_ships implies total@[x] == capped(
                    total_to(#[trigger] self.edges@.take(k + 1), x),
                ) by {
                    lemma_total_witness(self.edges@.take(k as int), x);
                    assert(before[x] == capped(total_to(self.edges@.take(k as int), x)));
                }
            }
            k += 1;
        }
        proof {
            assert(self.edges@.take(self.edges@.len() as int) =~= self.edges@);
        }
        total
    }

    /// The capped damage total of the active edges into ship `ship_index`.
    pub fn get_total_possible_damage_to_ship(&self, ship_index: usize) -> (r: u64)
        ensures
            r == capped(total_to(self.edges@, ship_index as int)),
    {
        let mut total: u64 = 0;
        let mut k: usize = 0;
        while k < self.edges.len()
            invariant
                k <= self.edges@.len(),
                total == capped(total_to(self.edges@.take(k as int), ship_index as int)),
            decreases self.edges@.len() - k,
        {
            let e = self.edges[k];
            proof {
                assert(self.edges@.take(k + 1).drop_last() =~= self.edges@.take(k as int));
                lemma_total_witness(self.edges@.take(k as int), ship_index as int);
            }
            if e.active && e.to == ship_index {
                let d = e.damage as u64;
                total = if total > DAMAGE_CAP - d {
                    DAMAGE_CAP
                } else {
                    total + d
                };
            }
            k += 1;
        }
        proof {
            assert(self.edges@.take(self.edges@.len() as int) =~= self.edges@);
        }
        total
    }

    pub fn deactivate_all_edges_to_ship(&mut self, ship_index: usize)
        requires
            old(self).wf(),
        ensures
            final(self).edges@ == off_to(old(self).edges@, ship_index as int),
            final(self).same_shape(old(self)),
            final(self).wf(),
    {
        let ghost orig = self.edges@;
        let mut k: usize = 0;
        while k < self.edges.len()
            invariant
                self.edges@.len() == orig.len(),
                self.num_attack_rolls == old(self).num_attack_rolls,
                self.num_ships == old(self).num_ships,
                orig == old(self).edges@,
                k <= orig.len(),
                forall|x: int|
                    0 <= x < k ==> #[trigger] self.edges@[x] == (if orig[x].to == ship_index {
                        edge_off(orig[x])
                    } else {
                        orig[x]
                    }),
                forall|x: int| k <= x < orig.len() ==> #[trigger] self.edges@[x] == orig[x],
            decreases orig.len() - k,
        {
            let e = self.edges[k];
            if e.to == ship_index {
                self.edges.set(k, HitEdge { active: false, ..e });
            }
            k += 1;
        }
        assert(self.edges@ =~= off_to(orig, ship_index as int));
    }

    pub fn deactivate_all_edges_from_attack_roll(&mut self, index: usize)
        requires
            old(self).wf(),
        ensures
            final(self).edges@ == off_from(old(self).edges@, index as int),
            final(self).same_shape(old(self)),
            final(self).wf(),
    {
        let ghost orig = self.edges@;
        let mut k: usize = 0;
        while k < self.edges.len()
            invariant
                self.edges@.len() == orig.len(),
                self.num_attack_rolls == old(self).num_attack_rolls,
                self.num_ships == old(self).num_ships,
                orig == old(self).edges@,
                k <= orig.len(),
                forall|x: int|
                    0 <= x < k ==> #[trigger] self.edges@[x] == (if orig[x].from == index {
                        edge_off(orig[x])
                    } else {
                        orig[x]
                    }),
                forall|x: int| k <= x < orig.len() ==> #[trigger] self.edges@[x] == orig[x],
            decreases orig.len() - k,
        {
            let e = self.edges[k];
            if e.from == index {
                self.edges.set(k, HitEdge { active: false, ..e });
            }
            k += 1;
        }
        assert(self.edges@ =~= off_from(orig, index as int));
    }

    /// Spends every roll that has an edge, active or not, into ship
    /// `ship_index`: all of their edges are switched off.
    pub fn deactivate_all_rolls_attacking(&mut self, ship_index: usize)
        requires
            old(self).wf(),
        ensures
            final(self).edges@ == off_attackers(old(self).edges@, ship_index as int),
            final(self).same_shape(old(self)),
            final(self).wf(),
    {
        let ghost orig = self.edges@;
        let ghost j = ship_index as int;
        let mut froms: Vec<usize> = Vec::new();
        let mut k: usize = 0;
        while k < self.edges.len()
            invariant
                j == ship_index as int,
                k <= orig.len(),
                self.edges@ == orig,
                forall|r: usize|
                    froms@.contains(r) <==> exists|x: int|
                        0 <= x < k && (#[trigger] orig[x]).from == r && orig[x].to == j,
            decreases orig.len() - k,
        {
            let e = self.edges[k];
            let ghost old_froms = froms@;
            if e.to == ship_index {
                froms.push(e.from);
            }
            proof {
                assert forall|r: usize|
                    froms@.contains(r) <==> exists|x: int|
                        0 <= x < k + 1 && (#[trigger] orig[x]).from == r && orig[x].to == j by {
                    if froms@.contains(r) && !old_froms.contains(r) {
                        assert(orig[k as int].from == r);
                    }
                    if exists|x: int| 0 <= x < k + 1 && (#[trigger] orig[x]).from == r && orig[x].to == j {
                        let x = choose|x: int| 0 <= x < k + 1 && (#[trigger] orig[x]).from == r && orig[x].to == j;
                        if x == k {
                            assert(froms@.last() == r);
                        } else {
                            assert(old_froms.contains(r));
                            let y = choose|y: int| 0 <= y < old_froms.len() && old_froms[y] == r;
                            assert(froms@[y] == r);
                        }
                    }
                }
            }
            k += 1;
        }
        let rolls = unique_indices(froms);
        let mut p: usize = 0;
        while p < rolls.len()
            invariant
                j == ship_index as int,
                p <= rolls@.len(),
                self.edges@.len() == orig.len(),
                self.num_attack_rolls == old(self).num_attack_rolls,
                self.num_ships == old(self).num_ships,
                orig == old(self).edges@,
                self.wf(),
                forall|x: int|
                    0 <= x < orig.len() ==> #[trigger] self.edges@[x] == (if exists|q: int|
                        0 <= q < p && rolls@[q] == orig[x].from {
                        edge_off(orig[x])
                    } else {
                        orig[x]
                    }),
            decreases rolls@.len() - p,
        {
            let ghost before = self.edges@;
            self.deactivate_all_edges_from_attack_roll(rolls[p]);
            proof {
                assert forall|x: int| 0 <= x < orig.len() implies #[trigger] self.edges@[x] == (
                if exists|q: int| 0 <= q < p + 1 && rolls@[q] == orig[x].from {
                    edge_off(orig[x])
                } else {
                    orig[x]
                }) by {
                    assert(before[x] == (if exists|q: int| 0 <= q < p && rolls@[q] == orig[x].from {
                        edge_off(orig[x])
                    } else {
                        orig[x]
                    }));
                    if rolls@[p as int] == orig[x].from {
                        assert(0 <= p < p + 1 && rolls@[p as int] == orig[x].from);
                    }
                    if exists|q: int| 0 <= q < p + 1 && rolls@[q] == orig[x].from {
                        let q = choose|q: int| 0 <= q < p + 1 && rolls@[q] == orig[x].from;
                        if q < p {
                            assert(exists|q: int| 0 <= q < p && rolls@[q] == orig[x].from);
                        }
                    }
                }
            }
            p += 1;
        }
        proof {
            assert forall|x: int| 0 <= x < orig.len() implies #[trigger] self.edges@[x] == off_attackers(
                orig,
                j,
            )[x] by {
                let r = orig[x].from;
                if attacks(orig, r as int, j) {
                    let y = choose|y: int| 0 <= y < orig.len() && orig[y].from == r && orig[y].to == j;
                    assert(orig[y].from == r && orig[y].to == j);
                    assert(froms@.contains(r));
                    assert(rolls@.contains(r));
                    let q = choose|q: int| 0 <= q < rolls@.len() && rolls@[q] == r;
                    assert(0 <= q < p && rolls@[q] == orig[x].from);
                }
                if exists|q: int| 0 <= q < p && rolls@[q] == orig[x].from {
                    let q = choose|q: int| 0 <= q < p && rolls@[q] == orig[x].from;
                    assert(rolls@.contains(r));
                    assert(froms@.contains(r));
                    let y = choose|y: int| 0 <= y < orig.len() && (#[trigger] orig[y]).from == r && orig[y].to == j;
                    assert(attacks(orig, r as int, j));
                }
            }
            assert(self.edges@ =~= off_attackers(orig, j));
        }
    }

    /// The active edge into ship `ship_index` with the largest damage, the
    /// last one on ties.
    fn best_active_edge_to(&self, ship_index: usize) -> (r: Option<usize>)
        ensures
            match r {
                Some(k) => best_edge(self.edges@, ship_index as int) == k as int,
                None => best_edge(self.edges@, ship_index as int) == -1,
            },
    {
        let ghost j = ship_index as int;
        let mut best: Option<usize> = None;
        let mut k: usize = 0;
        while k < self.edges.len()
            invariant
                j == ship_index as int,
                k <= self.edges@.len(),
                match best {
                    Some(b) => best_edge_upto(self.edges@, j, k as int) == b as int,
                    None => best_edge_upto(self.edges@, j, k as int) == -1,
                },
            decreases self.edges@.len() - k,
        {
            proof {
                lemma_best_edge(self.edges@, j, k as int);
            }
            let e = self.edges[k];
            if e.active && e.to == ship_index {
                match best {
                    None => {
                        best = Some(k);
                    },
                    Some(b) => {
                        if e.damage >= self.edges[b].damage {
                            best = Some(k);
                        }
                    },
                }
            }
            k += 1;
        }
        best
    }

    /// Switches off whole attack rolls into ship `ship_index`, largest hit
    /// first, until `damage_needed` damage has been set aside; when the
    /// active edges into the ship hold exactly that much, every roll with an
    /// edge into the ship is spent. The active edges must hold at
    /// least that much.
    pub fn deactivate_all_rolls_attacking_max_dmg(&mut self, ship_index: usize, damage_needed: u64)
        requires
            old(self).wf(),
            damage_needed <= 0x1_0000_0000,
            damage_needed <= capped(total_to(old(self).edges@, ship_index as int)),
        ensures
            final(self).edges@ == kill_spend(
                old(self).edges@,
                ship_index as int,
                damage_needed as int,
            ),
            final(self).same_shape(old(self)),
            final(self).wf(),
    {
        let ghost orig = self.edges@;
        let ghost j = ship_index as int;
        let total = self.get_total_possible_damage_to_ship(ship_index);
        proof {
            lemma_total_witness(orig, j);
        }
        if total == damage_needed {
            self.deactivate_all_rolls_attacking(ship_index);
            return;
        }
        let mut need: i64 = damage_needed as i64;
        while need > 0
            invariant
                j == ship_index as int,
                self.wf(),
                self.same_shape(old(self)),
                -0x1_0000_0000 <= need <= 0x1_0000_0000,
                spend(self.edges@, j, need as int) == spend(orig, j, damage_needed as int),
            ensures
                self.wf(),
                self.same_shape(old(self)),
                spend(self.edges@, j, need as int) == self.edges@,
                spend(self.edges@, j, need as int) == spend(orig, j, damage_needed as int),
            decreases active_to(self.edges@, j),
        {
            match self.best_active_edge_to(ship_index) {
                None => {
                    break ;
                },
                Some(k) => {
                    let ghost cur = self.edges@;
                    proof {
                        lemma_best_edge(cur, j, cur.len() as int);
                    }
                    let e = self.edges[k];
                    need = need - e.damage as i64;
                    self.deactivate_all_edges_from_attack_roll(e.from);
                    proof {
                        lemma_off_deactivated(cur, e.from as int);
                        assert(counts_to(cur[k as int], j) && !self.edges@[k as int].active);
                        lemma_deactivated_counts(self.edges@, cur, j);
                    }
                },
            }
        }
    }
}

} // verus!
