use vstd::prelude::*;
use crate::ship::Ship;

verus! {

/// Where a ship of initiative `init` goes in `sorted`: after the last ship
/// whose initiative is not lower.
pub open spec fn insert_pos(sorted: Seq<Ship>, init: int) -> int
    decreases sorted.len(),
{
    if sorted.len() == 0 {
        0
    } else if sorted.last().initiative < init {
        insert_pos(sorted.drop_last(), init)
    } else {
        sorted.len() as int
    }
}

/// The ships, sorted by initiative, highest first; ships of equal
/// initiative keep their order.
pub open spec fn sort_by_initiative(ships: Seq<Ship>) -> Seq<Ship>
    decreases ships.len(),
{
    if ships.len() == 0 {
        ships
    } else {
        let rest = sort_by_initiative(ships.drop_last());
        rest.insert(insert_pos(rest, ships.last().initiative as int), ships.last())
    }
}

/// Highest initiative first.
pub open spec fn sorted_by_initiative(ships: Seq<Ship>) -> bool {
    forall|i: int, j: int|
        0 <= i < j < ships.len() ==> #[trigger] ships[i].initiative >= #[trigger] ships[j].initiative
}

proof fn lemma_insert_pos(q: Seq<Ship>, x: int)
    requires
        sorted_by_initiative(q),
    ensures
        0 <= insert_pos(q, x) <= q.len(),
        forall|i: int| 0 <= i < insert_pos(q, x) ==> #[trigger] q[i].initiative >= x,
        forall|i: int| insert_pos(q, x) <= i < q.len() ==> #[trigger] q[i].initiative < x,
    decreases q.len(),
{
    if q.len() > 0 {
        if q.last().initiative < x {
            let r = q.drop_last();
            assert(sorted_by_initiative(r)) by {
                assert forall|i: int, j: int| 0 <= i < j < r.len() implies #[trigger] r[i].initiative
                    >= #[trigger] r[j].initiative by {
                    assert(q[i].initiative >= q[j].initiative);
                }
            }
            lemma_insert_pos(r, x);
            assert forall|i: int| insert_pos(q, x) <= i < q.len() implies #[trigger] q[i].initiative
                < x by {
                if i < q.len() - 1 {
                    assert(r[i] == q[i]);
                }
            }
            assert forall|i: int| 0 <= i < insert_pos(q, x) implies #[trigger] q[i].initiative >= x by {
                assert(r[i] == q[i]);
            }
        } else {
            assert forall|i: int| 0 <= i < insert_pos(q, x) implies #[trigger] q[i].initiative >= x by {
                if i < q.len() - 1 {
                    assert(q[i].initiative >= q[q.len() - 1].initiative);
                }
            }
        }
    }
}

/// The fleet order holds the same ships, highest initiative first.
pub proof fn lemma_sort_by_initiative(ships: Seq<Ship>)
    ensures
        sorted_by_initiative(sort_by_initiative(ships)),
        sort_by_initiative(ships).to_multiset() == ships.to_multiset(),
    decreases ships.len(),
{
    if ships.len() > 0 {
        let pre = ships.drop_last();
        let s = ships.last();
        let rest = sort_by_initiative(pre);
        lemma_sort_by_initiative(pre);
        let x = s.initiative as int;
        let p = insert_pos(rest, x);
        lemma_insert_pos(rest, x);
        let out = rest.insert(p, s);
        vstd::seq_lib::to_multiset_insert(rest, p, s);
        vstd::seq_lib::to_multiset_build(pre, s);
        assert(pre.push(s) =~= ships);
        assert forall|i: int, j: int| 0 <= i < j < out.len() implies #[trigger] out[i].initiative
            >= #[trigger] out[j].initiative by {
            if j < p {
                assert(rest[i].initiative >= rest[j].initiative);
            } else if j == p {
                assert(rest[i].initiative >= x);
            } else if i < p {
                assert(rest[i].initiative >= rest[j - 1].initiative);
            } else if i == p {
                assert(rest[j - 1].initiative < x);
            } else {
                assert(rest[i - 1].initiative >= rest[j - 1].initiative);
            }
        }
    }
}

pub open spec fn has_alive(ships: Seq<Ship>) -> bool {
    exists|i: int| 0 <= i < ships.len() && ships[i].is_alive()
}

pub open spec fn count_alive(ships: Seq<Ship>) -> nat
    decreases ships.len(),
{
    if ships.len() == 0 {
        0
    } else {
        count_alive(ships.drop_last()) + if ships.last().is_alive() {
            1nat
        } else {
            0nat
        }
    }
}

/// The indices, in fleet order, of the living ships among the first `n`
/// whose initiative is at most `max_init`.
pub open spec fn order_upto(ships: Seq<Ship>, max_init: int, n: int) -> Seq<int>
    decreases n,
{
    if n <= 0 {
        Seq::empty()
    } else {
        let rest = order_upto(ships, max_init, n - 1);
        if ships[n - 1].is_alive() && ships[n - 1].initiative <= max_init {
            rest.push(n - 1)
        } else {
            rest
        }
    }
}

/// The attack order: indices of the living ships whose initiative is at
/// most `max_init`, in fleet order.
pub open spec fn attack_order(ships: Seq<Ship>, max_init: int) -> Seq<int> {
    order_upto(ships, max_init, ships.len() as int)
}

/// A position in a fleet together with the initiative of the ship there.
#[derive(Clone, Copy, Debug)]
pub struct InitiativeIndex {
    pub index: usize,
    pub initiative: i32,
}

/// `r` lists the ships of `order`, with their initiatives.
pub open spec fn lists_order(r: Seq<InitiativeIndex>, ships: Seq<Ship>, order: Seq<int>) -> bool {
    r.len() == order.len() && forall|k: int|
        0 <= k < r.len() ==> (#[trigger] r[k]).index == order[k] && r[k].initiative
            == ships[order[k]].initiative
}

/// A fleet as its host hands it over: the ships in any order.
pub struct WasmFleet {
    ships: Vec<Ship>,
}

impl WasmFleet {
    pub closed spec fn view(&self) -> Seq<Ship> {
        self.ships@
    }

    pub fn new(ships: Vec<Ship>) -> (r: WasmFleet)
        ensures
            r.view() == ships@,
    {
        WasmFleet { ships }
    }

    pub fn ships(&self) -> (r: &Vec<Ship>)
        ensures
            r@ == self.view(),
    {
        &self.ships
    }

    pub fn into_fleet(self) -> (r: Fleet)
        ensures
            r@ == sort_by_initiative(self.view()),
    {
        Fleet::new(self.ships)
    }
}

/// An ordered roster of ships, sorted by initiative at construction.
/// Destroyed ships stay in place with `hull == -1`.
pub struct Fleet {
    ships: Vec<Ship>,
}

impl View for Fleet {
    type V = Seq<Ship>;

    closed spec fn view(&self) -> Seq<Ship> {
        self.ships@
    }
}

impl Fleet {
    pub fn new(ships: Vec<Ship>) -> (r: Fleet)
        ensures
            r@ == sort_by_initiative(ships@),
            sorted_by_initiative(r@),
            r@.to_multiset() == ships@.to_multiset(),
    {
        proof {
            lemma_sort_by_initiative(ships@);
        }
        let mut sorted: Vec<Ship> = Vec::new();
        let mut i: usize = 0;
        while i < ships.len()
            invariant
                i <= ships@.len(),
                sorted@ == sort_by_initiative(ships@.take(i as int)),
            decreases ships@.len() - i,
        {
            let ship = ships[i];
            let init = ship.initiative;
            let mut p: usize = sorted.len();
            assert(sorted@.take(p as int) =~= sorted@);
            while p > 0 && sorted[p - 1].initiative < init
                invariant
                    p <= sorted@.len(),
                    insert_pos(sorted@.take(p as int), init as int) == insert_pos(
                        sorted@,
                        init as int,
                    ),
                decreases p,
            {
                proof {
                    assert(sorted@.take(p as int).drop_last() =~= sorted@.take(p - 1));
                }
                p -= 1;
            }
            proof {
                if p > 0 {
                    assert(sorted@.take(p as int).last() == sorted@[p - 1]);
                }
                assert(ships@.take(i + 1).drop_last() =~= ships@.take(i as int));
            }
            sorted.insert(p, ship);
            i += 1;
        }
        proof {
            assert(ships@.take(ships@.len() as int) =~= ships@);
        }
        Fleet { ships: sorted }
    }

    pub fn clone(&self) -> (r: Fleet)
        ensures
            r@ == self@,
    {
        let mut ships: Vec<Ship> = Vec::new();
        let mut i: usize = 0;
        while i < self.ships.len()
            invariant
                i <= self.ships@.len(),
                ships@ == self.ships@.take(i as int),
            decreases self.ships@.len() - i,
        {
            ships.push(self.ships[i]);
            proof {
                assert(ships@ =~= self.ships@.take(i + 1));
            }
            i += 1;
        }
        proof {
            assert(self.ships@.take(self.ships@.len() as int) =~= self.ships@);
        }
        Fleet { ships }
    }

    pub fn has_ships_left(&self) -> (r: bool)
        ensures
            r == has_alive(self@),
    {
        let mut i: usize = 0;
        while i < self.ships.len()
            invariant
                i <= self.ships@.len(),
                forall|x: int| 0 <= x < i ==> !(#[trigger] self.ships@[x]).is_alive(),
            decreases self.ships@.len() - i,
        {
            if self.ships[i].hull >= 0 {
                assert(self.ships@[i as int].is_alive());
                return true;
            }
            i += 1;
        }
        false
    }

    pub fn num_ships(&self) -> (r: usize)
        ensures
            r == count_alive(self@),
    {
        let mut n: usize = 0;
        let mut i: usize = 0;
        while i < self.ships.len()
            invariant
                i <= self.ships@.len(),
                n == count_alive(self.ships@.take(i as int)),
                n <= i,
            decreases self.ships@.len() - i,
        {
            proof {
                assert(self.ships@.take(i + 1).drop_last() =~= self.ships@.take(i as int));
            }
            if self.ships[i].hull >= 0 {
                n += 1;
            }
            i += 1;
        }
        proof {
            assert(self.ships@.take(self.ships@.len() as int) =~= self.ships@);
        }
        n
    }

    /// The living ships whose initiative is at most `max_init`, in fleet
    /// order, as (index, initiative).
    pub fn get_attack_order_max_init(&self, max_init: i32) -> (r: Vec<InitiativeIndex>)
        ensures
            lists_order(r@, self@, attack_order(self@, max_init as int)),
    {
        let mut r: Vec<InitiativeIndex> = Vec::new();
        let mut i: usize = 0;
        while i < self.ships.len()
            invariant
                i <= self.ships@.len(),
                lists_order(r@, self.ships@, order_upto(self.ships@, max_init as int, i as int)),
            decreases self.ships@.len() - i,
        {
            let ship = self.ships[i];
            if ship.hull >= 0 && ship.initiative <= max_init {
                r.push(InitiativeIndex { index: i, initiative: ship.initiative });
            }
            proof {
                let o = order_upto(self.ships@, max_init as int, i + 1);
                assert forall|k: int| 0 <= k < r@.len() implies (#[trigger] r@[k]).index == o[k]
                    && r@[k].initiative == self.ships@[o[k]].initiative by {}
            }
            i += 1;
        }
        r
    }

    /// The living ships in fleet order, as (index, initiative).
    pub fn get_attack_order(&self) -> (r: Vec<InitiativeIndex>)
        ensures
            lists_order(r@, self@, attack_order(self@, i32::MAX as int)),
    {
        self.get_attack_order_max_init(i32::MAX)
    }

    pub fn len(&self) -> (r: usize)
        ensures
            r == self@.len(),
    {
        self.ships.len()
    }

    pub fn ship(&self, i: usize) -> (r: Ship)
        requires
            i < self@.len(),
        ensures
            r == self@[i as int],
    {
        self.ships[i]
    }

    /// Sets the hull of the ship at `i`.
    pub(crate) fn set_hull(&mut self, i: usize, hull: i32)
        requires
            i < old(self)@.len(),
        ensures
            final(self)@ == old(self)@.update(i as int, old(self)@[i as int].with_hull(hull as int)),
    {
        let ship = self.ships[i];
        self.ships.set(i, Ship { hull, ..ship });
    }
}

} // verus!
