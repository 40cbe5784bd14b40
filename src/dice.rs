use vstd::prelude::*;
use rand::Rng;
use rand::SeedableRng;
use rand::rngs::StdRng;
use rand_chacha::ChaCha8Rng;

verus! {

/// Enhanced roll of a natural six: it hits whatever the target's shield.
pub const CRITICAL_HIT: i64 = 1_000_000_000_000;

/// Enhanced roll of a natural one: it misses whatever the computer bonus.
pub const CRITICAL_MISS: i64 = -1_000_000_000_000;

/// A natural result of a six-sided die.
pub open spec fn is_die_value(n: int) -> bool {
    1 <= n <= 6
}

pub open spec fn all_die_values(dice: Seq<int>) -> bool {
    forall|k: int| 0 <= k < dice.len() ==> is_die_value(#[trigger] dice[k])
}

/// The enhanced roll of a natural die result: sixes and ones are forced to
/// sentinels, anything else gets the ship's computer bonus.
pub open spec fn enhanced_roll(natural: int, computer: int) -> int {
    if natural == 6 {
        CRITICAL_HIT as int
    } else if natural == 1 {
        CRITICAL_MISS as int
    } else {
        natural + computer
    }
}

/// A roll hits a target iff it reaches the target's shield plus six.
pub open spec fn hits(enhanced: int, shield: int) -> bool {
    enhanced >= shield + 6
}

/// A source of six-sided die results that keeps, as a model, every result
/// it has handed out.
pub trait DieRoller {
    /// The results handed out so far, oldest first.
    spec fn drawn(&self) -> Seq<int>;

    fn roll_die(&mut self) -> (r: i32)
        ensures
            is_die_value(r as int),
            final(self).drawn() == old(self).drawn().push(r as int),
    ;
}

/// rand's standard generator, carried through as an opaque value.
#[verifier::external_type_specification]
#[verifier::external_body]
pub struct ExStdRng(StdRng);

/// rand_chacha's ChaCha8 generator, carried through as an opaque value.
#[verifier::external_type_specification]
#[verifier::external_body]
pub struct ExChaCha8Rng(ChaCha8Rng);

/// Relies on rand's `Rng::gen_range(1..=6)`: a value of the inclusive range.
#[verifier::external_body]
fn std_die(rng: &mut StdRng) -> (r: i32)
    ensures
        is_die_value(r as int),
{
    rng.gen_range(1i32..=6)
}

/// Relies on rand's `Rng::gen_range(1..=6)`: a value of the inclusive range.
#[verifier::external_body]
fn chacha_die(rng: &mut ChaCha8Rng) -> (r: i32)
    ensures
        is_die_value(r as int),
{
    rng.gen_range(1i32..=6)
}

/// Relies on rand_core's `SeedableRng::seed_from_u64` to build a ChaCha8 generator.
#[verifier::external_body]
fn chacha_from_seed(seed: u64) -> (r: ChaCha8Rng) {
    ChaCha8Rng::seed_from_u64(seed)
}

/// A seeded random number generator that battles draw their dice from.
pub struct RngState {
    rng_state: ChaCha8Rng,
    history: Ghost<Seq<int>>,
}

impl RngState {
    pub fn new(seed: u64) -> (r: RngState)
        ensures
            r.drawn() == Seq::<int>::empty(),
    {
        RngState { rng_state: chacha_from_seed(seed), history: Ghost(Seq::empty()) }
    }
}

impl DieRoller for RngState {
    closed spec fn drawn(&self) -> Seq<int> {
        self.history@
    }

    fn roll_die(&mut self) -> (r: i32) {
        let r = chacha_die(&mut self.rng_state);
        self.history = Ghost(self.history@.push(r as int));
        r
    }
}

/// rand's standard generator as a source of dice.
pub struct StdRngState {
    rng: StdRng,
    history: Ghost<Seq<int>>,
}

impl StdRngState {
    pub fn new(rng: StdRng) -> (r: StdRngState)
        ensures
            r.drawn() == Seq::<int>::empty(),
    {
        StdRngState { rng, history: Ghost(Seq::empty()) }
    }
}

impl DieRoller for StdRngState {
    closed spec fn drawn(&self) -> Seq<int> {
        self.history@
    }

    fn roll_die(&mut self) -> (r: i32) {
        let r = std_die(&mut self.rng);
        self.history = Ghost(self.history@.push(r as int));
        r
    }
}

/// How many results a die source has handed out, and which.
struct Tally {
    made: usize,
    history: Ghost<Seq<int>>,
}

impl Tally {
    /// `made` counts the results, saturating at `usize::MAX`.
    #[verifier::type_invariant]
    spec fn inv(&self) -> bool {
        self.made == if self.history@.len() < usize::MAX {
            self.history@.len()
        } else {
            usize::MAX as nat
        }
    }

    fn record(&self, r: i32) -> (t: Tally)
        ensures
            t.history@ == self.history@.push(r as int),
    {
        proof {
            use_type_invariant(self);
        }
        let made = if self.made < usize::MAX {
            self.made + 1
        } else {
            self.made
        };
        Tally { made, history: Ghost(self.history@.push(r as int)) }
    }
}

/// A die source that replays a fixed list of results, round and round.
pub struct ReplayDice {
    values: Vec<i32>,
    next: usize,
    tally: Tally,
}

impl ReplayDice {
    #[verifier::type_invariant]
    spec fn inv(&self) -> bool {
        &&& 0 < self.values@.len()
        &&& self.next < self.values@.len()
        &&& forall|k: int| 0 <= k < self.values@.len() ==> is_die_value(#[trigger] self.values@[k] as int)
    }

    /// Replays `values` from the first one on.
    pub fn new(values: Vec<i32>) -> (r: ReplayDice)
        requires
            0 < values@.len(),
            forall|k: int| 0 <= k < values@.len() ==> is_die_value(#[trigger] values@[k] as int),
        ensures
            r.drawn() == Seq::<int>::empty(),
    {
        ReplayDice { values, next: 0, tally: Tally { made: 0, history: Ghost(Seq::empty()) } }
    }

    /// Number of results handed out, saturating at `usize::MAX`.
    pub fn rolls_made(&self) -> (r: usize)
        ensures
            r == if self.drawn().len() < usize::MAX {
                self.drawn().len()
            } else {
                usize::MAX as nat
            },
    {
        proof {
            use_type_invariant(&self.tally);
        }
        self.tally.made
    }
}

impl DieRoller for ReplayDice {
    closed spec fn drawn(&self) -> Seq<int> {
        self.tally.history@
    }

    fn roll_die(&mut self) -> (r: i32) {
        proof {
            use_type_invariant(&*self);
        }
        let r = self.values[self.next];
        let last = self.values.len() - 1;
        self.next = if self.next < last {
            self.next + 1
        } else {
            0
        };
        self.tally = self.tally.record(r);
        r
    }
}

/// The enhanced roll of `natural`, for a ship with computer bonus `computer`.
pub fn enhance_roll(natural: i32, computer: i32) -> (r: i64)
    requires
        is_die_value(natural as int),
    ensures
        r == enhanced_roll(natural as int, computer as int),
{
    if natural == 6 {
        CRITICAL_HIT
    } else if natural == 1 {
        CRITICAL_MISS
    } else {
        natural as i64 + computer as i64
    }
}

/// Whether an enhanced roll hits a target with the given shield.
pub fn roll_hits(enhanced: i64, shield: i32) -> (r: bool)
    ensures
        r == hits(enhanced as int, shield as int),
{
    enhanced >= shield as i64 + 6
}

/// A natural six hits and a natural one misses, whatever the computer and
/// shield values.
pub proof fn lemma_critical_rolls(computer: i32, shield: i32)
    ensures
        hits(enhanced_roll(6, computer as int), shield as int),
        !hits(enhanced_roll(1, computer as int), shield as int),
{
}

} // verus!
