//! The Euclidean rhythm as mathematics: the bucket schedule, the slots
//! that it produces, and the rotations that normalise them.

use crate::error::{Error, EuclideanError, ParsingError};
use crate::model::{repeat, Tree};
use crate::utils::spec_lcm_seq;
use vstd::prelude::*;

verus! {

/// The greatest number of `s`; 0 for none.
pub open spec fn greatest_of(s: Seq<nat>) -> nat
    decreases s.len(),
{
    if s.len() == 0 {
        0
    } else {
        let before = greatest_of(s.drop_last());
        if s.last() >= before {
            s.last()
        } else {
            before
        }
    }
}

/// One parameter of a Euclidean rhythm: a number, or a cycle of numbers
/// of which each turn takes the next.
pub enum Param {
    One(nat),
    Many(Seq<nat>),
}

impl Param {
    /// The numbers of the cycle; one number for a `One`.
    pub open spec fn values(self) -> Seq<nat> {
        match self {
            Param::One(x) => seq![x],
            Param::Many(xs) => xs,
        }
    }

    /// How many turns the cycle has.
    pub open spec fn arity(self) -> nat {
        self.values().len()
    }

    /// The cycle is not empty and its length fits in 32 bits.
    pub open spec fn valid(self) -> bool {
        0 < self.arity() <= u32::MAX
    }

    /// The number of turn `i`.
    pub open spec fn at(self, i: nat) -> nat {
        if self.arity() > 0 {
            self.values()[(i % self.arity()) as int]
        } else {
            0
        }
    }

    /// The greatest number of the cycle.
    pub open spec fn greatest(self) -> nat {
        greatest_of(self.values())
    }
}

/// The rotation that is meant where none is written: none.
pub open spec fn rotation_or_none(r: Option<Param>) -> Param {
    match r {
        Some(p) => p,
        None => Param::One(0),
    }
}

/// Why a Euclidean construct with these parameters is refused, if it is:
/// a cycle without numbers, more pulses than steps at their greatest, or
/// a greatest rotation that is not below the greatest number of steps.
pub open spec fn refusal(n: Param, m: Param, r: Param) -> Option<Error> {
    if n.arity() == 0 || m.arity() == 0 {
        Some(Error::UnexpectedError)
    } else if n.greatest() > m.greatest() {
        Some(Error::DSLParsingError(ParsingError::EuclideanError(EuclideanError::NGreaterThanM)))
    } else if r.arity() == 0 {
        Some(Error::UnexpectedError)
    } else if r.greatest() >= m.greatest() {
        Some(Error::DSLParsingError(ParsingError::EuclideanError(EuclideanError::RGreaterEqualThanM)))
    } else {
        None
    }
}

/// After how many turns all three cycles start again together.
pub open spec fn turns(n: Param, m: Param, r: Param) -> nat {
    spec_lcm_seq(seq![n.arity(), m.arity(), r.arity()])
}

/// The rhythm is defined on every turn of a cycle that fits in 32 bits.
pub open spec fn sound(onset: Tree, n: Param, m: Param, r: Param) -> bool {
    &&& n.valid() && m.valid() && r.valid()
    &&& turns(n, m, r) <= u32::MAX
    &&& forall|i: nat| i < turns(n, m, r) ==> #[trigger] feasible(onset, n.at(i), m.at(i), r.at(i))
}

/// The rhythm of each turn of the cycle, as a group of slots.
pub open spec fn options(onset: Tree, n: Param, m: Param, r: Param) -> Seq<Tree> {
    Seq::new(turns(n, m, r), |i: int| Tree::Node(slots(onset, n.at(i as nat), m.at(i as nat), r.at(i as nat))))
}

/// The two lists of the bucket schedule: how often each level repeats the
/// level below it, and what is left over at each level.
pub struct Schedule {
    pub counts: Seq<nat>,
    pub remainders: Seq<nat>,
}

/// The rest of the schedule, from the lists so far and the next divisor.
/// Each round divides the divisor by the last remainder, notes quotient
/// and remainder, and goes on with the old remainder as divisor until the
/// new remainder is at most 1; the last divisor then closes the counts.
pub open spec fn schedule_from(counts: Seq<nat>, remainders: Seq<nat>, divisor: nat) -> Schedule
    decreases
        if remainders.len() > 0 {
            remainders.last()
        } else {
            0
        },
{
    if remainders.len() == 0 || remainders.last() == 0 {
        Schedule { counts, remainders }
    } else {
        let by = remainders.last();
        let counts_next = counts.push(divisor / by);
        let remainders_next = remainders.push(divisor % by);
        if divisor % by <= 1 {
            Schedule { counts: counts_next.push(by), remainders: remainders_next }
        } else {
            schedule_from(counts_next, remainders_next, by)
        }
    }
}

/// The schedule for `pulses` onsets among `steps` slots.
pub open spec fn schedule(pulses: nat, steps: nat) -> Schedule {
    schedule_from(Seq::empty(), seq![pulses], (steps - pulses) as nat)
}

/// The slots that level `level` of a schedule lays down. Level -1 is one
/// rest and level -2 one onset; any other level repeats the level below
/// it as often as its count says and, where its remainder is not 0, adds
/// the level two below once.
pub open spec fn build(level: int, counts: Seq<nat>, remainders: Seq<nat>, onset: Tree) -> Seq<Tree>
    decreases level + 2,
{
    if level == -1 {
        seq![Tree::rest()]
    } else if level == -2 {
        seq![onset]
    } else if level < 0 || level >= counts.len() || level >= remainders.len() {
        Seq::empty()
    } else {
        let body = repeat(build(level - 1, counts, remainders, onset), counts[level]);
        if remainders[level] != 0 {
            body + build(level - 2, counts, remainders, onset)
        } else {
            body
        }
    }
}

/// `s` turned left by `k` places: what stood at `k` comes first.
pub open spec fn rotate_left<A>(s: Seq<A>, k: int) -> Seq<A> {
    s.subrange(k, s.len() as int) + s.subrange(0, k)
}

/// `s` turned right by `k` places: what came first stands at `k`.
pub open spec fn rotate_right<A>(s: Seq<A>, k: int) -> Seq<A> {
    rotate_left(s, s.len() - k)
}

/// The place of the first slot of `s` that is not a rest; the length of
/// `s` where there is none.
pub open spec fn first_onset(s: Seq<Tree>) -> int
    decreases s.len(),
{
    if s.len() == 0 {
        0
    } else if s[0] != Tree::rest() {
        0
    } else {
        1 + first_onset(s.drop_first())
    }
}

/// The slots of the schedule for `pulses` among `steps`, before any
/// rotation.
pub open spec fn raw_slots(onset: Tree, pulses: nat, steps: nat) -> Seq<Tree> {
    let s = schedule(pulses, steps);
    build(s.counts.len() - 1, s.counts, s.remainders, onset)
}

/// The Euclidean rhythm of `pulses` onsets among `steps` slots, turned by
/// `rotation`: the raw slots turned left until an onset comes first,
/// turned right by 2 where exactly one slot is a rest, and turned right by
/// `rotation`.
pub open spec fn slots(onset: Tree, pulses: nat, steps: nat, rotation: nat) -> Seq<Tree> {
    let raw = raw_slots(onset, pulses, steps);
    let normal = rotate_left(raw, first_onset(raw));
    let fixed = if steps - pulses == 1 {
        rotate_right(normal, 2)
    } else {
        normal
    };
    rotate_right(fixed, rotation as int)
}

/// The inputs for which the rhythm is defined: at least one pulse, no more
/// pulses than steps, a rotation of at most a full turn, and an onset
/// that is not itself the rest.
pub open spec fn feasible(onset: Tree, pulses: nat, steps: nat, rotation: nat) -> bool {
    &&& 1 <= pulses <= steps
    &&& rotation <= steps
    &&& onset != Tree::rest()
}

/// `n` copies of a sequence are `n` times as long.
pub proof fn lemma_repeat_len<A>(s: Seq<A>, n: nat)
    ensures
        repeat(s, n).len() == n * s.len(),
    decreases n,
{
    if n > 0 {
        lemma_repeat_len(s, (n - 1) as nat);
        assert(n * s.len() == (n - 1) * s.len() + s.len()) by (nonlinear_arith);
    } else {
        assert(0 * s.len() == 0) by (nonlinear_arith);
    }
}

/// How often `x` stands among the slots `s`.
pub open spec fn occurrences(s: Seq<Tree>, x: Tree) -> nat
    decreases s.len(),
{
    if s.len() == 0 {
        0
    } else {
        occurrences(s.drop_last(), x) + if s.last() == x {
            1nat
        } else {
            0nat
        }
    }
}

/// What a level amounts to where each rest counts `rest` and each onset
/// counts `onset`: the count of the level times what the level below it
/// amounts to and, where its remainder is not 0, what the level two
/// below amounts to.
pub open spec fn tally(level: int, counts: Seq<nat>, remainders: Seq<nat>, rest: nat, onset: nat) -> nat
    decreases level + 2,
{
    if level == -1 {
        rest
    } else if level == -2 {
        onset
    } else if level < 0 || level >= counts.len() || level >= remainders.len() {
        0
    } else {
        counts[level] * tally(level - 1, counts, remainders, rest, onset) + if remainders[level] != 0 {
            tally(level - 2, counts, remainders, rest, onset)
        } else {
            0
        }
    }
}

/// Slots one after the other hold `x` as often as both together.
pub proof fn lemma_occurrences_add(a: Seq<Tree>, b: Seq<Tree>, x: Tree)
    ensures
        occurrences(a + b, x) == occurrences(a, x) + occurrences(b, x),
    decreases b.len(),
{
    if b.len() == 0 {
        assert(a + b =~= a);
    } else {
        lemma_occurrences_add(a, b.drop_last(), x);
        assert((a + b).drop_last() =~= a + b.drop_last());
    }
}

/// `n` copies of some slots hold `x` `n` times as often.
pub proof fn lemma_occurrences_repeat(s: Seq<Tree>, n: nat, x: Tree)
    ensures
        occurrences(repeat(s, n), x) == n * occurrences(s, x),
    decreases n,
{
    if n > 0 {
        lemma_occurrences_repeat(s, (n - 1) as nat, x);
        lemma_occurrences_add(repeat(s, (n - 1) as nat), s, x);
        assert(n * occurrences(s, x) == (n - 1) * occurrences(s, x) + occurrences(s, x))
            by (nonlinear_arith);
    } else {
        assert(0 * occurrences(s, x) == 0) by (nonlinear_arith);
    }
}

/// Turning slots does not change how often they hold `x`.
pub proof fn lemma_occurrences_rotate(s: Seq<Tree>, k: int, x: Tree)
    requires
        0 <= k <= s.len(),
    ensures
        occurrences(rotate_left(s, k), x) == occurrences(s, x),
{
    let front = s.subrange(0, k);
    let back = s.subrange(k, s.len() as int);
    lemma_occurrences_add(front, back, x);
    lemma_occurrences_add(back, front, x);
    assert(front + back =~= s);
}

/// A level reads the two lists only up to its own place.
pub proof fn lemma_tally_prefix(
    level: int,
    counts: Seq<nat>,
    remainders: Seq<nat>,
    more_counts: Seq<nat>,
    more_remainders: Seq<nat>,
    rest: nat,
    onset: nat,
)
    requires
        -2 <= level < counts.len(),
        level < remainders.len(),
        counts.len() <= more_counts.len(),
        remainders.len() <= more_remainders.len(),
        forall|k: int| 0 <= k <= level ==> counts[k] == more_counts[k],
        forall|k: int| 0 <= k <= level ==> remainders[k] == more_remainders[k],
    ensures
        tally(level, more_counts, more_remainders, rest, onset) == tally(level, counts, remainders, rest, onset),
    decreases level + 2,
{
    if level >= 0 {
        lemma_tally_prefix(level - 1, counts, remainders, more_counts, more_remainders, rest, onset);
        lemma_tally_prefix(level - 2, counts, remainders, more_counts, more_remainders, rest, onset);
        assert(counts[level] == more_counts[level]);
        assert(remainders[level] == more_remainders[level]);
    }
}

/// A level has as many slots as it amounts to where every slot counts 1,
/// and holds `x` as often as it amounts to where only the slots that are
/// `x` count.
pub proof fn lemma_build_tally(level: int, counts: Seq<nat>, remainders: Seq<nat>, onset: Tree, x: Tree)
    requires
        -2 <= level,
    ensures
        build(level, counts, remainders, onset).len() == tally(level, counts, remainders, 1, 1),
        occurrences(build(level, counts, remainders, onset), x) == tally(
            level,
            counts,
            remainders,
            if Tree::rest() == x {
                1
            } else {
                0
            },
            if onset == x {
                1
            } else {
                0
            },
        ),
    decreases level + 2,
{
    if level == -1 {
        assert(seq![Tree::rest()].drop_last() =~= Seq::<Tree>::empty());
    } else if level == -2 {
        assert(seq![onset].drop_last() =~= Seq::<Tree>::empty());
    } else if level >= 0 && level < counts.len() && level < remainders.len() {
        lemma_build_tally(level - 1, counts, remainders, onset, x);
        lemma_build_tally(level - 2, counts, remainders, onset, x);
        let below = build(level - 1, counts, remainders, onset);
        lemma_repeat_len(below, counts[level]);
        lemma_occurrences_repeat(below, counts[level], x);
        lemma_occurrences_add(repeat(below, counts[level]), build(level - 2, counts, remainders, onset), x);
    }
}

/// What holds of the two lists while the schedule is worked out: what
/// the levels so far amount to, weighed by what is still to be divided,
/// makes up `total`.
pub open spec fn balanced(
    counts: Seq<nat>,
    remainders: Seq<nat>,
    divisor: nat,
    total: nat,
    rest: nat,
    onset: nat,
) -> bool {
    &&& remainders.len() == counts.len() + 1
    &&& forall|k: int| 0 <= k < remainders.len() ==> #[trigger] remainders[k] > 0
    &&& divisor * tally(counts.len() - 1, counts, remainders, rest, onset) + remainders.last() * tally(
        counts.len() - 2,
        counts,
        remainders,
        rest,
        onset,
    ) == total
}

/// The top level of a balanced schedule amounts to `total`.
pub proof fn lemma_schedule_tally(
    counts: Seq<nat>,
    remainders: Seq<nat>,
    divisor: nat,
    total: nat,
    rest: nat,
    onset: nat,
)
    requires
        balanced(counts, remainders, divisor, total, rest, onset),
    ensures
        ({
            let s = schedule_from(counts, remainders, divisor);
            &&& s.counts.len() >= 2
            &&& s.remainders.len() == s.counts.len()
            &&& tally(s.counts.len() - 1, s.counts, s.remainders, rest, onset) == total
        }),
    decreases remainders.last(),
{
    let level = counts.len() as int;
    let by = remainders.last();
    assert(remainders[level] > 0);
    let c2 = counts.push(divisor / by);
    let r2 = remainders.push(divisor % by);
    let below = tally(level - 1, counts, remainders, rest, onset);
    let below2 = tally(level - 2, counts, remainders, rest, onset);
    lemma_tally_prefix(level - 1, counts, remainders, c2, r2, rest, onset);
    lemma_tally_prefix(level - 2, counts, remainders, c2, r2, rest, onset);
    assert(tally(level - 1, c2, r2, rest, onset) == below);
    assert(tally(level - 2, c2, r2, rest, onset) == below2);
    let here = tally(level, c2, r2, rest, onset);
    assert(r2[level] == by);
    assert(here == (divisor / by) * below + below2);
    vstd::arithmetic::div_mod::lemma_fundamental_div_mod(divisor as int, by as int);
    let q = (divisor / by) as int;
    let rm = (divisor % by) as int;
    assert(by * here + rm * below == total) by (nonlinear_arith)
        requires
            here == q * below + below2,
            divisor == by * q + rm,
            divisor * below + by * below2 == total,
    ;
    if divisor % by <= 1 {
        let c3 = c2.push(by);
        lemma_tally_prefix(level, c2, r2, c3, r2, rest, onset);
        lemma_tally_prefix(level - 1, c2, r2, c3, r2, rest, onset);
        assert(tally(level, c3, r2, rest, onset) == here);
        assert(tally(level - 1, c3, r2, rest, onset) == below);
        let top = tally(level + 1, c3, r2, rest, onset);
        if divisor % by == 0 {
            assert(top == by * here);
            assert(rm * below == 0) by (nonlinear_arith)
                requires
                    rm == 0,
            ;
        } else {
            assert(top == by * here + below);
            assert(rm * below == below) by (nonlinear_arith)
                requires
                    rm == 1,
            ;
        }
    } else {
        assert forall|k: int| 0 <= k < r2.len() implies #[trigger] r2[k] > 0 by {
            if k < remainders.len() {
                assert(r2[k] == remainders[k]);
            }
        }
        assert(balanced(c2, r2, by, total, rest, onset));
        lemma_schedule_tally(c2, r2, by, total, rest, onset);
    }
}

/// The raw slots of `pulses` among `steps` amount to `steps - pulses`
/// rests and `pulses` onsets, however rests and onsets are counted.
pub proof fn lemma_raw_slots_tally(pulses: nat, steps: nat, rest: nat, onset: nat)
    requires
        1 <= pulses <= steps,
    ensures
        ({
            let s = schedule(pulses, steps);
            tally(s.counts.len() - 1, s.counts, s.remainders, rest, onset) == (steps - pulses) * rest + pulses
                * onset
        }),
{
    let counts = Seq::<nat>::empty();
    let remainders = seq![pulses];
    let divisor = (steps - pulses) as nat;
    assert(tally(-1, counts, remainders, rest, onset) == rest);
    assert(tally(-2, counts, remainders, rest, onset) == onset);
    assert((steps - pulses) * rest + pulses * onset >= 0) by (nonlinear_arith)
        requires
            steps >= pulses,
            rest >= 0,
            pulses >= 0,
            onset >= 0,
    ;
    let total = ((steps - pulses) * rest + pulses * onset) as nat;
    assert(balanced(counts, remainders, divisor, total, rest, onset));
    lemma_schedule_tally(counts, remainders, divisor, total, rest, onset);
}

/// The rhythm of `pulses` among `steps` has `steps` slots before it is
/// turned.
pub proof fn lemma_raw_slots_len(onset: Tree, pulses: nat, steps: nat)
    requires
        1 <= pulses <= steps,
    ensures
        raw_slots(onset, pulses, steps).len() == steps,
{
    lemma_raw_slots_tally(pulses, steps, 1, 1);
    let s = schedule(pulses, steps);
    lemma_build_tally(s.counts.len() - 1, s.counts, s.remainders, onset, onset);
    assert((steps - pulses) * 1 + pulses * 1 == steps) by (nonlinear_arith)
        requires
            steps >= pulses,
    ;
}

/// A Euclidean rhythm has as many slots as it has steps.
pub proof fn lemma_slots_len(onset: Tree, pulses: nat, steps: nat, rotation: nat)
    requires
        feasible(onset, pulses, steps, rotation),
    ensures
        slots(onset, pulses, steps, rotation).len() == steps,
{
    lemma_raw_slots_len(onset, pulses, steps);
    let raw = raw_slots(onset, pulses, steps);
    lemma_first_onset_bound(raw);
}

/// Of the slots of a Euclidean rhythm exactly `pulses` are the onset, and
/// the other `steps - pulses` are rests.
pub proof fn lemma_slots_onsets(onset: Tree, pulses: nat, steps: nat, rotation: nat)
    requires
        feasible(onset, pulses, steps, rotation),
    ensures
        occurrences(slots(onset, pulses, steps, rotation), onset) == pulses,
        occurrences(slots(onset, pulses, steps, rotation), Tree::rest()) == steps - pulses,
{
    let s = schedule(pulses, steps);
    let raw = raw_slots(onset, pulses, steps);
    lemma_raw_slots_len(onset, pulses, steps);
    lemma_raw_slots_tally(pulses, steps, 0, 1);
    lemma_raw_slots_tally(pulses, steps, 1, 0);
    lemma_build_tally(s.counts.len() - 1, s.counts, s.remainders, onset, onset);
    lemma_build_tally(s.counts.len() - 1, s.counts, s.remainders, onset, Tree::rest());
    assert((steps - pulses) * 0 + pulses * 1 == pulses) by (nonlinear_arith);
    assert((steps - pulses) * 1 + pulses * 0 == steps - pulses) by (nonlinear_arith);
    lemma_first_onset_bound(raw);
    let normal = rotate_left(raw, first_onset(raw));
    lemma_occurrences_rotate(raw, first_onset(raw), onset);
    lemma_occurrences_rotate(raw, first_onset(raw), Tree::rest());
    let fixed = if steps - pulses == 1 {
        rotate_right(normal, 2)
    } else {
        normal
    };
    if steps - pulses == 1 {
        lemma_occurrences_rotate(normal, normal.len() - 2, onset);
        lemma_occurrences_rotate(normal, normal.len() - 2, Tree::rest());
    }
    lemma_occurrences_rotate(fixed, fixed.len() - rotation, onset);
    lemma_occurrences_rotate(fixed, fixed.len() - rotation, Tree::rest());
}

/// The first onset lies within the sequence, or just behind it.
pub proof fn lemma_first_onset_bound(s: Seq<Tree>)
    ensures
        0 <= first_onset(s) <= s.len(),
        first_onset(s) < s.len() ==> s[first_onset(s)] != Tree::rest(),
        forall|k: int| 0 <= k < first_onset(s) ==> s[k] == Tree::rest(),
    decreases s.len(),
{
    if s.len() > 0 && s[0] == Tree::rest() {
        let t = s.drop_first();
        lemma_first_onset_bound(t);
        assert forall|k: int| 0 <= k < first_onset(s) implies s[k] == Tree::rest() by {
            if k > 0 {
                assert(s[k] == t[k - 1]);
            }
        }
    }
}

} // verus!
