//! Euclidean rhythms: a value spread as evenly as possible over a number
//! of steps, with parameters that may themselves alternate.

use crate::error::{Error, EuclideanError, ParsingError};
use crate::model::{lemma_views_push, repeat, views, Tree};
use crate::parsed_measure::{ParsedMeasure, Single};
use crate::primitives::{Alternate, ParsedEvent, PrimitiveGroup};
use crate::rhythm;
use crate::rhythm::{greatest_of, Param};
use crate::utils::{as_nats, checked_lcm_vec};
use vstd::prelude::*;

verus! {

/// One parameter of a Euclidean rhythm: a number, or a cycle of numbers
/// of which each turn takes the next.
#[derive(Debug, PartialEq)]
pub enum EuclideanPrimitive {
    Single(u32),
    Alternate(Vec<u32>),
}

impl Clone for EuclideanPrimitive {
    fn clone(&self) -> (r: Self)
        ensures
            r@ == self@,
    {
        match self {
            EuclideanPrimitive::Single(s) => EuclideanPrimitive::Single(*s),
            EuclideanPrimitive::Alternate(a) => {
                let mut out: Vec<u32> = Vec::new();
                let mut i: usize = 0;
                while i < a.len()
                    invariant
                        i <= a.len(),
                        out@ == a@.take(i as int),
                    decreases a.len() - i,
                {
                    out.push(a[i]);
                    proof {
                        assert(a@.take(i as int + 1) =~= a@.take(i as int).push(a@[i as int]));
                    }
                    i += 1;
                }
                proof {
                    assert(a@.take(i as int) =~= a@);
                }
                EuclideanPrimitive::Alternate(out)
            },
        }
    }
}

impl View for EuclideanPrimitive {
    type V = Param;

    open spec fn view(&self) -> Param {
        match self {
            EuclideanPrimitive::Single(s) => Param::One(*s as nat),
            EuclideanPrimitive::Alternate(a) => Param::Many(as_nats(a@)),
        }
    }
}

impl EuclideanPrimitive {
    /// The number of turn `i` of the cycle.
    pub fn next(&self, i: usize) -> (r: u32)
        requires
            self@.arity() > 0,
        ensures
            r as nat == self@.at(i as nat),
    {
        match self {
            EuclideanPrimitive::Single(s) => *s,
            EuclideanPrimitive::Alternate(a) => {
                let index = i % a.len();
                a[index]
            },
        }
    }

    /// How many turns the cycle has.
    pub fn replications(&self) -> (r: u32)
        requires
            self@.arity() <= u32::MAX,
        ensures
            r as nat == self@.arity(),
    {
        match self {
            EuclideanPrimitive::Single(_) => 1,
            EuclideanPrimitive::Alternate(x) => x.len() as u32,
        }
    }

    /// The greatest number of the cycle; an empty cycle has none.
    pub fn max_value(&self) -> (r: Result<&u32, Error>)
        ensures
            match r {
                Ok(v) => self@.arity() > 0 && *v as nat == self@.greatest(),
                Err(e) => self@.arity() == 0 && e == Error::UnexpectedError,
            },
    {
        match self {
            EuclideanPrimitive::Single(s) => {
                proof {
                    assert(seq![*s as nat].drop_last() =~= Seq::<nat>::empty());
                    assert(greatest_of(seq![*s as nat].drop_last()) == 0);
                }
                Ok(s)
            },
            EuclideanPrimitive::Alternate(a) => {
                if a.len() == 0 {
                    return Err(Error::UnexpectedError);
                }
                let mut best: usize = 0;
                let mut i: usize = 1;
                let ghost all = as_nats(a@);
                proof {
                    assert(all.take(1).drop_last() =~= Seq::<nat>::empty());
                    assert(greatest_of(all.take(1).drop_last()) == 0);
                }
                while i < a.len()
                    invariant
                        1 <= i <= a.len(),
                        best < i,
                        all == as_nats(a@),
                        a@[best as int] as nat == greatest_of(all.take(i as int)),
                    decreases a.len() - i,
                {
                    proof {
                        assert(all.take(i as int + 1).drop_last() =~= all.take(i as int));
                        assert(all.take(i as int + 1).last() == a@[i as int] as nat);
                    }
                    if a[i] >= a[best] {
                        best = i;
                    }
                    i += 1;
                }
                proof {
                    assert(all.take(i as int) =~= all);
                }
                Ok(&a[best])
            },
        }
    }

    /// The number of a `Single`; a cycle has no one number.
    pub fn get_value(&self) -> (r: Result<&u32, Error>)
        ensures
            match r {
                Ok(v) => self == EuclideanPrimitive::Single(*v),
                Err(e) => self is Alternate && e == Error::UnexpectedError,
            },
    {
        match self {
            EuclideanPrimitive::Single(v) => Ok(v),
            EuclideanPrimitive::Alternate(_) => Err(Error::UnexpectedError),
        }
    }
}

/// A value to be spread as `n` pulses over `m` steps and turned by `r`.
#[derive(Debug, PartialEq)]
pub struct Euclidean {
    pub value: PrimitiveGroup,
    pub n: EuclideanPrimitive,
    pub m: EuclideanPrimitive,
    pub r: EuclideanPrimitive,
}

impl Clone for Euclidean {
    fn clone(&self) -> (res: Self)
        ensures
            res.value@ == self.value@,
            res.n@ == self.n@,
            res.m@ == self.m@,
            res.r@ == self.r@,
    {
        Euclidean { value: self.value.clone(), n: self.n.clone(), m: self.m.clone(), r: self.r.clone() }
    }
}

/// `v` turned left by `k` places.
fn rotated_left(v: &Vec<PrimitiveGroup>, k: usize) -> (r: Vec<PrimitiveGroup>)
    requires
        k <= v.len(),
    ensures
        views(r@) == rhythm::rotate_left(views(v@), k as int),
{
    let mut out: Vec<PrimitiveGroup> = Vec::new();
    let mut i: usize = k;
    while i < v.len()
        invariant
            k <= i <= v.len(),
            views(out@) == views(v@).subrange(k as int, i as int),
        decreases v.len() - i,
    {
        let ghost held = out@;
        out.push(v[i].clone());
        proof {
            lemma_views_push(held, out@.last());
            assert(views(v@).subrange(k as int, i as int + 1) =~= views(v@).subrange(k as int, i as int).push(
                views(v@)[i as int],
            ));
        }
        i += 1;
    }
    let mut j: usize = 0;
    while j < k
        invariant
            j <= k <= v.len(),
            views(out@) == views(v@).subrange(k as int, v@.len() as int) + views(v@).subrange(0, j as int),
        decreases k - j,
    {
        let ghost held = out@;
        out.push(v[j].clone());
        proof {
            lemma_views_push(held, out@.last());
            assert(views(v@).subrange(0, j as int + 1) =~= views(v@).subrange(0, j as int).push(
                views(v@)[j as int],
            ));
            assert(views(out@) =~= views(v@).subrange(k as int, v@.len() as int) + views(v@).subrange(
                0,
                j as int + 1,
            ));
        }
        j += 1;
    }
    out
}

/// Lays down the slots of one level of the schedule behind what `pattern`
/// holds.
fn build(
    value: &PrimitiveGroup,
    level: i64,
    counts: &Vec<u32>,
    remainders: &Vec<u32>,
    pattern: &mut Vec<PrimitiveGroup>,
)
    requires
        -2 <= level < counts.len(),
        level < remainders.len(),
    ensures
        views(final(pattern)@) == views(old(pattern)@) + rhythm::build(
            level as int,
            as_nats(counts@),
            as_nats(remainders@),
            value@,
        ),
    decreases level + 2,
{
    let ghost before = views(pattern@);
    let ghost cs = as_nats(counts@);
    let ghost rs = as_nats(remainders@);
    if level == -1 {
        let ghost held = pattern@;
        pattern.push(PrimitiveGroup::Single(ParsedEvent::empty()));
        proof {
            lemma_views_push(held, pattern@.last());
            assert(before.push(Tree::rest()) =~= before + seq![Tree::rest()]);
        }
    } else if level == -2 {
        let ghost held = pattern@;
        pattern.push(value.clone());
        proof {
            lemma_views_push(held, pattern@.last());
            assert(before.push(value@) =~= before + seq![value@]);
        }
    } else {
        let count = counts[level as usize];
        let ghost below = rhythm::build(level as int - 1, cs, rs, value@);
        let mut j: u32 = 0;
        while j < count
            invariant
                0 <= level < counts.len(),
                level < remainders.len(),
                j <= count,
                cs == as_nats(counts@),
                rs == as_nats(remainders@),
                below == rhythm::build(level as int - 1, cs, rs, value@),
                views(pattern@) == before + repeat(below, j as nat),
            decreases count - j,
        {
            build(value, level - 1, counts, remainders, pattern);
            proof {
                assert(before + repeat(below, j as nat) + below =~= before + repeat(below, (j + 1) as nat));
            }
            j += 1;
        }
        if remainders[level as usize] != 0 {
            build(value, level - 2, counts, remainders, pattern);
        }
        proof {
            assert(cs[level as int] == count as nat);
            assert(rs[level as int] == remainders@[level as int] as nat);
            let whole = rhythm::build(level as int, cs, rs, value@);
            assert(views(pattern@) =~= before + whole);
        }
    }
}

/// Where the first onset of `s` is, from where the rests before it end.
proof fn lemma_first_onset_at(s: Seq<Tree>, i: int)
    requires
        0 <= i <= s.len(),
        forall|k: int| 0 <= k < i ==> s[k] == Tree::rest(),
        i < s.len() ==> s[i] != Tree::rest(),
    ensures
        rhythm::first_onset(s) == i,
    decreases i,
{
    if i > 0 {
        let t = s.drop_first();
        assert forall|k: int| 0 <= k < i - 1 implies t[k] == Tree::rest() by {
            assert(t[k] == s[k + 1]);
        }
        lemma_first_onset_at(t, i - 1);
    }
}

impl Euclidean {
    /// All three parameters are numbers.
    pub open spec fn resolved(&self) -> bool {
        self.n is Single && self.m is Single && self.r is Single
    }

    /// All three cycles are valid.
    pub open spec fn valid(&self) -> bool {
        self.n@.valid() && self.m@.valid() && self.r@.valid()
    }

    /// After how many turns all three cycles start again together.
    pub open spec fn cycle(&self) -> nat {
        rhythm::turns(self.n@, self.m@, self.r@)
    }

    /// The rhythm is defined on turn `i`.
    pub open spec fn feasible_at(&self, i: nat) -> bool {
        rhythm::feasible(self.value@, self.n@.at(i), self.m@.at(i), self.r@.at(i))
    }

    /// The rhythm of turn `i`, as a group of slots.
    pub open spec fn rhythm_at(&self, i: nat) -> Tree {
        Tree::Node(rhythm::slots(self.value@, self.n@.at(i), self.m@.at(i), self.r@.at(i)))
    }

    /// The rhythm is defined on every turn of a cycle that fits in 32
    /// bits.
    pub open spec fn sound(&self) -> bool {
        rhythm::sound(self.value@, self.n@, self.m@, self.r@)
    }

    /// The rhythm of each turn of the cycle.
    pub open spec fn options(&self) -> Seq<Tree> {
        rhythm::options(self.value@, self.n@, self.m@, self.r@)
    }

    /// The alternation between the rhythms of all turns of the cycle.
    /// It fails where a cycle is empty or too long, or where on some turn
    /// the rhythm is not defined.
    pub fn to_single_pattern(&self) -> (res: Result<Single, Error>)
        ensures
            match res {
                Ok(s) => self.sound() && s@ == Tree::Alt(self.options()) && s@.well_formed(),
                Err(e) => e == Error::UnexpectedError && !self.sound(),
            },
    {
        if !self.is_valid() {
            return Err(Error::UnexpectedError);
        }
        let reps = self.count_replications();
        if checked_lcm_vec(&reps).is_none() {
            return Err(Error::UnexpectedError);
        }
        let turns = self.expand_alternate();
        let mut out: Vec<PrimitiveGroup> = Vec::new();
        let mut i: usize = 0;
        while i < turns.len()
            invariant
                self.valid(),
                self.cycle() <= u32::MAX,
                turns@.len() == self.cycle(),
                forall|k: int|
                    0 <= k < turns@.len() ==> {
                        &&& (#[trigger] turns@[k]).value@ == self.value@
                        &&& turns@[k].n == EuclideanPrimitive::Single(self.n@.at(k as nat) as u32)
                        &&& turns@[k].m == EuclideanPrimitive::Single(self.m@.at(k as nat) as u32)
                        &&& turns@[k].r == EuclideanPrimitive::Single(self.r@.at(k as nat) as u32)
                    },
                i <= turns.len(),
                out@.len() == i,
                forall|k: nat| k < i ==> #[trigger] self.feasible_at(k),
                forall|k: int| 0 <= k < i ==> (#[trigger] out@[k])@ == self.rhythm_at(k as nat),
            decreases turns.len() - i,
        {
            proof {
                self.lemma_at_fits(i as nat);
                assert(turns@[i as int].value@ == self.value@);
            }
            match turns[i].to_primitive_group() {
                Ok(g) => {
                    out.push(g);
                },
                Err(e) => {
                    proof {
                        assert(!self.feasible_at(i as nat));
                    }
                    return Err(e);
                },
            }
            i += 1;
        }
        let alternate = Alternate(out);
        proof {
            assert forall|k: nat| k < self.cycle() implies #[trigger] rhythm::feasible(
                self.value@,
                self.n@.at(k),
                self.m@.at(k),
                self.r@.at(k),
            ) by {
                assert(self.feasible_at(k));
            }
            assert(crate::primitives::primitive_trees(out@) =~= self.options());
            let arities = seq![self.n@.arity(), self.m@.arity(), self.r@.arity()];
            crate::utils::lemma_lcm_seq_positive(arities, 3);
            assert(arities.take(3) =~= arities);
            alternate.lemma_well_formed();
        }
        Ok(Single::Alternate(alternate))
    }

    /// The numbers of a turn fit in 32 bits.
    pub proof fn lemma_at_fits(&self, i: nat)
        ensures
            self.n@.at(i) <= u32::MAX,
            self.m@.at(i) <= u32::MAX,
            self.r@.at(i) <= u32::MAX,
    {
    }

    /// Whether all three cycles are valid.
    pub fn is_valid(&self) -> (r: bool)
        ensures
            r == self.valid(),
    {
        Self::is_valid_primitive(&self.n) && Self::is_valid_primitive(&self.m) && Self::is_valid_primitive(
            &self.r,
        )
    }

    fn is_valid_primitive(p: &EuclideanPrimitive) -> (r: bool)
        ensures
            r == p@.valid(),
    {
        match p {
            EuclideanPrimitive::Single(_) => true,
            EuclideanPrimitive::Alternate(a) => 0 < a.len() && a.len() <= 0xffff_ffff,
        }
    }

    /// The rhythm of a value whose parameters are all numbers: a group of
    /// as many slots as there are steps. It fails where a parameter is a
    /// cycle, and where the rhythm is not defined.
    pub fn to_primitive_group(&self) -> (res: Result<PrimitiveGroup, Error>)
        ensures
            match res {
                Ok(g) => {
                    &&& self.resolved()
                    &&& self.feasible_at(0)
                    &&& g@ == self.rhythm_at(0)
                    &&& g@->Node_0.len() == self.m@.at(0)
                    &&& rhythm::occurrences(g@->Node_0, self.value@) == self.n@.at(0)
                },
                Err(e) => e == Error::UnexpectedError && !(self.resolved() && self.feasible_at(0)),
            },
    {
        let steps = match self.m.get_value() {
            Ok(v) => *v,
            Err(e) => {
                return Err(e);
            },
        };
        let pulses = match self.n.get_value() {
            Ok(v) => *v,
            Err(e) => {
                return Err(e);
            },
        };
        let r = match self.r.get_value() {
            Ok(v) => *v,
            Err(e) => {
                return Err(e);
            },
        };
        if pulses == 0 || pulses > steps || r > steps || self.value.is_rest() {
            return Err(Error::UnexpectedError);
        }
        let mut counts: Vec<u32> = Vec::new();
        let mut remainders: Vec<u32> = Vec::new();
        let mut divisor = steps - pulses;
        remainders.push(pulses);
        let mut level: usize = 0;
        let mut done = false;
        let ghost whole = rhythm::schedule(pulses as nat, steps as nat);
        proof {
            assert(as_nats(counts@) =~= Seq::<nat>::empty());
            assert(as_nats(remainders@) =~= seq![pulses as nat]);
        }
        while !done
            invariant
                level == counts@.len(),
                remainders@.len() == level + 1,
                level < 0x1_0000_0000,
                !done ==> remainders@[level as int] > 0,
                !done ==> rhythm::schedule_from(as_nats(counts@), as_nats(remainders@), divisor as nat)
                    == whole,
                !done ==> remainders@[level as int] as int + level <= 0xffff_ffff,
                done ==> level >= 1 && whole == (rhythm::Schedule {
                    counts: as_nats(counts@).push(divisor as nat),
                    remainders: as_nats(remainders@),
                }),
            decreases
                    if done {
                        0
                    } else {
                        remainders@[level as int] + 1
                    },
        {
            let by = remainders[level];
            let ghost cs = as_nats(counts@);
            let ghost rs = as_nats(remainders@);
            proof {
                assert(rs.last() == by as nat);
            }
            counts.push(divisor / by);
            remainders.push(divisor % by);
            proof {
                assert(as_nats(counts@) =~= cs.push((divisor / by) as nat));
                assert(as_nats(remainders@) =~= rs.push((divisor % by) as nat));
            }
            divisor = by;
            level = level + 1;
            if remainders[level] <= 1 {
                done = true;
            }
        }
        counts.push(divisor);
        proof {
            assert(as_nats(counts@) =~= whole.counts);
            assert(as_nats(remainders@) == whole.remainders);
            rhythm::lemma_raw_slots_len(self.value@, pulses as nat, steps as nat);
        }
        let mut pattern: Vec<PrimitiveGroup> = Vec::new();
        proof {
            assert(views(pattern@) =~= Seq::<Tree>::empty());
        }
        build(&self.value, level as i64, &counts, &remainders, &mut pattern);
        let ghost raw = rhythm::raw_slots(self.value@, pulses as nat, steps as nat);
        proof {
            assert(views(pattern@) =~= raw);
            assert(pattern@.len() == views(pattern@).len());
        }
        let mut first: usize = 0;
        while first < pattern.len() && pattern[first].is_rest()
            invariant
                first <= pattern.len(),
                forall|k: int| 0 <= k < first ==> views(pattern@)[k] == Tree::rest(),
            decreases pattern.len() - first,
        {
            first += 1;
        }
        proof {
            lemma_first_onset_at(views(pattern@), first as int);
        }
        let normal = rotated_left(&pattern, first);
        proof {
            assert(normal@.len() == views(normal@).len());
        }
        let fixed = if steps - pulses == 1 {
            let n = normal.len();
            rotated_left(&normal, n - 2)
        } else {
            normal
        };
        proof {
            assert(fixed@.len() == views(fixed@).len());
        }
        let n = fixed.len();
        let turned = rotated_left(&fixed, n - r as usize);
        let g = PrimitiveGroup::Group(turned);
        proof {
            assert(crate::primitives::primitive_trees(turned@) =~= views(turned@));
            assert(self.n@.at(0) == pulses);
            assert(self.m@.at(0) == steps);
            assert(self.r@.at(0) == r);
            rhythm::lemma_slots_onsets(self.value@, pulses as nat, steps as nat, r as nat);
        }
        Ok(g)
    }

    /// How many turns each of the three cycles has.
    pub fn count_replications(&self) -> (r: Vec<u32>)
        requires
            self.valid(),
        ensures
            as_nats(r@) == seq![self.n@.arity(), self.m@.arity(), self.r@.arity()],
    {
        let mut out: Vec<u32> = Vec::new();
        out.push(self.n.replications());
        out.push(self.m.replications());
        out.push(self.r.replications());
        proof {
            assert(as_nats(out@) =~= seq![self.n@.arity(), self.m@.arity(), self.r@.arity()]);
        }
        out
    }

    /// The construct of each turn of the cycle, its parameters replaced
    /// by the numbers of that turn.
    pub fn expand_alternate(&self) -> (out: Vec<Euclidean>)
        requires
            self.valid(),
            self.cycle() <= u32::MAX,
        ensures
            out@.len() == self.cycle(),
            forall|k: int|
                0 <= k < out@.len() ==> {
                    &&& (#[trigger] out@[k]).value@ == self.value@
                    &&& out@[k].n == EuclideanPrimitive::Single(self.n@.at(k as nat) as u32)
                    &&& out@[k].m == EuclideanPrimitive::Single(self.m@.at(k as nat) as u32)
                    &&& out@[k].r == EuclideanPrimitive::Single(self.r@.at(k as nat) as u32)
                },
    {
        let reps = self.count_replications();
        let n = match checked_lcm_vec(&reps) {
            Some(n) => n,
            None => 0,
        };
        let mut out: Vec<Euclidean> = Vec::new();
        let mut i: usize = 0;
        while i < n as usize
            invariant
                self.valid(),
                n as nat == self.cycle(),
                i <= n,
                out@.len() == i,
                forall|k: int|
                    0 <= k < out@.len() ==> {
                        &&& (#[trigger] out@[k]).value@ == self.value@
                        &&& out@[k].n == EuclideanPrimitive::Single(self.n@.at(k as nat) as u32)
                        &&& out@[k].m == EuclideanPrimitive::Single(self.m@.at(k as nat) as u32)
                        &&& out@[k].r == EuclideanPrimitive::Single(self.r@.at(k as nat) as u32)
                    },
            decreases n - i,
        {
            out.push(
                Euclidean {
                    value: self.value.clone(),
                    n: EuclideanPrimitive::Single(self.n.next(i)),
                    m: EuclideanPrimitive::Single(self.m.next(i)),
                    r: EuclideanPrimitive::Single(self.r.next(i)),
                },
            );
            i += 1;
        }
        out
    }

    /// A Euclidean construct; without a rotation it is not turned. It is
    /// refused where the greatest number of pulses exceeds the greatest
    /// number of steps, or the greatest rotation is not below the greatest
    /// number of steps.
    pub fn create(
        value: PrimitiveGroup,
        n: EuclideanPrimitive,
        m: EuclideanPrimitive,
        r: Option<EuclideanPrimitive>,
    ) -> (res: Result<Self, Error>)
        ensures
            ({
                let rotation = match r {
                    Some(p) => p,
                    None => EuclideanPrimitive::Single(0),
                };
                match rhythm::refusal(n@, m@, rotation@) {
                    Some(e) => res == Err::<Self, Error>(e),
                    None => res == Ok::<Self, Error>(Euclidean { value, n, m, r: rotation }),
                }
            }),
    {
        let r_unwrap = match r {
            Some(p) => p,
            None => EuclideanPrimitive::Single(0),
        };
        let n_max = match n.max_value() {
            Ok(v) => *v,
            Err(e) => {
                return Err(e);
            },
        };
        let m_max = match m.max_value() {
            Ok(v) => *v,
            Err(e) => {
                return Err(e);
            },
        };
        if n_max > m_max {
            return Err(Error::DSLParsingError(ParsingError::EuclideanError(EuclideanError::NGreaterThanM)));
        }
        let r_max = match r_unwrap.max_value() {
            Ok(v) => *v,
            Err(e) => {
                return Err(e);
            },
        };
        if r_max >= m_max {
            return Err(
                Error::DSLParsingError(ParsingError::EuclideanError(EuclideanError::RGreaterEqualThanM)),
            );
        }
        Ok(Euclidean { value, n, m, r: r_unwrap })
    }

    /// The construct unrolled: one slot that alternates between the
    /// rhythms of all turns.
    pub fn expand(&self) -> (res: Result<Vec<ParsedMeasure>, Error>)
        ensures
            match res {
                Ok(v) => self.sound() && views(v@) == seq![Tree::Alt(self.options())] && Tree::Alt(
                    self.options(),
                ).well_formed(),
                Err(e) => e == Error::UnexpectedError && !self.sound(),
            },
    {
        match self.to_single_pattern() {
            Ok(single) => {
                let mut out: Vec<ParsedMeasure> = Vec::new();
                out.push(ParsedMeasure::Single(single));
                proof {
                    assert(views(out@) =~= seq![Tree::Alt(self.options())]);
                }
                Ok(out)
            },
            Err(e) => Err(e),
        }
    }
}

} // verus!
