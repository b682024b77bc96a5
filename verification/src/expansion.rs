//! Constructs that stand for several measures: repetition, replication
//! and the numeric generators.

use crate::error::Error;
use crate::generator::{binary_digits, Binary};
use crate::model::{lemma_views_push, views, Tree};
use crate::parsed_measure::{ParsedMeasure, Single};
use crate::primitives::ParsedEvent;
use crate::text::{decimal, decimal_string};
use crate::utils::as_nats;
use vstd::prelude::*;

verus! {

/// `n` times the tree `x`, as siblings.
pub open spec fn replicated(x: Tree, n: nat) -> Seq<Tree> {
    Seq::new(n, |i: int| x)
}

/// `n` times the tree `x` inside one new group.
pub open spec fn repeated(x: Tree, n: nat) -> Seq<Tree> {
    seq![Tree::Node(replicated(x, n))]
}

/// The first `steps` harmonics of `fundamental`, each an event that
/// always sounds.
pub open spec fn harmonics(fundamental: nat, steps: nat) -> Seq<Tree> {
    Seq::new(steps, |k: int| Tree::sure(decimal(fundamental * (k + 1) as nat)))
}

/// The last `length` binary digits of `number` as events: the event `0`
/// for a one, the rest for a zero.
pub open spec fn binary_events(number: nat, length: nat) -> Seq<Tree> {
    Seq::new(
        length,
        |k: int|
            if binary_digits(number, length)[k] > 0 {
                Tree::sure(seq!['0'])
            } else {
                Tree::rest()
            },
    )
}

/// Replicating a tree once gives the tree itself.
pub proof fn lemma_replicated_once(x: Tree)
    ensures
        replicated(x, 1) == seq![x],
{
    assert(replicated(x, 1) =~= seq![x]);
}

/// Repeating a tree once wraps it in one group.
pub proof fn lemma_repeated_once(x: Tree)
    ensures
        repeated(x, 1) == seq![Tree::Node(seq![x])],
{
    lemma_replicated_once(x);
}

/// `n` copies of `value`.
fn copies(value: &ParsedMeasure, n: usize) -> (r: Vec<ParsedMeasure>)
    ensures
        views(r@) == replicated(value@, n as nat),
{
    let mut out: Vec<ParsedMeasure> = Vec::new();
    let mut i: usize = 0;
    while i < n
        invariant
            i <= n,
            views(out@) == replicated(value@, i as nat),
        decreases n - i,
    {
        let ghost held = out@;
        out.push(value.clone());
        proof {
            lemma_views_push(held, out@.last());
            assert(replicated(value@, i as nat).push(value@) =~= replicated(value@, (i + 1) as nat));
        }
        i += 1;
    }
    out
}

/// A measure to be repeated inside a group of its own.
#[derive(Debug, PartialEq)]
pub struct Repeated {
    pub value: ParsedMeasure,
    pub repetitions: usize,
}

impl Repeated {
    /// One group that holds the measure as often as asked.
    pub fn expand(&self) -> (r: Result<Vec<ParsedMeasure>, Error>)
        ensures
            r is Ok,
            views(r->Ok_0@) == repeated(self.value@, self.repetitions as nat),
    {
        let inner = copies(&self.value, self.repetitions);
        let group = ParsedMeasure::Group(inner);
        proof {
            crate::parsed_measure::lemma_parsed_trees(group->Group_0@);
        }
        let mut out: Vec<ParsedMeasure> = Vec::new();
        out.push(group);
        proof {
            assert(views(out@) =~= repeated(self.value@, self.repetitions as nat));
        }
        Ok(out)
    }
}

/// A measure to be replicated among its siblings.
#[derive(Debug, PartialEq)]
pub struct Replicated {
    pub value: ParsedMeasure,
    pub replications: usize,
}

impl Replicated {
    /// The measure as often as asked.
    pub fn expand(&self) -> (r: Result<Vec<ParsedMeasure>, Error>)
        ensures
            r is Ok,
            views(r->Ok_0@) == replicated(self.value@, self.replications as nat),
    {
        Ok(copies(&self.value, self.replications))
    }
}

/// A fundamental and how many of its harmonics are asked for.
#[derive(Debug, PartialEq)]
pub struct HarmonicGenerator {
    pub fundamental: u32,
    pub steps: u32,
}

impl HarmonicGenerator {
    /// The harmonics as events; an error where one of them leaves the 32
    /// bits.
    pub fn expand(&self) -> (r: Result<Vec<ParsedMeasure>, Error>)
        ensures
            match r {
                Ok(v) => self.fundamental * self.steps <= u32::MAX && views(v@) == harmonics(
                    self.fundamental as nat,
                    self.steps as nat,
                ),
                Err(e) => self.fundamental * self.steps > u32::MAX && e == Error::UnexpectedError,
            },
    {
        proof {
            assert(0 <= self.fundamental * self.steps <= 0xffff_ffff * 0xffff_ffff) by (nonlinear_arith)
                requires
                    0 <= self.fundamental <= 0xffff_ffff,
                    0 <= self.steps <= 0xffff_ffff,
            ;
        }
        if (self.fundamental as u64) * (self.steps as u64) > 0xffff_ffff {
            return Err(Error::UnexpectedError);
        }
        let ghost goal = harmonics(self.fundamental as nat, self.steps as nat);
        let mut out: Vec<ParsedMeasure> = Vec::new();
        let mut k: u32 = 0;
        proof {
            assert(views(out@) =~= goal.take(0));
        }
        while k < self.steps
            invariant
                k <= self.steps,
                self.fundamental * self.steps <= u32::MAX,
                goal == harmonics(self.fundamental as nat, self.steps as nat),
                views(out@) == goal.take(k as int),
            decreases self.steps - k,
        {
            proof {
                assert(0 <= self.fundamental * (k + 1) <= self.fundamental * self.steps) by (nonlinear_arith)
                    requires
                        0 <= self.fundamental,
                        0 <= k + 1 <= self.steps,
                ;
            }
            let value = decimal_string(self.fundamental * (k + 1));
            let ghost held = out@;
            out.push(ParsedMeasure::Single(Single::Event(ParsedEvent { value, probability: 100 })));
            proof {
                lemma_views_push(held, out@.last());
                assert(goal.take(k as int + 1) =~= goal.take(k as int).push(goal[k as int]));
            }
            k += 1;
        }
        proof {
            assert(goal.take(k as int) =~= goal);
        }
        Ok(out)
    }
}

impl Binary {
    /// The digits as events: the event `0` for a one, the rest for a
    /// zero; an error where more than 32 digits are asked for.
    pub fn expand(&self) -> (r: Result<Vec<ParsedMeasure>, Error>)
        ensures
            match r {
                Ok(v) => self.length <= 32 && views(v@) == binary_events(
                    self.number as nat,
                    self.length as nat,
                ),
                Err(e) => self.length > 32 && e == Error::UnexpectedError,
            },
    {
        if self.length > 32 {
            return Err(Error::UnexpectedError);
        }
        let digits = self.generate();
        let ghost goal = binary_events(self.number as nat, self.length as nat);
        proof {
            lemma_binary_digits_len(self.number as nat, self.length as nat);
            reveal_strlit("0");
            reveal_strlit("~");
            assert("0"@ =~= seq!['0']);
            assert("~"@ =~= seq!['~']);
        }
        let mut out: Vec<ParsedMeasure> = Vec::new();
        let mut k: usize = 0;
        proof {
            assert(views(out@) =~= goal.take(0));
        }
        while k < digits.len()
            invariant
                k <= digits.len(),
                digits@.len() == self.length,
                as_nats(digits@) == binary_digits(self.number as nat, self.length as nat),
                goal == binary_events(self.number as nat, self.length as nat),
                views(out@) == goal.take(k as int),
                "0"@ == seq!['0'],
                "~"@ == seq!['~'],
            decreases digits.len() - k,
        {
            let event = if digits[k] > 0 {
                ParsedMeasure::event("0")
            } else {
                ParsedMeasure::event("~")
            };
            proof {
                assert(as_nats(digits@)[k as int] == digits@[k as int] as nat);
                assert(seq!['0'][0] == '0');
                assert(seq!['~'][0] == '~');
                assert(seq!['0'] != seq!['~']);
                assert(event@ == goal[k as int]);
            }
            let ghost held = out@;
            out.push(event);
            proof {
                lemma_views_push(held, out@.last());
                assert(goal.take(k as int + 1) =~= goal.take(k as int).push(goal[k as int]));
            }
            k += 1;
        }
        proof {
            assert(goal.take(k as int) =~= goal);
        }
        Ok(out)
    }
}

/// As many binary digits as are asked for.
pub proof fn lemma_binary_digits_len(number: nat, length: nat)
    ensures
        binary_digits(number, length).len() == length,
    decreases length,
{
    if length > 0 {
        lemma_binary_digits_len(number / 2, (length - 1) as nat);
    }
}

} // verus!
