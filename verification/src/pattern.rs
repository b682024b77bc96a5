use crate::measure::Event;
use crate::model::{lemma_views_push, views, Tree};
use crate::text::{decimal, decimal_string};
use crate::timing::Step;
use vstd::prelude::*;

verus! {

/// How a pattern is written out.
#[derive(Debug, PartialEq, Eq, Clone, Copy, Structural)]
pub enum OutputFormat {
    Json,
    Max,
}

/// What is sent to a receiver: the steps as text, and the length.
#[derive(Debug, PartialEq)]
pub struct Payload {
    pub steps: String,
    pub length: u32,
}

/// An event and the tick on which it falls.
#[derive(Debug, PartialEq)]
pub struct TimedEvent {
    pub index: u32,
    pub event: Event,
}

impl View for TimedEvent {
    type V = Step;

    open spec fn view(&self) -> Step {
        Step { index: self.index as nat, value: self.event.value@, probability: self.event.probability as nat }
    }
}

impl Clone for TimedEvent {
    fn clone(&self) -> (r: Self)
        ensures
            r@ == self@,
    {
        TimedEvent { index: self.index, event: self.event.clone() }
    }
}

/// One step as text: index, value and chance, with a space between them.
pub open spec fn step_text(s: Step) -> Seq<char> {
    decimal(s.index) + seq![' '] + s.value + seq![' '] + decimal(s.probability)
}

/// The steps as text, with a comma and a space between them.
pub open spec fn steps_text(steps: Seq<Step>) -> Seq<char>
    decreases steps.len(),
{
    if steps.len() == 0 {
        Seq::empty()
    } else if steps.len() == 1 {
        step_text(steps[0])
    } else {
        steps_text(steps.drop_last()) + seq![',', ' '] + step_text(steps.last())
    }
}

/// A grid of `size` ticks with the event of each step on its tick and
/// the rest on every other tick; of two steps on one tick the later one
/// stays.
pub open spec fn filled(steps: Seq<Step>, size: nat) -> Seq<Tree>
    decreases steps.len(),
{
    if steps.len() == 0 {
        Seq::new(size, |i: int| Tree::rest())
    } else {
        let s = steps.last();
        filled(steps.drop_last(), size).update(
            s.index - 1,
            Tree::Leaf { value: s.value, probability: s.probability },
        )
    }
}

impl TimedEvent {
    /// The event `value` with the given chance, on tick `index`.
    pub fn new(index: u32, value: &str, probability: u32) -> (r: Self)
        ensures
            r@ == (Step { index: index as nat, value: value@, probability: probability as nat }),
    {
        TimedEvent { index, event: Event { value: String::from_str(value), probability } }
    }

    /// The step as text: index, value and chance, with a space between
    /// them.
    pub fn max_format(&self) -> (r: String)
        ensures
            r@ == step_text(self@),
    {
        proof {
            reveal_strlit(" ");
        }
        let mut s = decimal_string(self.index);
        s.append(" ");
        s.append(self.event.value.as_str());
        s.append(" ");
        let p = decimal_string(self.event.probability);
        s.append(p.as_str());
        proof {
            assert(" "@ =~= seq![' ']);
        }
        s
    }
}

/// A compiled pattern: the events that sound, in the order of time, the
/// length in measures, and the ticks of one measure.
#[derive(Debug, PartialEq)]
pub struct Pattern {
    pub steps: Vec<TimedEvent>,
    pub length: u32,
    pub subdivision: u32,
}

/// What a pattern holds.
pub struct Score {
    pub steps: Seq<Step>,
    pub length: nat,
    pub subdivision: nat,
}

impl View for Pattern {
    type V = Score;

    open spec fn view(&self) -> Score {
        Score { steps: views(self.steps@), length: self.length as nat, subdivision: self.subdivision as nat }
    }
}

impl Pattern {
    /// The steps as text, with a comma and a space between them.
    pub fn format_steps(&self) -> (r: String)
        ensures
            r@ == steps_text(self@.steps),
    {
        proof {
            reveal_strlit(", ");
        }
        let ghost all = views(self.steps@);
        let mut s = String::new();
        let mut i: usize = 0;
        while i < self.steps.len()
            invariant
                i <= self.steps.len(),
                all == views(self.steps@),
                s@ == steps_text(all.take(i as int)),
                ", "@ == seq![',', ' '],
            decreases self.steps.len() - i,
        {
            if i > 0 {
                s.append(", ");
            }
            let one = self.steps[i].max_format();
            s.append(one.as_str());
            proof {
                assert(all.take(i as int + 1).drop_last() =~= all.take(i as int));
                assert(all.take(i as int + 1).last() == self.steps@[i as int]@);
                if i == 0 {
                    assert(s@ =~= step_text(self.steps@[i as int]@));
                }
            }
            i += 1;
        }
        proof {
            assert(all.take(i as int) =~= all);
            assert(", "@ =~= seq![',', ' ']);
        }
        s
    }

    /// Every step lies on a tick of the grid of the whole pattern, and
    /// the grid fits in memory.
    pub open spec fn on_grid(&self) -> bool {
        &&& self.length * self.subdivision <= usize::MAX
        &&& forall|i: int|
            0 <= i < self.steps@.len() ==> 1 <= (#[trigger] self.steps@[i]).index <= self.length
                * self.subdivision
    }

    /// One event for each tick of the pattern: the event of the step on
    /// that tick, and the rest where there is none.
    pub fn fill(&self) -> (r: Vec<Event>)
        requires
            self.on_grid(),
        ensures
            views(r@) == filled(self@.steps, (self.length * self.subdivision) as nat),
    {
        proof {
            assert(self.length * self.subdivision >= 0) by (nonlinear_arith);
        }
        let size: usize = (self.length as usize) * (self.subdivision as usize);
        let ghost all = views(self.steps@);
        let mut out: Vec<Event> = Vec::new();
        let mut k: usize = 0;
        while k < size
            invariant
                k <= size,
                out@.len() == k,
                forall|j: int| 0 <= j < k ==> (#[trigger] out@[j])@ == Tree::rest(),
            decreases size - k,
        {
            out.push(Event::empty());
            k += 1;
        }
        proof {
            assert(all.take(0) =~= Seq::<Step>::empty());
            assert(views(out@) =~= filled(all.take(0), size as nat));
        }
        let mut i: usize = 0;
        while i < self.steps.len()
            invariant
                i <= self.steps.len(),
                self.on_grid(),
                size == self.length * self.subdivision,
                all == views(self.steps@),
                out@.len() == size,
                views(out@) == filled(all.take(i as int), size as nat),
            decreases self.steps.len() - i,
        {
            let te = &self.steps[i];
            proof {
                assert(1 <= self.steps@[i as int].index <= size);
            }
            let ghost held = out@;
            out.set((te.index - 1) as usize, te.event.clone());
            proof {
                assert(all.take(i as int + 1).drop_last() =~= all.take(i as int));
                assert(all.take(i as int + 1).last() == self.steps@[i as int]@);
                assert(views(out@) =~= views(held).update(te.index - 1, out@[te.index - 1]@));
            }
            i += 1;
        }
        proof {
            assert(all.take(i as int) =~= all);
        }
        out
    }
}

/// A copy of each step of `v`.
pub fn clone_steps(v: &Vec<TimedEvent>) -> (out: Vec<TimedEvent>)
    ensures
        views(out@) == views(v@),
{
    let mut out: Vec<TimedEvent> = Vec::new();
    let mut i: usize = 0;
    while i < v.len()
        invariant
            i <= v.len(),
            views(out@) == views(v@).take(i as int),
        decreases v.len() - i,
    {
        let ghost held = out@;
        out.push(v[i].clone());
        proof {
            lemma_views_push(held, out@.last());
            assert(views(v@).take(i as int + 1) =~= views(v@).take(i as int).push(views(v@)[i as int]));
        }
        i += 1;
    }
    proof {
        assert(views(v@).take(i as int) =~= views(v@));
    }
    out
}

impl Clone for Pattern {
    fn clone(&self) -> (r: Self)
        ensures
            r@ == self@,
    {
        Pattern { steps: clone_steps(&self.steps), length: self.length, subdivision: self.subdivision }
    }
}

} // verus!
