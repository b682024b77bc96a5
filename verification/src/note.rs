//! Notes with a velocity and a duration, and the steps of a pattern
//! written out with both.

use crate::measure::Event;
use crate::pattern::{Pattern, TimedEvent};
use crate::text::{decimal, decimal_string};
use crate::timing::Step;
use crate::model::views;
use vstd::prelude::*;

verus! {

/// A note: a value with how hard and how long it is played.
#[derive(Debug, PartialEq)]
pub struct Note {
    pub value: String,
    pub velocity: u32,
    pub duration: u32,
}

/// What a note holds.
pub struct Tone {
    pub value: Seq<char>,
    pub velocity: nat,
    pub duration: nat,
}

impl View for Note {
    type V = Tone;

    open spec fn view(&self) -> Tone {
        Tone { value: self.value@, velocity: self.velocity as nat, duration: self.duration as nat }
    }
}

impl Clone for Note {
    fn clone(&self) -> (r: Self)
        ensures
            r@ == self@,
    {
        Note { value: self.value.clone(), velocity: self.velocity, duration: self.duration }
    }
}

impl Note {
    /// The last tick of a note that starts at `index` and lasts `length`
    /// ticks; a note of no length still holds its first tick.
    pub fn advance(&self, index: u32, length: u32) -> (r: u32)
        requires
            index + length - 1 <= u32::MAX,
        ensures
            length == 0 ==> r == index,
            length > 0 ==> r == index + length - 1,
    {
        if length == 0 {
            index
        } else {
            index + (length - 1)
        }
    }
}

/// Notes of which each turn of a cycle takes the next.
#[derive(Debug, PartialEq)]
pub struct AlternateNote {
    pub notes: Vec<Note>,
}

impl AlternateNote {
    /// The note of turn `i` of the cycle.
    pub fn next(&self, i: usize) -> (r: Note)
        requires
            self.notes@.len() > 0,
        ensures
            r@ == self.notes@[(i as int) % (self.notes@.len() as int)]@,
    {
        let index = i % self.notes.len();
        self.notes[index].clone()
    }
}

/// A note and the tick on which it falls.
pub struct MaxNote {
    pub index: u32,
    pub note: Note,
}

/// A note on its tick as text: index, value, velocity and duration, with
/// a space between them.
pub open spec fn note_text(index: nat, tone: Tone) -> Seq<char> {
    decimal(index) + seq![' '] + tone.value + seq![' '] + decimal(tone.velocity) + seq![' '] + decimal(
        tone.duration,
    )
}

/// A step as text with a velocity and a duration: index, value,
/// velocity, duration and chance, with a space between them.
pub open spec fn played_text(s: Step, velocity: nat, duration: nat) -> Seq<char> {
    decimal(s.index) + seq![' '] + s.value + seq![' '] + decimal(velocity) + seq![' '] + decimal(duration)
        + seq![' '] + decimal(s.probability)
}

/// The steps as text with a velocity and a duration, with a comma and a
/// space between them.
pub open spec fn all_played_text(steps: Seq<Step>, velocity: nat, duration: nat) -> Seq<char>
    decreases steps.len(),
{
    if steps.len() == 0 {
        Seq::empty()
    } else if steps.len() == 1 {
        played_text(steps[0], velocity, duration)
    } else {
        all_played_text(steps.drop_last(), velocity, duration) + seq![',', ' '] + played_text(
            steps.last(),
            velocity,
            duration,
        )
    }
}

impl MaxNote {
    /// The note on its tick as text.
    pub fn display(&self) -> (r: String)
        ensures
            r@ == note_text(self.index as nat, self.note@),
    {
        proof {
            reveal_strlit(" ");
            assert(" "@ =~= seq![' ']);
        }
        let mut s = decimal_string(self.index);
        s.append(" ");
        s.append(self.note.value.as_str());
        s.append(" ");
        let v = decimal_string(self.note.velocity);
        s.append(v.as_str());
        s.append(" ");
        let d = decimal_string(self.note.duration);
        s.append(d.as_str());
        s
    }
}

/// An event and the tick on which it falls, to be written out with a
/// velocity and a duration.
pub struct MaxEvent {
    pub index: u32,
    pub event: Event,
}

impl View for MaxEvent {
    type V = Step;

    open spec fn view(&self) -> Step {
        Step { index: self.index as nat, value: self.event.value@, probability: self.event.probability as nat }
    }
}

/// The step as text with a velocity and a duration.
fn played(index: u32, event: &Event, velocity: u32, duration: u32) -> (r: String)
    ensures
        r@ == played_text(
            Step { index: index as nat, value: event.value@, probability: event.probability as nat },
            velocity as nat,
            duration as nat,
        ),
{
    proof {
        reveal_strlit(" ");
        assert(" "@ =~= seq![' ']);
    }
    let mut s = decimal_string(index);
    s.append(" ");
    s.append(event.value.as_str());
    s.append(" ");
    let v = decimal_string(velocity);
    s.append(v.as_str());
    s.append(" ");
    let d = decimal_string(duration);
    s.append(d.as_str());
    s.append(" ");
    let p = decimal_string(event.probability);
    s.append(p.as_str());
    s
}

impl MaxEvent {
    /// The event on its tick as text, with the given velocity and
    /// duration.
    pub fn display(&self, velocity: u32, duration: u32) -> (r: String)
        ensures
            r@ == played_text(self@, velocity as nat, duration as nat),
    {
        played(self.index, &self.event, velocity, duration)
    }
}

impl Pattern {
    /// The steps as text, each with the given velocity and duration, with
    /// a comma and a space between them.
    pub fn serialize(&self, velocity: u32, duration: u32) -> (r: String)
        ensures
            r@ == all_played_text(self@.steps, velocity as nat, duration as nat),
    {
        proof {
            reveal_strlit(", ");
            assert(", "@ =~= seq![',', ' ']);
        }
        let ghost all = views(self.steps@);
        let mut s = String::new();
        let mut i: usize = 0;
        while i < self.steps.len()
            invariant
                i <= self.steps.len(),
                all == views(self.steps@),
                s@ == all_played_text(all.take(i as int), velocity as nat, duration as nat),
                ", "@ == seq![',', ' '],
            decreases self.steps.len() - i,
        {
            if i > 0 {
                s.append(", ");
            }
            let step: &TimedEvent = &self.steps[i];
            let one = played(step.index, &step.event, velocity, duration);
            s.append(one.as_str());
            proof {
                assert(all.take(i as int + 1).drop_last() =~= all.take(i as int));
                assert(all.take(i as int + 1).last() == self.steps@[i as int]@);
                if i == 0 {
                    assert(s@ =~= played_text(self.steps@[i as int]@, velocity as nat, duration as nat));
                }
            }
            i += 1;
        }
        proof {
            assert(all.take(i as int) =~= all);
        }
        s
    }
}

} // verus!
