use crate::error::Error;
use crate::measure::{clone_measures, Measure};
use crate::model::{lemma_views_add, views, Piece, Text, Tree};
use crate::parsed_measure::Parsed;
use crate::pattern::{Pattern, Payload, Score, TimedEvent};
use crate::timing::{
    all_sound, ascending, between, lemma_sequence_ascends, lemma_sequence_fits_prefix, last_tick, sequence_fits,
    sequence_length, sequence_sounding, sequence_steps, Step,
};
use vstd::prelude::*;

verus! {

/// The ticks of one measure where none are asked for.
pub const DEFAULT_SUBDIVISION: u32 = 1920;

/// A sequence as it is written: its measures, and the length in measures
/// where one is given.
#[derive(Debug, PartialEq)]
pub struct ParsedSequence {
    pub measures: Vec<Parsed>,
    pub length: Option<u32>,
}

impl View for ParsedSequence {
    type V = Text;

    open spec fn view(&self) -> Text {
        Text { measures: views(self.measures@), length: self.length }
    }
}

impl ParsedSequence {
    /// Every alternation has at least one option.
    pub open spec fn well_formed(&self) -> bool {
        self@.well_formed()
    }

    /// Every measure can be unrolled within 32 bits.
    pub open spec fn unrollable(&self) -> bool {
        self@.unrollable()
    }

    /// The concrete measures of the sequence, in order.
    pub open spec fn unrolled(&self) -> Seq<Tree> {
        self@.unrolled()
    }

    /// The sequence of the concrete measures, on the default grid.
    pub fn to_sequence(&self) -> (r: Sequence)
        requires
            self.well_formed(),
            self.unrollable(),
            self.unrolled().len() <= u32::MAX,
        ensures
            views(r.measures@) == self.unrolled(),
            r.subdivision == DEFAULT_SUBDIVISION,
            r.length as nat == sequence_length(self.length, self.unrolled().len()),
    {
        Sequence::from_parsed_sequence(self, None)
    }

    /// Whether every measure can be unrolled within 32 bits.
    pub fn can_unroll(&self) -> (r: bool)
        ensures
            r == self.unrollable(),
    {
        let mut i: usize = 0;
        while i < self.measures.len()
            invariant
                i <= self.measures.len(),
                forall|k: int| 0 <= k < i ==> (#[trigger] self@.measures[k]).unrollable(),
            decreases self.measures.len() - i,
        {
            if !self.measures[i].can_unroll() {
                proof {
                    assert(!self@.measures[i as int].unrollable());
                }
                return false;
            }
            i += 1;
        }
        true
    }

    /// The concrete measures of the sequence, in order.
    pub fn to_measures(&self) -> (r: Vec<Measure>)
        requires
            self.well_formed(),
            self.unrollable(),
        ensures
            views(r@) == self.unrolled(),
    {
        let ghost parts = self@.parts();
        let mut out: Vec<Measure> = Vec::new();
        let mut i: usize = 0;
        proof {
            assert(parts.take(0) =~= Seq::<Seq<Tree>>::empty());
            assert(views(out@) =~= parts.take(0).flatten());
        }
        while i < self.measures.len()
            invariant
                i <= self.measures.len(),
                self.well_formed(),
                self.unrollable(),
                parts == self@.parts(),
                views(out@) == parts.take(i as int).flatten(),
            decreases self.measures.len() - i,
        {
            proof {
                assert(self@.measures[i as int].well_formed());
                assert(self@.measures[i as int].unrollable());
            }
            let mut part = self.measures[i].to_measures();
            let ghost held = out@;
            let ghost added = part@;
            out.append(&mut part);
            proof {
                lemma_views_add(held, added);
                assert(parts.take(i as int + 1) =~= parts.take(i as int).push(parts[i as int]));
                parts.take(i as int).lemma_flatten_push(parts[i as int]);
            }
            i += 1;
        }
        proof {
            assert(parts.take(i as int) =~= parts);
        }
        out
    }
}

/// The concrete measures of a sequence with its grid and its length.
#[derive(Debug, PartialEq)]
pub struct Sequence {
    pub measures: Vec<Measure>,
    pub subdivision: u32,
    pub length: u32,
}

/// The grid that is asked for, or the default grid.
pub open spec fn grid_of(subdivision: Option<u32>) -> u32 {
    match subdivision {
        Some(s) => s,
        None => DEFAULT_SUBDIVISION,
    }
}

/// What compiling a parsed sequence gives: its events on the grid, or
/// the error where it cannot be unrolled or an index leaves the 32 bits.
pub open spec fn compiled(parsed: Text, subdivision: Option<u32>) -> Result<Score, Error> {
    let measures = parsed.unrolled();
    let grid = grid_of(subdivision) as nat;
    let length = sequence_length(parsed.length, measures.len());
    if !parsed.unrollable() || measures.len() > u32::MAX || !sequence_fits(
        measures,
        measures.len(),
        grid,
        length,
    ) {
        Err(Error::UnexpectedError)
    } else {
        Ok(Score { steps: sequence_steps(measures, measures.len(), grid, length), length, subdivision: grid })
    }
}

/// How many events of the concrete measures of a text sound.
pub open spec fn sounding_of(text: Text) -> nat {
    sequence_sounding(text.unrolled(), text.unrolled().len())
}

/// What holds of every pattern that a text of groups and polymetric
/// blocks compiles into: its steps ascend by index, each of them sounds
/// and has an index of at least 1, there is one for each event that
/// sounds, the pattern is at least as long as it has measures, and its
/// grid is the one asked for or the default.
pub open spec fn orderly(score: Score, text: Text, subdivision: Option<u32>) -> bool {
    &&& ascending(score.steps)
    &&& all_sound(score.steps)
    &&& between(score.steps, 1, last_tick())
    &&& score.steps.len() == sounding_of(text)
    &&& score.length >= text.unrolled().len()
    &&& score.subdivision == grid_of(subdivision)
}

/// Every pattern that a text of groups and polymetric blocks compiles
/// into is orderly.
pub proof fn lemma_compiled_orderly(text: Text, subdivision: Option<u32>)
    requires
        text.grouped(),
        compiled(text, subdivision) is Ok,
    ensures
        orderly(compiled(text, subdivision)->Ok_0, text, subdivision),
{
    let measures = text.unrolled();
    let grid = grid_of(subdivision) as nat;
    let length = sequence_length(text.length, measures.len());
    crate::model::lemma_unrolled_groups(text);
    lemma_sequence_ascends(measures, measures.len(), grid, length);
    let steps = sequence_steps(measures, measures.len(), grid, length);
    lemma_steps_fit(measures, measures.len(), grid, length);
}

/// Where a sequence fits, every index that is recorded is within 32
/// bits.
pub proof fn lemma_steps_fit(measures: Seq<Tree>, k: nat, subdivision: nat, length: nat)
    requires
        k <= measures.len(),
        sequence_fits(measures, k, subdivision, length),
    ensures
        forall|i: int|
            0 <= i < sequence_steps(measures, k, subdivision, length).len() ==> (#[trigger] sequence_steps(
                measures,
                k,
                subdivision,
                length,
            )[i]).index <= last_tick(),
    decreases k,
{
    if k > 0 {
        lemma_steps_fit(measures, (k - 1) as nat, subdivision, length);
        let so_far = sequence_steps(measures, (k - 1) as nat, subdivision, length);
        let start = crate::timing::measure_start((k - 1) as nat, subdivision);
        let t = measures[k - 1];
        let part = crate::timing::measure_steps(t, start, subdivision, length, measures.len());
        match t {
            Tree::Node(items) => {
                crate::timing::lemma_group_steps_fit(
                    items,
                    start,
                    crate::timing::child_span(subdivision, items.len()),
                    length,
                    measures.len(),
                );
            },
            _ => {},
        }
        let all = sequence_steps(measures, k, subdivision, length);
        assert forall|i: int| 0 <= i < all.len() implies (#[trigger] all[i]).index <= last_tick() by {
            if i < so_far.len() {
                assert(all[i] == so_far[i]);
            } else {
                assert(all[i] == part[i - so_far.len()]);
            }
        }
    }
}

/// The text of the one measure `t`.
pub open spec fn once(t: Tree) -> Text {
    Text { measures: seq![Piece::Plain(t)], length: None }
}

/// The text of the measure `t` written twice.
pub open spec fn twice(t: Tree) -> Text {
    Text { measures: seq![Piece::Plain(t), Piece::Plain(t)], length: None }
}

/// A group whose alternations take one turn, written twice, compiles
/// into a pattern of two measures: the steps of the group written once,
/// and the same steps again, each one grid later.
pub proof fn lemma_twice(t: Tree, subdivision: Option<u32>)
    requires
        t is Node,
        crate::model::cycle(t) == 1,
        compiled(twice(t), subdivision) is Ok,
    ensures
        compiled(once(t), subdivision) is Ok,
        compiled(once(t), subdivision)->Ok_0.length == 1,
        compiled(twice(t), subdivision)->Ok_0.length == 2,
        compiled(twice(t), subdivision)->Ok_0.steps == compiled(once(t), subdivision)->Ok_0.steps
            + crate::timing::shifted(compiled(once(t), subdivision)->Ok_0.steps, grid_of(subdivision) as nat),
{
    let grid = grid_of(subdivision) as nat;
    let r = t.resolve(0);
    assert(r is Node);
    let items = r->Node_0;
    let span = crate::timing::child_span(grid, items.len());
    assert(crate::model::unroll(t) =~= seq![r]);
    let one = once(t);
    let two = twice(t);
    assert(one.parts() =~= seq![seq![r]]);
    assert(two.parts() =~= seq![seq![r], seq![r]]);
    one.parts().lemma_flatten_one_element();
    assert(one.unrolled() == seq![r]);
    assert(seq![seq![r], seq![r]] =~= seq![seq![r]].push(seq![r]));
    seq![seq![r]].lemma_flatten_push(seq![r]);
    assert(two.unrolled() =~= seq![r, r]);
    let pair = seq![r, r];
    let single = seq![r];
    reveal_with_fuel(sequence_steps, 3);
    reveal_with_fuel(sequence_fits, 3);
    assert(crate::timing::measure_start(0, grid) == 1) by (nonlinear_arith)
        requires
            crate::timing::measure_start(0, grid) == 1 + 0 * grid,
    ;
    assert(crate::timing::measure_start(1, grid) == 1 + grid) by (nonlinear_arith)
        requires
            crate::timing::measure_start(1, grid) == 1 + 1 * grid,
    ;
    crate::timing::lemma_unstretched(items, 1, span, 2);
    crate::timing::lemma_shift(items, 1, grid, span, 2);
    let first = crate::timing::group_steps(items, 1, span, 1, 1);
    assert(sequence_steps(single, 1, grid, 1) =~= first);
    assert(sequence_steps(pair, 2, grid, 2) =~= first + crate::timing::shifted(first, grid));
    assert(one.unrollable());
    assert(sequence_fits(single, 1, grid, 1));
}

impl Sequence {
    /// The sequence of the concrete measures of a parsed sequence.
    pub fn from_parsed_sequence(parsed_sequence: &ParsedSequence, subdivision: Option<u32>) -> (r: Sequence)
        requires
            parsed_sequence.well_formed(),
            parsed_sequence.unrollable(),
            parsed_sequence.unrolled().len() <= u32::MAX,
        ensures
            views(r.measures@) == parsed_sequence.unrolled(),
            r.subdivision == grid_of(subdivision),
            r.length as nat == sequence_length(parsed_sequence.length, parsed_sequence.unrolled().len()),
    {
        let measures = parsed_sequence.to_measures();
        proof {
            assert(views(measures@).len() == measures@.len());
        }
        Sequence::new(&measures, parsed_sequence.length, subdivision)
    }

    /// The sequence of the given measures. Its length is the one asked
    /// for where that is greater than the number of measures, else the
    /// number of measures; its grid the one asked for, else the default.
    pub fn new(measures: &Vec<Measure>, length: Option<u32>, subdivision: Option<u32>) -> (r: Sequence)
        requires
            measures@.len() <= u32::MAX,
        ensures
            views(r.measures@) == views(measures@),
            r.subdivision == grid_of(subdivision),
            r.length as nat == sequence_length(length, measures@.len()),
    {
        let count = measures.len() as u32;
        Sequence {
            measures: clone_measures(measures),
            subdivision: match subdivision {
                Some(s) => s,
                None => DEFAULT_SUBDIVISION,
            },
            length: match length {
                Some(l) => if l > count {
                    l
                } else {
                    count
                },
                None => count,
            },
        }
    }

    /// The start of each measure and every index in it stay within 32
    /// bits.
    pub open spec fn in_range(&self) -> bool {
        &&& self.measures@.len() <= u32::MAX
        &&& sequence_fits(
            views(self.measures@),
            self.measures@.len(),
            self.subdivision as nat,
            self.length as nat,
        )
    }

    /// The events of the sequence on its grid.
    pub open spec fn score(&self) -> Score {
        Score {
            steps: sequence_steps(
                views(self.measures@),
                self.measures@.len(),
                self.subdivision as nat,
                self.length as nat,
            ),
            length: self.length as nat,
            subdivision: self.subdivision as nat,
        }
    }

    /// The pattern of the sequence: the events of every measure, each
    /// measure one grid behind the one before it; `None` where an index
    /// leaves the 32 bits.
    pub fn checked_pattern(&self) -> (r: Option<Pattern>)
        ensures
            r.is_some() <==> self.in_range(),
            r.is_some() ==> r.unwrap()@ == self.score(),
    {
        if self.measures.len() > 0xffff_ffff {
            return None;
        }
        let count = self.measures.len() as u32;
        let ghost trees = views(self.measures@);
        let ghost grid = self.subdivision as nat;
        let ghost length = self.length as nat;
        let mut steps: Vec<TimedEvent> = Vec::new();
        let mut k: usize = 0;
        proof {
            assert(views(steps@) =~= Seq::<Step>::empty());
        }
        while k < self.measures.len()
            invariant
                k <= self.measures.len(),
                count == self.measures@.len(),
                trees == views(self.measures@),
                grid == self.subdivision as nat,
                length == self.length as nat,
                sequence_fits(trees, k as nat, grid, length),
                views(steps@) == sequence_steps(trees, k as nat, grid, length),
            decreases self.measures.len() - k,
        {
            proof {
                assert(k * self.subdivision <= 0xffff_ffff * 0xffff_ffff) by (nonlinear_arith)
                    requires
                        0 <= k <= 0xffff_ffff,
                        0 <= self.subdivision <= 0xffff_ffff,
                ;
                assert(k * self.subdivision >= 0) by (nonlinear_arith)
                    requires
                        0 <= k,
                        0 <= self.subdivision,
                ;
            }
            let start: u64 = 1 + (k as u64) * (self.subdivision as u64);
            if start > 0xffff_ffff {
                proof {
                    assert(!sequence_fits(trees, (k + 1) as nat, grid, length));
                    if sequence_fits(trees, trees.len(), grid, length) {
                        lemma_sequence_fits_prefix(trees, trees.len(), (k + 1) as nat, grid, length);
                    }
                }
                return None;
            }
            match self.measures[k].checked_timed_events(start as u32, self.length, count, self.subdivision) {
                Some(mut part) => {
                    let ghost held = steps@;
                    let ghost added = part@;
                    steps.append(&mut part);
                    proof {
                        lemma_views_add(held, added);
                    }
                },
                None => {
                    proof {
                        assert(!sequence_fits(trees, (k + 1) as nat, grid, length));
                        if sequence_fits(trees, trees.len(), grid, length) {
                            lemma_sequence_fits_prefix(trees, trees.len(), (k + 1) as nat, grid, length);
                        }
                    }
                    return None;
                },
            }
            k += 1;
        }
        Some(Pattern { steps, length: self.length, subdivision: self.subdivision })
    }

    /// The ticks of one measure of the sequence.
    pub fn subdivision(&self) -> (r: u32)
        ensures
            r == self.subdivision,
    {
        self.subdivision
    }

    /// What is sent to a receiver: the steps of the pattern as text, and
    /// the length.
    pub fn to_max_message(&self) -> (r: Payload)
        requires
            self.in_range(),
        ensures
            r.steps@ == crate::pattern::steps_text(self.score().steps),
            r.length == self.length,
    {
        Payload { steps: self.to_pattern().format_steps(), length: self.length }
    }

    /// The pattern of the sequence.
    pub fn to_pattern(&self) -> (r: Pattern)
        requires
            self.in_range(),
        ensures
            r@ == self.score(),
    {
        match self.checked_pattern() {
            Some(p) => p,
            None => Pattern { steps: Vec::new(), length: self.length, subdivision: self.subdivision },
        }
    }
}

/// Compiles a parsed sequence: unrolls its measures and lays their
/// events out on the grid.
pub fn compile(parsed: &ParsedSequence, subdivision: Option<u32>) -> (r: Result<Pattern, Error>)
    requires
        parsed.well_formed(),
    ensures
        match r {
            Ok(p) => compiled(parsed@, subdivision) == Ok::<Score, Error>(p@),
            Err(e) => compiled(parsed@, subdivision) == Err::<Score, Error>(e),
        },
        parsed@.grouped() ==> (r matches Ok(p) ==> orderly(p@, parsed@, subdivision)),
{
    proof {
        if parsed@.grouped() && compiled(parsed@, subdivision) is Ok {
            lemma_compiled_orderly(parsed@, subdivision);
        }
    }
    if !parsed.can_unroll() {
        return Err(Error::UnexpectedError);
    }
    let measures = parsed.to_measures();
    proof {
        assert(views(measures@).len() == measures@.len());
    }
    if measures.len() > 0xffff_ffff {
        return Err(Error::UnexpectedError);
    }
    let sequence = Sequence::new(&measures, parsed.length, subdivision);
    proof {
        assert(views(sequence.measures@).len() == sequence.measures@.len());
    }
    match sequence.checked_pattern() {
        Some(p) => Ok(p),
        None => Err(Error::UnexpectedError),
    }
}

} // verus!
