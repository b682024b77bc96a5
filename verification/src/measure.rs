use crate::model::{lemma_views_push, views, Tree};
use crate::pattern::TimedEvent;
use crate::timing::{
    child_span, group_fits, group_grid, group_grid_fits, group_steps, lemma_group_fits_prefix,
    lemma_group_grid_fits_prefix, measure_fits, measure_grid, measure_grid_fits, measure_steps, stretch, Step,
};
use crate::utils::checked_lcm;
use vstd::prelude::*;

verus! {

/// One event of a concrete measure: a value, and the chance in percent
/// that it sounds.
#[derive(Debug, PartialEq)]
pub struct Event {
    pub value: String,
    pub probability: u32,
}

impl View for Event {
    type V = Tree;

    open spec fn view(&self) -> Tree {
        Tree::Leaf { value: self.value@, probability: self.probability as nat }
    }
}

impl Clone for Event {
    fn clone(&self) -> (r: Self)
        ensures
            r@ == self@,
    {
        Event { value: self.value.clone(), probability: self.probability }
    }
}

impl Event {
    /// The rest.
    pub fn empty() -> (r: Self)
        ensures
            r@ == Tree::rest(),
    {
        proof {
            reveal_strlit("0");
        }
        let r = Event { value: String::from_str("0"), probability: 0 };
        assert(r.value@ =~= seq!['0']);
        r
    }

    /// The last tick of an event that starts at `index` and lasts
    /// `length` ticks; an event of no length still holds its first tick.
    pub fn advance(&self, index: u32, length: u32) -> (r: u32)
        requires
            index + length - 1 <= u32::MAX,
        ensures
            length == 0 ==> r == index,
            length > 0 ==> r == index + length - 1,
    {
        let mut i = index;
        let mut k: u32 = 1;
        while k < length
            invariant
                1 <= k,
                k <= length || k == 1,
                i == index + (k - 1),
                index + length - 1 <= u32::MAX,
            decreases
                    if k < length {
                        length - k
                    } else {
                        0
                    },
        {
            i = i + 1;
            k = k + 1;
        }
        i
    }
}

/// A concrete measure: a tree of events in which nothing alternates.
#[derive(Debug, PartialEq)]
pub enum Measure {
    Event(Event),
    Group(Vec<Measure>),
}

/// The trees of the items of `s`, in order.
pub open spec fn measure_trees(s: Seq<Measure>) -> Seq<Tree>
    decreases s,
{
    Seq::new(s.len(), |k: int| if 0 <= k < s.len() { s[k].tree() } else { Tree::rest() })
}

impl Measure {
    /// The tree that this value stands for.
    pub open spec fn tree(&self) -> Tree
        decreases self,
    {
        match self {
            Measure::Event(e) => e@,
            Measure::Group(v) => Tree::Node(measure_trees(v@)),
        }
    }

    /// The tree of a measure is plain.
    pub proof fn lemma_plain(&self)
        ensures
            self@.plain(),
        decreases self,
    {
        match self {
            Measure::Event(_) => {},
            Measure::Group(v) => {
                let s = measure_trees(v@);
                assert forall|k: int| 0 <= k < s.len() implies (#[trigger] s[k]).plain() by {
                    v@[k].lemma_plain();
                }
            },
        }
    }
}

impl View for Measure {
    type V = Tree;

    open spec fn view(&self) -> Tree {
        self.tree()
    }
}

/// The trees of measures are their views.
pub proof fn lemma_measure_trees(s: Seq<Measure>)
    ensures
        measure_trees(s) == views(s),
{
    assert(measure_trees(s) =~= views(s));
}

impl Clone for Measure {
    fn clone(&self) -> (r: Self)
        ensures
            r@ == self@,
        decreases self,
    {
        match self {
            Measure::Event(e) => Measure::Event(e.clone()),
            Measure::Group(v) => {
                let mut out: Vec<Measure> = Vec::new();
                let mut i: usize = 0;
                while i < v.len()
                    invariant
                        *self == Measure::Group(*v),
                        i <= v.len(),
                        views(out@) == views(v@).take(i as int),
                    decreases v.len() - i,
                {
                    proof {
                        assert(self->Group_0 == *v);
                    }
                    let ghost held = out@;
                    out.push(v[i].clone());
                    proof {
                        lemma_views_push(held, out@.last());
                        assert(views(v@).take(i as int + 1) =~= views(v@).take(i as int).push(views(v@)[i as int]));
                    }
                    i += 1;
                }
                let r = Measure::Group(out);
                proof {
                    assert(views(v@).take(i as int) =~= views(v@));
                    lemma_measure_trees(out@);
                    lemma_measure_trees(v@);
                }
                r
            },
        }
    }
}

/// A copy of each measure of `v`.
pub fn clone_measures(v: &Vec<Measure>) -> (out: Vec<Measure>)
    ensures
        views(out@) == views(v@),
{
    let mut out: Vec<Measure> = Vec::new();
    let mut i: usize = 0;
    while i < v.len()
        invariant
            i <= v.len(),
            views(out@) == views(v@).take(i as int),
        decreases v.len() - i,
    {
        let ghost held = out@;
        out.push(v[i].clone());
        proof {
            lemma_views_push(held, out@.last());
            assert(views(v@).take(i as int + 1) =~= views(v@).take(i as int).push(views(v@)[i as int]));
        }
        i += 1;
    }
    proof {
        assert(views(v@).take(i as int) =~= views(v@));
    }
    out
}

/// The index that is recorded for an event at tick `index`, or
/// `None` where it does not fit in 32 bits.
fn stretched(index: u32, length: u32, count: u32) -> (r: Option<u32>)
    requires
        index >= 1,
        count > 0,
    ensures
        r.is_some() <==> stretch(index as nat, length as nat, count as nat) <= u32::MAX,
        r.is_some() ==> r.unwrap() as nat == stretch(index as nat, length as nat, count as nat),
{
    proof {
        assert((index - 1) * length <= 0xffff_ffff * 0xffff_ffff) by (nonlinear_arith)
            requires
                0 <= index - 1 <= 0xffff_ffff,
                0 <= length <= 0xffff_ffff,
        ;
        assert((index - 1) * length >= 0) by (nonlinear_arith)
            requires
                0 <= index - 1,
                0 <= length,
        ;
    }
    let scaled: u64 = ((index - 1) as u64) * (length as u64) / (count as u64);
    if scaled < 0xffff_ffff {
        Some((scaled + 1) as u32)
    } else {
        None
    }
}

/// Appends the events of the children `elements` of a group to `out`,
/// child `j` starting at `index + j * span`; `false` where an index
/// leaves the 32 bits.
fn timed_event(
    span: u32,
    out: &mut Vec<TimedEvent>,
    index: u32,
    elements: &Vec<Measure>,
    length: u32,
    count: u32,
) -> (r: bool)
    requires
        index >= 1,
        count > 0,
    ensures
        r == group_fits(views(elements@), index as nat, span as nat, length as nat, count as nat),
        r ==> views(final(out)@) == views(old(out)@) + group_steps(
            views(elements@),
            index as nat,
            span as nat,
            length as nat,
            count as nat,
        ),
    decreases elements,
{
    let ghost items = views(elements@);
    let ghost before = views(out@);
    let mut i: usize = 0;
    let mut at: u64 = index as u64;
    proof {
        assert(items.take(0) =~= Seq::<Tree>::empty());
        assert(before + Seq::<Step>::empty() =~= before);
        assert(0 * span == 0) by (nonlinear_arith);
    }
    while i < elements.len()
        invariant
            i <= elements.len(),
            items == views(elements@),
            index >= 1,
            count > 0,
            at as int == index + i * span,
            at <= 0x1_ffff_fffe,
            group_fits(items.take(i as int), index as nat, span as nat, length as nat, count as nat),
            views(out@) == before + group_steps(
                items.take(i as int),
                index as nat,
                span as nat,
                length as nat,
                count as nat,
            ),
        decreases elements.len() - i,
    {
        let ghost now = items.take(i as int + 1);
        let ghost so_far = group_steps(items.take(i as int), index as nat, span as nat, length as nat, count as nat);
        proof {
            assert(now.drop_last() =~= items.take(i as int));
            assert(now.last() == elements@[i as int]@);
            assert(now.len() - 1 == i);
            assert(i * span >= 0) by (nonlinear_arith)
                requires
                    i >= 0,
                    span >= 0,
            ;
            assert((i + 1) * span == i * span + span) by (nonlinear_arith);
        }
        if at > 0xffff_ffff {
            proof {
                assert(!group_fits(now, index as nat, span as nat, length as nat, count as nat));
                if group_fits(items, index as nat, span as nat, length as nat, count as nat) {
                    lemma_group_fits_prefix(
                        items,
                        i as int + 1,
                        index as nat,
                        span as nat,
                        length as nat,
                        count as nat,
                    );
                }
            }
            return false;
        }
        let here: u32 = at as u32;
        let fits = match &elements[i] {
            Measure::Event(event) => {
                if event.probability != 0 {
                    match stretched(here, length, count) {
                        Some(recorded) => {
                            let ghost held = out@;
                            out.push(TimedEvent { index: recorded, event: event.clone() });
                            proof {
                                lemma_views_push(held, out@.last());
                                assert((before + so_far).push(out@.last()@) =~= before + so_far.push(
                                    out@.last()@,
                                ));
                            }
                            true
                        },
                        None => false,
                    }
                } else {
                    true
                }
            },
            Measure::Group(xs) => {
                let inner: u32 = if xs.len() == 0 || xs.len() > span as usize {
                    0
                } else {
                    span / (xs.len() as u32)
                };
                proof {
                    vstd::std_specs::vec::axiom_vec_index_decreases(*elements, i as int);
                    crate::measure::lemma_measure_trees(xs@);
                    assert(elements@[i as int]@ == Tree::Node(views(xs@)));
                    if xs.len() > span as usize {
                        vstd::arithmetic::div_mod::lemma_basic_div(span as int, xs@.len() as int);
                    }
                    assert(inner as nat == child_span(span as nat, views(xs@).len()));
                }
                let inside = timed_event(inner, out, here, xs, length, count);
                proof {
                    if inside {
                        let part = group_steps(views(xs@), here as nat, inner as nat, length as nat, count as nat);
                        assert(before + so_far + part =~= before + (so_far + part));
                    }
                }
                inside
            },
        };
        if !fits {
            proof {
                assert(!group_fits(now, index as nat, span as nat, length as nat, count as nat));
                if group_fits(items, index as nat, span as nat, length as nat, count as nat) {
                    lemma_group_fits_prefix(
                        items,
                        i as int + 1,
                        index as nat,
                        span as nat,
                        length as nat,
                        count as nat,
                    );
                }
            }
            return false;
        }
        at = at + span as u64;
        i += 1;
    }
    proof {
        assert(items.take(i as int) =~= items);
    }
    true
}

impl Measure {
    /// The smallest grid on which every event of the measure starts on a
    /// tick of its own, or `None` where it cannot be worked out within
    /// 32 bits.
    pub fn checked_subdivision(&self) -> (r: Option<u32>)
        ensures
            r.is_some() <==> measure_grid_fits(self@),
            r.is_some() ==> r.unwrap() as nat == measure_grid(self@),
    {
        match self {
            Measure::Event(_) => Some(1),
            Measure::Group(elements) => {
                proof {
                    lemma_measure_trees(elements@);
                    assert(views(elements@).len() == elements@.len());
                }
                if elements.len() > 0xffff_ffff {
                    return None;
                }
                Self::recurse_tree(elements.len() as u32, 1, elements)
            },
        }
    }

    /// The smallest grid on which every event of the measure starts on a
    /// tick of its own.
    pub fn subdivision(&self) -> (r: u32)
        requires
            measure_grid_fits(self@),
        ensures
            r as nat == measure_grid(self@),
    {
        match self.checked_subdivision() {
            Some(g) => g,
            None => 1,
        }
    }

    /// The least common multiple of `acc_lcm` and the branching of every
    /// event among `elements`, the children of a group with the
    /// branching `value`.
    pub fn recurse_tree(value: u32, acc_lcm: u32, elements: &Vec<Measure>) -> (r: Option<u32>)
        ensures
            r.is_some() <==> group_grid_fits(views(elements@), value as nat, acc_lcm as nat),
            r.is_some() ==> r.unwrap() as nat == group_grid(views(elements@), value as nat, acc_lcm as nat),
        decreases elements,
    {
        let ghost items = views(elements@);
        let mut l: u32 = acc_lcm;
        let mut i: usize = 0;
        proof {
            assert(items.take(0) =~= Seq::<Tree>::empty());
        }
        while i < elements.len()
            invariant
                i <= elements.len(),
                items == views(elements@),
                group_grid_fits(items.take(i as int), value as nat, acc_lcm as nat),
                l as nat == group_grid(items.take(i as int), value as nat, acc_lcm as nat),
            decreases elements.len() - i,
        {
            let ghost now = items.take(i as int + 1);
            proof {
                assert(now.drop_last() =~= items.take(i as int));
                assert(now.last() == elements@[i as int]@);
            }
            let next = match &elements[i] {
                Measure::Event(_) => checked_lcm(l, value),
                Measure::Group(xs) => {
                    proof {
                        vstd::std_specs::vec::axiom_vec_index_decreases(*elements, i as int);
                        lemma_measure_trees(xs@);
                        assert(elements@[i as int]@ == Tree::Node(views(xs@)));
                        assert(views(xs@).len() == xs@.len());
                        assert(0 <= value * xs@.len()) by (nonlinear_arith)
                            requires
                                0 <= value,
                                0 <= xs@.len(),
                        ;
                    }
                    if xs.len() > 0xffff_ffff {
                        proof {
                            if value > 0 {
                                assert(value * xs@.len() > 0xffff_ffff) by (nonlinear_arith)
                                    requires
                                        value >= 1,
                                        xs@.len() > 0xffff_ffff,
                                ;
                            }
                        }
                        if value == 0 {
                            Self::recurse_tree(0, l, xs)
                        } else {
                            None
                        }
                    } else {
                        proof {
                            assert(value * xs@.len() <= 0xffff_ffff * 0xffff_ffff) by (nonlinear_arith)
                                requires
                                    0 <= value <= 0xffff_ffff,
                                    0 <= xs@.len() <= 0xffff_ffff,
                            ;
                        }
                        let product: u64 = (value as u64) * (xs.len() as u64);
                        if product > 0xffff_ffff {
                            None
                        } else {
                            Self::recurse_tree(product as u32, l, xs)
                        }
                    }
                },
            };
            match next {
                Some(n) => {
                    l = n;
                },
                None => {
                    proof {
                        assert(!group_grid_fits(now, value as nat, acc_lcm as nat));
                        if group_grid_fits(items, value as nat, acc_lcm as nat) {
                            lemma_group_grid_fits_prefix(items, i as int + 1, value as nat, acc_lcm as nat);
                        }
                    }
                    return None;
                },
            }
            i += 1;
        }
        proof {
            assert(items.take(i as int) =~= items);
        }
        Some(l)
    }

    /// Every index of the measure stays within 32 bits.
    pub open spec fn in_range(&self, start: u32, length: u32, count: u32, subdivision: u32) -> bool {
        measure_fits(self@, start as nat, subdivision as nat, length as nat, count as nat)
    }

    /// The events of the measure that sound, each with its tick, where
    /// the measure starts at `start` on a grid of `subdivision` ticks and
    /// `count` measures are laid out over `length`; `None` where an index
    /// leaves the 32 bits.
    pub fn checked_timed_events(&self, start: u32, length: u32, count: u32, subdivision: u32) -> (r: Option<
        Vec<TimedEvent>,
    >)
        requires
            start >= 1,
            count > 0,
        ensures
            r.is_some() <==> self.in_range(start, length, count, subdivision),
            r.is_some() ==> views(r.unwrap()@) == measure_steps(
                self@,
                start as nat,
                subdivision as nat,
                length as nat,
                count as nat,
            ),
    {
        let mut out: Vec<TimedEvent> = Vec::new();
        proof {
            assert(views(out@) =~= Seq::<Step>::empty());
        }
        match self {
            Measure::Event(event) => {
                if event.probability != 0 {
                    out.push(TimedEvent { index: 1, event: event.clone() });
                    proof {
                        assert(views(out@) =~= seq![out@[0]@]);
                    }
                }
                Some(out)
            },
            Measure::Group(measures) => {
                let span: u32 = if measures.len() == 0 || measures.len() > subdivision as usize {
                    0
                } else {
                    subdivision / (measures.len() as u32)
                };
                proof {
                    lemma_measure_trees(measures@);
                    if measures.len() > subdivision as usize {
                        vstd::arithmetic::div_mod::lemma_basic_div(subdivision as int, measures@.len() as int);
                    }
                    assert(span as nat == child_span(subdivision as nat, views(measures@).len()));
                }
                if timed_event(span, &mut out, start, measures, length, count) {
                    proof {
                        let part = group_steps(
                            views(measures@),
                            start as nat,
                            span as nat,
                            length as nat,
                            count as nat,
                        );
                        assert(Seq::<Step>::empty() + part =~= part);
                    }
                    Some(out)
                } else {
                    None
                }
            },
        }
    }

    /// The events of the measure that sound, each with its tick.
    pub fn timed_events(&self, start: u32, length: u32, count: u32, subdivision: u32) -> (r: Vec<TimedEvent>)
        requires
            start >= 1,
            count > 0,
            self.in_range(start, length, count, subdivision),
        ensures
            views(r@) == measure_steps(self@, start as nat, subdivision as nat, length as nat, count as nat),
    {
        match self.checked_timed_events(start, length, count, subdivision) {
            Some(v) => v,
            None => Vec::new(),
        }
    }
}

} // verus!
