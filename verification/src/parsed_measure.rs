use crate::measure::{lemma_measure_trees, Event, Measure};
use crate::model::{
    all_fit, all_plain, all_well_formed, arity_parts, cycle, lemma_plain_child, lemma_resolve_plain,
    lemma_views_push, lemma_well_formed_child, resolve_each, rounds, splice, stream, unroll, unrollable,
    views, window, windows, Piece, Tree,
};
use crate::primitives::{Alternate, ParsedEvent};
use crate::utils::{as_nats, checked_lcm_vec, lcm_vec};
use vstd::prelude::*;

verus! {

/// One slot: an event, or an alternation between options.
#[derive(Debug, PartialEq)]
pub enum Single {
    Event(ParsedEvent),
    Alternate(Alternate),
}

impl View for Single {
    type V = Tree;

    open spec fn view(&self) -> Tree {
        match self {
            Single::Event(e) => e@,
            Single::Alternate(a) => a@,
        }
    }
}

impl Clone for Single {
    fn clone(&self) -> (r: Self)
        ensures
            r@ == self@,
    {
        match self {
            Single::Event(e) => Single::Event(e.clone()),
            Single::Alternate(a) => Single::Alternate(a.clone()),
        }
    }
}

impl Single {
    /// The rest.
    pub fn empty() -> (r: Self)
        ensures
            r@ == Tree::rest(),
    {
        Single::Event(ParsedEvent::empty())
    }
}

/// A measure as it is written, before its alternations are unrolled.
#[derive(Debug, PartialEq)]
pub enum ParsedMeasure {
    Single(Single),
    Group(Vec<ParsedMeasure>),
}

/// The trees of the items of `s`, in order.
pub open spec fn parsed_trees(s: Seq<ParsedMeasure>) -> Seq<Tree>
    decreases s,
{
    Seq::new(s.len(), |k: int| if 0 <= k < s.len() { s[k].tree() } else { Tree::rest() })
}

impl ParsedMeasure {
    /// The tree that this value stands for.
    pub open spec fn tree(&self) -> Tree
        decreases self,
    {
        match self {
            ParsedMeasure::Single(s) => s@,
            ParsedMeasure::Group(v) => Tree::Node(parsed_trees(v@)),
        }
    }
}

impl View for ParsedMeasure {
    type V = Tree;

    open spec fn view(&self) -> Tree {
        self.tree()
    }
}

impl Clone for ParsedMeasure {
    fn clone(&self) -> (r: Self)
        ensures
            r@ == self@,
        decreases self,
    {
        match self {
            ParsedMeasure::Single(s) => ParsedMeasure::Single(s.clone()),
            ParsedMeasure::Group(v) => {
                let mut out: Vec<ParsedMeasure> = Vec::new();
                let mut i: usize = 0;
                while i < v.len()
                    invariant
                        *self == ParsedMeasure::Group(*v),
                        i <= v.len(),
                        out@.len() == i,
                        forall|j: int| 0 <= j < i ==> (#[trigger] out@[j])@ == v@[j]@,
                    decreases v.len() - i,
                {
                    proof {
                        assert(self->Group_0 == *v);
                    }
                    out.push(v[i].clone());
                    i += 1;
                }
                let r = ParsedMeasure::Group(out);
                proof {
                    assert(parsed_trees(out@) =~= parsed_trees(v@));
                }
                r
            },
        }
    }
}

/// The trees of parsed measures are their views.
pub proof fn lemma_parsed_trees(s: Seq<ParsedMeasure>)
    ensures
        parsed_trees(s) == views(s),
{
    assert(parsed_trees(s) =~= views(s));
}

/// The same numbers, as naturals.
pub open spec fn sizes(s: Seq<usize>) -> Seq<nat> {
    Seq::new(s.len(), |i: int| s[i] as nat)
}

/// An event as it is written: `~` is the rest, any other value an event
/// with the given chance.
pub open spec fn written(value: Seq<char>, probability: nat) -> Tree {
    if value == seq!['~'] {
        Tree::rest()
    } else {
        Tree::Leaf { value, probability }
    }
}

/// Whether `value` is the one character `~`.
fn is_tilde(value: &str) -> (r: bool)
    ensures
        r == (value@ == seq!['~']),
{
    let r = value.unicode_len() == 1 && value.get_char(0) == '~';
    proof {
        if r {
            assert(value@ =~= seq!['~']);
        }
    }
    r
}

/// A copy of each parsed measure of `v`.
pub fn clone_parsed(v: &Vec<ParsedMeasure>) -> (out: Vec<ParsedMeasure>)
    ensures
        views(out@) == views(v@),
{
    let mut out: Vec<ParsedMeasure> = Vec::new();
    let mut i: usize = 0;
    while i < v.len()
        invariant
            i <= v.len(),
            views(out@) == views(v@).take(i as int),
        decreases v.len() - i,
    {
        let ghost held = out@;
        out.push(v[i].clone());
        proof {
            lemma_views_push(held, out@.last());
            assert(views(v@).take(i as int + 1) =~= views(v@).take(i as int).push(views(v@)[i as int]));
        }
        i += 1;
    }
    proof {
        assert(views(v@).take(i as int) =~= views(v@));
    }
    out
}

impl ParsedMeasure {
    /// The concrete measures that this measure stands for: one for each
    /// turn of the cycle of its alternations.
    pub fn to_measures(&self) -> (r: Vec<Measure>)
        requires
            self@.well_formed(),
            unrollable(self@),
        ensures
            views(r@) == unroll(self@),
    {
        let n = lcm_vec(&self.count_replications());
        let mut out: Vec<Measure> = Vec::new();
        let mut i: usize = 0;
        while i < n as usize
            invariant
                self@.well_formed(),
                n as nat == cycle(self@),
                i <= n,
                views(out@) == unroll(self@).take(i as int),
            decreases n - i,
        {
            let resolved = Self::expand_rec(self, i);
            proof {
                lemma_resolve_plain(self@, i as nat);
            }
            let ghost held = out@;
            out.push(Self::out(&resolved));
            proof {
                lemma_views_push(held, out@.last());
                assert(unroll(self@).take(i as int + 1) =~= unroll(self@).take(i as int).push(
                    self@.resolve(i as nat),
                ));
            }
            i += 1;
        }
        proof {
            assert(unroll(self@).take(i as int) =~= unroll(self@));
        }
        out
    }

    /// After how many turns the alternations of this measure start again,
    /// or `None` where the measure cannot be unrolled within 32 bits.
    pub fn checked_cycle(&self) -> (r: Option<u32>)
        ensures
            r.is_some() <==> unrollable(self@),
            r.is_some() ==> r.unwrap() as nat == cycle(self@),
    {
        let list = self.arity_list();
        let mut small: Vec<u32> = Vec::new();
        let mut i: usize = 0;
        while i < list.len()
            invariant
                i <= list.len(),
                sizes(list@) == self@.arities(),
                as_nats(small@) == sizes(list@).take(i as int),
            decreases list.len() - i,
        {
            if list[i] > 0xffff_ffff {
                proof {
                    assert(sizes(list@)[i as int] > u32::MAX);
                }
                return None;
            }
            let ghost held = small@;
            small.push(list[i] as u32);
            proof {
                assert(as_nats(small@) =~= as_nats(held).push(list@[i as int] as nat));
                assert(sizes(list@).take(i as int + 1) =~= sizes(list@).take(i as int).push(
                    sizes(list@)[i as int],
                ));
            }
            i += 1;
        }
        proof {
            assert(sizes(list@).take(i as int) =~= sizes(list@));
            assert forall|k: int| 0 <= k < self@.arities().len() implies #[trigger] self@.arities()[k]
                <= u32::MAX by {
                assert(as_nats(small@)[k] == self@.arities()[k]);
            }
        }
        checked_lcm_vec(&small)
    }

    /// The number of options of each alternation, in the order in which
    /// they are written.
    pub fn arity_list(&self) -> (r: Vec<usize>)
        ensures
            sizes(r@) == self@.arities(),
    {
        let mut reps: Vec<usize> = Vec::new();
        proof {
            assert(sizes(reps@) =~= Seq::<nat>::empty());
        }
        Self::_count_replications(&mut reps, self);
        proof {
            assert(Seq::<nat>::empty() + self@.arities() =~= self@.arities());
        }
        reps
    }

    /// The number of options of each alternation, where each fits in 32
    /// bits.
    pub fn count_replications(&self) -> (r: Vec<u32>)
        requires
            all_fit(self@.arities()),
        ensures
            as_nats(r@) == self@.arities(),
    {
        let list = self.arity_list();
        let mut small: Vec<u32> = Vec::new();
        let mut i: usize = 0;
        while i < list.len()
            invariant
                i <= list.len(),
                all_fit(self@.arities()),
                sizes(list@) == self@.arities(),
                as_nats(small@) == sizes(list@).take(i as int),
            decreases list.len() - i,
        {
            proof {
                assert(sizes(list@)[i as int] <= u32::MAX);
            }
            let ghost held = small@;
            small.push(list[i] as u32);
            proof {
                assert(as_nats(small@) =~= as_nats(held).push(list@[i as int] as nat));
                assert(sizes(list@).take(i as int + 1) =~= sizes(list@).take(i as int).push(
                    sizes(list@)[i as int],
                ));
            }
            i += 1;
        }
        proof {
            assert(sizes(list@).take(i as int) =~= sizes(list@));
        }
        small
    }

    /// Appends the arities of `p` to `acc`.
    pub fn _count_replications(acc: &mut Vec<usize>, p: &ParsedMeasure)
        ensures
            sizes(final(acc)@) == sizes(old(acc)@) + p@.arities(),
        decreases p,
    {
        let ghost before = sizes(acc@);
        match p {
            ParsedMeasure::Single(Single::Alternate(x)) => {
                let ghost held = acc@;
                acc.push(x.0.len());
                proof {
                    assert(sizes(acc@) =~= sizes(held) + seq![x.0@.len() as nat]);
                }
            },
            ParsedMeasure::Group(pms) => {
                let ghost parts = arity_parts(parsed_trees(pms@));
                let mut i: usize = 0;
                proof {
                    assert(parts.take(0) =~= Seq::<Seq<nat>>::empty());
                    assert(before + parts.take(0).flatten() =~= before);
                }
                while i < pms.len()
                    invariant
                        *p == ParsedMeasure::Group(*pms),
                        i <= pms.len(),
                        parts == arity_parts(parsed_trees(pms@)),
                        sizes(acc@) == before + parts.take(i as int).flatten(),
                    decreases pms.len() - i,
                {
                    proof {
                        assert(p->Group_0 == *pms);
                    }
                    Self::_count_replications(acc, &pms[i]);
                    proof {
                        assert(parts.take(i as int + 1) =~= parts.take(i as int).push(parts[i as int]));
                        parts.take(i as int).lemma_flatten_push(parts[i as int]);
                        assert(parts[i as int] == pms@[i as int]@.arities());
                        assert(before + parts.take(i as int).flatten() + parts[i as int] =~= before
                            + parts.take(i as int + 1).flatten());
                    }
                    i += 1;
                }
                proof {
                    assert(parts.take(i as int) =~= parts);
                }
            },
            _ => {
                proof {
                    assert(before + Seq::<nat>::empty() =~= before);
                }
            },
        }
    }

    /// The same tree as a concrete measure; a tree with an alternation in
    /// it has none.
    pub fn out(parsed_measure: &ParsedMeasure) -> (r: Measure)
        requires
            parsed_measure@.plain(),
        ensures
            r@ == parsed_measure@,
        decreases parsed_measure,
    {
        match parsed_measure {
            ParsedMeasure::Single(Single::Event(n)) => Measure::Event(
                Event { value: n.value.clone(), probability: n.probability as u32 },
            ),
            ParsedMeasure::Single(Single::Alternate(_)) => {
                proof {
                    assert(false);
                }
                Measure::Group(Vec::new())
            },
            ParsedMeasure::Group(x) => {
                let mut nested: Vec<Measure> = Vec::new();
                let mut i: usize = 0;
                while i < x.len()
                    invariant
                        *parsed_measure == ParsedMeasure::Group(*x),
                        parsed_measure@.plain(),
                        i <= x.len(),
                        views(nested@) == views(x@).take(i as int),
                    decreases x.len() - i,
                {
                    proof {
                        assert(parsed_measure->Group_0 == *x);
                        assert(parsed_measure@ == Tree::Node(parsed_trees(x@)));
                        lemma_plain_child(parsed_trees(x@), i as int);
                    }
                    let ghost held = nested@;
                    nested.push(Self::out(&x[i]));
                    proof {
                        lemma_views_push(held, nested@.last());
                        assert(views(x@).take(i as int + 1) =~= views(x@).take(i as int).push(
                            views(x@)[i as int],
                        ));
                    }
                    i += 1;
                }
                let r = Measure::Group(nested);
                proof {
                    assert(views(x@).take(i as int) =~= views(x@));
                    lemma_measure_trees(nested@);
                    lemma_parsed_trees(x@);
                }
                r
            },
        }
    }

    /// Each measure of `replicated` on the turn of the cycle that its
    /// place in the list gives.
    pub fn expand_alternate(replicated: &Vec<ParsedMeasure>) -> (r: Vec<ParsedMeasure>)
        requires
            all_well_formed(views(replicated@)),
        ensures
            r@.len() == replicated@.len(),
            forall|i: int| 0 <= i < r@.len() ==> (#[trigger] r@[i])@ == replicated@[i]@.resolve(i as nat),
    {
        let mut out: Vec<ParsedMeasure> = Vec::new();
        let mut i: usize = 0;
        while i < replicated.len()
            invariant
                all_well_formed(views(replicated@)),
                i <= replicated.len(),
                out@.len() == i,
                forall|k: int| 0 <= k < i ==> (#[trigger] out@[k])@ == replicated@[k]@.resolve(k as nat),
            decreases replicated.len() - i,
        {
            proof {
                assert(views(replicated@)[i as int].well_formed());
            }
            out.push(Self::expand_rec(&replicated[i], i));
            i += 1;
        }
        out
    }

    /// The measure on turn `iter` of the cycle: each alternation gives
    /// way to the option of that turn.
    pub fn expand_rec(pm: &ParsedMeasure, iter: usize) -> (r: ParsedMeasure)
        requires
            pm@.well_formed(),
        ensures
            r@ == pm@.resolve(iter as nat),
        decreases pm,
    {
        match pm {
            ParsedMeasure::Single(Single::Event(e)) => ParsedMeasure::Single(Single::Event(e.clone())),
            ParsedMeasure::Single(Single::Alternate(an)) => an.next(iter).to_parsed_measure(),
            ParsedMeasure::Group(x) => {
                let mut out: Vec<ParsedMeasure> = Vec::new();
                let ghost goal = resolve_each(parsed_trees(x@), iter as nat);
                let mut i: usize = 0;
                while i < x.len()
                    invariant
                        *pm == ParsedMeasure::Group(*x),
                        pm@.well_formed(),
                        i <= x.len(),
                        goal == resolve_each(parsed_trees(x@), iter as nat),
                        views(out@) == goal.take(i as int),
                    decreases x.len() - i,
                {
                    proof {
                        assert(pm->Group_0 == *x);
                        assert(pm@ == Tree::Node(parsed_trees(x@)));
                        lemma_well_formed_child(parsed_trees(x@), i as int);
                    }
                    let ghost held = out@;
                    out.push(Self::expand_rec(&x[i], iter));
                    proof {
                        lemma_views_push(held, out@.last());
                        assert(goal.take(i as int + 1) =~= goal.take(i as int).push(goal[i as int]));
                    }
                    i += 1;
                }
                let r = ParsedMeasure::Group(out);
                proof {
                    assert(goal.take(i as int) =~= goal);
                    lemma_parsed_trees(out@);
                }
                r
            },
        }
    }

    /// The alternation between the given events, each written as a value
    /// and, where it has one, its chance; without one an event always
    /// sounds.
    pub fn alternate(value: Vec<(&str, Option<u8>)>) -> (r: Self)
        ensures
            r@ == Tree::Alt(
                Seq::new(
                    value@.len(),
                    |i: int|
                        written(
                            value@[i].0@,
                            match value@[i].1 {
                                Some(p) => p as nat,
                                None => 100,
                            },
                        ),
                ),
            ),
    {
        let ghost goal = Seq::new(
            value@.len(),
            |i: int|
                written(
                    value@[i].0@,
                    match value@[i].1 {
                        Some(p) => p as nat,
                        None => 100,
                    },
                ),
        );
        let mut events: Vec<ParsedMeasure> = Vec::new();
        let mut i: usize = 0;
        while i < value.len()
            invariant
                i <= value.len(),
                goal.len() == value@.len(),
                forall|k: int|
                    0 <= k < goal.len() ==> #[trigger] goal[k] == written(
                        value@[k].0@,
                        match value@[k].1 {
                            Some(p) => p as nat,
                            None => 100,
                        },
                    ),
                views(events@) == goal.take(i as int),
            decreases value.len() - i,
        {
            let pair = &value[i];
            let event = match pair.1 {
                Some(p) => Self::event_with_probability(pair.0, p),
                None => Self::event(pair.0),
            };
            let ghost held = events@;
            events.push(event);
            proof {
                lemma_views_push(held, events@.last());
                assert(goal.take(i as int + 1) =~= goal.take(i as int).push(goal[i as int]));
            }
            i += 1;
        }
        proof {
            assert(goal.take(i as int) =~= goal);
            assert forall|k: int| 0 <= k < goal.len() implies (#[trigger] goal[k]).plain() by {}
        }
        Self::Single(Single::Alternate(Alternate::from_parsed_measures(&events)))
    }

    /// An event that always sounds; `~` is the rest.
    pub fn event(value: &str) -> (r: Self)
        ensures
            r@ == written(value@, 100),
    {
        if is_tilde(value) {
            Self::Single(Single::Event(ParsedEvent::empty()))
        } else {
            Self::Single(Single::Event(ParsedEvent { value: String::from_str(value), probability: 100 }))
        }
    }

    /// An event that sounds with the given chance; `~` is the rest.
    pub fn event_with_probability(value: &str, probability: u8) -> (r: Self)
        ensures
            r@ == written(value@, probability as nat),
    {
        if is_tilde(value) {
            Self::Single(Single::Event(ParsedEvent::empty()))
        } else {
            Self::Single(Single::Event(ParsedEvent { value: String::from_str(value), probability }))
        }
    }
}

/// A polymetric block: symbols that are read in windows of a length of
/// their own.
#[derive(Debug, PartialEq)]
pub struct Polymetric {
    pub elements: Vec<ParsedMeasure>,
    pub length: u32,
}

impl Clone for Polymetric {
    fn clone(&self) -> (r: Self)
        ensures
            views(r.elements@) == views(self.elements@),
            r.length == self.length,
    {
        Polymetric { elements: clone_parsed(&self.elements), length: self.length }
    }
}

impl Polymetric {
    /// The block can be unrolled: it has symbols, its windows have a
    /// length, and the cycle of its alternations fits in 32 bits.
    pub open spec fn unrollable(&self) -> bool {
        &&& self.elements@.len() > 0
        &&& self.length > 0
        &&& unrollable(Tree::Node(views(self.elements@)))
    }

    /// The measures of the block.
    pub open spec fn unrolled(&self) -> Seq<Tree> {
        windows(stream(views(self.elements@)), self.length as nat)
    }

    /// The concrete measures that the block stands for: its symbols on
    /// each turn of their cycle, one turn after the other, cut into
    /// windows.
    pub fn to_measures(&self) -> (r: Vec<Measure>)
        requires
            all_well_formed(views(self.elements@)),
            self.unrollable(),
        ensures
            views(r@) == self.unrolled(),
    {
        let group = ParsedMeasure::Group(clone_parsed(&self.elements));
        proof {
            lemma_parsed_trees(group->Group_0@);
            assert(group@ == Tree::Node(views(self.elements@)));
        }
        let n = lcm_vec(&group.count_replications());
        let mut replicated: Vec<ParsedMeasure> = Vec::new();
        let mut i: usize = 0;
        while i < n as usize
            invariant
                i <= n,
                replicated@.len() == i,
                forall|k: int| 0 <= k < i ==> (#[trigger] replicated@[k])@ == group@,
            decreases n - i,
        {
            replicated.push(group.clone());
            i += 1;
        }
        proof {
            assert forall|k: int| 0 <= k < replicated@.len() implies (#[trigger] views(
                replicated@,
            )[k]).well_formed() by {
                assert(replicated@[k]@ == group@);
            }
        }
        let expanded = Self::expand_alternate(&replicated);
        let flat = Self::extract_and_flatten(&expanded);
        proof {
            let elements = views(self.elements@);
            let parts = Seq::new(
                views(expanded@).len(),
                |k: int|
                    match views(expanded@)[k] {
                        Tree::Node(xs) => xs,
                        other => seq![other],
                    },
            );
            assert forall|k: int| 0 <= k < parts.len() implies parts[k] == #[trigger] rounds(
                elements,
                n as nat,
            )[k] by {
                assert(expanded@[k]@ == replicated@[k]@.resolve(k as nat));
                assert(replicated@[k]@ == group@);
            }
            assert(parts =~= rounds(elements, n as nat));
            assert(views(flat@) == stream(elements));
            lemma_stream_len(elements, n as nat);
            assert(Tree::Node(elements).well_formed());
            crate::model::lemma_cycle_positive(Tree::Node(elements));
            assert(n as nat * elements.len() > 0) by (nonlinear_arith)
                requires
                    n as nat > 0,
                    elements.len() > 0,
            ;
            assert(flat@.len() == views(flat@).len());
        }
        let measures = Self::expand_polymetric(&flat, self.length as usize);
        let mut out: Vec<Measure> = Vec::new();
        let mut j: usize = 0;
        while j < measures.len()
            invariant
                j <= measures.len(),
                views(measures@) == self.unrolled(),
                all_plain(views(measures@)),
                views(out@) == views(measures@).take(j as int),
            decreases measures.len() - j,
        {
            proof {
                assert(views(measures@)[j as int].plain());
            }
            let ghost held = out@;
            out.push(Self::out(&measures[j]));
            proof {
                lemma_views_push(held, out@.last());
                assert(views(measures@).take(j as int + 1) =~= views(measures@).take(j as int).push(
                    views(measures@)[j as int],
                ));
            }
            j += 1;
        }
        proof {
            assert(views(measures@).take(j as int) =~= views(measures@));
        }
        out
    }

    /// After how many turns the alternations of the block start again, or
    /// `None` where the block cannot be unrolled.
    pub fn checked_cycle(&self) -> (r: Option<u32>)
        ensures
            r.is_some() <==> self.unrollable(),
            r.is_some() ==> r.unwrap() as nat == cycle(Tree::Node(views(self.elements@))),
    {
        if self.elements.len() == 0 || self.length == 0 {
            return None;
        }
        let group = ParsedMeasure::Group(clone_parsed(&self.elements));
        proof {
            lemma_parsed_trees(group->Group_0@);
            assert(group@ == Tree::Node(views(self.elements@)));
        }
        group.checked_cycle()
    }

    /// The measures of `elements` in one list: each group gives its
    /// children, each other measure itself.
    pub fn extract_and_flatten(elements: &Vec<ParsedMeasure>) -> (out: Vec<ParsedMeasure>)
        ensures
            views(out@) == splice(views(elements@)),
    {
        let ghost parts = Seq::new(
            views(elements@).len(),
            |i: int|
                match views(elements@)[i] {
                    Tree::Node(xs) => xs,
                    other => seq![other],
                },
        );
        let mut out: Vec<ParsedMeasure> = Vec::new();
        let mut i: usize = 0;
        proof {
            assert(parts.take(0) =~= Seq::<Seq<Tree>>::empty());
            assert(views(out@) =~= parts.take(0).flatten());
        }
        while i < elements.len()
            invariant
                i <= elements.len(),
                parts.len() == elements@.len(),
                forall|k: int|
                    0 <= k < parts.len() ==> #[trigger] parts[k] == match views(elements@)[k] {
                        Tree::Node(xs) => xs,
                        other => seq![other],
                    },
                views(out@) == parts.take(i as int).flatten(),
            decreases elements.len() - i,
        {
            let ghost start = views(out@);
            match &elements[i] {
                ParsedMeasure::Single(s) => {
                    let ghost held = out@;
                    out.push(ParsedMeasure::Single(s.clone()));
                    proof {
                        lemma_views_push(held, out@.last());
                        assert(start.push(elements@[i as int]@) =~= start + parts[i as int]);
                    }
                },
                ParsedMeasure::Group(x) => {
                    let mut j: usize = 0;
                    while j < x.len()
                        invariant
                            j <= x.len(),
                            views(out@) == start + views(x@).take(j as int),
                        decreases x.len() - j,
                    {
                        let ghost held = out@;
                        out.push(x[j].clone());
                        proof {
                            lemma_views_push(held, out@.last());
                            assert(start + views(x@).take(j as int + 1) =~= (start + views(x@).take(
                                j as int,
                            )).push(views(x@)[j as int]));
                        }
                        j += 1;
                    }
                    proof {
                        assert(views(x@).take(j as int) =~= views(x@));
                        lemma_parsed_trees(x@);
                        assert(elements@[i as int]@ == Tree::Node(parsed_trees(x@)));
                    }
                },
            }
            proof {
                assert(parts.take(i as int + 1) =~= parts.take(i as int).push(parts[i as int]));
                parts.take(i as int).lemma_flatten_push(parts[i as int]);
            }
            i += 1;
        }
        proof {
            assert(parts.take(i as int) =~= parts);
            assert(parts =~= Seq::new(
                views(elements@).len(),
                |i: int|
                    match views(elements@)[i] {
                        Tree::Node(xs) => xs,
                        other => seq![other],
                    },
            ));
        }
        out
    }

    /// Each measure of `replicated` on the turn of the cycle that its
    /// place in the list gives.
    pub fn expand_alternate(replicated: &Vec<ParsedMeasure>) -> (r: Vec<ParsedMeasure>)
        requires
            all_well_formed(views(replicated@)),
        ensures
            r@.len() == replicated@.len(),
            forall|i: int| 0 <= i < r@.len() ==> (#[trigger] r@[i])@ == replicated@[i]@.resolve(i as nat),
    {
        let mut out: Vec<ParsedMeasure> = Vec::new();
        let mut i: usize = 0;
        while i < replicated.len()
            invariant
                all_well_formed(views(replicated@)),
                i <= replicated.len(),
                out@.len() == i,
                forall|k: int| 0 <= k < i ==> (#[trigger] out@[k])@ == replicated@[k]@.resolve(k as nat),
            decreases replicated.len() - i,
        {
            proof {
                assert(views(replicated@)[i as int].well_formed());
            }
            out.push(Self::rec(&replicated[i], i));
            i += 1;
        }
        out
    }

    /// The measure on turn `iter` of the cycle.
    pub fn rec(pm: &ParsedMeasure, iter: usize) -> (r: ParsedMeasure)
        requires
            pm@.well_formed(),
        ensures
            r@ == pm@.resolve(iter as nat),
    {
        ParsedMeasure::expand_rec(pm, iter)
    }

    /// The endless repetition of `elements` cut into windows of `length`
    /// symbols, as many as the two lengths call for.
    pub fn expand_polymetric(elements: &Vec<ParsedMeasure>, length: usize) -> (r: Vec<ParsedMeasure>)
        requires
            elements@.len() > 0,
            length > 0,
            all_plain(views(elements@)),
        ensures
            views(r@) == windows(views(elements@), length as nat),
            all_plain(views(r@)),
    {
        let elements_len = elements.len();
        let number_of_measures = if elements_len % length != 0 && length % elements_len != 0 {
            elements_len
        } else {
            if elements_len <= length {
                1
            } else {
                elements_len / length
            }
        };
        let ghost flat = views(elements@);
        let ghost goal = windows(flat, length as nat);
        let mut out: Vec<ParsedMeasure> = Vec::new();
        let mut i: usize = 0;
        let mut w: usize = 0;
        while w < number_of_measures
            invariant
                elements_len == elements@.len(),
                elements_len > 0,
                length > 0,
                flat == views(elements@),
                all_plain(flat),
                goal == windows(flat, length as nat),
                goal.len() == number_of_measures,
                w <= number_of_measures,
                i < elements_len,
                i as int == (w * length) % (elements_len as int),
                views(out@) == goal.take(w as int),
            decreases number_of_measures - w,
        {
            let ghost row = Seq::new(
                length as nat,
                |j: int| flat[(w * length + j) % (elements_len as int)],
            );
            let mut internal: Vec<ParsedMeasure> = Vec::new();
            let mut j: usize = 0;
            while j < length
                invariant
                    elements_len == elements@.len(),
                    elements_len > 0,
                    flat == views(elements@),
                    all_plain(flat),
                    j <= length,
                    i < elements_len,
                    i as int == (w * length + j) % (elements_len as int),
                    row.len() == length,
                    forall|k: int|
                        0 <= k < length ==> #[trigger] row[k] == flat[(w * length + k) % (
                        elements_len as int)],
                    views(internal@) == row.take(j as int),
                decreases length - j,
            {
                let ghost held = internal@;
                internal.push(Self::next(elements, i));
                proof {
                    lemma_views_push(held, internal@.last());
                    vstd::arithmetic::div_mod::lemma_small_mod(i as nat, elements_len as nat);
                    assert(row.take(j as int + 1) =~= row.take(j as int).push(row[j as int]));
                    vstd::arithmetic::div_mod::lemma_add_mod_noop(
                        w * length + j,
                        1,
                        elements_len as int,
                    );
                    if i + 1 < elements_len {
                        vstd::arithmetic::div_mod::lemma_small_mod((i + 1) as nat, elements_len as nat);
                    } else {
                        vstd::arithmetic::div_mod::lemma_mod_self_0(elements_len as int);
                    }
                    if elements_len > 1 {
                        vstd::arithmetic::div_mod::lemma_small_mod(1, elements_len as nat);
                    }
                }
                i = if i + 1 == elements_len {
                    0
                } else {
                    i + 1
                };
                j += 1;
            }
            proof {
                assert(row.take(j as int) =~= row);
                assert((w + 1) * length == w * length + length) by (nonlinear_arith);
                lemma_parsed_trees(internal@);
                assert(goal[w as int] == window(flat, length as nat, w as nat));
                assert(row =~= window(flat, length as nat, w as nat)->Node_0);
            }
            let ghost held = out@;
            out.push(ParsedMeasure::Group(internal));
            proof {
                lemma_views_push(held, out@.last());
                assert(goal.take(w as int + 1) =~= goal.take(w as int).push(goal[w as int]));
            }
            w += 1;
        }
        proof {
            assert(goal.take(w as int) =~= goal);
            assert forall|k: int| 0 <= k < goal.len() implies (#[trigger] goal[k]).plain() by {
                let row = window(flat, length as nat, k as nat)->Node_0;
                assert forall|j: int| 0 <= j < row.len() implies (#[trigger] row[j]).plain() by {
                    let at = (k * length + j) % (elements_len as int);
                    vstd::arithmetic::div_mod::lemma_mod_bound(k * length + j, elements_len as int);
                    assert(flat[at].plain());
                }
            }
        }
        out
    }

    /// The item at place `i` of the endless repetition of `v`.
    pub fn next(v: &Vec<ParsedMeasure>, i: usize) -> (r: ParsedMeasure)
        requires
            v@.len() > 0,
        ensures
            r@ == views(v@)[(i as int) % (v@.len() as int)],
    {
        let index = i % v.len();
        v[index].clone()
    }

    /// The same tree as a concrete measure.
    pub fn out(parsed_measure: &ParsedMeasure) -> (r: Measure)
        requires
            parsed_measure@.plain(),
        ensures
            r@ == parsed_measure@,
    {
        ParsedMeasure::out(parsed_measure)
    }
}

/// A stream has as many symbols as there are turns times elements, and
/// all of them are plain.
pub proof fn lemma_stream_len(elements: Seq<Tree>, turns: nat)
    requires
        all_well_formed(elements),
    ensures
        rounds(elements, turns).flatten().len() == turns * elements.len(),
        all_plain(rounds(elements, turns).flatten()),
    decreases turns,
{
    let whole = rounds(elements, turns);
    if turns == 0 {
        assert(whole =~= Seq::<Seq<Tree>>::empty());
        assert(0 * elements.len() == 0) by (nonlinear_arith);
    } else {
        let before = rounds(elements, (turns - 1) as nat);
        let last = resolve_each(elements, (turns - 1) as nat);
        lemma_stream_len(elements, (turns - 1) as nat);
        assert(whole =~= before.push(last));
        before.lemma_flatten_push(last);
        assert(turns * elements.len() == (turns - 1) * elements.len() + elements.len())
            by (nonlinear_arith);
        assert forall|k: int| 0 <= k < whole.flatten().len() implies (#[trigger] whole.flatten()[k]).plain() by {
            if k >= before.flatten().len() {
                let at = k - before.flatten().len();
                assert(whole.flatten()[k] == last[at]);
                assert(elements[at].well_formed());
                lemma_resolve_plain(elements[at], (turns - 1) as nat);
            } else {
                assert(whole.flatten()[k] == before.flatten()[k]);
            }
        }
    }
}

/// One measure of a sequence as it is written: a group, or a polymetric
/// block.
#[derive(Debug, PartialEq)]
pub enum Parsed {
    ParsedMeasure(ParsedMeasure),
    Polymetric(Polymetric),
}

impl Clone for Parsed {
    fn clone(&self) -> (r: Self)
        ensures
            r@ == self@,
    {
        match self {
            Parsed::ParsedMeasure(p) => Parsed::ParsedMeasure(p.clone()),
            Parsed::Polymetric(p) => Parsed::Polymetric(p.clone()),
        }
    }
}

impl View for Parsed {
    type V = Piece;

    open spec fn view(&self) -> Piece {
        match self {
            Parsed::ParsedMeasure(p) => Piece::Plain(p@),
            Parsed::Polymetric(p) => Piece::Polymetric(views(p.elements@), p.length as nat),
        }
    }
}

impl Parsed {
    /// Every alternation has at least one option.
    pub open spec fn well_formed(&self) -> bool {
        self@.well_formed()
    }

    /// The measure can be unrolled within 32 bits.
    pub open spec fn unrollable(&self) -> bool {
        self@.unrollable()
    }

    /// The concrete measures that this measure stands for.
    pub open spec fn unrolled(&self) -> Seq<Tree> {
        self@.unrolled()
    }

    /// The concrete measures that this measure stands for.
    pub fn to_measures(&self) -> (r: Vec<Measure>)
        requires
            self.well_formed(),
            self.unrollable(),
        ensures
            views(r@) == self.unrolled(),
    {
        match self {
            Parsed::ParsedMeasure(parsed_measure) => parsed_measure.to_measures(),
            Parsed::Polymetric(polymetric) => polymetric.to_measures(),
        }
    }

    /// Whether the measure can be unrolled within 32 bits.
    pub fn can_unroll(&self) -> (r: bool)
        ensures
            r == self.unrollable(),
    {
        match self {
            Parsed::ParsedMeasure(parsed_measure) => parsed_measure.checked_cycle().is_some(),
            Parsed::Polymetric(polymetric) => polymetric.checked_cycle().is_some(),
        }
    }
}

} // verus!
