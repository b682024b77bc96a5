use crate::model::{views, Tree};
use crate::parsed_measure::{ParsedMeasure, Single};
use vstd::prelude::*;

verus! {

/// One event as it is written: a value, and the chance in percent that it
/// sounds.
#[derive(Debug, PartialEq)]
pub struct ParsedEvent {
    pub value: String,
    pub probability: u8,
}

impl View for ParsedEvent {
    type V = Tree;

    open spec fn view(&self) -> Tree {
        Tree::Leaf { value: self.value@, probability: self.probability as nat }
    }
}

impl Clone for ParsedEvent {
    fn clone(&self) -> (r: Self)
        ensures
            r@ == self@,
    {
        ParsedEvent { value: self.value.clone(), probability: self.probability }
    }
}

impl ParsedEvent {
    /// The rest.
    pub fn empty() -> (r: Self)
        ensures
            r@ == Tree::rest(),
    {
        proof {
            reveal_strlit("0");
        }
        let r = ParsedEvent { value: String::from_str("0"), probability: 0 };
        assert(r.value@ =~= seq!['0']);
        r
    }

    /// Whether this event is the rest.
    pub fn is_rest(&self) -> (r: bool)
        ensures
            r == (self@ == Tree::rest()),
    {
        proof {
            reveal_strlit("0");
        }
        let r = self.probability == 0 && self.value.as_str().unicode_len() == 1
            && self.value.as_str().get_char(0) == '0';
        proof {
            if r {
                assert(self.value@ =~= seq!['0']);
            }
        }
        r
    }
}

/// A tree of events without alternation.
#[derive(Debug, PartialEq)]
pub enum PrimitiveGroup {
    Single(ParsedEvent),
    Group(Vec<PrimitiveGroup>),
}

/// The trees of the items of `s`, in order.
pub open spec fn primitive_trees(s: Seq<PrimitiveGroup>) -> Seq<Tree>
    decreases s,
{
    Seq::new(s.len(), |k: int| if 0 <= k < s.len() { s[k].tree() } else { Tree::rest() })
}

impl PrimitiveGroup {
    /// The tree that this value stands for.
    pub open spec fn tree(&self) -> Tree
        decreases self,
    {
        match self {
            PrimitiveGroup::Single(e) => e@,
            PrimitiveGroup::Group(v) => Tree::Node(primitive_trees(v@)),
        }
    }

    /// The tree of a primitive group is plain.
    pub proof fn lemma_plain(&self)
        ensures
            self@.plain(),
        decreases self,
    {
        match self {
            PrimitiveGroup::Single(_) => {},
            PrimitiveGroup::Group(v) => {
                let s = primitive_trees(v@);
                assert forall|k: int| 0 <= k < s.len() implies (#[trigger] s[k]).plain() by {
                    v@[k].lemma_plain();
                }
            },
        }
    }

    /// Whether this value is the rest.
    pub fn is_rest(&self) -> (r: bool)
        ensures
            r == (self@ == Tree::rest()),
    {
        match self {
            PrimitiveGroup::Single(e) => e.is_rest(),
            PrimitiveGroup::Group(_) => false,
        }
    }

    /// The same tree as a parsed measure.
    pub fn to_parsed_measure(&self) -> (r: ParsedMeasure)
        ensures
            r@ == self@,
        decreases self,
    {
        match self {
            PrimitiveGroup::Single(e) => ParsedMeasure::Single(Single::Event(e.clone())),
            PrimitiveGroup::Group(v) => {
                let mut out: Vec<ParsedMeasure> = Vec::new();
                let mut i: usize = 0;
                while i < v.len()
                    invariant
                        *self == PrimitiveGroup::Group(*v),
                        i <= v.len(),
                        out@.len() == i,
                        forall|j: int| 0 <= j < i ==> (#[trigger] out@[j])@ == v@[j]@,
                    decreases v.len() - i,
                {
                    proof {
                        assert(self->Group_0 == *v);
                    }
                    out.push(v[i].to_parsed_measure());
                    i += 1;
                }
                let r = ParsedMeasure::Group(out);
                proof {
                    assert(crate::parsed_measure::parsed_trees(out@) =~= primitive_trees(v@));
                }
                r
            },
        }
    }

    /// The same tree as a primitive group; a parsed measure with an
    /// alternation in it has none.
    pub fn from_parsed_measure(parsed_measure: &ParsedMeasure) -> (r: Self)
        requires
            parsed_measure@.plain(),
        ensures
            r@ == parsed_measure@,
        decreases parsed_measure,
    {
        match parsed_measure {
            ParsedMeasure::Single(Single::Event(e)) => PrimitiveGroup::Single(e.clone()),
            ParsedMeasure::Single(Single::Alternate(_)) => {
                proof {
                    assert(false);
                }
                PrimitiveGroup::Group(Vec::new())
            },
            ParsedMeasure::Group(v) => {
                let mut out: Vec<PrimitiveGroup> = Vec::new();
                let mut i: usize = 0;
                while i < v.len()
                    invariant
                        *parsed_measure == ParsedMeasure::Group(*v),
                        parsed_measure@.plain(),
                        i <= v.len(),
                        out@.len() == i,
                        forall|j: int| 0 <= j < i ==> (#[trigger] out@[j])@ == v@[j]@,
                    decreases v.len() - i,
                {
                    proof {
                        assert(parsed_measure->Group_0 == *v);
                        assert(parsed_measure@ == Tree::Node(crate::parsed_measure::parsed_trees(v@)));
                        crate::model::lemma_plain_child(crate::parsed_measure::parsed_trees(v@), i as int);
                    }
                    out.push(PrimitiveGroup::from_parsed_measure(&v[i]));
                    i += 1;
                }
                let r = PrimitiveGroup::Group(out);
                proof {
                    assert(crate::parsed_measure::parsed_trees(v@) =~= primitive_trees(out@));
                }
                r
            },
        }
    }
}

impl View for PrimitiveGroup {
    type V = Tree;

    open spec fn view(&self) -> Tree {
        self.tree()
    }
}

impl Clone for PrimitiveGroup {
    fn clone(&self) -> (r: Self)
        ensures
            r@ == self@,
        decreases self,
    {
        match self {
            PrimitiveGroup::Single(e) => PrimitiveGroup::Single(e.clone()),
            PrimitiveGroup::Group(v) => {
                let mut out: Vec<PrimitiveGroup> = Vec::new();
                let mut i: usize = 0;
                while i < v.len()
                    invariant
                        *self == PrimitiveGroup::Group(*v),
                        i <= v.len(),
                        out@.len() == i,
                        forall|j: int| 0 <= j < i ==> (#[trigger] out@[j])@ == v@[j]@,
                    decreases v.len() - i,
                {
                    proof {
                        assert(self->Group_0 == *v);
                    }
                    out.push(v[i].clone());
                    i += 1;
                }
                let r = PrimitiveGroup::Group(out);
                proof {
                    assert(primitive_trees(out@) =~= primitive_trees(v@));
                }
                r
            },
        }
    }
}

/// A slot that holds a different option on each turn of the cycle.
#[derive(Debug, PartialEq)]
pub struct Alternate(pub Vec<PrimitiveGroup>);

impl View for Alternate {
    type V = Tree;

    open spec fn view(&self) -> Tree {
        Tree::Alt(primitive_trees(self.0@))
    }
}

impl Clone for Alternate {
    fn clone(&self) -> (r: Self)
        ensures
            r@ == self@,
    {
        let mut out: Vec<PrimitiveGroup> = Vec::new();
        let mut i: usize = 0;
        while i < self.0.len()
            invariant
                i <= self.0.len(),
                out@.len() == i,
                forall|j: int| 0 <= j < i ==> (#[trigger] out@[j])@ == self.0@[j]@,
            decreases self.0.len() - i,
        {
            out.push(self.0[i].clone());
            i += 1;
        }
        proof {
            assert(primitive_trees(out@) =~= primitive_trees(self.0@));
        }
        Alternate(out)
    }
}

impl Alternate {
    /// An alternation with at least one option is well formed.
    pub proof fn lemma_well_formed(&self)
        requires
            self.0@.len() > 0,
        ensures
            self@.well_formed(),
    {
        let s = primitive_trees(self.0@);
        assert forall|k: int| 0 <= k < s.len() implies (#[trigger] s[k]).plain() by {
            self.0@[k].lemma_plain();
        }
        crate::model::lemma_alt_well_formed(s);
    }

    /// The option of turn `i` of the cycle.
    pub fn next(&self, i: usize) -> (r: PrimitiveGroup)
        requires
            self.0.len() > 0,
        ensures
            r@ == self@.resolve(i as nat),
    {
        let index = i % self.0.len();
        self.0[index].clone()
    }

    /// The alternation between the given measures, none of which holds an
    /// alternation itself.
    pub fn from_parsed_measures(pms: &Vec<ParsedMeasure>) -> (r: Self)
        requires
            crate::model::all_plain(views(pms@)),
        ensures
            r@ == Tree::Alt(views(pms@)),
    {
        let mut out: Vec<PrimitiveGroup> = Vec::new();
        let mut i: usize = 0;
        while i < pms.len()
            invariant
                crate::model::all_plain(views(pms@)),
                i <= pms.len(),
                out@.len() == i,
                forall|j: int| 0 <= j < i ==> (#[trigger] out@[j])@ == pms@[j]@,
            decreases pms.len() - i,
        {
            proof {
                assert(views(pms@)[i as int].plain());
            }
            out.push(PrimitiveGroup::from_parsed_measure(&pms[i]));
            i += 1;
        }
        proof {
            assert(primitive_trees(out@) =~= views(pms@));
        }
        Alternate(out)
    }
}

} // verus!
