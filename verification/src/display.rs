//! A parsed text written out as an indented tree, one node to the line.

use crate::model::{heights, lemma_heights, repeat, views, Piece, Tree};
use crate::parsed_measure::{lemma_parsed_trees, Parsed, ParsedMeasure, Single};
use crate::primitives::{primitive_trees, ParsedEvent, PrimitiveGroup};
use crate::text::{decimal, decimal_string};
use vstd::prelude::*;

verus! {

/// The blanks before a line at depth `level`: four for each level.
pub open spec fn indent(level: nat) -> Seq<char> {
    repeat("    "@, level)
}

/// The line of an event.
pub open spec fn event_line(value: Seq<char>, probability: nat, level: nat) -> Seq<char> {
    indent(level) + "Event: "@ + value + " - "@ + decimal(probability) + ",\n"@
}

/// The line that opens a group or an alternation.
pub open spec fn opening(t: Tree, primitive: bool) -> Seq<char> {
    match t {
        Tree::Alt(_) => "Alternate: [\n"@,
        _ => if primitive {
            "PrimitiveGroup: [\n"@
        } else {
            "Group: [\n"@
        },
    }
}

/// The tree as lines at depth `level`: an event is one line; a group or
/// an alternation is a line that names it, its children one level
/// deeper, and a line that closes it. Below an alternation, and where
/// `primitive` is set, groups are named as primitive groups.
pub open spec fn render(t: Tree, level: nat, primitive: bool) -> Seq<char>
    decreases t,
{
    match t {
        Tree::Leaf { value, probability } => event_line(value, probability, level),
        Tree::Alt(s) => indent(level) + opening(t, primitive) + render_each(s, level + 1, true) + indent(level)
            + "],\n"@,
        Tree::Node(s) => indent(level) + opening(t, primitive) + render_each(s, level + 1, primitive) + indent(
            level,
        ) + "],\n"@,
    }
}

/// The lines of each tree of `s`, one tree after the other.
pub open spec fn render_each(s: Seq<Tree>, level: nat, primitive: bool) -> Seq<char>
    decreases s,
{
    if s.len() == 0 {
        Seq::empty()
    } else {
        render_each(s.drop_last(), level, primitive) + render(s.last(), level, primitive)
    }
}

/// One measure of a sequence as lines: a group as a tree, a polymetric
/// block as a line with the length of its windows, its elements one
/// level deeper, and a line that closes it.
pub open spec fn render_piece(p: Piece, level: nat) -> Seq<char> {
    match p {
        Piece::Plain(t) => render(t, level, false),
        Piece::Polymetric(elements, length) => indent(level) + "Polymetric("@ + decimal(length) + "): [\n"@
            + render_each(elements, level + 1, false) + indent(level) + "],\n"@,
    }
}

/// How deep the lines of a measure go.
pub open spec fn piece_height(p: Piece) -> nat {
    match p {
        Piece::Plain(t) => t.height(),
        Piece::Polymetric(elements, _) => 1 + heights(elements),
    }
}

/// The blanks before a line at depth `level`.
pub fn inden(level: u8) -> (r: String)
    ensures
        r@ == indent(level as nat),
{
    let mut b = String::new();
    let mut i: u8 = 0;
    while i < level
        invariant
            i <= level,
            b@ == indent(i as nat),
        decreases level - i,
    {
        b.append("    ");
        i += 1;
    }
    b
}

/// Something that can be written out as lines.
pub trait Fmt {
    /// The lines at depth `level`.
    spec fn rendered(&self, level: nat) -> Seq<char>;

    /// How many levels the lines go down.
    spec fn depth(&self) -> nat;

    /// Writes the lines at depth `level` behind what `b` holds.
    fn fmt(&self, level: u8, b: &mut String)
        requires
            level + self.depth() <= u8::MAX,
        ensures
            final(b)@ == old(b)@ + self.rendered(level as nat),
    ;
}

fn write_event(e: &ParsedEvent, level: u8, b: &mut String)
    ensures
        final(b)@ == old(b)@ + event_line(e.value@, e.probability as nat, level as nat),
{
    let ghost start = b@;
    let blanks = inden(level);
    b.append(blanks.as_str());
    b.append("Event: ");
    b.append(e.value.as_str());
    b.append(" - ");
    let p = decimal_string(e.probability as u32);
    b.append(p.as_str());
    b.append(",\n");
    proof {
        assert(b@ =~= start + event_line(e.value@, e.probability as nat, level as nat));
    }
}

fn write_primitive(p: &PrimitiveGroup, level: u8, b: &mut String)
    requires
        level + p@.height() <= u8::MAX,
    ensures
        final(b)@ == old(b)@ + render(p@, level as nat, true),
    decreases p,
{
    match p {
        PrimitiveGroup::Single(e) => write_event(e, level, b),
        PrimitiveGroup::Group(g) => {
            let ghost start = b@;
            let ghost kids = primitive_trees(g@);
            let blanks = inden(level);
            b.append(blanks.as_str());
            b.append("PrimitiveGroup: [\n");
            write_primitives(g, level + 1, b);
            b.append(blanks.as_str());
            b.append("],\n");
            proof {
                assert(b@ =~= start + render(p@, level as nat, true));
            }
        },
    }
}

fn write_primitives(g: &Vec<PrimitiveGroup>, level: u8, b: &mut String)
    requires
        level + heights(primitive_trees(g@)) <= u8::MAX,
    ensures
        final(b)@ == old(b)@ + render_each(primitive_trees(g@), level as nat, true),
    decreases g,
{
    let ghost start = b@;
    let ghost kids = primitive_trees(g@);
    let mut i: usize = 0;
    proof {
        assert(kids.take(0) =~= Seq::<Tree>::empty());
        assert(start + render_each(kids.take(0), level as nat, true) =~= start);
    }
    while i < g.len()
        invariant
            i <= g.len(),
            kids == primitive_trees(g@),
            level + heights(kids) <= u8::MAX,
            b@ == start + render_each(kids.take(i as int), level as nat, true),
        decreases g.len() - i,
    {
        proof {
            vstd::std_specs::vec::axiom_vec_index_decreases(*g, i as int);
            lemma_heights(kids, i as int);
            assert(kids.take(i as int + 1).drop_last() =~= kids.take(i as int));
        }
        let ghost held = b@;
        write_primitive(&g[i], level, b);
        proof {
            assert(b@ =~= start + render_each(kids.take(i as int + 1), level as nat, true));
        }
        i += 1;
    }
    proof {
        assert(kids.take(i as int) =~= kids);
    }
}

fn write_single(s: &Single, level: u8, b: &mut String)
    requires
        level + s@.height() <= u8::MAX,
    ensures
        final(b)@ == old(b)@ + render(s@, level as nat, false),
{
    match s {
        Single::Event(e) => write_event(e, level, b),
        Single::Alternate(a) => {
            let ghost start = b@;
            let blanks = inden(level);
            b.append(blanks.as_str());
            b.append("Alternate: [\n");
            write_primitives(&a.0, level + 1, b);
            b.append(blanks.as_str());
            b.append("],\n");
            proof {
                assert(b@ =~= start + render(s@, level as nat, false));
            }
        },
    }
}

fn write_measure(m: &ParsedMeasure, level: u8, b: &mut String)
    requires
        level + m@.height() <= u8::MAX,
    ensures
        final(b)@ == old(b)@ + render(m@, level as nat, false),
    decreases m,
{
    match m {
        ParsedMeasure::Single(s) => write_single(s, level, b),
        ParsedMeasure::Group(g) => {
            let ghost start = b@;
            proof {
                lemma_parsed_trees(g@);
            }
            let blanks = inden(level);
            b.append(blanks.as_str());
            b.append("Group: [\n");
            write_measures(g, level + 1, b);
            b.append(blanks.as_str());
            b.append("],\n");
            proof {
                assert(b@ =~= start + render(m@, level as nat, false));
            }
        },
    }
}

fn write_measures(g: &Vec<ParsedMeasure>, level: u8, b: &mut String)
    requires
        level + heights(views(g@)) <= u8::MAX,
    ensures
        final(b)@ == old(b)@ + render_each(views(g@), level as nat, false),
    decreases g,
{
    let ghost start = b@;
    let ghost kids = views(g@);
    let mut i: usize = 0;
    proof {
        assert(kids.take(0) =~= Seq::<Tree>::empty());
        assert(start + render_each(kids.take(0), level as nat, false) =~= start);
    }
    while i < g.len()
        invariant
            i <= g.len(),
            kids == views(g@),
            level + heights(kids) <= u8::MAX,
            b@ == start + render_each(kids.take(i as int), level as nat, false),
        decreases g.len() - i,
    {
        proof {
            vstd::std_specs::vec::axiom_vec_index_decreases(*g, i as int);
            lemma_heights(kids, i as int);
            assert(kids.take(i as int + 1).drop_last() =~= kids.take(i as int));
        }
        write_measure(&g[i], level, b);
        proof {
            assert(b@ =~= start + render_each(kids.take(i as int + 1), level as nat, false));
        }
        i += 1;
    }
    proof {
        assert(kids.take(i as int) =~= kids);
    }
}

impl Fmt for ParsedEvent {
    open spec fn rendered(&self, level: nat) -> Seq<char> {
        event_line(self.value@, self.probability as nat, level)
    }

    open spec fn depth(&self) -> nat {
        0
    }

    fn fmt(&self, level: u8, buf: &mut String) {
        write_event(self, level, buf)
    }
}

impl Fmt for PrimitiveGroup {
    open spec fn rendered(&self, level: nat) -> Seq<char> {
        render(self@, level, true)
    }

    open spec fn depth(&self) -> nat {
        self@.height()
    }

    fn fmt(&self, level: u8, b: &mut String) {
        write_primitive(self, level, b)
    }
}

impl Fmt for Single {
    open spec fn rendered(&self, level: nat) -> Seq<char> {
        render(self@, level, false)
    }

    open spec fn depth(&self) -> nat {
        self@.height()
    }

    fn fmt(&self, level: u8, b: &mut String) {
        write_single(self, level, b)
    }
}

impl Fmt for ParsedMeasure {
    open spec fn rendered(&self, level: nat) -> Seq<char> {
        render(self@, level, false)
    }

    open spec fn depth(&self) -> nat {
        self@.height()
    }

    fn fmt(&self, level: u8, b: &mut String) {
        write_measure(self, level, b)
    }
}

impl Fmt for Parsed {
    open spec fn rendered(&self, level: nat) -> Seq<char> {
        render_piece(self@, level)
    }

    open spec fn depth(&self) -> nat {
        piece_height(self@)
    }

    fn fmt(&self, level: u8, b: &mut String) {
        match self {
            Parsed::ParsedMeasure(p) => write_measure(p, level, b),
            Parsed::Polymetric(p) => {
                let ghost start = b@;
                let blanks = inden(level);
                b.append(blanks.as_str());
                b.append("Polymetric(");
                let l = decimal_string(p.length);
                b.append(l.as_str());
                b.append("): [\n");
                write_measures(&p.elements, level + 1, b);
                b.append(blanks.as_str());
                b.append("],\n");
                proof {
                    assert(b@ =~= start + render_piece(self@, level as nat));
                }
            },
        }
    }
}

} // verus!
