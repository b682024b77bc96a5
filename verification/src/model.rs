//! The mathematical model of a pattern: one tree type that every stage of
//! the compiler is stated over, and the functions that give the notation
//! its meaning.

use crate::utils::spec_lcm_seq;
use vstd::prelude::*;

verus! {

/// A pattern tree. A `Leaf` is one event, a `Node` a group of children
/// that share their parent's time span, and an `Alt` a slot that holds a
/// different option on each turn of the cycle.
pub enum Tree {
    Leaf { value: Seq<char>, probability: nat },
    Alt(Seq<Tree>),
    Node(Seq<Tree>),
}

/// The views of the items of `s`, in order.
pub open spec fn views<T: View>(s: Seq<T>) -> Seq<T::V> {
    Seq::new(s.len(), |i: int| s[i]@)
}

/// The views of a sequence with one more item.
pub proof fn lemma_views_push<T: View>(s: Seq<T>, x: T)
    ensures
        views(s.push(x)) == views(s).push(x@),
{
    assert(views(s.push(x)) =~= views(s).push(x@));
}

/// The views of two sequences, one after the other.
pub proof fn lemma_views_add<T: View>(s: Seq<T>, t: Seq<T>)
    ensures
        views(s + t) == views(s) + views(t),
{
    assert(views(s + t) =~= views(s) + views(t));
}

/// `n` copies of `s`, one after the other.
pub open spec fn repeat<A>(s: Seq<A>, n: nat) -> Seq<A>
    decreases n,
{
    if n == 0 {
        Seq::empty()
    } else {
        repeat(s, (n - 1) as nat) + s
    }
}

impl Tree {
    /// The rest: an event with value `0` that never sounds.
    pub open spec fn rest() -> Tree {
        Tree::Leaf { value: seq!['0'], probability: 0 }
    }

    /// An event that always sounds.
    pub open spec fn sure(value: Seq<char>) -> Tree {
        Tree::Leaf { value, probability: 100 }
    }

    /// How many groups and alternations lie one inside the other.
    pub open spec fn height(self) -> nat
        decreases self,
    {
        match self {
            Tree::Leaf { .. } => 0,
            Tree::Alt(s) => 1 + heights(s),
            Tree::Node(s) => 1 + heights(s),
        }
    }

    /// No `Alt` occurs anywhere in the tree.
    pub open spec fn plain(self) -> bool
        decreases self,
    {
        match self {
            Tree::Leaf { .. } => true,
            Tree::Alt(_) => false,
            Tree::Node(s) => forall|i: int| 0 <= i < s.len() ==> (#[trigger] s[i]).plain(),
        }
    }

    /// Every `Alt` has at least one option, and its options are plain.
    pub open spec fn well_formed(self) -> bool
        decreases self,
    {
        match self {
            Tree::Leaf { .. } => true,
            Tree::Alt(s) => s.len() > 0 && forall|i: int| 0 <= i < s.len() ==> (#[trigger] s[i]).plain(),
            Tree::Node(s) => forall|i: int| 0 <= i < s.len() ==> (#[trigger] s[i]).well_formed(),
        }
    }

    /// The number of options of each `Alt`, in the order in which they
    /// are written.
    pub open spec fn arities(self) -> Seq<nat>
        decreases self,
    {
        match self {
            Tree::Leaf { .. } => Seq::empty(),
            Tree::Alt(s) => seq![s.len()],
            Tree::Node(s) => arity_parts(s).flatten(),
        }
    }

    /// The tree on turn `i` of the cycle: every `Alt` gives way to its
    /// option `i mod arity`.
    pub open spec fn resolve(self, i: nat) -> Tree
        decreases self,
    {
        match self {
            Tree::Leaf { .. } => self,
            Tree::Alt(s) => if s.len() > 0 { s[(i % s.len()) as int] } else { self },
            Tree::Node(s) => Tree::Node(resolve_each(s, i)),
        }
    }
}

/// The greatest height among the trees of `s`; 0 for none.
pub open spec fn heights(s: Seq<Tree>) -> nat
    decreases s,
{
    if s.len() == 0 {
        0
    } else {
        let before = heights(s.drop_last());
        let last = s.last().height();
        if before >= last {
            before
        } else {
            last
        }
    }
}

/// No tree of `s` is higher than `heights(s)`.
pub proof fn lemma_heights(s: Seq<Tree>, k: int)
    requires
        0 <= k < s.len(),
    ensures
        s[k].height() <= heights(s),
    decreases s.len(),
{
    if k < s.len() - 1 {
        lemma_heights(s.drop_last(), k);
    }
}

/// The arities of each tree of `s`.
pub open spec fn arity_parts(s: Seq<Tree>) -> Seq<Seq<nat>>
    decreases s,
{
    Seq::new(s.len(), |k: int| if 0 <= k < s.len() { s[k].arities() } else { Seq::empty() })
}

/// The arities of all the trees of `s`, one tree after the other.
pub open spec fn arities_of(s: Seq<Tree>) -> Seq<nat> {
    Tree::Node(s).arities()
}

/// Each tree of `s` on turn `i` of the cycle.
pub open spec fn resolve_each(s: Seq<Tree>, i: nat) -> Seq<Tree>
    decreases s,
{
    Seq::new(s.len(), |k: int| if 0 <= k < s.len() { s[k].resolve(i) } else { Tree::rest() })
}

/// All trees of `s` are plain.
pub open spec fn all_plain(s: Seq<Tree>) -> bool {
    forall|i: int| 0 <= i < s.len() ==> (#[trigger] s[i]).plain()
}

/// All trees of `s` are well formed.
pub open spec fn all_well_formed(s: Seq<Tree>) -> bool {
    forall|i: int| 0 <= i < s.len() ==> (#[trigger] s[i]).well_formed()
}

/// After how many turns every alternation of `t` starts again.
pub open spec fn cycle(t: Tree) -> nat {
    spec_lcm_seq(t.arities())
}

/// The concrete measures that `t` stands for: one for each turn of its
/// cycle.
pub open spec fn unroll(t: Tree) -> Seq<Tree> {
    Seq::new(cycle(t), |i: int| t.resolve(i as nat))
}

/// The list `elements` on each of the first `turns` turns of the cycle.
pub open spec fn rounds(elements: Seq<Tree>, turns: nat) -> Seq<Seq<Tree>> {
    Seq::new(turns, |i: int| resolve_each(elements, i as nat))
}

/// The symbols of a polymetric block: its elements on each turn of their
/// cycle, one turn after the other.
pub open spec fn stream(elements: Seq<Tree>) -> Seq<Tree> {
    rounds(elements, cycle(Tree::Node(elements))).flatten()
}

/// Into how many measures a stream of `total` symbols is cut by windows
/// of `length`: `total` where neither number divides the other, else 1
/// where the stream is no longer than a window, else the quotient.
pub open spec fn window_count(total: nat, length: nat) -> nat {
    if total == 0 || length == 0 {
        0
    } else if total % length != 0 && length % total != 0 {
        total
    } else if total <= length {
        1
    } else {
        total / length
    }
}

/// Window `w` of the endless repetition of `flat`, cut into windows of
/// `length`.
pub open spec fn window(flat: Seq<Tree>, length: nat, w: nat) -> Tree {
    Tree::Node(Seq::new(length, |j: int| flat[(w * length + j) % (flat.len() as int)]))
}

/// The measures of a stream of symbols cut into windows of `length`.
pub open spec fn windows(flat: Seq<Tree>, length: nat) -> Seq<Tree> {
    Seq::new(window_count(flat.len(), length), |w: int| window(flat, length, w as nat))
}

/// Each group of `s` replaced by its children, each other tree left in
/// place.
pub open spec fn splice(s: Seq<Tree>) -> Seq<Tree> {
    Seq::new(
        s.len(),
        |i: int|
            match s[i] {
                Tree::Node(xs) => xs,
                other => seq![other],
            },
    ).flatten()
}

/// Every number of `s` fits in 32 bits.
pub open spec fn all_fit(s: Seq<nat>) -> bool {
    forall|i: int| 0 <= i < s.len() ==> #[trigger] s[i] <= u32::MAX
}

/// The tree can be unrolled within 32 bits: each of its arities fits,
/// and so does its cycle.
pub open spec fn unrollable(t: Tree) -> bool {
    all_fit(t.arities()) && cycle(t) <= u32::MAX
}

/// One measure of a sequence as it is written: a group, or a polymetric
/// block with its elements and the length of its windows.
pub enum Piece {
    Plain(Tree),
    Polymetric(Seq<Tree>, nat),
}

impl Piece {
    /// Every alternation has at least one option.
    pub open spec fn well_formed(self) -> bool {
        match self {
            Piece::Plain(t) => t.well_formed(),
            Piece::Polymetric(elements, _) => all_well_formed(elements),
        }
    }

    /// The measure is a group or a polymetric block, not a bare slot.
    pub open spec fn grouped(self) -> bool {
        match self {
            Piece::Plain(t) => t is Node,
            Piece::Polymetric(_, _) => true,
        }
    }

    /// The measure can be unrolled within 32 bits; a polymetric block
    /// must also have symbols, and windows of some length.
    pub open spec fn unrollable(self) -> bool {
        match self {
            Piece::Plain(t) => unrollable(t),
            Piece::Polymetric(elements, length) => {
                &&& elements.len() > 0
                &&& length > 0
                &&& unrollable(Tree::Node(elements))
            },
        }
    }

    /// The concrete measures that this measure stands for.
    pub open spec fn unrolled(self) -> Seq<Tree> {
        match self {
            Piece::Plain(t) => unroll(t),
            Piece::Polymetric(elements, length) => windows(stream(elements), length),
        }
    }
}

/// A sequence as it is written: its measures, and the length in measures
/// where one is given.
pub struct Text {
    pub measures: Seq<Piece>,
    pub length: Option<u32>,
}

impl Text {
    /// Every alternation has at least one option.
    pub open spec fn well_formed(self) -> bool {
        forall|i: int| 0 <= i < self.measures.len() ==> (#[trigger] self.measures[i]).well_formed()
    }

    /// Every measure can be unrolled within 32 bits.
    pub open spec fn unrollable(self) -> bool {
        forall|i: int| 0 <= i < self.measures.len() ==> (#[trigger] self.measures[i]).unrollable()
    }

    /// Every measure is a group or a polymetric block.
    pub open spec fn grouped(self) -> bool {
        forall|i: int| 0 <= i < self.measures.len() ==> (#[trigger] self.measures[i]).grouped()
    }

    /// The concrete measures of each measure that is written.
    pub open spec fn parts(self) -> Seq<Seq<Tree>> {
        Seq::new(self.measures.len(), |i: int| self.measures[i].unrolled())
    }

    /// The concrete measures of the sequence, in order.
    pub open spec fn unrolled(self) -> Seq<Tree> {
        self.parts().flatten()
    }
}

/// What holds of every item of every part holds of every item of the
/// whole.
pub proof fn lemma_flatten_all<A>(parts: Seq<Seq<A>>, holds: spec_fn(A) -> bool)
    requires
        forall|k: int, j: int| 0 <= k < parts.len() && 0 <= j < parts[k].len() ==> holds(#[trigger] parts[k][j]),
    ensures
        forall|j: int| 0 <= j < parts.flatten().len() ==> holds(#[trigger] parts.flatten()[j]),
    decreases parts.len(),
{
    if parts.len() > 0 {
        let before = parts.drop_last();
        assert forall|k: int, j: int| 0 <= k < before.len() && 0 <= j < before[k].len() implies holds(
            #[trigger] before[k][j],
        ) by {
            assert(before[k] == parts[k]);
            assert(holds(parts[k][j]));
        }
        lemma_flatten_all(before, holds);
        before.lemma_flatten_push(parts.last());
        assert(parts =~= before.push(parts.last()));
        assert forall|j: int| 0 <= j < parts.flatten().len() implies holds(#[trigger] parts.flatten()[j]) by {
            if j >= before.flatten().len() {
                assert(parts.flatten()[j] == parts[parts.len() - 1][j - before.flatten().len()]);
            } else {
                assert(parts.flatten()[j] == before.flatten()[j]);
            }
        }
    } else {
        assert(parts.flatten() =~= Seq::<A>::empty());
    }
}

/// The concrete measures of a text whose measures are groups or
/// polymetric blocks are groups.
pub proof fn lemma_unrolled_groups(text: Text)
    requires
        text.grouped(),
    ensures
        forall|j: int| 0 <= j < text.unrolled().len() ==> (#[trigger] text.unrolled()[j]) is Node,
{
    let parts = text.parts();
    let holds = |t: Tree| t is Node;
    assert forall|k: int, j: int| 0 <= k < parts.len() && 0 <= j < parts[k].len() implies holds(
        #[trigger] parts[k][j],
    ) by {
        let piece = text.measures[k];
        assert(piece.grouped());
        match piece {
            Piece::Plain(t) => {
                assert(parts[k][j] == t.resolve(j as nat));
            },
            Piece::Polymetric(elements, length) => {
                assert(parts[k][j] == window(stream(elements), length, j as nat));
            },
        }
    }
    lemma_flatten_all(parts, holds);
    assert forall|j: int| 0 <= j < text.unrolled().len() implies (#[trigger] text.unrolled()[j]) is Node by {
        assert(holds(parts.flatten()[j]));
    }
}

/// Where every part holds positive numbers only, so does the whole.
pub proof fn lemma_flatten_positive(parts: Seq<Seq<nat>>)
    requires
        forall|k: int, j: int| 0 <= k < parts.len() && 0 <= j < parts[k].len() ==> #[trigger] parts[k][j] > 0,
    ensures
        forall|j: int| 0 <= j < parts.flatten().len() ==> #[trigger] parts.flatten()[j] > 0,
    decreases parts.len(),
{
    if parts.len() > 0 {
        let before = parts.drop_last();
        assert forall|k: int, j: int| 0 <= k < before.len() && 0 <= j < before[k].len() implies #[trigger] before[k][j]
            > 0 by {
            assert(before[k] == parts[k]);
            assert(parts[k][j] > 0);
        }
        lemma_flatten_positive(before);
        before.lemma_flatten_push(parts.last());
        assert(parts =~= before.push(parts.last()));
        assert forall|j: int| 0 <= j < parts.flatten().len() implies #[trigger] parts.flatten()[j] > 0 by {
            if j >= before.flatten().len() {
                assert(parts.flatten()[j] == parts[parts.len() - 1][j - before.flatten().len()]);
            }
        }
    } else {
        assert(parts.flatten() =~= Seq::<nat>::empty());
    }
}

/// Every arity of a well-formed tree is positive.
pub proof fn lemma_arities_positive(t: Tree)
    requires
        t.well_formed(),
    ensures
        forall|j: int| 0 <= j < t.arities().len() ==> #[trigger] t.arities()[j] > 0,
    decreases t,
{
    match t {
        Tree::Node(s) => {
            let parts = arity_parts(s);
            assert forall|k: int, j: int| 0 <= k < parts.len() && 0 <= j < parts[k].len() implies #[trigger] parts[k][j]
                > 0 by {
                lemma_well_formed_child(s, k);
                lemma_arities_positive(s[k]);
                assert(parts[k] == s[k].arities());
                assert(s[k].arities()[j] > 0);
            }
            lemma_flatten_positive(parts);
        },
        _ => {},
    }
}

/// The cycle of a well-formed tree has at least one turn.
pub proof fn lemma_cycle_positive(t: Tree)
    requires
        t.well_formed(),
    ensures
        cycle(t) > 0,
{
    lemma_arities_positive(t);
    let s = t.arities();
    crate::utils::lemma_lcm_seq_positive(s, s.len() as int);
    assert(s.take(s.len() as int) =~= s);
}

/// The children of a plain group are plain.
pub proof fn lemma_plain_child(s: Seq<Tree>, k: int)
    requires
        Tree::Node(s).plain(),
        0 <= k < s.len(),
    ensures
        s[k].plain(),
{
    let t = Tree::Node(s);
    assert(t.plain());
    assert(t->Node_0 == s);
    assert(forall|i: int| 0 <= i < s.len() ==> (#[trigger] s[i]).plain());
}

/// The children of a well-formed group are well formed.
pub proof fn lemma_well_formed_child(s: Seq<Tree>, k: int)
    requires
        Tree::Node(s).well_formed(),
        0 <= k < s.len(),
    ensures
        s[k].well_formed(),
{
    let t = Tree::Node(s);
    assert(t.well_formed());
    assert(t->Node_0 == s);
    assert(forall|i: int| 0 <= i < s.len() ==> (#[trigger] s[i]).well_formed());
}

/// A group of well-formed trees is well formed.
pub proof fn lemma_node_well_formed(s: Seq<Tree>)
    requires
        all_well_formed(s),
    ensures
        Tree::Node(s).well_formed(),
{
    let t = Tree::Node(s);
    assert(t->Node_0 == s);
}

/// An alternation between plain trees, at least one of them, is well
/// formed.
pub proof fn lemma_alt_well_formed(s: Seq<Tree>)
    requires
        s.len() > 0,
        all_plain(s),
    ensures
        Tree::Alt(s).well_formed(),
{
    let t = Tree::Alt(s);
    assert(t->Alt_0 == s);
}

/// A plain tree has no arities, and every turn of the cycle leaves it as
/// it is.
pub proof fn lemma_plain_fixed(t: Tree, i: nat)
    requires
        t.plain(),
    ensures
        t.arities() == Seq::<nat>::empty(),
        t.resolve(i) == t,
    decreases t,
{
    match t {
        Tree::Node(s) => {
            let parts = arity_parts(s);
            assert forall|k: int| 0 <= k < s.len() implies #[trigger] parts[k] == Seq::<nat>::empty() by {
                lemma_plain_fixed(s[k], i);
            }
            assert forall|k: int| 0 <= k < s.len() implies #[trigger] resolve_each(s, i)[k] == s[k] by {
                lemma_plain_fixed(s[k], i);
            }
            lemma_flatten_empties(parts);
            assert(resolve_each(s, i) =~= s);
        },
        _ => {},
    }
}

/// Flattening a sequence of empty sequences gives the empty sequence.
pub proof fn lemma_flatten_empties<A>(parts: Seq<Seq<A>>)
    requires
        forall|k: int| 0 <= k < parts.len() ==> #[trigger] parts[k] == Seq::<A>::empty(),
    ensures
        parts.flatten() == Seq::<A>::empty(),
    decreases parts.len(),
{
    if parts.len() > 0 {
        lemma_flatten_empties(parts.drop_first());
        assert(parts.flatten() =~= Seq::<A>::empty());
    }
}

/// Resolving a well-formed tree gives a plain tree.
pub proof fn lemma_resolve_plain(t: Tree, i: nat)
    requires
        t.well_formed(),
    ensures
        t.resolve(i).plain(),
    decreases t,
{
    match t {
        Tree::Node(s) => {
            let out = resolve_each(s, i);
            assert forall|k: int| 0 <= k < out.len() implies (#[trigger] out[k]).plain() by {
                assert(s[k].well_formed());
                lemma_resolve_plain(s[k], i);
                assert(out[k] == s[k].resolve(i));
            }
            assert(t.resolve(i) == Tree::Node(out));
        },
        _ => {},
    }
}

/// A measure that holds one alternation unrolls into one measure for
/// each option, in the order in which the options are written.
pub proof fn lemma_unroll_alternation(options: Seq<Tree>)
    requires
        options.len() > 0,
        all_plain(options),
    ensures
        unroll(Tree::Node(seq![Tree::Alt(options)])) == Seq::new(
            options.len(),
            |i: int| Tree::Node(seq![options[i]]),
        ),
{
    let t = Tree::Node(seq![Tree::Alt(options)]);
    let n = options.len();
    let parts = arity_parts(seq![Tree::Alt(options)]);
    assert(parts =~= seq![seq![n]]);
    parts.lemma_flatten_one_element();
    assert(t.arities() == seq![n]);
    crate::utils::lemma_lcm_seq_step(seq![n], 0);
    assert(seq![n].take(1) =~= seq![n]);
    assert(seq![n].take(0) =~= Seq::<nat>::empty());
    assert(spec_lcm_seq(Seq::<nat>::empty()) == 1);
    crate::utils::lemma_lcm_one(n);
    assert(cycle(t) == n);
    assert forall|i: int| 0 <= i < n implies #[trigger] unroll(t)[i] == Tree::Node(seq![options[i]]) by {
        vstd::arithmetic::div_mod::lemma_small_mod(i as nat, n);
        assert(resolve_each(seq![Tree::Alt(options)], i as nat) =~= seq![options[i]]);
    }
    assert(unroll(t) =~= Seq::new(n, |i: int| Tree::Node(seq![options[i]])));
}

/// A measure without alternations unrolls into itself, once.
pub proof fn lemma_unroll_plain(t: Tree)
    requires
        t.plain(),
    ensures
        unroll(t) == seq![t],
{
    lemma_plain_fixed(t, 0);
    assert(spec_lcm_seq(Seq::<nat>::empty()) == 1);
    assert(unroll(t) =~= seq![t]);
}

} // verus!
