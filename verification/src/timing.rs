//! Where in time the events of a measure fall: the mathematics of the
//! tick grid.

use crate::model::Tree;
use crate::utils::{lemma_lcm_associates, lemma_lcm_bounds, lemma_lcm_commutes, lemma_lcm_one, spec_lcm};
use vstd::prelude::*;

verus! {

/// One event with its place on the tick grid; the first tick is 1.
pub struct Step {
    pub index: nat,
    pub value: Seq<char>,
    pub probability: nat,
}

/// The greatest tick index that can be recorded.
pub open spec fn last_tick() -> nat {
    0xffff_ffff
}

/// The ticks of each child of a group of `k` children that has `span`
/// ticks for all of them.
pub open spec fn child_span(span: nat, k: nat) -> nat {
    if k == 0 {
        0
    } else {
        span / k
    }
}

/// The index that is recorded for an event at tick `index`, where
/// `count` measures are laid out over a length of `length` measures: the
/// floor of `(index - 1) * length / count`, and 1.
pub open spec fn stretch(index: nat, length: nat, count: nat) -> nat {
    if count == 0 || index == 0 {
        index
    } else {
        ((index - 1) * length / (count as int) + 1) as nat
    }
}

/// The events of the children `items` of a group that starts at `start`
/// and gives each child `span` ticks, in the order of time. Child `j`
/// starts at `start + j * span`, whatever stands before it; a group
/// among the children divides its span among its own children. An event
/// that never sounds is left out; its span is its own all the same.
pub open spec fn group_steps(items: Seq<Tree>, start: nat, span: nat, length: nat, count: nat) -> Seq<Step>
    decreases items,
{
    if items.len() == 0 {
        Seq::empty()
    } else {
        let at = start + (items.len() - 1) * span;
        let so_far = group_steps(items.drop_last(), start, span, length, count);
        match items.last() {
            Tree::Leaf { value, probability } => if probability != 0 {
                so_far.push(Step { index: stretch(at as nat, length, count), value, probability })
            } else {
                so_far
            },
            Tree::Node(xs) => so_far + group_steps(xs, at as nat, child_span(span, xs.len()), length, count),
            Tree::Alt(_) => so_far,
        }
    }
}

/// The start of every child among `items`, and every index that is
/// recorded, stay within 32 bits.
pub open spec fn group_fits(items: Seq<Tree>, start: nat, span: nat, length: nat, count: nat) -> bool
    decreases items,
{
    if items.len() == 0 {
        true
    } else {
        let at = start + (items.len() - 1) * span;
        &&& group_fits(items.drop_last(), start, span, length, count)
        &&& at <= last_tick()
        &&& match items.last() {
            Tree::Leaf { value, probability } => probability != 0 ==> stretch(at as nat, length, count)
                <= last_tick(),
            Tree::Node(xs) => group_fits(xs, at as nat, child_span(span, xs.len()), length, count),
            Tree::Alt(_) => true,
        }
    }
}

/// The events of one measure that starts at `start` on a grid of
/// `subdivision` ticks. A measure that is a single event has it at
/// index 1.
pub open spec fn measure_steps(t: Tree, start: nat, subdivision: nat, length: nat, count: nat) -> Seq<Step> {
    match t {
        Tree::Leaf { value, probability } => if probability != 0 {
            seq![Step { index: 1, value, probability }]
        } else {
            Seq::empty()
        },
        Tree::Node(items) => group_steps(items, start, child_span(subdivision, items.len()), length, count),
        Tree::Alt(_) => Seq::empty(),
    }
}

/// Every index of the measure stays within 32 bits.
pub open spec fn measure_fits(t: Tree, start: nat, subdivision: nat, length: nat, count: nat) -> bool {
    match t {
        Tree::Node(items) => group_fits(items, start, child_span(subdivision, items.len()), length, count),
        _ => true,
    }
}

/// The least common multiple of `acc` and the branching of every event
/// among the children `items` of a group, where `factor` is the product
/// of the numbers of children of the group and of all groups around it.
pub open spec fn group_grid(items: Seq<Tree>, factor: nat, acc: nat) -> nat
    decreases items,
{
    if items.len() == 0 {
        acc
    } else {
        let before = group_grid(items.drop_last(), factor, acc);
        match items.last() {
            Tree::Node(xs) => group_grid(xs, factor * xs.len(), before),
            _ => spec_lcm(before, factor),
        }
    }
}

/// Every product and every least common multiple on the way to
/// `group_grid` fits in 32 bits.
pub open spec fn group_grid_fits(items: Seq<Tree>, factor: nat, acc: nat) -> bool
    decreases items,
{
    if items.len() == 0 {
        true
    } else {
        let before = group_grid(items.drop_last(), factor, acc);
        &&& group_grid_fits(items.drop_last(), factor, acc)
        &&& match items.last() {
            Tree::Node(xs) => factor * xs.len() <= u32::MAX && group_grid_fits(xs, factor * xs.len(), before),
            _ => spec_lcm(before, factor) <= u32::MAX,
        }
    }
}

/// The smallest grid on which every event of the measure starts on a
/// tick of its own: the least common multiple of the branching of all
/// its events. A measure that is a single event needs one tick.
pub open spec fn measure_grid(t: Tree) -> nat {
    match t {
        Tree::Node(items) => group_grid(items, items.len(), 1),
        _ => 1,
    }
}

/// The grid of the measure can be worked out within 32 bits.
pub open spec fn measure_grid_fits(t: Tree) -> bool {
    match t {
        Tree::Node(items) => items.len() <= u32::MAX && group_grid_fits(items, items.len(), 1),
        _ => true,
    }
}

/// Where the grid of a group fits, so does that of each of its
/// beginnings.
pub proof fn lemma_group_grid_fits_prefix(items: Seq<Tree>, k: int, factor: nat, acc: nat)
    requires
        0 <= k <= items.len(),
        group_grid_fits(items, factor, acc),
    ensures
        group_grid_fits(items.take(k), factor, acc),
    decreases items.len(),
{
    if k < items.len() {
        lemma_group_grid_fits_prefix(items.drop_last(), k, factor, acc);
        assert(items.drop_last().take(k) =~= items.take(k));
    } else {
        assert(items.take(k) =~= items);
    }
}

/// The start of measure `k` of a sequence.
pub open spec fn measure_start(k: nat, subdivision: nat) -> nat {
    1 + k * subdivision
}

/// The events of the first `k` measures of a sequence, each measure
/// starting one grid behind the one before it.
pub open spec fn sequence_steps(measures: Seq<Tree>, k: nat, subdivision: nat, length: nat) -> Seq<Step>
    decreases k,
{
    if k == 0 || k > measures.len() {
        Seq::empty()
    } else {
        sequence_steps(measures, (k - 1) as nat, subdivision, length) + measure_steps(
            measures[k - 1],
            measure_start((k - 1) as nat, subdivision),
            subdivision,
            length,
            measures.len(),
        )
    }
}

/// The start of each of the first `k` measures and every index in them
/// stay within 32 bits.
pub open spec fn sequence_fits(measures: Seq<Tree>, k: nat, subdivision: nat, length: nat) -> bool
    decreases k,
{
    if k == 0 || k > measures.len() {
        true
    } else {
        &&& sequence_fits(measures, (k - 1) as nat, subdivision, length)
        &&& measure_start((k - 1) as nat, subdivision) <= last_tick()
        &&& measure_fits(
            measures[k - 1],
            measure_start((k - 1) as nat, subdivision),
            subdivision,
            length,
            measures.len(),
        )
    }
}

/// The length of a sequence of `count` measures: the length that was
/// asked for where it is greater than `count`, else `count`.
pub open spec fn sequence_length(asked: Option<u32>, count: nat) -> nat {
    match asked {
        Some(l) => if l as nat > count {
            l as nat
        } else {
            count
        },
        None => count,
    }
}

/// Where a group fits, so does each of its beginnings.
pub proof fn lemma_group_fits_prefix(items: Seq<Tree>, k: int, start: nat, span: nat, length: nat, count: nat)
    requires
        0 <= k <= items.len(),
        group_fits(items, start, span, length, count),
    ensures
        group_fits(items.take(k), start, span, length, count),
    decreases items.len(),
{
    if k < items.len() {
        lemma_group_fits_prefix(items.drop_last(), k, start, span, length, count);
        assert(items.drop_last().take(k) =~= items.take(k));
    } else {
        assert(items.take(k) =~= items);
    }
}

/// Where a sequence fits, so does each of its beginnings.
pub proof fn lemma_sequence_fits_prefix(measures: Seq<Tree>, k: nat, j: nat, subdivision: nat, length: nat)
    requires
        j <= k <= measures.len(),
        sequence_fits(measures, k, subdivision, length),
    ensures
        sequence_fits(measures, j, subdivision, length),
    decreases k,
{
    if j < k {
        lemma_sequence_fits_prefix(measures, (k - 1) as nat, j, subdivision, length);
    }
}

/// Dividing a span among the children of nested groups is dividing it by
/// the product of their numbers: a child below groups of `a` and of `k`
/// children has `subdivision / (a * k)` ticks.
pub proof fn lemma_nested_span(subdivision: nat, a: nat, k: nat)
    requires
        a > 0,
        k > 0,
    ensures
        child_span(child_span(subdivision, a), k) == subdivision / (a * k),
{
    vstd::arithmetic::div_mod::lemma_div_denominator(subdivision as int, a as int, k as int);
}

/// The same steps, each `by` ticks later.
pub open spec fn shifted(steps: Seq<Step>, by: nat) -> Seq<Step> {
    Seq::new(
        steps.len(),
        |i: int| Step { index: steps[i].index + by, value: steps[i].value, probability: steps[i].probability },
    )
}

/// Where as many measures are laid out as the sequence is long, every
/// event is recorded at its own tick.
pub proof fn lemma_stretch_same(index: nat, count: nat)
    requires
        index >= 1,
        count > 0,
    ensures
        stretch(index, count, count) == index,
{
    vstd::arithmetic::div_mod::lemma_div_multiples_vanish((index - 1) as int, count as int);
    assert((index - 1) * count == count * (index - 1)) by (nonlinear_arith);
}

/// Where the sequence is not stretched, a group that starts `by` ticks
/// later has the same events, each `by` ticks later.
pub proof fn lemma_shift(items: Seq<Tree>, start: nat, by: nat, span: nat, count: nat)
    requires
        start >= 1,
        count > 0,
    ensures
        group_steps(items, start + by, span, count, count) == shifted(
            group_steps(items, start, span, count, count),
            by,
        ),
    decreases items,
{
    if items.len() == 0 {
        assert(group_steps(items, start + by, span, count, count) =~= shifted(
            group_steps(items, start, span, count, count),
            by,
        ));
    } else {
        let init = items.drop_last();
        lemma_shift(init, start, by, span, count);
        let j = (items.len() - 1) as nat;
        assert(j * span >= 0) by (nonlinear_arith)
            requires
                j >= 0,
                span >= 0,
        ;
        let at = (start + j * span) as nat;
        let so_far = group_steps(init, start, span, count, count);
        match items.last() {
            Tree::Node(xs) => {
                lemma_shift(xs, at, by, child_span(span, xs.len()), count);
                let inner = group_steps(xs, at, child_span(span, xs.len()), count, count);
                assert(shifted(so_far, by) + shifted(inner, by) =~= shifted(so_far + inner, by));
            },
            Tree::Leaf { value, probability } => {
                lemma_stretch_same(at, count);
                lemma_stretch_same(at + by, count);
                if probability != 0 {
                    let step = Step { index: at, value, probability };
                    assert(shifted(so_far, by).push(Step { index: at + by, value, probability }) =~= shifted(
                        so_far.push(step),
                        by,
                    ));
                }
            },
            Tree::Alt(_) => {},
        }
    }
}

/// Of two equal measures of a sequence that is not stretched, one behind
/// the other, the second has the events of the first, each one grid
/// later. This holds of every measure that is a group.
pub proof fn lemma_measure_shift(t: Tree, k: nat, subdivision: nat, count: nat)
    requires
        t is Node,
        count > 0,
    ensures
        measure_steps(t, measure_start(k + 1, subdivision), subdivision, count, count) == shifted(
            measure_steps(t, measure_start(k, subdivision), subdivision, count, count),
            subdivision,
        ),
{
    let items = t->Node_0;
    assert(measure_start(k + 1, subdivision) == measure_start(k, subdivision) + subdivision)
        by (nonlinear_arith)
        requires
            measure_start(k + 1, subdivision) == 1 + (k + 1) * subdivision,
            measure_start(k, subdivision) == 1 + k * subdivision,
    ;
    lemma_shift(
        items,
        measure_start(k, subdivision),
        subdivision,
        child_span(subdivision, items.len()),
        count,
    );
}

/// How many events among the children `items` sound.
pub open spec fn sounding(items: Seq<Tree>) -> nat
    decreases items,
{
    if items.len() == 0 {
        0
    } else {
        sounding(items.drop_last()) + match items.last() {
            Tree::Leaf { value, probability } => if probability != 0 {
                1nat
            } else {
                0nat
            },
            Tree::Node(xs) => sounding(xs),
            Tree::Alt(_) => 0nat,
        }
    }
}

/// A group has one step for each of its events that sound.
pub proof fn lemma_steps_count(items: Seq<Tree>, start: nat, span: nat, length: nat, count: nat)
    ensures
        group_steps(items, start, span, length, count).len() == sounding(items),
    decreases items,
{
    if items.len() > 0 {
        lemma_steps_count(items.drop_last(), start, span, length, count);
        match items.last() {
            Tree::Node(xs) => {
                lemma_steps_count(
                    xs,
                    (start + (items.len() - 1) * span) as nat,
                    child_span(span, xs.len()),
                    length,
                    count,
                );
            },
            _ => {},
        }
    }
}

/// No step has a smaller index than the one before it.
pub open spec fn ascending(steps: Seq<Step>) -> bool {
    forall|i: int, j: int| 0 <= i < j < steps.len() ==> steps[i].index <= steps[j].index
}

/// Every index is at least `low` and at most `high`.
pub open spec fn between(steps: Seq<Step>, low: nat, high: nat) -> bool {
    forall|i: int| 0 <= i < steps.len() ==> low <= (#[trigger] steps[i]).index <= high
}

/// Every step sounds.
pub open spec fn all_sound(steps: Seq<Step>) -> bool {
    forall|i: int| 0 <= i < steps.len() ==> (#[trigger] steps[i]).probability != 0
}

/// How far behind its start the last tick lies on which an event of a
/// group of `k` children with `span` ticks each can start.
pub open spec fn extent(k: nat, span: nat) -> nat {
    if k == 0 || span == 0 {
        0
    } else {
        (k * span - 1) as nat
    }
}

/// A later tick is not recorded earlier, and no tick before 1.
pub proof fn lemma_stretch_grows(a: nat, b: nat, length: nat, count: nat)
    requires
        1 <= a <= b,
        count > 0,
    ensures
        1 <= stretch(a, length, count) <= stretch(b, length, count),
{
    let x = (a - 1) * length;
    let y = (b - 1) * length;
    assert(0 <= x <= y) by (nonlinear_arith)
        requires
            0 <= a - 1 <= b - 1,
            length >= 0,
            x == (a - 1) * length,
            y == (b - 1) * length,
    ;
    vstd::arithmetic::div_mod::lemma_div_is_ordered(x, y, count as int);
    vstd::arithmetic::div_mod::lemma_div_pos_is_pos(x, count as int);
}

/// The last child of a group of `k`, and all that a group in its place
/// holds, starts within the extent of the group, and the children before
/// it do not reach beyond its start.
pub proof fn lemma_extent(k: nat, span: nat, inner: nat)
    requires
        k >= 1,
    ensures
        extent((k - 1) as nat, span) <= (k - 1) * span,
        (k - 1) * span <= extent(k, span),
        (k - 1) * span + extent(inner, child_span(span, inner)) <= extent(k, span),
        extent(inner, child_span(span, inner)) <= span,
        span >= 1 ==> extent(inner, child_span(span, inner)) <= span - 1,
{
    let small = child_span(span, inner);
    let reach = extent(inner, small);
    if inner > 0 {
        vstd::arithmetic::div_mod::lemma_fundamental_div_mod(span as int, inner as int);
        vstd::arithmetic::div_mod::lemma_div_pos_is_pos(span as int, inner as int);
        let q = (span as int) / (inner as int);
        assert(small == q);
        assert(inner * q <= span) by (nonlinear_arith)
            requires
                span == inner * q + (span as int) % (inner as int),
                (span as int) % (inner as int) >= 0,
        ;
        if small > 0 {
            assert(inner * small >= 1) by (nonlinear_arith)
                requires
                    inner >= 1,
                    small >= 1,
            ;
            assert(reach == inner * small - 1);
        } else {
            assert(reach == 0);
        }
    } else {
        assert(reach == 0);
    }
    assert(reach <= span);
    assert(span >= 1 ==> reach <= span - 1);
    assert((k - 1) * span == k * span - span) by (nonlinear_arith);
    assert((k - 1) * span >= 0) by (nonlinear_arith)
        requires
            k >= 1,
            span >= 0,
    ;
    if span == 0 {
        assert(k * span == 0) by (nonlinear_arith)
            requires
                span == 0,
        ;
    } else {
        assert(k * span >= 1) by (nonlinear_arith)
            requires
                k >= 1,
                span >= 1,
        ;
        let j = (k - 1) as nat;
        if j >= 1 {
            assert(j * span >= 1) by (nonlinear_arith)
                requires
                    j >= 1,
                    span >= 1,
            ;
        }
    }
}

/// The steps of a group ascend by index, and lie between the recorded
/// start of the group and the recorded end of its extent.
pub proof fn lemma_group_ascends(items: Seq<Tree>, start: nat, span: nat, length: nat, count: nat)
    requires
        start >= 1,
        count > 0,
    ensures
        ascending(group_steps(items, start, span, length, count)),
        all_sound(group_steps(items, start, span, length, count)),
        between(
            group_steps(items, start, span, length, count),
            stretch(start, length, count),
            stretch(start + extent(items.len(), span), length, count),
        ),
    decreases items,
{
    if items.len() > 0 {
        let init = items.drop_last();
        lemma_group_ascends(init, start, span, length, count);
        let k = items.len();
        let so_far = group_steps(init, start, span, length, count);
        let all = group_steps(items, start, span, length, count);
        let at = (start + (k - 1) * span) as nat;
        let inner = match items.last() {
            Tree::Node(xs) => xs.len(),
            _ => 0,
        };
        lemma_extent(k, span, inner);
        let low = stretch(start, length, count);
        let high = stretch(start + extent(k, span), length, count);
        lemma_stretch_grows(start, start + extent((k - 1) as nat, span), length, count);
        lemma_stretch_grows(start + extent((k - 1) as nat, span), at, length, count);
        lemma_stretch_grows(start, at, length, count);
        lemma_stretch_grows(at, start + extent(k, span), length, count);
        match items.last() {
            Tree::Node(xs) => {
                let small = child_span(span, xs.len());
                let part = group_steps(xs, at, small, length, count);
                lemma_group_ascends(xs, at, small, length, count);
                lemma_stretch_grows(at, at + extent(xs.len(), small), length, count);
                lemma_stretch_grows(at + extent(xs.len(), small), start + extent(k, span), length, count);
                assert forall|i: int| 0 <= i < all.len() implies low <= (#[trigger] all[i]).index <= high
                    && all[i].probability != 0 by {
                    if i < so_far.len() {
                        assert(all[i] == so_far[i]);
                    } else {
                        assert(all[i] == part[i - so_far.len()]);
                    }
                }
                assert forall|i: int, j: int| 0 <= i < j < all.len() implies all[i].index <= all[j].index by {
                    if j < so_far.len() {
                        assert(all[i] == so_far[i] && all[j] == so_far[j]);
                    } else if i < so_far.len() {
                        assert(all[i] == so_far[i]);
                        assert(all[j] == part[j - so_far.len()]);
                    } else {
                        assert(all[i] == part[i - so_far.len()]);
                        assert(all[j] == part[j - so_far.len()]);
                    }
                }
            },
            _ => {
                assert forall|i: int| 0 <= i < all.len() implies low <= (#[trigger] all[i]).index <= high
                    && all[i].probability != 0 by {
                    if i < so_far.len() {
                        assert(all[i] == so_far[i]);
                    }
                }
                assert forall|i: int, j: int| 0 <= i < j < all.len() implies all[i].index <= all[j].index by {
                    assert(all[i] == so_far[i]);
                    if j < so_far.len() {
                        assert(all[j] == so_far[j]);
                    }
                }
            },
        }
    }
}

/// Every measure is a group.
pub open spec fn all_groups(measures: Seq<Tree>) -> bool {
    forall|k: int| 0 <= k < measures.len() ==> (#[trigger] measures[k]) is Node
}

/// How many events of the first `k` measures sound.
pub open spec fn sequence_sounding(measures: Seq<Tree>, k: nat) -> nat
    decreases k,
{
    if k == 0 || k > measures.len() {
        0
    } else {
        sequence_sounding(measures, (k - 1) as nat) + match measures[k - 1] {
            Tree::Node(items) => sounding(items),
            _ => 0,
        }
    }
}

/// The steps of a sequence of groups ascend by index; each of them
/// sounds and has an index of at least 1, none starts behind the measure
/// it belongs to, and there is one for each event that sounds.
pub proof fn lemma_sequence_ascends(measures: Seq<Tree>, k: nat, subdivision: nat, length: nat)
    requires
        k <= measures.len(),
        all_groups(measures),
    ensures
        ascending(sequence_steps(measures, k, subdivision, length)),
        all_sound(sequence_steps(measures, k, subdivision, length)),
        between(
            sequence_steps(measures, k, subdivision, length),
            1,
            stretch(measure_start(k, subdivision), length, measures.len()),
        ),
        sequence_steps(measures, k, subdivision, length).len() == sequence_sounding(measures, k),
    decreases k,
{
    if k > 0 {
        let count = measures.len();
        let j = (k - 1) as nat;
        lemma_sequence_ascends(measures, j, subdivision, length);
        let so_far = sequence_steps(measures, j, subdivision, length);
        let start = measure_start(j, subdivision);
        let next = measure_start(k, subdivision);
        assert(next == start + subdivision && start >= 1) by (nonlinear_arith)
            requires
                next == 1 + k * subdivision,
                start == 1 + j * subdivision,
                k == j + 1,
                j >= 0,
                subdivision >= 0,
        ;
        let t = measures[k - 1];
        assert(t is Node);
        let items = t->Node_0;
        let span = child_span(subdivision, items.len());
        let part = group_steps(items, start, span, length, count);
        assert(measure_steps(t, start, subdivision, length, count) == part);
        let all = sequence_steps(measures, k, subdivision, length);
        assert(all == so_far + part);
        lemma_group_ascends(items, start, span, length, count);
        lemma_steps_count(items, start, span, length, count);
        lemma_extent(1, subdivision, items.len());
        let end = start + extent(items.len(), span);
        lemma_stretch_grows(1, start, length, count);
        lemma_stretch_grows(start, end, length, count);
        lemma_stretch_grows(end, next, length, count);
        lemma_stretch_grows(start, next, length, count);
        let high = stretch(next, length, count);
        assert forall|i: int| 0 <= i < all.len() implies 1 <= (#[trigger] all[i]).index <= high
            && all[i].probability != 0 by {
            if i < so_far.len() {
                assert(all[i] == so_far[i]);
            } else {
                assert(all[i] == part[i - so_far.len()]);
            }
        }
        assert forall|a: int, b: int| 0 <= a < b < all.len() implies all[a].index <= all[b].index by {
            if b < so_far.len() {
                assert(all[a] == so_far[a] && all[b] == so_far[b]);
            } else if a < so_far.len() {
                assert(all[a] == so_far[a]);
                assert(all[b] == part[b - so_far.len()]);
            } else {
                assert(all[a] == part[a - so_far.len()]);
                assert(all[b] == part[b - so_far.len()]);
            }
        }
    } else {
        lemma_stretch_grows(1, measure_start(0, subdivision), length, 1);
    }
}

/// Where a group fits, every index that is recorded is within 32 bits.
pub proof fn lemma_group_steps_fit(items: Seq<Tree>, start: nat, span: nat, length: nat, count: nat)
    requires
        group_fits(items, start, span, length, count),
    ensures
        forall|i: int|
            0 <= i < group_steps(items, start, span, length, count).len() ==> (#[trigger] group_steps(
                items,
                start,
                span,
                length,
                count,
            )[i]).index <= last_tick(),
    decreases items,
{
    if items.len() > 0 {
        let init = items.drop_last();
        lemma_group_steps_fit(init, start, span, length, count);
        let so_far = group_steps(init, start, span, length, count);
        let all = group_steps(items, start, span, length, count);
        let at = (start + (items.len() - 1) * span) as nat;
        match items.last() {
            Tree::Node(xs) => {
                let part = group_steps(xs, at, child_span(span, xs.len()), length, count);
                lemma_group_steps_fit(xs, at, child_span(span, xs.len()), length, count);
                assert forall|i: int| 0 <= i < all.len() implies (#[trigger] all[i]).index <= last_tick() by {
                    if i < so_far.len() {
                        assert(all[i] == so_far[i]);
                    } else {
                        assert(all[i] == part[i - so_far.len()]);
                    }
                }
            },
            _ => {
                assert forall|i: int| 0 <= i < all.len() implies (#[trigger] all[i]).index <= last_tick() by {
                    if i < so_far.len() {
                        assert(all[i] == so_far[i]);
                    }
                }
            },
        }
    }
}

/// How many events stand among the children `items`, whether they sound
/// or not.
pub open spec fn events(items: Seq<Tree>) -> nat
    decreases items,
{
    if items.len() == 0 {
        0
    } else {
        events(items.drop_last()) + match items.last() {
            Tree::Leaf { .. } => 1nat,
            Tree::Node(xs) => events(xs),
            Tree::Alt(_) => 0nat,
        }
    }
}

/// Every event among the children `items` with the index of its place,
/// whether it sounds or not, in the order of time.
pub open spec fn places(items: Seq<Tree>, start: nat, span: nat, length: nat, count: nat) -> Seq<Step>
    decreases items,
{
    if items.len() == 0 {
        Seq::empty()
    } else {
        let at = start + (items.len() - 1) * span;
        let so_far = places(items.drop_last(), start, span, length, count);
        match items.last() {
            Tree::Leaf { value, probability } => so_far.push(
                Step { index: stretch(at as nat, length, count), value, probability },
            ),
            Tree::Node(xs) => so_far + places(xs, at as nat, child_span(span, xs.len()), length, count),
            Tree::Alt(_) => so_far,
        }
    }
}

/// The steps among `steps` that sound, in their order.
pub open spec fn audible(steps: Seq<Step>) -> Seq<Step>
    decreases steps.len(),
{
    if steps.len() == 0 {
        Seq::empty()
    } else if steps.last().probability != 0 {
        audible(steps.drop_last()).push(steps.last())
    } else {
        audible(steps.drop_last())
    }
}

/// The same step with the chance 0.
pub open spec fn silent(step: Step) -> Step {
    Step { index: step.index, value: step.value, probability: 0 }
}

/// The children `items` with the chance of event number `k` set to 0,
/// the events counted from 0 in the order of time.
pub open spec fn hushed(items: Seq<Tree>, k: nat) -> Seq<Tree>
    decreases items,
{
    if items.len() == 0 {
        items
    } else {
        let init = items.drop_last();
        let n = events(init);
        if k < n {
            hushed(init, k).push(items.last())
        } else {
            init.push(
                match items.last() {
                    Tree::Leaf { value, probability } => if k == n {
                        Tree::Leaf { value, probability: 0 }
                    } else {
                        items.last()
                    },
                    Tree::Node(xs) => Tree::Node(hushed(xs, (k - n) as nat)),
                    Tree::Alt(_) => items.last(),
                },
            )
        }
    }
}

/// The steps that sound among steps one after the other.
pub proof fn lemma_audible_add(a: Seq<Step>, b: Seq<Step>)
    ensures
        audible(a + b) == audible(a) + audible(b),
    decreases b.len(),
{
    if b.len() == 0 {
        assert(a + b =~= a);
        assert(audible(a) + audible(b) =~= audible(a));
    } else {
        lemma_audible_add(a, b.drop_last());
        assert((a + b).drop_last() =~= a + b.drop_last());
        assert((a + b).last() == b.last());
        if b.last().probability != 0 {
            assert((audible(a) + audible(b.drop_last())).push(b.last()) =~= audible(a) + audible(
                b.drop_last(),
            ).push(b.last()));
        }
    }
}

/// The steps of a group are those of its places that sound, and it has
/// one place for each of its events.
pub proof fn lemma_steps_of_places(items: Seq<Tree>, start: nat, span: nat, length: nat, count: nat)
    ensures
        group_steps(items, start, span, length, count) == audible(places(items, start, span, length, count)),
        places(items, start, span, length, count).len() == events(items),
    decreases items,
{
    if items.len() > 0 {
        let init = items.drop_last();
        lemma_steps_of_places(init, start, span, length, count);
        let before = places(init, start, span, length, count);
        let at = (start + (items.len() - 1) * span) as nat;
        match items.last() {
            Tree::Leaf { value, probability } => {
                let step = Step { index: stretch(at, length, count), value, probability };
                assert(before.push(step).drop_last() =~= before);
            },
            Tree::Node(xs) => {
                lemma_steps_of_places(xs, at, child_span(span, xs.len()), length, count);
                lemma_audible_add(before, places(xs, at, child_span(span, xs.len()), length, count));
            },
            Tree::Alt(_) => {},
        }
    }
}

/// Setting the chance of one event to 0 changes nothing but the chance
/// at its place: every event keeps its index, its value and its order.
pub proof fn lemma_hushed_places(items: Seq<Tree>, k: nat, start: nat, span: nat, length: nat, count: nat)
    requires
        k < events(items),
    ensures
        hushed(items, k).len() == items.len(),
        events(hushed(items, k)) == events(items),
        places(hushed(items, k), start, span, length, count) == places(
            items,
            start,
            span,
            length,
            count,
        ).update(k as int, silent(places(items, start, span, length, count)[k as int])),
    decreases items,
{
    let init = items.drop_last();
    let n = events(init);
    let now = hushed(items, k);
    let before = places(init, start, span, length, count);
    let all = places(items, start, span, length, count);
    let at = (start + (items.len() - 1) * span) as nat;
    lemma_steps_of_places(init, start, span, length, count);
    lemma_steps_of_places(items, start, span, length, count);
    if k < n {
        lemma_hushed_places(init, k, start, span, length, count);
        assert(now.drop_last() =~= hushed(init, k));
        assert(now.last() == items.last());
        let changed = places(hushed(init, k), start, span, length, count);
        match items.last() {
            Tree::Leaf { value, probability } => {
                let step = Step { index: stretch(at, length, count), value, probability };
                assert(changed.push(step) =~= all.update(k as int, silent(all[k as int])));
            },
            Tree::Node(xs) => {
                let part = places(xs, at, child_span(span, xs.len()), length, count);
                assert(changed + part =~= all.update(k as int, silent(all[k as int])));
            },
            Tree::Alt(_) => {
                assert(changed =~= all.update(k as int, silent(all[k as int])));
            },
        }
    } else {
        assert(now.drop_last() =~= init);
        match items.last() {
            Tree::Leaf { value, probability } => {
                let step = Step { index: stretch(at, length, count), value, probability: 0 };
                assert(before.push(step) =~= all.update(k as int, silent(all[k as int])));
            },
            Tree::Node(xs) => {
                let small = child_span(span, xs.len());
                let j = (k - n) as nat;
                lemma_steps_of_places(xs, at, small, length, count);
                lemma_hushed_places(xs, j, at, small, length, count);
                let part = places(xs, at, small, length, count);
                assert(now.last() == Tree::Node(hushed(xs, j)));
                assert(before + part.update(j as int, silent(part[j as int])) =~= all.update(
                    k as int,
                    silent(all[k as int]),
                ));
            },
            Tree::Alt(_) => {},
        }
    }
}

/// The steps of a group in which one event that sounds is silenced are
/// the steps of the group without the step of that event: every other
/// step keeps its index, its event and its place in the order.
pub proof fn lemma_hush(items: Seq<Tree>, k: nat, start: nat, span: nat, length: nat, count: nat)
    requires
        k < events(items),
        places(items, start, span, length, count)[k as int].probability != 0,
    ensures
        group_steps(hushed(items, k), start, span, length, count) == group_steps(
            items,
            start,
            span,
            length,
            count,
        ).remove(audible(places(items, start, span, length, count).take(k as int)).len() as int),
{
    let all = places(items, start, span, length, count);
    lemma_steps_of_places(items, start, span, length, count);
    lemma_hushed_places(items, k, start, span, length, count);
    lemma_steps_of_places(hushed(items, k), start, span, length, count);
    let front = all.take(k as int);
    let back = all.skip(k as int + 1);
    let one = seq![all[k as int]];
    let none = seq![silent(all[k as int])];
    assert(all =~= front + one + back);
    assert(all.update(k as int, silent(all[k as int])) =~= front + none + back);
    lemma_audible_add(front, one);
    lemma_audible_add(front + one, back);
    lemma_audible_add(front, none);
    lemma_audible_add(front + none, back);
    assert(one.drop_last() =~= Seq::<Step>::empty());
    assert(none.drop_last() =~= Seq::<Step>::empty());
    assert(audible(Seq::<Step>::empty()) =~= Seq::<Step>::empty());
    assert(one.last() == all[k as int]);
    assert(audible(one) =~= one);
    assert(audible(none) =~= Seq::<Step>::empty());
    let rank = audible(front).len() as int;
    assert((audible(front) + one + audible(back)).remove(rank) =~= audible(front) + audible(back));
    assert(audible(front) + Seq::<Step>::empty() + audible(back) =~= audible(front) + audible(back));
}

/// Where as many measures are laid out as the sequence is long, the
/// steps of a group do not depend on how many measures there are.
pub proof fn lemma_unstretched(items: Seq<Tree>, start: nat, span: nat, count: nat)
    requires
        start >= 1,
        count > 0,
    ensures
        group_steps(items, start, span, count, count) == group_steps(items, start, span, 1, 1),
        group_fits(items, start, span, count, count) == group_fits(items, start, span, 1, 1),
    decreases items,
{
    if items.len() > 0 {
        lemma_unstretched(items.drop_last(), start, span, count);
        let j = (items.len() - 1) as nat;
        assert(j * span >= 0) by (nonlinear_arith)
            requires
                j >= 0,
                span >= 0,
        ;
        let at = (start + j * span) as nat;
        lemma_stretch_same(at, count);
        lemma_stretch_same(at, 1);
        match items.last() {
            Tree::Node(xs) => {
                lemma_unstretched(xs, at, child_span(span, xs.len()), count);
            },
            _ => {},
        }
    }
}

/// The steps of a measure in which one event that sounds is silenced are
/// the steps of the measure without the step of that event, whatever
/// the start, the grid and the length: every other step keeps its
/// index, its event and its place in the order.
pub proof fn lemma_hush_measure(
    items: Seq<Tree>,
    k: nat,
    start: nat,
    subdivision: nat,
    length: nat,
    count: nat,
)
    requires
        k < events(items),
        places(items, start, child_span(subdivision, items.len()), length, count)[k as int].probability != 0,
    ensures
        measure_steps(Tree::Node(hushed(items, k)), start, subdivision, length, count) == measure_steps(
            Tree::Node(items),
            start,
            subdivision,
            length,
            count,
        ).remove(
            audible(places(items, start, child_span(subdivision, items.len()), length, count).take(k as int)).len() as int,
        ),
{
    let span = child_span(subdivision, items.len());
    lemma_hushed_places(items, k, start, span, length, count);
    lemma_hush(items, k, start, span, length, count);
}

/// The grid of a group, taken from `acc` on, is the least common multiple
/// of `acc` and the grid of the group by itself.
pub proof fn lemma_grid_from(items: Seq<Tree>, factor: nat, acc: nat)
    requires
        factor > 0,
        acc > 0,
    ensures
        group_grid(items, factor, acc) == spec_lcm(acc, group_grid(items, factor, 1)),
        group_grid(items, factor, 1) > 0,
        group_grid(items, factor, acc) > 0,
    decreases items,
{
    if items.len() == 0 {
        lemma_lcm_one(acc);
        lemma_lcm_commutes(acc, 1);
    } else {
        let init = items.drop_last();
        lemma_grid_from(init, factor, acc);
        lemma_grid_from(init, factor, 1);
        let alone = group_grid(init, factor, 1);
        let before = group_grid(init, factor, acc);
        match items.last() {
            Tree::Node(xs) => {
                let inner = factor * xs.len();
                if xs.len() == 0 {
                    assert(inner == 0) by (nonlinear_arith)
                        requires
                            inner == factor * xs.len(),
                            xs.len() == 0,
                    ;
                } else {
                    assert(inner > 0) by (nonlinear_arith)
                        requires
                            inner == factor * xs.len(),
                            factor > 0,
                            xs.len() > 0,
                    ;
                    lemma_grid_from(xs, inner, before);
                    lemma_grid_from(xs, inner, alone);
                    let part = group_grid(xs, inner, 1);
                    lemma_lcm_associates(acc, alone, part);
                    lemma_lcm_bounds(alone, part);
                }
            },
            _ => {
                lemma_lcm_associates(acc, alone, factor);
                lemma_lcm_bounds(alone, factor);
                lemma_lcm_bounds(before, factor);
            },
        }
    }
}

/// The grid of children one after the other is the grid of the later
/// ones, taken from the grid of the earlier ones on.
pub proof fn lemma_grid_split(a: Seq<Tree>, b: Seq<Tree>, factor: nat, acc: nat)
    ensures
        group_grid(a + b, factor, acc) == group_grid(b, factor, group_grid(a, factor, acc)),
    decreases b.len(),
{
    if b.len() == 0 {
        assert(a + b =~= a);
    } else {
        lemma_grid_split(a, b.drop_last(), factor, acc);
        assert((a + b).drop_last() =~= a + b.drop_last());
        assert((a + b).last() == b.last());
    }
}

/// The grid of a group does not depend on the order of its children: two
/// children that stand side by side may change places.
pub proof fn lemma_grid_swap(a: Seq<Tree>, x: Tree, y: Tree, b: Seq<Tree>, factor: nat, acc: nat)
    requires
        factor > 0,
        acc > 0,
    ensures
        group_grid(a + seq![x, y] + b, factor, acc) == group_grid(a + seq![y, x] + b, factor, acc),
{
    let from = group_grid(a, factor, acc);
    lemma_grid_from(a, factor, acc);
    lemma_grid_split(a, seq![x, y], factor, acc);
    lemma_grid_split(a, seq![y, x], factor, acc);
    lemma_grid_split(a + seq![x, y], b, factor, acc);
    lemma_grid_split(a + seq![y, x], b, factor, acc);
    assert(seq![x, y] =~= seq![x] + seq![y]);
    assert(seq![y, x] =~= seq![y] + seq![x]);
    lemma_grid_split(seq![x], seq![y], factor, from);
    lemma_grid_split(seq![y], seq![x], factor, from);
    let wx = group_grid(seq![x], factor, 1);
    let wy = group_grid(seq![y], factor, 1);
    lemma_grid_from(seq![x], factor, from);
    lemma_grid_from(seq![y], factor, from);
    lemma_grid_from(seq![y], factor, group_grid(seq![x], factor, from));
    lemma_grid_from(seq![x], factor, group_grid(seq![y], factor, from));
    lemma_lcm_associates(from, wx, wy);
    lemma_lcm_associates(from, wy, wx);
    lemma_lcm_commutes(wx, wy);
}

/// The grid of a measure does not depend on the order of its children.
pub proof fn lemma_measure_grid_swap(a: Seq<Tree>, x: Tree, y: Tree, b: Seq<Tree>)
    ensures
        measure_grid(Tree::Node(a + seq![x, y] + b)) == measure_grid(Tree::Node(a + seq![y, x] + b)),
{
    let n = (a + seq![x, y] + b).len();
    assert((a + seq![y, x] + b).len() == n);
    assert(n >= 2);
    lemma_grid_swap(a, x, y, b, n, 1);
}

} // verus!
