//! A text read inside a longer text: what the grammar reads in a text, it
//! reads in the same way where the text stands inside another text and a
//! bar between spaces, or nothing, follows it. From this: a measure
//! written twice, with a bar between, is read as two equal measures.

use crate::grammar::{
    alnum_end, alternate, at_binary, at_harmonic, bracketed, closing, digits_end, euclid, event, generator, has,
    item, items, measure, measures, more_items, more_measures, more_numerals, more_parameters, more_primitives,
    multiplied, number, numeral, operand, pair, parameter, parameters, polymetric, primitive, sequence,
    sequence_from, single, spaced, Outcome, BAR, SPACE,
};
use crate::model::{Piece, Text, Tree};
use crate::rhythm::Param;
use crate::sequence::{once, twice};
use vstd::prelude::*;

verus! {

/// The text `s` stands in `u` from `d` on, and behind it `u` ends or goes
/// on with a space and a bar.
#[verifier::opaque]
pub open spec fn framed(s: Seq<u8>, u: Seq<u8>, d: int) -> bool {
    &&& 0 <= d
    &&& d + s.len() <= u.len()
    &&& forall|i: int| 0 <= i < s.len() ==> u[d + i] == #[trigger] s[i]
    &&& (d + s.len() == u.len() || (d + s.len() + 1 < u.len() && u[d + s.len()] == SPACE && u[d + s.len()
        + 1] == BAR))
}

/// The same outcome, `d` places further on.
pub open spec fn moved<T>(o: Outcome<T>, d: int) -> Outcome<T> {
    match o {
        Outcome::Done(v, p) => Outcome::Done(v, p + d),
        Outcome::Fail => Outcome::Fail,
        Outcome::Halt(e) => Outcome::Halt(e),
    }
}

/// What was read ends behind `pos` and within the text.
pub open spec fn ends_within<T>(o: Outcome<T>, pos: int, n: int) -> bool {
    o matches Outcome::Done(_, p) ==> pos < p <= n
}

/// What was read ends at or behind `pos` and within the text.
pub open spec fn stays_within<T>(o: Outcome<T>, pos: int, n: int) -> bool {
    o matches Outcome::Done(_, p) ==> pos <= p <= n
}

/// A byte other than a space stands in the longer text where it stands in
/// the text.
proof fn lemma_has(s: Seq<u8>, u: Seq<u8>, d: int, pos: int, b: u8)
    requires
        framed(s, u, d),
        0 <= pos,
        b != SPACE,
    ensures
        pos <= s.len() ==> has(u, d + pos, b) == has(s, pos, b),
        has(s, pos, b) ==> pos < s.len(),
{
    reveal(framed);
    if pos < s.len() {
        assert(u[d + pos] == s[pos]);
    }
}

/// What the longer text holds at a place of the text, and behind its end.
proof fn lemma_inside(s: Seq<u8>, u: Seq<u8>, d: int, pos: int)
    requires
        framed(s, u, d),
        0 <= pos <= s.len(),
    ensures
        0 <= d,
        d + s.len() <= u.len(),
        pos < s.len() ==> u[d + pos] == s[pos],
        pos == s.len() && d + pos < u.len() ==> u[d + pos] == SPACE && d + pos + 1 < u.len() && u[d + pos + 1]
            == BAR,
{
    reveal(framed);
    if pos < s.len() {
        assert(u[d + pos] == s[pos]);
    }
}

/// Digits end in the longer text where they end in the text.
proof fn lemma_digits_end(s: Seq<u8>, u: Seq<u8>, d: int, pos: int)
    requires
        framed(s, u, d),
        0 <= pos <= s.len(),
    ensures
        digits_end(u, d + pos) == digits_end(s, pos) + d,
        pos <= digits_end(s, pos) <= s.len(),
    decreases s.len() - pos,
{
    lemma_inside(s, u, d, pos);
    if pos < s.len() {
        if crate::grammar::is_digit(s[pos]) {
            lemma_digits_end(s, u, d, pos + 1);
        }
    }
}

/// Letters and digits end in the longer text where they end in the text.
proof fn lemma_alnum_end(s: Seq<u8>, u: Seq<u8>, d: int, pos: int)
    requires
        framed(s, u, d),
        0 <= pos <= s.len(),
    ensures
        alnum_end(u, d + pos) == alnum_end(s, pos) + d,
        pos <= alnum_end(s, pos) <= s.len(),
    decreases s.len() - pos,
{
    lemma_inside(s, u, d, pos);
    if pos < s.len() {
        if crate::grammar::is_alnum(s[pos]) {
            lemma_alnum_end(s, u, d, pos + 1);
        }
    }
}

/// Digits write the same number in the longer text.
proof fn lemma_number(s: Seq<u8>, u: Seq<u8>, d: int, from: int, to: int)
    requires
        framed(s, u, d),
        0 <= from <= to <= s.len(),
    ensures
        number(u, d + from, d + to) == number(s, from, to),
    decreases to - from,
{
    lemma_inside(s, u, d, from);
    if from < to {
        lemma_number(s, u, d, from, to - 1);
        lemma_inside(s, u, d, to - 1);
    }
}

/// A number is read in the same way in the longer text.
proof fn lemma_numeral(s: Seq<u8>, u: Seq<u8>, d: int, pos: int, most: nat)
    requires
        framed(s, u, d),
        0 <= pos <= s.len(),
    ensures
        numeral(u, d + pos, most) == moved(numeral(s, pos, most), d),
        ends_within(numeral(s, pos, most), pos, s.len() as int),
{
    lemma_digits_end(s, u, d, pos);
    lemma_number(s, u, d, pos, digits_end(s, pos));
}

/// An event is read in the same way in the longer text.
proof fn lemma_event(s: Seq<u8>, u: Seq<u8>, d: int, pos: int)
    requires
        framed(s, u, d),
        0 <= pos <= s.len(),
    ensures
        event(u, d + pos) == moved(event(s, pos), d),
        ends_within(event(s, pos), pos, s.len() as int),
{
    lemma_alnum_end(s, u, d, pos);
    let end = alnum_end(s, pos);
    lemma_has(s, u, d, end, crate::grammar::QUESTION);
    lemma_has(s, u, d, pos, crate::grammar::TILDE);
    if end > pos {
        let there = u.subrange(d + pos, d + end);
        let here = s.subrange(pos, end);
        lemma_inside(s, u, d, pos);
        assert forall|i: int| 0 <= i < here.len() implies there[i] == #[trigger] here[i] by {
            lemma_inside(s, u, d, pos + i);
        }
        assert(there =~= here);
        if has(s, end, crate::grammar::QUESTION) {
            lemma_numeral(s, u, d, end + 1, 255);
        }
    }
}

/// No primitive and no event starts with a bar.
proof fn lemma_primitive_at_bar(u: Seq<u8>, q: int)
    requires
        0 <= q < u.len(),
        u[q] == BAR,
    ensures
        primitive(u, q) == Outcome::<Tree>::Fail,
        event(u, q) == Outcome::<Tree>::Fail,
{
}

/// A primitive is read in the same way in the longer text.
proof fn lemma_primitive(s: Seq<u8>, u: Seq<u8>, d: int, pos: int)
    requires
        framed(s, u, d),
        0 <= pos <= s.len(),
    ensures
        primitive(u, d + pos) == moved(primitive(s, pos), d),
        ends_within(primitive(s, pos), pos, s.len() as int),
    decreases s.len() - pos, 2int,
{
    lemma_has(s, u, d, pos, crate::grammar::BRACKET_OPEN);
    if has(s, pos, crate::grammar::BRACKET_OPEN) {
        lemma_primitive(s, u, d, pos + 1);
        lemma_has(s, u, d, pos + 1, crate::grammar::BRACKET_CLOSE);
        match primitive(s, pos + 1) {
            Outcome::Done(x, p) => {
                lemma_more_primitives(s, u, d, p, seq![x], SPACE);
                match more_primitives(s, p, seq![x], SPACE) {
                    Outcome::Done(xs, q) => {
                        lemma_has(s, u, d, q, crate::grammar::BRACKET_CLOSE);
                    },
                    _ => {},
                }
            },
            _ => {},
        }
    } else {
        lemma_event(s, u, d, pos);
    }
}

/// The rest of a list of primitives is read in the same way in the longer
/// text.
proof fn lemma_more_primitives(s: Seq<u8>, u: Seq<u8>, d: int, pos: int, acc: Seq<Tree>, sep: u8)
    requires
        framed(s, u, d),
        0 <= pos <= s.len(),
        sep == SPACE || sep == crate::grammar::COMMA,
    ensures
        more_primitives(u, d + pos, acc, sep) == moved(more_primitives(s, pos, acc, sep), d),
        stays_within(more_primitives(s, pos, acc, sep), pos, s.len() as int),
    decreases s.len() - pos, 1int,
{
    lemma_inside(s, u, d, pos);
    if pos < s.len() {
        if has(s, pos, sep) {
            lemma_primitive(s, u, d, pos + 1);
            match primitive(s, pos + 1) {
                Outcome::Done(x, p) => {
                    lemma_more_primitives(s, u, d, p, acc.push(x), sep);
                },
                _ => {},
            }
        }
    } else {
        if d + pos < u.len() && sep == SPACE {
            lemma_primitive_at_bar(u, d + pos + 1);
        }
    }
}

/// An alternation is read in the same way in the longer text.
proof fn lemma_alternate(s: Seq<u8>, u: Seq<u8>, d: int, pos: int)
    requires
        framed(s, u, d),
        0 <= pos <= s.len(),
    ensures
        alternate(u, d + pos) == moved(alternate(s, pos), d),
        ends_within(alternate(s, pos), pos, s.len() as int),
{
    lemma_has(s, u, d, pos, crate::grammar::ANGLE_OPEN);
    if has(s, pos, crate::grammar::ANGLE_OPEN) {
        lemma_primitive(s, u, d, pos + 1);
        match primitive(s, pos + 1) {
            Outcome::Done(x, p) => {
                lemma_more_primitives(s, u, d, p, seq![x], crate::grammar::COMMA);
                match more_primitives(s, p, seq![x], crate::grammar::COMMA) {
                    Outcome::Done(xs, q) => {
                        lemma_has(s, u, d, q, crate::grammar::ANGLE_CLOSE);
                    },
                    _ => {},
                }
            },
            _ => {},
        }
    }
}

/// A slot is read in the same way in the longer text.
proof fn lemma_single(s: Seq<u8>, u: Seq<u8>, d: int, pos: int)
    requires
        framed(s, u, d),
        0 <= pos <= s.len(),
    ensures
        single(u, d + pos) == moved(single(s, pos), d),
        ends_within(single(s, pos), pos, s.len() as int),
{
    lemma_event(s, u, d, pos);
    lemma_alternate(s, u, d, pos);
}

/// The rest of a list of numbers is read in the same way in the longer
/// text.
proof fn lemma_more_numerals(s: Seq<u8>, u: Seq<u8>, d: int, pos: int, acc: Seq<nat>)
    requires
        framed(s, u, d),
        0 <= pos <= s.len(),
    ensures
        more_numerals(u, d + pos, acc) == moved(more_numerals(s, pos, acc), d),
        stays_within(more_numerals(s, pos, acc), pos, s.len() as int),
    decreases s.len() - pos,
{
    lemma_inside(s, u, d, pos);
    lemma_has(s, u, d, pos, crate::grammar::COMMA);
    if has(s, pos, crate::grammar::COMMA) {
        lemma_numeral(s, u, d, pos + 1, u32::MAX as nat);
        match numeral(s, pos + 1, u32::MAX as nat) {
            Outcome::Done(x, p) => {
                lemma_more_numerals(s, u, d, p, acc.push(x));
            },
            _ => {},
        }
    }
}

/// A parameter is read in the same way in the longer text.
proof fn lemma_parameter(s: Seq<u8>, u: Seq<u8>, d: int, pos: int)
    requires
        framed(s, u, d),
        0 <= pos <= s.len(),
    ensures
        parameter(u, d + pos) == moved(parameter(s, pos), d),
        ends_within(parameter(s, pos), pos, s.len() as int),
{
    lemma_has(s, u, d, pos, crate::grammar::ANGLE_OPEN);
    if has(s, pos, crate::grammar::ANGLE_OPEN) {
        lemma_numeral(s, u, d, pos + 1, u32::MAX as nat);
        match numeral(s, pos + 1, u32::MAX as nat) {
            Outcome::Done(x, p) => {
                lemma_more_numerals(s, u, d, p, seq![x]);
                match more_numerals(s, p, seq![x]) {
                    Outcome::Done(xs, q) => {
                        lemma_has(s, u, d, q, crate::grammar::ANGLE_CLOSE);
                    },
                    _ => {},
                }
            },
            _ => {},
        }
    } else {
        lemma_numeral(s, u, d, pos, u32::MAX as nat);
    }
}

/// The rest of a list of parameters is read in the same way in the longer
/// text.
proof fn lemma_more_parameters(s: Seq<u8>, u: Seq<u8>, d: int, pos: int, acc: Seq<Param>)
    requires
        framed(s, u, d),
        0 <= pos <= s.len(),
    ensures
        more_parameters(u, d + pos, acc) == moved(more_parameters(s, pos, acc), d),
        stays_within(more_parameters(s, pos, acc), pos, s.len() as int),
    decreases s.len() - pos,
{
    lemma_inside(s, u, d, pos);
    lemma_has(s, u, d, pos, crate::grammar::COMMA);
    if has(s, pos, crate::grammar::COMMA) {
        lemma_parameter(s, u, d, pos + 1);
        match parameter(s, pos + 1) {
            Outcome::Done(x, p) => {
                lemma_more_parameters(s, u, d, p, acc.push(x));
            },
            _ => {},
        }
    }
}

/// The parameters of a rhythm are read in the same way in the longer text.
proof fn lemma_parameters(s: Seq<u8>, u: Seq<u8>, d: int, pos: int)
    requires
        framed(s, u, d),
        0 <= pos <= s.len(),
    ensures
        parameters(u, d + pos) == moved(parameters(s, pos), d),
        ends_within(parameters(s, pos), pos, s.len() as int),
{
    lemma_has(s, u, d, pos, crate::grammar::PAREN_OPEN);
    if has(s, pos, crate::grammar::PAREN_OPEN) {
        lemma_parameter(s, u, d, pos + 1);
        match parameter(s, pos + 1) {
            Outcome::Done(x, p) => {
                lemma_more_parameters(s, u, d, p, seq![x]);
                match more_parameters(s, p, seq![x]) {
                    Outcome::Done(xs, q) => {
                        lemma_has(s, u, d, q, crate::grammar::PAREN_CLOSE);
                    },
                    _ => {},
                }
            },
            _ => {},
        }
    }
}

/// A Euclidean construct is read in the same way in the longer text.
#[verifier::rlimit(60)]
proof fn lemma_euclid(s: Seq<u8>, u: Seq<u8>, d: int, pos: int)
    requires
        framed(s, u, d),
        0 <= pos <= s.len(),
    ensures
        euclid(u, d + pos) == moved(euclid(s, pos), d),
        ends_within(euclid(s, pos), pos, s.len() as int),
{
    lemma_primitive(s, u, d, pos);
    match primitive(s, pos) {
        Outcome::Done(value, p) => {
            lemma_parameters(s, u, d, p);
        },
        _ => {},
    }
}

/// Two numbers in brackets are read in the same way in the longer text.
proof fn lemma_pair(s: Seq<u8>, u: Seq<u8>, d: int, pos: int, most: nat)
    requires
        framed(s, u, d),
        0 <= pos <= s.len(),
    ensures
        pair(u, d + pos, most) == moved(pair(s, pos, most), d),
        ends_within(pair(s, pos, most), pos, s.len() as int),
{
    lemma_numeral(s, u, d, pos, u32::MAX as nat);
    match numeral(s, pos, u32::MAX as nat) {
        Outcome::Done(a, p) => {
            lemma_has(s, u, d, p, crate::grammar::COMMA);
            if has(s, p, crate::grammar::COMMA) {
                lemma_numeral(s, u, d, p + 1, most);
                match numeral(s, p + 1, most) {
                    Outcome::Done(b, q) => {
                        lemma_has(s, u, d, q, crate::grammar::PAREN_CLOSE);
                    },
                    _ => {},
                }
            }
        },
        _ => {},
    }
}

/// The names of the generators stand in the longer text where they stand
/// in the text.
proof fn lemma_words(s: Seq<u8>, u: Seq<u8>, d: int, pos: int)
    requires
        framed(s, u, d),
        0 <= pos <= s.len(),
    ensures
        at_harmonic(u, d + pos) == at_harmonic(s, pos),
        at_binary(u, d + pos) == at_binary(s, pos),
        at_harmonic(s, pos) ==> pos + 9 <= s.len(),
        at_binary(s, pos) ==> pos + 7 <= s.len(),
{
    lemma_has(s, u, d, pos, 104);
    lemma_has(s, u, d, pos + 1, 97);
    lemma_has(s, u, d, pos + 2, 114);
    lemma_has(s, u, d, pos + 3, 109);
    lemma_has(s, u, d, pos + 4, 111);
    lemma_has(s, u, d, pos + 5, 110);
    lemma_has(s, u, d, pos + 6, 105);
    lemma_has(s, u, d, pos + 7, 99);
    lemma_has(s, u, d, pos + 8, crate::grammar::PAREN_OPEN);
    lemma_has(s, u, d, pos, 98);
    lemma_has(s, u, d, pos + 1, 105);
    lemma_has(s, u, d, pos + 2, 110);
    lemma_has(s, u, d, pos + 3, 97);
    lemma_has(s, u, d, pos + 4, 114);
    lemma_has(s, u, d, pos + 5, 121);
    lemma_has(s, u, d, pos + 6, crate::grammar::PAREN_OPEN);
}

/// A generator is read in the same way in the longer text.
#[verifier::rlimit(60)]
proof fn lemma_generator(s: Seq<u8>, u: Seq<u8>, d: int, pos: int)
    requires
        framed(s, u, d),
        0 <= pos <= s.len(),
    ensures
        generator(u, d + pos) == moved(generator(s, pos), d),
        ends_within(generator(s, pos), pos, s.len() as int),
{
    lemma_words(s, u, d, pos);
    if at_harmonic(s, pos) {
        lemma_pair(s, u, d, pos + 9, u32::MAX as nat);
    } else if at_binary(s, pos) {
        lemma_pair(s, u, d, pos + 7, 255);
    }
}

/// No item starts with a bar.
proof fn lemma_item_at_bar(u: Seq<u8>, q: int)
    requires
        0 <= q < u.len(),
        u[q] == BAR,
    ensures
        item(u, q) == Outcome::<Seq<Tree>>::Fail,
{
    lemma_primitive_at_bar(u, q);
    assert(generator(u, q) == Outcome::<Seq<Tree>>::Fail);
    assert(bracketed(u, q) == Outcome::<Tree>::Fail);
    assert(euclid(u, q) == Outcome::<Tree>::Fail);
    assert(alternate(u, q) == Outcome::<Tree>::Fail);
    assert(single(u, q) == Outcome::<Tree>::Fail);
    assert(operand(u, q) == Outcome::<Tree>::Fail);
    assert(multiplied(u, q) == Outcome::<Seq<Tree>>::Fail);
}

/// An operand is read in the same way in the longer text.
#[verifier::rlimit(60)]
proof fn lemma_operand(s: Seq<u8>, u: Seq<u8>, d: int, pos: int)
    requires
        framed(s, u, d),
        0 <= pos <= s.len(),
    ensures
        operand(u, d + pos) == moved(operand(s, pos), d),
        ends_within(operand(s, pos), pos, s.len() as int),
    decreases s.len() - pos, 2int,
{
    lemma_bracketed(s, u, d, pos);
    lemma_euclid(s, u, d, pos);
    lemma_single(s, u, d, pos);
}

/// A repetition or replication is read in the same way in the longer text.
#[verifier::rlimit(60)]
proof fn lemma_multiplied(s: Seq<u8>, u: Seq<u8>, d: int, pos: int)
    requires
        framed(s, u, d),
        0 <= pos <= s.len(),
    ensures
        multiplied(u, d + pos) == moved(multiplied(s, pos), d),
        ends_within(multiplied(s, pos), pos, s.len() as int),
    decreases s.len() - pos, 3int,
{
    lemma_operand(s, u, d, pos);
    match operand(s, pos) {
        Outcome::Done(x, p) => {
            lemma_has(s, u, d, p, crate::grammar::STAR);
            lemma_has(s, u, d, p, crate::grammar::BANG);
            if has(s, p, crate::grammar::STAR) || has(s, p, crate::grammar::BANG) {
                lemma_numeral(s, u, d, p + 1, u32::MAX as nat);
            }
        },
        _ => {},
    }
}

/// A group in brackets is read in the same way in the longer text.
#[verifier::rlimit(60)]
proof fn lemma_bracketed(s: Seq<u8>, u: Seq<u8>, d: int, pos: int)
    requires
        framed(s, u, d),
        0 <= pos <= s.len(),
    ensures
        bracketed(u, d + pos) == moved(bracketed(s, pos), d),
        ends_within(bracketed(s, pos), pos, s.len() as int),
    decreases s.len() - pos, 1int,
{
    lemma_has(s, u, d, pos, crate::grammar::BRACKET_OPEN);
    if has(s, pos, crate::grammar::BRACKET_OPEN) {
        lemma_items(s, u, d, pos + 1);
        match items(s, pos + 1) {
            Outcome::Done(xs, p) => {
                lemma_has(s, u, d, p, crate::grammar::BRACKET_CLOSE);
            },
            _ => {},
        }
    }
}

/// An item is read in the same way in the longer text.
#[verifier::rlimit(60)]
proof fn lemma_item(s: Seq<u8>, u: Seq<u8>, d: int, pos: int)
    requires
        framed(s, u, d),
        0 <= pos <= s.len(),
    ensures
        item(u, d + pos) == moved(item(s, pos), d),
        ends_within(item(s, pos), pos, s.len() as int),
    decreases s.len() - pos, 4int,
{
    lemma_generator(s, u, d, pos);
    lemma_multiplied(s, u, d, pos);
    lemma_euclid(s, u, d, pos);
    lemma_bracketed(s, u, d, pos);
    lemma_single(s, u, d, pos);
}

/// The items of a group are read in the same way in the longer text.
#[verifier::rlimit(60)]
proof fn lemma_items(s: Seq<u8>, u: Seq<u8>, d: int, pos: int)
    requires
        framed(s, u, d),
        0 <= pos <= s.len(),
    ensures
        items(u, d + pos) == moved(items(s, pos), d),
        stays_within(items(s, pos), pos, s.len() as int),
        !(items(s, pos) is Fail),
    decreases s.len() - pos, 6int,
{
    lemma_inside(s, u, d, pos);
    lemma_item(s, u, d, pos);
    match item(s, pos) {
        Outcome::Done(xs, p) => {
            lemma_more_items(s, u, d, p, xs);
        },
        _ => {},
    }
}

/// The rest of the items of a group is read in the same way in the longer
/// text.
#[verifier::rlimit(60)]
proof fn lemma_more_items(s: Seq<u8>, u: Seq<u8>, d: int, pos: int, acc: Seq<Tree>)
    requires
        framed(s, u, d),
        0 <= pos <= s.len(),
    ensures
        more_items(u, d + pos, acc) == moved(more_items(s, pos, acc), d),
        stays_within(more_items(s, pos, acc), pos, s.len() as int),
        !(more_items(s, pos, acc) is Fail),
    decreases s.len() - pos, 5int,
{
    lemma_inside(s, u, d, pos);
    if pos < s.len() {
        if has(s, pos, SPACE) {
            lemma_item(s, u, d, pos + 1);
            match item(s, pos + 1) {
                Outcome::Done(xs, p) => {
                    lemma_more_items(s, u, d, p, acc + xs);
                },
                _ => {},
            }
        }
    } else {
        if d + pos < u.len() {
            lemma_item_at_bar(u, d + pos + 1);
        }
    }
}

/// A polymetric block is read in the same way in the longer text.
#[verifier::rlimit(60)]
proof fn lemma_polymetric(s: Seq<u8>, u: Seq<u8>, d: int, pos: int)
    requires
        framed(s, u, d),
        0 <= pos <= s.len(),
    ensures
        polymetric(u, d + pos) == moved(polymetric(s, pos), d),
        ends_within(polymetric(s, pos), pos, s.len() as int),
{
    lemma_has(s, u, d, pos, crate::grammar::BRACE_OPEN);
    if has(s, pos, crate::grammar::BRACE_OPEN) {
        lemma_items(s, u, d, pos + 1);
        match items(s, pos + 1) {
            Outcome::Done(xs, p) => {
                lemma_has(s, u, d, p, crate::grammar::BRACE_CLOSE);
                lemma_has(s, u, d, p + 1, crate::grammar::PERCENT);
                if has(s, p, crate::grammar::BRACE_CLOSE) && has(s, p + 1, crate::grammar::PERCENT) {
                    lemma_numeral(s, u, d, p + 2, u32::MAX as nat);
                }
            },
            _ => {},
        }
    }
}

/// One measure is read in the same way where its text stands inside a
/// longer text.
pub proof fn lemma_measure(s: Seq<u8>, u: Seq<u8>, d: int, pos: int)
    requires
        framed(s, u, d),
        0 <= pos <= s.len(),
    ensures
        measure(u, d + pos) == moved(measure(s, pos), d),
        stays_within(measure(s, pos), pos, s.len() as int),
{
    lemma_polymetric(s, u, d, pos);
    lemma_items(s, u, d, pos);
}

/// Where no measure joins a list of measures, the list and the position
/// stay as they are.
proof fn lemma_more_measures_same(s: Seq<u8>, pos: int, acc: Seq<Piece>)
    requires
        more_measures(s, pos, acc) matches Outcome::Done(r, _) && r.len() <= acc.len(),
    ensures
        more_measures(s, pos, acc) == Outcome::Done(acc, pos),
    decreases s.len() - pos,
{
    if spaced(s, pos, BAR) {
        match measure(s, pos + 3) {
            Outcome::Done(x, p) => {
                if pos < p <= s.len() {
                    lemma_more_measures_grows(s, p, acc.push(x));
                }
            },
            _ => {},
        }
    }
}

/// A list of measures does not get shorter.
proof fn lemma_more_measures_grows(s: Seq<u8>, pos: int, acc: Seq<Piece>)
    ensures
        more_measures(s, pos, acc) matches Outcome::Done(r, _) ==> r.len() >= acc.len(),
    decreases s.len() - pos,
{
    if spaced(s, pos, BAR) {
        match measure(s, pos + 3) {
            Outcome::Done(x, p) => {
                if pos < p <= s.len() {
                    lemma_more_measures_grows(s, p, acc.push(x));
                }
            },
            _ => {},
        }
    }
}

/// The whole text `s` is read as `text`.
#[verifier::opaque]
pub open spec fn reads(s: Seq<u8>, text: Text) -> bool {
    sequence(s) == Ok::<Text, crate::error::Error>(text)
}

/// At `pos` of `s` the measure `x` is read, up to `p`.
#[verifier::opaque]
pub open spec fn measured(s: Seq<u8>, pos: int, x: Piece, p: int) -> bool {
    measure(s, pos) == Outcome::Done(x, p)
}

/// A text that is read as one measure is one measure from its start to
/// its end.
pub proof fn lemma_once_shape(s: Seq<u8>, t: Tree)
    requires
        reads(s, once(t)),
    ensures
        measured(s, 0, Piece::Plain(t), s.len() as int),
        t is Node,
{
    reveal(reads);
    reveal(measured);
    let x = Piece::Plain(t);
    match measure(s, 0) {
        Outcome::Done(y, p0) => {
            lemma_more_measures_grows(s, p0, seq![y]);
            match more_measures(s, p0, seq![y]) {
                Outcome::Done(ms, p) => {
                    assert(ms == seq![x]);
                    lemma_more_measures_same(s, p0, seq![y]);
                    assert(y == seq![y][0]);
                },
                _ => {},
            }
        },
        _ => {},
    }
}

/// A measure that is read in a text is read where the text stands inside
/// a longer text.
pub proof fn lemma_measure_moved(s: Seq<u8>, u: Seq<u8>, d: int, x: Piece, p: int)
    requires
        framed(s, u, d),
        measured(s, 0, x, p),
    ensures
        measured(u, d, x, p + d),
{
    reveal(measured);
    lemma_measure(s, u, d, 0);
}

/// Two measures with a bar between spaces, and nothing else, are read as
/// a sequence of the two.
pub proof fn lemma_two_measures(u: Seq<u8>, n: int, x: Piece, y: Piece)
    requires
        0 <= n,
        u.len() == 2 * n + 3,
        u[n] == SPACE,
        u[n + 1] == BAR,
        u[n + 2] == SPACE,
        measured(u, 0, x, n),
        measured(u, n + 3, y, 2 * n + 3),
    ensures
        reads(u, Text { measures: seq![x, y], length: None }),
{
    reveal(reads);
    reveal(measured);
    assert(spaced(u, n, BAR));
    assert(!spaced(u, 2 * n + 3, BAR));
    assert(!spaced(u, 2 * n + 3, crate::grammar::SLASH));
    assert(seq![x].push(y) =~= seq![x, y]);
    assert(more_measures(u, 2 * n + 3, seq![x, y]) == Outcome::Done(seq![x, y], 2 * n + 3));
    assert(more_measures(u, n, seq![x]) == Outcome::Done(seq![x, y], 2 * n + 3));
    assert(measures(u, 0) == Outcome::Done(seq![x, y], 2 * n + 3));
    assert(closing(u, 2 * n + 3) == Outcome::Done(None::<u32>, 2 * n + 3));
    assert(sequence_from(u, 0) == Ok::<Text, crate::error::Error>(Text { measures: seq![x, y], length: None }));
}

/// The text `u` holds the text `s` twice, with a bar between spaces
/// between the two.
pub open spec fn doubled(s: Seq<u8>, u: Seq<u8>) -> bool {
    let n = s.len() as int;
    &&& u.len() == 2 * n + 3
    &&& u[n] == SPACE
    &&& u[n + 1] == BAR
    &&& u[n + 2] == SPACE
    &&& framed(s, u, 0)
    &&& framed(s, u, n + 3)
}

/// A text written twice with a bar between spaces holds the text twice.
proof fn lemma_doubled(s: Seq<u8>)
    ensures
        doubled(s, s + seq![SPACE, BAR, SPACE] + s),
{
    let n = s.len() as int;
    let u = s + seq![SPACE, BAR, SPACE] + s;
    reveal(framed);
    assert(u.len() == 2 * n + 3);
    assert(u[n] == SPACE && u[n + 1] == BAR && u[n + 2] == SPACE);
    assert forall|i: int| 0 <= i < n implies u[0 + i] == #[trigger] s[i] by {}
    assert forall|i: int| 0 <= i < n implies u[n + 3 + i] == #[trigger] s[i] by {}
}

/// A text that holds a one-measure text twice is read as the measure twice.
proof fn lemma_doubled_read(s: Seq<u8>, u: Seq<u8>, t: Tree)
    requires
        reads(s, once(t)),
        doubled(s, u),
    ensures
        reads(u, twice(t)),
{
    let n = s.len() as int;
    let x = Piece::Plain(t);
    lemma_once_shape(s, t);
    lemma_measure_moved(s, u, 0, x, n);
    lemma_measure_moved(s, u, n + 3, x, n);
    lemma_two_measures(u, n, x, x);
}

/// A text that is read as one measure, written twice with a bar between
/// spaces, is read as that measure twice.
pub proof fn lemma_written_twice(s: Seq<u8>, t: Tree)
    requires
        sequence(s) == Ok::<Text, crate::error::Error>(once(t)),
    ensures
        sequence(s + seq![SPACE, BAR, SPACE] + s) == Ok::<Text, crate::error::Error>(twice(t)),
{
    reveal(reads);
    lemma_doubled(s);
    lemma_doubled_read(s, s + seq![SPACE, BAR, SPACE] + s, t);
}

/// A text of one measure whose alternations take one turn, written twice
/// with a bar between spaces, compiles into a pattern of two measures:
/// the steps of the text written once, and the same steps again, each
/// one grid later.
pub proof fn lemma_compiled_twice(s: Seq<u8>, t: Tree, subdivision: Option<u32>)
    requires
        sequence(s) == Ok::<Text, crate::error::Error>(once(t)),
        crate::model::cycle(t) == 1,
        crate::transformed(s + seq![SPACE, BAR, SPACE] + s, subdivision) is Ok,
    ensures
        crate::transformed(s, subdivision) is Ok,
        crate::transformed(s, subdivision)->Ok_0.length == 1,
        crate::transformed(s + seq![SPACE, BAR, SPACE] + s, subdivision)->Ok_0.length == 2,
        crate::transformed(s + seq![SPACE, BAR, SPACE] + s, subdivision)->Ok_0.steps == crate::transformed(
            s,
            subdivision,
        )->Ok_0.steps + crate::timing::shifted(
            crate::transformed(s, subdivision)->Ok_0.steps,
            crate::sequence::grid_of(subdivision) as nat,
        ),
{
    lemma_written_twice(s, t);
    assert(t is Node) by {
        reveal(reads);
        lemma_once_shape(s, t);
    }
    crate::sequence::lemma_twice(t, subdivision);
}

/// No angle bracket opens anywhere in the text.
pub open spec fn mild(s: Seq<u8>) -> bool {
    forall|i: int| 0 <= i < s.len() ==> #[trigger] s[i] != crate::grammar::ANGLE_OPEN
}

/// Neither a bar nor a slash nor an opening angle or curly bracket
/// stands anywhere in the text.
pub open spec fn quiet(s: Seq<u8>) -> bool {
    forall|i: int|
        0 <= i < s.len() ==> {
            &&& #[trigger] s[i] != BAR
            &&& s[i] != crate::grammar::SLASH
            &&& s[i] != crate::grammar::ANGLE_OPEN
            &&& s[i] != crate::grammar::BRACE_OPEN
        }
}

/// Every alternation of the tree has one option.
pub open spec fn calm(t: Tree) -> bool {
    forall|k: int| 0 <= k < t.arities().len() ==> #[trigger] t.arities()[k] == 1
}

/// Every tree of `s` is calm.
pub open spec fn all_calm(s: Seq<Tree>) -> bool {
    forall|k: int| 0 <= k < s.len() ==> calm(#[trigger] s[k])
}

/// The tree that was read is calm.
pub open spec fn calm_one(o: Outcome<Tree>) -> bool {
    o matches Outcome::Done(t, _) ==> calm(t)
}

/// Every tree that was read is calm.
pub open spec fn calm_each(o: Outcome<Seq<Tree>>) -> bool {
    o matches Outcome::Done(ts, _) ==> all_calm(ts)
}

/// The tree that was read is plain.
pub open spec fn plain_one(o: Outcome<Tree>) -> bool {
    o matches Outcome::Done(t, _) ==> t.plain()
}

/// A group of calm trees is calm.
proof fn lemma_node_calm(xs: Seq<Tree>)
    requires
        all_calm(xs),
    ensures
        calm(Tree::Node(xs)),
{
    let parts = crate::model::arity_parts(xs);
    let holds = |a: nat| a == 1;
    assert forall|k: int, j: int| 0 <= k < parts.len() && 0 <= j < parts[k].len() implies holds(
        #[trigger] parts[k][j],
    ) by {
        assert(calm(xs[k]));
        assert(parts[k] == xs[k].arities());
        assert(xs[k].arities()[j] == 1);
    }
    crate::model::lemma_flatten_all(parts, holds);
    let t = Tree::Node(xs);
    assert forall|k: int| 0 <= k < t.arities().len() implies #[trigger] t.arities()[k] == 1 by {
        assert(holds(parts.flatten()[k]));
    }
}

/// A plain tree is calm.
proof fn lemma_plain_calm(t: Tree)
    requires
        t.plain(),
    ensures
        calm(t),
{
    crate::model::lemma_plain_fixed(t, 0);
}

/// The cycle of a calm tree has one turn.
pub proof fn lemma_calm_cycle(t: Tree)
    requires
        calm(t),
    ensures
        crate::model::cycle(t) == 1,
{
    lemma_ones(t.arities(), t.arities().len() as int);
    assert(t.arities().take(t.arities().len() as int) =~= t.arities());
}

/// The least common multiple of ones is 1.
proof fn lemma_ones(s: Seq<nat>, k: int)
    requires
        0 <= k <= s.len(),
        forall|i: int| 0 <= i < s.len() ==> #[trigger] s[i] == 1,
    ensures
        crate::utils::spec_lcm_seq(s.take(k)) == 1,
    decreases k,
{
    if k > 0 {
        lemma_ones(s, k - 1);
        crate::utils::lemma_lcm_seq_step(s, k - 1);
        crate::utils::lemma_lcm_one(1);
        assert(s[k - 1] == 1);
    } else {
        assert(s.take(0) =~= Seq::<nat>::empty());
    }
}

/// A primitive that is read is plain.
proof fn lemma_primitive_plain(s: Seq<u8>, pos: int)
    ensures
        plain_one(primitive(s, pos)),
    decreases s.len() - pos, 2int,
{
    if has(s, pos, crate::grammar::BRACKET_OPEN) {
        lemma_primitive_plain(s, pos + 1);
        match primitive(s, pos + 1) {
            Outcome::Done(x, p) => {
                if pos < p <= s.len() {
                    lemma_more_primitives_plain(s, p, seq![x], SPACE);
                    match more_primitives(s, p, seq![x], SPACE) {
                        Outcome::Done(xs, q) => {
                            let t = Tree::Node(xs);
                            assert(t->Node_0 == xs);
                        },
                        _ => {},
                    }
                }
            },
            Outcome::Fail => {
                let t = Tree::Node(Seq::<Tree>::empty());
                assert(t->Node_0 =~= Seq::<Tree>::empty());
            },
            _ => {},
        }
    }
}

/// A list of primitives that is read holds plain trees.
proof fn lemma_more_primitives_plain(s: Seq<u8>, pos: int, acc: Seq<Tree>, sep: u8)
    requires
        crate::model::all_plain(acc),
    ensures
        more_primitives(s, pos, acc, sep) matches Outcome::Done(xs, _) ==> crate::model::all_plain(xs),
    decreases s.len() - pos, 1int,
{
    if has(s, pos, sep) {
        lemma_primitive_plain(s, pos + 1);
        match primitive(s, pos + 1) {
            Outcome::Done(x, p) => {
                if pos < p <= s.len() {
                    assert forall|i: int| 0 <= i < acc.push(x).len() implies (#[trigger] acc.push(x)[i]).plain() by {
                        if i < acc.len() {
                            assert(acc.push(x)[i] == acc[i]);
                        }
                    }
                    lemma_more_primitives_plain(s, p, acc.push(x), sep);
                }
            },
            _ => {},
        }
    }
}

/// In a text without an opening angle bracket no alternation is read, and
/// every slot is calm.
proof fn lemma_single_calm(s: Seq<u8>, pos: int)
    requires
        mild(s),
    ensures
        calm_one(single(s, pos)),
        calm_one(event(s, pos)),
        alternate(s, pos) == Outcome::<Tree>::Fail,
{
    match event(s, pos) {
        Outcome::Done(t, _) => {
            lemma_plain_calm(t);
        },
        _ => {},
    }
}

/// In a text without an opening angle bracket every parameter is a number.
proof fn lemma_parameter_one(s: Seq<u8>, pos: int)
    requires
        mild(s),
    ensures
        parameter(s, pos) matches Outcome::Done(x, _) ==> x is One,
{
}

/// In a text without an opening angle bracket every parameter of a list is
/// a number.
proof fn lemma_more_parameters_one(s: Seq<u8>, pos: int, acc: Seq<Param>)
    requires
        mild(s),
        forall|i: int| 0 <= i < acc.len() ==> (#[trigger] acc[i]) is One,
    ensures
        more_parameters(s, pos, acc) matches Outcome::Done(xs, _) ==> forall|i: int|
            0 <= i < xs.len() ==> (#[trigger] xs[i]) is One,
    decreases s.len() - pos,
{
    if has(s, pos, crate::grammar::COMMA) {
        lemma_parameter_one(s, pos + 1);
        match parameter(s, pos + 1) {
            Outcome::Done(x, p) => {
                if pos < p <= s.len() {
                    assert forall|i: int| 0 <= i < acc.push(x).len() implies (#[trigger] acc.push(x)[i]) is One by {
                        if i < acc.len() {
                            assert(acc.push(x)[i] == acc[i]);
                        }
                    }
                    lemma_more_parameters_one(s, p, acc.push(x));
                }
            },
            _ => {},
        }
    }
}

/// The slot of a Euclidean construct whose parameters are numbers has one
/// option.
proof fn lemma_rhythm_calm(value: Tree, n: Param, m: Param, r: Option<Param>)
    requires
        n is One,
        m is One,
        r matches Some(p) ==> p is One,
    ensures
        crate::grammar::rhythm_of(value, n, m, r) matches Ok(t) ==> calm(t),
{
    let rotation = crate::rhythm::rotation_or_none(r);
    let arities = seq![n.arity(), m.arity(), rotation.arity()];
    lemma_ones(arities, 3);
    assert(arities.take(3) =~= arities);
    match crate::grammar::rhythm_of(value, n, m, r) {
        Ok(t) => {
            assert(t.arities() =~= seq![1nat]);
        },
        _ => {},
    }
}

/// In a text without an opening angle bracket every Euclidean construct is
/// calm.
proof fn lemma_euclid_calm(s: Seq<u8>, pos: int)
    requires
        mild(s),
    ensures
        calm_one(euclid(s, pos)),
{
    match primitive(s, pos) {
        Outcome::Done(value, p) => {
            if has(s, p, crate::grammar::PAREN_OPEN) {
                lemma_parameter_one(s, p + 1);
                match parameter(s, p + 1) {
                    Outcome::Done(x, q) => {
                        lemma_more_parameters_one(s, q, seq![x]);
                        match more_parameters(s, q, seq![x]) {
                            Outcome::Done(xs, e) => {
                                if xs.len() == 2 || xs.len() == 3 {
                                    let r = if xs.len() == 3 {
                                        Some(xs[2])
                                    } else {
                                        None
                                    };
                                    assert(xs[0] is One);
                                    assert(xs[1] is One);
                                    lemma_rhythm_calm(value, xs[0], xs[1], r);
                                }
                            },
                            _ => {},
                        }
                    },
                    _ => {},
                }
            }
        },
        _ => {},
    }
}

/// What a generator gives is calm.
proof fn lemma_generator_calm(s: Seq<u8>, pos: int)
    ensures
        calm_each(generator(s, pos)),
{
    match generator(s, pos) {
        Outcome::Done(ts, _) => {
            assert forall|k: int| 0 <= k < ts.len() implies calm(#[trigger] ts[k]) by {
                assert(ts[k] is Leaf);
            }
        },
        _ => {},
    }
}

/// In a text without an opening angle bracket every operand is calm.
#[verifier::rlimit(60)]
proof fn lemma_operand_calm(s: Seq<u8>, pos: int)
    requires
        mild(s),
    ensures
        calm_one(operand(s, pos)),
    decreases s.len() - pos, 2int,
{
    lemma_bracketed_calm(s, pos);
    lemma_euclid_calm(s, pos);
    lemma_single_calm(s, pos);
}

/// In a text without an opening angle bracket every repetition and
/// replication is calm.
#[verifier::rlimit(60)]
proof fn lemma_multiplied_calm(s: Seq<u8>, pos: int)
    requires
        mild(s),
    ensures
        calm_each(multiplied(s, pos)),
    decreases s.len() - pos, 3int,
{
    lemma_operand_calm(s, pos);
    match operand(s, pos) {
        Outcome::Done(x, p) => {
            match multiplied(s, pos) {
                Outcome::Done(ts, _) => {
                    if has(s, p, crate::grammar::STAR) {
                        let n = numeral(s, p + 1, u32::MAX as nat)->Done_0;
                        let inner = crate::expansion::replicated(x, n);
                        assert(all_calm(inner));
                        lemma_node_calm(inner);
                        assert forall|k: int| 0 <= k < ts.len() implies calm(#[trigger] ts[k]) by {
                            assert(ts[k] == Tree::Node(inner));
                        }
                    } else {
                        assert forall|k: int| 0 <= k < ts.len() implies calm(#[trigger] ts[k]) by {
                            assert(ts[k] == x);
                        }
                    }
                },
                _ => {},
            }
        },
        _ => {},
    }
}

/// In a text without an opening angle bracket every group in brackets is
/// calm.
#[verifier::rlimit(60)]
proof fn lemma_bracketed_calm(s: Seq<u8>, pos: int)
    requires
        mild(s),
    ensures
        calm_one(bracketed(s, pos)),
    decreases s.len() - pos, 1int,
{
    if has(s, pos, crate::grammar::BRACKET_OPEN) {
        lemma_items_calm(s, pos + 1);
        match items(s, pos + 1) {
            Outcome::Done(xs, p) => {
                lemma_node_calm(xs);
            },
            _ => {},
        }
    }
}

/// In a text without an opening angle bracket every item is calm.
#[verifier::rlimit(60)]
proof fn lemma_item_calm(s: Seq<u8>, pos: int)
    requires
        mild(s),
    ensures
        calm_each(item(s, pos)),
    decreases s.len() - pos, 4int,
{
    lemma_generator_calm(s, pos);
    lemma_multiplied_calm(s, pos);
    lemma_euclid_calm(s, pos);
    lemma_bracketed_calm(s, pos);
    lemma_single_calm(s, pos);
    match item(s, pos) {
        Outcome::Done(ts, _) => {
            assert forall|k: int| 0 <= k < ts.len() implies calm(#[trigger] ts[k]) by {}
        },
        _ => {},
    }
}

/// In a text without an opening angle bracket the items of a group are
/// calm.
#[verifier::rlimit(60)]
proof fn lemma_items_calm(s: Seq<u8>, pos: int)
    requires
        mild(s),
    ensures
        calm_each(items(s, pos)),
    decreases s.len() - pos, 6int,
{
    lemma_item_calm(s, pos);
    match item(s, pos) {
        Outcome::Done(xs, p) => {
            if pos < p <= s.len() {
                lemma_more_items_calm(s, p, xs);
            }
        },
        _ => {},
    }
}

/// In a text without an opening angle bracket the rest of the items of a
/// group is calm.
#[verifier::rlimit(60)]
proof fn lemma_more_items_calm(s: Seq<u8>, pos: int, acc: Seq<Tree>)
    requires
        mild(s),
        all_calm(acc),
    ensures
        calm_each(more_items(s, pos, acc)),
    decreases s.len() - pos, 5int,
{
    if has(s, pos, SPACE) {
        lemma_item_calm(s, pos + 1);
        match item(s, pos + 1) {
            Outcome::Done(xs, p) => {
                if pos < p <= s.len() {
                    assert forall|k: int| 0 <= k < (acc + xs).len() implies calm(#[trigger] (acc + xs)[k]) by {
                        if k < acc.len() {
                            assert((acc + xs)[k] == acc[k]);
                        } else {
                            assert((acc + xs)[k] == xs[k - acc.len()]);
                        }
                    }
                    lemma_more_items_calm(s, p, acc + xs);
                }
            },
            _ => {},
        }
    }
}

/// A quiet text that is read is read as one group whose alternations
/// have one option each.
pub proof fn lemma_quiet_once(s: Seq<u8>, text: Text)
    requires
        quiet(s),
        sequence(s) == Ok::<Text, crate::error::Error>(text),
    ensures
        text.measures.len() == 1,
        text.measures[0] is Plain,
        text == once(text.measures[0]->Plain_0),
        crate::model::cycle(text.measures[0]->Plain_0) == 1,
{
    assert(mild(s));
    lemma_items_calm(s, 0);
    assert(has(s, 0, crate::grammar::BRACE_OPEN) == false);
    assert(polymetric(s, 0) == Outcome::<Piece>::Fail);
    match items(s, 0) {
        Outcome::Done(xs, p) => {
            lemma_node_calm(xs);
            lemma_calm_cycle(Tree::Node(xs));
            let x = Piece::Plain(Tree::Node(xs));
            assert(measure(s, 0) == Outcome::Done(x, p));
            assert(!spaced(s, p, BAR)) by {
                if has(s, p + 1, BAR) {
                    assert(s[p + 1] != BAR);
                }
            }
            assert(!spaced(s, p, crate::grammar::SLASH)) by {
                if has(s, p + 1, crate::grammar::SLASH) {
                    assert(s[p + 1] != crate::grammar::SLASH);
                }
            }
            assert(more_measures(s, p, seq![x]) == Outcome::Done(seq![x], p));
            assert(closing(s, p) == Outcome::Done(None::<u32>, p));
            assert(text.measures =~= seq![x]);
        },
        _ => {},
    }
}

/// A quiet text, written twice with a bar between spaces, compiles into
/// a pattern of two measures: the steps of the text written once, and
/// the same steps again, each one grid later.
pub proof fn lemma_quiet_twice(s: Seq<u8>, subdivision: Option<u32>)
    requires
        quiet(s),
        crate::transformed(s + seq![SPACE, BAR, SPACE] + s, subdivision) is Ok,
        sequence(s) is Ok,
    ensures
        crate::transformed(s, subdivision) is Ok,
        crate::transformed(s, subdivision)->Ok_0.length == 1,
        crate::transformed(s + seq![SPACE, BAR, SPACE] + s, subdivision)->Ok_0.length == 2,
        crate::transformed(s + seq![SPACE, BAR, SPACE] + s, subdivision)->Ok_0.steps == crate::transformed(
            s,
            subdivision,
        )->Ok_0.steps + crate::timing::shifted(
            crate::transformed(s, subdivision)->Ok_0.steps,
            crate::sequence::grid_of(subdivision) as nat,
        ),
{
    let text = sequence(s)->Ok_0;
    lemma_quiet_once(s, text);
    lemma_compiled_twice(s, text.measures[0]->Plain_0, subdivision);
}

} // verus!
