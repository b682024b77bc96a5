//! The reader of the notation: each function reads one construct of the
//! grammar at a position of the text.

use crate::error::{Error, ParsingError};
use crate::euclidean::{Euclidean, EuclideanPrimitive};
use crate::expansion::{HarmonicGenerator, Repeated, Replicated};
use crate::generator::Binary;
use crate::grammar;
use crate::grammar::Outcome;
use crate::model::{
    all_well_formed, lemma_node_well_formed, lemma_views_add, lemma_views_push, views, Piece, Tree,
};
use crate::parsed_measure::{lemma_parsed_trees, Parsed, ParsedMeasure, Polymetric, Single};
use crate::primitives::{Alternate, ParsedEvent, PrimitiveGroup};
use crate::sequence::ParsedSequence;
use crate::text::string_of;
use crate::utils::as_nats;
use vstd::prelude::*;
use vstd::string::StringSliceAdditionalSpecFns;

verus! {

/// What reading a construct at a position gives.
pub enum Parse<T> {
    /// The construct, and the position behind it.
    Done(T, usize),
    /// The construct does not start here.
    Fail,
    /// The text cannot be read.
    Halt(Error),
}

/// The reading `r` is what the grammar gives, and ends between `from`
/// and `limit`.
pub open spec fn agrees<T: View>(r: Parse<T>, o: Outcome<T::V>, from: int, limit: int) -> bool {
    match r {
        Parse::Done(v, p) => o == Outcome::Done(v@, p as int) && from <= p <= limit,
        Parse::Fail => o == Outcome::<T::V>::Fail,
        Parse::Halt(e) => o == Outcome::<T::V>::Halt(e),
    }
}

/// The list that was read is what the grammar gives, and ends between
/// `from` and `limit`.
pub open spec fn agrees_each<T: View>(r: Parse<Vec<T>>, o: Outcome<Seq<T::V>>, from: int, limit: int) -> bool {
    match r {
        Parse::Done(v, p) => o == Outcome::Done(views(v@), p as int) && from <= p <= limit,
        Parse::Fail => o == Outcome::<Seq<T::V>>::Fail,
        Parse::Halt(e) => o == Outcome::<Seq<T::V>>::Halt(e),
    }
}

/// The number that was read is what the grammar gives, and ends between
/// `from` and `limit`.
pub open spec fn agrees_number(r: Parse<u32>, o: Outcome<nat>, from: int, limit: int) -> bool {
    match r {
        Parse::Done(v, p) => o == Outcome::Done(v as nat, p as int) && from <= p <= limit,
        Parse::Fail => o == Outcome::<nat>::Fail,
        Parse::Halt(e) => o == Outcome::<nat>::Halt(e),
    }
}

/// Every tree that was read is well formed.
pub open spec fn sound_each<T: View<V = Tree>>(r: Parse<Vec<T>>) -> bool {
    r matches Parse::Done(v, _) ==> all_well_formed(views(v@))
}

/// The tree that was read is well formed.
pub open spec fn sound_one<T: View<V = Tree>>(r: Parse<T>) -> bool {
    r matches Parse::Done(v, _) ==> v@.well_formed()
}

fn is_digit(b: u8) -> (r: bool)
    ensures
        r == grammar::is_digit(b),
{
    48 <= b && b <= 57
}

fn is_alnum(b: u8) -> (r: bool)
    ensures
        r == grammar::is_alnum(b),
{
    is_digit(b) || (65 <= b && b <= 90) || (97 <= b && b <= 122)
}

fn has(s: &[u8], pos: usize, b: u8) -> (r: bool)
    ensures
        r == grammar::has(s@, pos as int, b),
        r ==> pos < usize::MAX,
{
    pos < s.len() && s[pos] == b
}

fn spaced(s: &[u8], pos: usize, b: u8) -> (r: bool)
    ensures
        r == grammar::spaced(s@, pos as int, b),
        r ==> pos + 3 <= s@.len() && pos + 3 <= usize::MAX,
{
    has(s, pos, grammar::SPACE) && has(s, pos + 1, b) && has(s, pos + 2, grammar::SPACE)
}

fn at_harmonic(s: &[u8], pos: usize) -> (r: bool)
    ensures
        r == grammar::at_harmonic(s@, pos as int),
        r ==> pos + 9 <= s@.len() && pos + 9 <= usize::MAX,
{
    has(s, pos, 104) && has(s, pos + 1, 97) && has(s, pos + 2, 114) && has(s, pos + 3, 109) && has(
        s,
        pos + 4,
        111,
    ) && has(s, pos + 5, 110) && has(s, pos + 6, 105) && has(s, pos + 7, 99) && has(
        s,
        pos + 8,
        grammar::PAREN_OPEN,
    )
}

fn at_binary(s: &[u8], pos: usize) -> (r: bool)
    ensures
        r == grammar::at_binary(s@, pos as int),
        r ==> pos + 7 <= s@.len() && pos + 7 <= usize::MAX,
{
    has(s, pos, 98) && has(s, pos + 1, 105) && has(s, pos + 2, 110) && has(s, pos + 3, 97) && has(
        s,
        pos + 4,
        114,
    ) && has(s, pos + 5, 121) && has(s, pos + 6, grammar::PAREN_OPEN)
}

fn alnum_end(s: &[u8], pos: usize) -> (r: usize)
    requires
        pos <= s@.len(),
    ensures
        r as int == grammar::alnum_end(s@, pos as int),
        pos <= r <= s@.len(),
{
    let mut i: usize = pos;
    while i < s.len() && is_alnum(s[i])
        invariant
            pos <= i <= s@.len(),
            grammar::alnum_end(s@, i as int) == grammar::alnum_end(s@, pos as int),
        decreases s@.len() - i,
    {
        i += 1;
    }
    i
}

/// A number of at most `most`.
fn numeral(s: &[u8], pos: usize, most: u32) -> (r: Parse<u32>)
    requires
        pos <= s@.len(),
    ensures
        agrees_number(r, grammar::numeral(s@, pos as int, most as nat), pos + 1, s@.len() as int),
{
    let mut i: usize = pos;
    let mut acc: u64 = 0;
    let mut over = false;
    while i < s.len() && is_digit(s[i])
        invariant
            pos <= i <= s@.len(),
            grammar::digits_end(s@, i as int) == grammar::digits_end(s@, pos as int),
            !over ==> acc as nat == grammar::number(s@, pos as int, i as int) && acc <= most,
            over ==> grammar::number(s@, pos as int, i as int) > most,
        decreases s@.len() - i,
    {
        if !over {
            acc = acc * 10 + (s[i] - 48) as u64;
            if acc > most as u64 {
                over = true;
            }
        }
        i += 1;
    }
    if i == pos {
        Parse::Fail
    } else if over {
        Parse::Halt(Error::EventParsingError)
    } else {
        Parse::Done(acc as u32, i)
    }
}

/// An event.
fn event(s: &[u8], pos: usize) -> (r: Parse<ParsedEvent>)
    requires
        pos <= s@.len(),
    ensures
        agrees(r, grammar::event(s@, pos as int), pos + 1, s@.len() as int),
{
    let end = alnum_end(s, pos);
    if end > pos {
        let value = string_of(s, pos, end);
        if has(s, end, grammar::QUESTION) {
            match numeral(s, end + 1, 255) {
                Parse::Done(p, q) => Parse::Done(ParsedEvent { value, probability: p as u8 }, q),
                Parse::Fail => Parse::Done(ParsedEvent { value, probability: 100 }, end),
                Parse::Halt(e) => Parse::Halt(e),
            }
        } else {
            Parse::Done(ParsedEvent { value, probability: 100 }, end)
        }
    } else if has(s, pos, grammar::TILDE) {
        Parse::Done(ParsedEvent::empty(), pos + 1)
    } else {
        Parse::Fail
    }
}

/// A primitive.
fn primitive(s: &[u8], pos: usize) -> (r: Parse<PrimitiveGroup>)
    requires
        pos <= s@.len(),
    ensures
        agrees(r, grammar::primitive(s@, pos as int), pos + 1, s@.len() as int),
    decreases s@.len() - pos, 2int,
{
    if has(s, pos, grammar::BRACKET_OPEN) {
        match primitive(s, pos + 1) {
            Parse::Done(x, p) => {
                let mut acc: Vec<PrimitiveGroup> = Vec::new();
                acc.push(x);
                proof {
                    assert(views(acc@) =~= seq![x@]);
                }
                match more_primitives(s, p, acc, grammar::SPACE) {
                    Parse::Done(items, q) => {
                        if has(s, q, grammar::BRACKET_CLOSE) {
                            let g = PrimitiveGroup::Group(items);
                            proof {
                                assert(crate::primitives::primitive_trees(g->Group_0@) =~= views(g->Group_0@));
                            }
                            Parse::Done(g, q + 1)
                        } else {
                            Parse::Fail
                        }
                    },
                    Parse::Fail => Parse::Fail,
                    Parse::Halt(e) => Parse::Halt(e),
                }
            },
            Parse::Fail => {
                if has(s, pos + 1, grammar::BRACKET_CLOSE) {
                    let g = PrimitiveGroup::Group(Vec::new());
                    proof {
                        assert(crate::primitives::primitive_trees(g->Group_0@) =~= Seq::<Tree>::empty());
                    }
                    Parse::Done(g, pos + 2)
                } else {
                    Parse::Fail
                }
            },
            Parse::Halt(e) => Parse::Halt(e),
        }
    } else {
        match event(s, pos) {
            Parse::Done(e, p) => Parse::Done(PrimitiveGroup::Single(e), p),
            Parse::Fail => Parse::Fail,
            Parse::Halt(e) => Parse::Halt(e),
        }
    }
}

/// The rest of a list of primitives.
fn more_primitives(s: &[u8], pos: usize, acc: Vec<PrimitiveGroup>, sep: u8) -> (r: Parse<Vec<PrimitiveGroup>>)
    requires
        pos <= s@.len(),
    ensures
        agrees_each(r, grammar::more_primitives(s@, pos as int, views(acc@), sep), pos as int, s@.len() as int),
        r matches Parse::Done(v, _) ==> v@.len() >= acc@.len(),
    decreases s@.len() - pos, 1int,
{
    let mut list = acc;
    let mut at: usize = pos;
    loop
        invariant
            pos <= at <= s@.len(),
            list@.len() >= acc@.len(),
            grammar::more_primitives(s@, at as int, views(list@), sep) == grammar::more_primitives(s@, pos as int, views(acc@), sep),
        decreases s@.len() - at,
    {
        let found = has(s, at, sep);
        if !found {
            return Parse::Done(list, at);
        }
        match primitive(s, at + 1) {
            Parse::Done(x, p) => {
                let ghost held = list@;
                list.push(x);
                proof {
                    lemma_views_push(held, x);
                }
                at = p;
            },
            Parse::Fail => {
                return Parse::Done(list, at);
            },
            Parse::Halt(e) => {
                return Parse::Halt(e);
            },
        }
    }
}

/// An alternation.
fn alternate(s: &[u8], pos: usize) -> (r: Parse<Single>)
    requires
        pos <= s@.len(),
    ensures
        agrees(r, grammar::alternate(s@, pos as int), pos + 1, s@.len() as int),
        sound_one(r),
{
    if has(s, pos, grammar::ANGLE_OPEN) {
        match primitive(s, pos + 1) {
            Parse::Done(x, p) => {
                let mut acc: Vec<PrimitiveGroup> = Vec::new();
                acc.push(x);
                proof {
                    assert(views(acc@) =~= seq![x@]);
                }
                match more_primitives(s, p, acc, grammar::COMMA) {
                    Parse::Done(items, q) => {
                        if has(s, q, grammar::ANGLE_CLOSE) {
                            let a = Alternate(items);
                            proof {
                                assert(crate::primitives::primitive_trees(a.0@) =~= views(a.0@));
                                a.lemma_well_formed();
                            }
                            Parse::Done(Single::Alternate(a), q + 1)
                        } else {
                            Parse::Fail
                        }
                    },
                    Parse::Fail => Parse::Fail,
                    Parse::Halt(e) => Parse::Halt(e),
                }
            },
            Parse::Fail => Parse::Fail,
            Parse::Halt(e) => Parse::Halt(e),
        }
    } else {
        Parse::Fail
    }
}

/// One slot.
fn single(s: &[u8], pos: usize) -> (r: Parse<Single>)
    requires
        pos <= s@.len(),
    ensures
        agrees(r, grammar::single(s@, pos as int), pos + 1, s@.len() as int),
        sound_one(r),
{
    match event(s, pos) {
        Parse::Done(e, p) => Parse::Done(Single::Event(e), p),
        Parse::Fail => alternate(s, pos),
        Parse::Halt(e) => Parse::Halt(e),
    }
}

/// The rest of a list of numbers.
fn more_numerals(s: &[u8], pos: usize, acc: Vec<u32>) -> (r: Parse<Vec<u32>>)
    requires
        pos <= s@.len(),
    ensures
        match r {
            Parse::Done(v, p) => grammar::more_numerals(s@, pos as int, as_nats(acc@)) == Outcome::Done(
                as_nats(v@),
                p as int,
            ) && pos <= p <= s@.len(),
            Parse::Fail => grammar::more_numerals(s@, pos as int, as_nats(acc@)) == Outcome::<Seq<nat>>::Fail,
            Parse::Halt(e) => grammar::more_numerals(s@, pos as int, as_nats(acc@)) == Outcome::<
                Seq<nat>,
            >::Halt(e),
        },
    decreases s@.len() - pos,
{
    let mut list = acc;
    let mut at: usize = pos;
    loop
        invariant
            pos <= at <= s@.len(),
            grammar::more_numerals(s@, at as int, as_nats(list@)) == grammar::more_numerals(s@, pos as int, as_nats(acc@)),
        decreases s@.len() - at,
    {
        let found = has(s, at, grammar::COMMA);
        if !found {
            return Parse::Done(list, at);
        }
        match numeral(s, at + 1, 0xffff_ffff) {
            Parse::Done(x, p) => {
                let ghost held = list@;
                list.push(x);
                proof {
                    assert(as_nats(list@) =~= as_nats(held).push(x as nat));
                }
                at = p;
            },
            Parse::Fail => {
                return Parse::Done(list, at);
            },
            Parse::Halt(e) => {
                return Parse::Halt(e);
            },
        }
    }
}

/// One parameter of a Euclidean rhythm.
fn parameter(s: &[u8], pos: usize) -> (r: Parse<EuclideanPrimitive>)
    requires
        pos <= s@.len(),
    ensures
        agrees(r, grammar::parameter(s@, pos as int), pos + 1, s@.len() as int),
{
    if has(s, pos, grammar::ANGLE_OPEN) {
        match numeral(s, pos + 1, 0xffff_ffff) {
            Parse::Done(x, p) => {
                let mut acc: Vec<u32> = Vec::new();
                acc.push(x);
                proof {
                    assert(as_nats(acc@) =~= seq![x as nat]);
                }
                match more_numerals(s, p, acc) {
                    Parse::Done(xs, q) => {
                        if has(s, q, grammar::ANGLE_CLOSE) {
                            Parse::Done(EuclideanPrimitive::Alternate(xs), q + 1)
                        } else {
                            Parse::Fail
                        }
                    },
                    Parse::Fail => Parse::Fail,
                    Parse::Halt(e) => Parse::Halt(e),
                }
            },
            Parse::Fail => Parse::Fail,
            Parse::Halt(e) => Parse::Halt(e),
        }
    } else {
        match numeral(s, pos, 0xffff_ffff) {
            Parse::Done(x, p) => Parse::Done(EuclideanPrimitive::Single(x), p),
            Parse::Fail => Parse::Fail,
            Parse::Halt(e) => Parse::Halt(e),
        }
    }
}

/// The rest of a list of parameters.
fn more_parameters(s: &[u8], pos: usize, acc: Vec<EuclideanPrimitive>) -> (r: Parse<Vec<EuclideanPrimitive>>)
    requires
        pos <= s@.len(),
    ensures
        agrees_each(r, grammar::more_parameters(s@, pos as int, views(acc@)), pos as int, s@.len() as int),
    decreases s@.len() - pos,
{
    let mut list = acc;
    let mut at: usize = pos;
    loop
        invariant
            pos <= at <= s@.len(),
            grammar::more_parameters(s@, at as int, views(list@)) == grammar::more_parameters(s@, pos as int, views(acc@)),
        decreases s@.len() - at,
    {
        let found = has(s, at, grammar::COMMA);
        if !found {
            return Parse::Done(list, at);
        }
        match parameter(s, at + 1) {
            Parse::Done(x, p) => {
                let ghost held = list@;
                list.push(x);
                proof {
                    lemma_views_push(held, x);
                }
                at = p;
            },
            Parse::Fail => {
                return Parse::Done(list, at);
            },
            Parse::Halt(e) => {
                return Parse::Halt(e);
            },
        }
    }
}

/// The parameters of a Euclidean rhythm.
fn parameters(s: &[u8], pos: usize) -> (r: Parse<Vec<EuclideanPrimitive>>)
    requires
        pos <= s@.len(),
    ensures
        agrees_each(r, grammar::parameters(s@, pos as int), pos + 1, s@.len() as int),
        r matches Parse::Done(v, _) ==> v@.len() == 2 || v@.len() == 3,
{
    if has(s, pos, grammar::PAREN_OPEN) {
        match parameter(s, pos + 1) {
            Parse::Done(x, p) => {
                let mut acc: Vec<EuclideanPrimitive> = Vec::new();
                acc.push(x);
                proof {
                    assert(views(acc@) =~= seq![x@]);
                }
                match more_parameters(s, p, acc) {
                    Parse::Done(xs, q) => {
                        proof {
                            assert(views(xs@).len() == xs@.len());
                        }
                        if (xs.len() == 2 || xs.len() == 3) && has(s, q, grammar::PAREN_CLOSE) {
                            Parse::Done(xs, q + 1)
                        } else {
                            Parse::Fail
                        }
                    },
                    Parse::Fail => Parse::Fail,
                    Parse::Halt(e) => Parse::Halt(e),
                }
            },
            Parse::Fail => Parse::Fail,
            Parse::Halt(e) => Parse::Halt(e),
        }
    } else {
        Parse::Fail
    }
}

/// The slot that a Euclidean construct stands for.
pub fn rhythm_of(
    value: PrimitiveGroup,
    n: EuclideanPrimitive,
    m: EuclideanPrimitive,
    r: Option<EuclideanPrimitive>,
) -> (res: Result<Single, Error>)
    ensures
        ({
            let rotation = match r {
                Some(p) => Some(p@),
                None => None,
            };
            match res {
                Ok(t) => grammar::rhythm_of(value@, n@, m@, rotation) == Ok::<Tree, Error>(t@)
                    && t@.well_formed(),
                Err(e) => grammar::rhythm_of(value@, n@, m@, rotation) == Err::<Tree, Error>(e),
            }
        }),
{
    match Euclidean::create(value, n, m, r) {
        Ok(euclidean) => euclidean.to_single_pattern(),
        Err(e) => Err(e),
    }
}

/// A Euclidean construct.
fn euclid(s: &[u8], pos: usize) -> (r: Parse<Single>)
    requires
        pos <= s@.len(),
    ensures
        agrees(r, grammar::euclid(s@, pos as int), pos + 1, s@.len() as int),
        sound_one(r),
{
    match primitive(s, pos) {
        Parse::Done(value, p) => match parameters(s, p) {
            Parse::Done(xs, q) => {
                let mut xs = xs;
                let ghost all = views(xs@);
                proof {
                    assert(all.len() == xs@.len());
                    assert(forall|k: int| 0 <= k < all.len() ==> all[k] == xs@[k]@);
                }
                let rotation = if xs.len() == 3 {
                    xs.pop()
                } else {
                    None
                };
                let m = match xs.pop() {
                    Some(m) => m,
                    None => {
                        return Parse::Fail;
                    },
                };
                let n = match xs.pop() {
                    Some(n) => n,
                    None => {
                        return Parse::Fail;
                    },
                };
                proof {
                    assert(n@ == all[0]);
                    assert(m@ == all[1]);
                }
                match rhythm_of(value, n, m, rotation) {
                    Ok(t) => Parse::Done(t, q),
                    Err(e) => Parse::Halt(e),
                }
            },
            Parse::Fail => Parse::Fail,
            Parse::Halt(e) => Parse::Halt(e),
        },
        Parse::Fail => Parse::Fail,
        Parse::Halt(e) => Parse::Halt(e),
    }
}

/// Two numbers with a comma between them and a closing bracket.
fn pair(s: &[u8], pos: usize, most: u32) -> (r: Parse<(u32, u32)>)
    requires
        pos <= s@.len(),
    ensures
        match r {
            Parse::Done(v, p) => grammar::pair(s@, pos as int, most as nat) == Outcome::Done(
                (v.0 as nat, v.1 as nat),
                p as int,
            ) && pos < p <= s@.len(),
            Parse::Fail => grammar::pair(s@, pos as int, most as nat) == Outcome::<(nat, nat)>::Fail,
            Parse::Halt(e) => grammar::pair(s@, pos as int, most as nat) == Outcome::<(nat, nat)>::Halt(e),
        },
{
    match numeral(s, pos, 0xffff_ffff) {
        Parse::Done(a, p) => {
            if has(s, p, grammar::COMMA) {
                match numeral(s, p + 1, most) {
                    Parse::Done(b, q) => {
                        if has(s, q, grammar::PAREN_CLOSE) {
                            Parse::Done((a, b), q + 1)
                        } else {
                            Parse::Fail
                        }
                    },
                    Parse::Fail => Parse::Fail,
                    Parse::Halt(e) => Parse::Halt(e),
                }
            } else {
                Parse::Fail
            }
        },
        Parse::Fail => Parse::Fail,
        Parse::Halt(e) => Parse::Halt(e),
    }
}

/// A generator.
fn generator(s: &[u8], pos: usize) -> (r: Parse<Vec<ParsedMeasure>>)
    requires
        pos <= s@.len(),
    ensures
        agrees_each(r, grammar::generator(s@, pos as int), pos + 1, s@.len() as int),
        sound_each(r),
{
    if at_harmonic(s, pos) {
        match pair(s, pos + 9, 0xffff_ffff) {
            Parse::Done(x, q) => {
                let g = HarmonicGenerator { fundamental: x.0, steps: x.1 };
                match g.expand() {
                    Ok(v) => Parse::Done(v, q),
                    Err(e) => Parse::Halt(e),
                }
            },
            Parse::Fail => Parse::Fail,
            Parse::Halt(e) => Parse::Halt(e),
        }
    } else if at_binary(s, pos) {
        match pair(s, pos + 7, 255) {
            Parse::Done(x, q) => {
                let b = Binary { number: x.0, length: x.1 as u8 };
                match b.expand() {
                    Ok(v) => Parse::Done(v, q),
                    Err(e) => Parse::Halt(e),
                }
            },
            Parse::Fail => Parse::Fail,
            Parse::Halt(e) => Parse::Halt(e),
        }
    } else {
        Parse::Fail
    }
}

/// What can be repeated or replicated.
fn operand(s: &[u8], pos: usize) -> (r: Parse<ParsedMeasure>)
    requires
        pos <= s@.len(),
    ensures
        agrees(r, grammar::operand(s@, pos as int), pos + 1, s@.len() as int),
        sound_one(r),
    decreases s@.len() - pos, 2int,
{
    match bracketed(s, pos) {
        Parse::Fail => match euclid(s, pos) {
            Parse::Fail => match single(s, pos) {
                Parse::Done(x, p) => Parse::Done(ParsedMeasure::Single(x), p),
                Parse::Fail => Parse::Fail,
                Parse::Halt(e) => Parse::Halt(e),
            },
            Parse::Done(x, p) => Parse::Done(ParsedMeasure::Single(x), p),
            Parse::Halt(e) => Parse::Halt(e),
        },
        Parse::Done(x, p) => Parse::Done(x, p),
        Parse::Halt(e) => Parse::Halt(e),
    }
}

/// `x` repeated `n` times inside a group of its own.
fn repeat_operand(x: ParsedMeasure, n: u32) -> (v: Vec<ParsedMeasure>)
    requires
        x@.well_formed(),
    ensures
        views(v@) == crate::expansion::repeated(x@, n as nat),
        all_well_formed(views(v@)),
{
    let repeated = Repeated { value: x, repetitions: n as usize };
    proof {
        let inner = crate::expansion::replicated(x@, n as nat);
        assert(all_well_formed(inner));
        lemma_node_well_formed(inner);
    }
    match repeated.expand() {
        Ok(v) => v,
        Err(_) => Vec::new(),
    }
}

/// `x` replicated `n` times.
fn replicate_operand(x: ParsedMeasure, n: u32) -> (v: Vec<ParsedMeasure>)
    requires
        x@.well_formed(),
    ensures
        views(v@) == crate::expansion::replicated(x@, n as nat),
        all_well_formed(views(v@)),
{
    let replicated = Replicated { value: x, replications: n as usize };
    match replicated.expand() {
        Ok(v) => v,
        Err(_) => Vec::new(),
    }
}

/// A repetition or a replication.
fn multiplied(s: &[u8], pos: usize) -> (r: Parse<Vec<ParsedMeasure>>)
    requires
        pos <= s@.len(),
    ensures
        agrees_each(r, grammar::multiplied(s@, pos as int), pos + 1, s@.len() as int),
        sound_each(r),
    decreases s@.len() - pos, 3int,
{
    match operand(s, pos) {
        Parse::Done(x, p) => {
            if has(s, p, grammar::STAR) {
                match numeral(s, p + 1, 0xffff_ffff) {
                    Parse::Done(n, q) => Parse::Done(repeat_operand(x, n), q),
                    Parse::Fail => Parse::Fail,
                    Parse::Halt(e) => Parse::Halt(e),
                }
            } else if has(s, p, grammar::BANG) {
                match numeral(s, p + 1, 0xffff_ffff) {
                    Parse::Done(n, q) => Parse::Done(replicate_operand(x, n), q),
                    Parse::Fail => Parse::Fail,
                    Parse::Halt(e) => Parse::Halt(e),
                }
            } else {
                Parse::Fail
            }
        },
        Parse::Fail => Parse::Fail,
        Parse::Halt(e) => Parse::Halt(e),
    }
}

/// A group in square brackets.
fn bracketed(s: &[u8], pos: usize) -> (r: Parse<ParsedMeasure>)
    requires
        pos <= s@.len(),
    ensures
        agrees(r, grammar::bracketed(s@, pos as int), pos + 1, s@.len() as int),
        sound_one(r),
    decreases s@.len() - pos, 1int,
{
    if has(s, pos, grammar::BRACKET_OPEN) {
        match items(s, pos + 1) {
            Parse::Done(xs, p) => {
                if has(s, p, grammar::BRACKET_CLOSE) {
                    let g = ParsedMeasure::Group(xs);
                    proof {
                        lemma_parsed_trees(g->Group_0@);
                        lemma_node_well_formed(views(g->Group_0@));
                    }
                    Parse::Done(g, p + 1)
                } else {
                    Parse::Fail
                }
            },
            Parse::Fail => Parse::Fail,
            Parse::Halt(e) => Parse::Halt(e),
        }
    } else {
        Parse::Fail
    }
}

/// The list that holds `x` alone.
fn only(x: ParsedMeasure) -> (r: Vec<ParsedMeasure>)
    ensures
        views(r@) == seq![x@],
{
    let mut v: Vec<ParsedMeasure> = Vec::new();
    v.push(x);
    proof {
        assert(views(v@) =~= seq![x@]);
    }
    v
}

/// One item of a group.
fn item(s: &[u8], pos: usize) -> (r: Parse<Vec<ParsedMeasure>>)
    requires
        pos <= s@.len(),
    ensures
        agrees_each(r, grammar::item(s@, pos as int), pos + 1, s@.len() as int),
        sound_each(r),
    decreases s@.len() - pos, 4int,
{
    match generator(s, pos) {
        Parse::Fail => match multiplied(s, pos) {
            Parse::Fail => match euclid(s, pos) {
                Parse::Fail => match bracketed(s, pos) {
                    Parse::Fail => match single(s, pos) {
                        Parse::Done(x, p) => Parse::Done(only(ParsedMeasure::Single(x)), p),
                        Parse::Fail => Parse::Fail,
                        Parse::Halt(e) => Parse::Halt(e),
                    },
                    Parse::Done(x, p) => Parse::Done(only(x), p),
                    Parse::Halt(e) => Parse::Halt(e),
                },
                Parse::Done(x, p) => Parse::Done(only(ParsedMeasure::Single(x)), p),
                Parse::Halt(e) => Parse::Halt(e),
            },
            Parse::Done(v, p) => Parse::Done(v, p),
            Parse::Halt(e) => Parse::Halt(e),
        },
        Parse::Done(v, p) => Parse::Done(v, p),
        Parse::Halt(e) => Parse::Halt(e),
    }
}

/// The items of a group.
fn items(s: &[u8], pos: usize) -> (r: Parse<Vec<ParsedMeasure>>)
    requires
        pos <= s@.len(),
    ensures
        agrees_each(r, grammar::items(s@, pos as int), pos as int, s@.len() as int),
        sound_each(r),
        !(r is Fail),
    decreases s@.len() - pos, 6int,
{
    match item(s, pos) {
        Parse::Done(xs, p) => more_items(s, p, xs),
        Parse::Fail => {
            let v: Vec<ParsedMeasure> = Vec::new();
            proof {
                assert(views(v@) =~= Seq::<Tree>::empty());
            }
            Parse::Done(v, pos)
        },
        Parse::Halt(e) => Parse::Halt(e),
    }
}

/// The rest of the items of a group.
fn more_items(s: &[u8], pos: usize, acc: Vec<ParsedMeasure>) -> (r: Parse<Vec<ParsedMeasure>>)
    requires
        pos <= s@.len(),
        all_well_formed(views(acc@)),
    ensures
        agrees_each(r, grammar::more_items(s@, pos as int, views(acc@)), pos as int, s@.len() as int),
        sound_each(r),
        !(r is Fail),
    decreases s@.len() - pos, 5int,
{
    let mut list = acc;
    let mut at: usize = pos;
    loop
        invariant
            pos <= at <= s@.len(),
            all_well_formed(views(list@)),
            grammar::more_items(s@, at as int, views(list@)) == grammar::more_items(s@, pos as int, views(acc@)),
        decreases s@.len() - at,
    {
        let found = has(s, at, grammar::SPACE);
        if !found {
            return Parse::Done(list, at);
        }
        match item(s, at + 1) {
            Parse::Done(xs, p) => {
                let mut xs = xs;
                let ghost held = list@;
                let ghost added = xs@;
                list.append(&mut xs);
                proof {
                    lemma_views_add(held, added);
                }
                at = p;
            },
            Parse::Fail => {
                return Parse::Done(list, at);
            },
            Parse::Halt(e) => {
                return Parse::Halt(e);
            },
        }
    }
}

/// A polymetric block.
fn polymetric(s: &[u8], pos: usize) -> (r: Parse<Parsed>)
    requires
        pos <= s@.len(),
    ensures
        agrees(r, grammar::polymetric(s@, pos as int), pos + 1, s@.len() as int),
        r matches Parse::Done(v, _) ==> v@.well_formed() && v@.grouped(),
{
    if has(s, pos, grammar::BRACE_OPEN) {
        match items(s, pos + 1) {
            Parse::Done(xs, p) => {
                if has(s, p, grammar::BRACE_CLOSE) && has(s, p + 1, grammar::PERCENT) {
                    match numeral(s, p + 2, 0xffff_ffff) {
                        Parse::Done(length, q) => Parse::Done(
                            Parsed::Polymetric(Polymetric { elements: xs, length }),
                            q,
                        ),
                        Parse::Fail => Parse::Fail,
                        Parse::Halt(e) => Parse::Halt(e),
                    }
                } else {
                    Parse::Fail
                }
            },
            Parse::Fail => Parse::Fail,
            Parse::Halt(e) => Parse::Halt(e),
        }
    } else {
        Parse::Fail
    }
}

/// One measure.
fn measure(s: &[u8], pos: usize) -> (r: Parse<Parsed>)
    requires
        pos <= s@.len(),
    ensures
        agrees(r, grammar::measure(s@, pos as int), pos as int, s@.len() as int),
        r matches Parse::Done(v, _) ==> v@.well_formed() && v@.grouped(),
{
    match polymetric(s, pos) {
        Parse::Fail => match items(s, pos) {
            Parse::Done(xs, p) => {
                let g = ParsedMeasure::Group(xs);
                proof {
                    lemma_parsed_trees(g->Group_0@);
                    lemma_node_well_formed(views(g->Group_0@));
                }
                Parse::Done(Parsed::ParsedMeasure(g), p)
            },
            Parse::Fail => Parse::Fail,
            Parse::Halt(e) => Parse::Halt(e),
        },
        Parse::Done(x, p) => Parse::Done(x, p),
        Parse::Halt(e) => Parse::Halt(e),
    }
}

/// Every measure of `s` is well formed.
pub open spec fn pieces_well_formed(s: Seq<Piece>) -> bool {
    forall|i: int| 0 <= i < s.len() ==> (#[trigger] s[i]).well_formed() && s[i].grouped()
}

/// The rest of the measures of a sequence.
fn more_measures(s: &[u8], pos: usize, acc: Vec<Parsed>) -> (r: Parse<Vec<Parsed>>)
    requires
        pos <= s@.len(),
        pieces_well_formed(views(acc@)),
    ensures
        agrees_each(r, grammar::more_measures(s@, pos as int, views(acc@)), pos as int, s@.len() as int),
        r matches Parse::Done(v, _) ==> pieces_well_formed(views(v@)),
    decreases s@.len() - pos,
{
    let mut list = acc;
    let mut at: usize = pos;
    loop
        invariant
            pos <= at <= s@.len(),
            pieces_well_formed(views(list@)),
            grammar::more_measures(s@, at as int, views(list@)) == grammar::more_measures(s@, pos as int, views(acc@)),
        decreases s@.len() - at,
    {
        let found = spaced(s, at, grammar::BAR);
        if !found {
            return Parse::Done(list, at);
        }
        match measure(s, at + 3) {
            Parse::Done(x, p) => {
                let ghost held = list@;
                list.push(x);
                proof {
                    lemma_views_push(held, x);
                }
                at = p;
            },
            Parse::Fail => {
                return Parse::Done(list, at);
            },
            Parse::Halt(e) => {
                return Parse::Halt(e);
            },
        }
    }
}

/// The measures of a sequence.
fn measures(s: &[u8], pos: usize) -> (r: Parse<Vec<Parsed>>)
    requires
        pos <= s@.len(),
    ensures
        agrees_each(r, grammar::measures(s@, pos as int), pos as int, s@.len() as int),
        r matches Parse::Done(v, _) ==> pieces_well_formed(views(v@)),
{
    match measure(s, pos) {
        Parse::Done(x, p) => {
            let mut acc: Vec<Parsed> = Vec::new();
            acc.push(x);
            proof {
                assert(views(acc@) =~= seq![x@]);
            }
            more_measures(s, p, acc)
        },
        Parse::Fail => {
            let v: Vec<Parsed> = Vec::new();
            proof {
                assert(views(v@) =~= Seq::<Piece>::empty());
            }
            Parse::Done(v, pos)
        },
        Parse::Halt(e) => Parse::Halt(e),
    }
}

/// The length that may close a sequence.
fn closing(s: &[u8], pos: usize) -> (r: Parse<Option<u32>>)
    requires
        pos <= s@.len(),
    ensures
        match r {
            Parse::Done(v, p) => grammar::closing(s@, pos as int) == Outcome::Done(v, p as int) && pos <= p
                <= s@.len(),
            Parse::Fail => grammar::closing(s@, pos as int) == Outcome::<Option<u32>>::Fail,
            Parse::Halt(e) => grammar::closing(s@, pos as int) == Outcome::<Option<u32>>::Halt(e),
        },
{
    if spaced(s, pos, grammar::SLASH) {
        match numeral(s, pos + 3, 0xffff_ffff) {
            Parse::Done(l, q) => Parse::Done(Some(l), q),
            Parse::Fail => Parse::Done(None, pos),
            Parse::Halt(e) => Parse::Halt(e),
        }
    } else {
        Parse::Done(None, pos)
    }
}

/// Reads the bytes of a whole text.
pub fn parse_bytes(s: &[u8]) -> (r: Result<ParsedSequence, Error>)
    ensures
        match r {
            Ok(p) => grammar::sequence(s@) == Ok::<crate::model::Text, Error>(p@) && p.well_formed() && p@.grouped(),
            Err(e) => grammar::sequence(s@) == Err::<crate::model::Text, Error>(e),
        },
{
    parse_from(s, 0)
}

/// Reads the bytes of a text from `pos` on.
fn parse_from(s: &[u8], pos: usize) -> (r: Result<ParsedSequence, Error>)
    requires
        pos <= s@.len(),
    ensures
        match r {
            Ok(p) => grammar::sequence_from(s@, pos as int) == Ok::<crate::model::Text, Error>(p@)
                && p.well_formed() && p@.grouped(),
            Err(e) => grammar::sequence_from(s@, pos as int) == Err::<crate::model::Text, Error>(e),
        },
{
    match measures(s, pos) {
        Parse::Done(ms, p) => match closing(s, p) {
            Parse::Done(length, q) => {
                if q == s.len() {
                    Ok(ParsedSequence { measures: ms, length })
                } else {
                    Err(Error::DSLParsingError(ParsingError::Generic))
                }
            },
            Parse::Fail => Err(Error::DSLParsingError(ParsingError::Generic)),
            Parse::Halt(e) => Err(e),
        },
        Parse::Fail => Err(Error::DSLParsingError(ParsingError::Generic)),
        Parse::Halt(e) => Err(e),
    }
}

/// Reads a text: the measures of a sequence and the length that may
/// close it. A text with anything else in it is refused.
pub fn parse(input: &str) -> (r: Result<ParsedSequence, Error>)
    ensures
        match r {
            Ok(p) => grammar::sequence(input.spec_bytes()) == Ok::<crate::model::Text, Error>(p@)
                && p.well_formed() && p@.grouped(),
            Err(e) => grammar::sequence(input.spec_bytes()) == Err::<crate::model::Text, Error>(e),
        },
{
    parse_bytes(input.as_bytes())
}

/// A sequence with the name of the target that it is meant for.
#[derive(Debug, PartialEq)]
pub struct Targeted {
    pub target: String,
    pub sequence: ParsedSequence,
}

/// The name of the target at the start of the text, and where the
/// sequence behind it starts; `None` where the text does not start with
/// a name and `>` between spaces.
fn target(s: &[u8]) -> (r: Option<(String, usize)>)
    ensures
        match r {
            Some(p) => {
                &&& grammar::alnum_end(s@, 0) > 0
                &&& grammar::spaced(s@, grammar::alnum_end(s@, 0), grammar::ANGLE_CLOSE)
                &&& p.0@ == grammar::target_name(s@)
                &&& p.1 == grammar::alnum_end(s@, 0) + 3
                &&& p.1 <= s@.len()
            },
            None => !(grammar::alnum_end(s@, 0) > 0 && grammar::spaced(
                s@,
                grammar::alnum_end(s@, 0),
                grammar::ANGLE_CLOSE,
            )),
        },
{
    let end = alnum_end(s, 0);
    if end == 0 {
        return None;
    }
    let found = spaced(s, end, grammar::ANGLE_CLOSE);
    if !found {
        return None;
    }
    Some((string_of(s, 0, end), end + 3))
}

/// Reads the bytes of a text for a target.
pub fn parse_targeted_bytes(s: &[u8]) -> (r: Result<Targeted, Error>)
    ensures
        match r {
            Ok(p) => grammar::targeted(s@) == Ok::<crate::model::Text, Error>(p.sequence@) && p.target@
                == grammar::target_name(s@) && p.sequence.well_formed() && p.sequence@.grouped(),
            Err(e) => grammar::targeted(s@) == Err::<crate::model::Text, Error>(e),
        },
{
    match target(s) {
        Some(found) => match parse_from(s, found.1) {
            Ok(sequence) => Ok(Targeted { target: found.0, sequence }),
            Err(e) => Err(e),
        },
        None => Err(Error::DSLParsingError(ParsingError::Generic)),
    }
}

/// Reads a text for a target: the name of the target, `>` between
/// spaces, and a sequence.
pub fn parse_targeted(input: &str) -> (r: Result<Targeted, Error>)
    ensures
        match r {
            Ok(p) => grammar::targeted(input.spec_bytes()) == Ok::<crate::model::Text, Error>(p.sequence@)
                && p.target@ == grammar::target_name(input.spec_bytes()) && p.sequence.well_formed() && p.sequence@.grouped(),
            Err(e) => grammar::targeted(input.spec_bytes()) == Err::<crate::model::Text, Error>(e),
        },
{
    parse_targeted_bytes(input.as_bytes())
}

} // verus!
